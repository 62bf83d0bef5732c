//! Probe-list generation: the deterministic, duplicate-free order in which
//! candidate (contract account, sub-label) pairs are tried for a query.
//!
//! For labels `parts` (the queried domain without its TLD) and the TLD, each
//! depth `i` contributes one exact probe — contract `dns.<parts[i..]>.<tld>`
//! queried for `parts[..i]` (or `@` at depth zero) — followed, for positive
//! depths, by its wildcard probes from most to least specific: `*.<suffix of
//! parts[..i]>` down to the bare `*`.  A pair equal to an earlier one is
//! skipped.

use vstd::prelude::*;

use crate::text::{join_with, str_views};

verus! {

/// The sequence with every element equal to an earlier one removed.
pub open spec fn dedup<A>(s: Seq<A>) -> Seq<A>
    decreases s.len(),
{
    if s.len() == 0 {
        Seq::empty()
    } else {
        let pre = dedup(s.drop_last());
        if s.drop_last().contains(s.last()) {
            pre
        } else {
            pre.push(s.last())
        }
    }
}

/// The position of the first occurrence of `x` in `s`, negative if absent.
pub open spec fn first_index<A>(s: Seq<A>, x: A) -> int
    decreases s.len(),
{
    if s.len() == 0 {
        -1
    } else if s[0] == x {
        0
    } else {
        let r = first_index(s.drop_first(), x);
        if r < 0 {
            -1
        } else {
            r + 1
        }
    }
}

pub proof fn lemma_first_index_of_member<A>(s: Seq<A>, x: A)
    requires
        s.contains(x),
    ensures
        0 <= first_index(s, x) < s.len(),
        s[first_index(s, x)] == x,
        forall|k: int| 0 <= k < first_index(s, x) ==> s[k] != x,
    decreases s.len(),
{
    if s[0] == x {
    } else {
        let t = s.drop_first();
        assert(t.contains(x)) by {
            let i = choose|i: int| 0 <= i < s.len() && s[i] == x;
            assert(t[i - 1] == x);
        }
        lemma_first_index_of_member(t, x);
        assert(forall|k: int| 0 <= k < first_index(s, x) ==> s[k] != x) by {
            assert(forall|k: int| 1 <= k < s.len() ==> s[k] == t[k - 1]);
        }
    }
}

/// `first_index` is pinned by any position whose prefix omits `x`.
pub proof fn lemma_first_index_at<A>(s: Seq<A>, x: A, i: int)
    requires
        0 <= i < s.len(),
        s[i] == x,
        forall|k: int| 0 <= k < i ==> s[k] != x,
    ensures
        first_index(s, x) == i,
    decreases i,
{
    if i > 0 {
        let t = s.drop_first();
        assert(forall|k: int| 0 <= k < i - 1 ==> t[k] != x) by {
            assert(forall|k: int| 0 <= k < t.len() ==> t[k] == s[k + 1]);
        }
        lemma_first_index_at(t, x, i - 1);
    }
}

pub proof fn lemma_contains_push<A>(s: Seq<A>, e: A, x: A)
    ensures
        s.push(e).contains(x) <==> s.contains(x) || x == e,
{
    if s.push(e).contains(x) {
        let i = choose|i: int| 0 <= i < s.push(e).len() && s.push(e)[i] == x;
        if i < s.len() {
            assert(s[i] == x);
        }
    }
    if s.contains(x) {
        let i = choose|i: int| 0 <= i < s.len() && s[i] == x;
        assert(s.push(e)[i] == x);
    }
    if x == e {
        assert(s.push(e)[s.len() as int] == x);
    }
}

pub proof fn lemma_contains_concat<A>(a: Seq<A>, b: Seq<A>, x: A)
    ensures
        (a + b).contains(x) <==> a.contains(x) || b.contains(x),
{
    if (a + b).contains(x) {
        let i = choose|i: int| 0 <= i < (a + b).len() && (a + b)[i] == x;
        if i < a.len() {
            assert(a[i] == x);
        } else {
            assert(b[i - a.len()] == x);
        }
    }
    if a.contains(x) {
        let i = choose|i: int| 0 <= i < a.len() && a[i] == x;
        assert((a + b)[i] == x);
    }
    if b.contains(x) {
        let i = choose|i: int| 0 <= i < b.len() && b[i] == x;
        assert((a + b)[a.len() + i] == x);
    }
}

/// Removing later duplicates changes no memberships.
pub proof fn lemma_dedup_contains<A>(s: Seq<A>, x: A)
    ensures
        dedup(s).contains(x) <==> s.contains(x),
    decreases s.len(),
{
    if s.len() > 0 {
        let dl = s.drop_last();
        let e = s.last();
        lemma_dedup_contains(dl, x);
        lemma_contains_push(dedup(dl), e, x);
        lemma_contains_push(dl, e, x);
        assert(dl.push(e) =~= s);
    }
}

/// The deduplicated sequence has no repeated element.
pub proof fn lemma_dedup_no_duplicates<A>(s: Seq<A>)
    ensures
        forall|k1: int, k2: int|
            0 <= k1 < k2 < dedup(s).len() ==> dedup(s)[k1] != dedup(s)[k2],
    decreases s.len(),
{
    if s.len() > 0 {
        let dl = s.drop_last();
        let e = s.last();
        lemma_dedup_no_duplicates(dl);
        if !dl.contains(e) {
            lemma_dedup_contains(dl, e);
            assert(!dedup(dl).contains(e));
            assert(forall|k: int| 0 <= k < dedup(dl).len() ==> dedup(dl)[k] != e);
            assert(forall|k1: int, k2: int|
                0 <= k1 < k2 < dedup(s).len() ==> dedup(s)[k1] != dedup(s)[k2]) by {
                assert(forall|k: int|
                    0 <= k < dedup(dl).len() ==> #[trigger] dedup(s)[k] == dedup(dl)[k]);
                assert(dedup(s)[dedup(dl).len() as int] == e);
            }
        }
    }
}

/// `first_index` looks only at the prefix that holds the member.
pub proof fn lemma_first_index_concat_left<A>(a: Seq<A>, b: Seq<A>, x: A)
    requires
        a.contains(x),
    ensures
        first_index(a + b, x) == first_index(a, x),
{
    lemma_first_index_of_member(a, x);
    let i = first_index(a, x);
    assert((a + b)[i] == x);
    assert(forall|k: int| 0 <= k < i ==> (a + b)[k] == a[k]);
    lemma_first_index_at(a + b, x, i);
}

/// A member found only past a prefix is first found past it.
pub proof fn lemma_first_index_concat_right<A>(a: Seq<A>, b: Seq<A>, x: A)
    requires
        !a.contains(x),
        b.contains(x),
    ensures
        first_index(a + b, x) == a.len() + first_index(b, x),
{
    lemma_first_index_of_member(b, x);
    let i = first_index(b, x);
    assert((a + b)[a.len() + i] == x);
    assert(forall|k: int| 0 <= k < a.len() + i ==> (a + b)[k] != x) by {
        assert(forall|k: int| 0 <= k < a.len() ==> (a + b)[k] == a[k]);
        assert(forall|k: int| a.len() <= k < a.len() + i ==> (a + b)[k] == b[k - a.len()]);
    }
    lemma_first_index_at(a + b, x, a.len() + i);
}

/// Dropping later duplicates keeps distinct members in first-occurrence
/// order.
pub proof fn lemma_dedup_keeps_order<A>(s: Seq<A>, x: A, y: A)
    requires
        x != y,
        s.contains(x),
        s.contains(y),
        first_index(s, x) < first_index(s, y),
    ensures
        dedup(s).contains(x),
        dedup(s).contains(y),
        first_index(dedup(s), x) < first_index(dedup(s), y),
    decreases s.len(),
{
    lemma_dedup_contains(s, x);
    lemma_dedup_contains(s, y);
    lemma_first_index_of_member(s, x);
    lemma_first_index_of_member(s, y);
    let dl = s.drop_last();
    let e = s.last();
    assert(dl.push(e) =~= s);
    let fx = first_index(s, x);
    let fy = first_index(s, y);
    if dl.contains(y) {
        // Both first occurrences lie inside the shorter prefix.
        assert(dl.contains(x)) by {
            assert(s[fx] == x && fx < fy < s.len());
            assert(dl[fx] == x);
        }
        assert(first_index(dl, x) == fx) by {
            assert(forall|k: int| 0 <= k < fx ==> dl[k] != x);
            lemma_first_index_at(dl, x, fx);
        }
        assert(first_index(dl, y) == fy) by {
            lemma_first_index_of_member(dl, y);
            let fy2 = first_index(dl, y);
            assert(s[fy2] == y);
            assert(fy <= fy2);
            assert(forall|k: int| 0 <= k < fy ==> dl[k] != y);
            lemma_first_index_at(dl, y, fy);
        }
        lemma_dedup_keeps_order(dl, x, y);
        if dl.contains(e) {
            assert(dedup(s) == dedup(dl));
        } else {
            lemma_dedup_contains(dl, e);
            let d = dedup(dl);
            assert(dedup(s) == d.push(e));
            lemma_first_index_of_member(d, x);
            lemma_first_index_of_member(d, y);
            assert(forall|k: int| 0 <= k < d.len() ==> #[trigger] d.push(e)[k] == d[k]);
            lemma_first_index_at(d.push(e), x, first_index(d, x));
            lemma_first_index_at(d.push(e), y, first_index(d, y));
        }
    } else {
        // The first occurrence of `y` is the final element.
        assert(y == e) by {
            assert(s[fy] == y);
            if fy < dl.len() {
                assert(dl[fy] == y);
            }
        }
        assert(dl.contains(x)) by {
            assert(s[fx] == x && fx < fy < s.len());
            assert(dl[fx] == x);
        }
        let d = dedup(dl);
        assert(dedup(s) == d.push(e));
        lemma_dedup_contains(dl, x);
        lemma_dedup_contains(dl, e);
        assert(!d.contains(e));
        lemma_first_index_of_member(d, x);
        assert(forall|k: int| 0 <= k < d.len() ==> #[trigger] d.push(e)[k] == d[k]);
        lemma_first_index_at(d.push(e), x, first_index(d, x));
        assert(d.push(e)[d.len() as int] == e);
        assert(forall|k: int| 0 <= k < d.len() ==> d.push(e)[k] != e);
        lemma_first_index_at(d.push(e), e, d.len() as int);
    }
}

/// The contract account probed at depth `i`:
/// `dns.` + `parts[i..]` joined with dots + `.` + the TLD.
pub open spec fn contract_id_at(parts: Seq<Seq<char>>, tld: Seq<char>, i: int) -> Seq<char> {
    "dns."@ + join_with(parts.skip(i), '.') + "."@ + tld
}

/// The name asked of the depth-`i` contract for an exact match: the labels
/// below it, or `@` at depth zero.
pub open spec fn base_name_at(parts: Seq<Seq<char>>, i: int) -> Seq<char> {
    if i == 0 {
        "@"@
    } else {
        join_with(parts.take(i), '.')
    }
}

/// The `j`-th wildcard asked of the depth-`i` contract, `j` from 1 (most
/// specific) to `i` (the bare `*`).
pub open spec fn wildcard_at(parts: Seq<Seq<char>>, i: int, j: int) -> Seq<char> {
    if j == i {
        "*"@
    } else {
        "*."@ + join_with(parts.subrange(j, i), '.')
    }
}

/// The exact probe of depth `i`.
pub open spec fn exact_probe(parts: Seq<Seq<char>>, tld: Seq<char>, i: int) -> (
    Seq<char>,
    Seq<char>,
) {
    (contract_id_at(parts, tld, i), base_name_at(parts, i))
}

/// All probes contributed by depth `i`, before duplicates are dropped: the
/// exact probe, then the wildcards from most to least specific.
pub open spec fn block_at(parts: Seq<Seq<char>>, tld: Seq<char>, i: int) -> Seq<
    (Seq<char>, Seq<char>),
> {
    seq![exact_probe(parts, tld, i)] + Seq::new(
        i as nat,
        |j: int| (contract_id_at(parts, tld, i), wildcard_at(parts, i, j + 1)),
    )
}

/// The probes of depths `0 .. n` in order, duplicates kept.
pub open spec fn raw_probes_upto(parts: Seq<Seq<char>>, tld: Seq<char>, n: int) -> Seq<
    (Seq<char>, Seq<char>),
>
    decreases n,
{
    if n <= 0 {
        Seq::empty()
    } else {
        raw_probes_upto(parts, tld, n - 1) + block_at(parts, tld, n - 1)
    }
}

/// The full probe list: every depth's block, first occurrences kept.
pub open spec fn probe_list(parts: Seq<Seq<char>>, tld: Seq<char>) -> Seq<(Seq<char>, Seq<char>)> {
    dedup(raw_probes_upto(parts, tld, parts.len() as int))
}

/// Joining a strictly longer suffix of the labels gives a strictly longer
/// text: each extra label costs at least its separator.
pub proof fn lemma_join_suffix_longer(parts: Seq<Seq<char>>, i: int, j: int)
    requires
        0 <= i < j < parts.len(),
    ensures
        join_with(parts.skip(i), '.').len() > join_with(parts.skip(j), '.').len(),
    decreases j - i,
{
    let si = parts.skip(i);
    assert(si.len() >= 2);
    assert(si.drop_first() =~= parts.skip(i + 1));
    assert(join_with(si, '.') == si[0] + seq!['.'] + join_with(parts.skip(i + 1), '.'));
    if i + 1 < j {
        lemma_join_suffix_longer(parts, i + 1, j);
    }
}

/// Contract accounts at different depths are different texts.
pub proof fn lemma_contract_ids_distinct(parts: Seq<Seq<char>>, tld: Seq<char>, i: int, j: int)
    requires
        0 <= i < parts.len(),
        0 <= j < parts.len(),
        i != j,
    ensures
        contract_id_at(parts, tld, i) != contract_id_at(parts, tld, j),
{
    if i < j {
        lemma_join_suffix_longer(parts, i, j);
    } else {
        lemma_join_suffix_longer(parts, j, i);
    }
    assert(contract_id_at(parts, tld, i).len() != contract_id_at(parts, tld, j).len());
}

/// Every raw probe of the first `n` depths names the contract of one of
/// those depths.
pub proof fn lemma_raw_probe_cids(parts: Seq<Seq<char>>, tld: Seq<char>, n: int)
    requires
        n <= parts.len(),
    ensures
        forall|k: int|
            0 <= k < raw_probes_upto(parts, tld, n).len() ==> exists|i2: int|
                0 <= i2 < n && (#[trigger] raw_probes_upto(parts, tld, n)[k]).0
                    == contract_id_at(parts, tld, i2),
    decreases n,
{
    if n > 0 {
        lemma_raw_probe_cids(parts, tld, n - 1);
        let a = raw_probes_upto(parts, tld, n - 1);
        let b = block_at(parts, tld, n - 1);
        assert(forall|k: int| 0 <= k < b.len() ==> (#[trigger] b[k]).0 == contract_id_at(
            parts,
            tld,
            n - 1,
        ));
        assert(forall|k: int|
            0 <= k < raw_probes_upto(parts, tld, n).len() ==> exists|i2: int|
                0 <= i2 < n && (#[trigger] raw_probes_upto(parts, tld, n)[k]).0
                    == contract_id_at(parts, tld, i2)) by {
            assert forall|k: int| 0 <= k < raw_probes_upto(parts, tld, n).len() implies exists|
                i2: int,
            |
                0 <= i2 < n && (#[trigger] raw_probes_upto(parts, tld, n)[k]).0
                    == contract_id_at(parts, tld, i2) by {
                if k < a.len() {
                    let i2 = choose|i2: int| 0 <= i2 < n - 1 && a[k].0 == contract_id_at(
                        parts,
                        tld,
                        i2,
                    );
                    assert(raw_probes_upto(parts, tld, n)[k] == a[k]);
                    assert(0 <= i2 < n && raw_probes_upto(parts, tld, n)[k].0 == contract_id_at(
                        parts,
                        tld,
                        i2,
                    ));
                } else {
                    assert(raw_probes_upto(parts, tld, n)[k] == b[k - a.len()]);
                    assert(raw_probes_upto(parts, tld, n)[k].0 == contract_id_at(
                        parts,
                        tld,
                        n - 1,
                    ));
                }
            }
        }
    }
}

/// No probe of an earlier depth names the depth-`i` contract.
pub proof fn lemma_depth_pairs_fresh(
    parts: Seq<Seq<char>>,
    tld: Seq<char>,
    i: int,
    nm: Seq<char>,
)
    requires
        0 <= i < parts.len(),
    ensures
        !raw_probes_upto(parts, tld, i).contains((contract_id_at(parts, tld, i), nm)),
{
    let a = raw_probes_upto(parts, tld, i);
    lemma_raw_probe_cids(parts, tld, i);
    if a.contains((contract_id_at(parts, tld, i), nm)) {
        let k = choose|k: int| 0 <= k < a.len() && a[k] == (contract_id_at(parts, tld, i), nm);
        let i2 = choose|i2: int| 0 <= i2 < i && a[k].0 == contract_id_at(parts, tld, i2);
        lemma_contract_ids_distinct(parts, tld, i, i2);
    }
}

/// The views of a sequence of probe pairs.
pub open spec fn pair_views(s: Seq<(String, String)>) -> Seq<(Seq<char>, Seq<char>)> {
    s.map_values(|p: (String, String)| (p.0@, p.1@))
}

fn probes_contain(v: &Vec<(String, String)>, a: &str, b: &str) -> (r: bool)
    ensures
        r == pair_views(v@).contains((a@, b@)),
{
    let n = v.len();
    let mut i: usize = 0;
    while i < n
        invariant
            n == v@.len(),
            i <= n,
            forall|k: int| 0 <= k < i ==> #[trigger] pair_views(v@)[k] != (a@, b@),
        decreases n - i,
    {
        let hit = crate::text::str_eq(v[i].0.as_str(), a) && crate::text::str_eq(
            v[i].1.as_str(),
            b,
        );
        if hit {
            proof {
                assert(pair_views(v@)[i as int] == (a@, b@));
            }
            return true;
        }
        proof {
            assert(pair_views(v@)[i as int] == (v@[i as int].0@, v@[i as int].1@));
        }
        i = i + 1;
    }
    false
}

/// Builds the probe list for the given labels and TLD, exactly as
/// [`probe_list`] states: per depth the exact probe then the wildcards from
/// most to least specific, pairs equal to an earlier one skipped.
pub fn resolution_order(parts: &Vec<String>, tld: &str) -> (r: Vec<(String, String)>)
    ensures
        pair_views(r@) == probe_list(str_views(parts@), tld@),
{
    let ghost pv = str_views(parts@);
    let n = parts.len();
    let mut queries: Vec<(String, String)> = Vec::new();
    proof {
        assert(pair_views(queries@) =~= Seq::<(Seq<char>, Seq<char>)>::empty());
        assert(raw_probes_upto(pv, tld@, 0) =~= Seq::<(Seq<char>, Seq<char>)>::empty());
    }
    let mut i: usize = 0;
    while i < n
        invariant
            pv == str_views(parts@),
            n == parts@.len(),
            i <= n,
            pair_views(queries@) == dedup(raw_probes_upto(pv, tld@, i as int)),
        decreases n - i,
    {
        // The contract account for this depth.
        let mut contract_id = String::from_str("dns.");
        let joined = crate::text::join_range(parts, i, n, '.');
        contract_id.append(joined.as_str());
        contract_id.append(".");
        contract_id.append(tld);
        proof {
            assert(pv.subrange(i as int, n as int) =~= pv.skip(i as int));
            assert(contract_id@ == contract_id_at(pv, tld@, i as int));
        }
        // The exact probe; its contract account is new, so it is never a
        // duplicate.
        let base_name: String = if i == 0 {
            String::from_str("@")
        } else {
            let bn = crate::text::join_range(parts, 0, i, '.');
            proof {
                assert(pv.subrange(0, i as int) =~= pv.take(i as int));
            }
            bn
        };
        proof {
            assert(base_name@ == base_name_at(pv, i as int));
            let raw = raw_probes_upto(pv, tld@, i as int);
            let x = exact_probe(pv, tld@, i as int);
            lemma_depth_pairs_fresh(pv, tld@, i as int, base_name_at(pv, i as int));
            assert(!raw.contains(x));
            assert(raw.push(x).drop_last() =~= raw);
            assert(dedup(raw.push(x)) == dedup(raw).push(x));
            assert(pair_views(queries@.push((contract_id, base_name))) =~= pair_views(
                queries@,
            ).push(x));
            assert(raw.push(x) =~= raw + block_at(pv, tld@, i as int).take(1));
        }
        queries.push((contract_id.clone(), base_name));
        let mut j: usize = 1;
        while j <= i
            invariant
                pv == str_views(parts@),
                n == parts@.len(),
                i < n,
                1 <= j <= i + 1,
                contract_id@ == contract_id_at(pv, tld@, i as int),
                pair_views(queries@) == dedup(
                    raw_probes_upto(pv, tld@, i as int) + block_at(pv, tld@, i as int).take(
                        j as int,
                    ),
                ),
            decreases i + 1 - j,
        {
            let wildcard: String = if j == i {
                String::from_str("*")
            } else {
                let mut w = String::from_str("*.");
                let ws = crate::text::join_range(parts, j, i, '.');
                w.append(ws.as_str());
                w
            };
            proof {
                assert(wildcard@ == wildcard_at(pv, i as int, j as int));
            }
            let dup = probes_contain(&queries, contract_id.as_str(), wildcard.as_str());
            proof {
                let raw = raw_probes_upto(pv, tld@, i as int);
                let blk = block_at(pv, tld@, i as int);
                let s = raw + blk.take(j as int);
                let x = (contract_id@, wildcard@);
                assert(blk[j as int] == x);
                assert(blk.take(j + 1) =~= blk.take(j as int).push(x));
                assert(raw + blk.take(j + 1) =~= (raw + blk.take(j as int)).push(x));
                assert(s.push(x).drop_last() =~= s);
                lemma_dedup_contains(s, x);
                if s.contains(x) {
                    assert(dedup(s.push(x)) == dedup(s));
                } else {
                    assert(dedup(s.push(x)) == dedup(s).push(x));
                }
            }
            if !dup {
                proof {
                    assert(pair_views(queries@.push((contract_id, wildcard))) =~= pair_views(
                        queries@,
                    ).push((contract_id@, wildcard@)));
                }
                queries.push((contract_id.clone(), wildcard));
            }
            j = j + 1;
        }
        proof {
            let blk = block_at(pv, tld@, i as int);
            assert(blk.take(blk.len() as int) =~= blk);
            assert(blk.len() == i + 1);
            assert(raw_probes_upto(pv, tld@, i as int) + blk =~= raw_probes_upto(
                pv,
                tld@,
                i + 1,
            ));
        }
        i = i + 1;
    }
    queries
}

/// The probe list never repeats a pair: it is duplicate-free, and being a
/// function of the labels and the TLD alone, two calls on equal inputs
/// return equal lists.
pub proof fn lemma_probe_list_no_duplicates(parts: Seq<Seq<char>>, tld: Seq<char>)
    ensures
        forall|k1: int, k2: int|
            0 <= k1 < k2 < probe_list(parts, tld).len() ==> probe_list(parts, tld)[k1]
                != probe_list(parts, tld)[k2],
{
    lemma_dedup_no_duplicates(raw_probes_upto(parts, tld, parts.len() as int));
}

/// At every depth the exact probe is on the list, and it precedes each of
/// the depth's wildcard probes (when the wildcard pair is not the exact
/// pair itself, as happens when a queried label is literally `*`).
pub proof fn lemma_exact_precedes_wildcards(
    parts: Seq<Seq<char>>,
    tld: Seq<char>,
    i: int,
    j: int,
)
    requires
        0 <= i < parts.len(),
        1 <= j <= i,
    ensures
        probe_list(parts, tld).contains(exact_probe(parts, tld, i)),
        wildcard_at(parts, i, j) != base_name_at(parts, i) ==> {
            let l = probe_list(parts, tld);
            let w = (contract_id_at(parts, tld, i), wildcard_at(parts, i, j));
            l.contains(w) && first_index(l, exact_probe(parts, tld, i)) < first_index(l, w)
        },
{
    let x = exact_probe(parts, tld, i);
    let w = (contract_id_at(parts, tld, i), wildcard_at(parts, i, j));
    let a = raw_probes_upto(parts, tld, i);
    let blk = block_at(parts, tld, i);
    let n = parts.len() as int;
    let raw = raw_probes_upto(parts, tld, n);
    // The whole raw list decomposes as the part below depth `i`, the
    // depth-`i` block, and the rest.
    let rest = raw_rest(parts, tld, i + 1, n);
    lemma_raw_decompose(parts, tld, i + 1, n);
    assert(raw == raw_probes_upto(parts, tld, i + 1) + rest);
    assert(raw_probes_upto(parts, tld, i + 1) == a + blk);
    assert(blk[0] == x);
    assert(blk[j] == w);
    assert(blk.contains(x));
    assert(blk.contains(w));
    lemma_depth_pairs_fresh(parts, tld, i, base_name_at(parts, i));
    lemma_depth_pairs_fresh(parts, tld, i, wildcard_at(parts, i, j));
    lemma_contains_concat(a, blk, x);
    lemma_contains_concat(a, blk, w);
    lemma_contains_concat(a + blk, rest, x);
    lemma_contains_concat(a + blk, rest, w);
    assert((a + blk) + rest =~= a + blk + rest);
    assert(raw.contains(x));
    assert(raw.contains(w));
    lemma_dedup_contains(raw, x);
    if wildcard_at(parts, i, j) != base_name_at(parts, i) {
        // First occurrences inside the block: the exact probe opens it, the
        // wildcard follows it.
        assert(x != w);
        lemma_first_index_at(blk, x, 0);
        lemma_first_index_concat_right(a, blk, x);
        lemma_first_index_concat_left(a + blk, rest, x);
        assert(first_index(raw, x) == a.len());
        lemma_first_index_of_member(blk, w);
        assert(blk[0] == x && x != w);
        assert(first_index(blk, w) >= 1) by {
            lemma_first_index_of_member(blk, w);
            if first_index(blk, w) == 0 {
                assert(blk[0] == w);
            }
        }
        lemma_first_index_concat_right(a, blk, w);
        lemma_first_index_concat_left(a + blk, rest, w);
        assert(first_index(raw, w) >= a.len() + 1);
        lemma_dedup_keeps_order(raw, x, w);
    }
}

/// The raw probes of depths `m .. n`.
pub open spec fn raw_rest(parts: Seq<Seq<char>>, tld: Seq<char>, m: int, n: int) -> Seq<
    (Seq<char>, Seq<char>),
>
    decreases n - m,
{
    if m >= n {
        Seq::empty()
    } else {
        block_at(parts, tld, m) + raw_rest(parts, tld, m + 1, n)
    }
}

pub proof fn lemma_raw_decompose(parts: Seq<Seq<char>>, tld: Seq<char>, m: int, n: int)
    requires
        0 <= m <= n,
    ensures
        raw_probes_upto(parts, tld, n) == raw_probes_upto(parts, tld, m) + raw_rest(
            parts,
            tld,
            m,
            n,
        ),
    decreases n - m,
{
    if m == n {
        assert(raw_rest(parts, tld, m, n) =~= Seq::<(Seq<char>, Seq<char>)>::empty());
        assert(raw_probes_upto(parts, tld, n) =~= raw_probes_upto(parts, tld, m) + raw_rest(
            parts,
            tld,
            m,
            n,
        ));
    } else {
        lemma_raw_decompose(parts, tld, m + 1, n);
        assert(raw_probes_upto(parts, tld, m + 1) == raw_probes_upto(parts, tld, m) + block_at(
            parts,
            tld,
            m,
        ));
        assert(raw_probes_upto(parts, tld, m) + block_at(parts, tld, m) + raw_rest(
            parts,
            tld,
            m + 1,
            n,
        ) =~= raw_probes_upto(parts, tld, m) + (block_at(parts, tld, m) + raw_rest(
            parts,
            tld,
            m + 1,
            n,
        )));
    }
}

} // verus!
