//! Verified parsing of IPv4 and IPv6 address literals.
//!
//! An IPv4 literal is a dotted quad of decimal octets without leading zeros.
//! An IPv6 literal is up to eight colon-separated groups of one to four hex
//! digits, at most one `::` standing for a run of zero groups, and optionally
//! a trailing IPv4 literal in place of the last two groups.

use vstd::prelude::*;

use crate::text::{all_digits, dec_val, is_digit, split_char, str_views};

verus! {

/// An IPv4 address as its four octets, most significant first.
#[derive(Debug)]
pub struct Ipv4 {
    pub octets: Vec<u8>,
}

impl View for Ipv4 {
    type V = Seq<u8>;

    open spec fn view(&self) -> Seq<u8> {
        self.octets@
    }
}

/// An IPv6 address as its eight 16-bit groups, most significant first.
#[derive(Debug)]
pub struct Ipv6 {
    pub groups: Vec<u16>,
}

impl View for Ipv6 {
    type V = Seq<u16>;

    open spec fn view(&self) -> Seq<u16> {
        self.groups@
    }
}

/// A decimal octet: one to three digits, no leading zero, value at most 255.
pub open spec fn is_octet_text(s: Seq<char>) -> bool {
    &&& 1 <= s.len() <= 3
    &&& all_digits(s)
    &&& (s.len() > 1 ==> s[0] != '0')
    &&& dec_val(s) <= 255
}

pub open spec fn is_ipv4_text(s: Seq<char>) -> bool {
    let g = split_char(s, '.');
    g.len() == 4 && (forall|i: int| 0 <= i < 4 ==> is_octet_text(#[trigger] g[i]))
}

/// The four octet values of an IPv4 literal.
pub open spec fn ipv4_octets(s: Seq<char>) -> Seq<u8> {
    let g = split_char(s, '.');
    seq![
        dec_val(g[0]) as u8,
        dec_val(g[1]) as u8,
        dec_val(g[2]) as u8,
        dec_val(g[3]) as u8,
    ]
}

fn parse_octet(t: &String) -> (r: Option<u8>)
    ensures
        r is Some <==> is_octet_text(t@),
        r matches Some(v) ==> v == dec_val(t@),
{
    let n = t.as_str().unicode_len();
    if n == 0 || n > 3 {
        return None;
    }
    if n > 1 && t.as_str().get_char(0) == '0' {
        return None;
    }
    crate::text::parse_u8(t.as_str())
}

/// Parses an IPv4 literal.
pub fn parse_ipv4(s: &str) -> (r: Option<Ipv4>)
    ensures
        r is Some <==> is_ipv4_text(s@),
        r matches Some(ip) ==> ip@ == ipv4_octets(s@),
{
    let groups = crate::text::split_on(s, '.');
    if groups.len() != 4 {
        return None;
    }
    proof {
        assert(str_views(groups@).len() == 4);
    }
    let mut octets: Vec<u8> = Vec::new();
    let mut i: usize = 0;
    while i < 4
        invariant
            groups@.len() == 4,
            str_views(groups@) == split_char(s@, '.'),
            i <= 4,
            octets@.len() == i,
            forall|k: int| 0 <= k < i ==> is_octet_text(#[trigger] split_char(s@, '.')[k]),
            forall|k: int|
                0 <= k < i ==> octets@[k] == dec_val(#[trigger] split_char(s@, '.')[k]) as u8,
        decreases 4 - i,
    {
        proof {
            assert(str_views(groups@)[i as int] == groups@[i as int]@);
        }
        match parse_octet(&groups[i]) {
            Some(v) => octets.push(v),
            None => {
                return None;
            },
        }
        i = i + 1;
    }
    proof {
        assert(octets@ =~= ipv4_octets(s@));
    }
    Some(Ipv4 { octets })
}

pub open spec fn is_hex_digit(c: char) -> bool {
    is_digit(c) || 97 <= c as u32 <= 102 || 65 <= c as u32 <= 70
}

pub open spec fn hex_digit_val(c: char) -> nat {
    if is_digit(c) {
        (c as u32 - 48) as nat
    } else if 97 <= c as u32 <= 102 {
        (c as u32 - 87) as nat
    } else {
        (c as u32 - 55) as nat
    }
}

/// The value of a string of hex digits.
pub open spec fn hex_val(s: Seq<char>) -> nat
    decreases s.len(),
{
    if s.len() == 0 {
        0
    } else {
        hex_val(s.drop_last()) * 16 + hex_digit_val(s.last())
    }
}

pub open spec fn all_hex(s: Seq<char>) -> bool {
    forall|i: int| 0 <= i < s.len() ==> is_hex_digit(#[trigger] s[i])
}

/// A group of an IPv6 literal: one to four hex digits.
pub open spec fn is_hex_group(s: Seq<char>) -> bool {
    1 <= s.len() <= 4 && all_hex(s)
}

pub open spec fn pow16(n: nat) -> nat
    decreases n,
{
    if n == 0 {
        1
    } else {
        16 * pow16((n - 1) as nat)
    }
}

pub proof fn lemma_hex_val_bound(s: Seq<char>)
    requires
        all_hex(s),
    ensures
        hex_val(s) < pow16(s.len() as nat),
    decreases s.len(),
{
    if s.len() == 0 {
    } else {
        let t = s.drop_last();
        assert(all_hex(t));
        lemma_hex_val_bound(t);
        assert(hex_digit_val(s.last()) <= 15);
        assert(hex_val(t) <= pow16(t.len() as nat) - 1);
        assert(hex_val(t) * 16 <= (pow16(t.len() as nat) - 1) * 16) by (nonlinear_arith)
            requires
                hex_val(t) <= pow16(t.len() as nat) - 1,
        ;
    }
}

/// Parses one hex group into its 16-bit value.
fn parse_hex16(t: &str) -> (r: Option<u16>)
    ensures
        r is Some <==> is_hex_group(t@),
        r matches Some(v) ==> v == hex_val(t@),
{
    let n = t.unicode_len();
    if n == 0 || n > 4 {
        return None;
    }
    let mut acc: u32 = 0;
    let mut i: usize = 0;
    while i < n
        invariant
            n == t@.len(),
            1 <= n <= 4,
            i <= n,
            all_hex(t@.take(i as int)),
            acc == hex_val(t@.take(i as int)),
            acc < 0x10000,
        decreases n - i,
    {
        let c = t.get_char(i);
        let cu = c as u32;
        let d: u32 = if 48 <= cu && cu <= 57 {
            cu - 48
        } else if 97 <= cu && cu <= 102 {
            cu - 87
        } else if 65 <= cu && cu <= 70 {
            cu - 55
        } else {
            assert(!is_hex_digit(t@[i as int]));
            return None;
        };
        acc = acc * 16 + d;
        i = i + 1;
        proof {
            assert(t@.take(i as int).drop_last() =~= t@.take(i - 1));
            assert(t@.take(i as int).last() == t@[i - 1]);
            assert(forall|j: int| 0 <= j < i ==> is_hex_digit(#[trigger] t@.take(i as int)[j]));
            lemma_hex_val_bound(t@.take(i as int));
            assert(pow16(0) == 1);
            assert(pow16(1) == 16);
            assert(pow16(2) == 256);
            assert(pow16(3) == 4096);
            assert(pow16(4) == 65536);
        }
    }
    proof {
        assert(t@.take(n as int) =~= t@);
    }
    Some(acc as u16)
}

/// The first position of `"::"` in `s`, or a negative value if it has none.
pub open spec fn find_dcolon(s: Seq<char>) -> int
    decreases s.len(),
{
    if s.len() < 2 {
        -1
    } else if s[0] == ':' && s[1] == ':' {
        0
    } else {
        let r = find_dcolon(s.drop_first());
        if r < 0 {
            -1
        } else {
            r + 1
        }
    }
}

pub proof fn lemma_find_dcolon_none(s: Seq<char>)
    requires
        forall|j: int| 0 <= j < s.len() - 1 ==> !(#[trigger] s[j] == ':' && s[j + 1] == ':'),
    ensures
        find_dcolon(s) < 0,
    decreases s.len(),
{
    if s.len() >= 2 {
        let t = s.drop_first();
        assert(forall|j: int| 0 <= j < t.len() - 1 ==> !(#[trigger] t[j] == ':' && t[j + 1] == ':')) by {
            assert(forall|j: int|
                0 <= j < t.len() - 1 ==> t[j] == s[j + 1] && #[trigger] t[j + 1] == s[j + 2]);
        }
        lemma_find_dcolon_none(t);
    }
}

pub proof fn lemma_find_dcolon_at(s: Seq<char>, k: int)
    requires
        0 <= k <= s.len() - 2,
        s[k] == ':' && s[k + 1] == ':',
        forall|j: int| 0 <= j < k ==> !(#[trigger] s[j] == ':' && s[j + 1] == ':'),
    ensures
        find_dcolon(s) == k,
    decreases k,
{
    if k > 0 {
        let t = s.drop_first();
        assert(forall|j: int| 0 <= j < k - 1 ==> !(#[trigger] t[j] == ':' && t[j + 1] == ':')) by {
            assert(forall|j: int|
                0 <= j < k - 1 ==> t[j] == s[j + 1] && #[trigger] t[j + 1] == s[j + 2]);
        }
        lemma_find_dcolon_at(t, k - 1);
    }
}

/// The colon-separated pieces of one side of an IPv6 literal; an empty side
/// has no pieces at all.
pub open spec fn side_groups(t: Seq<char>) -> Seq<Seq<char>> {
    if t.len() == 0 {
        Seq::empty()
    } else {
        split_char(t, ':')
    }
}

pub open spec fn all_hex_groups(gs: Seq<Seq<char>>) -> bool {
    forall|i: int| 0 <= i < gs.len() ==> is_hex_group(#[trigger] gs[i])
}

pub open spec fn hex_group_vals(gs: Seq<Seq<char>>) -> Seq<u16> {
    gs.map_values(|g: Seq<char>| hex_val(g) as u16)
}

/// The two 16-bit groups contributed by an embedded IPv4 literal.
pub open spec fn v4_tail_vals(t: Seq<char>) -> Seq<u16> {
    let o = ipv4_octets(t);
    seq![(o[0] * 256 + o[1]) as u16, (o[2] * 256 + o[3]) as u16]
}

/// Group values of a right-hand side whose last piece may be an IPv4 literal;
/// `None` if the side is not well formed.
pub open spec fn right_vals(t: Seq<char>) -> Option<Seq<u16>> {
    let gs = side_groups(t);
    if all_hex_groups(gs) {
        Some(hex_group_vals(gs))
    } else if gs.len() >= 1 && all_hex_groups(gs.drop_last()) && is_ipv4_text(gs.last()) {
        Some(hex_group_vals(gs.drop_last()) + v4_tail_vals(gs.last()))
    } else {
        None
    }
}

/// The eight groups of an IPv6 literal, or `None` if the text is not one.
pub open spec fn ipv6_group_vals(s: Seq<char>) -> Option<Seq<u16>> {
    let d = find_dcolon(s);
    if d < 0 {
        let vals = right_vals(s);
        match vals {
            Some(v) => if v.len() == 8 {
                Some(v)
            } else {
                None
            },
            None => None,
        }
    } else {
        let l = s.take(d);
        let r = s.skip(d + 2);
        let lg = side_groups(l);
        if !all_hex_groups(lg) {
            None
        } else {
            match right_vals(r) {
                Some(rv) => if lg.len() + rv.len() <= 7 {
                    Some(
                        hex_group_vals(lg) + Seq::new(
                            (8 - lg.len() - rv.len()) as nat,
                            |i: int| 0u16,
                        ) + rv,
                    )
                } else {
                    None
                },
                None => None,
            }
        }
    }
}

pub open spec fn is_ipv6_text(s: Seq<char>) -> bool {
    ipv6_group_vals(s) is Some
}

/// Parses the colon-separated pieces of a side, the last piece optionally an
/// IPv4 literal when `allow_v4`.
fn parse_side(t: &str, allow_v4: bool) -> (r: Option<Vec<u16>>)
    ensures
        allow_v4 ==> (r is Some <==> right_vals(t@) is Some),
        allow_v4 ==> (r matches Some(v) ==> v@ == right_vals(t@).unwrap()),
        !allow_v4 ==> (r is Some <==> all_hex_groups(side_groups(t@))),
        !allow_v4 ==> (r matches Some(v) ==> v@ == hex_group_vals(side_groups(t@))),
{
    let n = t.unicode_len();
    let mut vals: Vec<u16> = Vec::new();
    if n == 0 {
        proof {
            assert(side_groups(t@) =~= Seq::<Seq<char>>::empty());
            assert(vals@ =~= hex_group_vals(side_groups(t@)));
            assert(all_hex_groups(side_groups(t@)));
            if allow_v4 {
                assert(right_vals(t@) == Some(hex_group_vals(side_groups(t@))));
            }
        }
        return Some(vals);
    }
    let pieces = crate::text::split_on(t, ':');
    let m = pieces.len();
    proof {
        crate::text::lemma_split_char_len(t@, ':');
        assert(side_groups(t@) == split_char(t@, ':'));
    }
    let ghost gs = side_groups(t@);
    let mut i: usize = 0;
    while i < m
        invariant
            gs == side_groups(t@),
            str_views(pieces@) == gs,
            pieces@.len() == m,
            1 <= m,
            i <= m,
            vals@.len() == i,
            forall|k: int| 0 <= k < i ==> is_hex_group(#[trigger] gs[k]),
            forall|k: int| 0 <= k < i ==> vals@[k] == hex_val(#[trigger] gs[k]) as u16,
        decreases m - i,
    {
        proof {
            assert(str_views(pieces@)[i as int] == pieces@[i as int]@);
        }
        match parse_hex16(pieces[i].as_str()) {
            Some(v) => {
                vals.push(v);
                i = i + 1;
            },
            None => {
                // Not a hex group: only acceptable as an IPv4 tail in the
                // last position of a side that allows one.
                if allow_v4 && i + 1 == m {
                    match parse_ipv4(pieces[i].as_str()) {
                        Some(ip) => {
                            proof {
                                assert(gs.last() == gs[i as int]);
                                assert(gs.drop_last() =~= gs.take(i as int));
                                assert(forall|k: int|
                                    0 <= k < i ==> #[trigger] gs.drop_last()[k] == gs[k]);
                                assert(all_hex_groups(gs.drop_last()));
                                assert(!all_hex_groups(gs)) by {
                                    assert(!is_hex_group(gs[i as int]));
                                }
                            }
                            let o0 = ip.octets[0];
                            let o1 = ip.octets[1];
                            let o2 = ip.octets[2];
                            let o3 = ip.octets[3];
                            let hi: u16 = (o0 as u16) * 256 + (o1 as u16);
                            let lo: u16 = (o2 as u16) * 256 + (o3 as u16);
                            vals.push(hi);
                            vals.push(lo);
                            proof {
                                assert(hex_group_vals(gs.drop_last()) =~= vals@.take(i as int));
                                assert(vals@ =~= hex_group_vals(gs.drop_last()) + v4_tail_vals(
                                    gs.last(),
                                ));
                            }
                            return Some(vals);
                        },
                        None => {
                            proof {
                                assert(!is_hex_group(gs[i as int]));
                                assert(!all_hex_groups(gs));
                                assert(gs.last() == gs[i as int]);
                                assert(!is_ipv4_text(gs.last()));
                            }
                            return None;
                        },
                    }
                } else {
                    proof {
                        assert(!is_hex_group(gs[i as int]));
                        assert(!all_hex_groups(gs));
                        if allow_v4 {
                            if i + 1 < m {
                                assert(!is_hex_group(gs[i as int]));
                                assert(0 <= i < gs.drop_last().len());
                                assert(gs.drop_last()[i as int] == gs[i as int]);
                                assert(!all_hex_groups(gs.drop_last()));
                            }
                        }
                    }
                    return None;
                }
            },
        }
    }
    proof {
        assert(all_hex_groups(gs));
        assert(vals@ =~= hex_group_vals(gs));
    }
    Some(vals)
}

/// Parses an IPv6 literal.
pub fn parse_ipv6(s: &str) -> (r: Option<Ipv6>)
    ensures
        r is Some <==> is_ipv6_text(s@),
        r matches Some(ip) ==> ip@ == ipv6_group_vals(s@).unwrap(),
{
    let n = s.unicode_len();
    // Locate the first "::", if any.
    let mut d: usize = 0;
    let mut found = false;
    if n >= 2 {
        while !found && d <= n - 2
            invariant
                n == s@.len(),
                2 <= n,
                d <= n - 1,
                !found ==> forall|j: int|
                    0 <= j < d ==> !(#[trigger] s@[j] == ':' && s@[j + 1] == ':'),
                found ==> 0 <= d <= n - 2 && s@[d as int] == ':' && s@[d + 1] == ':'
                    && forall|j: int|
                    0 <= j < d ==> !(#[trigger] s@[j] == ':' && s@[j + 1] == ':'),
            decreases (if found {
                0int
            } else {
                1int
            }), n - d,
        {
            if s.get_char(d) == ':' && s.get_char(d + 1) == ':' {
                found = true;
            } else {
                d = d + 1;
            }
        }
    }
    if !found {
        proof {
            lemma_find_dcolon_none(s@);
        }
        match parse_side(s, true) {
            Some(vals) => {
                if vals.len() == 8 {
                    Some(Ipv6 { groups: vals })
                } else {
                    None
                }
            },
            None => None,
        }
    } else {
        proof {
            lemma_find_dcolon_at(s@, d as int);
        }
        let left = s.substring_char(0, d);
        let right = s.substring_char(d + 2, n);
        proof {
            assert(left@ =~= s@.take(d as int));
            assert(right@ =~= s@.skip(d + 2));
        }
        let lv = match parse_side(left, false) {
            Some(v) => v,
            None => {
                return None;
            },
        };
        let rv = match parse_side(right, true) {
            Some(v) => v,
            None => {
                return None;
            },
        };
        if lv.len() > 7 || rv.len() > 7 || lv.len() + rv.len() > 7 {
            return None;
        }
        let mut groups: Vec<u16> = lv;
        let fill = 8 - groups.len() - rv.len();
        let mut k: usize = 0;
        while k < fill
            invariant
                k <= fill,
                groups@ =~= hex_group_vals(side_groups(s@.take(find_dcolon(s@)))) + Seq::new(
                    k as nat,
                    |i: int| 0u16,
                ),
            decreases fill - k,
        {
            groups.push(0u16);
            proof {
                assert(Seq::new((k + 1) as nat, |i: int| 0u16) =~= Seq::new(k as nat, |i: int| 0u16)
                    .push(0u16));
            }
            k = k + 1;
        }
        let mut k2: usize = 0;
        let rlen = rv.len();
        while k2 < rlen
            invariant
                k2 <= rlen == rv@.len(),
                groups@ =~= hex_group_vals(side_groups(s@.take(find_dcolon(s@)))) + Seq::new(
                    (8 - hex_group_vals(side_groups(s@.take(find_dcolon(s@)))).len()
                        - rv@.len()) as nat,
                    |i: int| 0u16,
                ) + rv@.take(k2 as int),
            decreases rlen - k2,
        {
            groups.push(rv[k2]);
            proof {
                assert(rv@.take(k2 + 1) =~= rv@.take(k2 as int).push(rv@[k2 as int]));
            }
            k2 = k2 + 1;
        }
        proof {
            assert(rv@.take(rlen as int) =~= rv@);
        }
        Some(Ipv6 { groups })
    }
}

} // verus!
