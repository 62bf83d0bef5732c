//! Character and string utilities shared by the rest of the crate: ASCII case
//! folding, splitting and joining on a separator, trimming trailing dots,
//! substring search and bounded decimal parsing, each with an exact
//! specification over sequences of characters.

use vstd::prelude::*;

verus! {

/// ASCII lower-casing of one character; everything outside `'A'..='Z'` is kept.
pub open spec fn lower_char(c: char) -> char {
    match c {
        'A' => 'a',
        'B' => 'b',
        'C' => 'c',
        'D' => 'd',
        'E' => 'e',
        'F' => 'f',
        'G' => 'g',
        'H' => 'h',
        'I' => 'i',
        'J' => 'j',
        'K' => 'k',
        'L' => 'l',
        'M' => 'm',
        'N' => 'n',
        'O' => 'o',
        'P' => 'p',
        'Q' => 'q',
        'R' => 'r',
        'S' => 's',
        'T' => 't',
        'U' => 'u',
        'V' => 'v',
        'W' => 'w',
        'X' => 'x',
        'Y' => 'y',
        'Z' => 'z',
        _ => c,
    }
}

/// ASCII upper-casing of one character; everything outside `'a'..='z'` is kept.
pub open spec fn upper_char(c: char) -> char {
    match c {
        'a' => 'A',
        'b' => 'B',
        'c' => 'C',
        'd' => 'D',
        'e' => 'E',
        'f' => 'F',
        'g' => 'G',
        'h' => 'H',
        'i' => 'I',
        'j' => 'J',
        'k' => 'K',
        'l' => 'L',
        'm' => 'M',
        'n' => 'N',
        'o' => 'O',
        'p' => 'P',
        'q' => 'Q',
        'r' => 'R',
        's' => 'S',
        't' => 'T',
        'u' => 'U',
        'v' => 'V',
        'w' => 'W',
        'x' => 'X',
        'y' => 'Y',
        'z' => 'Z',
        _ => c,
    }
}

pub open spec fn lower_seq(s: Seq<char>) -> Seq<char> {
    s.map_values(|c: char| lower_char(c))
}

pub open spec fn upper_seq(s: Seq<char>) -> Seq<char> {
    s.map_values(|c: char| upper_char(c))
}

/// Relies on `String::push`: appends exactly one character.
#[verifier::external_body]
pub fn push_char(s: &mut String, c: char)
    ensures
        final(s)@ == old(s)@.push(c),
{
    s.push(c);
}

fn lower_char_exec(c: char) -> (r: char)
    ensures
        r == lower_char(c),
{
    match c {
        'A' => 'a',
        'B' => 'b',
        'C' => 'c',
        'D' => 'd',
        'E' => 'e',
        'F' => 'f',
        'G' => 'g',
        'H' => 'h',
        'I' => 'i',
        'J' => 'j',
        'K' => 'k',
        'L' => 'l',
        'M' => 'm',
        'N' => 'n',
        'O' => 'o',
        'P' => 'p',
        'Q' => 'q',
        'R' => 'r',
        'S' => 's',
        'T' => 't',
        'U' => 'u',
        'V' => 'v',
        'W' => 'w',
        'X' => 'x',
        'Y' => 'y',
        'Z' => 'z',
        _ => c,
    }
}

fn upper_char_exec(c: char) -> (r: char)
    ensures
        r == upper_char(c),
{
    match c {
        'a' => 'A',
        'b' => 'B',
        'c' => 'C',
        'd' => 'D',
        'e' => 'E',
        'f' => 'F',
        'g' => 'G',
        'h' => 'H',
        'i' => 'I',
        'j' => 'J',
        'k' => 'K',
        'l' => 'L',
        'm' => 'M',
        'n' => 'N',
        'o' => 'O',
        'p' => 'P',
        'q' => 'Q',
        'r' => 'R',
        's' => 'S',
        't' => 'T',
        'u' => 'U',
        'v' => 'V',
        'w' => 'W',
        'x' => 'X',
        'y' => 'Y',
        'z' => 'Z',
        _ => c,
    }
}

/// ASCII lower-casing of a whole string.
pub fn to_lower(s: &str) -> (r: String)
    ensures
        r@ == lower_seq(s@),
{
    let n = s.unicode_len();
    let mut r = String::new();
    let mut i: usize = 0;
    while i < n
        invariant
            n == s@.len(),
            i <= n,
            r@ == lower_seq(s@.take(i as int)),
        decreases n - i,
    {
        let c = s.get_char(i);
        push_char(&mut r, lower_char_exec(c));
        i = i + 1;
        proof {
            assert(s@.take(i as int) =~= s@.take(i - 1).push(s@[i - 1]));
            assert(lower_seq(s@.take(i as int)) =~= lower_seq(s@.take(i - 1)).push(
                lower_char(s@[i - 1]),
            ));
        }
    }
    proof {
        assert(s@.take(n as int) =~= s@);
    }
    r
}

/// ASCII upper-casing of a whole string.
pub fn to_upper(s: &str) -> (r: String)
    ensures
        r@ == upper_seq(s@),
{
    let n = s.unicode_len();
    let mut r = String::new();
    let mut i: usize = 0;
    while i < n
        invariant
            n == s@.len(),
            i <= n,
            r@ == upper_seq(s@.take(i as int)),
        decreases n - i,
    {
        let c = s.get_char(i);
        push_char(&mut r, upper_char_exec(c));
        i = i + 1;
        proof {
            assert(s@.take(i as int) =~= s@.take(i - 1).push(s@[i - 1]));
            assert(upper_seq(s@.take(i as int)) =~= upper_seq(s@.take(i - 1)).push(
                upper_char(s@[i - 1]),
            ));
        }
    }
    proof {
        assert(s@.take(n as int) =~= s@);
    }
    r
}

/// The string with every trailing `'.'` removed.
pub open spec fn trim_dots(s: Seq<char>) -> Seq<char>
    decreases s.len(),
{
    if s.len() > 0 && s[s.len() - 1] == '.' {
        trim_dots(s.drop_last())
    } else {
        s
    }
}

pub fn trim_trailing_dots(s: &str) -> (r: String)
    ensures
        r@ == trim_dots(s@),
{
    let mut end = s.unicode_len();
    proof {
        assert(s@.take(s@.len() as int) =~= s@);
    }
    while end > 0 && s.get_char(end - 1) == '.'
        invariant
            end <= s@.len(),
            trim_dots(s@) == trim_dots(s@.take(end as int)),
        decreases end,
    {
        proof {
            assert(s@.take(end as int).drop_last() =~= s@.take(end - 1));
        }
        end = end - 1;
    }
    let r = s.substring_char(0, end);
    proof {
        assert(s@.take(end as int) =~= s@.subrange(0, end as int));
        if end > 0 {
            assert(trim_dots(s@.take(end as int)) == s@.take(end as int));
        } else {
            assert(trim_dots(s@.take(0)) =~= Seq::<char>::empty());
        }
    }
    String::from_str(r)
}

/// Splitting on a separator character, as `str::split` does: `n` separators
/// produce `n + 1` fields, empty fields included.
pub open spec fn split_char(s: Seq<char>, sep: char) -> Seq<Seq<char>>
    decreases s.len(),
{
    if s.len() == 0 {
        seq![Seq::<char>::empty()]
    } else if s[0] == sep {
        seq![Seq::<char>::empty()] + split_char(s.drop_first(), sep)
    } else {
        let rest = split_char(s.drop_first(), sep);
        seq![seq![s[0]] + rest[0]] + rest.drop_first()
    }
}

pub proof fn lemma_split_char_len(s: Seq<char>, sep: char)
    ensures
        split_char(s, sep).len() >= 1,
    decreases s.len(),
{
    if s.len() != 0 {
        lemma_split_char_len(s.drop_first(), sep);
    }
}

/// How `split_char` decomposes at the first separator: if the characters
/// before index `k` are not separators and `k` is either the end or a
/// separator position, the first field is `s.take(k)`.
pub proof fn lemma_split_char_first(s: Seq<char>, sep: char, k: int)
    requires
        0 <= k <= s.len(),
        forall|j: int| 0 <= j < k ==> s[j] != sep,
        k == s.len() || s[k] == sep,
    ensures
        k == s.len() ==> split_char(s, sep) == seq![s],
        k < s.len() ==> split_char(s, sep) == seq![s.take(k)] + split_char(
            s.skip(k + 1),
            sep,
        ),
    decreases k,
{
    if k == 0 {
        if k == s.len() {
            assert(split_char(s, sep) =~~= seq![s]);
        } else {
            assert(s[0] == sep);
            assert(s.drop_first() =~= s.skip(1));
            assert(s.take(0) =~= Seq::<char>::empty());
            assert(split_char(s, sep) =~= seq![s.take(0)] + split_char(s.skip(1), sep));
        }
    } else {
        let t = s.drop_first();
        lemma_split_char_first(t, sep, k - 1);
        lemma_split_char_len(t, sep);
        if k == s.len() {
            assert(split_char(t, sep) == seq![t]);
            assert(seq![s[0]] + t =~= s);
            assert(split_char(s, sep) =~~= seq![s]);
        } else {
            assert(split_char(t, sep) == seq![t.take(k - 1)] + split_char(t.skip(k), sep));
            assert(split_char(t, sep)[0] == t.take(k - 1));
            assert(split_char(t, sep).drop_first() =~= split_char(t.skip(k), sep));
            assert(seq![s[0]] + t.take(k - 1) =~= s.take(k));
            assert(t.skip(k) =~= s.skip(k + 1));
            assert(split_char(s, sep) =~~= seq![s.take(k)] + split_char(s.skip(k + 1), sep));
        }
    }
}

/// Splits a string on a separator character, keeping empty fields.
pub fn split_on(s: &str, sep: char) -> (r: Vec<String>)
    ensures
        str_views(r@) == split_char(s@, sep),
{
    let n = s.unicode_len();
    let mut r: Vec<String> = Vec::new();
    let mut start: usize = 0;
    let mut i: usize = 0;
    proof {
        assert(s@.skip(0) =~= s@);
        assert(str_views(r@) =~= Seq::<Seq<char>>::empty());
        assert(str_views(r@) + split_char(s@, sep) =~= split_char(s@, sep));
    }
    while i < n
        invariant
            n == s@.len(),
            start <= i <= n,
            forall|j: int| start <= j < i ==> s@[j] != sep,
            split_char(s@, sep) == str_views(r@) + split_char(s@.skip(start as int), sep),
        decreases n - i,
    {
        let c = s.get_char(i);
        if c == sep {
            let field = String::from_str(s.substring_char(start, i));
            proof {
                let tail = s@.skip(start as int);
                lemma_split_char_first(tail, sep, i - start);
                assert(tail.take(i - start) =~= s@.subrange(start as int, i as int));
                assert(tail.skip(i - start + 1) =~= s@.skip(i + 1));
                assert(str_views(r@.push(field)) =~= str_views(r@) + seq![field@]);
                assert(str_views(r@) + (seq![field@] + split_char(s@.skip(i + 1), sep)) =~= (
                str_views(r@) + seq![field@]) + split_char(s@.skip(i + 1), sep));
            }
            r.push(field);
            start = i + 1;
        }
        i = i + 1;
    }
    let field = String::from_str(s.substring_char(start, n));
    proof {
        let tail = s@.skip(start as int);
        lemma_split_char_first(tail, sep, n - start);
        assert(tail.take(n - start) =~= tail);
        assert(tail =~= s@.subrange(start as int, n as int));
        assert(str_views(r@.push(field)) =~= str_views(r@) + seq![field@]);
    }
    r.push(field);
    r
}

/// The views of a sequence of strings.
pub open spec fn str_views(s: Seq<String>) -> Seq<Seq<char>> {
    s.map_values(|t: String| t@)
}

/// Joining with a separator character: the fields in order, one separator
/// between each adjacent pair.
pub open spec fn join_with(parts: Seq<Seq<char>>, sep: char) -> Seq<char>
    decreases parts.len(),
{
    if parts.len() == 0 {
        Seq::empty()
    } else if parts.len() == 1 {
        parts[0]
    } else {
        parts[0] + seq![sep] + join_with(parts.drop_first(), sep)
    }
}

pub proof fn lemma_join_snoc(parts: Seq<Seq<char>>, x: Seq<char>, sep: char)
    requires
        parts.len() >= 1,
    ensures
        join_with(parts.push(x), sep) == join_with(parts, sep) + seq![sep] + x,
    decreases parts.len(),
{
    if parts.len() == 1 {
        assert(parts.push(x).len() == 2);
        assert(parts.push(x)[0] == parts[0]);
        assert(parts.push(x).drop_first() =~= seq![x]);
        assert(join_with(parts.push(x).drop_first(), sep) == x);
        assert(join_with(parts.push(x), sep) =~= parts[0] + seq![sep] + x);
    } else {
        lemma_join_snoc(parts.drop_first(), x, sep);
        assert(parts.push(x)[0] == parts[0]);
        assert(parts.push(x).drop_first() =~= parts.drop_first().push(x));
        assert(join_with(parts.push(x), sep) =~= join_with(parts, sep) + seq![sep] + x);
    }
}

/// Joins `parts[from..to]` with a separator character.
pub fn join_range(parts: &Vec<String>, from: usize, to: usize, sep: char) -> (r: String)
    requires
        from <= to <= parts@.len(),
    ensures
        r@ == join_with(str_views(parts@).subrange(from as int, to as int), sep),
{
    let mut r = String::new();
    let mut k = from;
    while k < to
        invariant
            from <= k <= to <= parts@.len(),
            r@ == join_with(str_views(parts@).subrange(from as int, k as int), sep),
        decreases to - k,
    {
        if k > from {
            push_char(&mut r, sep);
        }
        r.append(parts[k].as_str());
        proof {
            let pv = str_views(parts@);
            assert(pv.subrange(from as int, k + 1) =~= pv.subrange(from as int, k as int).push(
                pv[k as int],
            ));
            if k > from {
                lemma_join_snoc(pv.subrange(from as int, k as int), pv[k as int], sep);
            }
        }
        k = k + 1;
    }
    r
}

/// Whether `sub` occurs in `s` starting at index `i`.
pub open spec fn has_sub_at(s: Seq<char>, sub: Seq<char>, i: int) -> bool {
    0 <= i && i + sub.len() <= s.len() && s.subrange(i, i + sub.len()) == sub
}

/// Whether `sub` occurs anywhere in `s`.
pub open spec fn contains_sub(s: Seq<char>, sub: Seq<char>) -> bool {
    exists|i: int| has_sub_at(s, sub, i)
}

/// Substring search, as `str::contains` decides it.
pub fn contains_str(s: &str, sub: &str) -> (r: bool)
    ensures
        r == contains_sub(s@, sub@),
{
    let n = s.unicode_len();
    let m = sub.unicode_len();
    if m > n {
        proof {
            assert(forall|i: int| !has_sub_at(s@, sub@, i));
        }
        return false;
    }
    if m == 0 {
        proof {
            assert(s@.subrange(0, 0) =~= sub@);
            assert(has_sub_at(s@, sub@, 0));
        }
        return true;
    }
    let mut i: usize = 0;
    while i <= n - m
        invariant
            n == s@.len(),
            m == sub@.len(),
            1 <= m <= n,
            i <= n - m + 1,
            forall|p: int| 0 <= p < i ==> !has_sub_at(s@, sub@, p),
        decreases n - i,
    {
        let mut j: usize = 0;
        let mut ok = true;
        while j < m
            invariant
                n == s@.len(),
                m == sub@.len(),
                i + m <= n,
                j <= m,
                ok <==> (forall|q: int| 0 <= q < j ==> s@[i + q] == sub@[q]),
            decreases m - j,
        {
            if s.get_char(i + j) != sub.get_char(j) {
                ok = false;
                j = m;
            } else {
                j = j + 1;
            }
        }
        if ok {
            proof {
                assert(s@.subrange(i as int, i + m) =~= sub@);
                assert(has_sub_at(s@, sub@, i as int));
            }
            return true;
        }
        proof {
            assert(!has_sub_at(s@, sub@, i as int));
        }
        i = i + 1;
    }
    proof {
        assert(forall|p: int| 0 <= p < i ==> !has_sub_at(s@, sub@, p));
        assert(forall|p: int| !has_sub_at(s@, sub@, p)) by {
            assert forall|p: int| has_sub_at(s@, sub@, p) implies false by {
                assert(p + m <= n);
                assert(p < i);
            }
        }
    }
    false
}

/// Character-wise string equality.
pub fn str_eq(a: &str, b: &str) -> (r: bool)
    ensures
        r == (a@ == b@),
{
    let n = a.unicode_len();
    let m = b.unicode_len();
    if n != m {
        return false;
    }
    let mut i: usize = 0;
    while i < n
        invariant
            n == a@.len(),
            n == b@.len(),
            i <= n,
            forall|j: int| 0 <= j < i ==> a@[j] == b@[j],
        decreases n - i,
    {
        if a.get_char(i) != b.get_char(i) {
            return false;
        }
        i = i + 1;
    }
    proof {
        assert(a@ =~= b@);
    }
    true
}

pub open spec fn is_ws(c: char) -> bool {
    c == ' ' || c == '\t' || c == '\n' || c == '\r'
}

/// Splitting into maximal runs of non-blank characters, as
/// `str::split_whitespace` does for ASCII blanks.
pub open spec fn split_ws(s: Seq<char>) -> Seq<Seq<char>>
    decreases s.len(),
{
    if s.len() == 0 {
        Seq::empty()
    } else if is_ws(s[0]) {
        split_ws(s.drop_first())
    } else if s.len() > 1 && !is_ws(s[1]) {
        let rest = split_ws(s.drop_first());
        seq![seq![s[0]] + rest[0]] + rest.drop_first()
    } else {
        seq![seq![s[0]]] + split_ws(s.drop_first())
    }
}

/// How `split_ws` decomposes at the first token: if `s` opens with `k`
/// non-blank characters followed by the end or a blank, the first token is
/// `s.take(k)`.
pub proof fn lemma_split_ws_token(s: Seq<char>, k: int)
    requires
        1 <= k <= s.len(),
        forall|j: int| 0 <= j < k ==> !is_ws(s[j]),
        k == s.len() || is_ws(s[k]),
    ensures
        split_ws(s) == seq![s.take(k)] + split_ws(s.skip(k)),
    decreases k,
{
    let t = s.drop_first();
    if k == 1 {
        if s.len() == 1 || is_ws(s[1]) {
            assert(s.take(1) =~= seq![s[0]]);
            assert(t =~= s.skip(1));
            assert(split_ws(s) =~~= seq![s.take(1)] + split_ws(s.skip(1)));
        }
    } else {
        lemma_split_ws_token(t, k - 1);
        assert(split_ws(t)[0] == t.take(k - 1));
        assert(split_ws(t).drop_first() =~= split_ws(t.skip(k - 1)));
        assert(seq![s[0]] + t.take(k - 1) =~= s.take(k));
        assert(t.skip(k - 1) =~= s.skip(k));
        assert(split_ws(s) =~~= seq![s.take(k)] + split_ws(s.skip(k)));
    }
}

fn is_blank_char(c: char) -> (r: bool)
    ensures
        r == is_ws(c),
{
    c == ' ' || c == '\t' || c == '\n' || c == '\r'
}

/// Splits a string into its blank-separated tokens.
pub fn split_blank(s: &str) -> (r: Vec<String>)
    ensures
        str_views(r@) == split_ws(s@),
{
    let n = s.unicode_len();
    let mut r: Vec<String> = Vec::new();
    let mut i: usize = 0;
    proof {
        assert(s@.skip(0) =~= s@);
        assert(str_views(r@) =~= Seq::<Seq<char>>::empty());
        assert(str_views(r@) + split_ws(s@) =~= split_ws(s@));
    }
    while i < n
        invariant
            n == s@.len(),
            i <= n,
            split_ws(s@) == str_views(r@) + split_ws(s@.skip(i as int)),
        decreases n - i,
    {
        let c = s.get_char(i);
        if is_blank_char(c) {
            proof {
                assert(s@.skip(i as int).drop_first() =~= s@.skip(i + 1));
                assert(split_ws(s@.skip(i as int)) == split_ws(s@.skip(i + 1)));
            }
            i = i + 1;
        } else {
            let start = i;
            let mut j = i + 1;
            while j < n && !is_blank_char(s.get_char(j))
                invariant
                    n == s@.len(),
                    start < j <= n,
                    forall|p: int| start <= p < j ==> !is_ws(s@[p]),
                decreases n - j,
            {
                j = j + 1;
            }
            let token = String::from_str(s.substring_char(start, j));
            proof {
                let tail = s@.skip(start as int);
                lemma_split_ws_token(tail, j - start);
                assert(tail.take(j - start) =~= s@.subrange(start as int, j as int));
                assert(tail.skip(j - start) =~= s@.skip(j as int));
                assert(str_views(r@.push(token)) =~= str_views(r@) + seq![token@]);
                assert(str_views(r@) + (seq![token@] + split_ws(s@.skip(j as int))) =~= (str_views(
                    r@,
                ) + seq![token@]) + split_ws(s@.skip(j as int)));
            }
            r.push(token);
            i = j;
        }
    }
    proof {
        assert(s@.skip(n as int) =~= Seq::<char>::empty());
        assert(str_views(r@) + split_ws(s@.skip(n as int)) =~= str_views(r@));
    }
    r
}

pub open spec fn is_digit(c: char) -> bool {
    48 <= c as u32 <= 57
}

pub open spec fn digit_val(c: char) -> nat {
    (c as u32 - 48) as nat
}

pub open spec fn all_digits(s: Seq<char>) -> bool {
    forall|i: int| 0 <= i < s.len() ==> is_digit(#[trigger] s[i])
}

/// The value of a string of decimal digits.
pub open spec fn dec_val(s: Seq<char>) -> nat
    decreases s.len(),
{
    if s.len() == 0 {
        0
    } else {
        dec_val(s.drop_last()) * 10 + digit_val(s.last())
    }
}

pub proof fn lemma_dec_val_prefix(s: Seq<char>, i: int)
    requires
        0 <= i <= s.len(),
    ensures
        dec_val(s.take(i)) <= dec_val(s),
    decreases s.len() - i,
{
    if i < s.len() {
        lemma_dec_val_prefix(s, i + 1);
        assert(s.take(i + 1).drop_last() =~= s.take(i));
        assert(dec_val(s.take(i + 1)) == dec_val(s.take(i)) * 10 + digit_val(s.take(i + 1).last()));
    } else {
        assert(s.take(i) =~= s);
    }
}

/// Parses a non-empty all-digit string into a `u32`; `None` exactly on empty
/// input, a non-digit character, or a value above `u32::MAX`.
pub fn parse_u32(s: &str) -> (r: Option<u32>)
    ensures
        r is Some <==> s@.len() >= 1 && all_digits(s@) && dec_val(s@) <= u32::MAX,
        r matches Some(v) ==> v == dec_val(s@),
{
    let n = s.unicode_len();
    if n == 0 {
        return None;
    }
    let mut acc: u64 = 0;
    let mut i: usize = 0;
    while i < n
        invariant
            n == s@.len(),
            i <= n,
            all_digits(s@.take(i as int)),
            acc == dec_val(s@.take(i as int)),
            acc <= u32::MAX,
        decreases n - i,
    {
        let c = s.get_char(i);
        let cu = c as u32;
        if cu < 48 || cu > 57 {
            assert(!is_digit(s@[i as int]));
            return None;
        }
        acc = acc * 10 + (cu - 48) as u64;
        i = i + 1;
        proof {
            assert(s@.take(i as int).drop_last() =~= s@.take(i - 1));
            assert(s@.take(i as int).last() == s@[i - 1]);
            assert(forall|j: int| 0 <= j < i ==> is_digit(#[trigger] s@.take(i as int)[j]));
        }
        if acc > 0xffff_ffff {
            proof {
                if all_digits(s@) {
                    lemma_dec_val_prefix(s@, i as int);
                }
            }
            return None;
        }
    }
    proof {
        assert(s@.take(n as int) =~= s@);
    }
    Some(acc as u32)
}

/// Parses a `u16`, with the same shape of contract as [`parse_u32`].
pub fn parse_u16(s: &str) -> (r: Option<u16>)
    ensures
        r is Some <==> s@.len() >= 1 && all_digits(s@) && dec_val(s@) <= u16::MAX,
        r matches Some(v) ==> v == dec_val(s@),
{
    match parse_u32(s) {
        Some(v) if v <= 0xffff => Some(v as u16),
        _ => None,
    }
}

/// Parses a `u8`, with the same shape of contract as [`parse_u32`].
pub fn parse_u8(s: &str) -> (r: Option<u8>)
    ensures
        r is Some <==> s@.len() >= 1 && all_digits(s@) && dec_val(s@) <= u8::MAX,
        r matches Some(v) ==> v == dec_val(s@),
{
    match parse_u32(s) {
        Some(v) if v <= 0xff => Some(v as u8),
        _ => None,
    }
}

/// The string with one leading plus sign removed, if it has one.
pub open spec fn plus_stripped(s: Seq<char>) -> Seq<char> {
    if s.len() >= 1 && s[0] == '+' {
        s.drop_first()
    } else {
        s
    }
}

/// Parses an unsigned decimal token that may carry one leading plus sign,
/// into a `u16`.
pub fn parse_u16_token(s: &str) -> (r: Option<u16>)
    ensures
        r is Some <==> plus_stripped(s@).len() >= 1 && all_digits(plus_stripped(s@)) && dec_val(
            plus_stripped(s@),
        ) <= u16::MAX,
        r matches Some(v) ==> v == dec_val(plus_stripped(s@)),
{
    let n = s.unicode_len();
    if n >= 1 && s.get_char(0) == '+' {
        let body = s.substring_char(1, n);
        proof {
            assert(body@ =~= s@.drop_first());
        }
        parse_u16(body)
    } else {
        parse_u16(s)
    }
}

/// Parses an unsigned decimal token that may carry one leading plus sign,
/// into a `u32`.
pub fn parse_u32_token(s: &str) -> (r: Option<u32>)
    ensures
        r is Some <==> plus_stripped(s@).len() >= 1 && all_digits(plus_stripped(s@)) && dec_val(
            plus_stripped(s@),
        ) <= u32::MAX,
        r matches Some(v) ==> v == dec_val(plus_stripped(s@)),
{
    let n = s.unicode_len();
    if n >= 1 && s.get_char(0) == '+' {
        let body = s.substring_char(1, n);
        proof {
            assert(body@ =~= s@.drop_first());
        }
        parse_u32(body)
    } else {
        parse_u32(s)
    }
}

/// Whether a string is a decimal `i32`: an optional leading minus or plus
/// sign followed by digits, within the two's-complement range.
pub open spec fn is_dec_i32(s: Seq<char>) -> bool {
    if s.len() >= 1 && s[0] == '-' {
        let t = s.drop_first();
        t.len() >= 1 && all_digits(t) && dec_val(t) <= 0x8000_0000
    } else {
        let t = plus_stripped(s);
        t.len() >= 1 && all_digits(t) && dec_val(t) <= 0x7fff_ffff
    }
}

/// The value of a decimal `i32` string.
pub open spec fn dec_i32_val(s: Seq<char>) -> int {
    if s.len() >= 1 && s[0] == '-' {
        -(dec_val(s.drop_first()) as int)
    } else {
        dec_val(plus_stripped(s)) as int
    }
}

/// Parses an `i32`: digits with an optional leading minus or plus sign.
pub fn parse_i32(s: &str) -> (r: Option<i32>)
    ensures
        r is Some <==> is_dec_i32(s@),
        r matches Some(v) ==> v == dec_i32_val(s@),
{
    let n = s.unicode_len();
    if n >= 1 && s.get_char(0) == '-' {
        let mag = s.substring_char(1, n);
        proof {
            assert(mag@ =~= s@.drop_first());
        }
        match parse_u32(mag) {
            Some(v) if v <= 0x8000_0000 => {
                if v == 0x8000_0000 {
                    Some(i32::MIN)
                } else {
                    Some(-(v as i32))
                }
            },
            _ => None,
        }
    } else if n >= 1 && s.get_char(0) == '+' {
        let mag = s.substring_char(1, n);
        proof {
            assert(mag@ =~= s@.drop_first());
        }
        match parse_u32(mag) {
            Some(v) if v <= 0x7fff_ffff => Some(v as i32),
            _ => None,
        }
    } else {
        match parse_u32(s) {
            Some(v) if v <= 0x7fff_ffff => Some(v as i32),
            _ => None,
        }
    }
}

} // verus!
