//! Index and range expression parsing.
//!
//! An operator enters a byte range as a single index (`"3"`), a dashed
//! range (`"3-5"`), or a dotted range (`"10..20"`). The dash grammar is
//! tried first, then the single index, then the dotted form; any parse
//! failure inside the matched grammar rejects the whole input. Because the
//! dash is tried first, an input such as `"1-2..3"` is read as a dashed
//! range with an unparsable right side, not as a dotted range: the
//! precedence is part of the grammar. Surrounding whitespace is trimmed,
//! ASCII whitespace only. Endpoints are not reordered here; callers
//! normalize with [`normalize_range`].

use crate::hex_codec::is_space;
use vstd::prelude::*;
use vstd::string::StrSliceExecFns;

verus! {

/// Value of a single decimal digit, or `None` for any other character.
pub open spec fn dec_digit_value(c: char) -> Option<u8> {
    let v = c as int;
    if 0x30 <= v && v <= 0x39 {
        Some((v - 0x30) as u8)
    } else {
        None
    }
}

/// Every character of `t` is a decimal digit.
pub open spec fn all_dec_digits(t: Seq<char>) -> bool {
    forall|k: int| 0 <= k < t.len() ==> (#[trigger] dec_digit_value(t[k])) is Some
}

/// Numeric value of a string of decimal digits, most significant first.
pub open spec fn dec_digits_value(t: Seq<char>) -> nat
    decreases t.len(),
{
    if t.len() == 0 {
        0
    } else {
        (dec_digits_value(t.drop_last()) * 10 + dec_digit_value(t.last()).unwrap_or(0)) as nat
    }
}

/// The unsigned integer `t` denotes: non-empty, decimal digits only, and a
/// value that fits the machine word.
pub open spec fn parse_usize(t: Seq<char>) -> Option<usize> {
    if t.len() > 0 && all_dec_digits(t) && dec_digits_value(t) <= usize::MAX {
        Some(dec_digits_value(t) as usize)
    } else {
        None
    }
}

/// First index at or after `i` holding a non-space character, or the length
/// of `s`.
pub open spec fn scan_nonspace(s: Seq<char>, i: int) -> int
    decreases s.len() - i when 0 <= i <= s.len()
{
    if i >= s.len() || !is_space(s[i]) {
        i
    } else {
        scan_nonspace(s, i + 1)
    }
}

/// Last index at or before `j` such that the character before it is not a
/// space, or zero.
pub open spec fn scan_nonspace_back(s: Seq<char>, j: int) -> int
    decreases j when 0 <= j <= s.len()
{
    if j <= 0 || !is_space(s[j - 1]) {
        j
    } else {
        scan_nonspace_back(s, j - 1)
    }
}

/// `s` with leading and trailing whitespace removed.
pub open spec fn spec_trim(s: Seq<char>) -> Seq<char> {
    let a = scan_nonspace(s, 0);
    let b = scan_nonspace_back(s, s.len() as int);
    if a <= b {
        s.subrange(a, b)
    } else {
        Seq::empty()
    }
}

/// First occurrence of the character `c` in `t` at or after `i`.
pub open spec fn find_char_from(t: Seq<char>, c: char, i: int) -> Option<int>
    decreases t.len() - i when 0 <= i
{
    if i >= t.len() {
        None
    } else if t[i] == c {
        Some(i)
    } else {
        find_char_from(t, c, i + 1)
    }
}

/// First occurrence of two consecutive dots in `t` at or after `i`.
pub open spec fn find_dotdot_from(t: Seq<char>, i: int) -> Option<int>
    decreases t.len() - i when 0 <= i
{
    if i + 2 > t.len() {
        None
    } else if t[i] == '.' && t[i + 1] == '.' {
        Some(i)
    } else {
        find_dotdot_from(t, i + 1)
    }
}

/// The range an input string denotes, endpoint order preserved.
///
/// The trimmed input is split at its first dash if it has one; otherwise it
/// must be a single integer; otherwise it is split at its first dot pair.
/// Each side is trimmed and parsed as an unsigned integer; any failure
/// inside the chosen grammar yields `None`.
pub open spec fn spec_parse_range(s: Seq<char>) -> Option<(usize, usize)> {
    let t = spec_trim(s);
    if t.len() == 0 {
        None
    } else {
        match find_char_from(t, '-', 0) {
            Some(k) => {
                let a = parse_usize(spec_trim(t.take(k)));
                let b = parse_usize(spec_trim(t.skip(k + 1)));
                if a is Some && b is Some {
                    Some((a->0, b->0))
                } else {
                    None
                }
            },
            None => match parse_usize(t) {
                Some(v) => Some((v, v)),
                None => match find_dotdot_from(t, 0) {
                    Some(k) => {
                        let a = parse_usize(spec_trim(t.take(k)));
                        let b = parse_usize(spec_trim(t.skip(k + 2)));
                        if a is Some && b is Some {
                            Some((a->0, b->0))
                        } else {
                            None
                        }
                    },
                    None => None,
                },
            },
        }
    }
}

proof fn lemma_scan_nonspace_eq(s: Seq<char>, i: int, j: int)
    requires
        0 <= i <= j <= s.len(),
        forall|k: int| i <= k < j ==> is_space(s[k]),
        j < s.len() ==> !is_space(s[j]),
    ensures
        scan_nonspace(s, i) == j,
    decreases j - i,
{
    if i < j {
        lemma_scan_nonspace_eq(s, i + 1, j);
    }
}

proof fn lemma_scan_nonspace_back_le(s: Seq<char>, j: int)
    requires
        0 <= j <= s.len(),
    ensures
        0 <= scan_nonspace_back(s, j) <= j,
    decreases j,
{
    if !(j <= 0 || !is_space(s[j - 1])) {
        lemma_scan_nonspace_back_le(s, j - 1);
    }
}

proof fn lemma_scan_nonspace_back_eq(s: Seq<char>, j0: int, j: int)
    requires
        0 <= j <= j0 <= s.len(),
        forall|k: int| j <= k < j0 ==> is_space(s[k]),
        j > 0 ==> !is_space(s[j - 1]),
    ensures
        scan_nonspace_back(s, j0) == j,
    decreases j0 - j,
{
    if j < j0 {
        lemma_scan_nonspace_back_eq(s, j0 - 1, j);
    }
}

proof fn lemma_find_char_is(t: Seq<char>, c: char, i: int, j: int)
    requires
        0 <= i <= j < t.len(),
        t[j] == c,
        forall|k: int| i <= k < j ==> t[k] != c,
    ensures
        find_char_from(t, c, i) == Some(j),
    decreases j - i,
{
    if i < j {
        lemma_find_char_is(t, c, i + 1, j);
    }
}

proof fn lemma_find_char_is_none(t: Seq<char>, c: char, i: int)
    requires
        0 <= i,
        forall|k: int| i <= k < t.len() ==> t[k] != c,
    ensures
        find_char_from(t, c, i) is None,
    decreases t.len() - i,
{
    if i < t.len() {
        lemma_find_char_is_none(t, c, i + 1);
    }
}

proof fn lemma_find_dotdot_is(t: Seq<char>, i: int, j: int)
    requires
        0 <= i <= j,
        j + 2 <= t.len(),
        t[j] == '.' && t[j + 1] == '.',
        forall|k: int| i <= k < j ==> !((#[trigger] t[k]) == '.' && t[k + 1] == '.'),
    ensures
        find_dotdot_from(t, i) == Some(j),
    decreases j - i,
{
    if i < j {
        lemma_find_dotdot_is(t, i + 1, j);
    }
}

proof fn lemma_find_dotdot_is_none(t: Seq<char>, i: int)
    requires
        0 <= i,
        forall|k: int| i <= k && k + 2 <= t.len() ==> !((#[trigger] t[k]) == '.' && t[k + 1] == '.'),
    ensures
        find_dotdot_from(t, i) is None,
    decreases t.len() - i,
{
    if i + 2 <= t.len() {
        lemma_find_dotdot_is_none(t, i + 1);
    }
}

fn is_space_char(c: char) -> (r: bool)
    ensures
        r == is_space(c),
{
    c == ' ' || c == '\t' || c == '\n' || c == '\r' || c == '\u{b}' || c == '\u{c}'
}

fn dec_digit_val(c: char) -> (r: Option<u8>)
    ensures
        r == dec_digit_value(c),
{
    let v = c as u32;
    if 0x30 <= v && v <= 0x39 {
        Some((v - 0x30) as u8)
    } else {
        None
    }
}

/// Parse the characters of `input` between `from` and `to`, trimmed, as an
/// unsigned integer.
fn parse_usize_trimmed(input: &str, from: usize, to: usize) -> (r: Option<usize>)
    requires
        from <= to <= input@.len(),
    ensures
        r == parse_usize(spec_trim(input@.subrange(from as int, to as int))),
{
    let ghost s = input@;
    let ghost seg = s.subrange(from as int, to as int);
    let mut lo = from;
    while lo < to && is_space_char(input.get_char(lo))
        invariant
            from <= lo <= to <= s.len(),
            s == input@,
            forall|k: int| from <= k < lo ==> is_space(s[k]),
        decreases to - lo,
    {
        lo = lo + 1;
    }
    let mut hi = to;
    while hi > lo && is_space_char(input.get_char(hi - 1))
        invariant
            from <= lo <= hi <= to <= s.len(),
            s == input@,
            forall|k: int| hi <= k < to ==> is_space(s[k]),
        decreases hi,
    {
        hi = hi - 1;
    }
    proof {
        assert forall|q: int| 0 <= q < seg.len() implies seg[q] == s[from + q] by {}
    }
    if lo == hi {
        // All whitespace (or empty): nothing to parse.
        proof {
            assert(forall|k: int| 0 <= k < seg.len() ==> is_space(#[trigger] seg[k]));
            lemma_scan_nonspace_eq(seg, 0, seg.len() as int);
            lemma_scan_nonspace_back_le(seg, seg.len() as int);
            assert(spec_trim(seg).len() == 0);
        }
        return None;
    }
    proof {
        lemma_scan_nonspace_eq(seg, 0, lo - from);
        lemma_scan_nonspace_back_eq(seg, seg.len() as int, hi - from);
        assert(spec_trim(seg) =~= s.subrange(lo as int, hi as int));
    }
    let ghost t = s.subrange(lo as int, hi as int);
    let mut acc: usize = 0;
    let mut all_digits = true;
    let mut too_big = false;
    let mut k = lo;
    while k < hi
        invariant
            lo <= k <= hi <= s.len(),
            s == input@,
            t == s.subrange(lo as int, hi as int),
            lo < hi,
            all_digits <==> all_dec_digits(s.subrange(lo as int, k as int)),
            all_digits ==> (too_big <==> dec_digits_value(s.subrange(lo as int, k as int))
                > usize::MAX),
            all_digits && !too_big ==> acc == dec_digits_value(s.subrange(lo as int, k as int)),
        decreases hi - k,
    {
        let c = input.get_char(k);
        let ghost prev = s.subrange(lo as int, k as int);
        let ghost cur = s.subrange(lo as int, k as int + 1);
        proof {
            assert(cur.drop_last() =~= prev);
            assert(cur.last() == s[k as int]);
        }
        match dec_digit_val(c) {
            None => {
                all_digits = false;
            },
            Some(d) => {
                if all_digits && !too_big {
                    if acc > usize::MAX / 10 || (acc == usize::MAX / 10 && (d as usize)
                        > usize::MAX % 10) {
                        too_big = true;
                        proof {
                            assert(acc * 10 + d > usize::MAX) by (nonlinear_arith)
                                requires
                                    acc > usize::MAX / 10 || (acc == usize::MAX / 10 && d
                                        > usize::MAX % 10),
                                    usize::MAX == usize::MAX / 10 * 10 + usize::MAX % 10,
                                    0 <= d,
                            ;
                        }
                    } else {
                        proof {
                            assert(acc * 10 + d <= usize::MAX) by (nonlinear_arith)
                                requires
                                    acc <= usize::MAX / 10,
                                    !(acc == usize::MAX / 10 && d > usize::MAX % 10),
                                    usize::MAX == usize::MAX / 10 * 10 + usize::MAX % 10,
                                    0 <= d <= 9,
                            ;
                        }
                        acc = acc * 10 + (d as usize);
                    }
                } else if all_digits && too_big {
                    proof {
                        assert(dec_digits_value(cur) >= dec_digits_value(prev)) by {
                            assert(dec_digits_value(cur) == dec_digits_value(prev) * 10
                                + dec_digit_value(s[k as int]).unwrap_or(0));
                        }
                    }
                }
            },
        }
        k = k + 1;
    }
    if all_digits && !too_big {
        proof {
            assert(s.subrange(lo as int, hi as int) == t);
            assert(parse_usize(t) == Some(acc));
        }
        Some(acc)
    } else {
        proof {
            assert(parse_usize(t) is None);
        }
        None
    }
}

/// Parse an index or range expression (`"3"`, `"3-5"`, `"10..20"`),
/// returning its two endpoints in the order written, or `None` when the
/// input fits none of the grammars.
pub fn parse_index_range(input: &str) -> (r: Option<(usize, usize)>)
    ensures
        r == spec_parse_range(input@),
{
    let ghost s = input@;
    let n = input.unicode_len();
    let mut lo: usize = 0;
    while lo < n && is_space_char(input.get_char(lo))
        invariant
            lo <= n,
            n == s.len(),
            s == input@,
            forall|k: int| 0 <= k < lo ==> is_space(s[k]),
        decreases n - lo,
    {
        lo = lo + 1;
    }
    let mut hi = n;
    while hi > lo && is_space_char(input.get_char(hi - 1))
        invariant
            lo <= hi <= n,
            n == s.len(),
            s == input@,
            forall|k: int| hi <= k < n ==> is_space(s[k]),
        decreases hi,
    {
        hi = hi - 1;
    }
    if lo == hi {
        proof {
            assert(forall|k: int| 0 <= k < s.len() ==> is_space(#[trigger] s[k]));
            lemma_scan_nonspace_eq(s, 0, s.len() as int);
            lemma_scan_nonspace_back_le(s, s.len() as int);
            assert(spec_trim(s).len() == 0);
        }
        return None;
    }
    proof {
        lemma_scan_nonspace_eq(s, 0, lo as int);
        lemma_scan_nonspace_back_eq(s, s.len() as int, hi as int);
        assert(spec_trim(s) =~= s.subrange(lo as int, hi as int));
    }
    let ghost t = spec_trim(s);
    proof {
        assert forall|q: int| 0 <= q < t.len() implies t[q] == s[lo + q] by {}
    }
    // First grammar: split at the first dash.
    let mut dash: Option<usize> = None;
    let mut k = lo;
    while k < hi
        invariant_except_break
            lo <= k <= hi <= s.len(),
            s == input@,
            dash is None,
            forall|q: int| lo <= q < k ==> s[q] != '-',
        ensures
            match dash {
                Some(dk) => lo <= dk < hi && s[dk as int] == '-' && forall|q: int|
                    lo <= q < dk ==> s[q] != '-',
                None => forall|q: int| lo <= q < hi ==> s[q] != '-',
            },
        decreases hi - k,
    {
        if input.get_char(k) == '-' {
            dash = Some(k);
            break;
        }
        k = k + 1;
    }
    if let Some(dk) = dash {
        proof {
            lemma_find_char_is(t, '-', 0, dk - lo);
            assert(t.take(dk - lo) =~= s.subrange(lo as int, dk as int));
            assert(t.skip(dk - lo + 1) =~= s.subrange(dk as int + 1, hi as int));
        }
        let a = parse_usize_trimmed(input, lo, dk);
        let b = parse_usize_trimmed(input, dk + 1, hi);
        return match (a, b) {
            (Some(av), Some(bv)) => Some((av, bv)),
            _ => None,
        };
    }
    proof {
        lemma_find_char_is_none(t, '-', 0);
    }
    // Second grammar: a single integer (the whole trimmed input).
    let single = parse_usize_trimmed(input, lo, hi);
    proof {
        // The segment is already trimmed, so trimming it again changes
        // nothing.
        assert(s.subrange(lo as int, hi as int) == t);
        lemma_scan_nonspace_eq(t, 0, 0);
        lemma_scan_nonspace_back_eq(t, t.len() as int, t.len() as int);
        assert(spec_trim(t) =~= t);
    }
    if let Some(v) = single {
        return Some((v, v));
    }
    // Third grammar: split at the first dot pair.
    let mut dots: Option<usize> = None;
    let mut k2 = lo;
    while k2 < hi && k2 + 1 < hi
        invariant_except_break
            lo <= k2 <= hi <= s.len(),
            s == input@,
            dots is None,
            forall|q: int| lo <= q < k2 ==> !((#[trigger] s[q]) == '.' && s[q + 1] == '.'),
        ensures
            match dots {
                Some(dk) => lo <= dk && dk + 2 <= hi && s[dk as int] == '.' && s[dk as int + 1]
                    == '.' && forall|q: int|
                    lo <= q < dk ==> !((#[trigger] s[q]) == '.' && s[q + 1] == '.'),
                None => forall|q: int|
                    lo <= q && q + 2 <= hi ==> !((#[trigger] s[q]) == '.' && s[q + 1] == '.'),
            },
        decreases hi - k2,
    {
        if input.get_char(k2) == '.' && input.get_char(k2 + 1) == '.' {
            dots = Some(k2);
            break;
        }
        k2 = k2 + 1;
    }
    match dots {
        Some(dk) => {
            proof {
                lemma_find_dotdot_is(t, 0, dk - lo);
                assert(t.take(dk - lo) =~= s.subrange(lo as int, dk as int));
                assert(t.skip(dk - lo + 2) =~= s.subrange(dk as int + 2, hi as int));
            }
            let a = parse_usize_trimmed(input, lo, dk);
            let b = parse_usize_trimmed(input, dk + 2, hi);
            match (a, b) {
                (Some(av), Some(bv)) => Some((av, bv)),
                _ => None,
            }
        },
        None => {
            proof {
                assert forall|q: int| 0 <= q && q + 2 <= t.len() implies !((#[trigger] t[q]) == '.'
                    && t[q + 1] == '.') by {
                    assert(t[q] == s[lo + q] && t[q + 1] == s[lo + q + 1]);
                }
                lemma_find_dotdot_is_none(t, 0);
            }
            None
        },
    }
}

/// An inclusive index range `(start, end)` put into ascending order.
///
/// Range expressions may arrive with their endpoints reversed; callers
/// normalize them with this function before storing a rule, so every stored
/// range satisfies `start <= end`.
pub fn normalize_range(start: usize, end: usize) -> (r: (usize, usize))
    ensures
        r.0 <= r.1,
        (r.0 == start && r.1 == end) || (r.0 == end && r.1 == start),
{
    if start <= end {
        (start, end)
    } else {
        (end, start)
    }
}

} // verus!
