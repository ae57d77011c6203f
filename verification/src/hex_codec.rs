//! Hexadecimal byte-string codec.
//!
//! Operator input arrives as whitespace-separated hexadecimal tokens
//! (`"AA 55"`, `"0x0D 0x0A"`). [`parse_hex_bytes`] decodes such a string into
//! bytes, rejecting the first malformed token. [`encode_upper`] renders bytes
//! as compact uppercase hex digits. Only ASCII whitespace separates tokens:
//! any other character, Unicode whitespace included, belongs to a token.

use vstd::prelude::*;
use vstd::string::StrSliceExecFns;
use vstd::string::StringExecFns;

verus! {

/// ASCII whitespace, the token separator recognized by the codec.
pub open spec fn is_space(c: char) -> bool {
    c == ' ' || c == '\t' || c == '\n' || c == '\r' || c == '\u{b}' || c == '\u{c}'
}

/// Value of a single hexadecimal digit, or `None` for any other character.
pub open spec fn hex_digit_value(c: char) -> Option<u8> {
    let v = c as int;
    if 0x30 <= v && v <= 0x39 {
        Some((v - 0x30) as u8)
    } else if 0x41 <= v && v <= 0x46 {
        Some((v - 0x41 + 10) as u8)
    } else if 0x61 <= v && v <= 0x66 {
        Some((v - 0x61 + 10) as u8)
    } else {
        None
    }
}

/// Every character of `t` is a hexadecimal digit.
pub open spec fn all_hex_digits(t: Seq<char>) -> bool {
    forall|k: int| 0 <= k < t.len() ==> (#[trigger] hex_digit_value(t[k])) is Some
}

/// Numeric value of a string of hexadecimal digits, most significant first.
pub open spec fn hex_digits_value(t: Seq<char>) -> nat
    decreases t.len(),
{
    if t.len() == 0 {
        0
    } else {
        (hex_digits_value(t.drop_last()) * 16 + hex_digit_value(t.last()).unwrap_or(0)) as nat
    }
}

/// A token with one optional `0x`/`0X` prefix removed.
pub open spec fn strip_hex_prefix(t: Seq<char>) -> Seq<char> {
    if t.len() >= 2 && t[0] == '0' && (t[1] == 'x' || t[1] == 'X') {
        t.skip(2)
    } else {
        t
    }
}

/// The byte a prefix-stripped token stands for: all characters must be hex
/// digits and the value must fit a byte.
pub open spec fn token_byte(t: Seq<char>) -> Option<u8> {
    if t.len() > 0 && all_hex_digits(t) && hex_digits_value(t) <= 255 {
        Some(hex_digits_value(t) as u8)
    } else {
        None
    }
}

/// First index at or after `i` holding whitespace, or the length of `s`.
pub open spec fn scan_token(s: Seq<char>, i: int) -> int
    decreases s.len() - i when 0 <= i <= s.len()
{
    if i >= s.len() || is_space(s[i]) {
        i
    } else {
        scan_token(s, i + 1)
    }
}

proof fn lemma_scan_token(s: Seq<char>, i: int)
    requires
        0 <= i <= s.len(),
    ensures
        i <= scan_token(s, i) <= s.len(),
        forall|k: int| i <= k < scan_token(s, i) ==> !is_space(s[k]),
        scan_token(s, i) < s.len() ==> is_space(s[scan_token(s, i)]),
        i < s.len() && !is_space(s[i]) ==> scan_token(s, i) > i,
    decreases s.len() - i,
{
    if i >= s.len() || is_space(s[i]) {
    } else {
        lemma_scan_token(s, i + 1);
    }
}

/// Decoding of the character sequence `s` from index `i` on: whitespace is
/// skipped, each remaining token contributes one byte, and the first
/// malformed token (reported before prefix-stripping) is the error. A token
/// that is only a `0x`/`0X` prefix has nothing left to parse and is
/// malformed too.
pub open spec fn hex_decode_from(s: Seq<char>, i: int) -> Result<Seq<u8>, Seq<char>>
    decreases s.len() - i when 0 <= i <= s.len() via hex_decode_from_decreases
{
    if i >= s.len() {
        Ok(Seq::empty())
    } else if is_space(s[i]) {
        hex_decode_from(s, i + 1)
    } else {
        let j = scan_token(s, i);
        let t = s.subrange(i, j);
        let cleaned = strip_hex_prefix(t);
        match token_byte(cleaned) {
            Some(b) => match hex_decode_from(s, j) {
                Ok(bs) => Ok(seq![b] + bs),
                Err(e) => Err(e),
            },
            None => Err(t),
        }
    }
}

#[via_fn]
proof fn hex_decode_from_decreases(s: Seq<char>, i: int) {
    if 0 <= i < s.len() && !is_space(s[i]) {
        lemma_scan_token(s, i);
    }
}

/// Decoding of a whole hex string.
pub open spec fn hex_decode(s: Seq<char>) -> Result<Seq<u8>, Seq<char>> {
    hex_decode_from(s, 0)
}

/// The error message reported for a malformed token.
pub open spec fn hex_error_text(t: Seq<char>) -> Seq<char> {
    "invalid hex '"@ + t + "'"@
}

/// Uppercase hexadecimal digit for a value below 16.
pub open spec fn hex_digit_char(v: u8) -> char {
    if v < 10 {
        (0x30 + v) as char
    } else {
        (0x37 + v) as char
    }
}

/// The two uppercase hex digits of one byte.
pub open spec fn byte_hex(b: u8) -> Seq<char> {
    seq![hex_digit_char(b / 16), hex_digit_char(b % 16)]
}

/// Compact uppercase hexadecimal rendering: two digits per byte, no
/// separators.
pub open spec fn spec_hex_upper(bs: Seq<u8>) -> Seq<char>
    decreases bs.len(),
{
    if bs.len() == 0 {
        Seq::empty()
    } else {
        byte_hex(bs[0]) + spec_hex_upper(bs.drop_first())
    }
}

/// How a partially decoded string relates to the whole: the bytes decoded so
/// far, followed by whatever the rest of the string yields.
spec fn decode_state(s: Seq<char>, i: int, out: Seq<u8>) -> Result<Seq<u8>, Seq<char>> {
    match hex_decode_from(s, i) {
        Ok(bs) => Ok(out + bs),
        Err(e) => Err(e),
    }
}

/// `scan_token` is the only index with its characterization.
proof fn lemma_scan_token_eq(s: Seq<char>, i: int, j: int)
    requires
        0 <= i <= j <= s.len(),
        forall|k: int| i <= k < j ==> !is_space(s[k]),
        j < s.len() ==> is_space(s[j]),
    ensures
        scan_token(s, i) == j,
    decreases j - i,
{
    if i < j {
        lemma_scan_token_eq(s, i + 1, j);
    }
}

fn is_space_char(c: char) -> (r: bool)
    ensures
        r == is_space(c),
{
    c == ' ' || c == '\t' || c == '\n' || c == '\r' || c == '\u{b}' || c == '\u{c}'
}

fn hex_digit_val(c: char) -> (r: Option<u8>)
    ensures
        r == hex_digit_value(c),
{
    let v = c as u32;
    if 0x30 <= v && v <= 0x39 {
        Some((v - 0x30) as u8)
    } else if 0x41 <= v && v <= 0x46 {
        Some((v - 0x41 + 10) as u8)
    } else if 0x61 <= v && v <= 0x66 {
        Some((v - 0x61 + 10) as u8)
    } else {
        None
    }
}

/// Decode a whitespace-separated hexadecimal byte string.
///
/// Tokens are separated by ASCII whitespace. Each token, after one
/// optional `0x`/`0X` prefix, must consist of one or more hex digits with
/// a value no greater than 255; a token that is only a prefix is
/// malformed. The first malformed token is reported in the error. Empty
/// or all-whitespace input yields an empty byte sequence.
pub fn parse_hex_bytes(input: &str) -> (r: Result<Vec<u8>, String>)
    ensures
        r is Ok <==> hex_decode(input@) is Ok,
        r matches Ok(v) ==> hex_decode(input@) == Ok::<Seq<u8>, Seq<char>>(v@),
        r matches Err(e) ==> e@ == hex_error_text(hex_decode(input@)->Err_0),
{
    let ghost s = input@;
    let n = input.unicode_len();
    let mut out: Vec<u8> = Vec::new();
    let mut i: usize = 0;
    while i < n
        invariant
            i <= n,
            n == s.len(),
            s == input@,
            hex_decode(s) == decode_state(s, i as int, out@),
        decreases n - i,
    {
        let ghost i0 = i as int;
        let c = input.get_char(i);
        if is_space_char(c) {
            proof {
                assert(hex_decode_from(s, i0) == hex_decode_from(s, i0 + 1));
            }
            i = i + 1;
        } else {
            // Find the end of the token.
            let mut j = i;
            while j < n && !is_space_char(input.get_char(j))
                invariant
                    i <= j <= n,
                    n == s.len(),
                    s == input@,
                    forall|k: int| i <= k < j ==> !is_space(s[k]),
                decreases n - j,
            {
                j = j + 1;
            }
            proof {
                lemma_scan_token_eq(s, i as int, j as int);
                lemma_scan_token(s, i as int);
            }
            let ghost t = s.subrange(i as int, j as int);
            // Strip one optional 0x/0X prefix.
            let has_prefix = j - i >= 2 && input.get_char(i) == '0' && (input.get_char(i + 1)
                == 'x' || input.get_char(i + 1) == 'X');
            let ci = if has_prefix {
                i + 2
            } else {
                i
            };
            let ghost cleaned = s.subrange(ci as int, j as int);
            proof {
                assert(strip_hex_prefix(t) =~= cleaned);
            }
            if ci == j {
                // The token was only a prefix: nothing is left to parse,
                // so the token is malformed.
                proof {
                    assert(token_byte(cleaned) is None);
                    assert(hex_decode_from(s, i0) == Err::<Seq<u8>, Seq<char>>(t));
                }
                let token = input.substring_char(i, j);
                let mut msg = String::from_str("invalid hex '");
                msg.append(token);
                msg.append("'");
                return Err(msg);
            } else {
                // Accumulate the token's value digit by digit.
                let mut acc: u16 = 0;
                let mut all_digits = true;
                let mut too_big = false;
                let mut k = ci;
                while k < j
                    invariant
                        ci <= k <= j <= n,
                        n == s.len(),
                        s == input@,
                        all_digits <==> all_hex_digits(s.subrange(ci as int, k as int)),
                        all_digits ==> (too_big <==> hex_digits_value(
                            s.subrange(ci as int, k as int),
                        ) > 255),
                        all_digits && !too_big ==> acc == hex_digits_value(
                            s.subrange(ci as int, k as int),
                        ) && acc <= 255,
                    decreases j - k,
                {
                    let c2 = input.get_char(k);
                    let ghost prev = s.subrange(ci as int, k as int);
                    let ghost cur = s.subrange(ci as int, k as int + 1);
                    proof {
                        assert(cur.drop_last() =~= prev);
                        assert(cur.last() == s[k as int]);
                    }
                    match hex_digit_val(c2) {
                        None => {
                            all_digits = false;
                        },
                        Some(d) => {
                            if all_digits && !too_big {
                                if acc * 16 + (d as u16) > 255 {
                                    too_big = true;
                                } else {
                                    acc = acc * 16 + (d as u16);
                                }
                            }
                        },
                    }
                    k = k + 1;
                }
                if all_digits && !too_big {
                    proof {
                        assert(cleaned =~= s.subrange(ci as int, j as int));
                        assert(token_byte(cleaned) == Some(acc as u8));
                        assert(hex_decode_from(s, i0) == (match hex_decode_from(s, j as int) {
                            Ok(bs) => Ok::<Seq<u8>, Seq<char>>(seq![acc as u8] + bs),
                            Err(e) => Err::<Seq<u8>, Seq<char>>(e),
                        }));
                        if hex_decode_from(s, j as int) is Ok {
                            let bs = hex_decode_from(s, j as int)->Ok_0;
                            assert(out@ + (seq![acc as u8] + bs) =~= (out@ + seq![acc as u8])
                                + bs);
                        }
                    }
                    let ghost out0 = out@;
                    out.push(acc as u8);
                    i = j;
                    proof {
                        assert(out@ =~= out0 + seq![acc as u8]);
                    }
                } else {
                    proof {
                        assert(cleaned =~= s.subrange(ci as int, j as int));
                        assert(token_byte(cleaned) is None);
                        assert(hex_decode_from(s, i0) == Err::<Seq<u8>, Seq<char>>(t));
                    }
                    let token = input.substring_char(i, j);
                    let mut msg = String::from_str("invalid hex '");
                    msg.append(token);
                    msg.append("'");
                    return Err(msg);
                }
            }
        }
    }
    proof {
        assert(hex_decode_from(s, n as int) == Ok::<Seq<u8>, Seq<char>>(Seq::empty()));
        assert(out@ + Seq::<u8>::empty() =~= out@);
    }
    Ok(out)
}

/// Relies on hex::encode_upper: each input byte becomes two uppercase
/// hexadecimal digits, in input order, with no separators.
#[verifier::external_body]
fn hex_upper_string(bytes: &[u8]) -> (r: String)
    ensures
        r@ == spec_hex_upper(bytes@),
{
    hex::encode_upper(bytes)
}

/// Render `bytes` as compact uppercase hexadecimal digits.
pub fn encode_upper(bytes: &[u8]) -> (r: String)
    ensures
        r@ == spec_hex_upper(bytes@),
{
    hex_upper_string(bytes)
}

/// Uppercase hexadecimal rendering with a single space between bytes, the
/// form [`parse_hex_bytes`] reads back.
pub open spec fn spec_hex_upper_spaced(bs: Seq<u8>) -> Seq<char>
    decreases bs.len(),
{
    if bs.len() == 0 {
        Seq::empty()
    } else if bs.len() == 1 {
        byte_hex(bs[0])
    } else {
        byte_hex(bs[0]) + seq![' '] + spec_hex_upper_spaced(bs.drop_first())
    }
}

/// A hexadecimal digit reads back as the value it was made from.
proof fn lemma_hex_digit_roundtrip(v: u8)
    requires
        v < 16,
    ensures
        hex_digit_value(hex_digit_char(v)) == Some(v),
        !is_space(hex_digit_char(v)),
        hex_digit_char(v) != 'x',
        hex_digit_char(v) != 'X',
        hex_digit_char(v) != '0' || v == 0,
{
}

/// Appending one byte to a spaced rendering appends a space (except at the
/// front) and the byte's two digits.
proof fn lemma_spaced_push(xs: Seq<u8>, y: u8)
    ensures
        xs.len() == 0 ==> spec_hex_upper_spaced(xs.push(y)) == byte_hex(y),
        xs.len() > 0 ==> spec_hex_upper_spaced(xs.push(y)) == spec_hex_upper_spaced(xs)
            + seq![' '] + byte_hex(y),
    decreases xs.len(),
{
    if xs.len() == 0 {
        assert(xs.push(y) =~= seq![y]);
        assert(spec_hex_upper_spaced(seq![y]) == byte_hex(y));
    } else if xs.len() == 1 {
        assert(xs.push(y).len() == 2);
        assert(xs.push(y)[0] == xs[0]);
        assert(xs.push(y).drop_first() =~= seq![y]);
        assert(spec_hex_upper_spaced(seq![y]) == byte_hex(y));
        assert(spec_hex_upper_spaced(xs) == byte_hex(xs[0]));
    } else {
        lemma_spaced_push(xs.drop_first(), y);
        assert(xs.push(y).drop_first() =~= xs.drop_first().push(y));
        assert(xs.push(y)[0] == xs[0]);
        assert(byte_hex(xs[0]) + (spec_hex_upper_spaced(xs.drop_first()) + seq![' ']
            + byte_hex(y)) =~= (byte_hex(xs[0]) + spec_hex_upper_spaced(xs.drop_first()))
            + seq![' '] + byte_hex(y)) by {
            assert((byte_hex(xs[0]) + (spec_hex_upper_spaced(xs.drop_first()) + seq![' ']
                + byte_hex(y))) =~= (byte_hex(xs[0]) + spec_hex_upper_spaced(xs.drop_first())
                + seq![' '] + byte_hex(y)));
        }
    }
}

/// Decoding a spaced rendering that sits at the tail of `s` yields exactly
/// the bytes it was made from.
proof fn lemma_decode_spaced_from(bs: Seq<u8>, s: Seq<char>, i: int)
    requires
        0 <= i <= s.len(),
        s.subrange(i, s.len() as int) =~= spec_hex_upper_spaced(bs),
    ensures
        hex_decode_from(s, i) == Ok::<Seq<u8>, Seq<char>>(bs),
    decreases bs.len(),
{
    if bs.len() == 0 {
        assert(i == s.len());
        assert(bs =~= Seq::<u8>::empty());
    } else {
        let b = bs[0];
        let hi = b / 16;
        let lo = b % 16;
        lemma_hex_digit_roundtrip(hi);
        lemma_hex_digit_roundtrip(lo);
        let tail = s.subrange(i, s.len() as int);
        let sp = spec_hex_upper_spaced(bs);
        assert(tail.len() == sp.len());
        assert(byte_hex(b).len() == 2);
        assert(byte_hex(b)[0] == hex_digit_char(hi));
        assert(byte_hex(b)[1] == hex_digit_char(lo));
        if bs.len() == 1 {
            assert(sp == byte_hex(b));
            assert(s.len() == i + 2);
        } else {
            assert(sp == byte_hex(b) + seq![' '] + spec_hex_upper_spaced(bs.drop_first()));
            assert(sp.len() >= 3);
            assert(sp[0] == hex_digit_char(hi));
            assert(sp[1] == hex_digit_char(lo));
            assert(sp[2] == ' ');
        }
        assert(s[i] == tail[0] && tail[0] == sp[0]);
        assert(s[i + 1] == tail[1] && tail[1] == sp[1]);
        assert(s[i] == hex_digit_char(hi));
        assert(s[i + 1] == hex_digit_char(lo));
        if bs.len() == 1 {
            lemma_scan_token_eq(s, i, i + 2);
        } else {
            assert(s[i + 2] == tail[2] && tail[2] == sp[2]);
            assert(is_space(s[i + 2]));
            lemma_scan_token_eq(s, i, i + 2);
        }
        let t = s.subrange(i, i + 2);
        assert(t =~= byte_hex(b));
        assert(strip_hex_prefix(t) == t) by {
            assert(t[1] != 'x' && t[1] != 'X');
        }
        assert(all_hex_digits(t)) by {
            assert forall|k: int| 0 <= k < t.len() implies (#[trigger] hex_digit_value(
                t[k],
            )) is Some by {
                assert(k == 0 || k == 1);
            }
        }
        assert(hex_digits_value(t) == b) by {
            assert(t.drop_last() =~= seq![t[0]]);
            assert(t.last() == t[1]);
            assert(seq![t[0]].drop_last() =~= Seq::<char>::empty());
            assert(seq![t[0]].last() == t[0]);
            assert(hex_digit_value(t[0]) == Some(hi));
            assert(hex_digit_value(t[1]) == Some(lo));
            assert(hex_digits_value(Seq::<char>::empty()) == 0);
            assert(hex_digits_value(seq![t[0]]) == 0 * 16 + hi);
            assert(hex_digits_value(t) == hi * 16 + lo);
            assert(hi * 16 + lo == b);
        }
        assert(token_byte(t) == Some(b));
        if bs.len() == 1 {
            assert(hex_decode_from(s, i + 2) == Ok::<Seq<u8>, Seq<char>>(Seq::empty()));
            assert(seq![b] + Seq::<u8>::empty() =~= bs);
            assert(hex_decode_from(s, i) == Ok::<Seq<u8>, Seq<char>>(bs));
        } else {
            let rest = spec_hex_upper_spaced(bs.drop_first());
            assert(s.len() == i + 3 + rest.len());
            assert(s.subrange(i + 3, s.len() as int) =~= rest) by {
                assert forall|k: int| 0 <= k < rest.len() implies #[trigger] s.subrange(
                    i + 3,
                    s.len() as int,
                )[k] == rest[k] by {
                    assert(s.subrange(i + 3, s.len() as int)[k] == s[i + 3 + k]);
                    assert(s[i + 3 + k] == tail[3 + k]);
                    assert(tail[3 + k] == sp[3 + k]);
                    assert(sp[3 + k] == rest[k]);
                }
            }
            lemma_decode_spaced_from(bs.drop_first(), s, i + 3);
            assert(hex_decode_from(s, i + 2) == hex_decode_from(s, i + 3));
            assert(seq![b] + bs.drop_first() =~= bs);
            assert(hex_decode_from(s, i) == Ok::<Seq<u8>, Seq<char>>(bs));
        }
    }
}

/// Round trip: decoding the spaced uppercase rendering of any byte sequence
/// yields that sequence back.
pub proof fn lemma_hex_round_trip(bs: Seq<u8>)
    ensures
        hex_decode(spec_hex_upper_spaced(bs)) == Ok::<Seq<u8>, Seq<char>>(bs),
{
    let s = spec_hex_upper_spaced(bs);
    assert(s.subrange(0, s.len() as int) =~= s);
    lemma_decode_spaced_from(bs, s, 0);
}

/// Uppercase hexadecimal digit as a one-character string.
pub(crate) fn hex_digit_str(v: u8) -> (r: &'static str)
    requires
        v < 16,
    ensures
        r@ =~= seq![hex_digit_char(v)],
{
    proof {
        reveal_strlit("0");
        reveal_strlit("1");
        reveal_strlit("2");
        reveal_strlit("3");
        reveal_strlit("4");
        reveal_strlit("5");
        reveal_strlit("6");
        reveal_strlit("7");
        reveal_strlit("8");
        reveal_strlit("9");
        reveal_strlit("A");
        reveal_strlit("B");
        reveal_strlit("C");
        reveal_strlit("D");
        reveal_strlit("E");
        reveal_strlit("F");
    }
    if v == 0 {
        "0"
    } else if v == 1 {
        "1"
    } else if v == 2 {
        "2"
    } else if v == 3 {
        "3"
    } else if v == 4 {
        "4"
    } else if v == 5 {
        "5"
    } else if v == 6 {
        "6"
    } else if v == 7 {
        "7"
    } else if v == 8 {
        "8"
    } else if v == 9 {
        "9"
    } else if v == 10 {
        "A"
    } else if v == 11 {
        "B"
    } else if v == 12 {
        "C"
    } else if v == 13 {
        "D"
    } else if v == 14 {
        "E"
    } else {
        "F"
    }
}

/// Render `bytes` as uppercase hexadecimal with a space between bytes, the
/// spaced form that [`parse_hex_bytes`] decodes back to the same bytes.
pub fn encode_upper_spaced(bytes: &[u8]) -> (r: String)
    ensures
        r@ == spec_hex_upper_spaced(bytes@),
{
    let mut r = String::new();
    let n = bytes.len();
    let mut idx: usize = 0;
    while idx < n
        invariant
            idx <= n,
            n == bytes@.len(),
            r@ == spec_hex_upper_spaced(bytes@.take(idx as int)),
        decreases n - idx,
    {
        let b = *vstd::slice::slice_index_get(bytes, idx);
        if idx > 0 {
            proof {
                reveal_strlit(" ");
            }
            r.append(" ");
        }
        r.append(hex_digit_str(b / 16));
        r.append(hex_digit_str(b % 16));
        proof {
            lemma_spaced_push(bytes@.take(idx as int), b);
            assert(bytes@.take(idx as int).push(b) =~= bytes@.take(idx as int + 1));
        }
        idx = idx + 1;
    }
    proof {
        assert(bytes@.take(n as int) =~= bytes@);
    }
    r
}

} // verus!
