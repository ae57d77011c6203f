//! Byte-slice rendering.
//!
//! A byte slice can be shown as compact uppercase hexadecimal, as UTF-8
//! text with lossy replacement of invalid sequences, or as space-separated
//! zero-padded binary octets.

use crate::hex_codec::spec_hex_upper;
use crate::hex_codec::encode_upper;
use vstd::prelude::*;
use vstd::string::StringExecFns;

verus! {

/// How to render watched bytes.
#[derive(Clone, Copy, Debug, PartialEq, Eq, Structural)]
pub enum WatchView {
    /// Uppercase hexadecimal digits, no separators.
    Hex,
    /// UTF-8 text, invalid sequences replaced (never fails).
    Text,
    /// Space-separated zero-padded binary octets.
    Binary,
}

impl WatchView {
    /// The mode's display name.
    pub fn display_text(&self) -> (r: String)
        ensures
            r@ == match *self {
                WatchView::Hex => "Hex"@,
                WatchView::Text => "Text"@,
                WatchView::Binary => "Binary"@,
            },
    {
        match self {
            WatchView::Hex => String::from_str("Hex"),
            WatchView::Text => String::from_str("Text"),
            WatchView::Binary => String::from_str("Binary"),
        }
    }
}

/// What `String::from_utf8_lossy` yields for the given bytes: valid UTF-8
/// decoded, invalid sequences replaced. The result depends on the bytes
/// alone.
pub uninterp spec fn utf8_lossy_of(bs: Seq<u8>) -> Seq<char>;

/// Relies on String::from_utf8_lossy: decodes the bytes as UTF-8,
/// replacing invalid sequences with the replacement character; the result
/// is a function of the bytes alone, and empty input gives the empty
/// string.
#[verifier::external_body]
pub(crate) fn utf8_lossy(bytes: &[u8]) -> (r: String)
    ensures
        r@ == utf8_lossy_of(bytes@),
        bytes@.len() == 0 ==> r@.len() == 0,
{
    String::from_utf8_lossy(bytes).into_owned()
}

/// Bit `k` (most significant first) of byte `b`, as a binary digit.
pub open spec fn bit_char(b: u8, k: int) -> char {
    if ((b as u32) >> ((7 - k) as u32)) & 1 == 1 {
        '1'
    } else {
        '0'
    }
}

/// One byte as eight binary digits, most significant first.
pub open spec fn byte_bits(b: u8) -> Seq<char> {
    Seq::new(8, |k: int| bit_char(b, k))
}

/// Bytes as binary octets separated by single spaces.
pub open spec fn spec_binary_render(bs: Seq<u8>) -> Seq<char>
    decreases bs.len(),
{
    if bs.len() == 0 {
        Seq::empty()
    } else if bs.len() == 1 {
        byte_bits(bs[0])
    } else {
        byte_bits(bs[0]) + seq![' '] + spec_binary_render(bs.drop_first())
    }
}

/// Appending one byte appends a space (except at the front) and its octet.
proof fn lemma_binary_push(xs: Seq<u8>, y: u8)
    ensures
        xs.len() == 0 ==> spec_binary_render(xs.push(y)) == byte_bits(y),
        xs.len() > 0 ==> spec_binary_render(xs.push(y)) == spec_binary_render(xs) + seq![' ']
            + byte_bits(y),
    decreases xs.len(),
{
    if xs.len() == 0 {
        assert(xs.push(y) =~= seq![y]);
        assert(spec_binary_render(seq![y]) == byte_bits(y));
    } else if xs.len() == 1 {
        assert(xs.push(y).len() == 2);
        assert(xs.push(y)[0] == xs[0]);
        assert(xs.push(y).drop_first() =~= seq![y]);
        assert(spec_binary_render(seq![y]) == byte_bits(y));
        assert(spec_binary_render(xs) == byte_bits(xs[0]));
    } else {
        lemma_binary_push(xs.drop_first(), y);
        assert(xs.push(y).drop_first() =~= xs.drop_first().push(y));
        assert(xs.push(y)[0] == xs[0]);
        assert((byte_bits(xs[0]) + (spec_binary_render(xs.drop_first()) + seq![' ']
            + byte_bits(y))) =~= (byte_bits(xs[0]) + spec_binary_render(xs.drop_first())
            + seq![' '] + byte_bits(y)));
    }
}

fn bit_str(b: u8, k: usize) -> (r: &'static str)
    requires
        k < 8,
    ensures
        r@ =~= seq![bit_char(b, k as int)],
{
    proof {
        reveal_strlit("0");
        reveal_strlit("1");
    }
    let shift = (7 - k) as u32;
    if ((b as u32) >> shift) & 1 == 1 {
        "1"
    } else {
        "0"
    }
}

/// One byte as an eight-character binary string.
fn byte_binary_string(b: u8) -> (r: String)
    ensures
        r@ == byte_bits(b),
{
    let mut r = String::new();
    let mut k: usize = 0;
    while k < 8
        invariant
            k <= 8,
            r@ =~= byte_bits(b).take(k as int),
        decreases 8 - k,
    {
        r.append(bit_str(b, k));
        proof {
            assert(byte_bits(b).take(k as int).push(bit_char(b, k as int)) =~= byte_bits(
                b,
            ).take(k as int + 1));
        }
        k = k + 1;
    }
    proof {
        assert(byte_bits(b).take(8) =~= byte_bits(b));
    }
    r
}

/// Render `bytes` as space-separated binary octets.
pub fn render_binary(bytes: &[u8]) -> (r: String)
    ensures
        r@ == spec_binary_render(bytes@),
{
    let mut r = String::new();
    let n = bytes.len();
    let mut idx: usize = 0;
    while idx < n
        invariant
            idx <= n,
            n == bytes@.len(),
            r@ == spec_binary_render(bytes@.take(idx as int)),
        decreases n - idx,
    {
        let b = *vstd::slice::slice_index_get(bytes, idx);
        if idx > 0 {
            proof {
                reveal_strlit(" ");
            }
            r.append(" ");
        }
        let octet = byte_binary_string(b);
        r.append(octet.as_str());
        proof {
            lemma_binary_push(bytes@.take(idx as int), b);
            assert(bytes@.take(idx as int).push(b) =~= bytes@.take(idx as int + 1));
        }
        idx = idx + 1;
    }
    proof {
        assert(bytes@.take(n as int) =~= bytes@);
    }
    r
}

/// Decimal rendering of a number, most significant digit first, no sign
/// and no leading zeros (a lone zero for zero).
pub open spec fn dec_digits(n: nat) -> Seq<char>
    decreases n,
{
    if n < 10 {
        seq![crate::hex_codec::hex_digit_char(n as u8)]
    } else {
        dec_digits(n / 10) + seq![crate::hex_codec::hex_digit_char((n % 10) as u8)]
    }
}

/// Render `n` in decimal.
pub fn dec_string(n: usize) -> (r: String)
    ensures
        r@ == dec_digits(n as nat),
    decreases n,
{
    if n < 10 {
        let mut r = String::new();
        r.append(crate::hex_codec::hex_digit_str(n as u8));
        proof {
            assert(Seq::<char>::empty() + seq![crate::hex_codec::hex_digit_char(n as u8)]
                =~= seq![crate::hex_codec::hex_digit_char(n as u8)]);
        }
        r
    } else {
        let mut r = dec_string(n / 10);
        r.append(crate::hex_codec::hex_digit_str((n % 10) as u8));
        r
    }
}

/// What a byte slice looks like in each rendering mode.
pub open spec fn spec_render(bs: Seq<u8>, view: WatchView) -> Seq<char> {
    match view {
        WatchView::Hex => spec_hex_upper(bs),
        WatchView::Text => utf8_lossy_of(bs),
        WatchView::Binary => spec_binary_render(bs),
    }
}

/// Render `bytes` in the chosen mode: compact uppercase hex, lossy UTF-8
/// text, or space-separated binary octets. Total over every byte sequence;
/// empty bytes give the empty string in all three modes.
pub fn format_bytes_for_view(bytes: &[u8], view: WatchView) -> (r: String)
    ensures
        r@ == spec_render(bytes@, view),
        bytes@.len() == 0 ==> r@.len() == 0,
{
    match view {
        WatchView::Hex => encode_upper(bytes),
        WatchView::Text => utf8_lossy(bytes),
        WatchView::Binary => render_binary(bytes),
    }
}

} // verus!
