//! Text helpers: UTF-8 decoding of stored bytes, and building ASCII strings.

use vstd::prelude::*;
use vstd::utf8::{decode_utf8, encode_utf8, is_ascii_chars, valid_utf8};

verus! {

/// std's `str::from_utf8`: its documentation promises `Ok` exactly when the bytes are
/// valid UTF-8, and then a string slice over those same bytes, whose characters are
/// the ones the bytes encode.
#[verifier::external_body]
pub(crate) fn str_from_utf8(bytes: &[u8]) -> (s: Option<&str>)
    ensures
        s is Some <==> valid_utf8(bytes@),
        s matches Some(s) ==> s@ == decode_utf8(bytes@),
{
    std::str::from_utf8(bytes).ok()
}

/// The characters whose codes are the given bytes.
pub open spec fn bytes_as_chars(bytes: Seq<u8>) -> Seq<char> {
    bytes.map_values(|b: u8| b as char)
}

/// All bytes are ASCII (below 128).
pub open spec fn all_ascii(bytes: Seq<u8>) -> bool {
    forall|i: int| 0 <= i < bytes.len() ==> #[trigger] bytes[i] < 128
}

/// ASCII bytes are valid UTF-8 and encode the characters of the same codes.
pub proof fn lemma_ascii_bytes_decode(bytes: Seq<u8>)
    requires
        all_ascii(bytes),
    ensures
        valid_utf8(bytes),
        decode_utf8(bytes) == bytes_as_chars(bytes),
{
    broadcast use vstd::utf8::group_utf8_lib;
    let chars = bytes_as_chars(bytes);
    assert(is_ascii_chars(chars)) by {
        assert forall|i: int| 0 <= i < chars.len() implies '\0' <= #[trigger] chars[i] <= '\u{7f}' by {
            assert(bytes[i] < 128);
        }
    }
    vstd::utf8::is_ascii_chars_encode_utf8(chars);
    assert forall|i: int| 0 <= i < bytes.len() implies encode_utf8(chars)[i] == bytes[i] by {
        assert(chars[i] as u8 == encode_utf8(chars)[i]);
        assert(chars[i] == bytes[i] as char);
    }
    assert(encode_utf8(chars) =~= bytes);
}

/// The string whose characters have the codes of the given ASCII bytes.
pub(crate) fn ascii_string(bytes: &[u8]) -> (s: String)
    requires
        all_ascii(bytes@),
    ensures
        s@ == bytes_as_chars(bytes@),
{
    proof {
        lemma_ascii_bytes_decode(bytes@);
    }
    match str_from_utf8(bytes) {
        Some(text) => text.to_owned(),
        None => {
            proof {
                assert(false);
            }
            String::new()
        },
    }
}

/// The lowercase hexadecimal digit for `d` (below 16), as an ASCII byte.
pub open spec fn hex_digit(d: nat) -> u8 {
    if d < 10 {
        (48 + d) as u8
    } else {
        (87 + d) as u8
    }
}

/// The lowercase hexadecimal digits of `n`, most significant first, without leading zeros.
pub open spec fn hex_digits(n: nat) -> Seq<u8>
    decreases n,
{
    if n < 16 {
        seq![hex_digit(n)]
    } else {
        hex_digits(n / 16).push(hex_digit(n % 16))
    }
}

/// The hexadecimal digits of `n`, padded on the left with `'0'` to at least `width` digits.
pub open spec fn padded_hex(n: nat, width: nat) -> Seq<u8> {
    let digits = hex_digits(n);
    if digits.len() < width {
        Seq::new((width - digits.len()) as nat, |i: int| 48u8) + digits
    } else {
        digits
    }
}

/// Hexadecimal digits are ASCII.
pub proof fn lemma_hex_digits_ascii(n: nat)
    ensures
        all_ascii(hex_digits(n)),
        hex_digits(n).len() >= 1,
    decreases n,
{
    if n >= 16 {
        lemma_hex_digits_ascii(n / 16);
    }
}

/// Append the hexadecimal digits of `n` to `out`.
fn push_hex_digits(n: u32, out: &mut Vec<u8>)
    ensures
        final(out)@ == old(out)@ + hex_digits(n as nat),
    decreases n,
{
    if n >= 16 {
        push_hex_digits(n / 16, out);
    }
    let d = n % 16;
    let digit = if d < 10 { 48 + d as u8 } else { 87 + d as u8 };
    out.push(digit);
    proof {
        if n >= 16 {
            assert(hex_digits(n as nat) == hex_digits((n / 16) as nat).push(hex_digit((n % 16) as nat)));
        }
        assert(digit == hex_digit(d as nat));
    }
}

/// The hexadecimal digits of `n`, zero-padded to at least `width` digits, as ASCII bytes.
pub(crate) fn padded_hex_bytes(n: u32, width: usize) -> (out: Vec<u8>)
    ensures
        out@ == padded_hex(n as nat, width as nat),
{
    let mut digits: Vec<u8> = Vec::new();
    push_hex_digits(n, &mut digits);
    assert(digits@ =~= hex_digits(n as nat));
    if digits.len() < width {
        let pad = width - digits.len();
        let mut out: Vec<u8> = Vec::new();
        let mut i: usize = 0;
        while i < pad
            invariant
                i <= pad,
                out@ == Seq::new(i as nat, |k: int| 48u8),
            decreases pad - i,
        {
            out.push(48u8);
            i = i + 1;
            assert(out@ =~= Seq::new(i as nat, |k: int| 48u8));
        }
        let mut j: usize = 0;
        while j < digits.len()
            invariant
                j <= digits.len(),
                out@ == Seq::new(pad as nat, |k: int| 48u8) + digits@.take(j as int),
            decreases digits.len() - j,
        {
            out.push(digits[j]);
            j = j + 1;
            assert(out@ =~= Seq::new(pad as nat, |k: int| 48u8) + digits@.take(j as int));
        }
        assert(digits@.take(digits.len() as int) =~= digits@);
        out
    } else {
        digits
    }
}

} // verus!
