//! Bytecode as it arrives: hexadecimal text, with or without `0x` before it.

use crate::text::{hex_digits, hex_lower};
use vstd::prelude::*;
use vstd::slice::slice_subrange;
use vstd::string::StringSliceAdditionalSpecFns;

verus! {

/// Why a text is no hexadecimal writing of bytes.
#[derive(Clone, Copy, PartialEq, Eq, Debug)]
pub enum HexError {
    /// A character that is no hexadecimal digit, and the place it stands at.
    InvalidHexCharacter { c: char, index: usize },
    /// An odd number of digits: two digits make one byte.
    OddLength,
    /// The text does not fill a buffer of fixed length.
    InvalidStringLength,
}

/// The value of a hexadecimal digit of either case, given as its ASCII byte;
/// `None` for every other byte.
pub open spec fn nibble(b: u8) -> Option<int> {
    if 0x30 <= b <= 0x39 {
        Some(b - 0x30)
    } else if 0x61 <= b <= 0x66 {
        Some(b - 0x61 + 10)
    } else if 0x41 <= b <= 0x46 {
        Some(b - 0x41 + 10)
    } else {
        None
    }
}

/// The least position from `from` on that holds no hexadecimal digit, or the
/// length of the text where every position holds one.
pub open spec fn first_invalid(digits: Seq<u8>, from: int) -> int
    decreases digits.len() - from,
{
    if from < 0 || from >= digits.len() {
        digits.len() as int
    } else if nibble(digits[from]) is None {
        from
    } else {
        first_invalid(digits, from + 1)
    }
}

/// The bytes that hexadecimal digits write, two digits to a byte, the high
/// half first; or the reason why they write none: an odd number of digits,
/// else the first character that is no digit.
pub open spec fn hex_decoded(digits: Seq<u8>) -> Result<Seq<u8>, HexError> {
    if digits.len() % 2 != 0 {
        Err(HexError::OddLength)
    } else if first_invalid(digits, 0) < digits.len() {
        Err(
            HexError::InvalidHexCharacter {
                c: digits[first_invalid(digits, 0)] as char,
                index: first_invalid(digits, 0) as usize,
            },
        )
    } else {
        Ok(
            Seq::new(
                digits.len() / 2,
                |k: int| (nibble(digits[2 * k])->0 * 16 + nibble(digits[2 * k + 1])->0) as u8,
            ),
        )
    }
}

/// Calls `hex::decode`. Trusted: the result is what [`hex_decoded`] says,
/// `hex`'s error handed on variant by variant.
#[verifier::external_body]
pub(crate) fn hex_decode(digits: &[u8]) -> (result: Result<Vec<u8>, HexError>)
    ensures
        hex_decoded(digits@) == match result {
            Ok(bytes) => Ok::<Seq<u8>, HexError>(bytes@),
            Err(error) => Err::<Seq<u8>, HexError>(error),
        },
{
    match hex::decode(digits) {
        Ok(bytes) => Ok(bytes),
        Err(hex::FromHexError::InvalidHexCharacter { c, index }) => Err(
            HexError::InvalidHexCharacter { c, index },
        ),
        Err(hex::FromHexError::OddLength) => Err(HexError::OddLength),
        Err(hex::FromHexError::InvalidStringLength) => Err(HexError::InvalidStringLength),
    }
}

/// The ASCII bytes of a text.
pub open spec fn ascii_bytes(text: Seq<char>) -> Seq<u8> {
    Seq::new(text.len(), |i: int| text[i] as u8)
}

/// What is written in hexadecimal reads back as it was.
pub proof fn lemma_hex_round_trip(bytes: Seq<u8>)
    ensures
        hex_decoded(ascii_bytes(hex_lower(bytes))) == Ok::<Seq<u8>, HexError>(bytes),
{
    let digits = ascii_bytes(hex_lower(bytes));
    assert forall|d: int| 0 <= d < 16 implies nibble(#[trigger] hex_digits()[d] as u8) == Some(
        d,
    ) by {
        lemma_digit_nibble(d);
    }
    assert forall|i: int| 0 <= i < digits.len() implies nibble(#[trigger] digits[i])
        == Some(
        if i % 2 == 0 {
            bytes[i / 2] as int / 16
        } else {
            bytes[i / 2] as int % 16
        },
    ) by {
        let d = if i % 2 == 0 {
            bytes[i / 2] as int / 16
        } else {
            bytes[i / 2] as int % 16
        };
        assert(hex_lower(bytes)[i] == hex_digits()[d]);
        assert(digits[i] == hex_digits()[d] as u8);
    }
    lemma_first_invalid(digits, 0);
    let decoded = hex_decoded(digits)->Ok_0;
    assert(decoded =~= bytes) by {
        assert forall|k: int| 0 <= k < bytes.len() implies decoded[k] == bytes[k] by {
            assert(nibble(digits[2 * k]) == Some(bytes[k] as int / 16));
            assert(nibble(digits[2 * k + 1]) == Some(bytes[k] as int % 16));
        }
    }
}

/// Each of the sixteen digits has its place in their order as its value.
proof fn lemma_digit_nibble(d: int)
    requires
        0 <= d < 16,
    ensures
        nibble(hex_digits()[d] as u8) == Some(d),
{
    let digits = hex_digits();
    assert(digits[0] == '0' && digits[1] == '1' && digits[2] == '2' && digits[3] == '3');
    assert(digits[4] == '4' && digits[5] == '5' && digits[6] == '6' && digits[7] == '7');
    assert(digits[8] == '8' && digits[9] == '9' && digits[10] == 'a' && digits[11] == 'b');
    assert(digits[12] == 'c' && digits[13] == 'd' && digits[14] == 'e' && digits[15] == 'f');
}

/// What `first_invalid` finds is no digit, and everything before it is one.
pub proof fn lemma_first_invalid(digits: Seq<u8>, from: int)
    requires
        0 <= from <= digits.len(),
    ensures
        from <= first_invalid(digits, from) <= digits.len(),
        first_invalid(digits, from) < digits.len() ==> nibble(
            digits[first_invalid(digits, from)],
        ) is None,
        forall|j: int| from <= j < first_invalid(digits, from) ==> nibble(digits[j]) is Some,
    decreases digits.len() - from,
{
    if from < digits.len() && nibble(digits[from]) is Some {
        lemma_first_invalid(digits, from + 1);
    }
}

/// What `str::trim` leaves of a text: the text without the white space at
/// its two ends.
pub uninterp spec fn trimmed(text: Seq<char>) -> Seq<char>;

/// Calls `str::trim`. Trusted: the result depends on the characters of the
/// text alone.
#[verifier::external_body]
pub(crate) fn trim(text: &str) -> (rest: &str)
    ensures
        rest@ == trimmed(text@),
{
    text.trim()
}

/// The text without one `0x` at its head.
pub open spec fn unprefixed(text: Seq<u8>) -> Seq<u8> {
    if text.len() >= 2 && text[0] == 0x30 && text[1] == 0x78 {
        text.skip(2)
    } else {
        text
    }
}

/// Reads bytecode from hexadecimal text, of either case, that may begin
/// with `0x`.
pub fn decode_hex_text(text: &str) -> (result: Result<Vec<u8>, HexError>)
    ensures
        hex_decoded(unprefixed(text.spec_bytes())) == match result {
            Ok(bytes) => Ok::<Seq<u8>, HexError>(bytes@),
            Err(error) => Err::<Seq<u8>, HexError>(error),
        },
        !(result matches Err(HexError::InvalidStringLength)),
{
    let bytes = text.as_bytes();
    let n = bytes.len();
    if n >= 2 && bytes[0] == 0x30 && bytes[1] == 0x78 {
        let digits = slice_subrange(bytes, 2, n);
        assert(digits@ =~= bytes@.skip(2));
        hex_decode(digits)
    } else {
        hex_decode(bytes)
    }
}

/// Reads bytecode from the content of a file: hexadecimal text as
/// [`decode_hex_text`] takes it, with white space around it.
pub fn parse_hex_text(content: &str) -> (result: Result<Vec<u8>, HexError>)
    ensures
        hex_decoded(unprefixed(vstd::utf8::encode_utf8(trimmed(content@)))) == match result {
            Ok(bytes) => Ok::<Seq<u8>, HexError>(bytes@),
            Err(error) => Err::<Seq<u8>, HexError>(error),
        },
        !(result matches Err(HexError::InvalidStringLength)),
{
    decode_hex_text(trim(content))
}

} // verus!
