//! Text forms of bytes and numbers.

use vstd::prelude::*;
use vstd::string::{StrSliceExecFns, StringExecFns};

verus! {

/// The sixteen lower-case hexadecimal digits, in order.
pub open spec fn hex_digits() -> Seq<char> {
    seq!['0', '1', '2', '3', '4', '5', '6', '7', '8', '9', 'a', 'b', 'c', 'd', 'e', 'f']
}

/// `bytes` in lower-case hexadecimal: two digits for each byte, the high half
/// first.
pub open spec fn hex_lower(bytes: Seq<u8>) -> Seq<char> {
    Seq::new(
        2 * bytes.len(),
        |i: int|
            if i % 2 == 0 {
                hex_digits()[bytes[i / 2] as int / 16]
            } else {
                hex_digits()[bytes[i / 2] as int % 16]
            },
    )
}

/// Calls `hex::encode`. Trusted: the string it returns has two lower-case
/// hexadecimal digits for each byte, in the order of the bytes, the high
/// half of a byte before its low half.
#[verifier::external_body]
pub(crate) fn hex_encode(bytes: &[u8]) -> (text: String)
    ensures
        text@ == hex_lower(bytes@),
{
    hex::encode(bytes)
}

/// The ten decimal digits, in order.
pub open spec fn decimal_digits() -> Seq<char> {
    seq!['0', '1', '2', '3', '4', '5', '6', '7', '8', '9']
}

/// `value` in decimal, without leading zeros.
pub open spec fn decimal(value: nat) -> Seq<char>
    decreases value,
{
    if value < 10 {
        seq![decimal_digits()[value as int]]
    } else {
        decimal(value / 10).push(decimal_digits()[(value % 10) as int])
    }
}

/// The digit of the value `d`, as text.
fn digit_text(d: u8) -> (digit: &'static str)
    requires
        d < 16,
    ensures
        digit@ == seq![hex_digits()[d as int]],
        d < 10 ==> digit@ == seq![decimal_digits()[d as int]],
{
    proof {
        reveal_strlit("0");
        reveal_strlit("1");
        reveal_strlit("2");
        reveal_strlit("3");
        reveal_strlit("4");
        reveal_strlit("5");
        reveal_strlit("6");
        reveal_strlit("7");
        reveal_strlit("8");
        reveal_strlit("9");
        reveal_strlit("a");
        reveal_strlit("b");
        reveal_strlit("c");
        reveal_strlit("d");
        reveal_strlit("e");
        reveal_strlit("f");
    }
    let digit = match d {
        0 => "0",
        1 => "1",
        2 => "2",
        3 => "3",
        4 => "4",
        5 => "5",
        6 => "6",
        7 => "7",
        8 => "8",
        9 => "9",
        10 => "a",
        11 => "b",
        12 => "c",
        13 => "d",
        14 => "e",
        _ => "f",
    };
    assert(digit@ =~= seq![hex_digits()[d as int]]);
    digit
}

/// Writes `value` in decimal.
pub fn decimal_text(value: u128) -> (text: String)
    ensures
        text@ == decimal(value as nat),
    decreases value,
{
    if value < 10 {
        String::from_str(digit_text(value as u8))
    } else {
        let text = decimal_text(value / 10).concat(digit_text((value % 10) as u8));
        assert(text@ =~= decimal(value as nat));
        text
    }
}

/// Every byte is a printable ASCII character: a space, or a visible one.
pub open spec fn is_printable(bytes: Seq<u8>) -> bool {
    forall|i: int| 0 <= i < bytes.len() ==> 0x20 <= #[trigger] bytes[i] <= 0x7e
}

/// The characters that ASCII bytes stand for.
pub open spec fn ascii_chars(bytes: Seq<u8>) -> Seq<char> {
    Seq::new(bytes.len(), |i: int| bytes[i] as char)
}

/// Calls `std::str::from_utf8`. Trusted: bytes below 0x80 are valid UTF-8,
/// each the character with the byte's value.
#[verifier::external_body]
pub(crate) fn ascii_text(bytes: &[u8]) -> (text: &str)
    requires
        forall|i: int| 0 <= i < bytes@.len() ==> bytes@[i] < 0x80,
    ensures
        text@ == ascii_chars(bytes@),
{
    std::str::from_utf8(bytes).unwrap_or("")
}

/// A character as it stands inside a quoted text: a double quote and a
/// backslash behind a backslash, every other character as it is.
pub open spec fn escaped_char(b: u8) -> Seq<char> {
    if b == 0x22 {
        seq!['\\', '"']
    } else if b == 0x5c {
        seq!['\\', '\\']
    } else {
        seq![b as char]
    }
}

/// The characters of a text, each as it stands inside a quoted text.
pub open spec fn escaped(bytes: Seq<u8>) -> Seq<char>
    decreases bytes.len(),
{
    if bytes.len() == 0 {
        Seq::empty()
    } else {
        escaped(bytes.drop_last()) + escaped_char(bytes.last())
    }
}

/// A printable text between double quotes, as a string literal would write
/// it.
pub open spec fn quoted(bytes: Seq<u8>) -> Seq<char> {
    seq!['"'] + escaped(bytes) + seq!['"']
}

/// Writes a printable text between double quotes.
pub(crate) fn quoted_text(bytes: &[u8]) -> (text: String)
    requires
        is_printable(bytes@),
    ensures
        text@ == quoted(bytes@),
{
    let plain = ascii_text(bytes);
    let n = bytes.len();
    let mut text = String::from_str("\"");
    let mut i: usize = 0;
    proof {
        reveal_strlit("\"");
        reveal_strlit("\\\"");
        reveal_strlit("\\\\");
        assert(bytes@.subrange(0, 0) =~= Seq::<u8>::empty());
        assert(text@ =~= seq!['"'] + escaped(bytes@.subrange(0, 0)));
        assert(plain.is_ascii());
    }
    while i < n
        invariant
            n == bytes@.len(),
            0 <= i <= n,
            is_printable(bytes@),
            plain@ == ascii_chars(bytes@),
            plain.is_ascii(),
            text@ == seq!['"'] + escaped(bytes@.subrange(0, i as int)),
            "\\\""@ == seq!['\\', '"'],
            "\\\\"@ == seq!['\\', '\\'],
            "\""@ == seq!['"'],
        decreases n - i,
    {
        let b = bytes[i];
        let ghost before = bytes@.subrange(0, i as int);
        let ghost now = bytes@.subrange(0, i + 1);
        assert(now.drop_last() =~= before);
        assert(now.last() == b);
        if b == 0x22 {
            text.append("\\\"");
        } else if b == 0x5c {
            text.append("\\\\");
        } else {
            let one = plain.substring_ascii(i, i + 1);
            assert(one@ =~= seq![b as char]);
            text.append(one);
        }
        i = i + 1;
        assert(text@ =~= seq!['"'] + escaped(now));
    }
    assert(bytes@.subrange(0, n as int) =~= bytes@);
    text.append("\"");
    text
}

/// `value` in lower-case hexadecimal, without leading zeros.
pub open spec fn hex_number(value: nat) -> Seq<char>
    decreases value,
{
    if value < 16 {
        seq![hex_digits()[value as int]]
    } else {
        hex_number(value / 16).push(hex_digits()[(value % 16) as int])
    }
}

/// `digits` behind as many zeros as bring it to `width` characters.
pub open spec fn zero_padded(digits: Seq<char>, width: nat) -> Seq<char> {
    if digits.len() < width {
        Seq::new((width - digits.len()) as nat, |i: int| '0') + digits
    } else {
        digits
    }
}

/// Writes `value` in lower-case hexadecimal.
pub fn hex_number_text(value: usize) -> (text: String)
    ensures
        text@ == hex_number(value as nat),
    decreases value,
{
    if value < 16 {
        String::from_str(digit_text(value as u8))
    } else {
        let text = hex_number_text(value / 16).concat(digit_text((value % 16) as u8));
        assert(text@ =~= hex_number(value as nat));
        text
    }
}

/// A number below 16 to the power of three has fewer than four digits, and
/// how many is read off its size; a greater one has four or more.
proof fn lemma_hex_number_len(value: nat)
    ensures
        value < 0x10 ==> hex_number(value).len() == 1,
        0x10 <= value < 0x100 ==> hex_number(value).len() == 2,
        0x100 <= value < 0x1000 ==> hex_number(value).len() == 3,
        0x1000 <= value ==> hex_number(value).len() >= 4,
    decreases value,
{
    if value >= 16 {
        lemma_hex_number_len(value / 16);
    }
}

/// Writes an offset: in lower-case hexadecimal, with zeros before it where
/// it has fewer than four digits.
pub fn offset_text(value: usize) -> (text: String)
    ensures
        text@ == zero_padded(hex_number(value as nat), 4),
{
    let digits = hex_number_text(value);
    proof {
        lemma_hex_number_len(value as nat);
        reveal_strlit("0");
        reveal_strlit("00");
        reveal_strlit("000");
    }
    let zeros = if value < 0x10 {
        "000"
    } else if value < 0x100 {
        "00"
    } else if value < 0x1000 {
        "0"
    } else {
        ""
    };
    proof {
        reveal_strlit("");
        assert(zeros@ =~= Seq::new((4 - digits@.len()) as nat, |i: int| '0') || (digits@.len() >= 4
            && zeros@ =~= Seq::<char>::empty()));
    }
    let text = String::from_str(zeros).concat(digits.as_str());
    assert(text@ =~= zero_padded(hex_number(value as nat), 4));
    text
}

/// `text` before as many spaces as bring it to `width` characters.
pub open spec fn space_padded(text: Seq<char>, width: nat) -> Seq<char> {
    if text.len() < width {
        text + Seq::new((width - text.len()) as nat, |i: int| ' ')
    } else {
        text
    }
}

/// Fills `text` up with spaces to `width` characters.
pub fn pad_right(text: String, width: usize) -> (padded: String)
    ensures
        padded@ == space_padded(text@, width as nat),
{
    let mut padded = text;
    let mut len = padded.as_str().unicode_len();
    let ghost start = padded@;
    let first = len;
    proof {
        reveal_strlit(" ");
        assert(padded@ =~= start + Seq::new(0, |i: int| ' '));
    }
    while len < width
        invariant
            first == start.len(),
            first <= len,
            len <= width || len == first,
            padded@ == start + Seq::new((len - first) as nat, |i: int| ' '),
            " "@ == seq![' '],
        decreases width - len,
    {
        padded.append(" ");
        len = len + 1;
        assert(padded@ =~= start + Seq::new((len - first) as nat, |i: int| ' '));
    }
    assert(padded@ =~= space_padded(start, width as nat));
    padded
}

} // verus!
