//! The dictionary that gives selectors their signatures.

use std::collections::HashMap;
use vstd::prelude::*;
use vstd::string::is_ascii_spec_bytes;
use vstd::utf8::is_ascii_chars;

verus! {

broadcast use vstd::std_specs::hash::group_hash_axioms;

/// One record of the dictionary: a selector, written in hexadecimal, and the
/// signature of the function it selects.
#[derive(PartialEq, Eq, Debug)]
pub struct SelectorEntry {
    pub selector: String,
    pub signature: String,
}

/// The mathematical value of a [`SelectorEntry`].
pub ghost struct SelectorEntryView {
    pub selector: Seq<char>,
    pub signature: Seq<char>,
}

impl View for SelectorEntry {
    type V = SelectorEntryView;

    open spec fn view(&self) -> SelectorEntryView {
        SelectorEntryView { selector: self.selector@, signature: self.signature@ }
    }
}

/// The values of a sequence of records, item by item.
pub open spec fn entry_views(entries: Seq<SelectorEntry>) -> Seq<SelectorEntryView> {
    Seq::new(entries.len(), |i: int| entries[i]@)
}

/// The signatures of a dictionary, as plain text.
pub open spec fn signatures(selectors: Map<u32, String>) -> Map<u32, Seq<char>> {
    Map::new(|key: u32| selectors.contains_key(key), |key: u32| selectors[key]@)
}

/// The value of a hexadecimal digit of either case; `None` for every other
/// character.
pub open spec fn digit_value(c: char) -> Option<nat> {
    if '0' <= c <= '9' {
        Some((c as nat - '0' as nat) as nat)
    } else if 'a' <= c <= 'f' {
        Some((c as nat - 'a' as nat + 10) as nat)
    } else if 'A' <= c <= 'F' {
        Some((c as nat - 'A' as nat + 10) as nat)
    } else {
        None
    }
}

/// Every character is a hexadecimal digit.
pub open spec fn all_hex(digits: Seq<char>) -> bool {
    forall|i: int| 0 <= i < digits.len() ==> digit_value(#[trigger] digits[i]) is Some
}

/// The number that hexadecimal digits write.
pub open spec fn hex_value(digits: Seq<char>) -> nat
    decreases digits.len(),
{
    if digits.len() == 0 {
        0
    } else {
        hex_value(digits.drop_last()) * 16 + match digit_value(digits.last()) {
            Some(d) => d,
            None => 0,
        }
    }
}

/// Where the text goes on behind every `0x` that stands at `from` and
/// behind it.
pub open spec fn prefix_end(text: Seq<char>, from: int) -> int
    decreases text.len() - from,
{
    if 0 <= from && from + 1 < text.len() && text[from] == '0' && text[from + 1] == 'x' {
        prefix_end(text, from + 2)
    } else {
        from
    }
}

/// Where the digits of a selector begin: behind every leading `0x`, and
/// behind one `+` that may follow them.
pub open spec fn digits_start(text: Seq<char>) -> int {
    let p = prefix_end(text, 0);
    if p < text.len() && text[p] == '+' {
        p + 1
    } else {
        p
    }
}

/// The selector that `text` writes: its digits are read as a hexadecimal
/// number. `None` where there is no digit, where another character stands
/// among them, or where the number is too great for four bytes.
pub open spec fn selector_of(text: Seq<char>) -> Option<u32> {
    let digits = text.skip(digits_start(text));
    if digits.len() > 0 && all_hex(digits) && hex_value(digits) <= u32::MAX {
        Some(hex_value(digits) as u32)
    } else {
        None
    }
}

/// The leading `0x`s end within the text, and hold nothing but `0` and `x`.
pub proof fn lemma_prefix_end(text: Seq<char>, from: int)
    requires
        0 <= from <= text.len(),
    ensures
        from <= prefix_end(text, from) <= text.len(),
        forall|j: int|
            from <= j < prefix_end(text, from) ==> #[trigger] text[j] == '0' || text[j] == 'x',
    decreases text.len() - from,
{
    if from + 1 < text.len() && text[from] == '0' && text[from + 1] == 'x' {
        lemma_prefix_end(text, from + 2);
    }
}

/// The number that digits write is no less than the number that the first
/// `k` of them write.
pub proof fn lemma_hex_value_grows(digits: Seq<char>, k: int)
    requires
        0 <= k <= digits.len(),
    ensures
        hex_value(digits.subrange(0, k)) <= hex_value(digits),
    decreases digits.len() - k,
{
    if k < digits.len() {
        let longer = digits.subrange(0, k + 1);
        assert(longer.drop_last() =~= digits.subrange(0, k));
        assert(hex_value(longer) >= hex_value(digits.subrange(0, k)) * 16);
        lemma_hex_value_grows(digits, k + 1);
    } else {
        assert(digits.subrange(0, k) =~= digits);
    }
}

/// A text with a character outside ASCII writes no selector.
pub proof fn lemma_selector_is_ascii(text: Seq<char>)
    requires
        !is_ascii_chars(text),
    ensures
        selector_of(text) is None,
{
    let i = choose|i: int| 0 <= i < text.len() && !('\0' <= #[trigger] text[i] <= '\u{7f}');
    lemma_prefix_end(text, 0);
    let start = digits_start(text);
    if i < start {
        assert(text[i] == '0' || text[i] == 'x' || text[i] == '+');
    } else {
        let digits = text.skip(start);
        assert(digits[i - start] == text[i]);
        assert(digit_value(digits[i - start]) is None);
    }
}

/// Reads a selector written in hexadecimal: any number of leading `0x`, an
/// optional `+`, then digits of either case. `None` where there is no digit,
/// where another character stands among them, or where the number is too
/// great for four bytes.
pub fn parse_selector(text: &str) -> (key: Option<u32>)
    ensures
        key == selector_of(text@),
{
    if !text.is_ascii() {
        proof {
            lemma_selector_is_ascii(text@);
        }
        return None;
    }
    let bytes = text.as_bytes();
    let n = bytes.len();
    let ghost chars = text@;
    proof {
        is_ascii_spec_bytes(text);
        lemma_prefix_end(chars, 0);
    }
    let mut i: usize = 0;
    while i < n && n - i >= 2 && bytes[i] == 0x30 && bytes[i + 1] == 0x78
        invariant
            n == chars.len(),
            is_ascii_chars(chars),
            bytes@ == Seq::new(chars.len(), |k: int| chars[k] as u8),
            0 <= i <= n,
            prefix_end(chars, 0) == prefix_end(chars, i as int),
        decreases n - i,
    {
        assert(chars[i as int] == '0' && chars[i + 1] == 'x') by {
            assert(bytes@[i as int] == chars[i as int] as u8);
            assert(bytes@[i + 1] == chars[i + 1] as u8);
        }
        i = i + 2;
    }
    proof {
        if i + 1 < n {
            assert(bytes@[i as int] == chars[i as int] as u8);
            assert(bytes@[i + 1] == chars[i + 1] as u8);
        }
        assert(prefix_end(chars, 0) == i);
    }
    if i < n && bytes[i] == 0x2b {
        assert(bytes@[i as int] == chars[i as int] as u8);
        i = i + 1;
    } else if i < n {
        assert(bytes@[i as int] == chars[i as int] as u8);
    }
    assert(i == digits_start(chars));
    let start = i;
    let ghost digits = chars.skip(start as int);
    if i == n {
        return None;
    }
    let mut value: u64 = 0;
    assert(digits.subrange(0, 0) =~= Seq::<char>::empty());
    while i < n
        invariant
            n == chars.len(),
            is_ascii_chars(chars),
            bytes@ == Seq::new(chars.len(), |k: int| chars[k] as u8),
            start <= i <= n,
            start < n,
            chars == text@,
            start == digits_start(chars),
            digits == chars.skip(start as int),
            all_hex(digits.subrange(0, i - start)),
            value == hex_value(digits.subrange(0, i - start)),
            value <= u32::MAX,
        decreases n - i,
    {
        let b = bytes[i];
        let ghost c = chars[i as int];
        assert(b == c as u8);
        assert(digits[i - start] == c);
        let digit: u64 = if 0x30 <= b && b <= 0x39 {
            (b - 0x30) as u64
        } else if 0x61 <= b && b <= 0x66 {
            (b - 0x61 + 10) as u64
        } else if 0x41 <= b && b <= 0x46 {
            (b - 0x41 + 10) as u64
        } else {
            assert(digit_value(digits[i - start]) is None);
            return None;
        };
        assert(digit_value(c) == Some(digit as nat));
        let ghost before = digits.subrange(0, i - start);
        let ghost now = digits.subrange(0, i - start + 1);
        proof {
            assert(now.drop_last() =~= before);
            assert(now.last() == c);
            assert forall|k: int| 0 <= k < now.len() implies digit_value(#[trigger] now[k])
                is Some by {
                if k < before.len() {
                    assert(now[k] == before[k]);
                }
            }
        }
        value = value * 16 + digit;
        if value > 0xffff_ffff {
            proof {
                lemma_hex_value_grows(digits, i - start + 1);
            }
            return None;
        }
        i = i + 1;
    }
    assert(digits.subrange(0, n - start) =~= digits);
    Some(value as u32)
}

/// The dictionary that the first `k` records make: each record whose
/// selector can be read gives that selector its signature, a later record
/// before an earlier one.
pub open spec fn table_upto(entries: Seq<SelectorEntryView>, k: int) -> Map<u32, Seq<char>>
    decreases k,
{
    if k <= 0 {
        Map::empty()
    } else {
        match selector_of(entries[k - 1].selector) {
            Some(key) => table_upto(entries, k - 1).insert(key, entries[k - 1].signature),
            None => table_upto(entries, k - 1),
        }
    }
}

/// A selector is in the dictionary exactly if some record writes it, and has
/// the signature of the last record that does.
pub proof fn lemma_table_upto(entries: Seq<SelectorEntryView>, k: int, key: u32)
    requires
        0 <= k <= entries.len(),
    ensures
        table_upto(entries, k).contains_key(key) <==> exists|j: int|
            0 <= j < k && selector_of(#[trigger] entries[j].selector) == Some(key),
        forall|j: int|
            0 <= j < k && selector_of(#[trigger] entries[j].selector) == Some(key) && (forall|
                l: int,
            |
                j < l < k ==> selector_of(#[trigger] entries[l].selector) != Some(key))
                ==> table_upto(entries, k)[key] == entries[j].signature,
    decreases k,
{
    if k > 0 {
        lemma_table_upto(entries, k - 1, key);
        if selector_of(entries[k - 1].selector) == Some(key) {
            assert(table_upto(entries, k)[key] == entries[k - 1].signature);
        } else {
            assert(table_upto(entries, k).contains_key(key) <==> table_upto(
                entries,
                k - 1,
            ).contains_key(key));
            if table_upto(entries, k).contains_key(key) {
                assert(table_upto(entries, k)[key] == table_upto(entries, k - 1)[key]);
            }
        }
    }
}

/// Builds the dictionary from its records, in their order. A record whose
/// selector cannot be read is passed over; of two records for one selector
/// the later one counts.
pub fn selector_table(entries: &[SelectorEntry]) -> (table: HashMap<u32, String>)
    ensures
        signatures(table@) == table_upto(entry_views(entries@), entries@.len() as int),
{
    let mut table: HashMap<u32, String> = HashMap::new();
    let n = entries.len();
    let mut i: usize = 0;
    assert(signatures(table@) =~= table_upto(entry_views(entries@), 0));
    while i < n
        invariant
            n == entries@.len(),
            0 <= i <= n,
            signatures(table@) == table_upto(entry_views(entries@), i as int),
        decreases n - i,
    {
        let entry = &entries[i];
        assert(entry_views(entries@)[i as int] == entry@);
        let ghost before = signatures(table@);
        match parse_selector(entry.selector.as_str()) {
            Some(key) => {
                table.insert(key, entry.signature.clone());
                assert(signatures(table@) =~= before.insert(key, entry.signature@));
            },
            None => {},
        }
        i = i + 1;
    }
    table
}

} // verus!
