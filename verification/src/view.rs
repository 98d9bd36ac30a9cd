//! The lines of a listing: labels, instructions and raw bytes, each with the
//! comment that explains it.

use crate::analysis::{be_value, lemma_be_step, lemma_be_value_bound, radix_pow};
use crate::loader::{Program, ProgramView, SectionKind, SectionView};
use crate::parser::{instruction_text, views, Instruction, InstructionView};
use crate::selectors::signatures;
use crate::text::{
    decimal, decimal_text, hex_encode, hex_lower, hex_number, is_printable, offset_text,
    pad_right, quoted, quoted_text, space_padded, zero_padded,
};
use std::collections::HashMap;
use vstd::arithmetic::div_mod::lemma_small_mod;
use vstd::prelude::*;
use vstd::string::StringExecFns;
use vstd::view::View as _;

verus! {

broadcast use vstd::std_specs::hash::group_hash_axioms;

/// What a line shows.
#[derive(Debug)]
pub enum LineKind {
    Label(String),
    Instruction(Instruction),
    HexDump(Vec<u8>),
    Blank,
}

/// One line of a listing.
#[derive(Debug)]
pub struct Line {
    pub offset: usize,
    pub kind: LineKind,
    pub comment: Option<String>,
}

/// A listing: its lines, in order.
#[derive(Debug)]
pub struct View {
    pub lines: Vec<Line>,
}

/// The mathematical value of a [`LineKind`].
pub ghost enum LineKindView {
    Label(Seq<char>),
    Instruction(InstructionView),
    HexDump(Seq<u8>),
    Blank,
}

/// The mathematical value of a [`Line`].
pub ghost struct LineView {
    pub offset: int,
    pub kind: LineKindView,
    pub comment: Option<Seq<char>>,
}

impl vstd::view::View for LineKind {
    type V = LineKindView;

    open spec fn view(&self) -> LineKindView {
        match *self {
            LineKind::Label(name) => LineKindView::Label(name@),
            LineKind::Instruction(instruction) => LineKindView::Instruction(instruction@),
            LineKind::HexDump(bytes) => LineKindView::HexDump(bytes@),
            LineKind::Blank => LineKindView::Blank,
        }
    }
}

impl vstd::view::View for Line {
    type V = LineView;

    open spec fn view(&self) -> LineView {
        LineView {
            offset: self.offset as int,
            kind: self.kind@,
            comment: match self.comment {
                Some(text) => Some(text@),
                None => None,
            },
        }
    }
}

/// The values of a sequence of lines, item by item.
pub open spec fn line_views(lines: Seq<Line>) -> Seq<LineView> {
    Seq::new(lines.len(), |i: int| lines[i]@)
}

impl vstd::view::View for View {
    type V = Seq<LineView>;

    open spec fn view(&self) -> Seq<LineView> {
        line_views(self.lines@)
    }
}

/// `be_value` as far as a `u128` holds it: its low bits.
pub open spec fn be_u128(bytes: Seq<u8>) -> int {
    be_value(bytes) as int % (u128::MAX + 1)
}

/// Fewer than sixteen bytes write a number that a `u128` holds.
pub proof fn lemma_be_u128_small(bytes: Seq<u8>)
    requires
        bytes.len() <= 16,
    ensures
        be_value(bytes) < (u128::MAX + 1),
        be_u128(bytes) == be_value(bytes),
{
    lemma_be_value_bound(bytes);
    lemma_radix_pow_grows(bytes.len(), 16);
    assert(radix_pow(16) == (u128::MAX + 1)) by {
        reveal_with_fuel(radix_pow, 17);
    }
    lemma_small_mod(be_value(bytes), (u128::MAX + 1) as nat);
}

/// A greater exponent gives no smaller power.
proof fn lemma_radix_pow_grows(a: nat, b: nat)
    requires
        a <= b,
    ensures
        radix_pow(a) <= radix_pow(b),
        0 < radix_pow(a),
    decreases b,
{
    if a < b {
        lemma_radix_pow_grows(a, (b - 1) as nat);
    } else if a > 0 {
        lemma_radix_pow_grows((a - 1) as nat, (b - 1) as nat);
    }
}

/// Reads `bytes` as a number, most significant byte first. Bytes that a
/// `u128` has no room for fall off at the high end.
pub fn bytes_to_u128(bytes: &[u8]) -> (value: u128)
    ensures
        value == be_u128(bytes@),
        bytes@.len() <= 16 ==> value == be_value(bytes@),
{
    let mut value: u128 = 0;
    let mut i: usize = 0;
    let n = bytes.len();
    proof {
        assert(bytes@.subrange(0, 0) =~= Seq::<u8>::empty());
    }
    while i < n
        invariant
            n == bytes@.len(),
            0 <= i <= n,
            value == be_u128(bytes@.subrange(0, i as int)),
        decreases n - i,
    {
        let byte = bytes[i];
        let ghost before = bytes@.subrange(0, i as int);
        let ghost now = bytes@.subrange(0, i + 1);
        let shifted = value.wrapping_mul(256);
        proof {
            let m = u128::MAX + 1;
            let v = be_value(before) as int;
            assert(now.drop_last() =~= before);
            assert(now.last() == byte);
            assert(be_value(now) == v * 256 + byte);
            lemma_be_step(v, byte, m);
            assert(shifted == (value * 256) % m);
        }
        value = shifted.wrapping_add(byte as u128);
        i = i + 1;
    }
    proof {
        assert(bytes@.subrange(0, n as int) =~= bytes@);
        if bytes@.len() <= 16 {
            lemma_be_u128_small(bytes@);
        }
    }
    value
}

/// The number that the four bytes of a selector write.
pub open spec fn selector_key(data: Seq<u8>) -> u32
    recommends
        data.len() == 4,
{
    be_value(data) as u32
}

/// The comment that explains pushed bytes, if any does.
///
/// A single byte gets none. Four bytes that are a selector with a known
/// signature get the signature. Up to fifteen bytes that begin with 0 or 1
/// are taken for a number and get it in decimal. Three or more printable
/// characters are taken for text and get it in quotes.
pub open spec fn push_comment(data: Seq<u8>, names: Map<u32, Seq<char>>) -> Option<Seq<char>> {
    if data.len() <= 1 {
        None
    } else if data.len() == 4 && names.contains_key(selector_key(data)) {
        Some(names[selector_key(data)])
    } else if (data[0] == 0 || data[0] == 1) && data.len() < 16 {
        Some(decimal(be_value(data)))
    } else if data.len() > 2 && is_printable(data) {
        Some(quoted(data))
    } else {
        None
    }
}

/// Whether every byte is a printable ASCII character.
fn all_printable(data: &[u8]) -> (printable: bool)
    ensures
        printable == is_printable(data@),
{
    let n = data.len();
    let mut i: usize = 0;
    while i < n
        invariant
            n == data@.len(),
            0 <= i <= n,
            forall|j: int| 0 <= j < i ==> 0x20 <= #[trigger] data@[j] <= 0x7e,
        decreases n - i,
    {
        if data[i] < 0x20 || data[i] > 0x7e {
            return false;
        }
        i = i + 1;
    }
    true
}

/// Explains pushed bytes: see [`push_comment`].
pub fn decorate_push_data(data: &[u8], selectors: &HashMap<u32, String>) -> (comment: Option<
    String,
>)
    ensures
        push_comment(data@, signatures(selectors@)) == match comment {
            Some(text) => Some(text@),
            None => None::<Seq<char>>,
        },
{
    if data.len() <= 1 {
        return None;
    }
    if data.len() == 4 {
        proof {
            lemma_be_value_bound(data@);
            assert(radix_pow(4) == 0x1_0000_0000) by {
                reveal_with_fuel(radix_pow, 5);
            }
        }
        let key: u32 = bytes_to_u128(data) as u32;
        match selectors.get(&key) {
            Some(signature) => {
                return Some(signature.clone());
            },
            None => {},
        }
    }
    if (data[0] == 0x00 || data[0] == 0x01) && data.len() < 16 {
        let value = bytes_to_u128(data);
        return Some(decimal_text(value));
    }
    if data.len() > 2 && all_printable(data) {
        return Some(quoted_text(data));
    }
    None
}

/// The label that opens a section of the given kind; a raw section has none.
pub open spec fn section_label(kind: SectionKind) -> Option<Seq<char>> {
    match kind {
        SectionKind::Init => Some(".init"@),
        SectionKind::Runtime => Some(".runtime"@),
        SectionKind::Metadata => Some(".metadata"@),
        SectionKind::Raw => None,
    }
}

/// The label line of a section, or nothing.
pub open spec fn label_lines(section: SectionView) -> Seq<LineView> {
    match section_label(section.kind) {
        Some(name) => seq![
            LineView { offset: section.start_pc, kind: LineKindView::Label(name), comment: None },
        ],
        None => Seq::empty(),
    }
}

/// The line of one instruction of a section that starts at `start_pc`.
pub open spec fn instruction_line(
    start_pc: int,
    instruction: InstructionView,
    decorated: bool,
    names: Map<u32, Seq<char>>,
) -> LineView {
    LineView {
        offset: start_pc + instruction.offset,
        kind: LineKindView::Instruction(instruction),
        comment: if decorated && instruction.data.len() > 0 {
            push_comment(instruction.data, names)
        } else {
            None
        },
    }
}

/// The first `count` instruction lines of a decoded section.
pub open spec fn instruction_lines(
    start_pc: int,
    instructions: Seq<InstructionView>,
    count: int,
    decorated: bool,
    names: Map<u32, Seq<char>>,
) -> Seq<LineView> {
    Seq::new(
        count as nat,
        |i: int| instruction_line(start_pc, instructions[i], decorated, names),
    )
}

/// The lines below a section's label: one for each instruction, or one dump
/// of the raw bytes where the section is not decoded.
pub open spec fn body_lines(section: SectionView, decorated: bool, names: Map<u32, Seq<char>>) -> Seq<
    LineView,
> {
    match section.instructions {
        Some(list) => instruction_lines(
            section.start_pc,
            list,
            list.len() as int,
            decorated,
            names,
        ),
        None => seq![
            LineView { offset: 0, kind: LineKindView::HexDump(section.raw_bytes), comment: None },
        ],
    }
}

/// The lines of the first `k` sections, in order.
pub open spec fn lines_upto(
    sections: Seq<SectionView>,
    k: int,
    decorated: bool,
    names: Map<u32, Seq<char>>,
) -> Seq<LineView>
    decreases k,
{
    if k <= 0 {
        Seq::empty()
    } else {
        lines_upto(sections, k - 1, decorated, names) + label_lines(sections[k - 1]) + body_lines(
            sections[k - 1],
            decorated,
            names,
        )
    }
}

/// The listing of a program.
pub open spec fn listing(program: ProgramView, decorated: bool, names: Map<u32, Seq<char>>) -> Seq<
    LineView,
> {
    lines_upto(program.sections, program.sections.len() as int, decorated, names)
}

/// Every line offset of the program's listing fits a `usize`.
pub open spec fn offsets_fit(program: ProgramView) -> bool {
    forall|s: int, i: int|
        0 <= s < program.sections.len() && program.sections[s].instructions is Some && 0 <= i
            < program.sections[s].instructions->0.len() ==> program.sections[s].start_pc + (
        #[trigger] program.sections[s].instructions->0[i]).offset <= usize::MAX
}

/// A program whose sections all start at 0 has a listing whose offsets fit.
pub proof fn lemma_offsets_fit(program: Program)
    requires
        forall|s: int|
            0 <= s < program.sections@.len() ==> (#[trigger] program.sections@[s]).start_pc == 0,
    ensures
        offsets_fit(program@),
{
    assert forall|s: int, i: int|
        0 <= s < program@.sections.len() && program@.sections[s].instructions is Some && 0 <= i
            < program@.sections[s].instructions->0.len() implies program@.sections[s].start_pc + (
    #[trigger] program@.sections[s].instructions->0[i]).offset <= usize::MAX by {
        let section = program.sections@[s];
        assert(program@.sections[s] == section@);
        let list = section.instructions->0;
        assert(section@.instructions->0[i] == list@[i]@);
    }
}

impl View {
    /// Lists a program: section by section, a label for each section but a
    /// raw one, then a line for each of its instructions, or one line with
    /// its bytes where it has none. With `decorated` set, an instruction
    /// that pushes bytes gets the comment that [`decorate_push_data`] finds
    /// for them.
    pub fn from_program(program: &Program, decorated: bool) -> (view: Self)
        requires
            offsets_fit(program@),
        ensures
            view@ == listing(program@, decorated, Map::empty()),
    {
        let selectors: HashMap<u32, String> = HashMap::new();
        assert(signatures(selectors@) =~= Map::<u32, Seq<char>>::empty());
        Self::from_program_with_selectors(program, decorated, &selectors)
    }

    /// Lists a program as [`View::from_program`] does, with the signatures
    /// of `selectors` at hand for the comments: a push of four bytes that
    /// are a selector of the dictionary is explained by its signature.
    pub fn from_program_with_selectors(
        program: &Program,
        decorated: bool,
        selectors: &HashMap<u32, String>,
    ) -> (view: Self)
        requires
            offsets_fit(program@),
        ensures
            view@ == listing(program@, decorated, signatures(selectors@)),
    {
        let ghost names = signatures(selectors@);
        let ghost all = program@.sections;
        let mut lines: Vec<Line> = Vec::new();
        let count = program.sections.len();
        let mut s: usize = 0;
        assert(line_views(lines@) =~= lines_upto(all, 0, decorated, names));
        while s < count
            invariant
                count == program.sections@.len(),
                0 <= s <= count,
                names == signatures(selectors@),
                all == program@.sections,
                offsets_fit(program@),
                line_views(lines@) == lines_upto(all, s as int, decorated, names),
            decreases count - s,
        {
            let section = &program.sections[s];
            assert(all[s as int] == section@);
            let ghost before = line_views(lines@);
            match section.kind {
                SectionKind::Init => {
                    lines.push(
                        Line {
                            offset: section.start_pc,
                            kind: LineKind::Label(String::from_str(".init")),
                            comment: None,
                        },
                    );
                },
                SectionKind::Runtime => {
                    lines.push(
                        Line {
                            offset: section.start_pc,
                            kind: LineKind::Label(String::from_str(".runtime")),
                            comment: None,
                        },
                    );
                },
                SectionKind::Metadata => {
                    lines.push(
                        Line {
                            offset: section.start_pc,
                            kind: LineKind::Label(String::from_str(".metadata")),
                            comment: None,
                        },
                    );
                },
                SectionKind::Raw => {},
            }
            assert(line_views(lines@) =~= before + label_lines(section@));
            let ghost labelled = line_views(lines@);
            match &section.instructions {
                Some(instructions) => {
                    let n = instructions.len();
                    let ghost list = views(instructions@);
                    let mut i: usize = 0;
                    assert(section@.instructions == Some(list));
                    assert forall|j: int| 0 <= j < n implies section.start_pc + (
                    #[trigger] list[j]).offset <= usize::MAX by {
                        assert(all[s as int].instructions->0[j] == list[j]);
                    }
                    assert(line_views(lines@) =~= labelled + instruction_lines(
                        section.start_pc as int,
                        list,
                        0,
                        decorated,
                        names,
                    ));
                    while i < n
                        invariant
                            n == instructions@.len(),
                            0 <= i <= n,
                            names == signatures(selectors@),
                            list == views(instructions@),
                            forall|j: int|
                                0 <= j < n ==> section.start_pc + (#[trigger] list[j]).offset
                                    <= usize::MAX,
                            line_views(lines@) == labelled + instruction_lines(
                                section.start_pc as int,
                                list,
                                i as int,
                                decorated,
                                names,
                            ),
                        decreases n - i,
                    {
                        let instruction = &instructions[i];
                        assert(list[i as int] == instruction@);
                        let ghost so_far = line_views(lines@);
                        let mut comment: Option<String> = None;
                        if decorated && instruction.data.len() > 0 {
                            comment = decorate_push_data(instruction.data.as_slice(), selectors);
                        }
                        let line = Line {
                            offset: section.start_pc + instruction.offset,
                            kind: LineKind::Instruction(instruction.clone()),
                            comment,
                        };
                        assert(line@ == instruction_line(
                            section.start_pc as int,
                            list[i as int],
                            decorated,
                            names,
                        ));
                        lines.push(line);
                        i = i + 1;
                        assert(line_views(lines@) =~= so_far.push(line@));
                        assert(line_views(lines@) =~= labelled + instruction_lines(
                            section.start_pc as int,
                            list,
                            i as int,
                            decorated,
                            names,
                        ));
                    }
                    assert(line_views(lines@) =~= labelled + body_lines(
                        section@,
                        decorated,
                        names,
                    ));
                },
                None => {
                    let bytes = section.raw_bytes.clone();
                    assert(bytes@ =~= section.raw_bytes@);
                    lines.push(Line { offset: 0, kind: LineKind::HexDump(bytes), comment: None });
                    assert(line_views(lines@) =~= labelled + body_lines(
                        section@,
                        decorated,
                        names,
                    ));
                },
            }
            assert(line_views(lines@) =~= lines_upto(all, s + 1, decorated, names));
            s = s + 1;
        }
        View { lines }
    }
}

/// What a line shows behind its offset.
pub open spec fn line_content(kind: LineKindView) -> Seq<char> {
    match kind {
        LineKindView::Instruction(instruction) => instruction_text(instruction),
        LineKindView::HexDump(bytes) => hex_lower(bytes),
        LineKindView::Label(name) => Seq::empty(),
        LineKindView::Blank => Seq::empty(),
    }
}

/// The text of a line. A label is its name and a colon. Every other line is
/// its offset in hexadecimal of at least four digits, a colon and a space,
/// what it shows in a column of twenty characters, and its comment behind
/// a semicolon where it has one.
pub open spec fn line_text(line: LineView) -> Seq<char> {
    match line.kind {
        LineKindView::Label(name) => name + ":"@,
        _ => zero_padded(hex_number(line.offset as nat), 4) + ": "@ + space_padded(
            line_content(line.kind),
            20,
        ) + match line.comment {
            Some(comment) => "; "@ + comment,
            None => Seq::empty(),
        },
    }
}

/// The text of the first `k` lines, each closed by a line feed.
pub open spec fn text_upto(lines: Seq<LineView>, k: int) -> Seq<char>
    decreases k,
{
    if k <= 0 {
        Seq::empty()
    } else {
        text_upto(lines, k - 1) + line_text(lines[k - 1]) + "\n"@
    }
}

impl Line {
    /// Writes the line out: see [`line_text`].
    pub fn to_text(&self) -> (text: String)
        ensures
            text@ == line_text(self@),
    {
        let content = match &self.kind {
            LineKind::Label(name) => {
                return name.clone().concat(":");
            },
            LineKind::Instruction(instruction) => instruction.to_text(),
            LineKind::HexDump(bytes) => hex_encode(bytes.as_slice()),
            LineKind::Blank => String::new(),
        };
        let text = offset_text(self.offset).concat(": ").concat(pad_right(content, 20).as_str());
        match &self.comment {
            Some(comment) => text.concat("; ").concat(comment.as_str()),
            None => {
                assert(text@ + Seq::<char>::empty() =~= text@);
                text
            },
        }
    }
}

impl View {
    /// Writes the listing out: every line in order, each closed by a line
    /// feed.
    pub fn to_text(&self) -> (text: String)
        ensures
            text@ == text_upto(self@, self.lines@.len() as int),
    {
        let mut text = String::new();
        let n = self.lines.len();
        let mut i: usize = 0;
        while i < n
            invariant
                n == self.lines@.len(),
                0 <= i <= n,
                text@ == text_upto(self@, i as int),
            decreases n - i,
        {
            assert(self@[i as int] == self.lines@[i as int]@);
            let line = self.lines[i].to_text();
            text.append(line.as_str());
            text.append("\n");
            i = i + 1;
        }
        text
    }
}

} // verus!
