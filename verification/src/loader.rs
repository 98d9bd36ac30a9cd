//! Splits a deployment blob into constructor code, runtime code and compiler
//! metadata, and decodes and analyses what it finds.

use crate::analysis::{
    entrypoint_views, entrypoints, Analysis, FunctionEntrypoint, FunctionEntrypointView,
};
use crate::parser::{decode, parse_bytecode, strip, views, Instruction, InstructionView};
use vstd::prelude::*;
use vstd::slice::{slice_subrange, slice_to_vec};

verus! {

/// What a section holds.
#[derive(Clone, Copy, PartialEq, Eq, Debug)]
pub enum SectionKind {
    Init,
    Runtime,
    Metadata,
    Raw,
}

/// A stretch of the input: its bytes, and its instructions where it is code.
#[derive(Debug)]
pub struct Section {
    pub kind: SectionKind,
    pub raw_bytes: Vec<u8>,
    pub instructions: Option<Vec<Instruction>>,
    pub start_pc: usize,
}

/// The mathematical value of a [`Section`].
pub ghost struct SectionView {
    pub kind: SectionKind,
    pub raw_bytes: Seq<u8>,
    pub instructions: Option<Seq<InstructionView>>,
    pub start_pc: int,
}

impl View for Section {
    type V = SectionView;

    open spec fn view(&self) -> SectionView {
        SectionView {
            kind: self.kind,
            raw_bytes: self.raw_bytes@,
            instructions: match self.instructions {
                Some(list) => Some(views(list@)),
                None => None,
            },
            start_pc: self.start_pc as int,
        }
    }
}

impl Clone for Section {
    fn clone(&self) -> (copy: Self)
        ensures
            copy@ == self@,
    {
        let raw_bytes = self.raw_bytes.clone();
        assert(raw_bytes@ =~= self.raw_bytes@);
        let instructions = match &self.instructions {
            Some(list) => {
                let mut copies: Vec<Instruction> = Vec::new();
                let mut i: usize = 0;
                while i < list.len()
                    invariant
                        0 <= i <= list@.len(),
                        views(copies@) == views(list@).subrange(0, i as int),
                    decreases list@.len() - i,
                {
                    let ghost before = views(copies@);
                    let copy = list[i].clone();
                    assert(copy@ == views(list@)[i as int]);
                    copies.push(copy);
                    i = i + 1;
                    assert(views(copies@) =~= before.push(views(list@)[i - 1]));
                }
                assert(views(copies@) =~= views(list@));
                Some(copies)
            },
            None => None,
        };
        Section { kind: self.kind, raw_bytes, instructions, start_pc: self.start_pc }
    }
}

/// The values of a sequence of sections, item by item.
pub open spec fn section_views(sections: Seq<Section>) -> Seq<SectionView> {
    Seq::new(sections.len(), |i: int| sections[i]@)
}

/// The sections of an input, in their order, and the entry points of its
/// runtime code.
#[derive(Debug)]
pub struct Program {
    pub sections: Vec<Section>,
    pub entrypoints: Vec<FunctionEntrypoint>,
}

/// The mathematical value of a [`Program`].
pub ghost struct ProgramView {
    pub sections: Seq<SectionView>,
    pub entrypoints: Seq<FunctionEntrypointView>,
}

impl View for Program {
    type V = ProgramView;

    open spec fn view(&self) -> ProgramView {
        ProgramView {
            sections: section_views(self.sections@),
            entrypoints: entrypoint_views(self.entrypoints@),
        }
    }
}

/// The length that the last two bytes of `bytes` announce, most significant
/// byte first.
pub open spec fn announced_len(bytes: Seq<u8>) -> int
    recommends
        bytes.len() >= 2,
{
    bytes[bytes.len() - 2] as int * 256 + bytes[bytes.len() - 1] as int
}

/// The two bytes at `pos` open a block of compiler metadata: `0xa2`, then one
/// of `0x64`, `0x65`, `0x66`.
pub open spec fn metadata_tag_at(bytes: Seq<u8>, pos: int) -> bool {
    &&& 0 <= pos
    &&& pos + 1 < bytes.len()
    &&& bytes[pos] == 0xa2
    &&& 0x64 <= bytes[pos + 1] <= 0x66
}

/// Where the metadata begins: as far before the two length bytes as those
/// announce, if the tag stands there; else the end of the buffer.
pub open spec fn metadata_boundary(bytes: Seq<u8>) -> int {
    if bytes.len() < 2 {
        bytes.len() as int
    } else {
        let candidate = bytes.len() - announced_len(bytes) - 2;
        if metadata_tag_at(bytes, candidate) {
            candidate
        } else {
            bytes.len() as int
        }
    }
}

/// `RETURN` and then `INVALID` stand at `pos`.
pub open spec fn delimiter_at(bytes: Seq<u8>, pos: int) -> bool {
    &&& 0 <= pos
    &&& pos + 1 < bytes.len()
    &&& bytes[pos] == 0xf3
    &&& bytes[pos + 1] == 0xfe
}

/// The least position from `from` on at which the delimiter stands, or the
/// length of the buffer where it stands nowhere.
pub open spec fn first_delimiter(bytes: Seq<u8>, from: int) -> int
    decreases bytes.len() - from,
{
    if from < 0 || from >= bytes.len() {
        bytes.len() as int
    } else if delimiter_at(bytes, from) {
        from
    } else {
        first_delimiter(bytes, from + 1)
    }
}

/// Where the runtime code begins: behind the first delimiter, or at 0 where
/// there is none.
pub open spec fn runtime_start(bytes: Seq<u8>) -> int {
    let at = first_delimiter(bytes, 0);
    if at < bytes.len() {
        at + 2
    } else {
        0
    }
}

/// What `first_delimiter` finds is a delimiter, and none stands before it.
pub proof fn lemma_first_delimiter(bytes: Seq<u8>, from: int)
    requires
        0 <= from <= bytes.len(),
    ensures
        from <= first_delimiter(bytes, from) <= bytes.len(),
        first_delimiter(bytes, from) < bytes.len() ==> delimiter_at(
            bytes,
            first_delimiter(bytes, from),
        ),
        forall|j: int| from <= j < first_delimiter(bytes, from) ==> !delimiter_at(bytes, j),
    decreases bytes.len() - from,
{
    if from < bytes.len() && !delimiter_at(bytes, from) {
        lemma_first_delimiter(bytes, from + 1);
    }
}

/// A buffer that ends in a block of metadata and the block's length splits
/// where the block begins: `L + 2` bytes before its end, for a block of `L`
/// bytes that opens with the tag.
pub proof fn lemma_metadata_boundary(code: Seq<u8>, block: Seq<u8>, bytes: Seq<u8>)
    requires
        2 <= block.len() < 0x1_0000,
        block[0] == 0xa2,
        0x64 <= block[1] <= 0x66,
        bytes == code + block + seq![(block.len() / 256) as u8, (block.len() % 256) as u8],
    ensures
        metadata_boundary(bytes) == code.len(),
        metadata_boundary(bytes) == bytes.len() - block.len() - 2,
        bytes.subrange(0, metadata_boundary(bytes)) == code,
{
    let n = bytes.len() as int;
    assert(bytes[n - 2] == (block.len() / 256) as u8);
    assert(bytes[n - 1] == (block.len() % 256) as u8);
    assert(announced_len(bytes) == block.len());
    assert(bytes[code.len() as int] == block[0]);
    assert(bytes[code.len() as int + 1] == block[1]);
    assert(bytes.subrange(0, code.len() as int) =~= code);
}

/// A decoded section of the given kind over `bytes`.
pub open spec fn code_section(kind: SectionKind, bytes: Seq<u8>) -> SectionView {
    SectionView { kind, raw_bytes: bytes, instructions: Some(decode(strip(bytes))), start_pc: 0 }
}

/// The metadata section over `bytes`: the bytes alone.
pub open spec fn metadata_section(bytes: Seq<u8>) -> SectionView {
    SectionView { kind: SectionKind::Metadata, raw_bytes: bytes, instructions: None, start_pc: 0 }
}

/// Where the runtime code of `bytes` begins and where it ends.
pub open spec fn runtime_range(bytes: Seq<u8>, runtime: bool) -> (int, int) {
    let boundary = metadata_boundary(bytes);
    let start = if runtime {
        0
    } else {
        runtime_start(bytes.subrange(0, boundary))
    };
    (start, boundary)
}

/// The sections of `bytes`: constructor code where the runtime code does not
/// start at 0, runtime code where there is any, metadata where a boundary was
/// found; in raw mode the one section that holds everything.
pub open spec fn sections_of(bytes: Seq<u8>, raw: bool, runtime: bool) -> Seq<SectionView> {
    if raw {
        seq![code_section(SectionKind::Raw, bytes)]
    } else {
        let (start, boundary) = runtime_range(bytes, runtime);
        let init = if start > 0 {
            seq![code_section(SectionKind::Init, bytes.subrange(0, start))]
        } else {
            Seq::empty()
        };
        let run = if start < boundary {
            seq![code_section(SectionKind::Runtime, bytes.subrange(start, boundary))]
        } else {
            Seq::empty()
        };
        let meta = if boundary < bytes.len() {
            seq![metadata_section(bytes.subrange(boundary, bytes.len() as int))]
        } else {
            Seq::empty()
        };
        init + run + meta
    }
}

/// The entry points of `bytes`: those of its runtime code, and none in raw
/// mode or where there is no runtime code.
pub open spec fn entrypoints_of(bytes: Seq<u8>, raw: bool, runtime: bool) -> Seq<
    FunctionEntrypointView,
> {
    let (start, boundary) = runtime_range(bytes, runtime);
    if !raw && start < boundary {
        entrypoints(decode(strip(bytes.subrange(start, boundary))))
    } else {
        Seq::empty()
    }
}

/// The raw bytes of the sections, one after the other.
pub open spec fn joined_bytes(sections: Seq<SectionView>) -> Seq<u8>
    decreases sections.len(),
{
    if sections.len() == 0 {
        Seq::empty()
    } else {
        joined_bytes(sections.drop_last()) + sections.last().raw_bytes
    }
}

/// The raw bytes of no section, of one, and of one more.
proof fn lemma_joined_bytes(head: Seq<SectionView>, section: SectionView)
    ensures
        joined_bytes(Seq::<SectionView>::empty()) == Seq::<u8>::empty(),
        joined_bytes(seq![section]) == section.raw_bytes,
        joined_bytes(head + seq![section]) == joined_bytes(head) + section.raw_bytes,
        joined_bytes(head + Seq::<SectionView>::empty()) == joined_bytes(head),
{
    assert((head + seq![section]).drop_last() =~= head);
    assert(seq![section].drop_last() =~= Seq::<SectionView>::empty());
    assert(Seq::<u8>::empty() + section.raw_bytes =~= section.raw_bytes);
    assert(head + Seq::<SectionView>::empty() =~= head);
}

/// The split keeps every byte: the raw bytes of the sections, one after the
/// other, are the input. There are at most three sections.
pub proof fn lemma_sections_cover(bytes: Seq<u8>, raw: bool, runtime: bool)
    ensures
        0 <= runtime_range(bytes, runtime).0 <= runtime_range(bytes, runtime).1 <= bytes.len(),
        sections_of(bytes, raw, runtime).len() <= 3,
        joined_bytes(sections_of(bytes, raw, runtime)) == bytes,
{
    let (start, boundary) = runtime_range(bytes, runtime);
    lemma_first_delimiter(bytes.subrange(0, metadata_boundary(bytes)), 0);
    let none = Seq::<SectionView>::empty();
    if raw {
        lemma_joined_bytes(none, code_section(SectionKind::Raw, bytes));
    } else {
        let a = bytes.subrange(0, start);
        let b = bytes.subrange(start, boundary);
        let c = bytes.subrange(boundary, bytes.len() as int);
        let init = if start > 0 {
            seq![code_section(SectionKind::Init, a)]
        } else {
            none
        };
        let run = if start < boundary {
            seq![code_section(SectionKind::Runtime, b)]
        } else {
            none
        };
        let meta = if boundary < bytes.len() {
            seq![metadata_section(c)]
        } else {
            none
        };
        assert(sections_of(bytes, raw, runtime) == init + run + meta);
        lemma_joined_bytes(none, code_section(SectionKind::Init, a));
        lemma_joined_bytes(init, code_section(SectionKind::Runtime, b));
        lemma_joined_bytes(init + run, metadata_section(c));
        assert(joined_bytes(init) =~= bytes.subrange(0, start));
        assert(joined_bytes(init + run) =~= bytes.subrange(0, boundary));
        assert(joined_bytes(init + run + meta) =~= bytes);
    }
}

/// Decodes `bytes` into a section of the given kind.
fn decoded_section(kind: SectionKind, bytes: &[u8]) -> (section: Section)
    ensures
        section@ == code_section(kind, bytes@),
        section.instructions is Some,
{
    Section {
        kind,
        instructions: Some(parse_bytecode(bytes)),
        raw_bytes: slice_to_vec(bytes),
        start_pc: 0,
    }
}

impl Program {
    /// Splits `bytes` into sections and decodes them.
    ///
    /// With `raw` set, the whole input becomes one `Raw` section and nothing
    /// is looked for. Otherwise the metadata is split off where
    /// [`Program::detect_metadata_split`] finds it. Of the code before it, the
    /// runtime code begins at 0 with `runtime` set, else where
    /// [`Program::detect_runtime_split`] says. What lies before the runtime
    /// code is the `Init` section, left out where empty; then comes the
    /// `Runtime` section, left out where empty, whose entry points become the
    /// program's; then the `Metadata` section, not decoded, where metadata
    /// was found.
    pub fn load(bytes: &[u8], raw: bool, runtime: bool) -> (program: Program)
        ensures
            program@.sections == sections_of(bytes@, raw, runtime),
            program@.entrypoints == entrypoints_of(bytes@, raw, runtime),
            raw ==> program.sections@.len() == 1 && program.sections@[0].kind == SectionKind::Raw
                && program.sections@[0].raw_bytes@ == bytes@ && program.entrypoints@.len() == 0,
            forall|s: int|
                0 <= s < program.sections@.len() ==> (#[trigger] program.sections@[s]).start_pc
                    == 0,
    {
        if raw {
            let section = decoded_section(SectionKind::Raw, bytes);
            let mut sections: Vec<Section> = Vec::new();
            sections.push(section);
            assert(section_views(sections@) =~= sections_of(bytes@, raw, runtime));
            let entrypoints: Vec<FunctionEntrypoint> = Vec::new();
            assert(entrypoint_views(entrypoints@) =~= entrypoints_of(bytes@, raw, runtime));
            return Program { sections, entrypoints };
        }
        let mut sections: Vec<Section> = Vec::new();
        let boundary = Self::detect_metadata_split(bytes);
        let code_bytes = slice_subrange(bytes, 0, boundary);
        let start = if runtime {
            0
        } else {
            Self::detect_runtime_split(code_bytes)
        };
        assert(section_views(sections@) =~= Seq::<SectionView>::empty());
        if start > 0 {
            let init_bytes = slice_subrange(code_bytes, 0, start);
            assert(init_bytes@ =~= bytes@.subrange(0, start as int));
            let section = decoded_section(SectionKind::Init, init_bytes);
            sections.push(section);
            assert(section_views(sections@) =~= seq![
                code_section(SectionKind::Init, bytes@.subrange(0, start as int)),
            ]);
        }
        let ghost init = section_views(sections@);
        let mut entrypoints: Vec<FunctionEntrypoint> = Vec::new();
        let runtime_bytes = slice_subrange(code_bytes, start, boundary);
        assert(runtime_bytes@ =~= bytes@.subrange(start as int, boundary as int));
        if runtime_bytes.len() > 0 {
            let section = decoded_section(SectionKind::Runtime, runtime_bytes);
            match &section.instructions {
                Some(instructions) => {
                    let analysis = Analysis::from_instructions(instructions.as_slice());
                    entrypoints = analysis.function_entrypoints;
                },
                None => {},
            }
            sections.push(section);
            assert(section_views(sections@) =~= init + seq![
                code_section(
                    SectionKind::Runtime,
                    bytes@.subrange(start as int, boundary as int),
                ),
            ]);
        } else {
            assert(entrypoint_views(entrypoints@) =~= Seq::<FunctionEntrypointView>::empty());
            assert(section_views(sections@) =~= init + Seq::<SectionView>::empty());
        }
        let ghost code = section_views(sections@);
        if boundary < bytes.len() {
            let section = Section {
                kind: SectionKind::Metadata,
                instructions: None,
                raw_bytes: slice_to_vec(slice_subrange(bytes, boundary, bytes.len())),
                start_pc: 0,
            };
            sections.push(section);
            assert(section_views(sections@) =~= code + seq![
                metadata_section(bytes@.subrange(boundary as int, bytes@.len() as int)),
            ]);
        } else {
            assert(section_views(sections@) =~= code + Seq::<SectionView>::empty());
        }
        Program { sections, entrypoints }
    }

    /// Finds where the runtime code begins: two bytes behind the first place
    /// where `RETURN` is followed at once by `INVALID`, or at 0 where there is
    /// no such place.
    pub fn detect_runtime_split(bytes: &[u8]) -> (start: usize)
        ensures
            start == runtime_start(bytes@),
            start <= bytes@.len(),
            start != 0 ==> 2 <= start && delimiter_at(bytes@, start - 2),
            forall|j: int|
                0 <= j && (start == 0 || j < start - 2) ==> !delimiter_at(bytes@, j),
    {
        let n = bytes.len();
        if n < 2 {
            proof {
                lemma_first_delimiter(bytes@, 0);
            }
            return 0;
        }
        let mut i: usize = 0;
        while i < n - 1
            invariant
                2 <= n == bytes@.len(),
                0 <= i <= n - 1,
                first_delimiter(bytes@, 0) == first_delimiter(bytes@, i as int),
            decreases n - i,
        {
            if bytes[i] == 0xf3 && bytes[i + 1] == 0xfe {
                proof {
                    lemma_first_delimiter(bytes@, 0);
                }
                return i + 2;
            }
            i = i + 1;
        }
        proof {
            lemma_first_delimiter(bytes@, 0);
            assert(first_delimiter(bytes@, n as int) == n);
        }
        0
    }

    /// Finds where the compiler metadata begins. The last two bytes are read
    /// as the length of the metadata before them; where the tag stands that
    /// far back, the metadata begins there. Else, and in a buffer of fewer
    /// than two bytes, there is none, and the result is the buffer's length.
    pub fn detect_metadata_split(bytes: &[u8]) -> (boundary: usize)
        ensures
            boundary == metadata_boundary(bytes@),
            boundary <= bytes@.len(),
            boundary < bytes@.len() ==> boundary == bytes@.len() - announced_len(bytes@) - 2
                && metadata_tag_at(bytes@, boundary as int),
    {
        let n = bytes.len();
        if n < 2 {
            return n;
        }
        let announced: usize = (bytes[n - 2] as usize) * 256 + (bytes[n - 1] as usize);
        if announced > n - 2 {
            return n;
        }
        let candidate = n - 2 - announced;
        let first = bytes[candidate];
        let second = bytes[candidate + 1];
        if first == 0xa2 && second >= 0x64 && second <= 0x66 {
            return candidate;
        }
        n
    }
}

} // verus!
