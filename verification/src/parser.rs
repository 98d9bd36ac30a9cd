//! Turns a byte buffer into the sequence of instructions it encodes.

use crate::opcodes::{mnemonic, mnemonic_of, PUSH1, PUSH32};
use crate::text::{decimal, decimal_text, hex_encode, hex_lower};
use vstd::prelude::*;
use vstd::string::StringExecFns;

verus! {

/// One decoded instruction: where it starts, its opcode byte, and the bytes a
/// push opcode carries behind it.
#[derive(PartialEq, Eq, Debug)]
pub struct Instruction {
    pub offset: usize,
    pub opcode: u8,
    pub data: Vec<u8>,
}

/// The mathematical value of an [`Instruction`].
pub ghost struct InstructionView {
    pub offset: int,
    pub opcode: u8,
    pub data: Seq<u8>,
}

impl View for Instruction {
    type V = InstructionView;

    open spec fn view(&self) -> InstructionView {
        InstructionView { offset: self.offset as int, opcode: self.opcode, data: self.data@ }
    }
}

impl Clone for Instruction {
    fn clone(&self) -> (copy: Self)
        ensures
            copy@ == self@,
    {
        let data = self.data.clone();
        assert(data@ =~= self.data@);
        Instruction { offset: self.offset, opcode: self.opcode, data }
    }
}

/// An instruction as a listing shows it: the name of the opcode, and behind
/// it the bytes pushed, in hexadecimal, where there are any.
pub open spec fn instruction_text(instruction: InstructionView) -> Seq<char> {
    if instruction.data.len() > 0 {
        mnemonic_of(instruction.opcode) + " 0x"@ + hex_lower(instruction.data)
    } else {
        mnemonic_of(instruction.opcode)
    }
}

/// An instruction field by field: the offset in decimal, the opcode and the
/// bytes pushed in hexadecimal.
pub open spec fn instruction_description(instruction: InstructionView) -> Seq<char> {
    "Instruction { offset: "@ + decimal(instruction.offset as nat) + ", opcode: 0x"@ + hex_lower(
        seq![instruction.opcode],
    ) + ", data: 0x"@ + hex_lower(instruction.data) + " }"@
}

impl Instruction {
    /// The text of the instruction in a listing.
    pub fn to_text(&self) -> (text: String)
        ensures
            text@ == instruction_text(self@),
    {
        let name = mnemonic(self.opcode);
        if self.data.len() > 0 {
            name.concat(" 0x").concat(hex_encode(self.data.as_slice()).as_str())
        } else {
            name
        }
    }

    /// The text that names every field of the instruction.
    pub fn describe(&self) -> (text: String)
        ensures
            text@ == instruction_description(self@),
    {
        let opcode = [self.opcode];
        assert(opcode@ =~= seq![self.opcode]);
        String::from_str("Instruction { offset: ").concat(
            decimal_text(self.offset as u128).as_str(),
        ).concat(", opcode: 0x").concat(hex_encode(&opcode).as_str()).concat(", data: 0x").concat(
            hex_encode(self.data.as_slice()).as_str(),
        ).concat(" }")
    }
}

/// The values of a sequence of instructions, item by item.
pub open spec fn views(instructions: Seq<Instruction>) -> Seq<InstructionView> {
    Seq::new(instructions.len(), |i: int| instructions[i]@)
}

/// An opcode that carries literal bytes: one of the 32 push opcodes.
pub open spec fn is_push(opcode: u8) -> bool {
    PUSH1 <= opcode <= PUSH32
}

/// The number of operand bytes that `opcode` announces.
pub open spec fn declared_size(opcode: u8) -> int {
    if is_push(opcode) {
        opcode - 0x5f
    } else {
        0
    }
}

impl InstructionView {
    /// Only a push carries bytes, and no more than its opcode announces.
    pub open spec fn well_formed(self) -> bool {
        self.data.len() <= declared_size(self.opcode)
    }
}

impl Instruction {
    /// Only a push carries bytes, and no more than its opcode announces.
    pub open spec fn well_formed(&self) -> bool {
        self@.well_formed()
    }
}

/// The number of operand bytes that the instruction at `pos` really has: what
/// its opcode announces, or what is left of the buffer where that is less.
pub open spec fn operand_len(bytes: Seq<u8>, pos: int) -> int
    recommends
        0 <= pos < bytes.len(),
{
    let declared = declared_size(bytes[pos]);
    let left = bytes.len() - pos - 1;
    if declared <= left {
        declared
    } else {
        left
    }
}

/// The instruction that starts at `pos`.
pub open spec fn instruction_at(bytes: Seq<u8>, pos: int) -> InstructionView
    recommends
        0 <= pos < bytes.len(),
{
    InstructionView {
        offset: pos,
        opcode: bytes[pos],
        data: bytes.subrange(pos + 1, pos + 1 + operand_len(bytes, pos)),
    }
}

/// The instructions of `bytes` from `pos` to the end of the buffer.
pub open spec fn decode_from(bytes: Seq<u8>, pos: int) -> Seq<InstructionView>
    decreases bytes.len() - pos,
{
    if 0 <= pos < bytes.len() {
        seq![instruction_at(bytes, pos)] + decode_from(
            bytes,
            pos + 1 + operand_len(bytes, pos),
        )
    } else {
        Seq::empty()
    }
}

/// The instructions of the whole buffer, with nothing cut off.
pub open spec fn decode(bytes: Seq<u8>) -> Seq<InstructionView> {
    decode_from(bytes, 0)
}

/// The seven bytes with which the Solidity compiler opens the hash field of the
/// metadata that it appends to a contract.
pub open spec fn marker() -> Seq<u8> {
    seq![0xa1u8, 0x64u8, 0x73u8, 0x6fu8, 0x6cu8, 0x63u8, 0x43u8]
}

/// The marker stands in `bytes` at `pos`.
pub open spec fn marker_at(bytes: Seq<u8>, pos: int) -> bool {
    &&& 0 <= pos
    &&& pos + 7 <= bytes.len()
    &&& bytes.subrange(pos, pos + 7) == marker()
}

/// The greatest position below `upto` at which the marker stands, or -1.
pub open spec fn last_marker(bytes: Seq<u8>, upto: int) -> int
    decreases upto,
{
    if upto <= 0 {
        -1
    } else if marker_at(bytes, upto - 1) {
        upto - 1
    } else {
        last_marker(bytes, upto - 1)
    }
}

/// The length of the code in `bytes`: the position of the last marker, or the
/// whole length where there is none.
pub open spec fn code_len(bytes: Seq<u8>) -> int {
    let p = last_marker(bytes, bytes.len() as int);
    if p >= 0 {
        p
    } else {
        bytes.len() as int
    }
}

/// `bytes` without its compiler metadata: cut at the last marker.
pub open spec fn strip(bytes: Seq<u8>) -> Seq<u8> {
    bytes.subrange(0, code_len(bytes))
}

/// What `last_marker` finds is a marker, and no marker stands between it and
/// `upto`.
pub proof fn lemma_last_marker(bytes: Seq<u8>, upto: int)
    ensures
        -1 <= last_marker(bytes, upto),
        last_marker(bytes, upto) < upto || upto <= 0,
        last_marker(bytes, upto) >= 0 ==> marker_at(bytes, last_marker(bytes, upto)),
        forall|j: int| last_marker(bytes, upto) < j < upto ==> !marker_at(bytes, j),
    decreases upto,
{
    if upto > 0 && !marker_at(bytes, upto - 1) {
        lemma_last_marker(bytes, upto - 1);
    }
}

/// The marker, compared byte by byte.
proof fn lemma_marker_bytes(bytes: Seq<u8>, pos: int)
    requires
        0 <= pos,
        pos + 7 <= bytes.len(),
    ensures
        marker_at(bytes, pos) <==> {
            &&& bytes[pos] == 0xa1
            &&& bytes[pos + 1] == 0x64
            &&& bytes[pos + 2] == 0x73
            &&& bytes[pos + 3] == 0x6f
            &&& bytes[pos + 4] == 0x6c
            &&& bytes[pos + 5] == 0x63
            &&& bytes[pos + 6] == 0x43
        },
{
    let w = bytes.subrange(pos, pos + 7);
    if marker_at(bytes, pos) {
        assert(w[0] == 0xa1 && w[1] == 0x64 && w[2] == 0x73 && w[3] == 0x6f);
        assert(w[4] == 0x6c && w[5] == 0x63 && w[6] == 0x43);
    }
    if bytes[pos] == 0xa1 && bytes[pos + 1] == 0x64 && bytes[pos + 2] == 0x73 && bytes[pos + 3]
        == 0x6f && bytes[pos + 4] == 0x6c && bytes[pos + 5] == 0x63 && bytes[pos + 6] == 0x43 {
        assert(w =~= marker());
    }
}

/// Cuts the compiler metadata off: the result ends where the last marker
/// begins, and is the whole buffer where no marker stands in it.
pub fn strip_solc_metadata(bytecode: &[u8]) -> (code: &[u8])
    ensures
        code@ == strip(bytecode@),
        code@.len() <= bytecode@.len(),
        code@.len() < bytecode@.len() ==> marker_at(bytecode@, code@.len() as int),
        forall|j: int| code@.len() < j ==> !marker_at(bytecode@, j),
        code@.len() == bytecode@.len() ==> forall|j: int| !marker_at(bytecode@, j),
{
    let n = bytecode.len();
    proof {
        lemma_last_marker(bytecode@, n as int);
    }
    if n < 7 {
        proof {
            assert(last_marker(bytecode@, n as int) < 0) by {
                if last_marker(bytecode@, n as int) >= 0 {
                    assert(marker_at(bytecode@, last_marker(bytecode@, n as int)));
                }
            }
            assert(bytecode@.subrange(0, n as int) =~= bytecode@);
        }
        return bytecode;
    }
    let mut i: usize = n - 6;
    while i > 0
        invariant
            7 <= n == bytecode@.len(),
            0 <= i <= n - 6,
            forall|j: int| i <= j ==> !marker_at(bytecode@, j),
        decreases i,
    {
        i = i - 1;
        proof {
            lemma_marker_bytes(bytecode@, i as int);
        }
        if bytecode[i] == 0xa1 && bytecode[i + 1] == 0x64 && bytecode[i + 2] == 0x73 && bytecode[i
            + 3] == 0x6f && bytecode[i + 4] == 0x6c && bytecode[i + 5] == 0x63 && bytecode[i + 6]
            == 0x43 {
            proof {
                lemma_cut_is_last(bytecode@, i as int);
            }
            return vstd::slice::slice_subrange(bytecode, 0, i);
        }
    }
    proof {
        assert(last_marker(bytecode@, n as int) < 0) by {
            if last_marker(bytecode@, n as int) >= 0 {
                assert(marker_at(bytecode@, last_marker(bytecode@, n as int)));
            }
        }
        assert(bytecode@.subrange(0, n as int) =~= bytecode@);
    }
    bytecode
}

/// A marker with none behind it is the one that `last_marker` finds.
proof fn lemma_cut_is_last(bytes: Seq<u8>, cut: int)
    requires
        marker_at(bytes, cut),
        forall|j: int| cut < j ==> !marker_at(bytes, j),
    ensures
        last_marker(bytes, bytes.len() as int) == cut,
        code_len(bytes) == cut,
{
    lemma_last_marker(bytes, bytes.len() as int);
    let p = last_marker(bytes, bytes.len() as int);
    if p < cut {
        assert(!marker_at(bytes, cut));
    }
    if p > cut {
        assert(marker_at(bytes, p));
    }
}

/// The instructions lie end to end over a buffer of `len` bytes: the first
/// starts at 0, each next one where the one before it ends, and the last ends
/// with the buffer.
pub open spec fn tiles(instructions: Seq<InstructionView>, len: int) -> bool {
    &&& instructions.len() == 0 <==> len == 0
    &&& instructions.len() > 0 ==> instructions[0].offset == 0
    &&& forall|k: int|
        0 <= k < instructions.len() - 1 ==> #[trigger] instructions[k + 1].offset
            == instructions[k].offset + 1 + instructions[k].data.len()
    &&& instructions.len() > 0 ==> instructions.last().offset + 1 + instructions.last().data.len()
        == len
}

/// The shape of what `decode_from` yields: every item is the instruction that
/// the buffer holds at the item's offset, the offsets grow strictly from
/// `pos`, and the items lie end to end up to the end of the buffer.
pub proof fn lemma_decode_from(bytes: Seq<u8>, pos: int)
    requires
        0 <= pos <= bytes.len(),
    ensures
        decode_from(bytes, pos).len() == 0 <==> pos == bytes.len(),
        decode_from(bytes, pos).len() <= bytes.len() - pos,
        decode_from(bytes, pos).len() > 0 ==> decode_from(bytes, pos)[0].offset == pos,
        forall|k: int|
            0 <= k < decode_from(bytes, pos).len() ==> {
                let item = #[trigger] decode_from(bytes, pos)[k];
                &&& pos <= item.offset < bytes.len()
                &&& item == instruction_at(bytes, item.offset)
            },
        forall|k: int|
            0 <= k < decode_from(bytes, pos).len() - 1 ==> #[trigger] decode_from(bytes, pos)[k
                + 1].offset == decode_from(bytes, pos)[k].offset + 1 + decode_from(
                bytes,
                pos,
            )[k].data.len(),
        forall|i: int, j: int|
            0 <= i < j < decode_from(bytes, pos).len() ==> decode_from(bytes, pos)[i].offset
                < decode_from(bytes, pos)[j].offset,
        decode_from(bytes, pos).len() > 0 ==> decode_from(bytes, pos).last().offset + 1
            + decode_from(bytes, pos).last().data.len() == bytes.len(),
    decreases bytes.len() - pos,
{
    if pos < bytes.len() {
        let head = instruction_at(bytes, pos);
        let next = pos + 1 + operand_len(bytes, pos);
        let rest = decode_from(bytes, next);
        let all = decode_from(bytes, pos);
        lemma_decode_from(bytes, next);
        assert(all == seq![head] + rest);
        assert(all[0] == head);
        assert(head.data.len() == operand_len(bytes, pos));
        assert forall|k: int| 1 <= k < all.len() implies all[k] == rest[k - 1] by {}
        assert forall|k: int| 0 <= k < all.len() - 1 implies #[trigger] all[k + 1].offset
            == all[k].offset + 1 + all[k].data.len() by {
            if k >= 1 {
                assert(all[k + 1] == rest[k]);
                assert(all[k] == rest[k - 1]);
                assert(rest[(k - 1) + 1].offset == rest[k - 1].offset + 1 + rest[k
                    - 1].data.len());
            } else {
                assert(all[1] == rest[0]);
            }
        }
        assert forall|i: int, j: int| 0 <= i < j < all.len() implies all[i].offset
            < all[j].offset by {
            assert(all[j] == rest[j - 1]);
            if i >= 1 {
                assert(all[i] == rest[i - 1]);
            }
        }
        if rest.len() > 0 {
            assert(all.last() == rest.last());
        }
    }
}

/// Decodes a buffer. The compiler metadata is cut off first; what is left is
/// read from its first byte to its last, one opcode byte at a time, each push
/// opcode taking as many of the following bytes as it announces, or as many as
/// are left. Every byte value is an opcode, so every buffer decodes.
pub fn parse_bytecode(bytes: &[u8]) -> (instructions: Vec<Instruction>)
    ensures
        views(instructions@) == decode(strip(bytes@)),
        tiles(views(instructions@), strip(bytes@).len() as int),
        forall|i: int, j: int|
            0 <= i < j < instructions@.len() ==> instructions@[i].offset
                < instructions@[j].offset,
        instructions@.len() > 0 ==> instructions@.last().offset + 1
            + instructions@.last().data@.len() <= bytes@.len(),
        forall|k: int|
            0 <= k < instructions@.len() ==> {
                let item = #[trigger] instructions@[k];
                &&& item.offset < strip(bytes@).len()
                &&& item.opcode == strip(bytes@)[item.offset as int]
                &&& item.data@.len() == operand_len(strip(bytes@), item.offset as int)
                &&& item.data@ == strip(bytes@).subrange(
                    item.offset + 1,
                    item.offset + 1 + item.data@.len(),
                )
                &&& item.well_formed()
            },
{
    let code = strip_solc_metadata(bytes);
    let n = code.len();
    let mut instructions: Vec<Instruction> = Vec::new();
    let mut i: usize = 0;
    while i < n
        invariant
            n == code@.len(),
            0 <= i <= n,
            decode(code@) == views(instructions@) + decode_from(code@, i as int),
        decreases n - i,
    {
        let offset = i;
        let opcode = code[i];
        i = i + 1;
        let mut data: Vec<u8> = Vec::new();
        if opcode >= PUSH1 && opcode <= PUSH32 {
            let push_size: usize = (opcode - 0x5f) as usize;
            let mut taken: usize = 0;
            while taken < push_size && i < n
                invariant
                    n == code@.len(),
                    i == offset + 1 + taken,
                    i <= n,
                    taken <= push_size,
                    data@ == code@.subrange(offset + 1, i as int),
                decreases push_size - taken,
            {
                data.push(code[i]);
                i = i + 1;
                taken = taken + 1;
                assert(data@ =~= code@.subrange(offset + 1, i as int));
            }
        } else {
            assert(data@ =~= code@.subrange(offset + 1, i as int));
        }
        let ghost before = views(instructions@);
        let instruction = Instruction { offset, opcode, data };
        assert(instruction@ == instruction_at(code@, offset as int));
        instructions.push(instruction);
        assert(views(instructions@) =~= before + seq![instruction_at(code@, offset as int)]);
        assert(decode(code@) =~= views(instructions@) + decode_from(code@, i as int));
    }
    proof {
        assert(views(instructions@) =~= decode(code@));
        lemma_decode_from(code@, 0);
        let model = decode(code@);
        assert forall|k: int| 0 <= k < instructions@.len() implies {
            let item = #[trigger] instructions@[k];
            &&& item.offset < code@.len()
            &&& item.opcode == code@[item.offset as int]
            &&& item.data@.len() == operand_len(code@, item.offset as int)
            &&& item.data@ == code@.subrange(item.offset + 1, item.offset + 1 + item.data@.len())
            &&& item.well_formed()
        } by {
            assert(model[k] == instructions@[k]@);
            assert(model[k] == instruction_at(code@, model[k].offset));
        }
        assert forall|i: int, j: int| 0 <= i < j < instructions@.len() implies instructions@[i].offset
            < instructions@[j].offset by {
            assert(model[i] == instructions@[i]@);
            assert(model[j] == instructions@[j]@);
        }
        if instructions@.len() > 0 {
            assert(model.last() == instructions@.last()@);
        }
    }
    instructions
}

/// Stripping twice is stripping once, and so decodes alike, for every buffer
/// that holds the marker at most once.
pub proof fn lemma_strip_idempotent(bytes: Seq<u8>)
    requires
        forall|i: int, j: int| marker_at(bytes, i) && marker_at(bytes, j) ==> i == j,
    ensures
        strip(strip(bytes)) == strip(bytes),
        decode(strip(strip(bytes))) == decode(strip(bytes)),
{
    let code = strip(bytes);
    let cut = code_len(bytes);
    lemma_last_marker(bytes, bytes.len() as int);
    lemma_last_marker(code, code.len() as int);
    let p = last_marker(code, code.len() as int);
    if p >= 0 {
        assert(marker_at(code, p));
        assert(bytes.subrange(p, p + 7) =~= code.subrange(p, p + 7));
        assert(marker_at(bytes, p));
        if cut < bytes.len() {
            assert(marker_at(bytes, cut));
        }
    }
    assert(code.subrange(0, code.len() as int) =~= code);
}

/// A buffer in which the marker stands nowhere is left as it is.
pub proof fn lemma_strip_without_marker(bytes: Seq<u8>)
    requires
        forall|j: int| !marker_at(bytes, j),
    ensures
        strip(bytes) == bytes,
{
    lemma_last_marker(bytes, bytes.len() as int);
    let p = last_marker(bytes, bytes.len() as int);
    if p >= 0 {
        assert(marker_at(bytes, p));
    }
    assert(bytes.subrange(0, bytes.len() as int) =~= bytes);
}

} // verus!
