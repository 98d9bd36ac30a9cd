//! Recognition of the dispatcher at the head of a contract's runtime code:
//! selector comparisons, jump-table entries and estimated function bodies.

use crate::opcodes::{
    EQ, INVALID, JUMP, JUMPDEST, JUMPI, PUSH1, PUSH3, PUSH4, RETURN, REVERT, STOP,
};
use crate::parser::{views, Instruction, InstructionView};
use crate::text::{
    decimal, decimal_text, hex_encode, hex_lower, hex_number, offset_text, zero_padded,
};
use vstd::arithmetic::div_mod::{lemma_add_mod_noop, lemma_mul_mod_noop_left, lemma_small_mod};
use vstd::prelude::*;
use vstd::string::StringExecFns;

verus! {

/// The number that `bytes` write, most significant byte first.
pub open spec fn be_value(bytes: Seq<u8>) -> nat
    decreases bytes.len(),
{
    if bytes.len() == 0 {
        0
    } else {
        be_value(bytes.drop_last()) * 256 + bytes.last() as nat
    }
}

/// `be_value` as far as a `usize` holds it: its low bits.
pub open spec fn be_usize(bytes: Seq<u8>) -> int {
    be_value(bytes) as int % (usize::MAX + 1)
}

/// Up to three bytes write a number below 2^24, which every `usize` holds.
pub proof fn lemma_be_usize_small(bytes: Seq<u8>)
    requires
        bytes.len() <= 3,
    ensures
        be_value(bytes) < 0x100_0000,
        be_usize(bytes) == be_value(bytes),
{
    reveal_with_fuel(be_value, 4);
    lemma_small_mod(be_value(bytes), (usize::MAX + 1) as nat);
}

/// Reads `bytes` as a number, most significant byte first. Bytes that a
/// `usize` has no room for fall off at the high end.
pub fn bytes_to_usize(bytes: &[u8]) -> (value: usize)
    ensures
        value == be_usize(bytes@),
        bytes@.len() <= 3 ==> value == be_value(bytes@),
{
    let mut value: usize = 0;
    let mut i: usize = 0;
    let n = bytes.len();
    proof {
        assert(bytes@.subrange(0, 0) =~= Seq::<u8>::empty());
        lemma_small_mod(0, (usize::MAX + 1) as nat);
    }
    while i < n
        invariant
            n == bytes@.len(),
            0 <= i <= n,
            value == be_usize(bytes@.subrange(0, i as int)),
        decreases n - i,
    {
        let byte = bytes[i];
        let ghost before = bytes@.subrange(0, i as int);
        let ghost now = bytes@.subrange(0, i + 1);
        let shifted = value.wrapping_mul(256);
        proof {
            let m = usize::MAX + 1;
            let v = be_value(before) as int;
            assert(now.drop_last() =~= before);
            assert(now.last() == byte);
            assert(be_value(now) == v * 256 + byte);
            assert(m % 256 == 0) by {
                assert(usize::BITS == 32 || usize::BITS == 64);
            }
            lemma_be_step(v, byte, m);
            assert(shifted == (value * 256) % m);
        }
        value = shifted.wrapping_add(byte as usize);
        i = i + 1;
    }
    proof {
        assert(bytes@.subrange(0, n as int) =~= bytes@);
        if bytes@.len() <= 3 {
            lemma_be_usize_small(bytes@);
        }
    }
    value
}

/// A multiple of 256, reduced by a modulus that is itself a multiple of 256,
/// stays a multiple of 256, so a byte can be added to it.
pub proof fn lemma_shifted_has_room(v: int, m: int)
    requires
        0 <= v,
        0 < m,
        m % 256 == 0,
    ensures
        ((v * 256) % m) % 256 == 0,
        (v * 256) % m + 256 <= m,
{
    let r = (v * 256) % m;
    let q = (v * 256) / m;
    let h = m / 256;
    assert(m == 256 * h);
    assert(v * 256 == q * m + r) by {
        vstd::arithmetic::div_mod::lemma_fundamental_div_mod(v * 256, m);
    }
    assert(r == 256 * (v - q * h)) by (nonlinear_arith)
        requires
            v * 256 == q * m + r,
            m == 256 * h,
    ;
    assert(0 <= r < m);
    assert(r % 256 == 0) by {
        vstd::arithmetic::div_mod::lemma_mod_multiples_basic(v - q * h, 256);
    }
}

/// One step of reading a number byte by byte in a type that holds `m`
/// values: the steps may each be reduced by `m`, or the whole at the end.
pub proof fn lemma_be_step(v: int, byte: u8, m: int)
    requires
        0 <= v,
        0 < m,
        m % 256 == 0,
    ensures
        ((v % m) * 256) % m == (v * 256) % m,
        (v * 256) % m + byte < m,
        (v * 256 + byte) % m == (v * 256) % m + byte,
{
    lemma_mul_mod_noop_left(v, 256, m);
    lemma_shifted_has_room(v, m);
    lemma_add_mod_noop(v * 256, byte as int, m);
    lemma_small_mod(byte as nat, m as nat);
    lemma_small_mod(((v * 256) % m + byte) as nat, m as nat);
}

/// 256 to the power of `n`.
pub open spec fn radix_pow(n: nat) -> nat
    decreases n,
{
    if n == 0 {
        1
    } else {
        256 * radix_pow((n - 1) as nat)
    }
}

/// `n` bytes write a number below 256 to the power of `n`.
pub proof fn lemma_be_value_bound(bytes: Seq<u8>)
    ensures
        be_value(bytes) < radix_pow(bytes.len()),
    decreases bytes.len(),
{
    if bytes.len() > 0 {
        lemma_be_value_bound(bytes.drop_last());
    }
}

/// A place where the dispatcher compares the call's selector: the offset of
/// the `PUSH4`, the four bytes it pushes, and a name to show for them.
#[derive(PartialEq, Eq, Debug)]
pub struct FunctionSelector {
    pub offset: usize,
    pub selector: [u8; 4],
    pub name: Option<String>,
}

/// The mathematical value of a [`FunctionSelector`].
pub ghost struct FunctionSelectorView {
    pub offset: int,
    pub selector: Seq<u8>,
    pub name: Option<Seq<char>>,
}

impl View for FunctionSelector {
    type V = FunctionSelectorView;

    open spec fn view(&self) -> FunctionSelectorView {
        FunctionSelectorView {
            offset: self.offset as int,
            selector: self.selector@,
            name: match self.name {
                Some(name) => Some(name@),
                None => None,
            },
        }
    }
}

/// A selector field by field: the offset in decimal, the four bytes in
/// hexadecimal.
pub open spec fn selector_description(item: FunctionSelectorView) -> Seq<char> {
    "Selector { offset: "@ + decimal(item.offset as nat) + ", selector: 0x"@ + hex_lower(
        item.selector,
    ) + " }"@
}

impl FunctionSelector {
    /// The text that names the offset and the selector.
    pub fn describe(&self) -> (text: String)
        ensures
            text@ == selector_description(self@),
    {
        String::from_str("Selector { offset: ").concat(
            decimal_text(self.offset as u128).as_str(),
        ).concat(", selector: 0x").concat(hex_encode(&self.selector).as_str()).concat(" }")
    }
}

/// The values of a sequence of selectors, item by item.
pub open spec fn selector_views(items: Seq<FunctionSelector>) -> Seq<FunctionSelectorView> {
    Seq::new(items.len(), |i: int| items[i]@)
}

/// The name given to a selector of which no signature is known: `func_` and
/// the selector in hexadecimal.
pub open spec fn default_name(selector: Seq<u8>) -> Seq<char> {
    seq!['f', 'u', 'n', 'c', '_'] + hex_lower(selector)
}

/// The two instructions from `k` on are `PUSH4` with its four bytes, then
/// `EQ`.
pub open spec fn is_selector_site(instructions: Seq<InstructionView>, k: int) -> bool {
    &&& 0 <= k
    &&& k + 1 < instructions.len()
    &&& instructions[k].opcode == PUSH4
    &&& instructions[k].data.len() == 4
    &&& instructions[k + 1].opcode == EQ
}

/// The selector that the site at `k` yields.
pub open spec fn selector_at(instructions: Seq<InstructionView>, k: int) -> FunctionSelectorView {
    FunctionSelectorView {
        offset: instructions[k].offset,
        selector: instructions[k].data,
        name: Some(default_name(instructions[k].data)),
    }
}

/// The selectors of the sites below index `k`, in the order of the sites.
pub open spec fn selectors_upto(instructions: Seq<InstructionView>, k: int) -> Seq<
    FunctionSelectorView,
>
    decreases k,
{
    if k <= 0 {
        Seq::empty()
    } else if is_selector_site(instructions, k - 1) {
        selectors_upto(instructions, k - 1).push(selector_at(instructions, k - 1))
    } else {
        selectors_upto(instructions, k - 1)
    }
}

/// The selectors of all sites, in the order of the sites.
pub open spec fn selectors(instructions: Seq<InstructionView>) -> Seq<FunctionSelectorView> {
    selectors_upto(instructions, instructions.len() as int)
}

/// The four bytes of a `PUSH4`, as an array.
fn selector_bytes(data: &Vec<u8>) -> (selector: [u8; 4])
    requires
        data@.len() == 4,
    ensures
        selector@ == data@,
{
    let selector: [u8; 4] = [data[0], data[1], data[2], data[3]];
    assert(selector@ =~= data@);
    selector
}

/// The name of a selector that has no other.
fn name_of(selector: &Vec<u8>) -> (name: String)
    ensures
        name@ == default_name(selector@),
{
    let hex = hex_encode(selector.as_slice());
    let name = String::from_str("func_").concat(hex.as_str());
    proof {
        reveal_strlit("func_");
        assert("func_"@ =~= seq!['f', 'u', 'n', 'c', '_']);
    }
    name
}

/// Finds every place where a `PUSH4` is followed at once by `EQ`, and
/// reports each with the offset of the `PUSH4` and the bytes pushed, in the
/// order of the code.
pub fn analyze_function_selectors(instructions: &[Instruction]) -> (found: Vec<FunctionSelector>)
    ensures
        selector_views(found@) == selectors(views(instructions@)),
{
    let n = instructions.len();
    let mut found: Vec<FunctionSelector> = Vec::new();
    let mut k: usize = 0;
    while k < n
        invariant
            n == instructions@.len(),
            0 <= k <= n,
            selector_views(found@) == selectors_upto(views(instructions@), k as int),
        decreases n - k,
    {
        let ghost model = views(instructions@);
        let ghost before = selector_views(found@);
        assert(model[k as int] == instructions@[k as int]@);
        if k + 1 < n {
            assert(model[k + 1] == instructions@[k + 1]@);
            let first = &instructions[k];
            let second = &instructions[k + 1];
            if first.opcode == PUSH4 && first.data.len() == 4 && second.opcode == EQ {
                let item = FunctionSelector {
                    offset: first.offset,
                    selector: selector_bytes(&first.data),
                    name: Some(name_of(&first.data)),
                };
                assert(item@ == selector_at(model, k as int));
                found.push(item);
                assert(selector_views(found@) =~= before.push(selector_at(model, k as int)));
            }
        }
        k = k + 1;
    }
    found
}

/// An entry of the dispatcher's jump table: the selector compared, and the
/// offset jumped to where it matches.
#[derive(PartialEq, Eq, Clone, Copy, Debug)]
pub struct FunctionEntrypoint {
    pub selector: [u8; 4],
    pub offset: usize,
}

/// The mathematical value of a [`FunctionEntrypoint`].
pub ghost struct FunctionEntrypointView {
    pub selector: Seq<u8>,
    pub offset: int,
}

impl View for FunctionEntrypoint {
    type V = FunctionEntrypointView;

    open spec fn view(&self) -> FunctionEntrypointView {
        FunctionEntrypointView { selector: self.selector@, offset: self.offset as int }
    }
}

/// An entry point field by field: the selector in hexadecimal, the offset in
/// hexadecimal of at least four digits.
pub open spec fn entrypoint_description(item: FunctionEntrypointView) -> Seq<char> {
    "Function { selector: 0x"@ + hex_lower(item.selector) + ", offset: 0x"@ + zero_padded(
        hex_number(item.offset as nat),
        4,
    ) + " }"@
}

impl FunctionEntrypoint {
    /// The text that names the selector and the offset.
    pub fn describe(&self) -> (text: String)
        ensures
            text@ == entrypoint_description(self@),
    {
        String::from_str("Function { selector: 0x").concat(
            hex_encode(&self.selector).as_str(),
        ).concat(", offset: 0x").concat(offset_text(self.offset).as_str()).concat(" }")
    }
}

/// The values of a sequence of entry points, item by item.
pub open spec fn entrypoint_views(items: Seq<FunctionEntrypoint>) -> Seq<FunctionEntrypointView> {
    Seq::new(items.len(), |i: int| items[i]@)
}

/// The four instructions from `k` on are `PUSH4` with its four bytes, `EQ`,
/// a push of one to three bytes, and `JUMPI`.
pub open spec fn is_dispatch_site(instructions: Seq<InstructionView>, k: int) -> bool {
    &&& 0 <= k
    &&& k + 3 < instructions.len()
    &&& instructions[k].opcode == PUSH4
    &&& instructions[k].data.len() == 4
    &&& instructions[k + 1].opcode == EQ
    &&& PUSH1 <= instructions[k + 2].opcode <= PUSH3
    &&& instructions[k + 3].opcode == JUMPI
}

/// The entry point that the site at `k` yields: the selector pushed first, and
/// the number that the third instruction pushes.
pub open spec fn entrypoint_at(instructions: Seq<InstructionView>, k: int) -> FunctionEntrypointView {
    FunctionEntrypointView {
        selector: instructions[k].data,
        offset: be_usize(instructions[k + 2].data),
    }
}

/// The entry points of the sites below index `k`, in the order of the sites.
pub open spec fn entrypoints_upto(instructions: Seq<InstructionView>, k: int) -> Seq<
    FunctionEntrypointView,
>
    decreases k,
{
    if k <= 0 {
        Seq::empty()
    } else if is_dispatch_site(instructions, k - 1) {
        entrypoints_upto(instructions, k - 1).push(entrypoint_at(instructions, k - 1))
    } else {
        entrypoints_upto(instructions, k - 1)
    }
}

/// The entry points of all sites, in the order of the sites.
pub open spec fn entrypoints(instructions: Seq<InstructionView>) -> Seq<FunctionEntrypointView> {
    entrypoints_upto(instructions, instructions.len() as int)
}

/// Whether the four instructions from `k` on are a dispatch site.
fn dispatch_site(instructions: &[Instruction], k: usize) -> (matched: bool)
    ensures
        matched == is_dispatch_site(views(instructions@), k as int),
{
    let n = instructions.len();
    if n < 4 || k >= n - 3 {
        return false;
    }
    let ghost model = views(instructions@);
    assert(model[k as int] == instructions@[k as int]@);
    assert(model[k + 1] == instructions@[k + 1]@);
    assert(model[k + 2] == instructions@[k + 2]@);
    assert(model[k + 3] == instructions@[k + 3]@);
    let first = &instructions[k];
    let second = &instructions[k + 1];
    let third = &instructions[k + 2];
    let fourth = &instructions[k + 3];
    first.opcode == PUSH4 && first.data.len() == 4 && second.opcode == EQ && third.opcode >= PUSH1
        && third.opcode <= PUSH3 && fourth.opcode == JUMPI
}

/// Finds every dispatch entry: `PUSH4` of a selector, `EQ`, a push of one to
/// three bytes, `JUMPI`, with nothing between them. Each is reported with the
/// selector and the offset pushed, read most significant byte first, in the
/// order of the code. A wider push in the third place is no entry.
pub fn analyze_function_entrypoints(instructions: &[Instruction]) -> (found: Vec<
    FunctionEntrypoint,
>)
    ensures
        entrypoint_views(found@) == entrypoints(views(instructions@)),
{
    let n = instructions.len();
    let mut found: Vec<FunctionEntrypoint> = Vec::new();
    let mut k: usize = 0;
    while k < n
        invariant
            n == instructions@.len(),
            0 <= k <= n,
            entrypoint_views(found@) == entrypoints_upto(views(instructions@), k as int),
        decreases n - k,
    {
        let ghost model = views(instructions@);
        let ghost before = entrypoint_views(found@);
        if dispatch_site(instructions, k) {
            assert(model[k as int] == instructions@[k as int]@);
            assert(model[k + 2] == instructions@[k + 2]@);
            let item = FunctionEntrypoint {
                selector: selector_bytes(&instructions[k].data),
                offset: bytes_to_usize(instructions[k + 2].data.as_slice()),
            };
            assert(item@ == entrypoint_at(model, k as int));
            found.push(item);
            assert(entrypoint_views(found@) =~= before.push(entrypoint_at(model, k as int)));
        }
        k = k + 1;
    }
    found
}

/// Where the instruction that pushes the target is well formed, the offset of
/// the entry point is the number that its bytes write: nothing falls off.
pub proof fn lemma_entrypoint_target(instructions: Seq<InstructionView>, k: int)
    requires
        is_dispatch_site(instructions, k),
        instructions[k + 2].well_formed(),
    ensures
        instructions[k + 2].data.len() <= 3,
        entrypoint_at(instructions, k).offset == be_value(instructions[k + 2].data),
        entrypoint_at(instructions, k).offset < 0x100_0000,
{
    lemma_be_usize_small(instructions[k + 2].data);
}

/// Four instructions whose third is no push of one to three bytes add no
/// entry point, whatever the other three are.
pub proof fn lemma_no_false_entrypoint(instructions: Seq<InstructionView>, k: int)
    requires
        0 <= k,
        k + 2 < instructions.len(),
        !(PUSH1 <= instructions[k + 2].opcode <= PUSH3),
    ensures
        !is_dispatch_site(instructions, k),
        entrypoints_upto(instructions, k + 1) == entrypoints_upto(instructions, k),
        k == 0 && instructions.len() == 4 ==> entrypoints(instructions).len() == 0,
{
    reveal_with_fuel(entrypoints_upto, 5);
}

/// Every entry point found stands for a dispatch site, and the sites come in
/// the order of the code: there are as many entry points as sites below `k`,
/// none where there is no site.
pub proof fn lemma_entrypoints_upto(instructions: Seq<InstructionView>, k: int)
    requires
        0 <= k <= instructions.len(),
    ensures
        entrypoints_upto(instructions, k).len() <= k,
        (forall|j: int| 0 <= j < k ==> !is_dispatch_site(instructions, j)) ==> entrypoints_upto(
            instructions,
            k,
        ).len() == 0,
        forall|i: int|
            0 <= i < entrypoints_upto(instructions, k).len() ==> exists|j: int|
                0 <= j < k && is_dispatch_site(instructions, j) && #[trigger] entrypoints_upto(
                    instructions,
                    k,
                )[i] == entrypoint_at(instructions, j),
    decreases k,
{
    if k > 0 {
        lemma_entrypoints_upto(instructions, k - 1);
        let prev = entrypoints_upto(instructions, k - 1);
        let all = entrypoints_upto(instructions, k);
        assert forall|i: int| 0 <= i < all.len() implies exists|j: int|
            0 <= j < k && is_dispatch_site(instructions, j) && #[trigger] all[i] == entrypoint_at(
                instructions,
                j,
            ) by {
            if i < prev.len() {
                let j = choose|j: int|
                    0 <= j < k - 1 && is_dispatch_site(instructions, j) && prev[i]
                        == entrypoint_at(instructions, j);
                assert(all[i] == prev[i]);
                assert(0 <= j < k && is_dispatch_site(instructions, j) && all[i] == entrypoint_at(
                    instructions,
                    j,
                ));
            } else {
                assert(is_dispatch_site(instructions, k - 1) && all[i] == entrypoint_at(
                    instructions,
                    k - 1,
                ));
            }
        }
    }
}

/// Every dispatch site is a selector site too: what the entry points compare
/// is among the selectors, at the offset of the site's first instruction.
pub proof fn lemma_dispatch_is_selector_site(instructions: Seq<InstructionView>, k: int)
    requires
        is_dispatch_site(instructions, k),
    ensures
        is_selector_site(instructions, k),
        selector_at(instructions, k).selector == entrypoint_at(instructions, k).selector,
        selector_at(instructions, k).offset == instructions[k].offset,
{
}

/// The least index from `from` on whose instruction starts at `offset`, or
/// the length of the sequence where there is none.
pub open spec fn index_of_offset(instructions: Seq<InstructionView>, offset: int, from: int) -> int
    decreases instructions.len() - from,
{
    if from < 0 || from >= instructions.len() {
        instructions.len() as int
    } else if instructions[from].offset == offset {
        from
    } else {
        index_of_offset(instructions, offset, from + 1)
    }
}

/// An opcode after which nothing of the same body runs.
pub open spec fn is_terminal(opcode: u8) -> bool {
    opcode == RETURN || opcode == REVERT || opcode == STOP || opcode == INVALID
}

/// The instruction at `i` ends the body that starts at index `start`: it is
/// terminal, or a `JUMP`, or a `JUMPDEST` behind the start.
pub open spec fn ends_body(instructions: Seq<InstructionView>, start: int, i: int) -> bool {
    let opcode = instructions[i].opcode;
    is_terminal(opcode) || opcode == JUMP || (opcode == JUMPDEST && i > start)
}

/// The least index from `i` on at which the body that starts at index `start`
/// ends, or the length of the sequence where it ends nowhere.
pub open spec fn first_end(instructions: Seq<InstructionView>, start: int, i: int) -> int
    decreases instructions.len() - i,
{
    if i < 0 || i >= instructions.len() {
        instructions.len() as int
    } else if ends_body(instructions, start, i) {
        i
    } else {
        first_end(instructions, start, i + 1)
    }
}

/// The estimated last offset of the body that starts at index `start`: the
/// offset of the terminal instruction or `JUMP` that ends it, or of the
/// instruction before the `JUMPDEST` that ends it, or of the last instruction
/// of all where nothing ends it.
pub open spec fn end_from(instructions: Seq<InstructionView>, start: int) -> int
    recommends
        0 <= start < instructions.len(),
{
    let stop = first_end(instructions, start, start);
    if stop >= instructions.len() {
        instructions.last().offset
    } else if instructions[stop].opcode == JUMPDEST {
        instructions[stop - 1].offset
    } else {
        instructions[stop].offset
    }
}

/// The estimated last offset of the body that starts at `offset`, where an
/// instruction starts there.
pub open spec fn function_end(instructions: Seq<InstructionView>, offset: int) -> Option<int> {
    let start = index_of_offset(instructions, offset, 0);
    if start < instructions.len() {
        Some(end_from(instructions, start))
    } else {
        None
    }
}

/// What `index_of_offset` finds is the first instruction at that offset.
pub proof fn lemma_index_of_offset(instructions: Seq<InstructionView>, offset: int, from: int)
    requires
        0 <= from <= instructions.len(),
    ensures
        from <= index_of_offset(instructions, offset, from) <= instructions.len(),
        index_of_offset(instructions, offset, from) < instructions.len()
            ==> instructions[index_of_offset(instructions, offset, from)].offset == offset,
        forall|j: int|
            from <= j < index_of_offset(instructions, offset, from) ==> instructions[j].offset
                != offset,
    decreases instructions.len() - from,
{
    if from < instructions.len() && instructions[from].offset != offset {
        lemma_index_of_offset(instructions, offset, from + 1);
    }
}

/// What `first_end` finds ends the body, and nothing before it does.
pub proof fn lemma_first_end(instructions: Seq<InstructionView>, start: int, i: int)
    requires
        0 <= i <= instructions.len(),
    ensures
        i <= first_end(instructions, start, i) <= instructions.len(),
        first_end(instructions, start, i) < instructions.len() ==> ends_body(
            instructions,
            start,
            first_end(instructions, start, i),
        ),
        forall|j: int|
            i <= j < first_end(instructions, start, i) ==> !ends_body(instructions, start, j),
    decreases instructions.len() - i,
{
    if i < instructions.len() && !ends_body(instructions, start, i) {
        lemma_first_end(instructions, start, i + 1);
    }
}

/// The index of the first instruction that starts at `offset`.
fn position_of_offset(instructions: &[Instruction], offset: usize) -> (index: usize)
    ensures
        index == index_of_offset(views(instructions@), offset as int, 0),
        index <= instructions@.len(),
{
    let n = instructions.len();
    let mut i: usize = 0;
    while i < n
        invariant
            n == instructions@.len(),
            0 <= i <= n,
            index_of_offset(views(instructions@), offset as int, 0) == index_of_offset(
                views(instructions@),
                offset as int,
                i as int,
            ),
        decreases n - i,
    {
        assert(views(instructions@)[i as int] == instructions@[i as int]@);
        if instructions[i].offset == offset {
            return i;
        }
        i = i + 1;
    }
    i
}

/// Estimates where the body that starts at `start_offset` ends. Reading on
/// from the instruction at that offset, the body ends with the first
/// `RETURN`, `REVERT`, `STOP`, `INVALID` or `JUMP`, at that instruction's
/// offset, or before the first later `JUMPDEST`, at the offset of the
/// instruction before it; where none of them comes, with the last
/// instruction. `None` where no instruction starts at `start_offset`.
pub fn find_function_end(instructions: &[Instruction], start_offset: usize) -> (end: Option<usize>)
    ensures
        function_end(views(instructions@), start_offset as int) == match end {
            Some(offset) => Some(offset as int),
            None => None::<int>,
        },
        end is Some <==> exists|j: int|
            0 <= j < instructions@.len() && instructions@[j].offset == start_offset,
{
    let n = instructions.len();
    let ghost model = views(instructions@);
    let start_idx = position_of_offset(instructions, start_offset);
    proof {
        lemma_index_of_offset(model, start_offset as int, 0);
        if start_idx < n {
            assert(model[start_idx as int] == instructions@[start_idx as int]@);
        } else {
            assert forall|j: int| 0 <= j < instructions@.len() implies instructions@[j].offset
                != start_offset by {
                assert(model[j] == instructions@[j]@);
            }
        }
    }
    if start_idx >= n {
        return None;
    }
    let mut i: usize = start_idx;
    while i < n
        invariant
            n == instructions@.len(),
            model == views(instructions@),
            start_idx <= i <= n,
            start_idx < n,
            start_idx == index_of_offset(model, start_offset as int, 0),
            instructions@[start_idx as int].offset == start_offset,
            first_end(model, start_idx as int, start_idx as int) == first_end(
                model,
                start_idx as int,
                i as int,
            ),
        decreases n - i,
    {
        assert(model[i as int] == instructions@[i as int]@);
        let opcode = instructions[i].opcode;
        if opcode == RETURN || opcode == REVERT || opcode == STOP || opcode == INVALID {
            return Some(instructions[i].offset);
        }
        if opcode == JUMP {
            return Some(instructions[i].offset);
        }
        if opcode == JUMPDEST && i > start_idx {
            assert(model[i - 1] == instructions@[i - 1]@);
            return Some(instructions[i - 1].offset);
        }
        i = i + 1;
    }
    assert(model.last() == instructions@[n - 1]@);
    Some(instructions[n - 1].offset)
}

/// A function of the contract: its selector, the offset its body starts at,
/// and the offset its body is estimated to end at.
#[derive(PartialEq, Eq, Clone, Copy, Debug)]
pub struct Function {
    pub selector: [u8; 4],
    pub start: usize,
    pub end: usize,
}

/// The mathematical value of a [`Function`].
pub ghost struct FunctionView {
    pub selector: Seq<u8>,
    pub start: int,
    pub end: int,
}

impl View for Function {
    type V = FunctionView;

    open spec fn view(&self) -> FunctionView {
        FunctionView { selector: self.selector@, start: self.start as int, end: self.end as int }
    }
}

/// A function field by field: the selector in hexadecimal, the two offsets
/// in hexadecimal of at least four digits.
pub open spec fn function_description(item: FunctionView) -> Seq<char> {
    "Function { selector: 0x"@ + hex_lower(item.selector) + ", start: 0x"@ + zero_padded(
        hex_number(item.start as nat),
        4,
    ) + ", end: 0x"@ + zero_padded(hex_number(item.end as nat), 4) + " }"@
}

impl Function {
    /// The text that names the selector and where the body starts and ends.
    pub fn describe(&self) -> (text: String)
        ensures
            text@ == function_description(self@),
    {
        String::from_str("Function { selector: 0x").concat(
            hex_encode(&self.selector).as_str(),
        ).concat(", start: 0x").concat(offset_text(self.start).as_str()).concat(
            ", end: 0x",
        ).concat(offset_text(self.end).as_str()).concat(" }")
    }
}

/// The values of a sequence of functions, item by item.
pub open spec fn function_views(items: Seq<Function>) -> Seq<FunctionView> {
    Seq::new(items.len(), |i: int| items[i]@)
}

/// The function that the dispatch site at `k` leads to, where an instruction
/// starts at the offset it jumps to.
pub open spec fn function_at(instructions: Seq<InstructionView>, k: int) -> Option<FunctionView> {
    let start = be_usize(instructions[k + 2].data);
    match function_end(instructions, start) {
        Some(end) => Some(FunctionView { selector: instructions[k].data, start, end }),
        None => None,
    }
}

/// The functions of the dispatch sites below index `k`, in the order of the
/// sites. A site that jumps to where no instruction starts adds none.
pub open spec fn functions_upto(instructions: Seq<InstructionView>, k: int) -> Seq<FunctionView>
    decreases k,
{
    if k <= 0 {
        Seq::empty()
    } else if is_dispatch_site(instructions, k - 1) && function_at(instructions, k - 1) is Some {
        functions_upto(instructions, k - 1).push(function_at(instructions, k - 1)->0)
    } else {
        functions_upto(instructions, k - 1)
    }
}

/// The functions of all dispatch sites, in the order of the sites.
pub open spec fn functions(instructions: Seq<InstructionView>) -> Seq<FunctionView> {
    functions_upto(instructions, instructions.len() as int)
}

/// A function is its entry point with an end: the same selector, and the
/// start where the entry point jumps to. No more functions are found than
/// entry points.
pub proof fn lemma_functions_upto(instructions: Seq<InstructionView>, k: int)
    requires
        0 <= k <= instructions.len(),
    ensures
        functions_upto(instructions, k).len() <= entrypoints_upto(instructions, k).len(),
        forall|j: int|
            0 <= j < k && is_dispatch_site(instructions, j) ==> match #[trigger] function_at(
                instructions,
                j,
            ) {
                Some(function) => function.selector == entrypoint_at(instructions, j).selector
                    && function.start == entrypoint_at(instructions, j).offset
                    && function_end(instructions, function.start) == Some(function.end),
                None => function_end(instructions, entrypoint_at(instructions, j).offset)
                    is None,
            },
    decreases k,
{
    if k > 0 {
        lemma_functions_upto(instructions, k - 1);
    }
}

/// Finds the function behind every dispatch entry: its selector, the offset
/// jumped to, and the estimated end of the body that starts there. An entry
/// that jumps to where no instruction starts is left out.
pub fn analyze_functions(instructions: &[Instruction]) -> (found: Vec<Function>)
    ensures
        function_views(found@) == functions(views(instructions@)),
{
    let n = instructions.len();
    let mut found: Vec<Function> = Vec::new();
    let mut k: usize = 0;
    while k < n
        invariant
            n == instructions@.len(),
            0 <= k <= n,
            function_views(found@) == functions_upto(views(instructions@), k as int),
        decreases n - k,
    {
        let ghost model = views(instructions@);
        let ghost before = function_views(found@);
        if dispatch_site(instructions, k) {
            assert(model[k as int] == instructions@[k as int]@);
            assert(model[k + 2] == instructions@[k + 2]@);
            let start = bytes_to_usize(instructions[k + 2].data.as_slice());
            match find_function_end(instructions, start) {
                Some(end) => {
                    let item = Function {
                        selector: selector_bytes(&instructions[k].data),
                        start,
                        end,
                    };
                    assert(Some(item@) == function_at(model, k as int));
                    found.push(item);
                    assert(function_views(found@) =~= before.push(item@));
                },
                None => {},
            }
        }
        k = k + 1;
    }
    found
}

/// Everything the analysis finds in one sequence of instructions.
pub struct Analysis {
    pub function_selectors: Vec<FunctionSelector>,
    pub functions: Vec<Function>,
    pub function_entrypoints: Vec<FunctionEntrypoint>,
}

impl Analysis {
    /// An analysis that has found nothing.
    pub fn new() -> (analysis: Self)
        ensures
            analysis.function_selectors@.len() == 0,
            analysis.functions@.len() == 0,
            analysis.function_entrypoints@.len() == 0,
    {
        Analysis {
            function_selectors: Vec::new(),
            functions: Vec::new(),
            function_entrypoints: Vec::new(),
        }
    }

    /// Runs the three analyses over `instructions`.
    pub fn from_instructions(instructions: &[Instruction]) -> (analysis: Self)
        ensures
            selector_views(analysis.function_selectors@) == selectors(views(instructions@)),
            function_views(analysis.functions@) == functions(views(instructions@)),
            entrypoint_views(analysis.function_entrypoints@) == entrypoints(
                views(instructions@),
            ),
    {
        Analysis {
            function_selectors: analyze_function_selectors(instructions),
            functions: analyze_functions(instructions),
            function_entrypoints: analyze_function_entrypoints(instructions),
        }
    }
}

} // verus!
