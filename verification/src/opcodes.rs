//! The names of the opcodes.

use crate::text::{decimal, decimal_text};
use vstd::prelude::*;
use vstd::string::StringExecFns;

verus! {

/// Halts execution.
pub const STOP: u8 = 0x00;

/// Compares the two topmost words.
pub const EQ: u8 = 0x14;

/// Jumps.
pub const JUMP: u8 = 0x56;

/// Jumps where a condition holds.
pub const JUMPI: u8 = 0x57;

/// Marks a place that may be jumped to.
pub const JUMPDEST: u8 = 0x5b;

/// Pushes the one byte behind it: the first of the push opcodes.
pub const PUSH1: u8 = 0x60;

/// Pushes the three bytes behind it.
pub const PUSH3: u8 = 0x62;

/// Pushes the four bytes behind it.
pub const PUSH4: u8 = 0x63;

/// Pushes the 32 bytes behind it: the last of the push opcodes.
pub const PUSH32: u8 = 0x7f;

/// Halts execution and hands data back.
pub const RETURN: u8 = 0xf3;

/// Halts execution and undoes its changes.
pub const REVERT: u8 = 0xfd;

/// The designated invalid instruction.
pub const INVALID: u8 = 0xfe;

/// The name shown for a byte that is no opcode.
pub open spec fn unknown_name() -> Seq<char> {
    "UNKNOWN"@
}

/// The name of an opcode that has a name of its own; `unknown_name` for
/// every other byte.
pub open spec fn plain_name(opcode: u8) -> Seq<char> {
    match opcode {
        0x00 => "STOP"@,
        0x01 => "ADD"@,
        0x02 => "MUL"@,
        0x03 => "SUB"@,
        0x04 => "DIV"@,
        0x05 => "SDIV"@,
        0x06 => "MOD"@,
        0x07 => "SMOD"@,
        0x08 => "ADDMOD"@,
        0x09 => "MULMOD"@,
        0x0a => "EXP"@,
        0x0b => "SIGNEXTEND"@,
        0x10 => "LT"@,
        0x11 => "GT"@,
        0x12 => "SLT"@,
        0x13 => "SGT"@,
        0x14 => "EQ"@,
        0x15 => "ISZERO"@,
        0x16 => "AND"@,
        0x17 => "OR"@,
        0x18 => "XOR"@,
        0x19 => "NOT"@,
        0x1a => "BYTE"@,
        0x1b => "SHL"@,
        0x1c => "SHR"@,
        0x1d => "SAR"@,
        0x20 => "KECCAK256"@,
        0x30 => "ADDRESS"@,
        0x31 => "BALANCE"@,
        0x32 => "ORIGIN"@,
        0x33 => "CALLER"@,
        0x34 => "CALLVALUE"@,
        0x35 => "CALLDATALOAD"@,
        0x36 => "CALLDATASIZE"@,
        0x37 => "CALLDATACOPY"@,
        0x38 => "CODESIZE"@,
        0x39 => "CODECOPY"@,
        0x3a => "GASPRICE"@,
        0x3b => "EXTCODESIZE"@,
        0x3c => "EXTCODECOPY"@,
        0x3d => "RETURNDATASIZE"@,
        0x3e => "RETURNDATACOPY"@,
        0x3f => "EXTCODEHASH"@,
        0x40 => "BLOCKHASH"@,
        0x41 => "COINBASE"@,
        0x42 => "TIMESTAMP"@,
        0x43 => "NUMBER"@,
        0x44 => "PREVRANDAO"@,
        0x45 => "GASLIMIT"@,
        0x46 => "CHAINID"@,
        0x47 => "SELFBALANCE"@,
        0x48 => "BASEFEE"@,
        0x49 => "BLOBHASH"@,
        0x4a => "BLOBBASEFEE"@,
        0x50 => "POP"@,
        0x51 => "MLOAD"@,
        0x52 => "MSTORE"@,
        0x53 => "MSTORE8"@,
        0x54 => "SLOAD"@,
        0x55 => "SSTORE"@,
        0x56 => "JUMP"@,
        0x57 => "JUMPI"@,
        0x58 => "PC"@,
        0x59 => "MSIZE"@,
        0x5a => "GAS"@,
        0x5b => "JUMPDEST"@,
        0x5c => "TLOAD"@,
        0x5d => "TSTORE"@,
        0x5e => "MCOPY"@,
        0x5f => "PUSH0"@,
        0xf0 => "CREATE"@,
        0xf1 => "CALL"@,
        0xf2 => "CALLCODE"@,
        0xf3 => "RETURN"@,
        0xf4 => "DELEGATECALL"@,
        0xf5 => "CREATE2"@,
        0xfa => "STATICCALL"@,
        0xfd => "REVERT"@,
        0xfe => "INVALID"@,
        0xff => "SELFDESTRUCT"@,
        _ => unknown_name(),
    }
}

/// The name of an opcode. The numbered families are named by their number:
/// `PUSH1` to `PUSH32`, `DUP1` to `DUP16`, `SWAP1` to `SWAP16`, `LOG0` to
/// `LOG4`. A byte that is no opcode is named `UNKNOWN`.
pub open spec fn mnemonic_of(opcode: u8) -> Seq<char> {
    if PUSH1 <= opcode <= PUSH32 {
        "PUSH"@ + decimal((opcode - 0x5f) as nat)
    } else if 0x80 <= opcode <= 0x8f {
        "DUP"@ + decimal((opcode - 0x7f) as nat)
    } else if 0x90 <= opcode <= 0x9f {
        "SWAP"@ + decimal((opcode - 0x8f) as nat)
    } else if 0xa0 <= opcode <= 0xa4 {
        "LOG"@ + decimal((opcode - 0xa0) as nat)
    } else {
        plain_name(opcode)
    }
}

/// Looks up the name of an opcode outside the numbered families.
fn plain_mnemonic(opcode: u8) -> (name: &'static str)
    ensures
        name@ == plain_name(opcode),
{
    match opcode {
        0x00 => "STOP",
        0x01 => "ADD",
        0x02 => "MUL",
        0x03 => "SUB",
        0x04 => "DIV",
        0x05 => "SDIV",
        0x06 => "MOD",
        0x07 => "SMOD",
        0x08 => "ADDMOD",
        0x09 => "MULMOD",
        0x0a => "EXP",
        0x0b => "SIGNEXTEND",
        0x10 => "LT",
        0x11 => "GT",
        0x12 => "SLT",
        0x13 => "SGT",
        0x14 => "EQ",
        0x15 => "ISZERO",
        0x16 => "AND",
        0x17 => "OR",
        0x18 => "XOR",
        0x19 => "NOT",
        0x1a => "BYTE",
        0x1b => "SHL",
        0x1c => "SHR",
        0x1d => "SAR",
        0x20 => "KECCAK256",
        0x30 => "ADDRESS",
        0x31 => "BALANCE",
        0x32 => "ORIGIN",
        0x33 => "CALLER",
        0x34 => "CALLVALUE",
        0x35 => "CALLDATALOAD",
        0x36 => "CALLDATASIZE",
        0x37 => "CALLDATACOPY",
        0x38 => "CODESIZE",
        0x39 => "CODECOPY",
        0x3a => "GASPRICE",
        0x3b => "EXTCODESIZE",
        0x3c => "EXTCODECOPY",
        0x3d => "RETURNDATASIZE",
        0x3e => "RETURNDATACOPY",
        0x3f => "EXTCODEHASH",
        0x40 => "BLOCKHASH",
        0x41 => "COINBASE",
        0x42 => "TIMESTAMP",
        0x43 => "NUMBER",
        0x44 => "PREVRANDAO",
        0x45 => "GASLIMIT",
        0x46 => "CHAINID",
        0x47 => "SELFBALANCE",
        0x48 => "BASEFEE",
        0x49 => "BLOBHASH",
        0x4a => "BLOBBASEFEE",
        0x50 => "POP",
        0x51 => "MLOAD",
        0x52 => "MSTORE",
        0x53 => "MSTORE8",
        0x54 => "SLOAD",
        0x55 => "SSTORE",
        0x56 => "JUMP",
        0x57 => "JUMPI",
        0x58 => "PC",
        0x59 => "MSIZE",
        0x5a => "GAS",
        0x5b => "JUMPDEST",
        0x5c => "TLOAD",
        0x5d => "TSTORE",
        0x5e => "MCOPY",
        0x5f => "PUSH0",
        0xf0 => "CREATE",
        0xf1 => "CALL",
        0xf2 => "CALLCODE",
        0xf3 => "RETURN",
        0xf4 => "DELEGATECALL",
        0xf5 => "CREATE2",
        0xfa => "STATICCALL",
        0xfd => "REVERT",
        0xfe => "INVALID",
        0xff => "SELFDESTRUCT",
        _ => "UNKNOWN",
    }
}

/// The name of a numbered opcode: the family's name and the number.
fn numbered(family: &str, number: u8) -> (name: String)
    ensures
        name@ == family@ + decimal(number as nat),
{
    String::from_str(family).concat(decimal_text(number as u128).as_str())
}

/// Names an opcode: see [`mnemonic_of`].
pub fn mnemonic(opcode: u8) -> (name: String)
    ensures
        name@ == mnemonic_of(opcode),
{
    if PUSH1 <= opcode && opcode <= PUSH32 {
        numbered("PUSH", opcode - 0x5f)
    } else if 0x80 <= opcode && opcode <= 0x8f {
        numbered("DUP", opcode - 0x7f)
    } else if 0x90 <= opcode && opcode <= 0x9f {
        numbered("SWAP", opcode - 0x8f)
    } else if 0xa0 <= opcode && opcode <= 0xa4 {
        numbered("LOG", opcode - 0xa0)
    } else {
        String::from_str(plain_mnemonic(opcode))
    }
}

} // verus!
