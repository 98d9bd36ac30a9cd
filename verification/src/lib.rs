//! Disassembly and dispatch analysis of EVM contract bytecode.

pub mod analysis;
pub mod input;
pub mod loader;
pub mod opcodes;
pub mod parser;
pub mod selectors;
pub mod text;
pub mod view;
