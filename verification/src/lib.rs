//! A two-pass assembler for a 16-bit accumulator architecture.
//!
//! Source text is split into lines; each line is classified as an address
//! reference (`@sym`), a label definition (`(sym)`), or a compute
//! instruction (`dest=comp;jump`).  A first pass binds every label to the
//! ROM address of the next real instruction; a second pass binds each new
//! variable symbol to the next free data address, starting at 16.  The
//! encoder then emits one 16-character binary word per address or compute
//! instruction.

pub mod assemble;
pub mod encode;
pub mod instruction;
pub mod symbols;
pub mod text;

pub use assemble::assemble;
pub use encode::{comp, dest, jump, AsmError};
pub use instruction::{parse_instruction, CInstruction, Instruction, ParseError, Parser};
pub use symbols::{resolve_symbol_to_address, SymbolTable};
