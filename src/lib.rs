//! A two-stage toolchain: an assembler from mnemonic text to bytecode, and a
//! stack machine that runs that bytecode.
pub mod isa;
pub mod vm;
pub mod assembler;

pub use assembler::{translate_assembly, AsmError, AsmErrorKind, PearAsmParser};
pub use isa::{decode, instruction_code, requires_argument, Instruction, Value};
pub use vm::{Printed, VmError, VM};
