//! A small toolchain: a reader and a code generator for a tiny source
//! language, an assembler that turns assembly text into bytecode, and a
//! register machine that executes it.

pub mod assembler;
pub mod codegen;
pub mod end_to_end;
pub mod grammar;
pub mod parser;
pub mod syntax;
pub mod text;
pub mod vm;

pub use assembler::Assembler;
pub use codegen::codegen;
pub use parser::Parser;
pub use vm::VM;
