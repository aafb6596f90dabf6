//! A small virtual-machine toolchain: an assembler that turns a syntax tree
//! of the assembly dialect into a flat byte image, and a stack-machine
//! interpreter that runs that image. Both read one instruction table
//! (`isa`), and the proofs tie them together: the two assembler passes agree
//! on every size, and decoding what the assembler wrote gives back the
//! instruction.

pub mod isa;
pub mod lexer;
pub mod machine;
pub mod parser;
pub mod assembler;
pub mod disasm;
