//! Bytecode back end of the Theta language: values, instructions, chunks,
//! the binary image format, the virtual machine that runs it, and the
//! incremental linking a REPL uses.
pub mod assembler;
pub mod ast;
pub mod bitstream;
pub mod chunk;
pub mod disassembler;
pub mod loader;
pub mod opcode;
pub mod plaintext;
pub mod repl;
pub mod value;
pub mod vm;
