//! AmazingBF: a Brainfuck toolchain whose logic is verified.
//!
//! The crate holds the Brainfuck front end, the interpreter's bytecode, the
//! x86_64 code generators with their encoder and executable formats, and the
//! BFS (Brainf Script) compiler. Everything here computes on plain values;
//! reading files, printing and running native code belongs to the program
//! around it.

pub mod backend;
pub mod bfsc;
pub mod bytes;
pub mod cli;
pub mod driver;
pub mod error;
pub mod frontend;
pub mod interp;
pub mod ir;
pub mod jit;
pub mod text;
