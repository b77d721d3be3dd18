//! Front end: Brainfuck source text to a tree.

pub mod ast;
pub mod lexer;
pub mod meaning;
pub mod parser;
pub mod printed;
