//! What emitted Brainfuck does.

pub mod arith;
pub mod blocks;
pub mod calls;
pub mod cells;
pub mod chunks;
pub mod compare;
pub mod digits;
pub mod division;
pub mod elements;
pub mod expr;
pub mod far;
pub mod flow;
pub mod groups;
pub mod indexing;
pub mod laws;
pub mod print;
pub mod product;
pub mod program;
pub mod scan;
pub mod shape;
pub mod simulation;
pub mod steps;
pub mod text;
pub mod truth;
pub mod walk;
pub mod wide;
