//! Emitted text is sound: operators alone, with matching brackets.
//!
//! For each step of the emitter a lemma with the name of the step says that the
//! step keeps a text sound.

pub mod arith;
pub mod arrays;
pub mod codegen;
pub mod numbers;
pub mod steps;
