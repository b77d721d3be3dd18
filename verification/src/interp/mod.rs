//! The interpreter: bytecode, its lowering, its machine and its profiler.

pub mod bounds;
pub mod bytecode;
pub mod engine;
pub mod jit_compile;
pub mod jit_laws;
pub mod lower;
pub mod machine;
pub mod preserve;
pub mod profile;
pub mod tape;
