//! Native code generation: assembly IR, instruction selection, encoding and
//! executable formats.

pub mod asm_ir;
pub mod codegen;
pub mod codegen_common;
pub mod codegen_laws;
pub mod grow_laws;
pub mod io_laws;
pub mod labels;
pub mod linux_laws;
pub mod linux_run_laws;
pub mod parity_laws;
pub mod program_laws;
pub mod run_laws;
pub mod scale_laws;
pub mod string_laws;
pub mod window_laws;
pub mod windows_grow_laws;
pub mod windows_io_laws;
pub mod windows_run_laws;
pub mod x86_64;
