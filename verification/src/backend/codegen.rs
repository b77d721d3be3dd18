//! Code generation for Linux: LIR to x86_64 assembly with raw system calls.
//!
//! The tape is mapped with `mmap` and grows on demand. Four registers are
//! fixed: `r12` holds the tape's start, `r13` the data pointer, `r14` the
//! tape's end, and `r15` the target of a pointer move before it is checked.
//! `rbx` and `rbp` hold the write pointer and the end of the output buffer.

use vstd::prelude::*;

use crate::backend::asm_ir::{AsmInst, AsmLabel, AsmProgram, Reg64};
use crate::backend::codegen_common::{emit_lir_body, LabelAllocator, PlatformEmitter, Routines};
use crate::backend::codegen_common::{internal, lir_body, lir_ok};
use crate::bytes::{push_le32, push_le64};
use crate::bytes::{le32, le64};
use crate::ir::lir::LirProgram;

verus! {

/// Initial tape size in bytes: one page.
pub const INITIAL_TAPE_SIZE: i64 = 4096;

/// Size of the output buffer in bytes: one page.
pub const OUTPUT_BUFFER_SIZE: i64 = 4096;

/// Label of the growth routine.
pub const ENSURE_TAPE_ID: u32 = 0xFFFF_FFFF;

/// Label of the failure exit.
pub const EXIT_ONE_ID: u32 = 0xFFFF_FFFE;

/// Label of the doubling loop inside the growth routine.
pub const GROW_LOOP_ID: u32 = 0xFFFF_FFFD;

/// Label of the flush routine; the lowest label with a fixed meaning.
pub const FLUSH_OUTPUT_ID: u32 = 0xFFFF_FFFC;

/// First transient internal label, right below the fixed ones.
pub const INTERNAL_LABEL_BASE: u32 = 0xFFFF_FFFB;

/// Map the initial tape and point `r12` at its start, `r13` at its middle and
/// `r14` at its end; leave with status 1 where the mapping fails.
pub open spec fn init_tape_insts(exit_one_label: AsmLabel) -> Seq<AsmInst> {
    seq![
        AsmInst::MovRegImm64(Reg64::Rax, 9),
        AsmInst::MovRegImm64(Reg64::Rdi, 0),
        AsmInst::MovRegImm64(Reg64::Rsi, INITIAL_TAPE_SIZE),
        AsmInst::MovRegImm64(Reg64::Rdx, 0x3),
        AsmInst::MovRegImm64(Reg64::R10, 0x22),
        AsmInst::MovRegImm64(Reg64::R8, (-1) as i64),
        AsmInst::MovRegImm64(Reg64::R9, 0),
        AsmInst::Syscall,
        AsmInst::CmpRegImm32(Reg64::Rax, 0),
        AsmInst::Jl(exit_one_label),
        AsmInst::MovRegReg(Reg64::R12, Reg64::Rax),
        AsmInst::MovRegReg(Reg64::R13, Reg64::Rax),
        AsmInst::AddRegImm32(Reg64::R13, 2048),
        AsmInst::MovRegReg(Reg64::R14, Reg64::Rax),
        AsmInst::AddRegImm32(Reg64::R14, 4096),
    ]
}

/// Emit the allocation of the tape.
fn emit_init_tape(out: &mut Vec<AsmInst>, exit_one_label: AsmLabel)
    ensures
        final(out)@ == old(out)@ + init_tape_insts(exit_one_label),
{
    let mut chunk: Vec<AsmInst> = vec![
        AsmInst::MovRegImm64(Reg64::Rax, 9),
        AsmInst::MovRegImm64(Reg64::Rdi, 0),
        AsmInst::MovRegImm64(Reg64::Rsi, INITIAL_TAPE_SIZE),
        AsmInst::MovRegImm64(Reg64::Rdx, 0x3),
        AsmInst::MovRegImm64(Reg64::R10, 0x22),
        AsmInst::MovRegImm64(Reg64::R8, -1),
        AsmInst::MovRegImm64(Reg64::R9, 0),
        AsmInst::Syscall,
        AsmInst::CmpRegImm32(Reg64::Rax, 0),
        AsmInst::Jl(exit_one_label),
        AsmInst::MovRegReg(Reg64::R12, Reg64::Rax),
        AsmInst::MovRegReg(Reg64::R13, Reg64::Rax),
        AsmInst::AddRegImm32(Reg64::R13, 2048),
        AsmInst::MovRegReg(Reg64::R14, Reg64::Rax),
        AsmInst::AddRegImm32(Reg64::R14, 4096),
    ];
    assert(chunk@ =~= init_tape_insts(exit_one_label));
    out.append(&mut chunk);
}

/// Map the output buffer and point `rbx` at its start and `rbp` at its end;
/// leave with status 1 where the mapping fails.
pub open spec fn init_output_insts(exit_one_label: AsmLabel) -> Seq<AsmInst> {
    seq![
        AsmInst::MovRegImm64(Reg64::Rax, 9),
        AsmInst::MovRegImm64(Reg64::Rdi, 0),
        AsmInst::MovRegImm64(Reg64::Rsi, OUTPUT_BUFFER_SIZE),
        AsmInst::MovRegImm64(Reg64::Rdx, 0x3),
        AsmInst::MovRegImm64(Reg64::R10, 0x22),
        AsmInst::MovRegImm64(Reg64::R8, (-1) as i64),
        AsmInst::MovRegImm64(Reg64::R9, 0),
        AsmInst::Syscall,
        AsmInst::CmpRegImm32(Reg64::Rax, 0),
        AsmInst::Jl(exit_one_label),
        AsmInst::MovRegReg(Reg64::Rbx, Reg64::Rax),
        AsmInst::MovRegReg(Reg64::Rbp, Reg64::Rax),
        AsmInst::AddRegImm32(Reg64::Rbp, 4096),
    ]
}

/// Emit the allocation of the output buffer.
fn emit_init_output_buffer(out: &mut Vec<AsmInst>, exit_one_label: AsmLabel)
    ensures
        final(out)@ == old(out)@ + init_output_insts(exit_one_label),
{
    let mut chunk: Vec<AsmInst> = vec![
        AsmInst::MovRegImm64(Reg64::Rax, 9),
        AsmInst::MovRegImm64(Reg64::Rdi, 0),
        AsmInst::MovRegImm64(Reg64::Rsi, OUTPUT_BUFFER_SIZE),
        AsmInst::MovRegImm64(Reg64::Rdx, 0x3),
        AsmInst::MovRegImm64(Reg64::R10, 0x22),
        AsmInst::MovRegImm64(Reg64::R8, -1),
        AsmInst::MovRegImm64(Reg64::R9, 0),
        AsmInst::Syscall,
        AsmInst::CmpRegImm32(Reg64::Rax, 0),
        AsmInst::Jl(exit_one_label),
        AsmInst::MovRegReg(Reg64::Rbx, Reg64::Rax),
        AsmInst::MovRegReg(Reg64::Rbp, Reg64::Rax),
        AsmInst::AddRegImm32(Reg64::Rbp, 4096),
    ];
    assert(chunk@ =~= init_output_insts(exit_one_label));
    out.append(&mut chunk);
}

/// Entry of the growth routine: `r10` gets the old length, `r9` the offset of
/// the target, and `r11` doubles until `r8 + r9` is within `[0, r11)`, where
/// `r8` is half of what is added.
pub open spec fn grow_search_insts(
    ensure_tape_label: AsmLabel,
    grow_loop: AsmLabel,
) -> Seq<AsmInst> {
    seq![
        AsmInst::Label(ensure_tape_label),
        AsmInst::MovRegReg(Reg64::R10, Reg64::R14),
        AsmInst::SubRegReg(Reg64::R10, Reg64::R12),
        AsmInst::MovRegReg(Reg64::R9, Reg64::R15),
        AsmInst::SubRegReg(Reg64::R9, Reg64::R12),
        AsmInst::MovRegReg(Reg64::R11, Reg64::R10),
        AsmInst::Label(grow_loop),
        AsmInst::AddRegReg(Reg64::R11, Reg64::R11),
        AsmInst::MovRegReg(Reg64::R8, Reg64::R11),
        AsmInst::SubRegReg(Reg64::R8, Reg64::R10),
        AsmInst::ShrRegImm8(Reg64::R8, 1),
        AsmInst::MovRegReg(Reg64::Rax, Reg64::R8),
        AsmInst::AddRegReg(Reg64::Rax, Reg64::R9),
        AsmInst::CmpRegImm32(Reg64::Rax, 0),
        AsmInst::Jl(grow_loop),
        AsmInst::CmpRegReg(Reg64::Rax, Reg64::R11),
        AsmInst::Jge(grow_loop),
    ]
}

/// Emit the search for the new length.
fn emit_grow_search(out: &mut Vec<AsmInst>, ensure_tape_label: AsmLabel, grow_loop: AsmLabel)
    ensures
        final(out)@ == old(out)@ + grow_search_insts(ensure_tape_label, grow_loop),
{
    let mut chunk: Vec<AsmInst> = vec![
        AsmInst::Label(ensure_tape_label),
        AsmInst::MovRegReg(Reg64::R10, Reg64::R14),
        AsmInst::SubRegReg(Reg64::R10, Reg64::R12),
        AsmInst::MovRegReg(Reg64::R9, Reg64::R15),
        AsmInst::SubRegReg(Reg64::R9, Reg64::R12),
        AsmInst::MovRegReg(Reg64::R11, Reg64::R10),
        AsmInst::Label(grow_loop),
        AsmInst::AddRegReg(Reg64::R11, Reg64::R11),
        AsmInst::MovRegReg(Reg64::R8, Reg64::R11),
        AsmInst::SubRegReg(Reg64::R8, Reg64::R10),
        AsmInst::ShrRegImm8(Reg64::R8, 1),
        AsmInst::MovRegReg(Reg64::Rax, Reg64::R8),
        AsmInst::AddRegReg(Reg64::Rax, Reg64::R9),
        AsmInst::CmpRegImm32(Reg64::Rax, 0),
        AsmInst::Jl(grow_loop),
        AsmInst::CmpRegReg(Reg64::Rax, Reg64::R11),
        AsmInst::Jge(grow_loop),
    ];
    assert(chunk@ =~= grow_search_insts(ensure_tape_label, grow_loop));
    out.append(&mut chunk);
}

/// Map a tape of the new length; leave with status 1 where that fails.
pub open spec fn map_new_insts(exit_one_label: AsmLabel) -> Seq<AsmInst> {
    seq![
        AsmInst::MovRegImm64(Reg64::Rax, 9),
        AsmInst::MovRegImm64(Reg64::Rdi, 0),
        AsmInst::MovRegReg(Reg64::Rsi, Reg64::R11),
        AsmInst::MovRegImm64(Reg64::Rdx, 0x3),
        AsmInst::MovRegImm64(Reg64::R10, 0x22),
        AsmInst::MovRegImm64(Reg64::R8, (-1) as i64),
        AsmInst::MovRegImm64(Reg64::R9, 0),
        AsmInst::Syscall,
        AsmInst::CmpRegImm32(Reg64::Rax, 0),
        AsmInst::Jl(exit_one_label),
    ]
}

/// Emit the mapping of the new tape.
fn emit_map_new(out: &mut Vec<AsmInst>, exit_one_label: AsmLabel)
    ensures
        final(out)@ == old(out)@ + map_new_insts(exit_one_label),
{
    let mut chunk: Vec<AsmInst> = vec![
        AsmInst::MovRegImm64(Reg64::Rax, 9),
        AsmInst::MovRegImm64(Reg64::Rdi, 0),
        AsmInst::MovRegReg(Reg64::Rsi, Reg64::R11),
        AsmInst::MovRegImm64(Reg64::Rdx, 0x3),
        AsmInst::MovRegImm64(Reg64::R10, 0x22),
        AsmInst::MovRegImm64(Reg64::R8, -1),
        AsmInst::MovRegImm64(Reg64::R9, 0),
        AsmInst::Syscall,
        AsmInst::CmpRegImm32(Reg64::Rax, 0),
        AsmInst::Jl(exit_one_label),
    ];
    assert(chunk@ =~= map_new_insts(exit_one_label));
    out.append(&mut chunk);
}

/// Compute `r8` to `r11` again, which the system call has overwritten, and keep
/// the new tape's address in `rdx`.
pub open spec fn restore_lengths_insts() -> Seq<AsmInst> {
    seq![
        AsmInst::MovRegReg(Reg64::R10, Reg64::R14),
        AsmInst::SubRegReg(Reg64::R10, Reg64::R12),
        AsmInst::MovRegReg(Reg64::R9, Reg64::R15),
        AsmInst::SubRegReg(Reg64::R9, Reg64::R12),
        AsmInst::MovRegReg(Reg64::R11, Reg64::Rsi),
        AsmInst::MovRegReg(Reg64::R8, Reg64::R11),
        AsmInst::SubRegReg(Reg64::R8, Reg64::R10),
        AsmInst::ShrRegImm8(Reg64::R8, 1),
        AsmInst::MovRegReg(Reg64::Rdx, Reg64::Rax),
    ]
}

/// Emit the recomputation.
fn emit_restore_lengths(out: &mut Vec<AsmInst>)
    ensures
        final(out)@ == old(out)@ + restore_lengths_insts(),
{
    let mut chunk: Vec<AsmInst> = vec![
        AsmInst::MovRegReg(Reg64::R10, Reg64::R14),
        AsmInst::SubRegReg(Reg64::R10, Reg64::R12),
        AsmInst::MovRegReg(Reg64::R9, Reg64::R15),
        AsmInst::SubRegReg(Reg64::R9, Reg64::R12),
        AsmInst::MovRegReg(Reg64::R11, Reg64::Rsi),
        AsmInst::MovRegReg(Reg64::R8, Reg64::R11),
        AsmInst::SubRegReg(Reg64::R8, Reg64::R10),
        AsmInst::ShrRegImm8(Reg64::R8, 1),
        AsmInst::MovRegReg(Reg64::Rdx, Reg64::Rax),
    ];
    assert(chunk@ =~= restore_lengths_insts());
    out.append(&mut chunk);
}

/// Copy the old contents into the middle of the new tape and set its end.
pub open spec fn copy_old_insts() -> Seq<AsmInst> {
    seq![
        AsmInst::MovRegReg(Reg64::Rdi, Reg64::Rdx),
        AsmInst::AddRegReg(Reg64::Rdi, Reg64::R8),
        AsmInst::MovRegReg(Reg64::Rsi, Reg64::R12),
        AsmInst::MovRegReg(Reg64::Rcx, Reg64::R10),
        AsmInst::Cld,
        AsmInst::RepMovsb,
        AsmInst::MovRegReg(Reg64::R14, Reg64::Rdx),
        AsmInst::AddRegReg(Reg64::R14, Reg64::R11),
    ]
}

/// Emit the copy.
fn emit_copy_old(out: &mut Vec<AsmInst>)
    ensures
        final(out)@ == old(out)@ + copy_old_insts(),
{
    let mut chunk: Vec<AsmInst> = vec![
        AsmInst::MovRegReg(Reg64::Rdi, Reg64::Rdx),
        AsmInst::AddRegReg(Reg64::Rdi, Reg64::R8),
        AsmInst::MovRegReg(Reg64::Rsi, Reg64::R12),
        AsmInst::MovRegReg(Reg64::Rcx, Reg64::R10),
        AsmInst::Cld,
        AsmInst::RepMovsb,
        AsmInst::MovRegReg(Reg64::R14, Reg64::Rdx),
        AsmInst::AddRegReg(Reg64::R14, Reg64::R11),
    ];
    assert(chunk@ =~= copy_old_insts());
    out.append(&mut chunk);
}

/// Unmap the old tape; leave with status 1 where that fails.
pub open spec fn unmap_old_insts(exit_one_label: AsmLabel) -> Seq<AsmInst> {
    seq![
        AsmInst::MovRegImm64(Reg64::Rax, 11),
        AsmInst::MovRegReg(Reg64::Rdi, Reg64::R12),
        AsmInst::MovRegReg(Reg64::Rsi, Reg64::R10),
        AsmInst::Syscall,
        AsmInst::CmpRegImm32(Reg64::Rax, 0),
        AsmInst::Jl(exit_one_label),
    ]
}

/// Emit the release of the old tape.
fn emit_unmap_old(out: &mut Vec<AsmInst>, exit_one_label: AsmLabel)
    ensures
        final(out)@ == old(out)@ + unmap_old_insts(exit_one_label),
{
    let mut chunk: Vec<AsmInst> = vec![
        AsmInst::MovRegImm64(Reg64::Rax, 11),
        AsmInst::MovRegReg(Reg64::Rdi, Reg64::R12),
        AsmInst::MovRegReg(Reg64::Rsi, Reg64::R10),
        AsmInst::Syscall,
        AsmInst::CmpRegImm32(Reg64::Rax, 0),
        AsmInst::Jl(exit_one_label),
    ];
    assert(chunk@ =~= unmap_old_insts(exit_one_label));
    out.append(&mut chunk);
}

/// Point `r12` at the new tape and `r13` at the target, and return.
pub open spec fn adopt_new_insts() -> Seq<AsmInst> {
    seq![
        AsmInst::MovRegReg(Reg64::R12, Reg64::Rdx),
        AsmInst::MovRegReg(Reg64::R13, Reg64::Rdx),
        AsmInst::AddRegReg(Reg64::R13, Reg64::R8),
        AsmInst::AddRegReg(Reg64::R13, Reg64::R9),
        AsmInst::Ret,
    ]
}

/// Emit the switch to the new tape.
fn emit_adopt_new(out: &mut Vec<AsmInst>)
    ensures
        final(out)@ == old(out)@ + adopt_new_insts(),
{
    let mut chunk: Vec<AsmInst> = vec![
        AsmInst::MovRegReg(Reg64::R12, Reg64::Rdx),
        AsmInst::MovRegReg(Reg64::R13, Reg64::Rdx),
        AsmInst::AddRegReg(Reg64::R13, Reg64::R8),
        AsmInst::AddRegReg(Reg64::R13, Reg64::R9),
        AsmInst::Ret,
    ];
    assert(chunk@ =~= adopt_new_insts());
    out.append(&mut chunk);
}

/// The growth routine: double the tape length until `r15` has a place in a tape
/// that holds the old one in its middle, map it, copy the old contents, unmap
/// the old tape, and point `r12`, `r13` and `r14` into the new one.
pub open spec fn ensure_tape_insts(
    ensure_tape_label: AsmLabel,
    exit_one_label: AsmLabel,
) -> Seq<AsmInst> {
    let grow_loop = AsmLabel(GROW_LOOP_ID);
    grow_search_insts(ensure_tape_label, grow_loop) + map_new_insts(exit_one_label)
        + restore_lengths_insts() + copy_old_insts() + unmap_old_insts(exit_one_label)
        + adopt_new_insts()
}

/// Emit the growth routine.
fn emit_ensure_tape_contains_r15(
    out: &mut Vec<AsmInst>,
    ensure_tape_label: AsmLabel,
    exit_one_label: AsmLabel,
)
    ensures
        final(out)@ == old(out)@ + ensure_tape_insts(ensure_tape_label, exit_one_label),
{
    let grow_loop = AsmLabel(GROW_LOOP_ID);
    emit_grow_search(out, ensure_tape_label, grow_loop);
    emit_map_new(out, exit_one_label);
    emit_restore_lengths(out);
    emit_copy_old(out);
    emit_unmap_old(out, exit_one_label);
    emit_adopt_new(out);
    assert(out@ =~= old(out)@ + ensure_tape_insts(ensure_tape_label, exit_one_label));
}

/// The flush routine: write the buffered bytes to standard output and reset the
/// write pointer.
pub open spec fn flush_output_insts(label: AsmLabel) -> Seq<AsmInst> {
    seq![
        AsmInst::Label(label),
        AsmInst::LeaRegMem(Reg64::Rsi, Reg64::Rbp, (-4096) as i32),
        AsmInst::MovRegReg(Reg64::Rdx, Reg64::Rbx),
        AsmInst::SubRegReg(Reg64::Rdx, Reg64::Rsi),
        AsmInst::MovRegImm64(Reg64::Rax, 1),
        AsmInst::MovRegImm64(Reg64::Rdi, 1),
        AsmInst::Syscall,
        AsmInst::MovRegReg(Reg64::Rbx, Reg64::Rsi),
        AsmInst::Ret,
    ]
}

/// Emit the flush routine.
fn emit_flush_output(out: &mut Vec<AsmInst>, label: AsmLabel)
    ensures
        final(out)@ == old(out)@ + flush_output_insts(label),
{
    let mut chunk: Vec<AsmInst> = vec![
        AsmInst::Label(label),
        AsmInst::LeaRegMem(Reg64::Rsi, Reg64::Rbp, -4096),
        AsmInst::MovRegReg(Reg64::Rdx, Reg64::Rbx),
        AsmInst::SubRegReg(Reg64::Rdx, Reg64::Rsi),
        AsmInst::MovRegImm64(Reg64::Rax, 1),
        AsmInst::MovRegImm64(Reg64::Rdi, 1),
        AsmInst::Syscall,
        AsmInst::MovRegReg(Reg64::Rbx, Reg64::Rsi),
        AsmInst::Ret,
    ];
    assert(chunk@ =~= flush_output_insts(label));
    out.append(&mut chunk);
}

/// The failure exit: leave with status 1.
pub open spec fn exit_one_insts(label: AsmLabel) -> Seq<AsmInst> {
    seq![
        AsmInst::Label(label),
        AsmInst::MovRegImm64(Reg64::Rax, 60),
        AsmInst::MovRegImm64(Reg64::Rdi, 1),
        AsmInst::Syscall,
    ]
}

/// Emit the failure exit.
fn emit_exit_one(out: &mut Vec<AsmInst>, label: AsmLabel)
    ensures
        final(out)@ == old(out)@ + exit_one_insts(label),
{
    let mut chunk: Vec<AsmInst> = vec![
        AsmInst::Label(label),
        AsmInst::MovRegImm64(Reg64::Rax, 60),
        AsmInst::MovRegImm64(Reg64::Rdi, 1),
        AsmInst::Syscall,
    ];
    assert(chunk@ =~= exit_one_insts(label));
    out.append(&mut chunk);
}

/// Output and input through Linux system calls.
pub struct LinuxEmitter;

/// The labels of the Linux run-time routines.
pub open spec fn linux_routines() -> Routines {
    Routines {
        ensure_tape: AsmLabel(ENSURE_TAPE_ID),
        flush_output: AsmLabel(FLUSH_OUTPUT_ID),
        exit_one: AsmLabel(EXIT_ONE_ID),
    }
}

impl PlatformEmitter for LinuxEmitter {
    /// Append the cell to the output buffer; flush where it is full.
    open spec fn put_byte_insts(&self, next: int, flush_output: AsmLabel) -> Seq<AsmInst> {
        seq![
            AsmInst::MovAlMemR13,
            AsmInst::MovMemRbxAl,
            AsmInst::AddRegImm32(Reg64::Rbx, 1),
            AsmInst::CmpRegReg(Reg64::Rbx, Reg64::Rbp),
            AsmInst::Jnz(internal(next, 0)),
            AsmInst::Call(flush_output),
            AsmInst::Label(internal(next, 0)),
        ]
    }

    open spec fn put_byte_labels(&self) -> nat {
        1
    }

    /// Flush, then `read(0, r13, 1)`: a failure leaves with status 1, the end
    /// of the input stores 255.
    open spec fn get_byte_insts(
        &self,
        next: int,
        exit_one: AsmLabel,
        flush_output: AsmLabel,
    ) -> Seq<AsmInst> {
        seq![
            AsmInst::Call(flush_output),
            AsmInst::MovRegImm64(Reg64::Rax, 0),
            AsmInst::MovRegImm64(Reg64::Rdi, 0),
            AsmInst::MovRegReg(Reg64::Rsi, Reg64::R13),
            AsmInst::MovRegImm64(Reg64::Rdx, 1),
            AsmInst::Syscall,
            AsmInst::CmpRegImm32(Reg64::Rax, 0),
            AsmInst::Jl(exit_one),
            AsmInst::Jnz(internal(next, 0)),
            AsmInst::MovMem8Imm8(Reg64::R13, 255),
            AsmInst::Label(internal(next, 0)),
        ]
    }

    open spec fn get_byte_labels(&self) -> nat {
        1
    }

    open spec fn aligns_rsp(&self) -> bool {
        false
    }

    open spec fn aligns_loops(&self) -> bool {
        false
    }

    fn emit_put_byte(
        &self,
        out: &mut Vec<AsmInst>,
        labels: &mut LabelAllocator,
        flush_output_label: AsmLabel,
    ) {
        let skip = labels.fresh();
        let mut chunk: Vec<AsmInst> = vec![
            AsmInst::MovAlMemR13,
            AsmInst::MovMemRbxAl,
            AsmInst::AddRegImm32(Reg64::Rbx, 1),
            AsmInst::CmpRegReg(Reg64::Rbx, Reg64::Rbp),
            AsmInst::Jnz(skip),
            AsmInst::Call(flush_output_label),
            AsmInst::Label(skip),
        ];
        assert(chunk@ =~= self.put_byte_insts(old(labels).next(), flush_output_label));
        out.append(&mut chunk);
    }

    fn emit_get_byte(
        &self,
        out: &mut Vec<AsmInst>,
        labels: &mut LabelAllocator,
        exit_one_label: AsmLabel,
        flush_output_label: AsmLabel,
    ) {
        let done = labels.fresh();
        let mut chunk: Vec<AsmInst> = vec![
            AsmInst::Call(flush_output_label),
            AsmInst::MovRegImm64(Reg64::Rax, 0),
            AsmInst::MovRegImm64(Reg64::Rdi, 0),
            AsmInst::MovRegReg(Reg64::Rsi, Reg64::R13),
            AsmInst::MovRegImm64(Reg64::Rdx, 1),
            AsmInst::Syscall,
            AsmInst::CmpRegImm32(Reg64::Rax, 0),
            AsmInst::Jl(exit_one_label),
            AsmInst::Jnz(done),
            AsmInst::MovMem8Imm8(Reg64::R13, 255),
            AsmInst::Label(done),
        ];
        assert(chunk@ =~= self.get_byte_insts(
            old(labels).next(),
            exit_one_label,
            flush_output_label,
        ));
        out.append(&mut chunk);
    }

    fn needs_rsp_alignment(&self) -> (r: bool) {
        false
    }

    fn needs_loop_alignment(&self) -> (r: bool) {
        false
    }
}

/// Flush and leave with status 0.
pub open spec fn normal_exit_insts() -> Seq<AsmInst> {
    seq![
        AsmInst::Call(AsmLabel(FLUSH_OUTPUT_ID)),
        AsmInst::MovRegImm64(Reg64::Rax, 60),
        AsmInst::MovRegImm64(Reg64::Rdi, 0),
        AsmInst::Syscall,
    ]
}

fn emit_normal_exit(out: &mut Vec<AsmInst>)
    ensures
        final(out)@ == old(out)@ + normal_exit_insts(),
{
    let mut chunk: Vec<AsmInst> = vec![
        AsmInst::Call(AsmLabel(FLUSH_OUTPUT_ID)),
        AsmInst::MovRegImm64(Reg64::Rax, 60),
        AsmInst::MovRegImm64(Reg64::Rdi, 0),
        AsmInst::Syscall,
    ];
    assert(chunk@ =~= normal_exit_insts());
    out.append(&mut chunk);
}

/// The programs that the Linux back end translates.
pub open spec fn linux_ok(lir: LirProgram) -> bool {
    lir_ok(LinuxEmitter, lir.insts@, linux_routines(), INTERNAL_LABEL_BASE as int, 0)
}

/// The translated body of a program.
pub open spec fn linux_body(lir: LirProgram) -> Seq<AsmInst> {
    lir_body(
        LinuxEmitter,
        lir.insts@,
        linux_routines(),
        INTERNAL_LABEL_BASE as int,
        lir.insts@.len() as int,
    ).insts
}

/// The whole program: set-up, body, normal exit, routines.
pub open spec fn linux_insts(lir: LirProgram) -> Seq<AsmInst> {
    init_tape_insts(AsmLabel(EXIT_ONE_ID)) + init_output_insts(AsmLabel(EXIT_ONE_ID)) + linux_body(
        lir,
    ) + normal_exit_insts() + ensure_tape_insts(AsmLabel(ENSURE_TAPE_ID), AsmLabel(EXIT_ONE_ID))
        + flush_output_insts(AsmLabel(FLUSH_OUTPUT_ID)) + exit_one_insts(AsmLabel(EXIT_ONE_ID))
}

/// Compile a LIR program into an x86_64 assembly program for Linux.
pub fn compile_lir_to_asm(lir: &LirProgram) -> (r: AsmProgram)
    requires
        linux_ok(*lir),
    ensures
        r.insts@ == linux_insts(*lir),
{
    let exit_one = AsmLabel(EXIT_ONE_ID);
    let ensure_tape = AsmLabel(ENSURE_TAPE_ID);
    let flush_output = AsmLabel(FLUSH_OUTPUT_ID);
    let routines = Routines { ensure_tape, flush_output, exit_one };
    let mut labels = LabelAllocator::new(INTERNAL_LABEL_BASE, 0);
    let mut out: Vec<AsmInst> = Vec::new();
    emit_init_tape(&mut out, exit_one);
    emit_init_output_buffer(&mut out, exit_one);
    emit_lir_body(&mut out, &mut labels, lir, routines, &LinuxEmitter);
    emit_normal_exit(&mut out);
    emit_ensure_tape_contains_r15(&mut out, ensure_tape, exit_one);
    emit_flush_output(&mut out, flush_output);
    emit_exit_one(&mut out, exit_one);
    assert(out@ =~= linux_insts(*lir));
    AsmProgram { insts: out }
}

/// The program that only leaves with status 0.
pub open spec fn trivial_exit_insts() -> Seq<AsmInst> {
    seq![
        AsmInst::MovRegImm64(Reg64::Rax, 60),
        AsmInst::MovRegImm64(Reg64::Rdi, 0),
        AsmInst::Syscall,
    ]
}

/// Minimal program: just `exit(0)`. For sources that write nothing.
pub fn compile_trivial_exit_asm() -> (r: AsmProgram)
    ensures
        r.insts@ == trivial_exit_insts(),
{
    let insts: Vec<AsmInst> = vec![
        AsmInst::MovRegImm64(Reg64::Rax, 60),
        AsmInst::MovRegImm64(Reg64::Rdi, 0),
        AsmInst::Syscall,
    ];
    assert(insts@ =~= trivial_exit_insts());
    AsmProgram { insts }
}

/// The stack space for `n` bytes: `n` rounded up to a multiple of sixteen.
pub open spec fn stack_space(n: int) -> int {
    (n + 15) / 16 * 16
}

/// `mov r64, imm64` for the register of number `reg`, below 8.
pub open spec fn mov_imm64_bytes(reg: int, imm: i64) -> Seq<u8> {
    seq![0x48u8, (0xb8 + reg) as u8] + le64(imm as u64)
}

/// `sub rsp, imm` (`op` 0xec) or `add rsp, imm` (`op` 0xc4).
pub open spec fn rsp_imm_bytes(op: u8, imm: int) -> Seq<u8> {
    if imm <= 127 {
        seq![0x48u8, 0x83, op, imm as u8]
    } else {
        seq![0x48u8, 0x81, op] + le32(imm as u32)
    }
}

/// `mov byte [rsp + offset], val`.
pub open spec fn store_byte_bytes(offset: int, val: u8) -> Seq<u8> {
    if offset <= 127 {
        seq![0xc6u8, 0x44, 0x24, offset as u8, val]
    } else {
        seq![0x48u8, 0xc6, 0x84, 0x24] + le32(offset as u32) + seq![val]
    }
}

/// The stores of the first `k` bytes.
pub open spec fn store_bytes(data: Seq<u8>, k: int) -> Seq<u8>
    decreases k,
{
    if k <= 0 {
        Seq::empty()
    } else {
        store_bytes(data, k - 1) + store_byte_bytes(k - 1, data[k - 1])
    }
}

/// Machine code for `write(1, data, n); exit(0)`, the data on the stack.
pub open spec fn precomputed_code(data: Seq<u8>) -> Seq<u8> {
    let n = data.len() as int;
    rsp_imm_bytes(0xec, stack_space(n)) + store_bytes(data, n) + mov_imm64_bytes(0, 1)
        + mov_imm64_bytes(7, 1) + seq![0x48u8, 0x89, 0xe6] + mov_imm64_bytes(2, n as i64) + seq![
        0x0fu8,
        0x05,
    ] + rsp_imm_bytes(0xc4, stack_space(n)) + mov_imm64_bytes(0, 60) + mov_imm64_bytes(7, 0)
        + seq![0x0fu8, 0x05]
}

fn emit_mov_reg_imm64_low3(code: &mut Vec<u8>, reg_low3: u8, imm: i64)
    requires
        reg_low3 < 8,
    ensures
        final(code)@ == old(code)@ + mov_imm64_bytes(reg_low3 as int, imm),
{
    code.push(0x48);
    code.push(0xb8 + reg_low3);
    push_le64(code, imm as u64);
    assert(code@ =~= old(code)@ + mov_imm64_bytes(reg_low3 as int, imm));
}

fn emit_rsp_imm32(code: &mut Vec<u8>, op: u8, imm: u32)
    ensures
        final(code)@ == old(code)@ + rsp_imm_bytes(op, imm as int),
{
    code.push(0x48);
    if imm <= 127 {
        code.push(0x83);
        code.push(op);
        code.push(imm as u8);
    } else {
        code.push(0x81);
        code.push(op);
        push_le32(code, imm);
    }
    assert(code@ =~= old(code)@ + rsp_imm_bytes(op, imm as int));
}

/// Emit `sub rsp, imm`.
fn emit_sub_rsp_imm32(code: &mut Vec<u8>, imm: u32)
    ensures
        final(code)@ == old(code)@ + rsp_imm_bytes(0xec, imm as int),
{
    emit_rsp_imm32(code, 0xec, imm);
}

/// Emit `add rsp, imm`.
fn emit_add_rsp_imm32(code: &mut Vec<u8>, imm: u32)
    ensures
        final(code)@ == old(code)@ + rsp_imm_bytes(0xc4, imm as int),
{
    emit_rsp_imm32(code, 0xc4, imm);
}

/// Emit `mov byte [rsp + offset], val`.
fn emit_mov_byte_rsp_offset(code: &mut Vec<u8>, offset: u32, val: u8)
    ensures
        final(code)@ == old(code)@ + store_byte_bytes(offset as int, val),
{
    if offset <= 127 {
        code.push(0xc6);
        code.push(0x44);
        code.push(0x24);
        code.push(offset as u8);
        code.push(val);
    } else {
        code.push(0x48);
        code.push(0xc6);
        code.push(0x84);
        code.push(0x24);
        push_le32(code, offset);
        code.push(val);
    }
    assert(code@ =~= old(code)@ + store_byte_bytes(offset as int, val));
}

/// Build the machine code that writes `data` and exits.
fn build_precomputed_stdout_machine_code(data: &[u8]) -> (code: Vec<u8>)
    requires
        data@.len() + 15 <= i32::MAX,
    ensures
        code@ == precomputed_code(data@),
{
    let n: usize = data.len();
    let space: u32 = (n as u32 + 15) / 16 * 16;
    let mut code: Vec<u8> = Vec::new();
    emit_sub_rsp_imm32(&mut code, space);
    let ghost prologue = code@;
    let mut i: usize = 0;
    assert(code@ =~= prologue + store_bytes(data@, 0));
    while i < n
        invariant
            i <= n == data@.len(),
            n + 15 <= i32::MAX,
            code@ == prologue + store_bytes(data@, i as int),
        decreases n - i,
    {
        emit_mov_byte_rsp_offset(&mut code, i as u32, data[i]);
        i += 1;
        assert(code@ =~= prologue + store_bytes(data@, i as int));
    }
    emit_mov_reg_imm64_low3(&mut code, 0, 1);
    emit_mov_reg_imm64_low3(&mut code, 7, 1);
    code.push(0x48);
    code.push(0x89);
    code.push(0xe6);
    emit_mov_reg_imm64_low3(&mut code, 2, n as i64);
    code.push(0x0f);
    code.push(0x05);
    emit_add_rsp_imm32(&mut code, space);
    emit_mov_reg_imm64_low3(&mut code, 0, 60);
    emit_mov_reg_imm64_low3(&mut code, 7, 0);
    code.push(0x0f);
    code.push(0x05);
    assert(prologue =~= rsp_imm_bytes(0xec, stack_space(n as int)));
    assert(code@ =~= precomputed_code(data@));
    code
}

/// `write(1, data, n); exit(0)` as one block of machine code; just the exit
/// for empty `data`.
pub fn compile_precomputed_stdout_asm(data: &[u8]) -> (r: AsmProgram)
    requires
        data@.len() + 15 <= i32::MAX,
    ensures
        data@.len() == 0 ==> r.insts@ == trivial_exit_insts(),
        data@.len() > 0 ==> r.insts@.len() == 1 && r.insts@[0] is RawBytes
            && r.insts@[0]->RawBytes_0@ == precomputed_code(data@),
{
    if data.len() == 0 {
        return compile_trivial_exit_asm();
    }
    let code = build_precomputed_stdout_machine_code(data);
    let mut insts: Vec<AsmInst> = Vec::new();
    insts.push(AsmInst::RawBytes(code));
    AsmProgram { insts }
}

} // verus!
