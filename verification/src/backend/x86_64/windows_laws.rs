//! Programs of the Windows back end can be packaged.

use vstd::prelude::*;

use crate::backend::asm_ir::{raw, same_inst, same_insts, AsmInst, AsmLabel, Reg64};
use crate::backend::codegen_common::{
    internal, lemma_body_takes_labels, lir_body, PlatformEmitter,
};
use crate::backend::codegen_laws::{
    lemma_body_is_labelled, lemma_fair_concat, lemma_plain_concat, lemma_wrap, platform_labelled,
    user_labels_ok,
};
use crate::backend::labels::{
    fair, labels_in, lemma_label_positions, lemma_labels_concat, lemma_labels_empty,
    lemma_labels_push, lemma_listed_is_bound, lemma_target_listed, lemma_targets_push, lemma_unique,
    plain, targets_in, well_labelled,
};
use crate::backend::x86_64::encode::{
    displacement, displacements_fit, encodable, inst_len, label_field, labels_bound, labels_of,
    labels_unique, lemma_offset_monotone, offset_of, operands_encodable,
};
use crate::backend::x86_64::pe::pe_size_ok;
use crate::backend::x86_64::ready::all_operands_encodable;
use crate::backend::x86_64::relax::{
    is_long_jump, label_index, law_relaxation_keeps_encodable, law_relaxation_only_narrows,
    lemma_label_index, relaxed, short_form, unaligned,
};
use crate::backend::x86_64::windows::{
    adopt_new_insts, alloc_new_insts, body_next, copy_old_insts, describes_table, dll_name_bytes,
    ensure_tape_insts, entry_insts, epilogue_insts, exit_process_insts, flush_output_insts,
    free_old_insts, full_imports, full_table_next, grow_search_insts, hint_insts, hint_label,
    hint_name_bytes, iat_insts, iat_label_of, ilt_insts, ilt_label_of, import_table_insts,
    init_output_insts, init_tape_insts, precomputed_insts, restore_lengths_insts,
    same_tables, save_scratch_insts, setup_insts, std_handle_insts, stdout_code_insts, stdout_imports,
    table_labels, trivial_exit_insts, windows_body, windows_emitter, windows_insts, windows_ok,
    windows_routines, zero_slot_insts, zeros, Kernel32Import, WindowsProgram,
    CALLEE_STACK_FRAME_BYTES, ERROR_BROKEN_PIPE, ERROR_HANDLE_EOF, INITIAL_TAPE_SIZE,
    IO_COUNT_SLOT_DISP, LABEL_BASE, MEM_COMMIT_RESERVE, MEM_RELEASE, OUTPUT_BUFFER_SIZE,
    OVERLAPPED_SLOT_DISP, PAGE_READWRITE, STACK_SAVED_COPY_START, STACK_SAVED_DESIRED_OFFSET,
    STACK_SAVED_NEW_BASE, STACK_SAVED_NEW_LEN, STACK_SAVED_RDI, STACK_SAVED_RSI, STD_INPUT_HANDLE,
    STD_OUTPUT_HANDLE,
};
use crate::backend::x86_64::{has_room, packageable};
use crate::ir::lir::LirProgram;

verus! {

proof fn lemma_entry_insts(entry_label: AsmLabel)
    ensures
        plain(entry_insts(entry_label)),
        labels_in(entry_insts(entry_label)) == seq![entry_label.0],
        targets_in(entry_insts(entry_label)) == Seq::<u32>::empty(),
{
    broadcast use {lemma_labels_push, lemma_targets_push, lemma_labels_empty};

    let insts = entry_insts(entry_label);
    assert(insts =~= Seq::<AsmInst>::empty()
        .push(AsmInst::Label(entry_label))
        .push(AsmInst::AndRegImm32(Reg64::Rsp, (-16) as i32))
        .push(AsmInst::AddRegImm32(Reg64::Rsp, (-48) as i32)));
    assert(labels_in(insts) =~= seq![entry_label.0]);
    assert(targets_in(insts) =~= Seq::<u32>::empty());
}

proof fn lemma_zero_slot_insts(disp: i32)
    ensures
        plain(zero_slot_insts(disp)),
        labels_in(zero_slot_insts(disp)) == Seq::<u32>::empty(),
        targets_in(zero_slot_insts(disp)) == Seq::<u32>::empty(),
{
    broadcast use {lemma_labels_push, lemma_targets_push, lemma_labels_empty};

    let insts = zero_slot_insts(disp);
    assert(insts =~= Seq::<AsmInst>::empty()
        .push(AsmInst::MovRegImm64(Reg64::Rax, 0))
        .push(AsmInst::MovMemReg64(Reg64::Rsp, disp, Reg64::Rax)));
    assert(labels_in(insts) =~= Seq::<u32>::empty());
    assert(targets_in(insts) =~= Seq::<u32>::empty());
}

proof fn lemma_std_handle_insts(get_std_handle_iat: AsmLabel, which: i64, dst: Reg64, exit_one_label: AsmLabel)
    ensures
        plain(std_handle_insts(get_std_handle_iat, which, dst, exit_one_label)),
        labels_in(std_handle_insts(get_std_handle_iat, which, dst, exit_one_label)) == Seq::<u32>::empty(),
        targets_in(std_handle_insts(get_std_handle_iat, which, dst, exit_one_label)) == seq![get_std_handle_iat.0, exit_one_label.0],
{
    broadcast use {lemma_labels_push, lemma_targets_push, lemma_labels_empty};

    let insts = std_handle_insts(get_std_handle_iat, which, dst, exit_one_label);
    assert(insts =~= Seq::<AsmInst>::empty()
        .push(AsmInst::MovRegImm64(Reg64::Rcx, which))
        .push(AsmInst::CallMemLabel(get_std_handle_iat))
        .push(AsmInst::CmpRegImm32(Reg64::Rax, (-1) as i32))
        .push(AsmInst::Jz(exit_one_label))
        .push(AsmInst::MovRegReg(dst, Reg64::Rax)));
    assert(labels_in(insts) =~= Seq::<u32>::empty());
    assert(targets_in(insts) =~= seq![get_std_handle_iat.0, exit_one_label.0]);
}

proof fn lemma_init_tape_insts(virtual_alloc_iat: AsmLabel, exit_one_label: AsmLabel)
    ensures
        plain(init_tape_insts(virtual_alloc_iat, exit_one_label)),
        labels_in(init_tape_insts(virtual_alloc_iat, exit_one_label)) == Seq::<u32>::empty(),
        targets_in(init_tape_insts(virtual_alloc_iat, exit_one_label)) == seq![virtual_alloc_iat.0, exit_one_label.0],
{
    broadcast use {lemma_labels_push, lemma_targets_push, lemma_labels_empty};

    let insts = init_tape_insts(virtual_alloc_iat, exit_one_label);
    assert(insts =~= Seq::<AsmInst>::empty()
        .push(AsmInst::MovRegImm64(Reg64::Rcx, 0))
        .push(AsmInst::MovRegImm64(Reg64::Rdx, INITIAL_TAPE_SIZE))
        .push(AsmInst::MovRegImm64(Reg64::R8, MEM_COMMIT_RESERVE))
        .push(AsmInst::MovRegImm64(Reg64::R9, PAGE_READWRITE))
        .push(AsmInst::CallMemLabel(virtual_alloc_iat))
        .push(AsmInst::CmpRegImm32(Reg64::Rax, 0))
        .push(AsmInst::Jz(exit_one_label))
        .push(AsmInst::MovRegReg(Reg64::R12, Reg64::Rax))
        .push(AsmInst::MovRegReg(Reg64::R13, Reg64::Rax))
        .push(AsmInst::AddRegImm32(Reg64::R13, 2048))
        .push(AsmInst::MovRegReg(Reg64::R14, Reg64::Rax))
        .push(AsmInst::AddRegImm32(Reg64::R14, 4096)));
    assert(labels_in(insts) =~= Seq::<u32>::empty());
    assert(targets_in(insts) =~= seq![virtual_alloc_iat.0, exit_one_label.0]);
}

proof fn lemma_init_output_insts(virtual_alloc_iat: AsmLabel, exit_one_label: AsmLabel)
    ensures
        plain(init_output_insts(virtual_alloc_iat, exit_one_label)),
        labels_in(init_output_insts(virtual_alloc_iat, exit_one_label)) == Seq::<u32>::empty(),
        targets_in(init_output_insts(virtual_alloc_iat, exit_one_label)) == seq![virtual_alloc_iat.0, exit_one_label.0],
{
    broadcast use {lemma_labels_push, lemma_targets_push, lemma_labels_empty};

    let insts = init_output_insts(virtual_alloc_iat, exit_one_label);
    assert(insts =~= Seq::<AsmInst>::empty()
        .push(AsmInst::MovRegImm64(Reg64::Rcx, 0))
        .push(AsmInst::MovRegImm64(Reg64::Rdx, OUTPUT_BUFFER_SIZE))
        .push(AsmInst::MovRegImm64(Reg64::R8, MEM_COMMIT_RESERVE))
        .push(AsmInst::MovRegImm64(Reg64::R9, PAGE_READWRITE))
        .push(AsmInst::CallMemLabel(virtual_alloc_iat))
        .push(AsmInst::CmpRegImm32(Reg64::Rax, 0))
        .push(AsmInst::Jz(exit_one_label))
        .push(AsmInst::MovRegReg(Reg64::Rbx, Reg64::Rax))
        .push(AsmInst::MovRegReg(Reg64::Rbp, Reg64::Rax))
        .push(AsmInst::AddRegImm32(Reg64::Rbp, 4096)));
    assert(labels_in(insts) =~= Seq::<u32>::empty());
    assert(targets_in(insts) =~= seq![virtual_alloc_iat.0, exit_one_label.0]);
}

proof fn lemma_flush_output_insts(label: AsmLabel, write_file_iat: AsmLabel)
    ensures
        plain(flush_output_insts(label, write_file_iat)),
        labels_in(flush_output_insts(label, write_file_iat)) == seq![label.0],
        targets_in(flush_output_insts(label, write_file_iat)) == seq![write_file_iat.0],
{
    broadcast use {lemma_labels_push, lemma_targets_push, lemma_labels_empty};

    let insts = flush_output_insts(label, write_file_iat);
    assert(insts =~= Seq::<AsmInst>::empty()
        .push(AsmInst::Label(label))
        .push(AsmInst::AddRegImm32(Reg64::Rsp, (-88) as i32))
        .push(AsmInst::MovRegImm64(Reg64::Rax, 0))
        .push(AsmInst::MovMemReg64(Reg64::Rsp, OVERLAPPED_SLOT_DISP, Reg64::Rax))
        .push(AsmInst::MovRegImm64(Reg64::Rax, 0))
        .push(AsmInst::MovMemReg64(Reg64::Rsp, IO_COUNT_SLOT_DISP, Reg64::Rax))
        .push(AsmInst::MovRegReg(Reg64::Rcx, Reg64::Rdi))
        .push(AsmInst::LeaRegMem(Reg64::Rdx, Reg64::Rbp, (-4096) as i32))
        .push(AsmInst::MovRegReg(Reg64::R8, Reg64::Rbx))
        .push(AsmInst::SubRegReg(Reg64::R8, Reg64::Rdx))
        .push(AsmInst::LeaRegMem(Reg64::R9, Reg64::Rsp, IO_COUNT_SLOT_DISP))
        .push(AsmInst::CallMemLabel(write_file_iat))
        .push(AsmInst::LeaRegMem(Reg64::Rbx, Reg64::Rbp, (-4096) as i32))
        .push(AsmInst::AddRegImm32(Reg64::Rsp, CALLEE_STACK_FRAME_BYTES))
        .push(AsmInst::Ret));
    assert(labels_in(insts) =~= seq![label.0]);
    assert(targets_in(insts) =~= seq![write_file_iat.0]);
}

proof fn lemma_exit_process_insts(exit_process_iat: AsmLabel, code: i64)
    ensures
        plain(exit_process_insts(exit_process_iat, code)),
        labels_in(exit_process_insts(exit_process_iat, code)) == Seq::<u32>::empty(),
        targets_in(exit_process_insts(exit_process_iat, code)) == seq![exit_process_iat.0],
{
    broadcast use {lemma_labels_push, lemma_targets_push, lemma_labels_empty};

    let insts = exit_process_insts(exit_process_iat, code);
    assert(insts =~= Seq::<AsmInst>::empty()
        .push(AsmInst::MovRegImm64(Reg64::Rcx, code))
        .push(AsmInst::CallMemLabel(exit_process_iat)));
    assert(labels_in(insts) =~= Seq::<u32>::empty());
    assert(targets_in(insts) =~= seq![exit_process_iat.0]);
}

proof fn lemma_grow_search_insts(ensure_tape_label: AsmLabel, grow_loop: AsmLabel)
    ensures
        plain(grow_search_insts(ensure_tape_label, grow_loop)),
        labels_in(grow_search_insts(ensure_tape_label, grow_loop)) == seq![ensure_tape_label.0, grow_loop.0],
        targets_in(grow_search_insts(ensure_tape_label, grow_loop)) == seq![grow_loop.0, grow_loop.0],
{
    broadcast use {lemma_labels_push, lemma_targets_push, lemma_labels_empty};

    let insts = grow_search_insts(ensure_tape_label, grow_loop);
    assert(insts =~= Seq::<AsmInst>::empty()
        .push(AsmInst::Label(ensure_tape_label))
        .push(AsmInst::AddRegImm32(Reg64::Rsp, (-88) as i32))
        .push(AsmInst::MovMemReg64(Reg64::Rsp, STACK_SAVED_RDI, Reg64::Rdi))
        .push(AsmInst::MovMemReg64(Reg64::Rsp, STACK_SAVED_RSI, Reg64::Rsi))
        .push(AsmInst::MovRegReg(Reg64::R10, Reg64::R14))
        .push(AsmInst::SubRegReg(Reg64::R10, Reg64::R12))
        .push(AsmInst::MovRegReg(Reg64::R9, Reg64::R15))
        .push(AsmInst::SubRegReg(Reg64::R9, Reg64::R12))
        .push(AsmInst::MovRegReg(Reg64::R11, Reg64::R10))
        .push(AsmInst::Label(grow_loop))
        .push(AsmInst::AddRegReg(Reg64::R11, Reg64::R11))
        .push(AsmInst::MovRegReg(Reg64::R8, Reg64::R11))
        .push(AsmInst::SubRegReg(Reg64::R8, Reg64::R10))
        .push(AsmInst::ShrRegImm8(Reg64::R8, 1))
        .push(AsmInst::MovRegReg(Reg64::Rax, Reg64::R8))
        .push(AsmInst::AddRegReg(Reg64::Rax, Reg64::R9))
        .push(AsmInst::CmpRegImm32(Reg64::Rax, 0))
        .push(AsmInst::Jl(grow_loop))
        .push(AsmInst::CmpRegReg(Reg64::Rax, Reg64::R11))
        .push(AsmInst::Jge(grow_loop)));
    assert(labels_in(insts) =~= seq![ensure_tape_label.0, grow_loop.0]);
    assert(targets_in(insts) =~= seq![grow_loop.0, grow_loop.0]);
}

proof fn lemma_alloc_new_insts(exit_one_label: AsmLabel, virtual_alloc_iat: AsmLabel)
    ensures
        plain(alloc_new_insts(exit_one_label, virtual_alloc_iat)),
        labels_in(alloc_new_insts(exit_one_label, virtual_alloc_iat)) == Seq::<u32>::empty(),
        targets_in(alloc_new_insts(exit_one_label, virtual_alloc_iat)) == seq![virtual_alloc_iat.0, exit_one_label.0],
{
    broadcast use {lemma_labels_push, lemma_targets_push, lemma_labels_empty};

    let insts = alloc_new_insts(exit_one_label, virtual_alloc_iat);
    assert(insts =~= Seq::<AsmInst>::empty()
        .push(AsmInst::MovMemReg64(Reg64::Rsp, STACK_SAVED_NEW_LEN, Reg64::R11))
        .push(AsmInst::MovRegImm64(Reg64::Rcx, 0))
        .push(AsmInst::MovRegReg(Reg64::Rdx, Reg64::R11))
        .push(AsmInst::MovRegImm64(Reg64::R8, MEM_COMMIT_RESERVE))
        .push(AsmInst::MovRegImm64(Reg64::R9, PAGE_READWRITE))
        .push(AsmInst::CallMemLabel(virtual_alloc_iat))
        .push(AsmInst::CmpRegImm32(Reg64::Rax, 0))
        .push(AsmInst::Jz(exit_one_label)));
    assert(labels_in(insts) =~= Seq::<u32>::empty());
    assert(targets_in(insts) =~= seq![virtual_alloc_iat.0, exit_one_label.0]);
}

proof fn lemma_restore_lengths_insts()
    ensures
        plain(restore_lengths_insts()),
        labels_in(restore_lengths_insts()) == Seq::<u32>::empty(),
        targets_in(restore_lengths_insts()) == Seq::<u32>::empty(),
{
    broadcast use {lemma_labels_push, lemma_targets_push, lemma_labels_empty};

    let insts = restore_lengths_insts();
    assert(insts =~= Seq::<AsmInst>::empty()
        .push(AsmInst::MovRegReg(Reg64::R10, Reg64::R14))
        .push(AsmInst::SubRegReg(Reg64::R10, Reg64::R12))
        .push(AsmInst::MovRegReg(Reg64::R9, Reg64::R15))
        .push(AsmInst::SubRegReg(Reg64::R9, Reg64::R12))
        .push(AsmInst::MovRegMem64(Reg64::R11, Reg64::Rsp, STACK_SAVED_NEW_LEN))
        .push(AsmInst::MovRegReg(Reg64::R8, Reg64::R11))
        .push(AsmInst::SubRegReg(Reg64::R8, Reg64::R10))
        .push(AsmInst::ShrRegImm8(Reg64::R8, 1))
        .push(AsmInst::MovRegReg(Reg64::Rdx, Reg64::Rax)));
    assert(labels_in(insts) =~= Seq::<u32>::empty());
    assert(targets_in(insts) =~= Seq::<u32>::empty());
}

proof fn lemma_copy_old_insts()
    ensures
        plain(copy_old_insts()),
        labels_in(copy_old_insts()) == Seq::<u32>::empty(),
        targets_in(copy_old_insts()) == Seq::<u32>::empty(),
{
    broadcast use {lemma_labels_push, lemma_targets_push, lemma_labels_empty};

    let insts = copy_old_insts();
    assert(insts =~= Seq::<AsmInst>::empty()
        .push(AsmInst::MovRegReg(Reg64::Rdi, Reg64::Rdx))
        .push(AsmInst::AddRegReg(Reg64::Rdi, Reg64::R8))
        .push(AsmInst::MovRegReg(Reg64::Rsi, Reg64::R12))
        .push(AsmInst::MovRegReg(Reg64::Rcx, Reg64::R10))
        .push(AsmInst::Cld)
        .push(AsmInst::RepMovsb));
    assert(labels_in(insts) =~= Seq::<u32>::empty());
    assert(targets_in(insts) =~= Seq::<u32>::empty());
}

proof fn lemma_save_scratch_insts()
    ensures
        plain(save_scratch_insts()),
        labels_in(save_scratch_insts()) == Seq::<u32>::empty(),
        targets_in(save_scratch_insts()) == Seq::<u32>::empty(),
{
    broadcast use {lemma_labels_push, lemma_targets_push, lemma_labels_empty};

    let insts = save_scratch_insts();
    assert(insts =~= Seq::<AsmInst>::empty()
        .push(AsmInst::MovMemReg64(Reg64::Rsp, STACK_SAVED_NEW_BASE, Reg64::Rdx))
        .push(AsmInst::MovMemReg64(Reg64::Rsp, STACK_SAVED_COPY_START, Reg64::R8))
        .push(AsmInst::MovMemReg64(Reg64::Rsp, STACK_SAVED_NEW_LEN, Reg64::R11))
        .push(AsmInst::MovMemReg64(Reg64::Rsp, STACK_SAVED_DESIRED_OFFSET, Reg64::R9)));
    assert(labels_in(insts) =~= Seq::<u32>::empty());
    assert(targets_in(insts) =~= Seq::<u32>::empty());
}

proof fn lemma_free_old_insts(exit_one_label: AsmLabel, virtual_free_iat: AsmLabel)
    ensures
        plain(free_old_insts(exit_one_label, virtual_free_iat)),
        labels_in(free_old_insts(exit_one_label, virtual_free_iat)) == Seq::<u32>::empty(),
        targets_in(free_old_insts(exit_one_label, virtual_free_iat)) == seq![virtual_free_iat.0, exit_one_label.0],
{
    broadcast use {lemma_labels_push, lemma_targets_push, lemma_labels_empty};

    let insts = free_old_insts(exit_one_label, virtual_free_iat);
    assert(insts =~= Seq::<AsmInst>::empty()
        .push(AsmInst::MovRegReg(Reg64::Rcx, Reg64::R12))
        .push(AsmInst::MovRegImm64(Reg64::Rdx, 0))
        .push(AsmInst::MovRegImm64(Reg64::R8, MEM_RELEASE))
        .push(AsmInst::CallMemLabel(virtual_free_iat))
        .push(AsmInst::CmpRegImm32(Reg64::Rax, 0))
        .push(AsmInst::Jz(exit_one_label)));
    assert(labels_in(insts) =~= Seq::<u32>::empty());
    assert(targets_in(insts) =~= seq![virtual_free_iat.0, exit_one_label.0]);
}

proof fn lemma_adopt_new_insts()
    ensures
        plain(adopt_new_insts()),
        labels_in(adopt_new_insts()) == Seq::<u32>::empty(),
        targets_in(adopt_new_insts()) == Seq::<u32>::empty(),
{
    broadcast use {lemma_labels_push, lemma_targets_push, lemma_labels_empty};

    let insts = adopt_new_insts();
    assert(insts =~= Seq::<AsmInst>::empty()
        .push(AsmInst::MovRegMem64(Reg64::Rdx, Reg64::Rsp, STACK_SAVED_NEW_BASE))
        .push(AsmInst::MovRegMem64(Reg64::R8, Reg64::Rsp, STACK_SAVED_COPY_START))
        .push(AsmInst::MovRegMem64(Reg64::R11, Reg64::Rsp, STACK_SAVED_NEW_LEN))
        .push(AsmInst::MovRegMem64(Reg64::R9, Reg64::Rsp, STACK_SAVED_DESIRED_OFFSET))
        .push(AsmInst::MovRegReg(Reg64::R12, Reg64::Rdx))
        .push(AsmInst::MovRegReg(Reg64::R13, Reg64::Rdx))
        .push(AsmInst::AddRegReg(Reg64::R13, Reg64::R8))
        .push(AsmInst::AddRegReg(Reg64::R13, Reg64::R9))
        .push(AsmInst::MovRegReg(Reg64::R14, Reg64::Rdx))
        .push(AsmInst::AddRegReg(Reg64::R14, Reg64::R11))
        .push(AsmInst::MovRegMem64(Reg64::Rdi, Reg64::Rsp, STACK_SAVED_RDI))
        .push(AsmInst::MovRegMem64(Reg64::Rsi, Reg64::Rsp, STACK_SAVED_RSI))
        .push(AsmInst::AddRegImm32(Reg64::Rsp, CALLEE_STACK_FRAME_BYTES))
        .push(AsmInst::Ret));
    assert(labels_in(insts) =~= Seq::<u32>::empty());
    assert(targets_in(insts) =~= Seq::<u32>::empty());
}

/// One slot of a table: a label and a block of raw code.
proof fn lemma_slot(label: AsmLabel, bytes: Seq<u8>)
    ensures
        plain(seq![AsmInst::Label(label), raw(bytes)]),
        labels_in(seq![AsmInst::Label(label), raw(bytes)]) == seq![label.0],
        targets_in(seq![AsmInst::Label(label), raw(bytes)]) == Seq::<u32>::empty(),
{
    broadcast use {lemma_labels_push, lemma_targets_push, lemma_labels_empty};

    let code = seq![AsmInst::Label(label), raw(bytes)];
    assert(code =~= Seq::<AsmInst>::empty().push(AsmInst::Label(label)).push(raw(bytes)));
    assert(labels_in(code) =~= seq![label.0]);
    assert(targets_in(code) =~= Seq::<u32>::empty());
}

/// What the slots of a table hold: a label and a block each.
spec fn slots(code: Seq<AsmInst>, k: int, label: spec_fn(int) -> AsmLabel) -> bool {
    &&& code.len() == 2 * k
    &&& plain(code)
    &&& labels_in(code) == Seq::new(k as nat, |i: int| label(i).0)
    &&& targets_in(code) == Seq::<u32>::empty()
    &&& forall|i: int| 0 <= i < k ==> code[2 * i] == AsmInst::Label(#[trigger] label(i))
}

/// One more slot.
proof fn lemma_more_slots(
    code: Seq<AsmInst>,
    k: int,
    label: spec_fn(int) -> AsmLabel,
    bytes: Seq<u8>,
)
    requires
        k >= 0,
        slots(code, k, label),
    ensures
        slots(code + seq![AsmInst::Label(label(k)), raw(bytes)], k + 1, label),
{
    let one = seq![AsmInst::Label(label(k)), raw(bytes)];
    lemma_slot(label(k), bytes);
    lemma_plain_concat(code, one);
    lemma_labels_concat(code, one);
    let all = code + one;
    assert(labels_in(all) =~= Seq::new((k + 1) as nat, |i: int| label(i).0));
    assert(targets_in(all) =~= Seq::<u32>::empty());
    assert forall|i: int| 0 <= i < k + 1 implies all[2 * i] == AsmInst::Label(
        #[trigger] label(i),
    ) by {
        if i < k {
            assert(all[2 * i] == code[2 * i]);
        }
    }
}

/// No slots.
proof fn lemma_no_slots(label: spec_fn(int) -> AsmLabel)
    ensures
        slots(Seq::<AsmInst>::empty(), 0, label),
{
    broadcast use lemma_labels_empty;

    assert(labels_in(Seq::<AsmInst>::empty()) =~= Seq::new(0, |i: int| label(i).0));
}

proof fn lemma_ilt(next: int, k: int)
    requires
        k >= 0,
    ensures
        slots(ilt_insts(next, k), k, |i: int| ilt_label_of(next, i)),
        forall|i: int| 0 <= i < k ==> #[trigger] ilt_insts(next, k)[2 * i + 1] == raw(zeros(8)),
    decreases k,
{
    let label = |i: int| ilt_label_of(next, i);
    if k == 0 {
        lemma_no_slots(label);
    } else {
        lemma_ilt(next, k - 1);
        lemma_more_slots(ilt_insts(next, k - 1), k - 1, label, zeros(8));
        assert forall|i: int| 0 <= i < k implies #[trigger] ilt_insts(next, k)[2 * i + 1] == raw(
            zeros(8),
        ) by {
            if i < k - 1 {
                assert(ilt_insts(next, k)[2 * i + 1] == ilt_insts(next, k - 1)[2 * i + 1]);
            }
        }
    }
}

proof fn lemma_iat(next: int, k: int)
    requires
        k >= 0,
    ensures
        slots(iat_insts(next, k), k, |i: int| iat_label_of(next, i)),
        forall|i: int| 0 <= i < k ==> #[trigger] iat_insts(next, k)[2 * i + 1] == raw(zeros(8)),
    decreases k,
{
    let label = |i: int| iat_label_of(next, i);
    if k == 0 {
        lemma_no_slots(label);
    } else {
        lemma_iat(next, k - 1);
        lemma_more_slots(iat_insts(next, k - 1), k - 1, label, zeros(8));
        assert forall|i: int| 0 <= i < k implies #[trigger] iat_insts(next, k)[2 * i + 1] == raw(
            zeros(8),
        ) by {
            if i < k - 1 {
                assert(iat_insts(next, k)[2 * i + 1] == iat_insts(next, k - 1)[2 * i + 1]);
            }
        }
    }
}

proof fn lemma_hints(next: int, kinds: Seq<Kernel32Import>, k: int)
    requires
        k >= 0,
    ensures
        slots(hint_insts(next, kinds, k), k, |i: int| hint_label(next, i)),
    decreases k,
{
    let label = |i: int| hint_label(next, i);
    if k == 0 {
        lemma_no_slots(label);
    } else {
        lemma_hints(next, kinds, k - 1);
        lemma_more_slots(
            hint_insts(next, kinds, k - 1),
            k - 1,
            label,
            hint_name_bytes(kinds[k - 1]),
        );
    }
}

/// The number of the label at place `i` of an import table.
spec fn table_offset(n: int, i: int) -> int {
    if i <= 1 {
        i
    } else if i < 2 + n {
        5 + 3 * (i - 2)
    } else if i == 2 + n {
        2
    } else if i < 3 + 2 * n {
        6 + 3 * (i - 3 - n)
    } else if i < 3 + 3 * n {
        4 + 3 * (i - 3 - 2 * n)
    } else {
        3
    }
}

/// The place of a label in an import table.
spec fn table_place(n: int, k: int) -> int {
    if k <= 1 {
        k
    } else if k == 2 {
        2 + n
    } else if k == 3 {
        3 + 3 * n
    } else if k % 3 == 1 {
        3 + 2 * n + (k - 4) / 3
    } else if k % 3 == 2 {
        2 + (k - 5) / 3
    } else {
        3 + n + (k - 6) / 3
    }
}

/// The parts of an import table in front of its address table.
spec fn table_front(next: int, n: int) -> Seq<AsmInst> {
    seq![AsmInst::Label(internal(next, 0)), raw(zeros(40)), AsmInst::Label(internal(next, 1))]
        + ilt_insts(next, n) + seq![raw(zeros(8)), AsmInst::Label(internal(next, 2))]
}

/// The parts behind it.
spec fn table_back(next: int, kinds: Seq<Kernel32Import>, n: int) -> Seq<AsmInst> {
    seq![raw(zeros(8))] + hint_insts(next, kinds, n) + seq![
        AsmInst::Label(internal(next, 3)),
        raw(dll_name_bytes()),
    ]
}

proof fn lemma_table_front(next: int, n: int)
    requires
        n >= 0,
    ensures
        ({
            let front = table_front(next, n);
            &&& plain(front)
            &&& targets_in(front) == Seq::<u32>::empty()
            &&& labels_in(front) == seq![internal(next, 0).0, internal(next, 1).0] + Seq::new(
                n as nat,
                |i: int| ilt_label_of(next, i).0,
            ) + seq![internal(next, 2).0]
            &&& front.len() == 5 + 2 * n
            &&& front[0] == AsmInst::Label(internal(next, 0))
            &&& front[1] == raw(zeros(40))
            &&& forall|i: int|
                0 <= i < n ==> front[3 + 2 * i] == AsmInst::Label(#[trigger] ilt_label_of(next, i))
                    && front[4 + 2 * i] == raw(zeros(8))
        }),
{
    broadcast use {lemma_labels_push, lemma_targets_push, lemma_labels_empty};

    let front = table_front(next, n);
    let p0 = seq![
        AsmInst::Label(internal(next, 0)),
        raw(zeros(40)),
        AsmInst::Label(internal(next, 1)),
    ];
    let p1 = ilt_insts(next, n);
    let p2 = seq![raw(zeros(8)), AsmInst::Label(internal(next, 2))];
    assert(p0 =~= Seq::<AsmInst>::empty().push(AsmInst::Label(internal(next, 0))).push(
        raw(zeros(40)),
    ).push(AsmInst::Label(internal(next, 1))));
    assert(labels_in(p0) =~= seq![internal(next, 0).0, internal(next, 1).0]);
    assert(p2 =~= Seq::<AsmInst>::empty().push(raw(zeros(8))).push(
        AsmInst::Label(internal(next, 2)),
    ));
    assert(labels_in(p2) =~= seq![internal(next, 2).0]);
    lemma_ilt(next, n);
    lemma_labels_concat(p0, p1);
    lemma_labels_concat(p0 + p1, p2);
    lemma_plain_concat(p0, p1);
    lemma_plain_concat(p0 + p1, p2);
    let label = |i: int| ilt_label_of(next, i);
    assert(Seq::new(n as nat, |i: int| label(i).0) =~= Seq::new(
        n as nat,
        |i: int| ilt_label_of(next, i).0,
    ));
    assert(targets_in(front) =~= Seq::<u32>::empty());
    assert forall|i: int| 0 <= i < n implies front[3 + 2 * i] == AsmInst::Label(
        #[trigger] ilt_label_of(next, i),
    ) && front[4 + 2 * i] == raw(zeros(8)) by {
        assert(p1[2 * i] == AsmInst::Label(label(i)));
        assert(p1[2 * i + 1] == raw(zeros(8)));
        assert(front[3 + 2 * i] == p1[2 * i]);
        assert(front[4 + 2 * i] == p1[2 * i + 1]);
    }
}

proof fn lemma_table_back(next: int, kinds: Seq<Kernel32Import>, n: int)
    requires
        n >= 0,
    ensures
        ({
            let back = table_back(next, kinds, n);
            &&& plain(back)
            &&& targets_in(back) == Seq::<u32>::empty()
            &&& labels_in(back) == Seq::new(n as nat, |i: int| hint_label(next, i).0) + seq![
                internal(next, 3).0,
            ]
            &&& back.len() == 3 + 2 * n
        }),
{
    broadcast use {lemma_labels_push, lemma_targets_push, lemma_labels_empty};

    let p4 = seq![raw(zeros(8))];
    let p5 = hint_insts(next, kinds, n);
    let p6 = seq![AsmInst::Label(internal(next, 3)), raw(dll_name_bytes())];
    assert(p4 =~= Seq::<AsmInst>::empty().push(raw(zeros(8))));
    lemma_slot(internal(next, 3), dll_name_bytes());
    lemma_hints(next, kinds, n);
    lemma_labels_concat(p4, p5);
    lemma_labels_concat(p4 + p5, p6);
    lemma_plain_concat(p4, p5);
    lemma_plain_concat(p4 + p5, p6);
    let label = |i: int| hint_label(next, i);
    assert(labels_in(p4) =~= Seq::<u32>::empty());
    assert(Seq::new(n as nat, |i: int| label(i).0) =~= Seq::new(
        n as nat,
        |i: int| hint_label(next, i).0,
    ));
    assert(labels_in(p4 + p5 + p6) =~= Seq::new(n as nat, |i: int| hint_label(next, i).0) + seq![
        internal(next, 3).0,
    ]);
    assert(targets_in(p4 + p5 + p6) =~= Seq::<u32>::empty());
}

/// The labels of an import table, from its first to its last.
spec fn table_order(next: int, n: int) -> Seq<u32> {
    Seq::new((4 + 3 * n) as nat, |i: int| internal(next, table_offset(n, i)).0)
}

proof fn lemma_table_order(next: int, n: int)
    requires
        n >= 0,
        table_labels(n) <= next <= u32::MAX,
    ensures
        ({
            let l = table_order(next, n);
            &&& l.no_duplicates()
            &&& forall|i: int|
                0 <= i < l.len() ==> next - table_labels(n) < #[trigger] l[i] <= next
            &&& forall|k: int|
                0 <= k < table_labels(n) ==> l.contains((#[trigger] internal(next, k)).0)
        }),
{
    let l = table_order(next, n);
    assert forall|i: int| 0 <= i < l.len() implies next - table_labels(n) < #[trigger] l[i]
        <= next by {
        assert(0 <= table_offset(n, i) < 4 + 3 * n);
    }
    assert(l.no_duplicates()) by {
        assert forall|i: int, j: int| 0 <= i < l.len() && 0 <= j < l.len() && i != j implies l[i]
            != l[j] by {
            assert(0 <= table_offset(n, i) < 4 + 3 * n);
            assert(0 <= table_offset(n, j) < 4 + 3 * n);
            assert(table_place(n, table_offset(n, i)) == i);
            assert(table_place(n, table_offset(n, j)) == j);
        }
    }
    assert forall|k: int| 0 <= k < table_labels(n) implies l.contains(
        (#[trigger] internal(next, k)).0,
    ) by {
        let i = table_place(n, k);
        assert(0 <= i < 4 + 3 * n);
        assert(table_offset(n, i) == k);
        assert(l[i] == internal(next, k).0);
    }
}

/// The import table: its labels are those from `next` down, each once.
proof fn lemma_table(next: int, kinds: Seq<Kernel32Import>)
    ensures
        ({
            let n = kinds.len() as int;
            let table = import_table_insts(next, kinds);
            &&& plain(table)
            &&& targets_in(table) == Seq::<u32>::empty()
            &&& labels_in(table) == table_order(next, n)
            &&& table.len() == 8 + 6 * n
            &&& table[0] == AsmInst::Label(internal(next, 0))
            &&& table[1] == raw(zeros(40))
            &&& forall|i: int|
                0 <= i < n ==> table[3 + 2 * i] == AsmInst::Label(#[trigger] ilt_label_of(next, i))
                    && table[4 + 2 * i] == raw(zeros(8))
            &&& forall|i: int|
                0 <= i < n ==> table[5 + 2 * n + 2 * i] == AsmInst::Label(
                    #[trigger] iat_label_of(next, i),
                ) && table[6 + 2 * n + 2 * i] == raw(zeros(8))
        }),
{
    let n = kinds.len() as int;
    let table = import_table_insts(next, kinds);
    let front = table_front(next, n);
    let p3 = iat_insts(next, n);
    let back = table_back(next, kinds, n);
    assert(table =~= front + p3 + back);
    lemma_table_front(next, n);
    lemma_table_back(next, kinds, n);
    lemma_iat(next, n);
    lemma_labels_concat(front, p3);
    lemma_labels_concat(front + p3, back);
    lemma_plain_concat(front, p3);
    lemma_plain_concat(front + p3, back);
    assert(targets_in(table) =~= Seq::<u32>::empty());
    let label = |i: int| iat_label_of(next, i);
    assert(labels_in(p3) =~= Seq::new(n as nat, |i: int| iat_label_of(next, i).0));
    assert(labels_in(table) =~= table_order(next, n));
    assert(table[0] == front[0] && table[1] == front[1]);
    assert(plain(table));
    assert forall|i: int| 0 <= i < n implies table[3 + 2 * i] == AsmInst::Label(
        #[trigger] ilt_label_of(next, i),
    ) && table[4 + 2 * i] == raw(zeros(8)) by {
        assert(table[3 + 2 * i] == front[3 + 2 * i]);
        assert(table[4 + 2 * i] == front[4 + 2 * i]);
    }
    assert forall|i: int| 0 <= i < n implies table[5 + 2 * n + 2 * i] == AsmInst::Label(
        #[trigger] iat_label_of(next, i),
    ) && table[6 + 2 * n + 2 * i] == raw(zeros(8)) by {
        assert(p3[2 * i] == AsmInst::Label(label(i)));
        assert(p3[2 * i + 1] == raw(zeros(8)));
        assert(table[5 + 2 * n + 2 * i] == p3[2 * i]);
        assert(table[6 + 2 * n + 2 * i] == p3[2 * i + 1]);
    }
}

/// Code that is the same but for the vectors of its raw blocks has the same
/// labels, and relaxing keeps them.
spec fn akin(a: Seq<AsmInst>, b: Seq<AsmInst>) -> bool {
    &&& a.len() == b.len()
    &&& forall|i: int|
        0 <= i < a.len() ==> same_inst(#[trigger] a[i], b[i]) || (is_long_jump(b[i]) && a[i]
            == short_form(b[i]))
}

proof fn lemma_akin(a: Seq<AsmInst>, b: Seq<AsmInst>)
    requires
        akin(a, b),
    ensures
        labels_in(a) == labels_in(b),
        targets_in(a) == targets_in(b),
    decreases a.len(),
{
    if a.len() > 0 {
        let n = a.len() - 1;
        assert(a[n] == a.last() && b[n] == b.last());
        assert(akin(a.drop_last(), b.drop_last())) by {
            assert forall|i: int| 0 <= i < a.drop_last().len() implies same_inst(
                #[trigger] a.drop_last()[i],
                b.drop_last()[i],
            ) || (is_long_jump(b.drop_last()[i]) && a.drop_last()[i] == short_form(
                b.drop_last()[i],
            )) by {
                assert(a[i] == a.drop_last()[i] && b[i] == b.drop_last()[i]);
            }
        }
        lemma_akin(a.drop_last(), b.drop_last());
    }
}

/// Every short jump reaches its target.
pub open spec fn short_jumps_reach(insts: Seq<AsmInst>) -> bool {
    forall|i: int|
        0 <= i < insts.len() && label_field(#[trigger] insts[i]) is Rel8 ==> label_field(
            insts[i],
        ).fits(displacement(insts, i))
}

/// Code whose labels are in order can be encoded where its short jumps reach
/// their targets.
proof fn lemma_encodable(insts: Seq<AsmInst>)
    requires
        forall|i: int| 0 <= i < insts.len() ==> operands_encodable(#[trigger] insts[i]),
        labels_in(insts).no_duplicates(),
        forall|i: int|
            0 <= i < targets_in(insts).len() ==> labels_in(insts).contains(
                #[trigger] targets_in(insts)[i],
            ),
    ensures
        labels_bound(insts),
        labels_unique(insts),
        offset_of(insts, insts.len() as int) <= i32::MAX && short_jumps_reach(insts) ==> encodable(
            insts,
        ),
{
    let n = insts.len() as int;
    lemma_unique(insts);
    assert(insts.take(n) =~= insts);
    assert(labels_bound(insts)) by {
        assert forall|i: int| 0 <= i < insts.len() && label_field(
            #[trigger] insts[i],
        ) !is Absent implies labels_of(insts).contains_key(label_field(insts[i]).label().0) by {
            let k = lemma_target_listed(insts, i);
            lemma_listed_is_bound(insts, n, label_field(insts[i]).label().0);
        }
    }
    if offset_of(insts, n) <= i32::MAX && short_jumps_reach(insts) {
        assert forall|i: int| 0 <= i < insts.len() && label_field(
            #[trigger] insts[i],
        ) !is Absent implies label_field(insts[i]).fits(displacement(insts, i)) by {
            let label = label_field(insts[i]).label().0;
            assert(labels_of(insts).contains_key(label));
            lemma_label_index(insts, n, label);
            let k = label_index(insts, n, label);
            lemma_offset_monotone(insts, k, n);
            lemma_offset_monotone(insts, i + 1, n);
        }
    }
}

/// The place where a label is bound holds the label.
proof fn lemma_index_binds(insts: Seq<AsmInst>, n: int, label: u32)
    requires
        0 <= n <= insts.len(),
        label_index(insts, n, label) >= 0,
    ensures
        label_index(insts, n, label) < n,
        insts[label_index(insts, n, label)] is Label,
        insts[label_index(insts, n, label)]->Label_0.0 == label,
    decreases n,
{
    if n > 0 && !(insts[n - 1] is Label && insts[n - 1]->Label_0.0 == label) {
        lemma_index_binds(insts, n - 1, label);
    }
}

/// A label has a place, and room where a block stands behind it.
proof fn lemma_room(insts: Seq<AsmInst>, i: int, bytes: nat)
    requires
        0 <= i < insts.len(),
        insts[i] is Label,
        labels_in(insts).no_duplicates(),
        offset_of(insts, insts.len() as int) <= i32::MAX,
        bytes > 0 ==> i + 1 < insts.len() && (insts[i + 1] matches AsmInst::RawBytes(v) && v@.len()
            == bytes),
    ensures
        ({
            let label = insts[i]->Label_0.0;
            &&& labels_of(insts).contains_key(label)
            &&& labels_of(insts)[label] + bytes <= offset_of(insts, insts.len() as int)
        }),
{
    let n = insts.len() as int;
    let label = insts[i]->Label_0.0;
    let k = lemma_label_positions(insts, i);
    assert(insts.take(n) =~= insts);
    lemma_listed_is_bound(insts, n, label);
    lemma_unique(insts);
    lemma_label_index(insts, n, label);
    let j = label_index(insts, n, label);
    lemma_index_binds(insts, n, label);
    assert(insts[j] is Label && insts[i] is Label);
    assert(j == i);
    lemma_offset_monotone(insts, i, n);
    if bytes > 0 {
        lemma_offset_monotone(insts, i + 1, n);
        lemma_offset_monotone(insts, i + 2, n);
        assert(offset_of(insts, i + 1) == offset_of(insts, i) + inst_len(
            insts[i],
            offset_of(insts, i),
        ));
        assert(offset_of(insts, i + 2) == offset_of(insts, i + 1) + inst_len(
            insts[i + 1],
            offset_of(insts, i + 1),
        ));
        reveal(crate::backend::x86_64::encode::inst_head);
    }
}

/// The labels of the code in front of an import table are in order.
pub open spec fn front_in_order(front: Seq<AsmInst>, next: int, n: int) -> bool {
    &&& fair(front)
    &&& labels_in(front).no_duplicates()
    &&& forall|i: int|
        0 <= i < labels_in(front).len() ==> !(next - table_labels(n) < #[trigger] labels_in(
            front,
        )[i] <= next)
    &&& forall|i: int|
        0 <= i < targets_in(front).len() ==> labels_in(front).contains(
            #[trigger] targets_in(front)[i],
        ) || next - table_labels(n) < targets_in(front)[i] <= next
}

/// What relaxed code with an import table behind it holds.
spec fn tabled(r: Seq<AsmInst>, front: Seq<AsmInst>, next: int, kinds: Seq<Kernel32Import>) -> bool {
    let n = kinds.len() as int;
    let table = import_table_insts(next, kinds);
    &&& r.len() == front.len() + table.len()
    &&& labels_in(r) == labels_in(front) + table_order(next, n)
    &&& labels_in(r).no_duplicates()
    &&& forall|i: int| 0 <= i < r.len() ==> operands_encodable(#[trigger] r[i])
    &&& forall|i: int|
        0 <= i < targets_in(r).len() ==> labels_in(r).contains(#[trigger] targets_in(r)[i])
    &&& forall|i: int|
        0 <= i < table.len() && !is_long_jump(table[i]) ==> same_inst(
            r[front.len() + i],
            #[trigger] table[i],
        )
}

proof fn lemma_same_is_tabled(
    a: Seq<AsmInst>,
    front: Seq<AsmInst>,
    next: int,
    kinds: Seq<Kernel32Import>,
)
    requires
        same_insts(a, front + import_table_insts(next, kinds)),
        table_labels(kinds.len() as int) <= next <= u32::MAX,
        front_in_order(front, next, kinds.len() as int),
    ensures
        tabled(a, front, next, kinds),
{
    let n = kinds.len() as int;
    let table = import_table_insts(next, kinds);
    let all = front + table;
    lemma_table(next, kinds);
    lemma_table_order(next, n);
    lemma_labels_concat(front, table);
    lemma_fair_concat(front, table);
    let lf = labels_in(front);
    let lt = labels_in(table);
    let l = labels_in(all);
    assert(l == lf + lt);
    assert(l.no_duplicates()) by {
        assert forall|i: int, j: int| 0 <= i < l.len() && 0 <= j < l.len() && i != j implies l[i]
            != l[j] by {
            if i < lf.len() {
                assert(l[i] == lf[i]);
            } else {
                assert(l[i] == lt[i - lf.len()]);
            }
            if j < lf.len() {
                assert(l[j] == lf[j]);
            } else {
                assert(l[j] == lt[j - lf.len()]);
            }
        }
    }
    let t = targets_in(all);
    assert(t =~= targets_in(front));
    assert forall|i: int| 0 <= i < t.len() implies l.contains(#[trigger] t[i]) by {
        assert(t[i] == targets_in(front)[i]);
        if lf.contains(t[i]) {
            let k = choose|k: int| 0 <= k < lf.len() && lf[k] == t[i];
            assert(l[k] == t[i]);
        } else {
            let k = next - t[i];
            assert(internal(next, k).0 == t[i]);
            assert(lt.contains(t[i]));
            let m = choose|m: int| 0 <= m < lt.len() && lt[m] == t[i];
            assert(l[lf.len() + m] == t[i]);
        }
    }
    assert(akin(a, all));
    lemma_akin(a, all);
    assert forall|i: int| 0 <= i < a.len() implies operands_encodable(#[trigger] a[i]) by {
        assert(same_inst(a[i], all[i]));
        assert(operands_encodable(all[i]));
    }
    assert forall|i: int| 0 <= i < table.len() && !is_long_jump(table[i]) implies same_inst(
        a[front.len() + i],
        #[trigger] table[i],
    ) by {
        assert(all[front.len() + i] == table[i]);
        assert(same_inst(a[front.len() + i], all[front.len() + i]));
    }
}

proof fn lemma_relaxed_is_tabled(
    a: Seq<AsmInst>,
    front: Seq<AsmInst>,
    next: int,
    kinds: Seq<Kernel32Import>,
)
    requires
        tabled(a, front, next, kinds),
    ensures
        tabled(relaxed(a), front, next, kinds),
{
    let r = relaxed(a);
    let table = import_table_insts(next, kinds);
    law_relaxation_only_narrows(a);
    assert(akin(r, a));
    lemma_akin(r, a);
    assert forall|i: int| 0 <= i < r.len() implies operands_encodable(#[trigger] r[i]) by {
        assert(operands_encodable(a[i]));
    }
    assert forall|i: int| 0 <= i < table.len() && !is_long_jump(table[i]) implies same_inst(
        r[front.len() + i],
        #[trigger] table[i],
    ) by {
        assert(same_inst(a[front.len() + i], table[i]));
        assert(!is_long_jump(a[front.len() + i]));
        assert(r[front.len() + i] == a[front.len() + i]);
    }
}

/// The tables of such code have room.
proof fn lemma_tables_have_room(
    ready: WindowsProgram,
    front: Seq<AsmInst>,
    next: int,
    kinds: Seq<Kernel32Import>,
)
    requires
        describes_table(ready, next, kinds),
        tabled(ready.code.insts@, front, next, kinds),
        table_labels(kinds.len() as int) <= next <= u32::MAX,
        offset_of(ready.code.insts@, ready.code.insts@.len() as int) <= i32::MAX,
    ensures
        has_room(ready, ready.import_desc_label, 20),
        has_room(ready, ready.iat_label, 0),
        has_room(ready, ready.dll_name_label, 0),
        forall|i: int|
            0 <= i < ready.imports@.len() ==> {
                let import = #[trigger] ready.imports@[i];
                &&& has_room(ready, import.hint_name_label, 0)
                &&& has_room(ready, import.ilt_entry_label, 8)
                &&& has_room(ready, import.iat_entry_label, 8)
            },
{
    let n = kinds.len() as int;
    let f = front.len() as int;
    let r = ready.code.insts@;
    let table = import_table_insts(next, kinds);
    lemma_table(next, kinds);
    lemma_table_order(next, n);
    let lf = labels_in(front);
    let lt = table_order(next, n);
    let l = labels_in(r);
    assert forall|k: int| 0 <= k < table_labels(n) implies has_room(
        ready,
        #[trigger] internal(next, k),
        0,
    ) by {
        let x = internal(next, k).0;
        let m = choose|m: int| 0 <= m < lt.len() && lt[m] == x;
        assert(l[lf.len() + m] == x);
        lemma_listed_room(r, x);
    }
    assert(has_room(ready, internal(next, 2), 0) && has_room(ready, internal(next, 3), 0));
    assert(same_inst(r[f + 0], table[0]) && same_inst(r[f + 1], table[1]));
    lemma_room(r, f, 40);
    assert forall|i: int| 0 <= i < ready.imports@.len() implies {
        let import = #[trigger] ready.imports@[i];
        &&& has_room(ready, import.hint_name_label, 0)
        &&& has_room(ready, import.ilt_entry_label, 8)
        &&& has_room(ready, import.iat_entry_label, 8)
    } by {
        assert(has_room(ready, internal(next, 4 + 3 * i), 0));
        let x = 3 + 2 * i;
        assert(table[3 + 2 * i] == AsmInst::Label(ilt_label_of(next, i)));
        assert(table[4 + 2 * i] == raw(zeros(8)));
        assert(x + 1 == 4 + 2 * i);
        assert(table[x] == AsmInst::Label(ilt_label_of(next, i)) && table[x + 1] == raw(zeros(8)));
        assert(same_inst(r[f + x], table[x]) && same_inst(r[f + (x + 1)], table[x + 1]));
        lemma_room(r, f + x, 8);
        let y = 5 + 2 * n + 2 * i;
        assert(table[5 + 2 * n + 2 * i] == AsmInst::Label(iat_label_of(next, i)));
        assert(table[6 + 2 * n + 2 * i] == raw(zeros(8)));
        assert(y + 1 == 6 + 2 * n + 2 * i);
        assert(table[y] == AsmInst::Label(iat_label_of(next, i)) && table[y + 1] == raw(zeros(8)));
        assert(same_inst(r[f + y], table[y]) && same_inst(r[f + (y + 1)], table[y + 1]));
        lemma_room(r, f + y, 8);
    }
}

/// Code that is packaged once it is relaxed: it takes less than two gibibytes then,
/// and its short jumps reach their targets past the padding in front of loops.
pub open spec fn packs(insts: Seq<AsmInst>) -> bool {
    &&& offset_of(relaxed(insts), relaxed(insts).len() as int) <= i32::MAX
    &&& short_jumps_reach(relaxed(insts))
}

/// Code without padding keeps its short jumps in reach.
proof fn lemma_unpadded_packs(a: Seq<AsmInst>, all: Seq<AsmInst>)
    requires
        same_insts(a, all),
        fair(all),
        unaligned(a),
        forall|i: int| 0 <= i < a.len() ==> operands_encodable(#[trigger] a[i]),
        labels_in(a).no_duplicates(),
        forall|i: int|
            0 <= i < targets_in(a).len() ==> labels_in(a).contains(#[trigger] targets_in(a)[i]),
        offset_of(a, a.len() as int) <= i32::MAX,
    ensures
        packs(a),
{
    assert(short_jumps_reach(a)) by {
        assert forall|i: int| 0 <= i < a.len() && label_field(
            #[trigger] a[i],
        ) is Rel8 implies label_field(a[i]).fits(displacement(a, i)) by {
            assert(same_inst(a[i], all[i]));
            assert(label_field(all[i]) !is Rel8);
        }
    }
    lemma_encodable(a);
    law_relaxation_keeps_encodable(a);
    law_relaxation_only_narrows(a);
    let r = relaxed(a);
    assert forall|i: int| 0 <= i < r.len() && label_field(
        #[trigger] r[i],
    ) is Rel8 implies label_field(r[i]).fits(displacement(r, i)) by {
        assert(displacements_fit(r));
    }
}

/// Code in front of an import table can be packaged with it, once relaxed, where
/// it takes less than two gibibytes and its short jumps reach their targets.
proof fn lemma_front_packs(
    program: WindowsProgram,
    ready: WindowsProgram,
    front: Seq<AsmInst>,
    next: int,
    kinds: Seq<Kernel32Import>,
)
    requires
        same_insts(program.code.insts@, front + import_table_insts(next, kinds)),
        describes_table(program, next, kinds),
        kinds.len() > 0,
        table_labels(kinds.len() as int) <= next <= u32::MAX,
        front_in_order(front, next, kinds.len() as int),
        labels_in(front).contains(program.entry_label.0),
    ensures
        labels_bound(program.code.insts@),
        all_operands_encodable(program.code.insts@),
        ready.code.insts@ == relaxed(program.code.insts@) && same_tables(ready, program) && packs(
            program.code.insts@,
        ) ==> packageable(ready),
        unaligned(program.code.insts@) && offset_of(
            program.code.insts@,
            program.code.insts@.len() as int,
        ) <= i32::MAX ==> packs(program.code.insts@),
        plain(front) ==> unaligned(program.code.insts@),
{
    let a = program.code.insts@;
    let r = relaxed(a);
    lemma_same_is_tabled(a, front, next, kinds);
    lemma_relaxed_is_tabled(a, front, next, kinds);
    lemma_encodable(a);
    lemma_encodable(r);
    lemma_table(next, kinds);
    let table = import_table_insts(next, kinds);
    let all = front + table;
    lemma_fair_concat(front, table);
    if plain(front) {
        lemma_plain_concat(front, table);
        assert forall|i: int| 0 <= i < a.len() implies #[trigger] a[i] !is Align16 by {
            assert(same_inst(a[i], all[i]) && all[i] !is Align16);
        }
    }
    if unaligned(a) && offset_of(a, a.len() as int) <= i32::MAX {
        lemma_unpadded_packs(a, all);
    }
    if r == ready.code.insts@ && same_tables(ready, program) && packs(a) {
        lemma_tables_have_room(ready, front, next, kinds);
        let lf = labels_in(front);
        let e = ready.entry_label.0;
        let k = choose|k: int| 0 <= k < lf.len() && lf[k] == e;
        assert(labels_in(r)[k] == e);
        lemma_listed_room(r, e);
        assert(pe_size_ok(offset_of(r, r.len() as int) as int));
    }
}

/// A bound label lies inside the code.
proof fn lemma_listed_room(insts: Seq<AsmInst>, label: u32)
    requires
        labels_in(insts).contains(label),
        offset_of(insts, insts.len() as int) <= i32::MAX,
    ensures
        labels_of(insts).contains_key(label),
        labels_of(insts)[label] <= offset_of(insts, insts.len() as int),
{
    let n = insts.len() as int;
    assert(insts.take(n) =~= insts);
    lemma_listed_is_bound(insts, n, label);
    lemma_label_index(insts, n, label);
    lemma_offset_monotone(insts, label_index(insts, n, label), n);
}

/// The labels above `lo` and up to `hi`.
spec fn within(lo: int, hi: int) -> Set<u32> {
    Set::new(|x: u32| lo < x <= hi)
}

/// A piece that binds these labels and refers to those of `ext`.
spec fn piece(code: Seq<AsmInst>, ls: Seq<u32>, ext: Set<u32>) -> bool {
    &&& plain(code)
    &&& labels_in(code) == ls
    &&& forall|i: int|
        0 <= i < targets_in(code).len() ==> ext.contains(#[trigger] targets_in(code)[i])
}

proof fn lemma_pieces(
    a: Seq<AsmInst>,
    la: Seq<u32>,
    b: Seq<AsmInst>,
    lb: Seq<u32>,
    ext: Set<u32>,
)
    requires
        piece(a, la, ext),
        piece(b, lb, ext),
    ensures
        piece(a + b, la + lb, ext),
{
    lemma_labels_concat(a, b);
    lemma_plain_concat(a, b);
    let t = targets_in(a + b);
    assert forall|i: int| 0 <= i < t.len() implies ext.contains(#[trigger] t[i]) by {
        if i < targets_in(a).len() {
            assert(t[i] == targets_in(a)[i]);
        } else {
            assert(t[i] == targets_in(b)[i - targets_in(a).len()]);
        }
    }
}

/// A piece in front of a table that binds every label from behind the table up to
/// `top`.
proof fn lemma_piece_is_front(front: Seq<AsmInst>, ls: Seq<u32>, next: int, n: int, top: int)
    requires
        piece(front, ls, within(next - table_labels(n), top)),
        ls.no_duplicates(),
        forall|i: int| 0 <= i < ls.len() ==> next < #[trigger] ls[i],
        forall|x: u32| next < x <= top ==> #[trigger] ls.contains(x),
    ensures
        front_in_order(front, next, n),
{
}

/// The labels of the translated program that stand outside its body.
spec fn windows_ext() -> Set<u32> {
    within(body_next(), LABEL_BASE as int)
}

proof fn lemma_windows_io()
    ensures
        platform_labelled(windows_emitter(), windows_routines(), windows_ext()),
{
    broadcast use {lemma_labels_push, lemma_targets_push, lemma_labels_empty};

    let routines = windows_routines();
    let p = windows_emitter();
    assert forall|next: int| p.put_byte_labels() <= next <= u32::MAX implies well_labelled(
        #[trigger] p.put_byte_insts(next, routines.flush_output),
        next,
        next - p.put_byte_labels(),
        windows_ext(),
    ) by {
        let code = p.put_byte_insts(next, routines.flush_output);
        let skip = internal(next, 0);
        assert(code =~= Seq::<AsmInst>::empty().push(AsmInst::MovAlMemR13).push(
            AsmInst::MovMemRbxAl,
        ).push(AsmInst::AddRegImm32(Reg64::Rbx, 1)).push(
            AsmInst::CmpRegReg(Reg64::Rbx, Reg64::Rbp),
        ).push(AsmInst::Jnz(skip)).push(AsmInst::Call(routines.flush_output)).push(
            AsmInst::Label(skip),
        ));
        assert(labels_in(code) =~= seq![skip.0]);
        assert(labels_in(code)[0] == skip.0);
        assert(targets_in(code) =~= seq![skip.0, routines.flush_output.0]);
    }
    assert forall|next: int| p.get_byte_labels() <= next <= u32::MAX implies well_labelled(
        #[trigger] p.get_byte_insts(next, routines.exit_one, routines.flush_output),
        next,
        next - p.get_byte_labels(),
        windows_ext(),
    ) by {
        let code = p.get_byte_insts(next, routines.exit_one, routines.flush_output);
        let done = internal(next, 0);
        let eof = internal(next, 1);
        let read_ok = internal(next, 2);
        assert(code =~= Seq::<AsmInst>::empty().push(AsmInst::Call(routines.flush_output)).push(
            AsmInst::MovRegImm64(Reg64::Rax, 0),
        ).push(AsmInst::MovMemReg64(Reg64::Rsp, IO_COUNT_SLOT_DISP, Reg64::Rax)).push(
            AsmInst::MovRegReg(Reg64::Rcx, Reg64::Rsi),
        ).push(AsmInst::MovRegReg(Reg64::Rdx, Reg64::R13)).push(
            AsmInst::MovRegImm64(Reg64::R8, 1),
        ).push(AsmInst::LeaRegMem(Reg64::R9, Reg64::Rsp, IO_COUNT_SLOT_DISP)).push(
            AsmInst::CallMemLabel(p.read_file_iat),
        ).push(AsmInst::CmpRegImm32(Reg64::Rax, 0)).push(AsmInst::Jnz(read_ok)).push(
            AsmInst::CallMemLabel(p.get_last_error_iat),
        ).push(AsmInst::CmpRegImm32(Reg64::Rax, ERROR_HANDLE_EOF)).push(AsmInst::Jz(eof)).push(
            AsmInst::CmpRegImm32(Reg64::Rax, ERROR_BROKEN_PIPE),
        ).push(AsmInst::Jz(eof)).push(AsmInst::Jmp(routines.exit_one)).push(
            AsmInst::Label(read_ok),
        ).push(AsmInst::MovRegMem64(Reg64::Rax, Reg64::Rsp, IO_COUNT_SLOT_DISP)).push(
            AsmInst::CmpRegImm32(Reg64::Rax, 0),
        ).push(AsmInst::Jnz(done)).push(AsmInst::Label(eof)).push(
            AsmInst::MovMem8Imm8(Reg64::R13, 255),
        ).push(AsmInst::Label(done)));
        let l = seq![read_ok.0, eof.0, done.0];
        let t = seq![
            routines.flush_output.0,
            p.read_file_iat.0,
            read_ok.0,
            p.get_last_error_iat.0,
            eof.0,
            eof.0,
            routines.exit_one.0,
            done.0,
        ];
        assert(labels_in(code) =~= l);
        assert(targets_in(code) =~= t);
        assert(l[0] == read_ok.0 && l[1] == eof.0 && l[2] == done.0);
        assert(plain(code));
    }
}

proof fn lemma_setup()
    ensures
        piece(setup_insts(), seq![LABEL_BASE], windows_ext()),
{
    let t = full_table_next();
    let x = windows_routines().exit_one;
    let e = windows_ext();
    let z = Seq::<u32>::empty();
    let p0 = entry_insts(internal(LABEL_BASE as int, 0));
    let p1 = zero_slot_insts(OVERLAPPED_SLOT_DISP);
    let p2 = std_handle_insts(iat_label_of(t, 2), STD_INPUT_HANDLE, Reg64::Rsi, x);
    let p3 = std_handle_insts(iat_label_of(t, 2), STD_OUTPUT_HANDLE, Reg64::Rdi, x);
    let p4 = init_tape_insts(iat_label_of(t, 5), x);
    let p5 = init_output_insts(iat_label_of(t, 5), x);
    lemma_entry_insts(internal(LABEL_BASE as int, 0));
    lemma_zero_slot_insts(OVERLAPPED_SLOT_DISP);
    lemma_std_handle_insts(iat_label_of(t, 2), STD_INPUT_HANDLE, Reg64::Rsi, x);
    lemma_std_handle_insts(iat_label_of(t, 2), STD_OUTPUT_HANDLE, Reg64::Rdi, x);
    lemma_init_tape_insts(iat_label_of(t, 5), x);
    lemma_init_output_insts(iat_label_of(t, 5), x);
    let l = seq![LABEL_BASE];
    assert(l + z =~= l);
    lemma_pieces(p0, l, p1, z, e);
    lemma_pieces(p0 + p1, l, p2, z, e);
    lemma_pieces(p0 + p1 + p2, l, p3, z, e);
    lemma_pieces(p0 + p1 + p2 + p3, l, p4, z, e);
    lemma_pieces(p0 + p1 + p2 + p3 + p4, l, p5, z, e);
}

proof fn lemma_growth()
    ensures
        piece(
            ensure_tape_insts(
                windows_routines().ensure_tape,
                internal(LABEL_BASE as int, 3),
                windows_routines().exit_one,
                iat_label_of(full_table_next(), 5),
                iat_label_of(full_table_next(), 6),
            ),
            seq![windows_routines().ensure_tape.0, internal(LABEL_BASE as int, 3).0],
            windows_ext(),
        ),
{
    let t = full_table_next();
    let x = windows_routines().exit_one;
    let g = internal(LABEL_BASE as int, 3);
    let r = windows_routines().ensure_tape;
    let e = windows_ext();
    let z = Seq::<u32>::empty();
    let p0 = grow_search_insts(r, g);
    let p1 = alloc_new_insts(x, iat_label_of(t, 5));
    let p2 = restore_lengths_insts();
    let p3 = copy_old_insts();
    let p4 = save_scratch_insts();
    let p5 = free_old_insts(x, iat_label_of(t, 6));
    let p6 = adopt_new_insts();
    lemma_grow_search_insts(r, g);
    lemma_alloc_new_insts(x, iat_label_of(t, 5));
    lemma_restore_lengths_insts();
    lemma_copy_old_insts();
    lemma_save_scratch_insts();
    lemma_free_old_insts(x, iat_label_of(t, 6));
    lemma_adopt_new_insts();
    let l = seq![r.0, g.0];
    assert(l + z =~= l);
    lemma_pieces(p0, l, p1, z, e);
    lemma_pieces(p0 + p1, l, p2, z, e);
    lemma_pieces(p0 + p1 + p2, l, p3, z, e);
    lemma_pieces(p0 + p1 + p2 + p3, l, p4, z, e);
    lemma_pieces(p0 + p1 + p2 + p3 + p4, l, p5, z, e);
    lemma_pieces(p0 + p1 + p2 + p3 + p4 + p5, l, p6, z, e);
}

/// The labels behind the body of a translated program.
spec fn epilogue_labels() -> Seq<u32> {
    seq![
        internal(LABEL_BASE as int, 4).0,
        internal(LABEL_BASE as int, 1).0,
        internal(LABEL_BASE as int, 3).0,
        internal(LABEL_BASE as int, 2).0,
    ]
}

proof fn lemma_epilogue()
    ensures
        piece(epilogue_insts(), epilogue_labels(), windows_ext()),
{
    broadcast use {lemma_labels_push, lemma_targets_push, lemma_labels_empty};

    let t = full_table_next();
    let routines = windows_routines();
    let g = internal(LABEL_BASE as int, 3);
    let e = windows_ext();
    let z = Seq::<u32>::empty();
    let p0 = seq![AsmInst::Call(routines.flush_output)];
    let p1 = exit_process_insts(iat_label_of(t, 0), 0);
    let p2 = flush_output_insts(routines.flush_output, iat_label_of(t, 4));
    let p3 = ensure_tape_insts(
        routines.ensure_tape,
        g,
        routines.exit_one,
        iat_label_of(t, 5),
        iat_label_of(t, 6),
    );
    let p4 = seq![AsmInst::Label(routines.exit_one)];
    let p5 = exit_process_insts(iat_label_of(t, 0), 1);
    assert(p0 =~= Seq::<AsmInst>::empty().push(AsmInst::Call(routines.flush_output)));
    assert(labels_in(p0) =~= z);
    assert(targets_in(p0) =~= seq![routines.flush_output.0]);
    lemma_exit_process_insts(iat_label_of(t, 0), 0);
    lemma_flush_output_insts(routines.flush_output, iat_label_of(t, 4));
    lemma_growth();
    assert(p4 =~= Seq::<AsmInst>::empty().push(AsmInst::Label(routines.exit_one)));
    assert(labels_in(p4) =~= seq![routines.exit_one.0]);
    assert(targets_in(p4) =~= z);
    lemma_exit_process_insts(iat_label_of(t, 0), 1);
    let l2 = seq![routines.flush_output.0];
    let l3 = seq![routines.ensure_tape.0, g.0];
    let l4 = seq![routines.exit_one.0];
    assert(z + z =~= z);
    assert(z + l2 =~= l2);
    lemma_pieces(p0, z, p1, z, e);
    lemma_pieces(p0 + p1, z, p2, l2, e);
    lemma_pieces(p0 + p1 + p2, l2, p3, l3, e);
    lemma_pieces(p0 + p1 + p2 + p3, l2 + l3, p4, l4, e);
    lemma_pieces(p0 + p1 + p2 + p3 + p4, l2 + l3 + l4, p5, z, e);
    assert(l2 + l3 + l4 + z =~= epilogue_labels());
}

/// The labels of a source program are in order for the Windows back end: bound
/// once each, every jump has a target, and none reaches the internal labels.
pub open spec fn windows_labels_ok(lir: LirProgram) -> bool {
    user_labels_ok(
        lir.insts@,
        lir_body(
            windows_emitter(),
            lir.insts@,
            windows_routines(),
            body_next(),
            lir.insts@.len() as int,
        ).next,
    )
}

/// The set-up binds the label of the entry point, and the body none twice.
pub proof fn lemma_windows_labels(lir: LirProgram)
    requires
        windows_ok(lir),
        windows_labels_ok(lir),
    ensures
        labels_in(setup_insts()) == seq![LABEL_BASE],
        labels_in(windows_body(lir)).no_duplicates(),
        forall|i: int|
            0 <= i < lir.insts@.len() && #[trigger] lir.insts@[i] is Label
                ==> lir.insts@[i]->Label_0.0 < LABEL_BASE,
{
    lemma_setup();
    lemma_windows_io();
    lemma_body_is_labelled(
        windows_emitter(),
        lir.insts@,
        windows_routines(),
        body_next(),
        windows_ext(),
    );
    lemma_body_takes_labels(
        windows_emitter(),
        lir.insts@,
        windows_routines(),
        body_next(),
        0,
        lir.insts@.len() as int,
    );
}

/// The labels in front of the table of a translated program.
proof fn lemma_translated_front(lir: LirProgram)
    requires
        windows_ok(lir),
        windows_labels_ok(lir),
    ensures
        ({
            let front = setup_insts() + windows_body(lir) + epilogue_insts();
            &&& front_in_order(front, full_table_next(), 7)
            &&& labels_in(front).contains(LABEL_BASE)
        }),
{
    let a = setup_insts();
    let mid = windows_body(lir);
    let c = epilogue_insts();
    let ext = windows_ext();
    lemma_setup();
    lemma_epilogue();
    lemma_windows_io();
    lemma_body_is_labelled(
        windows_emitter(),
        lir.insts@,
        windows_routines(),
        body_next(),
        ext,
    );
    let outer = labels_in(a) + labels_in(c);
    let want = seq![
        LABEL_BASE,
        internal(LABEL_BASE as int, 4).0,
        internal(LABEL_BASE as int, 1).0,
        internal(LABEL_BASE as int, 3).0,
        internal(LABEL_BASE as int, 2).0,
    ];
    assert(outer =~= want);
    assert(want[0] == LABEL_BASE && want[1] == LABEL_BASE - 4 && want[2] == LABEL_BASE - 1
        && want[3] == LABEL_BASE - 3 && want[4] == LABEL_BASE - 2);
    let t = targets_in(a) + targets_in(c);
    assert forall|i: int| 0 <= i < t.len() implies outer.contains(#[trigger] t[i]) || ext.contains(
        t[i],
    ) by {
        if i < targets_in(a).len() {
            assert(t[i] == targets_in(a)[i]);
        } else {
            assert(t[i] == targets_in(c)[i - targets_in(a).len()]);
        }
    }
    lemma_wrap(a, mid, c, LABEL_BASE as int, body_next(), -1, -1, ext);
    let front = a + mid + c;
    lemma_labels_concat(a, mid);
    lemma_labels_concat(a + mid, c);
    let l = labels_in(front);
    let m = labels_in(mid).len() as int;
    assert(l.len() == m + 5);
    assert(l[0] == LABEL_BASE);
    assert(l[m + 1] == want[1] && l[m + 2] == want[2] && l[m + 3] == want[3] && l[m + 4]
        == want[4]);
    assert forall|i: int| 0 <= i < l.len() implies !(full_table_next() - table_labels(7)
        < #[trigger] l[i] <= full_table_next()) by {
        if 1 <= i < m + 1 {
            assert(l[i] == labels_in(mid)[i - 1]);
        }
    }
    let tt = targets_in(front);
    assert forall|i: int| 0 <= i < tt.len() implies l.contains(#[trigger] tt[i])
        || full_table_next() - table_labels(7) < tt[i] <= full_table_next() by {
        assert(l.contains(tt[i]) || ext.contains(tt[i]));
        assert(l.contains(l[0]) && l.contains(l[m + 1]) && l.contains(l[m + 2]) && l.contains(
            l[m + 3],
        ) && l.contains(l[m + 4]));
    }
}

/// What the Windows back end emits for a program whose labels are in order can be
/// packaged, once relaxed: internal labels never collide, and every jump, call and
/// table entry has its place. The conditions are code below two gibibytes, and that
/// no padding in front of a loop moves a target out of a short jump's reach.
pub proof fn law_windows_program_is_packageable(
    lir: LirProgram,
    program: WindowsProgram,
    ready: WindowsProgram,
)
    requires
        windows_ok(lir),
        windows_labels_ok(lir),
        same_insts(program.code.insts@, windows_insts(lir)),
        describes_table(program, full_table_next(), full_imports()),
        program.entry_label == internal(LABEL_BASE as int, 0),
    ensures
        labels_bound(program.code.insts@),
        all_operands_encodable(program.code.insts@),
        ready.code.insts@ == relaxed(program.code.insts@) && same_tables(ready, program) && packs(
            program.code.insts@,
        ) ==> packageable(ready),
        unaligned(program.code.insts@) && offset_of(
            program.code.insts@,
            program.code.insts@.len() as int,
        ) <= i32::MAX ==> packs(program.code.insts@),
{
    let front = setup_insts() + windows_body(lir) + epilogue_insts();
    lemma_translated_front(lir);
    lemma_front_packs(program, ready, front, full_table_next(), full_imports());
}

/// The program that only leaves can be packaged.
pub proof fn law_exit_program_is_packageable(
    exit_code: u32,
    program: WindowsProgram,
    ready: WindowsProgram,
)
    requires
        same_insts(program.code.insts@, trivial_exit_insts(exit_code)),
        describes_table(program, LABEL_BASE - 1, seq![Kernel32Import::ExitProcess]),
        program.entry_label == internal(LABEL_BASE as int, 0),
    ensures
        labels_bound(program.code.insts@),
        all_operands_encodable(program.code.insts@),
        ready.code.insts@ == relaxed(program.code.insts@) && same_tables(ready, program) && packs(
            program.code.insts@,
        ) ==> packageable(ready),
        offset_of(program.code.insts@, program.code.insts@.len() as int) <= i32::MAX ==> packs(
            program.code.insts@,
        ),
{
    let t = LABEL_BASE - 1;
    let e = within(t - table_labels(1), LABEL_BASE as int);
    let p0 = entry_insts(internal(LABEL_BASE as int, 0));
    let p1 = exit_process_insts(iat_label_of(t, 0), exit_code as i64);
    lemma_entry_insts(internal(LABEL_BASE as int, 0));
    lemma_exit_process_insts(iat_label_of(t, 0), exit_code as i64);
    let l = seq![LABEL_BASE];
    assert(l + Seq::<u32>::empty() =~= l);
    lemma_pieces(p0, l, p1, Seq::<u32>::empty(), e);
    assert(l[0] == LABEL_BASE);
    lemma_piece_is_front(p0 + p1, l, t, 1, LABEL_BASE as int);
    lemma_front_packs(program, ready, p0 + p1, t, seq![Kernel32Import::ExitProcess]);
}

/// The code of a program with precomputed output, with its data.
proof fn lemma_stdout_code(data: Seq<u8>)
    ensures
        piece(
            stdout_code_insts(data.len() as i64) + seq![
                AsmInst::Label(internal(LABEL_BASE as int, 1)),
                raw(data),
            ],
            seq![LABEL_BASE, internal(LABEL_BASE as int, 2).0, internal(LABEL_BASE as int, 1).0],
            within(LABEL_BASE - 3 - table_labels(3), LABEL_BASE as int),
        ),
{
    broadcast use {lemma_labels_push, lemma_targets_push, lemma_labels_empty};

    let t = LABEL_BASE - 3;
    let e = within(t - table_labels(3), LABEL_BASE as int);
    let z = Seq::<u32>::empty();
    let len = data.len() as i64;
    let bytes = internal(LABEL_BASE as int, 1);
    let x = internal(LABEL_BASE as int, 2);
    let p0 = entry_insts(internal(LABEL_BASE as int, 0));
    let p1 = zero_slot_insts(OVERLAPPED_SLOT_DISP);
    let p2 = std_handle_insts(iat_label_of(t, 1), STD_OUTPUT_HANDLE, Reg64::Rdi, x);
    let p3 = zero_slot_insts(IO_COUNT_SLOT_DISP);
    let p4 = seq![
        AsmInst::MovRegReg(Reg64::Rcx, Reg64::Rdi),
        AsmInst::LeaRegLabel(Reg64::Rdx, bytes),
        AsmInst::MovRegImm64(Reg64::R8, len),
        AsmInst::LeaRegMem(Reg64::R9, Reg64::Rsp, IO_COUNT_SLOT_DISP),
        AsmInst::CallMemLabel(iat_label_of(t, 2)),
        AsmInst::CmpRegImm32(Reg64::Rax, 0),
        AsmInst::Jz(x),
    ];
    let p5 = exit_process_insts(iat_label_of(t, 0), 0);
    let p6 = seq![AsmInst::Label(x)];
    let p7 = exit_process_insts(iat_label_of(t, 0), 1);
    let p8 = seq![AsmInst::Label(bytes), raw(data)];
    lemma_entry_insts(internal(LABEL_BASE as int, 0));
    lemma_zero_slot_insts(OVERLAPPED_SLOT_DISP);
    lemma_std_handle_insts(iat_label_of(t, 1), STD_OUTPUT_HANDLE, Reg64::Rdi, x);
    lemma_zero_slot_insts(IO_COUNT_SLOT_DISP);
    assert(p4 =~= Seq::<AsmInst>::empty().push(AsmInst::MovRegReg(Reg64::Rcx, Reg64::Rdi)).push(
        AsmInst::LeaRegLabel(Reg64::Rdx, bytes),
    ).push(AsmInst::MovRegImm64(Reg64::R8, len)).push(
        AsmInst::LeaRegMem(Reg64::R9, Reg64::Rsp, IO_COUNT_SLOT_DISP),
    ).push(AsmInst::CallMemLabel(iat_label_of(t, 2))).push(
        AsmInst::CmpRegImm32(Reg64::Rax, 0),
    ).push(AsmInst::Jz(x)));
    assert(labels_in(p4) =~= z);
    assert(targets_in(p4) =~= seq![bytes.0, iat_label_of(t, 2).0, x.0]);
    lemma_exit_process_insts(iat_label_of(t, 0), 0);
    assert(p6 =~= Seq::<AsmInst>::empty().push(AsmInst::Label(x)));
    assert(labels_in(p6) =~= seq![x.0]);
    assert(targets_in(p6) =~= z);
    lemma_exit_process_insts(iat_label_of(t, 0), 1);
    lemma_slot(bytes, data);
    let l = seq![LABEL_BASE];
    let l6 = seq![x.0];
    let l8 = seq![bytes.0];
    assert(l + z =~= l);
    assert(l + l6 + z =~= l + l6);
    lemma_pieces(p0, l, p1, z, e);
    lemma_pieces(p0 + p1, l, p2, z, e);
    lemma_pieces(p0 + p1 + p2, l, p3, z, e);
    lemma_pieces(p0 + p1 + p2 + p3, l, p4, z, e);
    lemma_pieces(p0 + p1 + p2 + p3 + p4, l, p5, z, e);
    lemma_pieces(p0 + p1 + p2 + p3 + p4 + p5, l, p6, l6, e);
    lemma_pieces(p0 + p1 + p2 + p3 + p4 + p5 + p6, l + l6, p7, z, e);
    lemma_pieces(p0 + p1 + p2 + p3 + p4 + p5 + p6 + p7, l + l6, p8, l8, e);
    assert(l + l6 + l8 =~= seq![LABEL_BASE, x.0, bytes.0]);
}

/// A program with precomputed output can be packaged.
pub proof fn law_precomputed_program_is_packageable(
    data: Seq<u8>,
    program: WindowsProgram,
    ready: WindowsProgram,
)
    requires
        same_insts(program.code.insts@, precomputed_insts(data)),
        describes_table(program, LABEL_BASE - 3, stdout_imports()),
        program.entry_label == internal(LABEL_BASE as int, 0),
    ensures
        labels_bound(program.code.insts@),
        all_operands_encodable(program.code.insts@),
        ready.code.insts@ == relaxed(program.code.insts@) && same_tables(ready, program) && packs(
            program.code.insts@,
        ) ==> packageable(ready),
        offset_of(program.code.insts@, program.code.insts@.len() as int) <= i32::MAX ==> packs(
            program.code.insts@,
        ),
{
    let t = LABEL_BASE - 3;
    let front = stdout_code_insts(data.len() as i64) + seq![
        AsmInst::Label(internal(LABEL_BASE as int, 1)),
        raw(data),
    ];
    let l = seq![LABEL_BASE, internal(LABEL_BASE as int, 2).0, internal(LABEL_BASE as int, 1).0];
    lemma_stdout_code(data);
    assert(l[0] == LABEL_BASE && l[1] == LABEL_BASE - 2 && l[2] == LABEL_BASE - 1);
    assert forall|x: u32| t < x <= LABEL_BASE implies #[trigger] l.contains(x) by {
        assert(x == l[0] || x == l[1] || x == l[2]);
    }
    lemma_piece_is_front(front, l, t, 3, LABEL_BASE as int);
    lemma_front_packs(program, ready, front, t, stdout_imports());
}

} // verus!
