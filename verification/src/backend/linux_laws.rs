//! Programs of the Linux back end can be encoded.

use vstd::prelude::*;

use crate::backend::asm_ir::{AsmInst, AsmLabel, Reg64};
use crate::backend::codegen::{
    LinuxEmitter, ENSURE_TAPE_ID, EXIT_ONE_ID, FLUSH_OUTPUT_ID, GROW_LOOP_ID, INITIAL_TAPE_SIZE,
    INTERNAL_LABEL_BASE, OUTPUT_BUFFER_SIZE,
};
use crate::backend::codegen::{
    adopt_new_insts, copy_old_insts, ensure_tape_insts, exit_one_insts, flush_output_insts,
    grow_search_insts, init_output_insts, init_tape_insts, linux_body, linux_insts, linux_ok,
    linux_routines, map_new_insts, normal_exit_insts, restore_lengths_insts, unmap_old_insts,
};
use crate::backend::codegen_common::{internal, lir_body, PlatformEmitter};
use crate::backend::codegen_laws::{
    lemma_body_is_labelled, lemma_plain_concat, lemma_wrap, platform_labelled, user_labels_ok,
};
use crate::backend::labels::{
    labels_in, lemma_labels_concat, lemma_labels_empty, lemma_labels_push, lemma_program_encodable,
    lemma_targets_push, plain, targets_in, well_labelled,
};
use crate::backend::x86_64::encode::{encodable, offset_of};
use crate::backend::x86_64::relax::unaligned;
use crate::ir::lir::LirProgram;

verus! {

proof fn lemma_init_tape_insts(exit_one_label: AsmLabel)
    ensures
        plain(init_tape_insts(exit_one_label)),
        labels_in(init_tape_insts(exit_one_label)) == Seq::<u32>::empty(),
        targets_in(init_tape_insts(exit_one_label)) == Seq::<u32>::empty().push(exit_one_label.0),
{
    broadcast use {lemma_labels_push, lemma_targets_push, lemma_labels_empty};

    assert(init_tape_insts(exit_one_label) =~= Seq::<AsmInst>::empty()
        .push(AsmInst::MovRegImm64(Reg64::Rax, 9))
        .push(AsmInst::MovRegImm64(Reg64::Rdi, 0))
        .push(AsmInst::MovRegImm64(Reg64::Rsi, INITIAL_TAPE_SIZE))
        .push(AsmInst::MovRegImm64(Reg64::Rdx, 0x3))
        .push(AsmInst::MovRegImm64(Reg64::R10, 0x22))
        .push(AsmInst::MovRegImm64(Reg64::R8, (-1) as i64))
        .push(AsmInst::MovRegImm64(Reg64::R9, 0))
        .push(AsmInst::Syscall)
        .push(AsmInst::CmpRegImm32(Reg64::Rax, 0))
        .push(AsmInst::Jl(exit_one_label))
        .push(AsmInst::MovRegReg(Reg64::R12, Reg64::Rax))
        .push(AsmInst::MovRegReg(Reg64::R13, Reg64::Rax))
        .push(AsmInst::AddRegImm32(Reg64::R13, 2048))
        .push(AsmInst::MovRegReg(Reg64::R14, Reg64::Rax))
        .push(AsmInst::AddRegImm32(Reg64::R14, 4096)));
}

proof fn lemma_init_output_insts(exit_one_label: AsmLabel)
    ensures
        plain(init_output_insts(exit_one_label)),
        labels_in(init_output_insts(exit_one_label)) == Seq::<u32>::empty(),
        targets_in(init_output_insts(exit_one_label)) == Seq::<u32>::empty().push(exit_one_label.0),
{
    broadcast use {lemma_labels_push, lemma_targets_push, lemma_labels_empty};

    assert(init_output_insts(exit_one_label) =~= Seq::<AsmInst>::empty()
        .push(AsmInst::MovRegImm64(Reg64::Rax, 9))
        .push(AsmInst::MovRegImm64(Reg64::Rdi, 0))
        .push(AsmInst::MovRegImm64(Reg64::Rsi, OUTPUT_BUFFER_SIZE))
        .push(AsmInst::MovRegImm64(Reg64::Rdx, 0x3))
        .push(AsmInst::MovRegImm64(Reg64::R10, 0x22))
        .push(AsmInst::MovRegImm64(Reg64::R8, (-1) as i64))
        .push(AsmInst::MovRegImm64(Reg64::R9, 0))
        .push(AsmInst::Syscall)
        .push(AsmInst::CmpRegImm32(Reg64::Rax, 0))
        .push(AsmInst::Jl(exit_one_label))
        .push(AsmInst::MovRegReg(Reg64::Rbx, Reg64::Rax))
        .push(AsmInst::MovRegReg(Reg64::Rbp, Reg64::Rax))
        .push(AsmInst::AddRegImm32(Reg64::Rbp, 4096)));
}

proof fn lemma_normal_exit_insts()
    ensures
        plain(normal_exit_insts()),
        labels_in(normal_exit_insts()) == Seq::<u32>::empty(),
        targets_in(normal_exit_insts()) == Seq::<u32>::empty().push(FLUSH_OUTPUT_ID),
{
    broadcast use {lemma_labels_push, lemma_targets_push, lemma_labels_empty};

    assert(normal_exit_insts() =~= Seq::<AsmInst>::empty()
        .push(AsmInst::Call(AsmLabel(FLUSH_OUTPUT_ID)))
        .push(AsmInst::MovRegImm64(Reg64::Rax, 60))
        .push(AsmInst::MovRegImm64(Reg64::Rdi, 0))
        .push(AsmInst::Syscall));
}

proof fn lemma_grow_search_insts(ensure_tape_label: AsmLabel, grow_loop: AsmLabel)
    ensures
        plain(grow_search_insts(ensure_tape_label, grow_loop)),
        labels_in(grow_search_insts(ensure_tape_label, grow_loop)) == Seq::<u32>::empty()
            .push(ensure_tape_label.0)
            .push(grow_loop.0),
        targets_in(grow_search_insts(ensure_tape_label, grow_loop)) == Seq::<u32>::empty()
            .push(grow_loop.0)
            .push(grow_loop.0),
{
    broadcast use {lemma_labels_push, lemma_targets_push, lemma_labels_empty};

    assert(grow_search_insts(ensure_tape_label, grow_loop) =~= Seq::<AsmInst>::empty()
        .push(AsmInst::Label(ensure_tape_label))
        .push(AsmInst::MovRegReg(Reg64::R10, Reg64::R14))
        .push(AsmInst::SubRegReg(Reg64::R10, Reg64::R12))
        .push(AsmInst::MovRegReg(Reg64::R9, Reg64::R15))
        .push(AsmInst::SubRegReg(Reg64::R9, Reg64::R12))
        .push(AsmInst::MovRegReg(Reg64::R11, Reg64::R10))
        .push(AsmInst::Label(grow_loop))
        .push(AsmInst::AddRegReg(Reg64::R11, Reg64::R11))
        .push(AsmInst::MovRegReg(Reg64::R8, Reg64::R11))
        .push(AsmInst::SubRegReg(Reg64::R8, Reg64::R10))
        .push(AsmInst::ShrRegImm8(Reg64::R8, 1))
        .push(AsmInst::MovRegReg(Reg64::Rax, Reg64::R8))
        .push(AsmInst::AddRegReg(Reg64::Rax, Reg64::R9))
        .push(AsmInst::CmpRegImm32(Reg64::Rax, 0))
        .push(AsmInst::Jl(grow_loop))
        .push(AsmInst::CmpRegReg(Reg64::Rax, Reg64::R11))
        .push(AsmInst::Jge(grow_loop)));
}

proof fn lemma_map_new_insts(exit_one_label: AsmLabel)
    ensures
        plain(map_new_insts(exit_one_label)),
        labels_in(map_new_insts(exit_one_label)) == Seq::<u32>::empty(),
        targets_in(map_new_insts(exit_one_label)) == Seq::<u32>::empty().push(exit_one_label.0),
{
    broadcast use {lemma_labels_push, lemma_targets_push, lemma_labels_empty};

    assert(map_new_insts(exit_one_label) =~= Seq::<AsmInst>::empty()
        .push(AsmInst::MovRegImm64(Reg64::Rax, 9))
        .push(AsmInst::MovRegImm64(Reg64::Rdi, 0))
        .push(AsmInst::MovRegReg(Reg64::Rsi, Reg64::R11))
        .push(AsmInst::MovRegImm64(Reg64::Rdx, 0x3))
        .push(AsmInst::MovRegImm64(Reg64::R10, 0x22))
        .push(AsmInst::MovRegImm64(Reg64::R8, (-1) as i64))
        .push(AsmInst::MovRegImm64(Reg64::R9, 0))
        .push(AsmInst::Syscall)
        .push(AsmInst::CmpRegImm32(Reg64::Rax, 0))
        .push(AsmInst::Jl(exit_one_label)));
}

proof fn lemma_restore_lengths_insts()
    ensures
        plain(restore_lengths_insts()),
        labels_in(restore_lengths_insts()) == Seq::<u32>::empty(),
        targets_in(restore_lengths_insts()) == Seq::<u32>::empty(),
{
    broadcast use {lemma_labels_push, lemma_targets_push, lemma_labels_empty};

    assert(restore_lengths_insts() =~= Seq::<AsmInst>::empty()
        .push(AsmInst::MovRegReg(Reg64::R10, Reg64::R14))
        .push(AsmInst::SubRegReg(Reg64::R10, Reg64::R12))
        .push(AsmInst::MovRegReg(Reg64::R9, Reg64::R15))
        .push(AsmInst::SubRegReg(Reg64::R9, Reg64::R12))
        .push(AsmInst::MovRegReg(Reg64::R11, Reg64::Rsi))
        .push(AsmInst::MovRegReg(Reg64::R8, Reg64::R11))
        .push(AsmInst::SubRegReg(Reg64::R8, Reg64::R10))
        .push(AsmInst::ShrRegImm8(Reg64::R8, 1))
        .push(AsmInst::MovRegReg(Reg64::Rdx, Reg64::Rax)));
}

proof fn lemma_copy_old_insts()
    ensures
        plain(copy_old_insts()),
        labels_in(copy_old_insts()) == Seq::<u32>::empty(),
        targets_in(copy_old_insts()) == Seq::<u32>::empty(),
{
    broadcast use {lemma_labels_push, lemma_targets_push, lemma_labels_empty};

    assert(copy_old_insts() =~= Seq::<AsmInst>::empty()
        .push(AsmInst::MovRegReg(Reg64::Rdi, Reg64::Rdx))
        .push(AsmInst::AddRegReg(Reg64::Rdi, Reg64::R8))
        .push(AsmInst::MovRegReg(Reg64::Rsi, Reg64::R12))
        .push(AsmInst::MovRegReg(Reg64::Rcx, Reg64::R10))
        .push(AsmInst::Cld)
        .push(AsmInst::RepMovsb)
        .push(AsmInst::MovRegReg(Reg64::R14, Reg64::Rdx))
        .push(AsmInst::AddRegReg(Reg64::R14, Reg64::R11)));
}

proof fn lemma_unmap_old_insts(exit_one_label: AsmLabel)
    ensures
        plain(unmap_old_insts(exit_one_label)),
        labels_in(unmap_old_insts(exit_one_label)) == Seq::<u32>::empty(),
        targets_in(unmap_old_insts(exit_one_label)) == Seq::<u32>::empty().push(exit_one_label.0),
{
    broadcast use {lemma_labels_push, lemma_targets_push, lemma_labels_empty};

    assert(unmap_old_insts(exit_one_label) =~= Seq::<AsmInst>::empty()
        .push(AsmInst::MovRegImm64(Reg64::Rax, 11))
        .push(AsmInst::MovRegReg(Reg64::Rdi, Reg64::R12))
        .push(AsmInst::MovRegReg(Reg64::Rsi, Reg64::R10))
        .push(AsmInst::Syscall)
        .push(AsmInst::CmpRegImm32(Reg64::Rax, 0))
        .push(AsmInst::Jl(exit_one_label)));
}

proof fn lemma_adopt_new_insts()
    ensures
        plain(adopt_new_insts()),
        labels_in(adopt_new_insts()) == Seq::<u32>::empty(),
        targets_in(adopt_new_insts()) == Seq::<u32>::empty(),
{
    broadcast use {lemma_labels_push, lemma_targets_push, lemma_labels_empty};

    assert(adopt_new_insts() =~= Seq::<AsmInst>::empty()
        .push(AsmInst::MovRegReg(Reg64::R12, Reg64::Rdx))
        .push(AsmInst::MovRegReg(Reg64::R13, Reg64::Rdx))
        .push(AsmInst::AddRegReg(Reg64::R13, Reg64::R8))
        .push(AsmInst::AddRegReg(Reg64::R13, Reg64::R9))
        .push(AsmInst::Ret));
}

proof fn lemma_flush_output_insts(label: AsmLabel)
    ensures
        plain(flush_output_insts(label)),
        labels_in(flush_output_insts(label)) == Seq::<u32>::empty().push(label.0),
        targets_in(flush_output_insts(label)) == Seq::<u32>::empty(),
{
    broadcast use {lemma_labels_push, lemma_targets_push, lemma_labels_empty};

    assert(flush_output_insts(label) =~= Seq::<AsmInst>::empty()
        .push(AsmInst::Label(label))
        .push(AsmInst::LeaRegMem(Reg64::Rsi, Reg64::Rbp, (-4096) as i32))
        .push(AsmInst::MovRegReg(Reg64::Rdx, Reg64::Rbx))
        .push(AsmInst::SubRegReg(Reg64::Rdx, Reg64::Rsi))
        .push(AsmInst::MovRegImm64(Reg64::Rax, 1))
        .push(AsmInst::MovRegImm64(Reg64::Rdi, 1))
        .push(AsmInst::Syscall)
        .push(AsmInst::MovRegReg(Reg64::Rbx, Reg64::Rsi))
        .push(AsmInst::Ret));
}

proof fn lemma_exit_one_insts(label: AsmLabel)
    ensures
        plain(exit_one_insts(label)),
        labels_in(exit_one_insts(label)) == Seq::<u32>::empty().push(label.0),
        targets_in(exit_one_insts(label)) == Seq::<u32>::empty(),
{
    broadcast use {lemma_labels_push, lemma_targets_push, lemma_labels_empty};

    assert(exit_one_insts(label) =~= Seq::<AsmInst>::empty()
        .push(AsmInst::Label(label))
        .push(AsmInst::MovRegImm64(Reg64::Rax, 60))
        .push(AsmInst::MovRegImm64(Reg64::Rdi, 1))
        .push(AsmInst::Syscall));
}

/// The labels that a body may refer to besides its own.
spec fn linux_ext() -> Set<u32> {
    set![ENSURE_TAPE_ID, FLUSH_OUTPUT_ID, EXIT_ONE_ID]
}

proof fn lemma_linux_io()
    ensures
        platform_labelled(LinuxEmitter, linux_routines(), linux_ext()),
{
    broadcast use {lemma_labels_push, lemma_targets_push, lemma_labels_empty};

    let routines = linux_routines();
    let p = LinuxEmitter;
    assert forall|next: int| p.put_byte_labels() <= next <= u32::MAX implies well_labelled(
        #[trigger] p.put_byte_insts(next, routines.flush_output),
        next,
        next - p.put_byte_labels(),
        linux_ext(),
    ) by {
        let code = p.put_byte_insts(next, routines.flush_output);
        let skip = internal(next, 0);
        assert(code =~= Seq::<AsmInst>::empty().push(AsmInst::MovAlMemR13).push(
            AsmInst::MovMemRbxAl,
        ).push(AsmInst::AddRegImm32(Reg64::Rbx, 1)).push(
            AsmInst::CmpRegReg(Reg64::Rbx, Reg64::Rbp),
        ).push(AsmInst::Jnz(skip)).push(AsmInst::Call(routines.flush_output)).push(
            AsmInst::Label(skip),
        ));
        assert(labels_in(code) =~= seq![skip.0]);
        assert(labels_in(code)[0] == skip.0);
        assert(targets_in(code) =~= seq![skip.0, FLUSH_OUTPUT_ID]);
    }
    assert forall|next: int| p.get_byte_labels() <= next <= u32::MAX implies well_labelled(
        #[trigger] p.get_byte_insts(next, routines.exit_one, routines.flush_output),
        next,
        next - p.get_byte_labels(),
        linux_ext(),
    ) by {
        let code = p.get_byte_insts(next, routines.exit_one, routines.flush_output);
        let done = internal(next, 0);
        assert(code =~= Seq::<AsmInst>::empty().push(AsmInst::Call(routines.flush_output)).push(
            AsmInst::MovRegImm64(Reg64::Rax, 0),
        ).push(AsmInst::MovRegImm64(Reg64::Rdi, 0)).push(
            AsmInst::MovRegReg(Reg64::Rsi, Reg64::R13),
        ).push(AsmInst::MovRegImm64(Reg64::Rdx, 1)).push(AsmInst::Syscall).push(
            AsmInst::CmpRegImm32(Reg64::Rax, 0),
        ).push(AsmInst::Jl(routines.exit_one)).push(AsmInst::Jnz(done)).push(
            AsmInst::MovMem8Imm8(Reg64::R13, 255),
        ).push(AsmInst::Label(done)));
        assert(labels_in(code) =~= seq![done.0]);
        assert(labels_in(code)[0] == done.0);
        assert(targets_in(code) =~= seq![FLUSH_OUTPUT_ID, EXIT_ONE_ID, done.0]);
    }
}

proof fn lemma_setup()
    ensures
        ({
            let a = init_tape_insts(AsmLabel(EXIT_ONE_ID)) + init_output_insts(
                AsmLabel(EXIT_ONE_ID),
            );
            &&& plain(a)
            &&& labels_in(a) == Seq::<u32>::empty()
            &&& targets_in(a) == seq![EXIT_ONE_ID, EXIT_ONE_ID]
        }),
{
    let e = AsmLabel(EXIT_ONE_ID);
    lemma_init_tape_insts(e);
    lemma_init_output_insts(e);
    lemma_plain_concat(init_tape_insts(e), init_output_insts(e));
    lemma_labels_concat(init_tape_insts(e), init_output_insts(e));
    let a = init_tape_insts(e) + init_output_insts(e);
    assert(labels_in(a) =~= Seq::<u32>::empty());
    assert(targets_in(a) =~= seq![EXIT_ONE_ID, EXIT_ONE_ID]);
}

proof fn lemma_growth()
    ensures
        ({
            let c = ensure_tape_insts(AsmLabel(ENSURE_TAPE_ID), AsmLabel(EXIT_ONE_ID));
            &&& plain(c)
            &&& labels_in(c) == seq![ENSURE_TAPE_ID, GROW_LOOP_ID]
            &&& targets_in(c) == seq![GROW_LOOP_ID, GROW_LOOP_ID, EXIT_ONE_ID, EXIT_ONE_ID]
        }),
{
    let t = AsmLabel(ENSURE_TAPE_ID);
    let e = AsmLabel(EXIT_ONE_ID);
    let g = AsmLabel(GROW_LOOP_ID);
    lemma_grow_search_insts(t, g);
    lemma_map_new_insts(e);
    lemma_restore_lengths_insts();
    lemma_copy_old_insts();
    lemma_unmap_old_insts(e);
    lemma_adopt_new_insts();
    let p0 = grow_search_insts(t, g);
    let p1 = map_new_insts(e);
    let p2 = restore_lengths_insts();
    let p3 = copy_old_insts();
    let p4 = unmap_old_insts(e);
    let p5 = adopt_new_insts();
    lemma_plain_concat(p0, p1);
    lemma_plain_concat(p0 + p1, p2);
    lemma_plain_concat(p0 + p1 + p2, p3);
    lemma_plain_concat(p0 + p1 + p2 + p3, p4);
    lemma_plain_concat(p0 + p1 + p2 + p3 + p4, p5);
    lemma_labels_concat(p0, p1);
    lemma_labels_concat(p0 + p1, p2);
    lemma_labels_concat(p0 + p1 + p2, p3);
    lemma_labels_concat(p0 + p1 + p2 + p3, p4);
    lemma_labels_concat(p0 + p1 + p2 + p3 + p4, p5);
    let c = ensure_tape_insts(t, e);
    assert(labels_in(c) =~= seq![ENSURE_TAPE_ID, GROW_LOOP_ID]);
    assert(targets_in(c) =~= seq![GROW_LOOP_ID, GROW_LOOP_ID, EXIT_ONE_ID, EXIT_ONE_ID]);
}

/// What follows the body.
spec fn linux_tail() -> Seq<AsmInst> {
    normal_exit_insts() + ensure_tape_insts(AsmLabel(ENSURE_TAPE_ID), AsmLabel(EXIT_ONE_ID))
        + flush_output_insts(AsmLabel(FLUSH_OUTPUT_ID)) + exit_one_insts(AsmLabel(EXIT_ONE_ID))
}

proof fn lemma_tail()
    ensures
        plain(linux_tail()),
        labels_in(linux_tail()) == seq![
            ENSURE_TAPE_ID,
            GROW_LOOP_ID,
            FLUSH_OUTPUT_ID,
            EXIT_ONE_ID,
        ],
        targets_in(linux_tail()) == seq![
            FLUSH_OUTPUT_ID,
            GROW_LOOP_ID,
            GROW_LOOP_ID,
            EXIT_ONE_ID,
            EXIT_ONE_ID,
        ],
{
    let t = AsmLabel(ENSURE_TAPE_ID);
    let e = AsmLabel(EXIT_ONE_ID);
    let f = AsmLabel(FLUSH_OUTPUT_ID);
    lemma_normal_exit_insts();
    lemma_growth();
    lemma_flush_output_insts(f);
    lemma_exit_one_insts(e);
    let p0 = normal_exit_insts();
    let p1 = ensure_tape_insts(t, e);
    let p2 = flush_output_insts(f);
    let p3 = exit_one_insts(e);
    lemma_plain_concat(p0, p1);
    lemma_plain_concat(p0 + p1, p2);
    lemma_plain_concat(p0 + p1 + p2, p3);
    lemma_labels_concat(p0, p1);
    lemma_labels_concat(p0 + p1, p2);
    lemma_labels_concat(p0 + p1 + p2, p3);
    assert(labels_in(linux_tail()) =~= seq![
        ENSURE_TAPE_ID,
        GROW_LOOP_ID,
        FLUSH_OUTPUT_ID,
        EXIT_ONE_ID,
    ]);
    assert(targets_in(linux_tail()) =~= seq![
        FLUSH_OUTPUT_ID,
        GROW_LOOP_ID,
        GROW_LOOP_ID,
        EXIT_ONE_ID,
        EXIT_ONE_ID,
    ]);
}

/// The labels of a source program are in order for the Linux back end: bound
/// once each, every jump has a target, and none reaches the internal labels.
pub open spec fn linux_labels_ok(lir: LirProgram) -> bool {
    user_labels_ok(
        lir.insts@,
        lir_body(
            LinuxEmitter,
            lir.insts@,
            linux_routines(),
            INTERNAL_LABEL_BASE as int,
            lir.insts@.len() as int,
        ).next,
    )
}

/// The set-up binds no label, and the body none twice.
pub proof fn lemma_linux_labels(lir: LirProgram)
    requires
        linux_ok(lir),
        linux_labels_ok(lir),
    ensures
        labels_in(
            init_tape_insts(AsmLabel(EXIT_ONE_ID)) + init_output_insts(AsmLabel(EXIT_ONE_ID)),
        ) == Seq::<u32>::empty(),
        labels_in(linux_body(lir)).no_duplicates(),
{
    lemma_setup();
    lemma_linux_io();
    lemma_body_is_labelled(
        LinuxEmitter,
        lir.insts@,
        linux_routines(),
        INTERNAL_LABEL_BASE as int,
        linux_ext(),
    );
}

/// What the Linux back end emits for a program whose labels are in order can
/// be encoded: internal labels never collide with each other, with the
/// routines or with the program's own labels, and every jump and call has its
/// target. The one condition is code below two gibibytes. It holds no padding.
pub proof fn law_linux_program_is_encodable(lir: LirProgram)
    requires
        linux_ok(lir),
        linux_labels_ok(lir),
        offset_of(linux_insts(lir), linux_insts(lir).len() as int) <= i32::MAX,
    ensures
        encodable(linux_insts(lir)),
        unaligned(linux_insts(lir)),
{
    let all = linux_insts(lir);
    let e = AsmLabel(EXIT_ONE_ID);
    let a = init_tape_insts(e) + init_output_insts(e);
    let mid = linux_body(lir);
    let c = linux_tail();
    lemma_setup();
    lemma_tail();
    lemma_linux_io();
    lemma_body_is_labelled(
        LinuxEmitter,
        lir.insts@,
        linux_routines(),
        INTERNAL_LABEL_BASE as int,
        linux_ext(),
    );
    let outer = labels_in(a) + labels_in(c);
    assert(outer =~= labels_in(c));
    assert(outer[0] == ENSURE_TAPE_ID && outer[2] == FLUSH_OUTPUT_ID && outer[3] == EXIT_ONE_ID
        && outer[1] == GROW_LOOP_ID);
    lemma_wrap(
        a,
        mid,
        c,
        u32::MAX as int,
        INTERNAL_LABEL_BASE as int,
        -1,
        -1,
        linux_ext(),
    );
    assert(all =~= a + mid + c);
    lemma_labels_concat(a, mid);
    lemma_labels_concat(a + mid, c);
    let l = labels_in(all);
    let base = (labels_in(a) + labels_in(mid)).len() as int;
    assert(l[base] == ENSURE_TAPE_ID);
    assert(l[base + 2] == FLUSH_OUTPUT_ID);
    assert(l[base + 3] == EXIT_ONE_ID);
    lemma_program_encodable(all);
}

} // verus!
