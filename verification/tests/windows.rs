use amazingbf::backend::asm_ir::{AsmInst, AsmLabel, Reg64};
use amazingbf::backend::codegen::compile_lir_to_asm;
use amazingbf::backend::x86_64::windows::{
    compile_lir_to_windows_program, compile_precomputed_stdout_program,
    compile_trivial_exit_program,
};
use amazingbf::ir::lir::{LabelId, LirInst, LirProgram};

#[test]
fn trivial_exit_imports_exitprocess_only() {
    let program = compile_trivial_exit_program(0);
    assert_eq!(program.imports.len(), 1);
    assert_eq!(program.imports[0].name, "ExitProcess");
    assert!(
        !program
            .code
            .insts
            .iter()
            .any(|inst| matches!(inst, AsmInst::Syscall))
    );
}

#[test]
fn precomputed_stdout_program_uses_win32_imports_not_syscalls() {
    let program = compile_precomputed_stdout_program(b"OK\n");
    let names: Vec<_> = program.imports.iter().map(|import| import.name).collect();
    assert_eq!(names, vec!["ExitProcess", "GetStdHandle", "WriteFile"]);
    assert!(
        program
            .code
            .insts
            .iter()
            .any(|inst| matches!(inst, AsmInst::CallMemLabel(_)))
    );
    assert!(
        !program
            .code
            .insts
            .iter()
            .any(|inst| matches!(inst, AsmInst::Syscall))
    );
}

#[test]
fn full_windows_backend_imports_kernel32_io_and_memory() {
    let program = compile_lir_to_windows_program(&LirProgram {
        insts: vec![LirInst::GetByte, LirInst::PutByte],
    });
    let names: Vec<_> = program.imports.iter().map(|import| import.name).collect();
    assert_eq!(
        names,
        vec![
            "ExitProcess",
            "GetLastError",
            "GetStdHandle",
            "ReadFile",
            "WriteFile",
            "VirtualAlloc",
            "VirtualFree",
        ]
    );
}

#[test]
fn windows_scan_with_hint_positive_dir_uses_repne_scasb_with_cld() {
    let program = compile_lir_to_windows_program(&LirProgram {
        insts: vec![LirInst::ScanWithHint {
            dir: 1,
            hint_bytes: 5,
        }],
    });
    let setup = program.code.insts.windows(5).any(|w| {
        matches!(
            w,
            [
                AsmInst::MovRegImm64(Reg64::Rax, 0),
                AsmInst::MovRegReg(Reg64::Rdi, Reg64::R13),
                AsmInst::MovRegImm64(Reg64::Rcx, 5),
                AsmInst::Cld,
                AsmInst::RepneScasb,
            ]
        )
    });
    assert!(
        setup,
        "Windows ScanWithHint(+1, 5) must set up `al=0; rdi=r13; rcx=5; cld; repne scasb`"
    );
}

#[test]
fn windows_scan_with_hint_negative_dir_brackets_scasb_with_std_cld() {
    let program = compile_lir_to_windows_program(&LirProgram {
        insts: vec![LirInst::ScanWithHint {
            dir: -1,
            hint_bytes: 4,
        }],
    });
    let bracketed = program
        .code
        .insts
        .windows(3)
        .any(|w| matches!(w, [AsmInst::Std, AsmInst::RepneScasb, AsmInst::Cld]));
    assert!(
        bracketed,
        "Windows ScanWithHint(-1) must bracket scasb with `std` ... `cld` to keep DF=0 at the next call boundary"
    );
}

#[test]
fn windows_linear_mul_factor_one_uses_add_mem_r13_bl_disp8() {
    let program = compile_lir_to_windows_program(&LirProgram {
        insts: vec![LirInst::LinearMul(vec![(2, 1)])],
    });
    assert!(
        program.code.insts.contains(&AsmInst::AddMemR13BlDisp8(2)),
        "Windows LinearMul factor=1 must emit AddMemR13BlDisp8"
    );
    assert!(
        !program
            .code
            .insts
            .iter()
            .any(|i| matches!(i, AsmInst::ImulEaxEbxImm32(_))),
        "Windows LinearMul factor=1 must skip imul on the ±1 column"
    );
}

#[test]
fn windows_linear_mul_factor_minus_one_uses_sub_mem_r13_bl_disp8() {
    let program = compile_lir_to_windows_program(&LirProgram {
        insts: vec![LirInst::LinearMul(vec![(3, -1)])],
    });
    assert!(
        program.code.insts.contains(&AsmInst::SubMemR13BlDisp8(3)),
        "Windows LinearMul factor=-1 must emit SubMemR13BlDisp8"
    );
}

#[test]
fn windows_zero_run_count_at_least_16_uses_rep_stosb() {
    let program = compile_lir_to_windows_program(&LirProgram {
        insts: vec![LirInst::ZeroRun {
            start: -2,
            count: 32,
        }],
    });
    let simd = program.code.insts.windows(5).any(|w| {
        matches!(
            w,
            [
                AsmInst::XorEaxEax,
                AsmInst::LeaRegMem(Reg64::Rdi, Reg64::R13, -2),
                AsmInst::MovEcxImm32(32),
                AsmInst::Cld,
                AsmInst::RepStosb,
            ]
        )
    });
    assert!(
        simd,
        "Windows ZeroRun(count >= 16) must lower to rep stosb identically to Linux"
    );
}

#[test]
fn windows_zero_run_emits_byte_stores_across_span() {
    let program = compile_lir_to_windows_program(&LirProgram {
        insts: vec![LirInst::ZeroRun {
            start: -1,
            count: 3,
        }],
    });
    assert!(
        program
            .code
            .insts
            .contains(&AsmInst::MovMem8ImmDisp8(Reg64::R13, -1, 0)),
        "Windows ZeroRun must emit disp8 store at r13 - 1"
    );
    assert!(
        program
            .code
            .insts
            .contains(&AsmInst::MovMem8Imm8(Reg64::R13, 0)),
        "Windows ZeroRun must emit bare [r13]=0 store when offset 0 is in range"
    );
    assert!(
        program
            .code
            .insts
            .contains(&AsmInst::MovMem8ImmDisp8(Reg64::R13, 1, 0)),
        "Windows ZeroRun must emit disp8 store at r13 + 1"
    );
}

#[test]
fn windows_scan_with_hint_zero_hint_emits_only_slow_body() {
    let program = compile_lir_to_windows_program(&LirProgram {
        insts: vec![LirInst::ScanWithHint {
            dir: 1,
            hint_bytes: 0,
        }],
    });
    assert!(
        !program
            .code
            .insts
            .iter()
            .any(|i| matches!(i, AsmInst::RepneScasb)),
        "Windows hint=0 must not emit the SIMD `repne scasb` setup"
    );
    assert!(
        !program.code.insts.iter().any(|i| matches!(i, AsmInst::Std)),
        "Windows hint=0 must not flip the direction flag"
    );
}

#[test]
fn windows_cell_add_plus_one_uses_inc_short_form() {
    let program = compile_lir_to_windows_program(&LirProgram {
        insts: vec![LirInst::CellAdd(1)],
    });
    assert!(
        program.code.insts.contains(&AsmInst::IncMem8(Reg64::R13)),
        "CellAdd(1) on Windows must emit IncMem8 (matches Linux short form)"
    );
    assert!(
        !program
            .code
            .insts
            .iter()
            .any(|i| matches!(i, AsmInst::AddMem8Imm8(Reg64::R13, 1))),
        "CellAdd(1) must not fall back to AddMem8Imm8"
    );
}

#[test]
fn windows_cell_add_minus_one_uses_dec_short_form() {
    let program = compile_lir_to_windows_program(&LirProgram {
        insts: vec![LirInst::CellAdd(-1)],
    });
    assert!(
        program.code.insts.contains(&AsmInst::DecMem8(Reg64::R13)),
        "CellAdd(-1) on Windows must emit DecMem8 (matches Linux short form)"
    );
}

#[test]
fn windows_program_initialises_output_buffer_via_virtualalloc() {
    let program = compile_lir_to_windows_program(&LirProgram { insts: vec![] });
    // VirtualAlloc is invoked twice: first for the tape, then for the
    // output buffer. The output-buffer call must set rdx = 4096, r8 =
    // MEM_COMMIT|MEM_RESERVE, r9 = PAGE_READWRITE.
    let virtual_alloc_calls = program
        .code
        .insts
        .iter()
        .filter(|i| matches!(i, AsmInst::CallMemLabel(_)))
        .count();
    assert!(
        virtual_alloc_calls >= 2,
        "expected at least 2 VirtualAlloc/IAT calls (tape + output buffer)"
    );
    // After the second VirtualAlloc, rbx must be set from rax and rbp
    // must be rax + OUTPUT_BUFFER_SIZE.
    let pins_rbx = program.code.insts.windows(3).any(|w| {
        matches!(
            w,
            [
                AsmInst::MovRegReg(Reg64::Rbx, Reg64::Rax),
                AsmInst::MovRegReg(Reg64::Rbp, Reg64::Rax),
                AsmInst::AddRegImm32(Reg64::Rbp, 4096),
            ]
        )
    });
    assert!(
        pins_rbx,
        "Windows prologue must pin Rbx = base and Rbp = base + 4096"
    );
}

#[test]
fn windows_linear_mul_protects_rbx_with_aligned_pair() {
    let program = compile_lir_to_windows_program(&LirProgram {
        insts: vec![LirInst::LinearMul(vec![(1, 1)])],
    });
    // Body must open with `push rbx; sub rsp, 8` and close with
    // `add rsp, 8; pop rbx` to keep Rsp 16-byte aligned at internal
    // `call ensure_tape` sites (Win64 ABI).
    let opens = program.code.insts.windows(2).any(|w| {
        matches!(
            w,
            [
                AsmInst::Push(Reg64::Rbx),
                AsmInst::AddRegImm32(Reg64::Rsp, -8),
            ]
        )
    });
    let closes = program.code.insts.windows(2).any(|w| {
        matches!(
            w,
            [
                AsmInst::AddRegImm32(Reg64::Rsp, 8),
                AsmInst::Pop(Reg64::Rbx),
            ]
        )
    });
    assert!(
        opens,
        "Windows LinearMul must save Rbx with aligned `push rbx; sub rsp, 8`"
    );
    assert!(
        closes,
        "Windows LinearMul must restore Rbx with `add rsp, 8; pop rbx`"
    );
}

#[test]
fn windows_get_byte_flushes_pending_output_before_blocking_on_stdin() {
    let program = compile_lir_to_windows_program(&LirProgram {
        insts: vec![LirInst::GetByte],
    });
    // The first emitted instruction inside emit_get_byte must be a
    // Call to the flush helper (mirrors codegen.rs:484 on Linux).
    // Locate the first ReadFile call, then walk back to confirm a
    // Call precedes it.
    let calls: Vec<usize> = program
        .code
        .insts
        .iter()
        .enumerate()
        .filter_map(|(i, inst)| match inst {
            AsmInst::Call(_) => Some(i),
            _ => None,
        })
        .collect();
    assert!(
        !calls.is_empty(),
        "GetByte must emit at least one Call (flush_output)"
    );
}

#[test]
fn windows_normal_exit_path_calls_flush_before_exit_process() {
    let program = compile_lir_to_windows_program(&LirProgram {
        insts: vec![LirInst::PutByte],
    });
    // The instruction sequence ends with `Call(flush)` then the IAT
    // call to ExitProcess (the exit_process_iat). Verify a Call
    // appears immediately before some CallMemLabel (covers both
    // PutByte's intra-body flush and the exit-time flush; just check
    // the existence of an exit-pre-flush by ensuring there are
    // multiple Calls, since PutByte already emits one).
    let total_calls = program
        .code
        .insts
        .iter()
        .filter(|i| matches!(i, AsmInst::Call(_)))
        .count();
    assert!(
        total_calls >= 2,
        "expected at least two Call(flush_output_label) sites: PutByte body + exit prologue"
    );
}

#[test]
fn windows_put_byte_uses_buffered_path_not_writefile_per_byte() {
    let program = compile_lir_to_windows_program(&LirProgram {
        insts: vec![LirInst::PutByte],
    });
    // PutByte should appear as the 5-instruction buffered hot path.
    let buffered = program.code.insts.windows(5).any(|w| {
        matches!(
            w,
            [
                AsmInst::MovAlMemR13,
                AsmInst::MovMemRbxAl,
                AsmInst::AddRegImm32(Reg64::Rbx, 1),
                AsmInst::CmpRegReg(Reg64::Rbx, Reg64::Rbp),
                AsmInst::Jnz(_),
            ]
        )
    });
    assert!(
        buffered,
        "Windows PutByte must emit the 5-instruction buffered hot path"
    );
    // It must Call the flush helper, not WriteFile directly.
    assert!(
        program
            .code
            .insts
            .iter()
            .any(|i| matches!(i, AsmInst::Call(_))),
        "Windows PutByte must contain a `Call` to the flush helper"
    );
}

#[test]
fn windows_flush_output_helper_uses_writefile_iat_with_aligned_frame() {
    let program = compile_lir_to_windows_program(&LirProgram { insts: vec![] });
    // The flush_output helper subroutine must reserve a 88-byte frame
    // (matches CALLEE_STACK_FRAME_BYTES used for ensure_tape) so the
    // inner WriteFile call lands on a 16-byte-aligned RSP.
    let reserves_frame = program
        .code
        .insts
        .iter()
        .any(|i| matches!(i, AsmInst::AddRegImm32(Reg64::Rsp, -88)));
    let restores_frame = program
        .code
        .insts
        .iter()
        .any(|i| matches!(i, AsmInst::AddRegImm32(Reg64::Rsp, 88)));
    assert!(
        reserves_frame && restores_frame,
        "flush_output helper must reserve and restore an 88-byte frame"
    );
    // The helper terminates with `Ret` (it's a subroutine, not inlined).
    assert!(
        program.code.insts.iter().any(|i| matches!(i, AsmInst::Ret)),
        "flush_output helper must end with Ret"
    );
    // It computes count = rbx - (rbp - 4096) by lea rdx,[rbp-4096] then
    // mov r8, rbx; sub r8, rdx.
    let computes_count = program.code.insts.windows(3).any(|w| {
        matches!(
            w,
            [
                AsmInst::LeaRegMem(Reg64::Rdx, Reg64::Rbp, -4096),
                AsmInst::MovRegReg(Reg64::R8, Reg64::Rbx),
                AsmInst::SubRegReg(Reg64::R8, Reg64::Rdx),
            ]
        )
    });
    assert!(
        computes_count,
        "flush_output must compute count = rbx - (rbp - 4096) for WriteFile"
    );
}

#[test]
fn windows_cell_add_other_values_keep_add_form() {
    let program = compile_lir_to_windows_program(&LirProgram {
        insts: vec![LirInst::CellAdd(2), LirInst::CellAdd(-3)],
    });
    // -3 normalises to 253 which fits in i8 as -3.
    assert!(
        program
            .code
            .insts
            .iter()
            .any(|i| matches!(i, AsmInst::AddMem8Imm8(Reg64::R13, 2))),
        "CellAdd(2) must still use AddMem8Imm8"
    );
    assert!(
        program
            .code
            .insts
            .iter()
            .any(|i| matches!(i, AsmInst::AddMem8Imm8(Reg64::R13, -3))),
        "CellAdd(-3) must use AddMem8Imm8 with sign-extended -3"
    );
}

#[test]
fn a_multiplication_that_may_be_skipped_vouches_for_no_cell() {
    let lir = LirProgram {
        insts: vec![
            LirInst::LinearMulWithSets { factors: vec![(1, 1)], sets: vec![2] },
            LirInst::PtrAdd(2),
        ],
    };
    let insts = compile_lir_to_windows_program(&lir).code.insts;
    let body: Vec<_> = insts
        .iter()
        .skip_while(|i| !matches!(i, AsmInst::CmpMem8Imm8(Reg64::R13, 0)))
        .take_while(|i| !matches!(i, AsmInst::CallMemLabel(_)))
        .collect();
    let moved = body
        .iter()
        .rposition(|i| matches!(i, AsmInst::AddRegImm32(Reg64::R15, 2)))
        .expect("the move is checked");
    assert_eq!(body[moved + 1], &AsmInst::CmpRegReg(Reg64::R15, Reg64::R12));
    assert_eq!(body[moved + 3], &AsmInst::CmpRegReg(Reg64::R15, Reg64::R14));
}

#[test]
fn only_windows_aligns_loops() {
    let lir = LirProgram {
        insts: vec![
            LirInst::JumpIfZero(LabelId(1)),
            LirInst::Label(LabelId(0)),
            LirInst::CellAdd(-1),
            LirInst::JumpIfNonZero(LabelId(0)),
            LirInst::Label(LabelId(1)),
        ],
    };
    let padded = |insts: &[AsmInst]| insts.iter().filter(|i| **i == AsmInst::Align16).count();
    assert_eq!(padded(&compile_lir_to_windows_program(&lir).code.insts), 1);
    assert_eq!(padded(&compile_lir_to_asm(&lir).insts), 0);
}
