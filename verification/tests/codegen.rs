use amazingbf::backend::asm_ir::{AsmInst, Reg64};
use amazingbf::backend::codegen::{compile_lir_to_asm, compile_precomputed_stdout_asm};
use amazingbf::backend::x86_64::encode::encode_program;
use amazingbf::ir::lir::{LabelId, LirInst, LirProgram};

#[test]
fn get_byte_sets_eof_cell_to_255() {
    let program = compile_lir_to_asm(&LirProgram {
        insts: vec![LirInst::GetByte],
    });

    let mut matched = false;
    for window in program.insts.windows(5) {
        matched = matches!(
            window,
            [
                AsmInst::CmpRegImm32(Reg64::Rax, 0),
                AsmInst::Jl(_),
                AsmInst::Jnz(_),
                AsmInst::MovMem8Imm8(Reg64::R13, 255),
                AsmInst::Label(_)
            ]
        );

        if matched {
            break;
        }
    }

    assert!(matched, "GetByte should map EOF to 255 in generated program");
}

#[test]
fn ptr_add_is_emitted_without_i32_truncation() {
    let large_delta = isize::try_from(i64::from(i32::MAX) + 5).unwrap();
    let program = compile_lir_to_asm(&LirProgram {
        insts: vec![LirInst::PtrAdd(large_delta)],
    });

    let chunks: Vec<i32> = program
        .insts
        .iter()
        .filter_map(|inst| match inst {
            AsmInst::AddRegImm32(Reg64::R15, imm) => Some(*imm),
            _ => None,
        })
        .collect();

    assert_eq!(chunks, vec![i32::MAX, 5]);
}

#[test]
fn precomputed_stdout_asm_encodes_large_stack_offsets() {
    let data: Vec<u8> = (0..130).map(|i| (i % 256) as u8).collect();
    let program = compile_precomputed_stdout_asm(&data);
    let encoded = encode_program(&program);
    assert!(
        encoded.text.len() > 400,
        "130 output bytes should use disp8 + disp32 mov-to-[rsp+i] encodings"
    );
}

#[test]
fn cell_add_at_emits_disp8_add() {
    let program = compile_lir_to_asm(&LirProgram {
        insts: vec![LirInst::CellAddAt { off: 3, delta: 5 }],
    });
    assert!(
        program.insts
            .contains(&AsmInst::AddMem8ImmDisp8(Reg64::R13, 3, 5)),
        "CellAddAt(3,5) should lower to AddMem8ImmDisp8(R13, 3, 5)"
    );
}

#[test]
fn cell_set_at_emits_disp8_mov() {
    let program = compile_lir_to_asm(&LirProgram {
        insts: vec![LirInst::CellSetAt { off: -4, val: 0x41 }],
    });
    assert!(
        program.insts
            .contains(&AsmInst::MovMem8ImmDisp8(Reg64::R13, -4, 0x41)),
        "CellSetAt(-4, 0x41) should lower to MovMem8ImmDisp8(R13, -4, 0x41)"
    );
}

#[test]
fn cell_add_at_normalises_negative_delta() {
    let program = compile_lir_to_asm(&LirProgram {
        insts: vec![LirInst::CellAddAt { off: 2, delta: -3 }],
    });
    // -3 mod 256 == 253 == 0xFD == -3 as i8.
    assert!(
        program.insts
            .contains(&AsmInst::AddMem8ImmDisp8(Reg64::R13, 2, -3)),
        "CellAddAt(2,-3) should normalise delta and emit signed 0xFD byte"
    );
}

#[test]
fn cell_add_at_with_zero_delta_emits_nothing() {
    let program = compile_lir_to_asm(&LirProgram {
        insts: vec![LirInst::CellAddAt { off: 3, delta: 256 }],
    });
    for inst in &program.insts {
        assert!(
            !matches!(inst, AsmInst::AddMem8ImmDisp8(_, 3, _)),
            "CellAddAt(3, 256) should produce no disp8 add (imm mod 256 == 0)"
        );
    }
}

#[test]
fn ptr_add_checked_degenerate_window_emits_nothing() {
    // `lo_extent == 0 && hi_extent == 0` and `delta == 0` is a valid
    // degenerate form that codegen drops entirely.
    let baseline = compile_lir_to_asm(&LirProgram { insts: vec![] });
    let with_checked = compile_lir_to_asm(&LirProgram {
        insts: vec![LirInst::PtrAddChecked {
            delta: 0,
            lo_extent: 0,
            hi_extent: 0,
        }],
    });
    assert_eq!(baseline.insts, with_checked.insts);
}

#[test]
fn ptr_add_checked_low_side_only_emits_single_base_compare() {
    // `lo_extent < 0, hi_extent == 0`: only the low probe fires; there is
    // exactly one `cmp r15, r12` (base) and no `cmp r15, r14` (end).
    let program = compile_lir_to_asm(&LirProgram {
        insts: vec![LirInst::PtrAddChecked {
            delta: 0,
            lo_extent: -3,
            hi_extent: 0,
        }],
    });
    let base_cmps = program
        .insts
        .iter()
        .filter(|i| matches!(i, AsmInst::CmpRegReg(Reg64::R15, Reg64::R12)))
        .count();
    let end_cmps = program
        .insts
        .iter()
        .filter(|i| matches!(i, AsmInst::CmpRegReg(Reg64::R15, Reg64::R14)))
        .count();
    assert_eq!(base_cmps, 1);
    assert_eq!(end_cmps, 0);
}

#[test]
fn ptr_add_checked_high_side_only_emits_single_end_compare() {
    let program = compile_lir_to_asm(&LirProgram {
        insts: vec![LirInst::PtrAddChecked {
            delta: 0,
            lo_extent: 0,
            hi_extent: 3,
        }],
    });
    let base_cmps = program
        .insts
        .iter()
        .filter(|i| matches!(i, AsmInst::CmpRegReg(Reg64::R15, Reg64::R12)))
        .count();
    let end_cmps = program
        .insts
        .iter()
        .filter(|i| matches!(i, AsmInst::CmpRegReg(Reg64::R15, Reg64::R14)))
        .count();
    assert_eq!(base_cmps, 0);
    assert_eq!(end_cmps, 1);
}

#[test]
fn ptr_add_checked_both_sides_emits_one_of_each_compare() {
    // Both extents non-zero: exactly one compare per side — this is the
    // core M2 win over the prior 2–3 probe `PtrAdd` sequence (which would
    // have emitted two full `cmp-pair`s, i.e. four compares total).
    let program = compile_lir_to_asm(&LirProgram {
        insts: vec![LirInst::PtrAddChecked {
            delta: 0,
            lo_extent: -2,
            hi_extent: 3,
        }],
    });
    let base_cmps = program
        .insts
        .iter()
        .filter(|i| matches!(i, AsmInst::CmpRegReg(Reg64::R15, Reg64::R12)))
        .count();
    let end_cmps = program
        .insts
        .iter()
        .filter(|i| matches!(i, AsmInst::CmpRegReg(Reg64::R15, Reg64::R14)))
        .count();
    assert_eq!(base_cmps, 1);
    assert_eq!(end_cmps, 1);
}

#[test]
fn ptr_add_checked_advances_r13_unchecked() {
    // `delta != 0` must translate to a plain `add r13, delta` — not a
    // separate `MovRegReg R15, R13` + cmp + mov-back sequence. Checked
    // delta is the whole point of the op.
    let program = compile_lir_to_asm(&LirProgram {
        insts: vec![LirInst::PtrAddChecked {
            delta: 2,
            lo_extent: -2,
            hi_extent: 3,
        }],
    });
    let r13_adds: Vec<i32> = program
        .insts
        .iter()
        .filter_map(|i| match i {
            AsmInst::AddRegImm32(Reg64::R13, imm) => Some(*imm),
            _ => None,
        })
        .collect();
    assert!(
        r13_adds.contains(&2),
        "expected `add r13, 2` for fast-path delta; got {r13_adds:?}"
    );
}


#[test]
fn ptr_add_inside_verified_window_skips_bounds_check() {
    // After `PtrAddChecked { lo=-2, hi=3 }` the codegen remembers that the
    // window `[-2, 3]` around `r13` is mapped. A follow-up `PtrAdd(2)` lies
    // inside that window, so it must lower to a bare `add r13, 2` — no
    // `cmp r15, r12` / `cmp r15, r14` pair, and no `mov r15, r13` probe.
    let program = compile_lir_to_asm(&LirProgram {
        insts: vec![
            LirInst::PtrAddChecked {
                delta: 0,
                lo_extent: -2,
                hi_extent: 3,
            },
            LirInst::PtrAdd(2),
        ],
    });

    let base_cmps = program
        .insts
        .iter()
        .filter(|i| matches!(i, AsmInst::CmpRegReg(Reg64::R15, Reg64::R12)))
        .count();
    let end_cmps = program
        .insts
        .iter()
        .filter(|i| matches!(i, AsmInst::CmpRegReg(Reg64::R15, Reg64::R14)))
        .count();
    assert_eq!(
        base_cmps, 1,
        "only the PtrAddChecked probe should emit a base-side compare; got {base_cmps}"
    );
    assert_eq!(
        end_cmps, 1,
        "only the PtrAddChecked probe should emit an end-side compare; got {end_cmps}"
    );
}

#[test]
fn ptr_add_outside_verified_window_still_probes() {
    // `PtrAddChecked { lo=0, hi=2 }` verifies `[0, 2]`. A subsequent
    // `PtrAdd(3)` lands outside that window, so it must emit its own probe.
    let program = compile_lir_to_asm(&LirProgram {
        insts: vec![
            LirInst::PtrAddChecked {
                delta: 0,
                lo_extent: 0,
                hi_extent: 2,
            },
            LirInst::PtrAdd(3),
        ],
    });

    // PtrAddChecked(0, 2) emits only the end-side probe (1 cmp r15, r14).
    // PtrAdd(3) emits both sides (1 cmp r15, r12 and 1 cmp r15, r14).
    let base_cmps = program
        .insts
        .iter()
        .filter(|i| matches!(i, AsmInst::CmpRegReg(Reg64::R15, Reg64::R12)))
        .count();
    let end_cmps = program
        .insts
        .iter()
        .filter(|i| matches!(i, AsmInst::CmpRegReg(Reg64::R15, Reg64::R14)))
        .count();
    assert_eq!(base_cmps, 1, "PtrAdd(3) falls outside window → base probe");
    assert_eq!(
        end_cmps, 2,
        "both PtrAddChecked end probe and PtrAdd(3) end probe should fire"
    );
}

#[test]
fn verified_window_cleared_by_label_barrier() {
    // A `Label` is a control-flow barrier: after it the verified window is
    // unknown because execution may reach the label from elsewhere. The
    // following `PtrAdd(2)`, despite being inside the original window,
    // must re-emit its bounds check.
    let program = compile_lir_to_asm(&LirProgram {
        insts: vec![
            LirInst::PtrAddChecked {
                delta: 0,
                lo_extent: -2,
                hi_extent: 3,
            },
            LirInst::Label(LabelId(0)),
            LirInst::PtrAdd(2),
        ],
    });

    let base_cmps = program
        .insts
        .iter()
        .filter(|i| matches!(i, AsmInst::CmpRegReg(Reg64::R15, Reg64::R12)))
        .count();
    let end_cmps = program
        .insts
        .iter()
        .filter(|i| matches!(i, AsmInst::CmpRegReg(Reg64::R15, Reg64::R14)))
        .count();
    // PtrAddChecked emits 1 base + 1 end; post-barrier PtrAdd emits 1 base
    // + 1 end of its own.
    assert_eq!(
        base_cmps, 2,
        "label barrier must force re-probe on following PtrAdd"
    );
    assert_eq!(
        end_cmps, 2,
        "label barrier must force re-probe on following PtrAdd"
    );
}

#[test]
fn verified_window_cleared_by_putbyte_barrier() {
    // PutByte is an I/O barrier; after it the window must be invalidated
    // because the slow path's `ensure_tape` may have relocated `r13`
    // (though PutByte itself doesn't, later codegen contracts treat any
    // syscall site as a barrier — keep the contract tight).
    let program = compile_lir_to_asm(&LirProgram {
        insts: vec![
            LirInst::PtrAddChecked {
                delta: 0,
                lo_extent: -2,
                hi_extent: 3,
            },
            LirInst::PutByte,
            LirInst::PtrAdd(2),
        ],
    });

    let base_cmps = program
        .insts
        .iter()
        .filter(|i| matches!(i, AsmInst::CmpRegReg(Reg64::R15, Reg64::R12)))
        .count();
    let end_cmps = program
        .insts
        .iter()
        .filter(|i| matches!(i, AsmInst::CmpRegReg(Reg64::R15, Reg64::R14)))
        .count();
    assert_eq!(base_cmps, 2);
    assert_eq!(end_cmps, 2);
}

#[test]
fn second_ptr_add_checked_covered_by_first_emits_no_probes() {
    // First op verifies `[-3, 5]`; the second op's window `[-1, 2]` is a
    // strict subset → its probes should be elided entirely. The second op
    // still advances `r13` by `delta = 1` via a plain `add r13, 1`.
    let program = compile_lir_to_asm(&LirProgram {
        insts: vec![
            LirInst::PtrAddChecked {
                delta: 0,
                lo_extent: -3,
                hi_extent: 5,
            },
            LirInst::PtrAddChecked {
                delta: 1,
                lo_extent: -1,
                hi_extent: 2,
            },
        ],
    });

    let base_cmps = program
        .insts
        .iter()
        .filter(|i| matches!(i, AsmInst::CmpRegReg(Reg64::R15, Reg64::R12)))
        .count();
    let end_cmps = program
        .insts
        .iter()
        .filter(|i| matches!(i, AsmInst::CmpRegReg(Reg64::R15, Reg64::R14)))
        .count();
    assert_eq!(
        base_cmps, 1,
        "second PtrAddChecked's base probe should be elided"
    );
    assert_eq!(
        end_cmps, 1,
        "second PtrAddChecked's end probe should be elided"
    );
}

#[test]
fn cell_writes_do_not_clear_verified_window() {
    // CellAdd / CellAddAt / CellSet / CellSetAt do not touch `r13`, so the
    // verified window must survive them. A following in-window `PtrAdd`
    // should still elide its bounds check.
    let program = compile_lir_to_asm(&LirProgram {
        insts: vec![
            LirInst::PtrAddChecked {
                delta: 0,
                lo_extent: -2,
                hi_extent: 3,
            },
            LirInst::CellAdd(1),
            LirInst::CellAddAt { off: 2, delta: 3 },
            LirInst::CellSet(0),
            LirInst::PtrAdd(2),
        ],
    });

    let base_cmps = program
        .insts
        .iter()
        .filter(|i| matches!(i, AsmInst::CmpRegReg(Reg64::R15, Reg64::R12)))
        .count();
    let end_cmps = program
        .insts
        .iter()
        .filter(|i| matches!(i, AsmInst::CmpRegReg(Reg64::R15, Reg64::R14)))
        .count();
    assert_eq!(base_cmps, 1, "cell writes are transparent to the window");
    assert_eq!(end_cmps, 1, "cell writes are transparent to the window");
}

#[test]
fn cell_add_at_wide_off_selects_disp32() {
    let off: isize = 1_000;
    let program = compile_lir_to_asm(&LirProgram {
        insts: vec![LirInst::CellAddAt { off, delta: 5 }],
    });
    assert!(
        program.insts
            .contains(&AsmInst::AddMem8ImmDisp32(Reg64::R13, 1_000, 5)),
        "off beyond i8 range must lower to AddMem8ImmDisp32"
    );
    assert!(
        !program.insts
            .iter()
            .any(|i| matches!(i, AsmInst::AddMem8ImmDisp8(_, _, _))),
        "no disp8 variant should appear when off does not fit i8"
    );
}

#[test]
fn cell_set_at_wide_off_selects_disp32() {
    let off: isize = -10_000;
    let program = compile_lir_to_asm(&LirProgram {
        insts: vec![LirInst::CellSetAt { off, val: 0x7F }],
    });
    assert!(
        program.insts
            .contains(&AsmInst::MovMem8ImmDisp32(Reg64::R13, -10_000, 0x7F)),
        "negative off beyond i8 range must lower to MovMem8ImmDisp32"
    );
}

#[test]
fn cell_add_at_narrow_off_keeps_disp8() {
    let program = compile_lir_to_asm(&LirProgram {
        insts: vec![LirInst::CellAddAt { off: 5, delta: 3 }],
    });
    assert!(
        program.insts
            .contains(&AsmInst::AddMem8ImmDisp8(Reg64::R13, 5, 3)),
        "off that fits i8 must stay on the disp8 path"
    );
    assert!(
        !program.insts
            .iter()
            .any(|i| matches!(i, AsmInst::AddMem8ImmDisp32(_, _, _))),
        "no disp32 variant should appear for small offsets"
    );
}

#[test]
fn ensure_tape_does_not_use_r11_after_munmap_syscall() {
    let program = compile_lir_to_asm(&LirProgram {
        insts: vec![LirInst::PtrAdd(4096)],
    });

    let munmap_idx = program
        .insts
        .iter()
        .position(|inst| matches!(inst, AsmInst::MovRegImm64(Reg64::Rax, 11)))
        .expect("expected munmap syscall sequence");

    let tail = &program.insts[munmap_idx..];
    let mut saw_syscall = false;

    for inst in tail {
        if matches!(inst, AsmInst::Syscall) {
            saw_syscall = true;
            continue;
        }

        if saw_syscall {
            assert!(
                !matches!(inst, AsmInst::AddRegReg(Reg64::R14, Reg64::R11)),
                "r11 is clobbered by syscall and must not be used after munmap"
            );
        }
    }
}

#[test]
fn scan_with_hint_positive_dir_sets_up_repne_scasb_forward() {
    // ScanWithHint(dir=+1, hint=5) under D2 must:
    //   1. zero al (the comparand) and load rdi=r13, rcx=5
    //   2. clear DF (forward direction) before the scan
    //   3. emit `repne scasb` (the SIMD loop)
    //   4. recover r13 = rdi - step (= rdi - 1 here) and funnel into
    //      the slow_top fallthrough.
    let program = compile_lir_to_asm(&LirProgram {
        insts: vec![LirInst::ScanWithHint {
            dir: 1,
            hint_bytes: 5,
        }],
    });

    let setup = program.insts.windows(5).any(|w| {
        matches!(
            w,
            [
                AsmInst::MovRegImm64(Reg64::Rax, 0),
                AsmInst::MovRegReg(Reg64::Rdi, Reg64::R13),
                AsmInst::MovRegImm64(Reg64::Rcx, 5),
                AsmInst::Cld,
                AsmInst::RepneScasb,
            ]
        )
    });
    assert!(
        setup,
        "ScanWithHint(+1, 5) must set up `al=0; rdi=r13; rcx=5; cld; repne scasb`"
    );

    let recovers = program.insts.windows(2).any(|w| {
        matches!(
            w,
            [
                AsmInst::MovRegReg(Reg64::R13, Reg64::Rdi),
                AsmInst::AddRegImm32(Reg64::R13, -1),
            ]
        )
    });
    assert!(
        recovers,
        "after scasb, r13 must be set to rdi - 1 (back up the post-incremented rdi)"
    );

    // No leftover R10 boundary compare from the legacy fast path
    // (slow_top's bounds check still uses R15 / Jae against R12/R14;
    // those are not the boundary compare we're checking for here).
    assert!(
        !program.insts.iter().any(|i| matches!(
            i,
            AsmInst::CmpRegReg(Reg64::R13, Reg64::R10)
                | AsmInst::CmpRegReg(Reg64::R10, Reg64::R13)
        )),
        "ScanWithHint must no longer reference the legacy R10 boundary compare"
    );
}

#[test]
fn scan_with_hint_negative_dir_uses_std_then_restores_cld() {
    // dir=-1 needs DF=1 during the scan and DF=0 restored before any
    // function-call boundary in the slow_top fallthrough. r13 is
    // recovered as rdi - step = rdi + 1.
    let program = compile_lir_to_asm(&LirProgram {
        insts: vec![LirInst::ScanWithHint {
            dir: -1,
            hint_bytes: 4,
        }],
    });

    let std_then_scasb_then_cld = program
        .insts
        .windows(3)
        .any(|w| matches!(w, [AsmInst::Std, AsmInst::RepneScasb, AsmInst::Cld]));
    assert!(
        std_then_scasb_then_cld,
        "ScanWithHint(-1) must bracket scasb with `std` ... `cld` to honour the SysV/Win64 ABI"
    );

    let recovers = program.insts.windows(2).any(|w| {
        matches!(
            w,
            [
                AsmInst::MovRegReg(Reg64::R13, Reg64::Rdi),
                AsmInst::AddRegImm32(Reg64::R13, 1),
            ]
        )
    });
    assert!(recovers, "after backward scasb, r13 must be set to rdi + 1");
}

#[test]
fn scan_with_hint_zero_hint_emits_only_slow_body() {
    // hint_bytes == 0: no SIMD setup; we only emit the slow body
    // (`cmp [r13], 0; jz done; ptr_add; jmp slow_top`).
    let program = compile_lir_to_asm(&LirProgram {
        insts: vec![LirInst::ScanWithHint {
            dir: 1,
            hint_bytes: 0,
        }],
    });
    assert!(
        !program.insts.iter().any(|i| matches!(i, AsmInst::RepneScasb)),
        "hint=0 must not emit the SIMD `repne scasb` setup"
    );
    assert!(
        !program.insts.iter().any(|i| matches!(i, AsmInst::Std)),
        "hint=0 must not flip the direction flag"
    );
}

#[test]
fn zero_run_at_origin_emits_base_store_plus_disp8_tail() {
    // ZeroRun { start: 0, count: 3 } → bare [r13]=0, then disp8 stores at
    // r13+1 and r13+2.
    let program = compile_lir_to_asm(&LirProgram {
        insts: vec![LirInst::ZeroRun { start: 0, count: 3 }],
    });
    assert!(
        program.insts.contains(&AsmInst::MovMem8Imm8(Reg64::R13, 0)),
        "ZeroRun covering offset 0 must emit a bare [r13]=0 store"
    );
    assert!(
        program.insts
            .contains(&AsmInst::MovMem8ImmDisp8(Reg64::R13, 1, 0)),
        "ZeroRun starting at 0 with count 3 must emit a disp8 store at +1"
    );
    assert!(
        program.insts
            .contains(&AsmInst::MovMem8ImmDisp8(Reg64::R13, 2, 0)),
        "ZeroRun starting at 0 with count 3 must emit a disp8 store at +2"
    );
}

#[test]
fn zero_run_negative_start_emits_only_disp_stores() {
    // start=-2, count=2 covers [-2, -1]; neither offset is 0 so both go
    // through the disp8 path and no bare [r13]=0 store appears.
    let program = compile_lir_to_asm(&LirProgram {
        insts: vec![LirInst::ZeroRun {
            start: -2,
            count: 2,
        }],
    });
    assert!(
        program.insts
            .contains(&AsmInst::MovMem8ImmDisp8(Reg64::R13, -2, 0)),
        "expected disp8 store at r13 - 2"
    );
    assert!(
        program.insts
            .contains(&AsmInst::MovMem8ImmDisp8(Reg64::R13, -1, 0)),
        "expected disp8 store at r13 - 1"
    );
    // ZeroRun introduces no [r13]=0 when the origin isn't in the range.
    // (The init-tape prologue uses MovRegImm64 / AddRegImm32, not MovMem8Imm8.)
    assert!(
        !program.insts
            .iter()
            .any(|i| matches!(i, AsmInst::MovMem8Imm8(Reg64::R13, 0))),
        "ZeroRun not covering offset 0 must not emit [r13]=0"
    );
}

#[test]
fn zero_run_wide_span_selects_disp32() {
    let program = compile_lir_to_asm(&LirProgram {
        insts: vec![LirInst::ZeroRun {
            start: 200,
            count: 2,
        }],
    });
    assert!(
        program.insts
            .contains(&AsmInst::MovMem8ImmDisp32(Reg64::R13, 200, 0)),
        "offset beyond i8 range must lower to disp32 store"
    );
}
