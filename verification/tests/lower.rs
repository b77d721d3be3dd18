use amazingbf::interp::bytecode::InterpOp;
use amazingbf::interp::lower::lower_hir_to_bytecode;
use amazingbf::ir::hir::{HirInst, HirProgram};

#[test]
fn empty_program_lowers_to_empty_bytecode() {
    let hir = HirProgram { insts: vec![] };
    let bc = lower_hir_to_bytecode(&hir);
    assert!(bc.ops.is_empty());
}

#[test]
fn simple_ops_map_one_to_one() {
    let hir = HirProgram {
        insts: vec![
            HirInst::Add(3),
            HirInst::PutByte,
            HirInst::GetByte,
            HirInst::Zero,
        ],
    };
    let bc = lower_hir_to_bytecode(&hir);
    assert_eq!(
        bc.ops,
        vec![
            InterpOp::Add(3),
            InterpOp::PutByte,
            InterpOp::GetByte,
            InterpOp::Zero,
        ]
    );
}

#[test]
fn move_then_add_keeps_move_add_when_offset_form_is_not_shorter() {
    let hir = HirProgram {
        insts: vec![HirInst::Move(2), HirInst::Add(5)],
    };
    let bc = lower_hir_to_bytecode(&hir);
    assert_eq!(bc.ops, vec![InterpOp::MoveAdd { d: 2, k: 5 }]);
}

#[test]
fn zero_then_move_fuses_into_zero_move() {
    let hir = HirProgram {
        insts: vec![HirInst::Zero, HirInst::Move(-3)],
    };
    let bc = lower_hir_to_bytecode(&hir);
    assert_eq!(bc.ops, vec![InterpOp::ZeroMove(-3)]);
}

#[test]
fn chain_of_move_add_pairs_keeps_pairwise_fusion_when_tied() {
    // The fallback is two `MoveAdd`s while offset-form would need two
    // writes plus a closing move, so the cost model keeps the old shape.
    let hir = HirProgram {
        insts: vec![
            HirInst::Move(1),
            HirInst::Add(2),
            HirInst::Move(3),
            HirInst::Add(4),
        ],
    };
    let bc = lower_hir_to_bytecode(&hir);
    assert_eq!(
        bc.ops,
        vec![
            InterpOp::MoveAdd { d: 1, k: 2 },
            InterpOp::MoveAdd { d: 3, k: 4 },
        ]
    );
}

#[test]
fn repeated_offset_writes_win_when_they_reduce_dispatches() {
    let hir = HirProgram {
        insts: vec![
            HirInst::Move(1),
            HirInst::Add(1),
            HirInst::Move(-1),
            HirInst::Add(2),
            HirInst::Move(1),
            HirInst::Add(3),
            HirInst::Move(-1),
            HirInst::Add(4),
        ],
    };
    let bc = lower_hir_to_bytecode(&hir);
    assert_eq!(
        bc.ops,
        vec![InterpOp::Add(6), InterpOp::AddAt { off: 1, delta: 4 },]
    );
}

#[test]
fn add_without_preceding_move_stays_bare() {
    let hir = HirProgram {
        insts: vec![HirInst::Add(4)],
    };
    let bc = lower_hir_to_bytecode(&hir);
    assert_eq!(bc.ops, vec![InterpOp::Add(4)]);
}

#[test]
fn zero_without_following_move_stays_bare() {
    let hir = HirProgram {
        insts: vec![HirInst::Zero, HirInst::PutByte],
    };
    let bc = lower_hir_to_bytecode(&hir);
    assert_eq!(bc.ops, vec![InterpOp::Zero, InterpOp::PutByte]);
}

#[test]
fn loop_resolves_absolute_jump_targets() {
    // [>+<] (without O1): Loop(Move(1), Add(1), Move(-1))
    // Bytecode: LoopStart{end_pc=2} AddAt{off=1,delta=1} LoopEnd{start_pc=0}
    let hir = HirProgram {
        insts: vec![HirInst::Loop(vec![
            HirInst::Move(1),
            HirInst::Add(1),
            HirInst::Move(-1),
        ])],
    };
    let bc = lower_hir_to_bytecode(&hir);
    assert_eq!(
        bc.ops,
        vec![
            InterpOp::LoopStart { end_pc: 2 },
            InterpOp::AddAt { off: 1, delta: 1 },
            InterpOp::LoopEnd { start_pc: 0 },
        ]
    );
}

#[test]
fn nested_loops_resolve_jump_targets_independently() {
    // [ [>] ]: Loop(Loop(Scan(1)))
    let hir = HirProgram {
        insts: vec![HirInst::Loop(vec![HirInst::Loop(vec![HirInst::Scan(1)])])],
    };
    let bc = lower_hir_to_bytecode(&hir);
    // outer: 0 LoopStart → 4 LoopEnd
    // inner: 1 LoopStart → 3 LoopEnd, body at pc=2
    assert_eq!(
        bc.ops,
        vec![
            InterpOp::LoopStart { end_pc: 4 },
            InterpOp::LoopStart { end_pc: 3 },
            InterpOp::Scan(1),
            InterpOp::LoopEnd { start_pc: 1 },
            InterpOp::LoopEnd { start_pc: 0 },
        ]
    );
}

#[test]
fn straight_line_unbalanced_loop_becomes_loop_block() {
    let hir = HirProgram {
        insts: vec![HirInst::Loop(vec![
            HirInst::Add(-1),
            HirInst::Move(200_713),
            HirInst::Add(1),
            HirInst::Move(-200_724),
        ])],
    };
    let bc = lower_hir_to_bytecode(&hir);
    match bc.ops.as_slice() {
        [InterpOp::LoopBlock(plan), InterpOp::NoOp, InterpOp::NoOp, InterpOp::NoOp, InterpOp::NoOp] => {
            assert_eq!(plan.after_pc, 5);
            assert_eq!(
                plan.ops.as_slice(),
                &[
                    InterpOp::Add(-1),
                    InterpOp::MoveAdd {
                        d: 200_713,
                        k: 1,
                    },
                    InterpOp::Move(-200_724),
                ]
            );
        }
        other => panic!("expected straight-line LoopBlock, got {:?}", other),
    }
}

#[test]
fn loop_block_does_not_cross_io() {
    let hir = HirProgram {
        insts: vec![HirInst::Loop(vec![HirInst::Add(-1), HirInst::PutByte])],
    };
    let bc = lower_hir_to_bytecode(&hir);
    assert_eq!(
        bc.ops,
        vec![
            InterpOp::LoopStart { end_pc: 3 },
            InterpOp::Add(-1),
            InterpOp::PutByte,
            InterpOp::LoopEnd { start_pc: 0 },
        ]
    );
}

#[test]
fn linear_mul_packs_factors_into_plan() {
    // 171 ≡ -85 (mod 256) and -171 ≡ 85 (mod 256); the packer
    // normalises into the signed range [-128, 127] so the runtime can
    // skip an extra rem_euclid per iteration.
    let hir = HirProgram {
        insts: vec![HirInst::LinearMul(vec![(1, 171), (3, -171)])],
    };
    let bc = lower_hir_to_bytecode(&hir);
    match bc.ops.as_slice() {
        [InterpOp::LinearMul(plan)] => {
            assert_eq!(plan.factors.as_slice(), &[(1i32, -85i16), (3, 85)]);
        }
        other => panic!("expected single LinearMul, got {:?}", other),
    }
}

#[test]
fn linear_mul_factor_in_signed_range_preserves_sign() {
    // Already-signed factors like 1 / -1 pass through unchanged.
    let hir = HirProgram {
        insts: vec![HirInst::LinearMul(vec![(2, 1), (4, -1)])],
    };
    let bc = lower_hir_to_bytecode(&hir);
    match bc.ops.as_slice() {
        [InterpOp::LinearMul(plan)] => {
            assert_eq!(plan.factors.as_slice(), &[(2i32, 1i16), (4, -1)]);
        }
        other => panic!("expected single LinearMul, got {:?}", other),
    }
}

#[test]
fn scan_converts_dir_to_signum() {
    let hir = HirProgram {
        insts: vec![HirInst::Scan(-1), HirInst::Scan(1)],
    };
    let bc = lower_hir_to_bytecode(&hir);
    assert_eq!(bc.ops, vec![InterpOp::Scan(-1), InterpOp::Scan(1)]);
}

#[test]
fn add_zero_is_skipped_even_if_upstream_forgets_to_drop_it() {
    let hir = HirProgram {
        insts: vec![HirInst::Move(1), HirInst::Add(0), HirInst::Move(2)],
    };
    let bc = lower_hir_to_bytecode(&hir);
    // `Add(0)` drops; the remaining straight-line pointer motion
    // collapses to the final displacement only.
    assert_eq!(bc.ops, vec![InterpOp::Move(3)]);
}

#[test]
fn zero_then_nonzero_add_becomes_constant_set() {
    let hir = HirProgram {
        insts: vec![HirInst::Zero, HirInst::Add(7)],
    };
    let bc = lower_hir_to_bytecode(&hir);
    assert_eq!(bc.ops, vec![InterpOp::SetByte(7)]);
}

#[test]
fn offset_writes_do_not_cross_io_barriers() {
    let hir = HirProgram {
        insts: vec![
            HirInst::Move(1),
            HirInst::Add(2),
            HirInst::PutByte,
            HirInst::Move(1),
            HirInst::Add(3),
        ],
    };
    let bc = lower_hir_to_bytecode(&hir);
    assert_eq!(
        bc.ops,
        vec![
            InterpOp::MoveAdd { d: 1, k: 2 },
            InterpOp::PutByte,
            InterpOp::MoveAdd { d: 1, k: 3 },
        ]
    );
}

#[test]
fn a_loop_that_holds_a_loop_stays_a_loop() {
    let inner = HirInst::Loop(vec![HirInst::Add(-1), HirInst::Move(1)]);
    let hir = HirProgram { insts: vec![HirInst::Loop(vec![inner, HirInst::Add(1)])] };
    let bc = lower_hir_to_bytecode(&hir);
    assert_eq!(bc.ops.len(), 7);
    assert_eq!(bc.ops[0], InterpOp::LoopStart { end_pc: 6 });
    match &bc.ops[1] {
        InterpOp::LoopBlock(plan) => {
            assert_eq!(plan.after_pc, 5);
            assert_eq!(plan.ops, vec![InterpOp::Add(-1), InterpOp::Move(1)]);
        }
        other => panic!("expected a block, found {other:?}"),
    }
    assert_eq!(bc.ops[2..5], [InterpOp::NoOp, InterpOp::NoOp, InterpOp::NoOp]);
    assert_eq!(bc.ops[5], InterpOp::Add(1));
    assert_eq!(bc.ops[6], InterpOp::LoopEnd { start_pc: 0 });
}
