use amazingbf::interp::bytecode::InterpOp;
use amazingbf::interp::jit_compile::lower_loop_body_to_lir;
use amazingbf::ir::lir::{LabelId, LirInst};

fn lid(n: u32) -> LabelId {
    LabelId(n)
}

#[test]
fn lower_simple_body_produces_valid_lir() {
    let body = vec![InterpOp::Add(-1)];
    let lir = lower_loop_body_to_lir(&body);
    assert_eq!(lir.insts[0], LirInst::Label(lid(0)));
    assert_eq!(lir.insts[1], LirInst::JumpIfZero(lid(1)));
    assert_eq!(lir.insts[2], LirInst::CellAdd(-1));
    assert_eq!(lir.insts[3], LirInst::JumpIfNonZero(lid(0)));
    assert_eq!(lir.insts[4], LirInst::Label(lid(1)));
}




#[test]
fn lower_nested_loop_body() {
    let body = vec![
        InterpOp::Move(1),
        InterpOp::LoopStart { end_pc: 999 },
        InterpOp::Add(-1),
        InterpOp::LoopEnd { start_pc: 999 },
        InterpOp::Move(-1),
        InterpOp::Add(-1),
    ];
    let lir = lower_loop_body_to_lir(&body);
    assert_eq!(lir.insts[0], LirInst::Label(lid(0)));
    assert_eq!(lir.insts[1], LirInst::JumpIfZero(lid(1)));
    assert_eq!(lir.insts[2], LirInst::PtrAdd(1));
    assert_eq!(lir.insts[3], LirInst::Label(lid(2)));
    assert_eq!(lir.insts[4], LirInst::JumpIfZero(lid(3)));
    assert_eq!(lir.insts[5], LirInst::CellAdd(-1));
    assert_eq!(lir.insts[6], LirInst::JumpIfNonZero(lid(2)));
    assert_eq!(lir.insts[7], LirInst::Label(lid(3)));
}
