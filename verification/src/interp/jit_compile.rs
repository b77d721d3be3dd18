//! Loop bodies for compilation: bytecode to LIR.
//!
//! A hot loop's body becomes LIR inside a loop of its own, with fresh labels.

use vstd::prelude::*;

use crate::interp::bytecode::InterpOp;
use crate::interp::bytecode::{
    group_ops_view, op_view, ops_view, packed_sets_view, packed_view, Op,
};
use crate::ir::hir::{factors_view, sets_view};
use crate::ir::lir::{lirs_view, Lir};
use crate::ir::lir::{LabelGen, LirInst, LirProgram};

verus! {

/// Where the loop ends whose body goes on at `from` with `depth` loops open:
/// the index of its `LoopEnd`, or `to` where there is none before it.
pub open spec fn loop_end(ops: Seq<Op>, from: int, to: int, depth: int) -> int
    decreases to - from,
{
    if from >= to {
        to
    } else if ops[from] is LoopStart {
        loop_end(ops, from + 1, to, depth + 1)
    } else if ops[from] is LoopEnd {
        if depth <= 1 {
            from
        } else {
            loop_end(ops, from + 1, to, depth - 1)
        }
    } else {
        loop_end(ops, from + 1, to, depth)
    }
}

/// A loop ends behind its start.
pub proof fn lemma_loop_end(ops: Seq<Op>, from: int, to: int, depth: int)
    requires
        from <= to,
    ensures
        from <= loop_end(ops, from, to, depth) <= to,
    decreases to - from,
{
    if from < to {
        lemma_loop_end(ops, from + 1, to, depth + 1);
        lemma_loop_end(ops, from + 1, to, depth - 1);
        lemma_loop_end(ops, from + 1, to, depth);
    }
}

/// The LIR of an operation that is no loop.
pub open spec fn plain_lir(op: Op) -> Seq<Lir> {
    match op {
        Op::Move(d) => seq![Lir::PtrAdd(d)],
        Op::Add(k) => seq![Lir::CellAdd(k)],
        Op::MoveAdd(d, k) => seq![Lir::PtrAdd(d), Lir::CellAdd(k)],
        Op::ZeroMove(d) => seq![Lir::CellSet(0), Lir::PtrAdd(d)],
        Op::AddAt(off, delta) => seq![Lir::CellAddAt(off, delta)],
        Op::SetAt(off, val) => seq![Lir::CellSetAt(off, val)],
        Op::SetByte(v) => seq![Lir::CellSet(v)],
        Op::PutByte => seq![Lir::PutByte],
        Op::GetByte => seq![Lir::GetByte],
        Op::Zero => seq![Lir::CellSet(0)],
        Op::LinearMul(factors) => seq![Lir::LinearMul(factors)],
        Op::LinearMulWithSets(factors, sets) => seq![Lir::LinearMulWithSets(factors, sets)],
        Op::Scan(step) => seq![Lir::Scan(step)],
        _ => Seq::empty(),
    }
}

/// A body inside a loop with the labels `label` and `label + 1`.
pub open spec fn looped(label: int, body: Seq<Lir>) -> Seq<Lir> {
    seq![Lir::Label(label), Lir::JumpIfZero(label + 1)] + body + seq![
        Lir::JumpIfNonZero(label),
        Lir::Label(label + 1),
    ]
}

/// The LIR of the operations from `from` to `to`, where `next` is the first
/// free label, and the first free label behind them.
pub open spec fn ops_lir(ops: Seq<Op>, from: int, to: int, next: int) -> (Seq<Lir>, int)
    decreases ops, to - from,
{
    if from < 0 || from >= to || to > ops.len() {
        (Seq::empty(), next)
    } else {
        match ops[from] {
            Op::LoopStart(_) => {
                let end = loop_end(ops, from + 1, to, 1);
                proof {
                    lemma_loop_end(ops, from + 1, to, 1);
                }
                let inner = ops_lir(ops, from + 1, end, next + 2);
                let rest = if end < to {
                    ops_lir(ops, end + 1, to, inner.1)
                } else {
                    (Seq::empty(), inner.1)
                };
                (looped(next, inner.0) + rest.0, rest.1)
            },
            Op::LoopBlock(_, body) => {
                let inner = ops_lir(body, 0, body.len() as int, next + 2);
                let rest = ops_lir(ops, from + 1, to, inner.1);
                (looped(next, inner.0) + rest.0, rest.1)
            },
            op => {
                let rest = ops_lir(ops, from + 1, to, next);
                (plain_lir(op) + rest.0, rest.1)
            },
        }
    }
}

/// Labels are only taken, never given back.
pub proof fn lemma_labels_grow(ops: Seq<Op>, from: int, to: int, next: int)
    ensures
        ops_lir(ops, from, to, next).1 >= next,
    decreases ops, to - from,
{
    if 0 <= from < to <= ops.len() {
        match ops[from] {
            Op::LoopStart(_) => {
                let end = loop_end(ops, from + 1, to, 1);
                lemma_loop_end(ops, from + 1, to, 1);
                lemma_labels_grow(ops, from + 1, end, next + 2);
                if end < to {
                    lemma_labels_grow(ops, end + 1, to, ops_lir(ops, from + 1, end, next + 2).1);
                }
            },
            Op::LoopBlock(_, body) => {
                lemma_labels_grow(body, 0, body.len() as int, next + 2);
                lemma_labels_grow(
                    ops,
                    from + 1,
                    to,
                    ops_lir(body, 0, body.len() as int, next + 2).1,
                );
            },
            _ => {
                lemma_labels_grow(ops, from + 1, to, next);
            },
        }
    }
}

fn unpack_factors(packed: &Vec<(i32, i16)>) -> (factors: Vec<(isize, i32)>)
    ensures
        factors_view(factors@) == packed_view(packed@),
{
    let mut factors: Vec<(isize, i32)> = Vec::new();
    let mut i: usize = 0;
    while i < packed.len()
        invariant
            i <= packed.len(),
            factors@.len() == i,
            forall|j: int|
                0 <= j < i ==> (#[trigger] factors@[j]).0 == packed@[j].0 && factors@[j].1
                    == packed@[j].1,
        decreases packed.len() - i,
    {
        let (off, f) = packed[i];
        factors.push((off as isize, f as i32));
        i += 1;
    }
    assert(factors_view(factors@) =~= packed_view(packed@));
    factors
}

fn unpack_sets(packed: &Vec<i32>) -> (sets: Vec<isize>)
    ensures
        sets_view(sets@) == packed_sets_view(packed@),
{
    let mut sets: Vec<isize> = Vec::new();
    let mut i: usize = 0;
    while i < packed.len()
        invariant
            i <= packed.len(),
            sets@.len() == i,
            forall|j: int| 0 <= j < i ==> #[trigger] sets@[j] == packed@[j],
        decreases packed.len() - i,
    {
        sets.push(packed[i] as isize);
        i += 1;
    }
    assert(sets_view(sets@) =~= packed_sets_view(packed@));
    sets
}

/// Where the loop whose body starts at `from` ends.
fn find_loop_end(ops: &[InterpOp], from: usize, to: usize) -> (end: usize)
    requires
        1 <= from <= to <= ops@.len(),
    ensures
        end == loop_end(ops_view(ops@), from as int, to as int, 1),
{
    let mut depth: usize = 1;
    let mut j: usize = from;
    let ghost goal = loop_end(ops_view(ops@), from as int, to as int, 1);
    while j < to
        invariant
            1 <= from <= j <= to <= ops@.len(),
            1 <= depth <= 1 + (j - from),
            goal == loop_end(ops_view(ops@), from as int, to as int, 1),
            goal == loop_end(ops_view(ops@), j as int, to as int, depth as int),
        decreases to - j,
    {
        broadcast use group_ops_view;

        assert(ops_view(ops@)[j as int] == op_view(ops@[j as int]));
        match &ops[j] {
            InterpOp::LoopStart { .. } => {
                depth += 1;
            },
            InterpOp::LoopEnd { .. } => {
                if depth == 1 {
                    return j;
                }
                depth -= 1;
            },
            _ => {},
        }
        j += 1;
    }
    to
}

/// Put the LIR of an operation that is no loop behind the list.
fn lower_plain_op(op: &InterpOp, lir: &mut Vec<LirInst>)
    requires
        !(op is LoopStart || op is LoopEnd || op is LoopBlock),
    ensures
        lirs_view(final(lir)@) == lirs_view(old(lir)@) + plain_lir(op_view(*op)),
{
    let ghost before = lirs_view(lir@);
    let ghost want = plain_lir(op_view(*op));
    match op {
        InterpOp::Move(d) => {
            lir.push(LirInst::PtrAdd(*d as isize));
        },
        InterpOp::Add(k) => {
            lir.push(LirInst::CellAdd(*k));
        },
        InterpOp::MoveAdd { d, k } => {
            lir.push(LirInst::PtrAdd(*d as isize));
            lir.push(LirInst::CellAdd(*k));
        },
        InterpOp::ZeroMove(d) => {
            lir.push(LirInst::CellSet(0));
            lir.push(LirInst::PtrAdd(*d as isize));
        },
        InterpOp::AddAt { off, delta } => {
            lir.push(LirInst::CellAddAt { off: *off as isize, delta: *delta });
        },
        InterpOp::SetAt { off, val } => {
            lir.push(LirInst::CellSetAt { off: *off as isize, val: *val });
        },
        InterpOp::SetByte(v) => {
            lir.push(LirInst::CellSet(*v));
        },
        InterpOp::PutByte => {
            lir.push(LirInst::PutByte);
        },
        InterpOp::GetByte => {
            lir.push(LirInst::GetByte);
        },
        InterpOp::Zero => {
            lir.push(LirInst::CellSet(0));
        },
        InterpOp::LinearMul(plan) => {
            lir.push(LirInst::LinearMul(unpack_factors(&plan.factors)));
        },
        InterpOp::LinearMulWithSets(plan) => {
            let factors = unpack_factors(&plan.factors);
            let sets = unpack_sets(&plan.sets);
            lir.push(LirInst::LinearMulWithSets { factors, sets });
        },
        InterpOp::Scan(step) => {
            lir.push(LirInst::Scan(*step as isize));
        },
        _ => {},
    }
    assert(lirs_view(lir@) =~= before + want);
}

/// Put the LIR of the operations from `from` to `to` behind the list.
fn lower_ops_to_lir(
    ops: &[InterpOp],
    from: usize,
    to: usize,
    lir: &mut Vec<LirInst>,
    labels: &mut LabelGen,
)
    requires
        from <= to <= ops@.len(),
        ops_lir(ops_view(ops@), from as int, to as int, old(labels).next_id()).1 <= u32::MAX,
    ensures
        lirs_view(final(lir)@) == lirs_view(old(lir)@) + ops_lir(
            ops_view(ops@),
            from as int,
            to as int,
            old(labels).next_id(),
        ).0,
        final(labels).next_id() == ops_lir(
            ops_view(ops@),
            from as int,
            to as int,
            old(labels).next_id(),
        ).1,
    decreases ops@, to - from,
{
    let ghost view = ops_view(ops@);
    let ghost start = lirs_view(lir@);
    let ghost whole = ops_lir(view, from as int, to as int, labels.next_id());
    let mut i: usize = from;
    assert(start + whole.0 =~= lirs_view(lir@) + whole.0);
    while i < to
        invariant
            from <= i <= to <= ops@.len(),
            view == ops_view(ops@),
            start == lirs_view(old(lir)@),
            whole == ops_lir(view, from as int, to as int, old(labels).next_id()),
            whole.1 <= u32::MAX,
            start + whole.0 == lirs_view(lir@) + ops_lir(
                view,
                i as int,
                to as int,
                labels.next_id(),
            ).0,
            whole.1 == ops_lir(view, i as int, to as int, labels.next_id()).1,
        decreases to - i,
    {
        broadcast use group_ops_view;

        assert(view[i as int] == op_view(ops@[i as int]));
        let ghost at = lirs_view(lir@);
        let ghost next = labels.next_id();
        match &ops[i] {
            InterpOp::LoopStart { .. } => {
                let end = find_loop_end(ops, i + 1, to);
                proof {
                    lemma_loop_end(view, i + 1, to as int, 1);
                    lemma_labels_grow(view, i + 1, end as int, next + 2);
                    lemma_labels_grow(
                        view,
                        end + 1,
                        to as int,
                        ops_lir(view, i + 1, end as int, next + 2).1,
                    );
                }
                let ghost inner = ops_lir(view, i + 1, end as int, next + 2);
                let ghost rest = ops_lir(view, end + 1, to as int, inner.1);
                let head = labels.fresh();
                let tail = labels.fresh();
                lir.push(LirInst::Label(head));
                lir.push(LirInst::JumpIfZero(tail));
                assert(lirs_view(lir@) =~= at + seq![Lir::Label(next), Lir::JumpIfZero(next + 1)]);
                lower_ops_to_lir(ops, i + 1, end, lir, labels);
                let ghost mid = lirs_view(lir@);
                lir.push(LirInst::JumpIfNonZero(head));
                lir.push(LirInst::Label(tail));
                assert(lirs_view(lir@) =~= mid + seq![Lir::JumpIfNonZero(next), Lir::Label(next + 1)]);
                assert(lirs_view(lir@) =~= at + looped(next, inner.0));
                assert(lirs_view(lir@) + rest.0 =~= at + (looped(next, inner.0) + rest.0));
                if end == to {
                    assert(lirs_view(lir@) + rest.0 =~= lirs_view(lir@));
                    return ;
                }
                i = end;
            },
            InterpOp::LoopBlock(plan) => {
                let ghost body = ops_view(plan.ops@);
                let ghost inner = ops_lir(body, 0, body.len() as int, next + 2);
                let ghost rest = ops_lir(view, i + 1, to as int, inner.1);
                proof {
                    lemma_labels_grow(body, 0, body.len() as int, next + 2);
                    lemma_labels_grow(view, i + 1, to as int, inner.1);
                    assert(view[i as int] == Op::LoopBlock(plan.after_pc as int, body));
                }
                let head = labels.fresh();
                let tail = labels.fresh();
                lir.push(LirInst::Label(head));
                lir.push(LirInst::JumpIfZero(tail));
                assert(lirs_view(lir@) =~= at + seq![Lir::Label(next), Lir::JumpIfZero(next + 1)]);
                lower_ops_to_lir(plan.ops.as_slice(), 0, plan.ops.len(), lir, labels);
                let ghost mid = lirs_view(lir@);
                lir.push(LirInst::JumpIfNonZero(head));
                lir.push(LirInst::Label(tail));
                assert(lirs_view(lir@) =~= mid + seq![Lir::JumpIfNonZero(next), Lir::Label(next + 1)]);
                assert(lirs_view(lir@) =~= at + looped(next, inner.0));
                assert(lirs_view(lir@) + rest.0 =~= at + (looped(next, inner.0) + rest.0));
            },
            InterpOp::LoopEnd { .. } => {
                let ghost rest = ops_lir(view, i + 1, to as int, next);
                assert(Seq::<Lir>::empty() + rest.0 =~= rest.0);
            },
            _ => {
                let ghost rest = ops_lir(view, i + 1, to as int, next);
                lower_plain_op(&ops[i], lir);
                assert(lirs_view(lir@) + rest.0 =~= at + (plain_lir(view[i as int]) + rest.0));
            },
        }
        i += 1;
    }
    assert(lirs_view(lir@) + Seq::<Lir>::empty() =~= lirs_view(lir@));
}

/// The LIR of a loop with the given body, its labels counting from 0.
pub open spec fn loop_lir(body: Seq<Op>) -> (Seq<Lir>, int) {
    let inner = ops_lir(body, 0, body.len() as int, 2);
    (looped(0, inner.0), inner.1)
}

/// Lower a loop body, the operations between a `LoopStart` and its `LoopEnd`,
/// to LIR inside a loop.
pub fn lower_loop_body_to_lir(body: &[InterpOp]) -> (r: LirProgram)
    requires
        loop_lir(ops_view(body@)).1 <= u32::MAX,
    ensures
        lirs_view(r.insts@) == loop_lir(ops_view(body@)).0,
{
    broadcast use group_ops_view;

    let ghost view = ops_view(body@);
    let mut labels = LabelGen::new();
    proof {
        lemma_labels_grow(view, 0, view.len() as int, 2);
    }
    let loop_label = labels.fresh();
    let end_label = labels.fresh();
    let mut insts: Vec<LirInst> = Vec::new();
    insts.push(LirInst::Label(loop_label));
    insts.push(LirInst::JumpIfZero(end_label));
    assert(lirs_view(insts@) =~= seq![Lir::Label(0), Lir::JumpIfZero(1)]);
    lower_ops_to_lir(body, 0, body.len(), &mut insts, &mut labels);
    let ghost mid = lirs_view(insts@);
    insts.push(LirInst::JumpIfNonZero(loop_label));
    insts.push(LirInst::Label(end_label));
    assert(lirs_view(insts@) =~= mid + seq![Lir::JumpIfNonZero(0), Lir::Label(1)]);
    assert(lirs_view(insts@) =~= loop_lir(view).0);
    LirProgram { insts }
}

} // verus!
