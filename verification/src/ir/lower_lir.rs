//! HIR to LIR: one instruction for each of the HIR's, and labels for loops.

use vstd::prelude::*;

use crate::interp::jit_compile::looped;
use crate::interp::lower::sign;
use crate::ir::hir::{
    factors_view, hir_view, hirs_view, lemma_hirs_index, sets_view, Hir,
};
use crate::ir::hir::{HirInst, HirProgram};
use crate::ir::lir::{lir_view, lirs_view, Lir};
use crate::ir::lir::{LabelGen, LirInst, LirProgram};

verus! {

/// The LIR of an instruction, where `next` is the first free label, and the
/// first free label behind it.
pub open spec fn lir_of(inst: Hir, next: int) -> (Seq<Lir>, int)
    decreases inst, 0int,
{
    match inst {
        Hir::Move(d) => (seq![Lir::PtrAdd(d)], next),
        Hir::Add(k) => (seq![Lir::CellAdd(k)], next),
        Hir::Zero => (seq![Lir::CellSet(0)], next),
        Hir::PutByte => (seq![Lir::PutByte], next),
        Hir::GetByte => (seq![Lir::GetByte], next),
        Hir::LinearMul(factors) => (seq![Lir::LinearMul(factors)], next),
        Hir::LinearMulWithSets(factors, sets) => (
            seq![Lir::LinearMulWithSets(factors, sets)],
            next,
        ),
        Hir::Scan(dir) => (seq![Lir::Scan(sign(dir))], next),
        Hir::Loop(body) => {
            let inner = lirs_of(body, next + 2);
            (looped(next, inner.0), inner.1)
        },
    }
}

/// The LIR of a list of instructions, and the first free label behind it.
pub open spec fn lirs_of(insts: Seq<Hir>, next: int) -> (Seq<Lir>, int)
    decreases insts, 1int,
{
    if insts.len() == 0 {
        (Seq::empty(), next)
    } else {
        let front = lirs_of(insts.drop_last(), next);
        let last = lir_of(insts.last(), front.1);
        (front.0 + last.0, last.1)
    }
}

/// Labels are only taken, never given back.
pub proof fn lemma_lir_labels(insts: Seq<Hir>, next: int)
    ensures
        lirs_of(insts, next).1 >= next,
    decreases insts,
{
    if insts.len() > 0 {
        lemma_lir_labels(insts.drop_last(), next);
        let mid = lirs_of(insts.drop_last(), next).1;
        lemma_one_labels(insts.last(), mid);
    }
}

proof fn lemma_one_labels(inst: Hir, next: int)
    ensures
        lir_of(inst, next).1 >= next,
    decreases inst,
{
    if let Hir::Loop(body) = inst {
        lemma_lir_labels(body, next + 2);
    }
}

/// A copy of a factor list.
fn copy_factors(factors: &Vec<(isize, i32)>) -> (r: Vec<(isize, i32)>)
    ensures
        factors_view(r@) == factors_view(factors@),
{
    let mut r: Vec<(isize, i32)> = Vec::new();
    let mut i: usize = 0;
    while i < factors.len()
        invariant
            i <= factors.len(),
            r@ == factors@.take(i as int),
        decreases factors.len() - i,
    {
        r.push(factors[i]);
        i += 1;
        assert(r@ =~= factors@.take(i as int));
    }
    assert(r@ =~= factors@);
    r
}

/// A copy of a list of offsets.
fn copy_sets(sets: &Vec<isize>) -> (r: Vec<isize>)
    ensures
        sets_view(r@) == sets_view(sets@),
{
    let mut r: Vec<isize> = Vec::new();
    let mut i: usize = 0;
    while i < sets.len()
        invariant
            i <= sets.len(),
            r@ == sets@.take(i as int),
        decreases sets.len() - i,
    {
        r.push(sets[i]);
        i += 1;
        assert(r@ =~= sets@.take(i as int));
    }
    assert(r@ =~= sets@);
    r
}

/// Append an instruction.
fn push_lir(out: &mut Vec<LirInst>, inst: LirInst)
    ensures
        lirs_view(final(out)@) == lirs_view(old(out)@) + seq![lir_view(inst)],
{
    out.push(inst);
    assert(lirs_view(out@) =~= lirs_view(old(out)@) + seq![lir_view(inst)]);
}

/// Lower a block behind the instructions.
fn lower_insts(insts: &Vec<HirInst>, labels: &mut LabelGen, out: &mut Vec<LirInst>)
    requires
        lirs_of(hirs_view(insts@), old(labels).next_id()).1 <= u32::MAX,
    ensures
        lirs_view(final(out)@) == lirs_view(old(out)@) + lirs_of(
            hirs_view(insts@),
            old(labels).next_id(),
        ).0,
        final(labels).next_id() == lirs_of(hirs_view(insts@), old(labels).next_id()).1,
    decreases insts,
{
    let ghost hirs = hirs_view(insts@);
    let ghost base = lirs_view(out@);
    let ghost first = labels.next_id();
    proof {
        lemma_hirs_index(insts@);
        assert(hirs.take(0) =~= Seq::<Hir>::empty());
        assert(lirs_view(out@) =~= base + lirs_of(hirs.take(0), first).0);
    }
    let mut i: usize = 0;
    while i < insts.len()
        invariant
            i <= insts.len(),
            hirs == hirs_view(insts@),
            hirs.len() == insts@.len(),
            forall|k: int| 0 <= k < insts@.len() ==> #[trigger] hirs[k] == hir_view(insts@[k]),
            lirs_of(hirs, first).1 <= u32::MAX,
            lirs_view(out@) == base + lirs_of(hirs.take(i as int), first).0,
            labels.next_id() == lirs_of(hirs.take(i as int), first).1,
        decreases insts.len() - i,
    {
        let ghost before = hirs.take(i as int);
        let ghost after = hirs.take(i + 1);
        let ghost sofar = lirs_view(out@);
        let ghost next = labels.next_id();
        proof {
            assert(hirs[i as int] == hir_view(insts@[i as int]));
            assert(after.drop_last() =~= before);
            assert(after.last() == hirs[i as int]);
            lemma_prefix_labels(hirs, first, i + 1);
        }
        match &insts[i] {
            HirInst::Move(d) => {
                push_lir(out, LirInst::PtrAdd(*d));
            },
            HirInst::Add(k) => {
                push_lir(out, LirInst::CellAdd(*k));
            },
            HirInst::Zero => {
                push_lir(out, LirInst::CellSet(0));
            },
            HirInst::PutByte => {
                push_lir(out, LirInst::PutByte);
            },
            HirInst::GetByte => {
                push_lir(out, LirInst::GetByte);
            },
            HirInst::LinearMul(factors) => {
                push_lir(out, LirInst::LinearMul(copy_factors(factors)));
            },
            HirInst::LinearMulWithSets { factors, sets } => {
                push_lir(
                    out,
                    LirInst::LinearMulWithSets {
                        factors: copy_factors(factors),
                        sets: copy_sets(sets),
                    },
                );
            },
            HirInst::Scan(dir) => {
                let step: isize = if *dir > 0 {
                    1
                } else {
                    -1
                };
                push_lir(out, LirInst::Scan(step));
            },
            HirInst::Loop(body) => {
                proof {
                    lemma_lir_labels(hirs_view(body@), next + 2);
                    assert(lir_of(hirs[i as int], next).1 == lirs_of(
                        hirs_view(body@),
                        next + 2,
                    ).1);
                    assert(lirs_of(after, first).1 == lir_of(hirs[i as int], next).1);
                }
                let start = labels.fresh();
                let end = labels.fresh();
                push_lir(out, LirInst::Label(start));
                push_lir(out, LirInst::JumpIfZero(end));
                lower_insts(body, labels, out);
                push_lir(out, LirInst::JumpIfNonZero(start));
                push_lir(out, LirInst::Label(end));
            },
        }
        assert(lirs_view(out@) =~= sofar + lir_of(hirs[i as int], next).0);
        assert(lirs_view(out@) =~= base + lirs_of(after, first).0);
        i += 1;
    }
    assert(hirs.take(i as int) =~= hirs);
}

/// A prefix takes no more labels than the whole.
proof fn lemma_prefix_labels(insts: Seq<Hir>, next: int, n: int)
    requires
        0 <= n <= insts.len(),
    ensures
        lirs_of(insts.take(n), next).1 <= lirs_of(insts, next).1,
    decreases insts.len() - n,
{
    if n < insts.len() {
        lemma_prefix_labels(insts, next, n + 1);
        let more = insts.take(n + 1);
        assert(more.drop_last() =~= insts.take(n));
        lemma_one_labels(more.last(), lirs_of(insts.take(n), next).1);
    } else {
        assert(insts.take(n) =~= insts);
    }
}

/// Lower a program to LIR.
pub fn lower_to_lir(program: &HirProgram) -> (r: LirProgram)
    requires
        lirs_of(hirs_view(program.insts@), 0).1 <= u32::MAX,
    ensures
        lirs_view(r.insts@) == lirs_of(hirs_view(program.insts@), 0).0,
{
    let mut insts: Vec<LirInst> = Vec::new();
    let mut labels = LabelGen::new();
    assert(lirs_view(insts@) =~= Seq::<Lir>::empty());
    lower_insts(&program.insts, &mut labels, &mut insts);
    assert(lirs_view(insts@) =~= lirs_of(hirs_view(program.insts@), 0).0);
    LirProgram { insts }
}

} // verus!
