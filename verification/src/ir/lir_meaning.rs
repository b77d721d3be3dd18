//! What LIR means, and that lowering keeps the meaning of a program.

use vstd::prelude::*;

use crate::interp::jit_compile::looped;
use crate::interp::lower::sign;
use crate::interp::machine::{run, run_one, scanned, Source, St};
use crate::ir::hir::Hir;
use crate::ir::lir::Lir;
use crate::ir::lower_lir::{lemma_lir_labels, lir_of, lirs_of};

verus! {

/// The state with `count` cells cleared from an offset on.
pub open spec fn zeroed(s: St, start: int, count: int) -> St
    decreases count,
{
    if count <= 0 {
        s
    } else {
        zeroed(s, start, count - 1).set_at(start + count - 1, 0)
    }
}

/// What an instruction without jumps does. `byte` is what a read gives.
pub open spec fn lir_effect(inst: Lir, s: St, byte: int) -> St {
    match inst {
        Lir::PtrAdd(d) => s.moved(d),
        Lir::PtrAddChecked(d, _, _) => s.moved(d),
        Lir::LinearMul(factors) => s.multiplied(factors),
        Lir::LinearMulWithSets(factors, sets) => s.multiplied_with_sets(factors, sets),
        Lir::CellAdd(k) => s.add_at(0, k),
        Lir::CellSet(v) => s.set_at(0, v),
        Lir::CellAddAt(off, k) => s.add_at(off, k),
        Lir::CellSetAt(off, v) => s.set_at(off, v),
        Lir::ZeroRun(start, count) => zeroed(s, start, count),
        Lir::PutByte => s.wrote(),
        Lir::GetByte => s.read(byte),
        _ => s,
    }
}

/// Where a label stands.
pub open spec fn place_of(insts: Seq<Lir>, label: int) -> int {
    choose|j: int| 0 <= j < insts.len() && #[trigger] insts[j] == Lir::Label(label)
}

/// Where execution goes on behind the instruction at `pc`, and in which state.
pub open spec fn lir_turn(insts: Seq<Lir>, pc: int, s: St, byte: int) -> (int, St) {
    match insts[pc] {
        Lir::Scan(d) => if s.cell() == 0 {
            (pc + 1, s)
        } else {
            (pc, s.moved(d))
        },
        Lir::ScanWithHint(d, _) => if s.cell() == 0 {
            (pc + 1, s)
        } else {
            (pc, s.moved(d))
        },
        Lir::JumpIfZero(l) => if s.cell() == 0 {
            (place_of(insts, l), s)
        } else {
            (pc + 1, s)
        },
        Lir::JumpIfNonZero(l) => if s.cell() == 0 {
            (pc + 1, s)
        } else {
            (place_of(insts, l), s)
        },
        _ => (pc + 1, lir_effect(insts[pc], s, byte)),
    }
}

/// Where a LIR program is after `n` steps. It has ended where no instruction is
/// left.
pub open spec fn lir_run(insts: Seq<Lir>, pc: int, s: St, source: Source, n: nat) -> (int, St)
    decreases n,
{
    if n == 0 || pc < 0 || pc >= insts.len() {
        (pc, s)
    } else {
        let (to, t) = lir_turn(insts, pc, s, source(s.reads));
        lir_run(insts, to, t, source, (n - 1) as nat)
    }
}

pub proof fn lemma_run_add(insts: Seq<Lir>, pc: int, s: St, source: Source, a: nat, b: nat)
    ensures
        lir_run(insts, pc, s, source, a + b) == lir_run(
            insts,
            lir_run(insts, pc, s, source, a).0,
            lir_run(insts, pc, s, source, a).1,
            source,
            b,
        ),
    decreases a,
{
    if a > 0 && 0 <= pc < insts.len() {
        let (to, t) = lir_turn(insts, pc, s, source(s.reads));
        lemma_run_add(insts, to, t, source, (a - 1) as nat, b);
        assert((a + b - 1) as nat == (a - 1) as nat + b);
    }
}

/// One step.
pub proof fn lemma_run_one(insts: Seq<Lir>, pc: int, s: St, source: Source)
    requires
        0 <= pc < insts.len(),
    ensures
        lir_run(insts, pc, s, source, 1) == lir_turn(insts, pc, s, source(s.reads)),
{
    reveal_with_fuel(lir_run, 2);
}

/// Every label lies from `a` on and below `b`, and none stands twice.
pub open spec fn labels_in_order(insts: Seq<Lir>, a: int, b: int) -> bool {
    &&& forall|i: int|
        0 <= i < insts.len() ==> (#[trigger] insts[i] matches Lir::Label(x) ==> a <= x < b)
    &&& forall|i: int, j: int|
        0 <= i < j < insts.len() && #[trigger] insts[i] is Label && #[trigger] insts[j] is Label
            ==> insts[i]->Label_0 != insts[j]->Label_0
}

pub proof fn lemma_order_join(x: Seq<Lir>, y: Seq<Lir>, a: int, b: int, c: int)
    requires
        labels_in_order(x, a, b),
        labels_in_order(y, b, c),
        a <= b <= c,
    ensures
        labels_in_order(x + y, a, c),
{
    let all = x + y;
    assert forall|i: int| 0 <= i < all.len() implies (#[trigger] all[i] matches Lir::Label(l) ==> a
        <= l < c && (i < x.len() ==> l < b) && (i >= x.len() ==> l >= b)) by {
        if i < x.len() {
            assert(all[i] == x[i]);
        } else {
            assert(all[i] == y[i - x.len()]);
        }
    }
    assert forall|i: int, j: int|
        0 <= i < j < all.len() && #[trigger] all[i] is Label
            && #[trigger] all[j] is Label implies all[i]->Label_0 != all[j]->Label_0 by {
        if j < x.len() {
            assert(x[i] is Label && x[j] is Label);
        } else if i >= x.len() {
            assert(y[i - x.len()] is Label && y[j - x.len()] is Label);
        }
    }
}

/// The labels of lowered programs are in order.
proof fn lemma_order(insts: Seq<Hir>, next: int)
    ensures
        labels_in_order(lirs_of(insts, next).0, next, lirs_of(insts, next).1),
        next <= lirs_of(insts, next).1,
    decreases insts,
{
    if insts.len() > 0 {
        let front = insts.drop_last();
        lemma_order(front, next);
        let a = lirs_of(front, next);
        lemma_order_one(insts.last(), a.1);
        let b = lir_of(insts.last(), a.1);
        lemma_order_join(a.0, b.0, next, a.1, b.1);
    }
}

proof fn lemma_order_one(inst: Hir, next: int)
    ensures
        labels_in_order(lir_of(inst, next).0, next, lir_of(inst, next).1),
        next <= lir_of(inst, next).1,
    decreases inst,
{
    if let Hir::Loop(body) = inst {
        lemma_order(body, next + 2);
        lemma_lir_labels(body, next + 2);
        let inner = lirs_of(body, next + 2);
        let all = looped(next, inner.0);
        let n = inner.0.len() as int;
        assert(all[0] == Lir::Label(next));
        assert(all[1] == Lir::JumpIfZero(next + 1));
        assert(all[n + 2] == Lir::JumpIfNonZero(next));
        assert(all[n + 3] == Lir::Label(next + 1));
        assert(all.len() == n + 4);
        assert forall|i: int| 2 <= i < n + 2 implies #[trigger] all[i] == inner.0[i - 2] by {}
        assert forall|i: int| 0 <= i < all.len() implies (#[trigger] all[i] matches Lir::Label(l)
            ==> next <= l < inner.1) by {
            if 2 <= i < n + 2 {
                assert(all[i] == inner.0[i - 2]);
            }
        }
        assert forall|i: int, j: int|
            0 <= i < j < all.len() && #[trigger] all[i] is Label
                && #[trigger] all[j] is Label implies all[i]->Label_0 != all[j]->Label_0 by {
            if 2 <= i < n + 2 {
                assert(inner.0[i - 2] is Label);
            }
            if 2 <= j < n + 2 {
                assert(inner.0[j - 2] is Label);
            }
        }
    }
}

/// A piece of code stands at a place of a program.
pub open spec fn stands_at(all: Seq<Lir>, p: int, piece: Seq<Lir>) -> bool {
    &&& 0 <= p
    &&& p + piece.len() <= all.len()
    &&& forall|k: int| 0 <= k < piece.len() ==> all[p + k] == #[trigger] piece[k]
}

/// No label stands twice.
pub open spec fn single(all: Seq<Lir>) -> bool {
    forall|i: int, j: int|
        0 <= i < j < all.len() && #[trigger] all[i] is Label && #[trigger] all[j] is Label
            ==> all[i]->Label_0 != all[j]->Label_0
}

pub proof fn lemma_place(all: Seq<Lir>, j: int, label: int)
    requires
        single(all),
        0 <= j < all.len(),
        all[j] == Lir::Label(label),
    ensures
        place_of(all, label) == j,
{
    let k = place_of(all, label);
    assert(0 <= k < all.len() && all[k] == Lir::Label(label));
    assert(all[k] is Label && all[j] is Label);
}

/// A list of instructions is run by its code.
proof fn lemma_block_runs(
    all: Seq<Lir>,
    p: int,
    insts: Seq<Hir>,
    next: int,
    s: St,
    source: Source,
    fuel: nat,
) -> (n: nat)
    requires
        single(all),
        stands_at(all, p, lirs_of(insts, next).0),
        run(insts, s, source, fuel) is Some,
    ensures
        lir_run(all, p, s, source, n) == (
            p + lirs_of(insts, next).0.len(),
            run(insts, s, source, fuel)->Some_0,
        ),
    decreases fuel, insts, 1int,
{
    if insts.len() == 0 {
        0
    } else {
        let front = insts.drop_last();
        let a = lirs_of(front, next);
        let b = lir_of(insts.last(), a.1);
        let piece = lirs_of(insts, next).0;
        assert forall|k: int| 0 <= k < a.0.len() implies all[p + k] == #[trigger] a.0[k] by {
            assert(piece[k] == a.0[k]);
        }
        let q = p + a.0.len();
        assert forall|k: int| 0 <= k < b.0.len() implies all[q + k] == #[trigger] b.0[k] by {
            assert(piece[a.0.len() + k] == b.0[k]);
        }
        let m = lemma_block_runs(all, p, front, next, s, source, fuel);
        let t = run(front, s, source, fuel)->Some_0;
        let k = lemma_inst_runs(all, q, insts.last(), a.1, t, source, fuel);
        lemma_run_add(all, p, s, source, m, k);
        m + k
    }
}

/// A search is run by its code.
proof fn lemma_scan_runs(all: Seq<Lir>, p: int, dir: int, s: St, source: Source, fuel: nat) -> (n:
    nat)
    requires
        0 <= p < all.len(),
        all[p] == Lir::Scan(sign(dir)),
        scanned(s, dir, fuel) is Some,
    ensures
        lir_run(all, p, s, source, n) == (p + 1, scanned(s, dir, fuel)->Some_0),
    decreases fuel,
{
    lemma_run_one(all, p, s, source);
    if s.cell() == 0 {
        1
    } else {
        let m = lemma_scan_runs(all, p, dir, s.moved(sign(dir)), source, (fuel - 1) as nat);
        lemma_run_add(all, p, s, source, 1, m);
        1 + m
    }
}

/// An instruction is run by its code.
proof fn lemma_inst_runs(
    all: Seq<Lir>,
    p: int,
    inst: Hir,
    next: int,
    s: St,
    source: Source,
    fuel: nat,
) -> (n: nat)
    requires
        single(all),
        stands_at(all, p, lir_of(inst, next).0),
        run_one(inst, s, source, fuel) is Some,
    ensures
        lir_run(all, p, s, source, n) == (
            p + lir_of(inst, next).0.len(),
            run_one(inst, s, source, fuel)->Some_0,
        ),
    decreases fuel, inst, 0int,
{
    let piece = lir_of(inst, next).0;
    assert(piece.len() > 0);
    assert(all[p + 0] == piece[0]);
    match inst {
        Hir::Scan(dir) => lemma_scan_runs(all, p, dir, s, source, fuel),
        Hir::Loop(body) => lemma_loop_runs(all, p, body, next, s, source, fuel),
        _ => {
            lemma_run_one(all, p, s, source);
            1
        },
    }
}

/// A loop is run by its code.
proof fn lemma_loop_runs(
    all: Seq<Lir>,
    p: int,
    body: Seq<Hir>,
    next: int,
    s: St,
    source: Source,
    fuel: nat,
) -> (n: nat)
    requires
        single(all),
        stands_at(all, p, lir_of(Hir::Loop(body), next).0),
        run_one(Hir::Loop(body), s, source, fuel) is Some,
    ensures
        lir_run(all, p, s, source, n) == (
            p + lir_of(Hir::Loop(body), next).0.len(),
            run_one(Hir::Loop(body), s, source, fuel)->Some_0,
        ),
    decreases fuel, body, 2int,
{
    let inst = Hir::Loop(body);
    let inner = lirs_of(body, next + 2).0;
    let piece = lir_of(inst, next).0;
    let len = inner.len() as int;
    assert(piece == looped(next, inner));
    assert(piece.len() == len + 4);
    assert(all[p + 0] == piece[0] && piece[0] == Lir::Label(next));
    assert(all[p + 1] == piece[1] && piece[1] == Lir::JumpIfZero(next + 1));
    assert(all[p + (len + 2)] == piece[len + 2] && piece[len + 2] == Lir::JumpIfNonZero(next));
    assert(all[p + (len + 3)] == piece[len + 3] && piece[len + 3] == Lir::Label(next + 1));
    lemma_place(all, p, next);
    lemma_place(all, p + len + 3, next + 1);
    lemma_run_one(all, p, s, source);
    lemma_run_one(all, p + 1, s, source);
    lemma_run_add(all, p, s, source, 1, 1);
    if s.cell() == 0 {
        lemma_run_one(all, p + len + 3, s, source);
        lemma_run_add(all, p, s, source, 2, 1);
        3
    } else {
        let less = (fuel - 1) as nat;
        assert forall|k: int| 0 <= k < inner.len() implies all[p + 2 + k] == #[trigger] inner[k] by {
            assert(piece[2 + k] == inner[k]);
            assert(all[p + (2 + k)] == piece[2 + k]);
        }
        let m = lemma_block_runs(all, p + 2, body, next + 2, s, source, less);
        let t = run(body, s, source, less)->Some_0;
        lemma_run_add(all, p, s, source, 2, m);
        lemma_run_one(all, p + 2 + len, t, source);
        lemma_run_add(all, p, s, source, 2 + m, 1);
        if t.cell() == 0 {
            lemma_run_one(all, p + len + 3, t, source);
            lemma_run_add(all, p, s, source, 2 + m + 1, 1);
            2 + m + 1 + 1
        } else {
            let k = lemma_loop_runs(all, p, body, next, t, source, less);
            lemma_run_add(all, p, s, source, 2 + m + 1, k);
            2 + m + 1 + k
        }
    }
}

/// Lowering keeps the meaning of a program: where it ends, so does its LIR, in
/// the same state, with the same bytes read and written.
pub proof fn law_lowered_programs_do_the_same(insts: Seq<Hir>, s: St, source: Source, fuel: nat)
    -> (n: nat)
    requires
        run(insts, s, source, fuel) is Some,
    ensures
        lir_run(lirs_of(insts, 0).0, 0, s, source, n) == (
            lirs_of(insts, 0).0.len() as int,
            run(insts, s, source, fuel)->Some_0,
        ),
{
    let all = lirs_of(insts, 0).0;
    lemma_order(insts, 0);
    lemma_block_runs(all, 0, insts, 0, s, source, fuel)
}

} // verus!
