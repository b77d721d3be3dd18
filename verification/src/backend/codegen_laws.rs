//! Code generation only produces programs that can be encoded.
//!
//! The internal labels of the emitted code are distinct from each other, from
//! the labels of the run-time routines and from the labels of the source
//! program, and every jump and call has a target.

use vstd::prelude::*;

use crate::backend::asm_ir::{AsmInst, AsmLabel, Reg64};
use crate::backend::codegen_common::{PlatformEmitter, Routines};
use crate::backend::codegen_common::{
    add_reg_insts, all_disp8, clamp_i32, covers, factors_at_insts, factors_walk_insts, highest,
    internal, is_loop_head, lemma_body_takes_labels, lemma_walks_labels_nonneg, linear_inner_insts,
    linear_inner_labels, lir_body, lir_inst_ok, lir_ok, lir_step, lowest, multiplicand_frame,
    offsets_of, probe_high_insts, probe_low_insts, ptr_add_checked_insts,
    ptr_add_checked_labels, ptr_add_insts, ptr_add_labels, regrow_insts, scaled_at_insts,
    scaled_here_insts, scan_hint_insts, scan_loop_insts, sets_at_insts, sets_walk_insts,
    walk_insts, walk_labels, walks_labels, zero_run_insts,
};
use crate::backend::labels::{
    labels_in, lemma_labels_concat, lemma_labels_empty, lemma_labels_push, lemma_targets_push,
    fair, in_order, lemma_well_labelled_concat, plain, targets_in, well_labelled,
};
use crate::backend::x86_64::encode::{label_field, operands_encodable};
use crate::ir::lir::{LabelId, LirInst};

verus! {

/// Encodable pieces put together.
pub proof fn lemma_plain_concat(a: Seq<AsmInst>, b: Seq<AsmInst>)
    requires
        plain(a),
        plain(b),
    ensures
        plain(a + b),
{
    assert forall|i: int| 0 <= i < (a + b).len() implies operands_encodable(
        #[trigger] (a + b)[i],
    ) && label_field((a + b)[i]) !is Rel8 && (a + b)[i] !is Align16 by {
        if i < a.len() {
            assert((a + b)[i] == a[i]);
        } else {
            assert((a + b)[i] == b[i - a.len()]);
        }
    }
}

/// Pieces without short jumps put together.
pub proof fn lemma_fair_concat(a: Seq<AsmInst>, b: Seq<AsmInst>)
    requires
        fair(a),
        fair(b),
    ensures
        fair(a + b),
{
    assert forall|i: int| 0 <= i < (a + b).len() implies operands_encodable(
        #[trigger] (a + b)[i],
    ) && label_field((a + b)[i]) !is Rel8 by {
        if i < a.len() {
            assert((a + b)[i] == a[i]);
        } else {
            assert((a + b)[i] == b[i - a.len()]);
        }
    }
}

/// A piece without labels.
spec fn neutral(insts: Seq<AsmInst>) -> bool {
    plain(insts) && labels_in(insts) == Seq::<u32>::empty() && targets_in(insts) == Seq::<
        u32,
    >::empty()
}

proof fn lemma_neutral(insts: Seq<AsmInst>, at: int, ext: Set<u32>)
    requires
        neutral(insts),
    ensures
        well_labelled(insts, at, at, ext),
{
}

proof fn lemma_neutral_concat(a: Seq<AsmInst>, b: Seq<AsmInst>)
    requires
        neutral(a),
        neutral(b),
    ensures
        neutral(a + b),
{
    lemma_labels_concat(a, b);
    lemma_plain_concat(a, b);
    assert(Seq::<u32>::empty() + Seq::<u32>::empty() =~= Seq::<u32>::empty());
}

proof fn lemma_add_reg(reg: Reg64, value: int)
    ensures
        neutral(add_reg_insts(reg, value)),
    decreases
        if value < 0 {
            -value
        } else {
            value
        },
{
    broadcast use {lemma_labels_push, lemma_targets_push, lemma_labels_empty};

    if value != 0 {
        let head = seq![AsmInst::AddRegImm32(reg, clamp_i32(value) as i32)];
        assert(neutral(head));
        lemma_add_reg(reg, value - clamp_i32(value));
        lemma_neutral_concat(head, add_reg_insts(reg, value - clamp_i32(value)));
    } else {
        assert(neutral(Seq::<AsmInst>::empty()));
    }
}

/// What stands around a piece binds and refers to labels of its own.
pub proof fn lemma_wrap(
    a: Seq<AsmInst>,
    mid: Seq<AsmInst>,
    c: Seq<AsmInst>,
    hi: int,
    mid_hi: int,
    mid_lo: int,
    lo: int,
    ext: Set<u32>,
)
    requires
        lo <= mid_lo,
        mid_hi <= hi,
        in_order(mid, mid_hi, mid_lo, ext),
        (labels_in(a) + labels_in(c)).no_duplicates(),
        forall|i: int|
            0 <= i < (labels_in(a) + labels_in(c)).len() ==> {
                let x = #[trigger] (labels_in(a) + labels_in(c))[i];
                lo < x <= hi && !(mid_lo < x <= mid_hi)
            },
        forall|i: int|
            0 <= i < (targets_in(a) + targets_in(c)).len() ==> {
                let x = #[trigger] (targets_in(a) + targets_in(c))[i];
                (labels_in(a) + labels_in(c)).contains(x) || ext.contains(x)
            },
    ensures
        in_order(a + mid + c, hi, lo, ext),
        plain(a) && plain(mid) && plain(c) ==> plain(a + mid + c),
        fair(a) && fair(mid) && fair(c) ==> fair(a + mid + c),
{
    let la = labels_in(a);
    let lm = labels_in(mid);
    let lc = labels_in(c);
    let outer = la + lc;
    let l = labels_in(a + mid + c);
    lemma_labels_concat(a, mid);
    lemma_labels_concat(a + mid, c);
    if plain(a) && plain(mid) && plain(c) {
        lemma_plain_concat(a, mid);
        lemma_plain_concat(a + mid, c);
    }
    if fair(a) && fair(mid) && fair(c) {
        lemma_fair_concat(a, mid);
        lemma_fair_concat(a + mid, c);
    }
    assert(l == la + lm + lc);
    assert forall|i: int| 0 <= i < l.len() implies {
        &&& lo < #[trigger] l[i] <= hi
        &&& (la.len() <= i < la.len() + lm.len() ==> l[i] == lm[i - la.len()])
        &&& (i < la.len() ==> l[i] == outer[i])
        &&& (i >= la.len() + lm.len() ==> l[i] == outer[i - lm.len()])
    } by {
        if la.len() <= i < la.len() + lm.len() {
            assert(l[i] == lm[i - la.len()]);
        } else if i < la.len() {
            assert(l[i] == outer[i]);
        } else {
            assert(l[i] == outer[i - lm.len()]);
        }
    }
    assert(l.no_duplicates()) by {
        assert forall|i: int, j: int| 0 <= i < l.len() && 0 <= j < l.len() && i != j implies l[i]
            != l[j] by {
            let mi = la.len() <= i < la.len() + lm.len();
            let mj = la.len() <= j < la.len() + lm.len();
            if mi && !mj {
                assert(mid_lo < lm[i - la.len()] <= mid_hi);
            }
            if mj && !mi {
                assert(mid_lo < lm[j - la.len()] <= mid_hi);
            }
        }
    }
    let ta = targets_in(a);
    let tm = targets_in(mid);
    let tc = targets_in(c);
    let t = targets_in(a + mid + c);
    assert(t == ta + tm + tc);
    assert forall|i: int| 0 <= i < t.len() implies l.contains(#[trigger] t[i]) || ext.contains(
        t[i],
    ) by {
        if ta.len() <= i < ta.len() + tm.len() {
            assert(t[i] == tm[i - ta.len()]);
            if lm.contains(t[i]) {
                let k = choose|k: int| 0 <= k < lm.len() && lm[k] == t[i];
                assert(l[la.len() + k] == t[i]);
            }
        } else {
            let o = if i < ta.len() {
                i
            } else {
                i - tm.len()
            };
            assert(t[i] == (ta + tc)[o]);
            if outer.contains(t[i]) {
                let k = choose|k: int| 0 <= k < outer.len() && outer[k] == t[i];
                if k < la.len() {
                    assert(l[k] == t[i]);
                } else {
                    assert(l[k + lm.len()] == t[i]);
                }
            }
        }
    }
}

/// The move with bounds check.
proof fn lemma_ptr_add(next: int, n: int, ensure: AsmLabel, ext: Set<u32>)
    requires
        ptr_add_labels(n) <= next <= u32::MAX,
        ext.contains(ensure.0),
    ensures
        well_labelled(ptr_add_insts(next, n, ensure), next, next - ptr_add_labels(n), ext),
{
    broadcast use {lemma_labels_push, lemma_targets_push, lemma_labels_empty};

    if n == 0 {
        assert(neutral(Seq::<AsmInst>::empty()));
        lemma_neutral(Seq::<AsmInst>::empty(), next, ext);
    } else {
        let slow_path = internal(next, 0);
        let done = internal(next, 1);
        let a = seq![AsmInst::MovRegReg(Reg64::R15, Reg64::R13)];
        let b = add_reg_insts(Reg64::R15, n);
        let c = seq![
            AsmInst::CmpRegReg(Reg64::R15, Reg64::R12),
            AsmInst::Jb(slow_path),
            AsmInst::CmpRegReg(Reg64::R15, Reg64::R14),
            AsmInst::Jae(slow_path),
            AsmInst::MovRegReg(Reg64::R13, Reg64::R15),
            AsmInst::Jmp(done),
            AsmInst::Label(slow_path),
            AsmInst::Call(ensure),
            AsmInst::Label(done),
        ];
        assert(c =~= Seq::<AsmInst>::empty()
            .push(AsmInst::CmpRegReg(Reg64::R15, Reg64::R12))
            .push(AsmInst::Jb(slow_path))
            .push(AsmInst::CmpRegReg(Reg64::R15, Reg64::R14))
            .push(AsmInst::Jae(slow_path))
            .push(AsmInst::MovRegReg(Reg64::R13, Reg64::R15))
            .push(AsmInst::Jmp(done))
            .push(AsmInst::Label(slow_path))
            .push(AsmInst::Call(ensure))
            .push(AsmInst::Label(done)));
        assert(neutral(a));
        lemma_add_reg(Reg64::R15, n);
        lemma_neutral_concat(a, b);
        lemma_neutral(a + b, next, ext);
        assert(labels_in(c) =~= seq![slow_path.0, done.0]);
        assert(labels_in(c)[0] == slow_path.0);
        assert(labels_in(c)[1] == done.0);
        assert(targets_in(c) =~= seq![slow_path.0, slow_path.0, done.0, ensure.0]);
        assert(well_labelled(c, next, next - 2, ext));
        lemma_well_labelled_concat(a + b, c, next, next, next - 2, ext);
    }
}

spec fn optional(on: bool, s: Seq<u32>) -> Seq<u32> {
    if on {
        s
    } else {
        Seq::empty()
    }
}

proof fn lemma_probe(extent: int, slow: AsmLabel)
    ensures
        plain(probe_low_insts(extent, slow)),
        labels_in(probe_low_insts(extent, slow)) == Seq::<u32>::empty(),
        targets_in(probe_low_insts(extent, slow)) == optional(extent < 0, seq![slow.0]),
        plain(probe_high_insts(extent, slow)),
        labels_in(probe_high_insts(extent, slow)) == Seq::<u32>::empty(),
        targets_in(probe_high_insts(extent, slow)) == optional(extent > 0, seq![slow.0]),
{
    broadcast use {lemma_labels_push, lemma_targets_push, lemma_labels_empty};

    let a = seq![AsmInst::MovRegReg(Reg64::R15, Reg64::R13)];
    let b = add_reg_insts(Reg64::R15, extent);
    let lo = seq![AsmInst::CmpRegReg(Reg64::R15, Reg64::R12), AsmInst::Jb(slow)];
    assert(lo =~= Seq::<AsmInst>::empty()
        .push(AsmInst::CmpRegReg(Reg64::R15, Reg64::R12))
        .push(AsmInst::Jb(slow)));
    let hi = seq![AsmInst::CmpRegReg(Reg64::R15, Reg64::R14), AsmInst::Jae(slow)];
    assert(hi =~= Seq::<AsmInst>::empty()
        .push(AsmInst::CmpRegReg(Reg64::R15, Reg64::R14))
        .push(AsmInst::Jae(slow)));
    assert(neutral(a));
    lemma_add_reg(Reg64::R15, extent);
    lemma_neutral_concat(a, b);
    lemma_labels_concat(a + b, lo);
    lemma_plain_concat(a + b, lo);
    lemma_labels_concat(a + b, hi);
    lemma_plain_concat(a + b, hi);
    assert(Seq::<u32>::empty() + seq![slow.0] =~= seq![slow.0]);
    assert(Seq::<u32>::empty() + Seq::<u32>::empty() =~= Seq::<u32>::empty());
    assert(targets_in(lo) =~= seq![slow.0]);
    assert(targets_in(hi) =~= seq![slow.0]);
}

proof fn lemma_regrow(extent: int, slow: AsmLabel, retry: AsmLabel, ensure: AsmLabel)
    ensures
        plain(regrow_insts(extent, slow, retry, ensure)),
        labels_in(regrow_insts(extent, slow, retry, ensure)) == optional(
            extent != 0,
            seq![slow.0],
        ),
        targets_in(regrow_insts(extent, slow, retry, ensure)) == optional(
            extent != 0,
            seq![ensure.0, retry.0],
        ),
{
    broadcast use {lemma_labels_push, lemma_targets_push, lemma_labels_empty};

    let a = seq![AsmInst::Label(slow), AsmInst::Call(ensure)];
    assert(a =~= Seq::<AsmInst>::empty().push(AsmInst::Label(slow)).push(AsmInst::Call(ensure)));
    let b = add_reg_insts(Reg64::R13, -extent);
    let c = seq![AsmInst::Jmp(retry)];
    lemma_add_reg(Reg64::R13, -extent);
    lemma_labels_concat(a, b);
    lemma_plain_concat(a, b);
    lemma_labels_concat(a + b, c);
    lemma_plain_concat(a + b, c);
    assert(labels_in(a + b + c) =~= seq![slow.0]);
    assert(targets_in(a + b + c) =~= seq![ensure.0, retry.0]);
}

/// The checked move.
proof fn lemma_ptr_add_checked(
    next: int,
    delta: int,
    lo: int,
    hi: int,
    ensure: AsmLabel,
    ext: Set<u32>,
)
    requires
        lo <= 0 <= hi,
        ptr_add_checked_labels(lo, hi) <= next <= u32::MAX,
        ext.contains(ensure.0),
    ensures
        well_labelled(
            ptr_add_checked_insts(next, delta, lo, hi, ensure),
            next,
            next - ptr_add_checked_labels(lo, hi),
            ext,
        ),
{
    broadcast use {lemma_labels_push, lemma_targets_push, lemma_labels_empty};

    if lo == 0 && hi == 0 {
        assert(neutral(Seq::<AsmInst>::empty()));
        lemma_neutral(Seq::<AsmInst>::empty(), next, ext);
    } else {
        let retry = internal(next, 0);
        let slow_lo = internal(next, 1);
        let slow_hi = internal(next, 2);
        let done = internal(next, 3);
        let p0 = seq![AsmInst::Label(retry)];
        let p1 = probe_low_insts(lo, slow_lo);
        let p2 = probe_high_insts(hi, slow_hi);
        let p3 = add_reg_insts(Reg64::R13, delta);
        let p4 = seq![AsmInst::Jmp(done)];
        let p5 = regrow_insts(lo, slow_lo, retry, ensure);
        let p6 = regrow_insts(hi, slow_hi, retry, ensure);
        let p7 = seq![AsmInst::Label(done)];
        lemma_probe(lo, slow_lo);
        lemma_probe(hi, slow_hi);
        lemma_add_reg(Reg64::R13, delta);
        lemma_regrow(lo, slow_lo, retry, ensure);
        lemma_regrow(hi, slow_hi, retry, ensure);
        lemma_labels_concat(p0, p1);
        lemma_labels_concat(p0 + p1, p2);
        lemma_labels_concat(p0 + p1 + p2, p3);
        lemma_labels_concat(p0 + p1 + p2 + p3, p4);
        lemma_labels_concat(p0 + p1 + p2 + p3 + p4, p5);
        lemma_labels_concat(p0 + p1 + p2 + p3 + p4 + p5, p6);
        lemma_labels_concat(p0 + p1 + p2 + p3 + p4 + p5 + p6, p7);
        lemma_plain_concat(p0, p1);
        lemma_plain_concat(p0 + p1, p2);
        lemma_plain_concat(p0 + p1 + p2, p3);
        lemma_plain_concat(p0 + p1 + p2 + p3, p4);
        lemma_plain_concat(p0 + p1 + p2 + p3 + p4, p5);
        lemma_plain_concat(p0 + p1 + p2 + p3 + p4 + p5, p6);
        lemma_plain_concat(p0 + p1 + p2 + p3 + p4 + p5 + p6, p7);
        let all = ptr_add_checked_insts(next, delta, lo, hi, ensure);
        assert(all == p0 + p1 + p2 + p3 + p4 + p5 + p6 + p7);
        let l = labels_in(all);
        let t = targets_in(all);
        if lo < 0 && hi > 0 {
            assert(l =~= seq![retry.0, slow_lo.0, slow_hi.0, done.0]);
            assert(t =~= seq![
                slow_lo.0,
                slow_hi.0,
                done.0,
                ensure.0,
                retry.0,
                ensure.0,
                retry.0,
            ]);
            assert(l[0] == retry.0 && l[1] == slow_lo.0 && l[2] == slow_hi.0 && l[3] == done.0);
        } else if lo < 0 {
            assert(l =~= seq![retry.0, slow_lo.0, done.0]);
            assert(t =~= seq![slow_lo.0, done.0, ensure.0, retry.0]);
            assert(l[0] == retry.0 && l[1] == slow_lo.0 && l[2] == done.0);
        } else {
            assert(l =~= seq![retry.0, slow_hi.0, done.0]);
            assert(t =~= seq![slow_hi.0, done.0, ensure.0, retry.0]);
            assert(l[0] == retry.0 && l[1] == slow_hi.0 && l[2] == done.0);
        }
    }
}

proof fn lemma_scaled(off: isize, f: i32)
    ensures
        neutral(scaled_here_insts(f)),
        neutral(scaled_at_insts(off, f)),
{
    broadcast use {lemma_labels_push, lemma_targets_push, lemma_labels_empty};

    assert(seq![AsmInst::ImulEaxEbxImm32(f), AsmInst::AddMemR13Al] =~= Seq::<
        AsmInst,
    >::empty().push(AsmInst::ImulEaxEbxImm32(f)).push(AsmInst::AddMemR13Al));
    assert(seq![AsmInst::ImulEaxEbxImm32(f), AsmInst::AddMemR13AlDisp8(off as i8)] =~= Seq::<
        AsmInst,
    >::empty().push(AsmInst::ImulEaxEbxImm32(f)).push(AsmInst::AddMemR13AlDisp8(off as i8)));
}

proof fn lemma_factors_at(factors: Seq<(isize, i32)>, k: int)
    ensures
        neutral(factors_at_insts(factors, k)),
    decreases k,
{
    broadcast use lemma_labels_empty;

    if k > 0 {
        lemma_factors_at(factors, k - 1);
        lemma_scaled(factors[k - 1].0, factors[k - 1].1);
        lemma_neutral_concat(
            factors_at_insts(factors, k - 1),
            scaled_at_insts(factors[k - 1].0, factors[k - 1].1),
        );
    }
}

proof fn lemma_sets_at(sets: Seq<isize>, k: int)
    ensures
        neutral(sets_at_insts(sets, k)),
    decreases k,
{
    broadcast use {lemma_labels_push, lemma_targets_push, lemma_labels_empty};

    if k > 0 {
        lemma_sets_at(sets, k - 1);
        let one = seq![AsmInst::MovMem8ImmDisp8(Reg64::R13, sets[k - 1] as i8, 0)];
        assert(neutral(one));
        lemma_neutral_concat(sets_at_insts(sets, k - 1), one);
    }
}

proof fn lemma_walk(next: int, off: int, work: Seq<AsmInst>, ensure: AsmLabel, ext: Set<u32>)
    requires
        neutral(work),
        walk_labels(off) <= next <= u32::MAX,
        ext.contains(ensure.0),
    ensures
        well_labelled(walk_insts(next, off, work, ensure), next, next - walk_labels(off), ext),
{
    let mid = next - ptr_add_labels(off);
    lemma_ptr_add(next, off, ensure, ext);
    lemma_neutral(work, mid, ext);
    lemma_ptr_add(mid, -off, ensure, ext);
    let there = ptr_add_insts(next, off, ensure);
    let back = ptr_add_insts(mid, -off, ensure);
    lemma_well_labelled_concat(there, work, next, mid, mid, ext);
    lemma_well_labelled_concat(there + work, back, next, mid, next - walk_labels(off), ext);
}

proof fn lemma_factors_walk(
    factors: Seq<(isize, i32)>,
    next: int,
    k: int,
    ensure: AsmLabel,
    ext: Set<u32>,
)
    requires
        0 <= k <= factors.len(),
        walks_labels(offsets_of(factors), k) <= next <= u32::MAX,
        ext.contains(ensure.0),
    ensures
        well_labelled(
            factors_walk_insts(factors, next, k, ensure),
            next,
            next - walks_labels(offsets_of(factors), k),
            ext,
        ),
    decreases k,
{
    broadcast use lemma_labels_empty;

    if k > 0 {
        let offs = offsets_of(factors);
        let mid = next - walks_labels(offs, k - 1);
        assert(offs[k - 1] == factors[k - 1].0);
        lemma_walks_labels_nonneg(offs, k - 1, k);
        lemma_factors_walk(factors, next, k - 1, ensure, ext);
        lemma_scaled(factors[k - 1].0, factors[k - 1].1);
        lemma_walk(
            mid,
            factors[k - 1].0 as int,
            scaled_here_insts(factors[k - 1].1),
            ensure,
            ext,
        );
        lemma_well_labelled_concat(
            factors_walk_insts(factors, next, k - 1, ensure),
            walk_insts(
                mid,
                factors[k - 1].0 as int,
                scaled_here_insts(factors[k - 1].1),
                ensure,
            ),
            next,
            mid,
            next - walks_labels(offs, k),
            ext,
        );
    } else {
        assert(neutral(Seq::<AsmInst>::empty()));
        lemma_neutral(Seq::<AsmInst>::empty(), next, ext);
    }
}

proof fn lemma_sets_walk(sets: Seq<isize>, next: int, k: int, ensure: AsmLabel, ext: Set<u32>)
    requires
        0 <= k <= sets.len(),
        walks_labels(sets, k) <= next <= u32::MAX,
        ext.contains(ensure.0),
    ensures
        well_labelled(
            sets_walk_insts(sets, next, k, ensure),
            next,
            next - walks_labels(sets, k),
            ext,
        ),
    decreases k,
{
    broadcast use {lemma_labels_push, lemma_targets_push, lemma_labels_empty};

    if k > 0 {
        let mid = next - walks_labels(sets, k - 1);
        let work = seq![AsmInst::MovMem8Imm8(Reg64::R13, 0)];
        assert(neutral(work));
        lemma_walks_labels_nonneg(sets, k - 1, k);
        lemma_sets_walk(sets, next, k - 1, ensure, ext);
        lemma_walk(mid, sets[k - 1] as int, work, ensure, ext);
        lemma_well_labelled_concat(
            sets_walk_insts(sets, next, k - 1, ensure),
            walk_insts(mid, sets[k - 1] as int, work, ensure),
            next,
            mid,
            next - walks_labels(sets, k),
            ext,
        );
    } else {
        assert(neutral(Seq::<AsmInst>::empty()));
        lemma_neutral(Seq::<AsmInst>::empty(), next, ext);
    }
}

proof fn lemma_span(offs: Seq<isize>, k: int)
    ensures
        lowest(offs, k) <= 0 <= highest(offs, k),
    decreases k,
{
    if k > 0 {
        lemma_span(offs, k - 1);
    }
}

proof fn lemma_linear_inner(
    factors: Seq<(isize, i32)>,
    sets: Seq<isize>,
    next: int,
    ensure: AsmLabel,
    ext: Set<u32>,
)
    requires
        linear_inner_labels(factors, sets) <= next <= u32::MAX,
        ext.contains(ensure.0),
    ensures
        well_labelled(
            linear_inner_insts(factors, sets, next, ensure),
            next,
            next - linear_inner_labels(factors, sets),
            ext,
        ),
{
    let offs = offsets_of(factors) + sets;
    let n = offs.len() as int;
    let nf = factors.len() as int;
    let ns = sets.len() as int;
    let last = next - linear_inner_labels(factors, sets);
    if all_disp8(offs) {
        lemma_span(offs, n);
        lemma_ptr_add_checked(next, 0, lowest(offs, n), highest(offs, n), ensure, ext);
        lemma_factors_at(factors, nf);
        lemma_sets_at(sets, ns);
        lemma_neutral(factors_at_insts(factors, nf), last, ext);
        lemma_neutral(sets_at_insts(sets, ns), last, ext);
        let a = ptr_add_checked_insts(next, 0, lowest(offs, n), highest(offs, n), ensure);
        lemma_well_labelled_concat(a, factors_at_insts(factors, nf), next, last, last, ext);
        lemma_well_labelled_concat(
            a + factors_at_insts(factors, nf),
            sets_at_insts(sets, ns),
            next,
            last,
            last,
            ext,
        );
    } else {
        let mid = next - walks_labels(offsets_of(factors), nf);
        lemma_walks_labels_nonneg(offsets_of(factors), nf, nf);
        lemma_walks_labels_nonneg(sets, ns, ns);
        lemma_factors_walk(factors, next, nf, ensure, ext);
        lemma_sets_walk(sets, mid, ns, ensure, ext);
        lemma_well_labelled_concat(
            factors_walk_insts(factors, next, nf, ensure),
            sets_walk_insts(sets, mid, ns, ensure),
            next,
            mid,
            last,
            ext,
        );
    }
}

proof fn lemma_frame(aligned: bool, inner: Seq<AsmInst>, hi: int, lo: int, ext: Set<u32>)
    requires
        well_labelled(inner, hi, lo, ext),
    ensures
        well_labelled(multiplicand_frame(aligned, inner), hi, lo, ext),
{
    broadcast use {lemma_labels_push, lemma_targets_push, lemma_labels_empty};

    let p0 = seq![AsmInst::Push(Reg64::Rbx)];
    let p1 = if aligned {
        seq![AsmInst::AddRegImm32(Reg64::Rsp, (-8) as i32)]
    } else {
        Seq::empty()
    };
    let p2 = seq![AsmInst::MovzxEbxFromMemR13, AsmInst::MovMem8Imm8(Reg64::R13, 0)];
    assert(p2 =~= Seq::<AsmInst>::empty()
        .push(AsmInst::MovzxEbxFromMemR13)
        .push(AsmInst::MovMem8Imm8(Reg64::R13, 0)));
    let p4 = if aligned {
        seq![AsmInst::AddRegImm32(Reg64::Rsp, 8)]
    } else {
        Seq::empty()
    };
    let p5 = seq![AsmInst::Pop(Reg64::Rbx)];
    assert(neutral(p0));
    assert(neutral(p1));
    assert(neutral(p2));
    assert(neutral(p4));
    assert(neutral(p5));
    lemma_neutral_concat(p0, p1);
    lemma_neutral_concat(p0 + p1, p2);
    lemma_neutral(p0 + p1 + p2, hi, ext);
    lemma_neutral(p4, lo, ext);
    lemma_neutral(p5, lo, ext);
    lemma_well_labelled_concat(p0 + p1 + p2, inner, hi, hi, lo, ext);
    lemma_well_labelled_concat(p0 + p1 + p2 + inner, p4, hi, lo, lo, ext);
    lemma_well_labelled_concat(p0 + p1 + p2 + inner + p4, p5, hi, lo, lo, ext);
}

proof fn lemma_scan_loop(next: int, step: int, ensure: AsmLabel, ext: Set<u32>)
    requires
        step == 1 || step == -1,
        4 <= next <= u32::MAX,
        ext.contains(ensure.0),
    ensures
        well_labelled(scan_loop_insts(next, step, ensure), next, next - 4, ext),
{
    broadcast use {lemma_labels_push, lemma_targets_push, lemma_labels_empty};

    let top = internal(next, 0);
    let done = internal(next, 1);
    let a = seq![AsmInst::Label(top), AsmInst::CmpMem8Imm8(Reg64::R13, 0), AsmInst::Jz(done)];
    assert(a =~= Seq::<AsmInst>::empty()
        .push(AsmInst::Label(top))
        .push(AsmInst::CmpMem8Imm8(Reg64::R13, 0))
        .push(AsmInst::Jz(done)));
    let c = seq![AsmInst::Jmp(top), AsmInst::Label(done)];
    assert(c =~= Seq::<AsmInst>::empty().push(AsmInst::Jmp(top)).push(AsmInst::Label(done)));
    lemma_ptr_add(next - 2, step, ensure, ext);
    assert(labels_in(a) + labels_in(c) =~= seq![top.0, done.0]);
    assert(targets_in(a) + targets_in(c) =~= seq![done.0, top.0]);
    assert((labels_in(a) + labels_in(c))[0] == top.0);
    assert((labels_in(a) + labels_in(c))[1] == done.0);
    lemma_wrap(a, ptr_add_insts(next - 2, step, ensure), c, next, next - 2, next - 4, next - 4, ext);
}

proof fn lemma_scan_hint(step: int, hint: u32)
    ensures
        neutral(scan_hint_insts(step, hint)),
{
    broadcast use {lemma_labels_push, lemma_targets_push, lemma_labels_empty};

    if hint != 0 {
        let a = seq![
            AsmInst::MovRegImm64(Reg64::Rax, 0),
            AsmInst::MovRegReg(Reg64::Rdi, Reg64::R13),
            AsmInst::MovRegImm64(Reg64::Rcx, hint as i64),
        ];
        assert(a =~= Seq::<AsmInst>::empty()
            .push(AsmInst::MovRegImm64(Reg64::Rax, 0))
            .push(AsmInst::MovRegReg(Reg64::Rdi, Reg64::R13))
            .push(AsmInst::MovRegImm64(Reg64::Rcx, hint as i64)));
        let b = if step == -1 {
            seq![AsmInst::Std, AsmInst::RepneScasb, AsmInst::Cld]
        } else {
            seq![AsmInst::Cld, AsmInst::RepneScasb]
        };
        let c = seq![
            AsmInst::MovRegReg(Reg64::R13, Reg64::Rdi),
            AsmInst::AddRegImm32(Reg64::R13, (-step) as i32),
        ];
        assert(c =~= Seq::<AsmInst>::empty()
            .push(AsmInst::MovRegReg(Reg64::R13, Reg64::Rdi))
            .push(AsmInst::AddRegImm32(Reg64::R13, (-step) as i32)));
        assert(seq![AsmInst::Std, AsmInst::RepneScasb, AsmInst::Cld] =~= Seq::<
            AsmInst,
        >::empty().push(AsmInst::Std).push(AsmInst::RepneScasb).push(AsmInst::Cld));
        assert(seq![AsmInst::Cld, AsmInst::RepneScasb] =~= Seq::<AsmInst>::empty().push(
            AsmInst::Cld,
        ).push(AsmInst::RepneScasb));
        assert(neutral(a));
        assert(neutral(b));
        assert(neutral(c));
        lemma_neutral_concat(a, b);
        lemma_neutral_concat(a + b, c);
    }
}

proof fn lemma_stores_neutral(insts: Seq<AsmInst>)
    requires
        forall|i: int|
            0 <= i < insts.len() ==> (#[trigger] insts[i]) is MovMem8Imm8 || insts[i]
                is MovMem8ImmDisp8 || insts[i] is MovMem8ImmDisp32,
        plain(insts),
    ensures
        neutral(insts),
    decreases insts.len(),
{
    if insts.len() > 0 {
        lemma_stores_neutral(insts.drop_last());
    }
}

proof fn lemma_zero_run(start: i32, count: u32)
    ensures
        neutral(zero_run_insts(start, count)),
{
    broadcast use {lemma_labels_push, lemma_targets_push, lemma_labels_empty};

    if count < 16 {
        lemma_stores_neutral(zero_run_insts(start, count));
    } else {
        assert(zero_run_insts(start, count) =~= Seq::<AsmInst>::empty().push(
            AsmInst::XorEaxEax,
        ).push(AsmInst::LeaRegMem(Reg64::Rdi, Reg64::R13, start)).push(
            AsmInst::MovEcxImm32(count as i32),
        ).push(AsmInst::Cld).push(AsmInst::RepStosb));
    }
}

/// Output and input of a platform bind only the labels they take, and refer
/// only to these and `ext`.
pub open spec fn platform_labelled<P: PlatformEmitter>(
    platform: P,
    routines: Routines,
    ext: Set<u32>,
) -> bool {
    &&& forall|next: int|
        platform.put_byte_labels() <= next <= u32::MAX ==> well_labelled(
            #[trigger] platform.put_byte_insts(next, routines.flush_output),
            next,
            next - platform.put_byte_labels(),
            ext,
        )
    &&& forall|next: int|
        platform.get_byte_labels() <= next <= u32::MAX ==> well_labelled(
            #[trigger] platform.get_byte_insts(next, routines.exit_one, routines.flush_output),
            next,
            next - platform.get_byte_labels(),
            ext,
        )
}

/// The instruction binds a label of the source program or jumps to one.
pub open spec fn has_user_label(inst: LirInst) -> bool {
    inst is Label || inst is JumpIfZero || inst is JumpIfNonZero
}

/// The translation of an instruction without labels of its own.
pub proof fn lemma_step_labelled<P: PlatformEmitter>(
    platform: P,
    all: Seq<LirInst>,
    routines: Routines,
    inst: LirInst,
    next: int,
    window: Option<(int, int)>,
    ext: Set<u32>,
)
    requires
        lir_inst_ok(inst),
        !has_user_label(inst),
        platform_labelled(platform, routines, ext),
        ext.contains(routines.ensure_tape.0),
        next <= u32::MAX,
        lir_step(platform, all, routines, inst, next, window).next >= 0,
    ensures
        well_labelled(
            lir_step(platform, all, routines, inst, next, window).insts,
            next,
            lir_step(platform, all, routines, inst, next, window).next,
            ext,
        ),
{
    broadcast use {lemma_labels_push, lemma_targets_push, lemma_labels_empty};

    let ensure = routines.ensure_tape;
    let step = lir_step(platform, all, routines, inst, next, window);
    match inst {
        LirInst::PtrAdd(n) => {
            if n == 0 {
                assert(neutral(Seq::<AsmInst>::empty()));
                lemma_neutral(step.insts, next, ext);
            } else if covers(window, n as int, n as int) {
                lemma_add_reg(Reg64::R13, n as int);
                lemma_neutral(step.insts, next, ext);
            } else {
                lemma_ptr_add(next, n as int, ensure, ext);
            }
        },
        LirInst::PtrAddChecked { delta, lo_extent, hi_extent } => {
            if covers(window, lo_extent as int, hi_extent as int) {
                lemma_add_reg(Reg64::R13, delta as int);
                lemma_neutral(step.insts, next, ext);
            } else {
                lemma_ptr_add_checked(
                    next,
                    delta as int,
                    lo_extent as int,
                    hi_extent as int,
                    ensure,
                    ext,
                );
            }
        },
        LirInst::LinearMul(factors) => {
            if factors@.len() == 0 {
                assert(neutral(step.insts));
                lemma_neutral(step.insts, next, ext);
            } else {
                lemma_linear_inner(factors@, Seq::empty(), next, ensure, ext);
                lemma_frame(
                    platform.aligns_rsp(),
                    linear_inner_insts(factors@, Seq::empty(), next, ensure),
                    next,
                    step.next,
                    ext,
                );
            }
        },
        LirInst::LinearMulWithSets { factors, sets } => {
            let done = internal(next, 0);
            let a = seq![AsmInst::CmpMem8Imm8(Reg64::R13, 0), AsmInst::Jz(done)];
            assert(a =~= Seq::<AsmInst>::empty()
                .push(AsmInst::CmpMem8Imm8(Reg64::R13, 0))
                .push(AsmInst::Jz(done)));
            let c = seq![AsmInst::Label(done)];
            let inner = linear_inner_insts(factors@, sets@, next - 1, ensure);
            lemma_linear_inner(factors@, sets@, next - 1, ensure, ext);
            lemma_frame(platform.aligns_rsp(), inner, next - 1, step.next, ext);
            assert(labels_in(a) + labels_in(c) =~= seq![done.0]);
            assert(targets_in(a) + targets_in(c) =~= seq![done.0]);
            assert((labels_in(a) + labels_in(c))[0] == done.0);
            lemma_wrap(
                a,
                multiplicand_frame(platform.aligns_rsp(), inner),
                c,
                next,
                next - 1,
                step.next,
                step.next,
                ext,
            );
        },
        LirInst::Scan(s) => {
            lemma_scan_loop(next, s as int, ensure, ext);
        },
        LirInst::ScanWithHint { dir, hint_bytes } => {
            lemma_scan_hint(dir as int, hint_bytes);
            lemma_neutral(scan_hint_insts(dir as int, hint_bytes), next, ext);
            lemma_scan_loop(next, dir as int, ensure, ext);
            lemma_well_labelled_concat(
                scan_hint_insts(dir as int, hint_bytes),
                scan_loop_insts(next, dir as int, ensure),
                next,
                next,
                next - 4,
                ext,
            );
        },
        LirInst::ZeroRun { start, count } => {
            lemma_zero_run(start, count);
            lemma_neutral(step.insts, next, ext);
        },
        LirInst::PutByte => {},
        LirInst::GetByte => {},
        _ => {
            assert(neutral(step.insts));
            lemma_neutral(step.insts, next, ext);
        },
    }
}

/// The labels of a source program: none is bound twice, every jump has a
/// target, and all are below the internal labels, that is at most `limit`.
pub open spec fn user_labels_ok(insts: Seq<LirInst>, limit: int) -> bool {
    &&& forall|i: int, j: int|
        0 <= i < j < insts.len() && #[trigger] insts[i] is Label && #[trigger] insts[j] is Label
            ==> insts[i]->Label_0 != insts[j]->Label_0
    &&& forall|i: int|
        0 <= i < insts.len() && #[trigger] insts[i] is Label ==> insts[i]->Label_0.0 <= limit
    &&& forall|i: int|
        0 <= i < insts.len() && #[trigger] insts[i] is JumpIfZero ==> binds(
            insts,
            insts[i]->JumpIfZero_0,
        )
    &&& forall|i: int|
        0 <= i < insts.len() && #[trigger] insts[i] is JumpIfNonZero ==> binds(
            insts,
            insts[i]->JumpIfNonZero_0,
        )
}

/// The program binds the label.
pub open spec fn binds(insts: Seq<LirInst>, id: LabelId) -> bool {
    exists|j: int| 0 <= j < insts.len() && #[trigger] insts[j] is Label && insts[j]->Label_0 == id
}

/// The labels that a program binds.
pub open spec fn bound_ids(insts: Seq<LirInst>) -> Set<u32> {
    Set::new(|x: u32| binds(insts, LabelId(x)))
}

/// The body of the first `n` instructions: internal labels of the range taken,
/// and the labels that these instructions bind.
spec fn body_labelled(
    code: Seq<AsmInst>,
    insts: Seq<LirInst>,
    n: int,
    hi: int,
    lo: int,
    ext: Set<u32>,
) -> bool {
    let l = labels_in(code);
    let t = targets_in(code);
    &&& fair(code)
    &&& l.no_duplicates()
    &&& forall|i: int|
        0 <= i < l.len() ==> lo < #[trigger] l[i] <= hi || binds(insts.take(n), LabelId(l[i]))
    &&& forall|j: int|
        0 <= j < n && #[trigger] insts[j] is Label ==> l.contains(insts[j]->Label_0.0)
    &&& forall|i: int|
        0 <= i < t.len() ==> l.contains(#[trigger] t[i]) || ext.contains(t[i]) || bound_ids(
            insts,
        ).contains(t[i])
}

proof fn lemma_body_step_inner(
    code: Seq<AsmInst>,
    chunk: Seq<AsmInst>,
    insts: Seq<LirInst>,
    n: int,
    hi: int,
    mid: int,
    lo: int,
    ext: Set<u32>,
)
    requires
        0 <= n < insts.len(),
        !has_user_label(insts[n]),
        lo <= mid <= hi,
        user_labels_ok(insts, lo),
        body_labelled(code, insts, n, hi, mid, ext),
        well_labelled(chunk, mid, lo, ext),
    ensures
        body_labelled(code + chunk, insts, n + 1, hi, lo, ext),
{
    lemma_labels_concat(code, chunk);
    lemma_fair_concat(code, chunk);
    let a = labels_in(code);
    let b = labels_in(chunk);
    let l = labels_in(code + chunk);
    assert(l == a + b);
    assert forall|i: int| 0 <= i < l.len() implies {
        &&& (lo < #[trigger] l[i] <= hi || binds(insts.take(n + 1), LabelId(l[i])))
        &&& (i < a.len() ==> l[i] == a[i] && (mid < l[i] || l[i] <= lo))
        &&& (i >= a.len() ==> l[i] == b[i - a.len()] && lo < l[i] <= mid)
    } by {
        if i < a.len() {
            assert(l[i] == a[i]);
            if !(mid < a[i] <= hi) {
                let id = LabelId(a[i]);
                let prefix = insts.take(n);
                let j = choose|j: int|
                    0 <= j < prefix.len() && #[trigger] prefix[j] is Label && prefix[j]->Label_0
                        == id;
                assert(prefix[j] == insts[j]);
                assert(insts.take(n + 1)[j] is Label);
                assert(insts.take(n + 1)[j] == insts[j]);
            }
        } else {
            assert(l[i] == b[i - a.len()]);
        }
    }
    assert(l.no_duplicates()) by {
        assert forall|i: int, j: int| 0 <= i < l.len() && 0 <= j < l.len() && i != j implies l[i]
            != l[j] by {
            if i < a.len() && j < a.len() {
                assert(l[i] == a[i] && l[j] == a[j]);
            } else if i >= a.len() && j >= a.len() {
                assert(l[i] == b[i - a.len()] && l[j] == b[j - a.len()]);
            }
        }
    }
    assert forall|j: int| 0 <= j < n + 1 && #[trigger] insts[j] is Label implies l.contains(
        insts[j]->Label_0.0,
    ) by {
        let x = insts[j]->Label_0.0;
        assert(a.contains(x));
        let k = choose|k: int| 0 <= k < a.len() && a[k] == x;
        assert(l[k] == x);
    }
    lemma_targets_after(code, chunk, insts, ext);
}

proof fn lemma_targets_after(
    code: Seq<AsmInst>,
    chunk: Seq<AsmInst>,
    insts: Seq<LirInst>,
    ext: Set<u32>,
)
    requires
        forall|i: int|
            0 <= i < targets_in(code).len() ==> labels_in(code).contains(
                #[trigger] targets_in(code)[i],
            ) || ext.contains(targets_in(code)[i]) || bound_ids(insts).contains(
                targets_in(code)[i],
            ),
        forall|i: int|
            0 <= i < targets_in(chunk).len() ==> labels_in(chunk).contains(
                #[trigger] targets_in(chunk)[i],
            ) || ext.contains(targets_in(chunk)[i]) || bound_ids(insts).contains(
                targets_in(chunk)[i],
            ),
    ensures
        forall|i: int|
            0 <= i < targets_in(code + chunk).len() ==> labels_in(code + chunk).contains(
                #[trigger] targets_in(code + chunk)[i],
            ) || ext.contains(targets_in(code + chunk)[i]) || bound_ids(insts).contains(
                targets_in(code + chunk)[i],
            ),
{
    lemma_labels_concat(code, chunk);
    let a = labels_in(code);
    let b = labels_in(chunk);
    let l = labels_in(code + chunk);
    let ta = targets_in(code);
    let tb = targets_in(chunk);
    let t = targets_in(code + chunk);
    assert forall|i: int| 0 <= i < t.len() implies l.contains(#[trigger] t[i]) || ext.contains(t[i])
        || bound_ids(insts).contains(t[i]) by {
        if i < ta.len() {
            assert(t[i] == ta[i]);
            if a.contains(t[i]) {
                let k = choose|k: int| 0 <= k < a.len() && a[k] == t[i];
                assert(l[k] == t[i]);
            }
        } else {
            assert(t[i] == tb[i - ta.len()]);
            if b.contains(t[i]) {
                let k = choose|k: int| 0 <= k < b.len() && b[k] == t[i];
                assert(l[a.len() + k] == t[i]);
            }
        }
    }
}

proof fn lemma_body_step_user(
    code: Seq<AsmInst>,
    chunk: Seq<AsmInst>,
    insts: Seq<LirInst>,
    n: int,
    hi: int,
    lo: int,
    ext: Set<u32>,
)
    requires
        0 <= n < insts.len(),
        lo <= hi,
        user_labels_ok(insts, lo),
        body_labelled(code, insts, n, hi, lo, ext),
        fair(chunk),
        match insts[n] {
            LirInst::Label(id) => labels_in(chunk) == seq![id.0] && targets_in(chunk) == Seq::<
                u32,
            >::empty(),
            LirInst::JumpIfZero(id) => labels_in(chunk) == Seq::<u32>::empty() && targets_in(chunk)
                == seq![id.0],
            LirInst::JumpIfNonZero(id) => labels_in(chunk) == Seq::<u32>::empty() && targets_in(
                chunk,
            ) == seq![id.0],
            _ => false,
        },
    ensures
        body_labelled(code + chunk, insts, n + 1, hi, lo, ext),
{
    lemma_labels_concat(code, chunk);
    lemma_fair_concat(code, chunk);
    let a = labels_in(code);
    let b = labels_in(chunk);
    let l = labels_in(code + chunk);
    let after = insts.take(n + 1);
    assert(l == a + b);
    assert forall|i: int| 0 <= i < l.len() implies lo < #[trigger] l[i] <= hi || binds(
        after,
        LabelId(l[i]),
    ) by {
        if i < a.len() {
            assert(l[i] == a[i]);
            if !(lo < a[i] <= hi) {
                let prefix = insts.take(n);
                let id = LabelId(a[i]);
                let j = choose|j: int|
                    0 <= j < prefix.len() && #[trigger] prefix[j] is Label && prefix[j]->Label_0
                        == id;
                assert(prefix[j] == insts[j]);
                assert(after[j] == insts[j]);
            }
        } else {
            assert(after[n] == insts[n]);
            assert(after[n] is Label);
        }
    }
    assert(l.no_duplicates()) by {
        assert forall|i: int, j: int| 0 <= i < l.len() && 0 <= j < l.len() && i != j implies l[i]
            != l[j] by {
            if i < a.len() && j < a.len() {
                assert(l[i] == a[i] && l[j] == a[j]);
            } else if i < a.len() || j < a.len() {
                let k = if i < a.len() {
                    i
                } else {
                    j
                };
                let id = LabelId(a[k]);
                assert(insts[n] is Label);
                if a[k] == insts[n]->Label_0.0 {
                    assert(!(lo < a[k]));
                    let prefix = insts.take(n);
                    assert(binds(prefix, id));
                    let m = choose|m: int|
                        0 <= m < prefix.len() && #[trigger] prefix[m] is Label && prefix[m]->Label_0
                            == id;
                    assert(prefix[m] == insts[m]);
                    assert(insts[m] is Label && insts[n] is Label);
                    assert(insts[m]->Label_0 == insts[n]->Label_0);
                }
            }
        }
    }
    assert forall|j: int| 0 <= j < n + 1 && #[trigger] insts[j] is Label implies l.contains(
        insts[j]->Label_0.0,
    ) by {
        let x = insts[j]->Label_0.0;
        if j < n {
            assert(a.contains(x));
            let k = choose|k: int| 0 <= k < a.len() && a[k] == x;
            assert(l[k] == x);
        } else {
            assert(l[a.len() as int] == x);
        }
    }
    assert forall|i: int| 0 <= i < targets_in(chunk).len() implies labels_in(chunk).contains(
        #[trigger] targets_in(chunk)[i],
    ) || ext.contains(targets_in(chunk)[i]) || bound_ids(insts).contains(targets_in(chunk)[i]) by {
        let x = targets_in(chunk)[i];
        assert(binds(insts, LabelId(x)));
    }
    lemma_targets_after(code, chunk, insts, ext);
}

/// The labels in the translation of an instruction with a label of its own.
proof fn lemma_step_user<P: PlatformEmitter>(
    platform: P,
    all: Seq<LirInst>,
    routines: Routines,
    inst: LirInst,
    next: int,
    window: Option<(int, int)>,
)
    requires
        has_user_label(inst),
    ensures
        ({
            let code = lir_step(platform, all, routines, inst, next, window).insts;
            &&& fair(code)
            &&& !platform.aligns_loops() ==> plain(code)
            &&& match inst {
                LirInst::Label(id) => labels_in(code) == seq![id.0] && targets_in(code) == Seq::<
                    u32,
                >::empty(),
                LirInst::JumpIfZero(id) => labels_in(code) == Seq::<u32>::empty() && targets_in(
                    code,
                ) == seq![id.0],
                LirInst::JumpIfNonZero(id) => labels_in(code) == Seq::<u32>::empty()
                    && targets_in(code) == seq![id.0],
                _ => false,
            }
        }),
{
    broadcast use {lemma_labels_push, lemma_targets_push, lemma_labels_empty};

    let code = lir_step(platform, all, routines, inst, next, window).insts;
    match inst {
        LirInst::Label(id) => {
            let label = AsmInst::Label(AsmLabel(id.0));
            if platform.aligns_loops() && is_loop_head(all, id) {
                assert(code =~= Seq::<AsmInst>::empty().push(AsmInst::Align16).push(label));
            } else {
                assert(code =~= Seq::<AsmInst>::empty().push(label));
            }
            assert(labels_in(code) =~= seq![id.0]);
        },
        LirInst::JumpIfZero(id) => {
            assert(code =~= Seq::<AsmInst>::empty().push(
                AsmInst::CmpMem8Imm8(Reg64::R13, 0),
            ).push(AsmInst::Jz(AsmLabel(id.0))));
            assert(targets_in(code) =~= seq![id.0]);
        },
        LirInst::JumpIfNonZero(id) => {
            assert(code =~= Seq::<AsmInst>::empty().push(
                AsmInst::CmpMem8Imm8(Reg64::R13, 0),
            ).push(AsmInst::Jnz(AsmLabel(id.0))));
            assert(targets_in(code) =~= seq![id.0]);
        },
        _ => {},
    }
}

proof fn lemma_body_labelled<P: PlatformEmitter>(
    platform: P,
    insts: Seq<LirInst>,
    routines: Routines,
    next: int,
    n: int,
    ext: Set<u32>,
)
    requires
        0 <= n <= insts.len(),
        lir_ok(platform, insts, routines, next, 0),
        next <= u32::MAX,
        platform_labelled(platform, routines, ext),
        ext.contains(routines.ensure_tape.0),
        user_labels_ok(
            insts,
            lir_body(platform, insts, routines, next, insts.len() as int).next,
        ),
    ensures
        body_labelled(
            lir_body(platform, insts, routines, next, n).insts,
            insts,
            n,
            next,
            lir_body(platform, insts, routines, next, n).next,
            ext,
        ),
        !platform.aligns_loops() ==> plain(lir_body(platform, insts, routines, next, n).insts),
    decreases n,
{
    broadcast use lemma_labels_empty;

    let len = insts.len() as int;
    if n > 0 {
        lemma_body_labelled(platform, insts, routines, next, n - 1, ext);
        lemma_body_takes_labels(platform, insts, routines, next, n, len);
        lemma_body_takes_labels(platform, insts, routines, next, 0, n - 1);
        lemma_body_takes_labels(platform, insts, routines, next, n - 1, n);
        let before = lir_body(platform, insts, routines, next, n - 1);
        let inst = insts[n - 1];
        let step = lir_step(platform, insts, routines, inst, before.next, before.window);
        assert(lir_inst_ok(insts[n - 1]));
        let last = lir_body(platform, insts, routines, next, len).next;
        assert(user_labels_ok(insts, step.next)) by {
            assert(last <= step.next);
        }
        if has_user_label(inst) {
            assert(step.next == before.next);
            lemma_step_user(platform, insts, routines, inst, before.next, before.window);
            lemma_body_step_user(
                before.insts,
                step.insts,
                insts,
                n - 1,
                next,
                before.next,
                ext,
            );
            if !platform.aligns_loops() {
                lemma_plain_concat(before.insts, step.insts);
            }
        } else {
            lemma_step_labelled(
                platform,
                insts,
                routines,
                inst,
                before.next,
                before.window,
                ext,
            );
            lemma_body_step_inner(
                before.insts,
                step.insts,
                insts,
                n - 1,
                next,
                before.next,
                step.next,
                ext,
            );
            if !platform.aligns_loops() {
                lemma_plain_concat(before.insts, step.insts);
            }
        }
    }
}

/// The body of a program whose labels are in order binds internal labels and
/// the program's own, each once, and refers to these and `ext` only.
pub proof fn lemma_body_is_labelled<P: PlatformEmitter>(
    platform: P,
    insts: Seq<LirInst>,
    routines: Routines,
    next: int,
    ext: Set<u32>,
)
    requires
        lir_ok(platform, insts, routines, next, 0),
        next <= u32::MAX,
        platform_labelled(platform, routines, ext),
        ext.contains(routines.ensure_tape.0),
        user_labels_ok(
            insts,
            lir_body(platform, insts, routines, next, insts.len() as int).next,
        ),
    ensures
        ({
            let body = lir_body(platform, insts, routines, next, insts.len() as int);
            &&& in_order(body.insts, next, -1, ext)
            &&& fair(body.insts)
            &&& !platform.aligns_loops() ==> plain(body.insts)
        }),
{
    let len = insts.len() as int;
    let body = lir_body(platform, insts, routines, next, len);
    lemma_body_labelled(platform, insts, routines, next, len, ext);
    lemma_body_takes_labels(platform, insts, routines, next, 0, len);
    let l = labels_in(body.insts);
    let t = targets_in(body.insts);
    assert(insts.take(len) =~= insts);
    assert forall|i: int| 0 <= i < l.len() implies -1 < #[trigger] l[i] <= next by {
        if !(body.next < l[i] <= next) {
            let id = LabelId(l[i]);
            let j = choose|j: int|
                0 <= j < insts.len() && #[trigger] insts[j] is Label && insts[j]->Label_0 == id;
            assert(insts[j] is Label);
        }
    }
    assert forall|i: int| 0 <= i < t.len() implies l.contains(#[trigger] t[i]) || ext.contains(
        t[i],
    ) by {
        if bound_ids(insts).contains(t[i]) {
            let id = LabelId(t[i]);
            let j = choose|j: int|
                0 <= j < insts.len() && #[trigger] insts[j] is Label && insts[j]->Label_0 == id;
            assert(l.contains(insts[j]->Label_0.0));
        }
    }
}

} // verus!
