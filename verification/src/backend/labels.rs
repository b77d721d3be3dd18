//! Which labels a piece of code binds and refers to.
//!
//! Code generation hands out internal labels counting down. A piece of code
//! that was emitted while the allocator went from `hi` to `lo` binds labels of
//! that range only, each of them once, and refers to nothing but these and a
//! known set of others. Pieces of this kind can be put together, and whole
//! programs made of them can be encoded.

use vstd::prelude::*;

use crate::backend::asm_ir::AsmInst;
use crate::backend::x86_64::encode::{
    displacement, displacements_fit, encodable, label_field, label_map, labels_bound, labels_of,
    labels_unique, lemma_offset_monotone, offset_of, operands_encodable,
};
use crate::backend::x86_64::relax::{label_index, lemma_label_index};

verus! {

/// The labels that a piece of code binds, in order.
pub open spec fn labels_in(insts: Seq<AsmInst>) -> Seq<u32>
    decreases insts.len(),
{
    if insts.len() == 0 {
        Seq::empty()
    } else {
        match insts.last() {
            AsmInst::Label(l) => labels_in(insts.drop_last()).push(l.0),
            _ => labels_in(insts.drop_last()),
        }
    }
}

/// The labels that a piece of code refers to, in order.
pub open spec fn targets_in(insts: Seq<AsmInst>) -> Seq<u32>
    decreases insts.len(),
{
    if insts.len() == 0 {
        Seq::empty()
    } else if label_field(insts.last()) is Absent {
        targets_in(insts.drop_last())
    } else {
        targets_in(insts.drop_last()).push(label_field(insts.last()).label().0)
    }
}

/// The labels of a piece of code with one more instruction.
pub broadcast proof fn lemma_labels_push(insts: Seq<AsmInst>, inst: AsmInst)
    ensures
        #[trigger] labels_in(insts.push(inst)) == (match inst {
            AsmInst::Label(l) => labels_in(insts).push(l.0),
            _ => labels_in(insts),
        }),
{
    assert(insts.push(inst).drop_last() =~= insts);
}

/// The targets of a piece of code with one more instruction.
pub broadcast proof fn lemma_targets_push(insts: Seq<AsmInst>, inst: AsmInst)
    ensures
        #[trigger] targets_in(insts.push(inst)) == (if label_field(inst) is Absent {
            targets_in(insts)
        } else {
            targets_in(insts).push(label_field(inst).label().0)
        }),
{
    assert(insts.push(inst).drop_last() =~= insts);
}

/// Labels and targets of the empty piece.
pub broadcast proof fn lemma_labels_empty()
    ensures
        #[trigger] labels_in(Seq::<AsmInst>::empty()) == Seq::<u32>::empty(),
        targets_in(Seq::<AsmInst>::empty()) == Seq::<u32>::empty(),
{
}

/// Labels and targets of two pieces put together.
pub proof fn lemma_labels_concat(a: Seq<AsmInst>, b: Seq<AsmInst>)
    ensures
        labels_in(a + b) == labels_in(a) + labels_in(b),
        targets_in(a + b) == targets_in(a) + targets_in(b),
    decreases b.len(),
{
    if b.len() == 0 {
        assert(a + b =~= a);
        assert(labels_in(a) + labels_in(b) =~= labels_in(a));
        assert(targets_in(a) + targets_in(b) =~= targets_in(a));
    } else {
        lemma_labels_concat(a, b.drop_last());
        assert((a + b).drop_last() =~= a + b.drop_last());
        assert((a + b).last() == b.last());
        assert(labels_in(a + b) =~= labels_in(a) + labels_in(b));
        assert(targets_in(a + b) =~= targets_in(a) + targets_in(b));
    }
}

/// Every instruction of the piece has an encoding and is neither a short jump nor
/// padding.
pub open spec fn plain(insts: Seq<AsmInst>) -> bool {
    forall|i: int|
        0 <= i < insts.len() ==> operands_encodable(#[trigger] insts[i]) && label_field(
            insts[i],
        ) !is Rel8 && insts[i] !is Align16
}

/// Every instruction of the piece has an encoding and is no short jump.
pub open spec fn fair(insts: Seq<AsmInst>) -> bool {
    forall|i: int|
        0 <= i < insts.len() ==> operands_encodable(#[trigger] insts[i]) && label_field(
            insts[i],
        ) !is Rel8
}

/// The piece is plain, and its labels are in order.
pub open spec fn well_labelled(insts: Seq<AsmInst>, hi: int, lo: int, ext: Set<u32>) -> bool {
    plain(insts) && in_order(insts, hi, lo, ext)
}

/// The piece binds labels above `lo` and up to `hi` only, none of them twice,
/// and refers to these and `ext` only.
pub open spec fn in_order(insts: Seq<AsmInst>, hi: int, lo: int, ext: Set<u32>) -> bool {
    &&& lo <= hi
    &&& labels_in(insts).no_duplicates()
    &&& forall|i: int|
        0 <= i < labels_in(insts).len() ==> lo < #[trigger] labels_in(insts)[i] <= hi
    &&& forall|i: int|
        0 <= i < targets_in(insts).len() ==> labels_in(insts).contains(
            #[trigger] targets_in(insts)[i],
        ) || ext.contains(targets_in(insts)[i])
}

/// Pieces emitted one after the other can be put together.
pub proof fn lemma_well_labelled_concat(
    a: Seq<AsmInst>,
    b: Seq<AsmInst>,
    hi: int,
    mid: int,
    lo: int,
    ext: Set<u32>,
)
    requires
        well_labelled(a, hi, mid, ext),
        well_labelled(b, mid, lo, ext),
    ensures
        well_labelled(a + b, hi, lo, ext),
{
    lemma_labels_concat(a, b);
    let la = labels_in(a);
    let lb = labels_in(b);
    let l = labels_in(a + b);
    assert(l == la + lb);
    assert forall|i: int| 0 <= i < l.len() implies lo < #[trigger] l[i] <= hi by {
        if i < la.len() {
            assert(la[i] == l[i]);
        } else {
            assert(lb[i - la.len()] == l[i]);
        }
    }
    assert(l.no_duplicates()) by {
        assert forall|i: int, j: int| 0 <= i < l.len() && 0 <= j < l.len() && i != j implies l[i]
            != l[j] by {
            if i < la.len() {
                assert(la[i] == l[i]);
            } else {
                assert(lb[i - la.len()] == l[i]);
            }
            if j < la.len() {
                assert(la[j] == l[j]);
            } else {
                assert(lb[j - la.len()] == l[j]);
            }
        }
    }
    let ta = targets_in(a);
    let tb = targets_in(b);
    let t = targets_in(a + b);
    assert forall|i: int| 0 <= i < t.len() implies l.contains(#[trigger] t[i]) || ext.contains(
        t[i],
    ) by {
        if i < ta.len() {
            assert(ta[i] == t[i]);
            if la.contains(t[i]) {
                let k = choose|k: int| 0 <= k < la.len() && la[k] == t[i];
                assert(l[k] == t[i]);
            }
        } else {
            assert(tb[i - ta.len()] == t[i]);
            if lb.contains(t[i]) {
                let k = choose|k: int| 0 <= k < lb.len() && lb[k] == t[i];
                assert(l[la.len() + k] == t[i]);
            }
        }
    }
    assert(plain(a + b)) by {
        assert forall|i: int| 0 <= i < (a + b).len() implies operands_encodable(
            #[trigger] (a + b)[i],
        ) && label_field((a + b)[i]) !is Rel8 by {
            if i < a.len() {
                assert((a + b)[i] == a[i]);
            } else {
                assert((a + b)[i] == b[i - a.len()]);
            }
        }
    }
}

pub proof fn lemma_label_positions(insts: Seq<AsmInst>, i: int) -> (k: int)
    requires
        0 <= i < insts.len(),
        insts[i] is Label,
    ensures
        0 <= k < labels_in(insts).len(),
        labels_in(insts)[k] == insts[i]->Label_0.0,
        k == labels_in(insts.take(i)).len(),
    decreases insts.len(),
{
    let n = insts.len() - 1;
    if i == n {
        assert(insts.take(i) =~= insts.drop_last());
        labels_in(insts.drop_last()).len() as int
    } else {
        let k = lemma_label_positions(insts.drop_last(), i);
        assert(insts.drop_last().take(i) =~= insts.take(i));
        k
    }
}

proof fn lemma_labels_take_monotone(insts: Seq<AsmInst>, i: int, j: int)
    requires
        0 <= i < j <= insts.len(),
        insts[i] is Label,
    ensures
        labels_in(insts.take(i)).len() < labels_in(insts.take(j)).len(),
    decreases j - i,
{
    assert(insts.take(j).drop_last() =~= insts.take(j - 1));
    if i < j - 1 {
        lemma_labels_take_monotone(insts, i, j - 1);
    }
}

/// Distinct labels are bound once each.
pub proof fn lemma_unique(insts: Seq<AsmInst>)
    requires
        labels_in(insts).no_duplicates(),
    ensures
        labels_unique(insts),
{
    assert forall|i: int, j: int|
        0 <= i < j < insts.len() && #[trigger] insts[i] is Label && #[trigger] insts[j]
            is Label implies insts[i]->Label_0 != insts[j]->Label_0 by {
        let a = lemma_label_positions(insts, i);
        let b = lemma_label_positions(insts, j);
        lemma_labels_take_monotone(insts, i, j);
    }
}

pub proof fn lemma_listed_is_bound(insts: Seq<AsmInst>, n: int, label: u32)
    requires
        0 <= n <= insts.len(),
        labels_in(insts.take(n)).contains(label),
    ensures
        label_map(insts, n).contains_key(label),
    decreases n,
{
    if n == 0 {
        assert(insts.take(0) =~= Seq::<AsmInst>::empty());
    } else {
        assert(insts.take(n).drop_last() =~= insts.take(n - 1));
        let before = labels_in(insts.take(n - 1));
        let l = labels_in(insts.take(n));
        let k = choose|k: int| 0 <= k < l.len() && l[k] == label;
        if k < before.len() {
            assert(before[k] == label);
            lemma_listed_is_bound(insts, n - 1, label);
        }
    }
}

pub proof fn lemma_target_listed(insts: Seq<AsmInst>, i: int) -> (k: int)
    requires
        0 <= i < insts.len(),
        label_field(insts[i]) !is Absent,
    ensures
        0 <= k < targets_in(insts).len(),
        targets_in(insts)[k] == label_field(insts[i]).label().0,
    decreases insts.len(),
{
    if i == insts.len() - 1 {
        targets_in(insts.drop_last()).len() as int
    } else {
        lemma_target_listed(insts.drop_last(), i)
    }
}

/// A whole program that refers to its own labels only can be encoded, as long
/// as its code is below two gibibytes.
pub proof fn lemma_program_encodable(insts: Seq<AsmInst>)
    requires
        fair(insts),
        labels_in(insts).no_duplicates(),
        forall|i: int|
            0 <= i < targets_in(insts).len() ==> labels_in(insts).contains(
                #[trigger] targets_in(insts)[i],
            ),
        offset_of(insts, insts.len() as int) <= i32::MAX,
    ensures
        encodable(insts),
{
    let n = insts.len() as int;
    lemma_unique(insts);
    assert(insts.take(n) =~= insts);
    assert(labels_bound(insts)) by {
        assert forall|i: int| 0 <= i < insts.len() && label_field(
            #[trigger] insts[i],
        ) !is Absent implies labels_of(insts).contains_key(label_field(insts[i]).label().0) by {
            let k = lemma_target_listed(insts, i);
            lemma_listed_is_bound(insts, n, label_field(insts[i]).label().0);
        }
    }
    assert(displacements_fit(insts)) by {
        assert forall|i: int| 0 <= i < insts.len() && label_field(
            #[trigger] insts[i],
        ) !is Absent implies label_field(insts[i]).fits(displacement(insts, i)) by {
            let label = label_field(insts[i]).label().0;
            assert(labels_of(insts).contains_key(label));
            lemma_label_index(insts, n, label);
            let k = label_index(insts, n, label);
            lemma_offset_monotone(insts, k, n);
            lemma_offset_monotone(insts, i + 1, n);
        }
    }
}

} // verus!
