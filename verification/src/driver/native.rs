//! Programs of ordinary size can be compiled to native code.

use vstd::prelude::*;

use crate::backend::codegen::{
    linux_insts, linux_ok, linux_routines, LinuxEmitter, INTERNAL_LABEL_BASE,
};
use crate::backend::codegen_common::PlatformEmitter;
use crate::backend::codegen_common::{lir_body, lir_inst_ok, lir_ok, window_fits, Routines};
use crate::backend::codegen_laws::{binds, user_labels_ok};
use crate::backend::linux_laws::{law_linux_program_is_encodable, linux_labels_ok};
use crate::backend::x86_64::encode::{encodable, offset_of};
use crate::backend::x86_64::relax::{law_relaxation_keeps_encodable, relaxed};
use crate::backend::x86_64::windows::{body_next, windows_emitter, windows_ok, windows_routines};
use crate::backend::x86_64::windows_laws::windows_labels_ok;
use crate::frontend::lexer::Token;
use crate::frontend::parser::{
    balanced, block_at, depth, depth_agrees, lemma_block_end, lemma_depth, tree_of,
};
use crate::interp::bounds::{
    basic, basic_one, lemma_block_measures, lemma_measures, lemma_measures_one, weight, weight_one,
};
use crate::interp::jit_compile::looped;
use crate::ir::hir::{hir_view, hirs_view, lemma_hirs_index, Hir};
use crate::ir::hir::HirInst;
use crate::ir::lir::{lir_view, lirs_view, Lir};
use crate::ir::lir::{LabelId, LirInst, LirProgram};
use crate::ir::lower::hirs_of;
use crate::ir::lower_lir::{lir_of, lirs_of};

verus! {

/// Number of instructions up to which a program surely has native code; a run of
/// operators is one instruction, and a loop is two besides its body.
pub const MAX_NATIVE_INSTRUCTIONS: u64 = 600_000_000;

/// Whether an instruction stands for Brainfuck operators.
pub open spec fn plain(inst: Lir) -> bool {
    inst is PtrAdd || inst is CellAdd || inst is PutByte || inst is GetByte || inst is Label
        || inst is JumpIfZero || inst is JumpIfNonZero
}

/// Whether all instructions stand for Brainfuck operators.
pub open spec fn all_plain(insts: Seq<Lir>) -> bool {
    forall|i: int| 0 <= i < insts.len() ==> plain(#[trigger] insts[i])
}

/// Every label lies from `a` on and below `b`.
pub open spec fn ranged(insts: Seq<Lir>, a: int, b: int) -> bool {
    forall|i: int|
        0 <= i < insts.len() ==> (#[trigger] insts[i] matches Lir::Label(x) ==> a <= x < b)
}

/// No label stands twice.
pub open spec fn single(insts: Seq<Lir>) -> bool {
    forall|i: int, j: int|
        0 <= i < j < insts.len() && #[trigger] insts[i] is Label && #[trigger] insts[j] is Label
            ==> insts[i]->Label_0 != insts[j]->Label_0
}

/// The label stands among the instructions.
pub open spec fn stands(insts: Seq<Lir>, x: int) -> bool {
    exists|j: int| 0 <= j < insts.len() && #[trigger] insts[j] == Lir::Label(x)
}

/// Every jump has its label.
pub open spec fn closed(insts: Seq<Lir>) -> bool {
    forall|i: int|
        0 <= i < insts.len() ==> match #[trigger] insts[i] {
            Lir::JumpIfZero(x) => stands(insts, x),
            Lir::JumpIfNonZero(x) => stands(insts, x),
            _ => true,
        }
}

/// The labels are in order.
pub open spec fn ordered(insts: Seq<Lir>, a: int, b: int) -> bool {
    all_plain(insts) && ranged(insts, a, b) && single(insts) && closed(insts)
}

proof fn lemma_ordered_join(x: Seq<Lir>, y: Seq<Lir>, a: int, b: int, c: int)
    requires
        ordered(x, a, b),
        ordered(y, b, c),
        a <= b <= c,
    ensures
        ordered(x + y, a, c),
{
    let all = x + y;
    assert forall|i: int| 0 <= i < all.len() implies plain(#[trigger] all[i]) by {
        if i < x.len() {
            assert(all[i] == x[i]);
        } else {
            assert(all[i] == y[i - x.len()]);
        }
    }
    assert forall|i: int| 0 <= i < all.len() implies (#[trigger] all[i] matches Lir::Label(l) ==> a
        <= l < c && (i < x.len() ==> l < b) && (i >= x.len() ==> l >= b)) by {
        if i < x.len() {
            assert(all[i] == x[i]);
        } else {
            assert(all[i] == y[i - x.len()]);
        }
    }
    assert forall|i: int, j: int|
        0 <= i < j < all.len() && #[trigger] all[i] is Label
            && #[trigger] all[j] is Label implies all[i]->Label_0 != all[j]->Label_0 by {
        if j < x.len() {
            assert(x[i] is Label && x[j] is Label);
        } else if i >= x.len() {
            assert(y[i - x.len()] is Label && y[j - x.len()] is Label);
        }
    }
    assert forall|i: int| 0 <= i < all.len() implies match #[trigger] all[i] {
        Lir::JumpIfZero(l) => stands(all, l),
        Lir::JumpIfNonZero(l) => stands(all, l),
        _ => true,
    } by {
        if i < x.len() {
            assert(all[i] == x[i]);
            lemma_stands_left(x, y);
        } else {
            assert(all[i] == y[i - x.len()]);
            lemma_stands_right(x, y);
        }
    }
}

proof fn lemma_stands_left(x: Seq<Lir>, y: Seq<Lir>)
    ensures
        forall|l: int| stands(x, l) ==> #[trigger] stands(x + y, l),
{
    assert forall|l: int| stands(x, l) implies #[trigger] stands(x + y, l) by {
        let j = choose|j: int| 0 <= j < x.len() && #[trigger] x[j] == Lir::Label(l);
        assert((x + y)[j] == Lir::Label(l));
    }
}

proof fn lemma_stands_right(x: Seq<Lir>, y: Seq<Lir>)
    ensures
        forall|l: int| stands(y, l) ==> #[trigger] stands(x + y, l),
{
    assert forall|l: int| stands(y, l) implies #[trigger] stands(x + y, l) by {
        let j = choose|j: int| 0 <= j < y.len() && #[trigger] y[j] == Lir::Label(l);
        assert((x + y)[x.len() + j] == Lir::Label(l));
    }
}

proof fn lemma_ordered_loop(body: Seq<Lir>, next: int, b: int)
    requires
        ordered(body, next + 2, b),
        next + 2 <= b,
    ensures
        ordered(looped(next, body), next, b),
{
    let all = looped(next, body);
    let n = body.len() as int;
    assert forall|i: int| 2 <= i < n + 2 implies #[trigger] all[i] == body[i - 2] by {}
    assert(all[0] == Lir::Label(next));
    assert(all[1] == Lir::JumpIfZero(next + 1));
    assert(all[n + 2] == Lir::JumpIfNonZero(next));
    assert(all[n + 3] == Lir::Label(next + 1));
    assert(all.len() == n + 4);
    assert forall|i: int| 0 <= i < all.len() implies plain(#[trigger] all[i]) by {
        if 2 <= i < n + 2 {
            assert(all[i] == body[i - 2]);
        }
    }
    assert forall|i: int| 0 <= i < all.len() implies (#[trigger] all[i] matches Lir::Label(l)
        ==> next <= l < b) by {
        if 2 <= i < n + 2 {
            assert(all[i] == body[i - 2]);
        }
    }
    assert forall|i: int, j: int|
        0 <= i < j < all.len() && #[trigger] all[i] is Label
            && #[trigger] all[j] is Label implies all[i]->Label_0 != all[j]->Label_0 by {
        if 2 <= i < n + 2 {
            assert(body[i - 2] is Label);
        }
        if 2 <= j < n + 2 {
            assert(body[j - 2] is Label);
        }
    }
    assert forall|i: int| 0 <= i < all.len() implies match #[trigger] all[i] {
        Lir::JumpIfZero(l) => stands(all, l),
        Lir::JumpIfNonZero(l) => stands(all, l),
        _ => true,
    } by {
        if 2 <= i < n + 2 {
            assert(all[i] == body[i - 2]);
            let head = seq![Lir::Label(next), Lir::JumpIfZero(next + 1)];
            let tail = seq![Lir::JumpIfNonZero(next), Lir::Label(next + 1)];
            lemma_stands_right(head, body);
            lemma_stands_left(head + body, tail);
        }
    }
}

/// The LIR of Brainfuck operators has its labels in order, and is at most
/// twice as long as its measure.
proof fn lemma_lir_ordered(insts: Seq<Hir>, next: int)
    requires
        basic(insts),
    ensures
        ordered(lirs_of(insts, next).0, next, lirs_of(insts, next).1),
        next <= lirs_of(insts, next).1 <= next + weight(insts),
        lirs_of(insts, next).0.len() <= 2 * weight(insts),
    decreases insts,
{
    if insts.len() > 0 {
        let front = insts.drop_last();
        lemma_lir_ordered(front, next);
        let a = lirs_of(front, next);
        assert(basic_one(insts.last()));
        lemma_one_ordered(insts.last(), a.1);
        let b = lir_of(insts.last(), a.1);
        lemma_ordered_join(a.0, b.0, next, a.1, b.1);
    }
}

proof fn lemma_one_ordered(inst: Hir, next: int)
    requires
        basic_one(inst),
    ensures
        ordered(lir_of(inst, next).0, next, lir_of(inst, next).1),
        next <= lir_of(inst, next).1 <= next + weight_one(inst),
        lir_of(inst, next).0.len() <= 2 * weight_one(inst),
    decreases inst,
{
    if let Hir::Loop(body) = inst {
        assert(basic(body));
        lemma_lir_ordered(body, next + 2);
        let inner = lirs_of(body, next + 2);
        lemma_ordered_loop(inner.0, next, inner.1);
        assert(weight_one(inst) == weight(body) + 2);
    }
}

/// The translation of Brainfuck operators knows of no mapped cells and takes
/// at most three labels an instruction.
proof fn lemma_plain_body<P: PlatformEmitter>(
    platform: P,
    insts: Seq<LirInst>,
    routines: Routines,
    next: int,
    n: int,
)
    requires
        0 <= n <= insts.len(),
        all_plain(lirs_view(insts)),
        platform.put_byte_labels() <= 3,
        platform.get_byte_labels() <= 3,
    ensures
        lir_body(platform, insts, routines, next, n).window is None,
        lir_body(platform, insts, routines, next, n).next >= next - 3 * n,
    decreases n,
{
    if n > 0 {
        lemma_plain_body(platform, insts, routines, next, n - 1);
        assert(plain(lirs_view(insts)[n - 1]));
        assert(lirs_view(insts)[n - 1] == lir_view(insts[n - 1]));
    }
}

proof fn lemma_plain_ok<P: PlatformEmitter>(
    platform: P,
    insts: Seq<LirInst>,
    routines: Routines,
    next: int,
    floor: int,
)
    requires
        all_plain(lirs_view(insts)),
        platform.put_byte_labels() <= 3,
        platform.get_byte_labels() <= 3,
        next - 3 * insts.len() >= floor,
    ensures
        lir_ok(platform, insts, routines, next, floor),
{
    assert forall|i: int| 0 <= i < insts.len() implies lir_inst_ok(#[trigger] insts[i]) by {
        assert(plain(lirs_view(insts)[i]));
        assert(lirs_view(insts)[i] == lir_view(insts[i]));
    }
    assert forall|n: int| 0 <= n <= insts.len() implies window_fits(
        (#[trigger] lir_body(platform, insts, routines, next, n)).window,
    ) by {
        lemma_plain_body(platform, insts, routines, next, n);
    }
    lemma_plain_body(platform, insts, routines, next, insts.len() as int);
}

/// The beginning of a program weighs no more than all of it.
proof fn lemma_weight_prefix(insts: Seq<Hir>, i: int)
    requires
        0 <= i <= insts.len(),
    ensures
        weight(insts.take(i)) <= weight(insts),
    decreases insts.len() - i,
{
    if i < insts.len() {
        let front = insts.drop_last();
        lemma_weight_prefix(front, i);
        lemma_measures_one(insts.last());
        assert(front.take(i) =~= insts.take(i));
    } else {
        assert(insts.take(i) =~= insts);
    }
}

/// How many instructions a program makes.
pub fn weigh(insts: &Vec<HirInst>) -> (n: u64)
    requires
        weight(hirs_view(insts@)) <= u64::MAX,
    ensures
        n == weight(hirs_view(insts@)),
    decreases insts,
{
    let ghost all = hirs_view(insts@);
    proof {
        lemma_hirs_index(insts@);
    }
    let mut n: u64 = 0;
    let mut i: usize = 0;
    assert(all.take(0) =~= Seq::<Hir>::empty());
    while i < insts.len()
        invariant
            i <= insts.len(),
            all == hirs_view(insts@),
            all.len() == insts@.len(),
            forall|k: int| 0 <= k < insts@.len() ==> #[trigger] all[k] == hir_view(insts@[k]),
            weight(all) <= u64::MAX,
            n == weight(all.take(i as int)),
        decreases insts.len() - i,
    {
        proof {
            lemma_weight_prefix(all, i + 1);
            lemma_measures(all.take(i as int));
            assert(all.take(i + 1).drop_last() =~= all.take(i as int));
            assert(all.take(i + 1).last() == all[i as int]);
            assert(all[i as int] == hir_view(insts@[i as int]));
            assert(weight(all.take(i + 1)) == weight(all.take(i as int)) + weight_one(
                all[i as int],
            ));
        }
        let one: u64 = match &insts[i] {
            HirInst::Loop(body) => {
                proof {
                    lemma_measures(hirs_view(body@));
                    assert(all[i as int] == Hir::Loop(hirs_view(body@)));
                    assert(weight_one(all[i as int]) == weight(hirs_view(body@)) + 2);
                }
                weigh(body) + 2
            },
            _ => 1,
        };
        n = n + one;
        i += 1;
    }
    assert(all.take(i as int) =~= all);
    n
}

/// A source makes no more instructions than it has operators.
pub proof fn lemma_sources_weigh_little(tokens: Seq<Token>)
    requires
        balanced(tokens),
        tokens.len() <= usize::MAX,
    ensures
        basic(hirs_of(tree_of(tokens))),
        weight(hirs_of(tree_of(tokens))) <= tokens.len(),
{
    lemma_depth(tokens, 0, false);
    lemma_block_end(tokens, 0, false);
    assert(depth(tokens, 0) == 0);
    assert(block_at(tokens, 0, false) is Nodes) by {
        assert(depth_agrees(tokens, 0, false));
    }
    lemma_block_measures(tokens, 0, false);
}

/// The program of a source with matching brackets that makes at most
/// `MAX_NATIVE_INSTRUCTIONS` instructions has labels enough to be lowered to LIR.
pub proof fn law_ordinary_sources_have_labels(tokens: Seq<Token>)
    requires
        balanced(tokens),
        tokens.len() <= usize::MAX,
        weight(hirs_of(tree_of(tokens))) <= MAX_NATIVE_INSTRUCTIONS,
    ensures
        basic(hirs_of(tree_of(tokens))),
        weight(hirs_of(tree_of(tokens))) <= tokens.len(),
        lirs_of(hirs_of(tree_of(tokens)), 0).1 <= u32::MAX,
{
    let insts = hirs_of(tree_of(tokens));
    lemma_sources_weigh_little(tokens);
    lemma_lir_ordered(insts, 0);
}

/// The LIR of the program of such a source is translated by both back ends.
/// Its labels are in order: each stands once, and every jump has its own.
pub proof fn law_ordinary_sources_compile(tokens: Seq<Token>, lir: LirProgram)
    requires
        balanced(tokens),
        tokens.len() <= usize::MAX,
        weight(hirs_of(tree_of(tokens))) <= MAX_NATIVE_INSTRUCTIONS,
        lirs_view(lir.insts@) == lirs_of(hirs_of(tree_of(tokens)), 0).0,
    ensures
        linux_ok(lir),
        windows_ok(lir),
        linux_labels_ok(lir),
        windows_labels_ok(lir),
{
    let insts = hirs_of(tree_of(tokens));
    law_ordinary_sources_have_labels(tokens);
    lemma_measures(insts);
    lemma_lir_ordered(insts, 0);
    let view = lirs_view(lir.insts@);
    let top = lirs_of(insts, 0).1;
    assert(view.len() == lir.insts@.len());
    lemma_plain_ok(
        LinuxEmitter,
        lir.insts@,
        linux_routines(),
        INTERNAL_LABEL_BASE as int,
        0,
    );
    lemma_plain_ok(windows_emitter(), lir.insts@, windows_routines(), body_next(), 0);
    lemma_plain_body(
        LinuxEmitter,
        lir.insts@,
        linux_routines(),
        INTERNAL_LABEL_BASE as int,
        lir.insts@.len() as int,
    );
    let limit = lir_body(
        LinuxEmitter,
        lir.insts@,
        linux_routines(),
        INTERNAL_LABEL_BASE as int,
        lir.insts@.len() as int,
    ).next;
    lemma_user_labels(lir.insts@, top, limit);
    lemma_plain_body(
        windows_emitter(),
        lir.insts@,
        windows_routines(),
        body_next(),
        lir.insts@.len() as int,
    );
    let other = lir_body(
        windows_emitter(),
        lir.insts@,
        windows_routines(),
        body_next(),
        lir.insts@.len() as int,
    ).next;
    lemma_user_labels(lir.insts@, top, other);
}

/// Labels in order are in order for the back end.
proof fn lemma_user_labels(insts: Seq<LirInst>, top: int, limit: int)
    requires
        ordered(lirs_view(insts), 0, top),
        top <= limit,
    ensures
        user_labels_ok(insts, limit),
{
    let view = lirs_view(insts);
    assert forall|i: int, j: int|
        0 <= i < j < insts.len() && #[trigger] insts[i] is Label
            && #[trigger] insts[j] is Label implies insts[i]->Label_0 != insts[j]->Label_0 by {
        assert(view[i] == lir_view(insts[i]) && view[j] == lir_view(insts[j]));
        assert(view[i] is Label && view[j] is Label);
    }
    assert forall|i: int| 0 <= i < insts.len() && #[trigger] insts[i] is Label implies insts[i]->Label_0.0
        <= limit by {
        assert(view[i] == lir_view(insts[i]));
    }
    assert forall|i: int| 0 <= i < insts.len() && #[trigger] insts[i] is JumpIfZero implies binds(
        insts,
        insts[i]->JumpIfZero_0,
    ) by {
        assert(view[i] == lir_view(insts[i]));
        lemma_stands_binds(insts, insts[i]->JumpIfZero_0);
    }
    assert forall|i: int| 0 <= i < insts.len() && #[trigger] insts[i] is JumpIfNonZero implies binds(
        insts,
        insts[i]->JumpIfNonZero_0,
    ) by {
        assert(view[i] == lir_view(insts[i]));
        lemma_stands_binds(insts, insts[i]->JumpIfNonZero_0);
    }
}

proof fn lemma_stands_binds(insts: Seq<LirInst>, id: LabelId)
    requires
        stands(lirs_view(insts), id.0 as int),
    ensures
        binds(insts, id),
{
    let view = lirs_view(insts);
    let j = choose|j: int| 0 <= j < view.len() && #[trigger] view[j] == Lir::Label(id.0 as int);
    assert(view[j] == lir_view(insts[j]));
    assert(insts[j] is Label && insts[j]->Label_0 == id);
}

/// The Linux code of such a source can be encoded, before relaxation and after it,
/// if it takes less than two gibibytes.
pub proof fn law_ordinary_sources_are_encodable(tokens: Seq<Token>, lir: LirProgram)
    requires
        balanced(tokens),
        tokens.len() <= usize::MAX,
        weight(hirs_of(tree_of(tokens))) <= MAX_NATIVE_INSTRUCTIONS,
        lirs_view(lir.insts@) == lirs_of(hirs_of(tree_of(tokens)), 0).0,
        offset_of(linux_insts(lir), linux_insts(lir).len() as int) <= i32::MAX,
    ensures
        encodable(linux_insts(lir)),
        encodable(relaxed(linux_insts(lir))),
        offset_of(relaxed(linux_insts(lir)), linux_insts(lir).len() as int) <= offset_of(
            linux_insts(lir),
            linux_insts(lir).len() as int,
        ),
{
    law_ordinary_sources_compile(tokens, lir);
    law_linux_program_is_encodable(lir);
    law_relaxation_keeps_encodable(linux_insts(lir));
}

} // verus!
