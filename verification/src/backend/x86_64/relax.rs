//! Branch relaxation: narrows long jumps (four-byte displacement) to their
//! short counterparts (one byte) where the target is near enough.
//!
//! Each round lays the program out and narrows every long jump whose target is
//! within reach of the short form in that layout; rounds repeat until nothing
//! changes. A round never turns a short jump back into a long one, so the
//! rounds come to an end.
//!
//! In a program without alignment padding, narrowing only brings targets
//! closer, so a program that can be encoded stays so. Padding in front of a
//! loop head can grow when the code before it shrinks, which may push a target
//! out of the reach of a jump that was narrowed before.

use vstd::prelude::*;

use crate::backend::asm_ir::{AsmInst, AsmLabel, AsmProgram};
use crate::backend::x86_64::encode::{layout_program, EncodedInst, LabelMap};
use crate::backend::x86_64::encode::{
    displacement, encodable, inst_head, inst_len, label_field, label_map, labels_bound,
    labels_of, labels_unique, lemma_offset_monotone, offset_of, operands_encodable,
};

verus! {

/// Byte length of the short jumps (opcode and one displacement byte).
pub const SHORT_JUMP_LEN: usize = 2;

/// The jumps that have a short counterpart.
pub open spec fn is_long_jump(inst: AsmInst) -> bool {
    match inst {
        AsmInst::Jz(_)
        | AsmInst::Jnz(_)
        | AsmInst::Jb(_)
        | AsmInst::Jae(_)
        | AsmInst::Jl(_)
        | AsmInst::Jge(_)
        | AsmInst::Jmp(_) => true,
        _ => false,
    }
}

/// The short counterpart of a long jump; any other instruction stays as it is.
pub open spec fn short_form(inst: AsmInst) -> AsmInst {
    match inst {
        AsmInst::Jz(l) => AsmInst::JzShort(l),
        AsmInst::Jnz(l) => AsmInst::JnzShort(l),
        AsmInst::Jb(l) => AsmInst::JbShort(l),
        AsmInst::Jae(l) => AsmInst::JaeShort(l),
        AsmInst::Jl(l) => AsmInst::JlShort(l),
        AsmInst::Jge(l) => AsmInst::JgeShort(l),
        AsmInst::Jmp(l) => AsmInst::JmpShort(l),
        _ => inst,
    }
}

/// Instruction `i` is a long jump whose target the short form would reach.
pub open spec fn narrows(insts: Seq<AsmInst>, i: int) -> bool {
    is_long_jump(insts[i]) && i8::MIN <= labels_of(insts)[label_field(insts[i]).label().0] - (
    offset_of(insts, i) + SHORT_JUMP_LEN) <= i8::MAX
}

/// One round: every jump that can be narrowed is.
pub open spec fn relax_round(insts: Seq<AsmInst>) -> Seq<AsmInst> {
    Seq::new(
        insts.len(),
        |i: int|
            if narrows(insts, i) {
                short_form(insts[i])
            } else {
                insts[i]
            },
    )
}

/// Some jump can be narrowed.
pub open spec fn can_relax(insts: Seq<AsmInst>) -> bool {
    exists|i: int| 0 <= i < insts.len() && narrows(insts, i)
}

/// The number of long jumps among the first `n` instructions.
pub open spec fn long_jumps(insts: Seq<AsmInst>, n: int) -> nat
    decreases n,
{
    if n <= 0 {
        0
    } else {
        long_jumps(insts, n - 1) + if is_long_jump(insts[n - 1]) {
            1nat
        } else {
            0nat
        }
    }
}

/// The program after as many rounds as change something.
pub open spec fn relaxed(insts: Seq<AsmInst>) -> Seq<AsmInst>
    decreases long_jumps(insts, insts.len() as int),
{
    if can_relax(insts) {
        proof {
            lemma_round_narrows(insts, insts.len() as int);
        }
        relaxed(relax_round(insts))
    } else {
        insts
    }
}

/// A round leaves fewer long jumps, if it changes anything.
pub proof fn lemma_round_narrows(insts: Seq<AsmInst>, n: int)
    requires
        0 <= n <= insts.len(),
    ensures
        long_jumps(relax_round(insts), n) <= long_jumps(insts, n),
        (exists|i: int| 0 <= i < n && narrows(insts, i)) ==> long_jumps(relax_round(insts), n)
            < long_jumps(insts, n),
    decreases n,
{
    if n > 0 {
        lemma_round_narrows(insts, n - 1);
    }
}

/// If `inst` is a long jump, its target label and its short form.
pub fn try_shorten(inst: &AsmInst) -> (r: Option<(AsmLabel, AsmInst)>)
    ensures
        match r {
            Some((label, short)) => is_long_jump(*inst) && label == label_field(*inst).label()
                && short == short_form(*inst),
            None => !is_long_jump(*inst),
        },
{
    match inst {
        AsmInst::Jz(l) => Some((*l, AsmInst::JzShort(*l))),
        AsmInst::Jnz(l) => Some((*l, AsmInst::JnzShort(*l))),
        AsmInst::Jb(l) => Some((*l, AsmInst::JbShort(*l))),
        AsmInst::Jae(l) => Some((*l, AsmInst::JaeShort(*l))),
        AsmInst::Jl(l) => Some((*l, AsmInst::JlShort(*l))),
        AsmInst::Jge(l) => Some((*l, AsmInst::JgeShort(*l))),
        AsmInst::Jmp(l) => Some((*l, AsmInst::JmpShort(*l))),
        _ => None,
    }
}

/// Whether a short jump from an instruction at `offset` reaches `target`.
fn in_short_reach(target: usize, offset: usize) -> (r: bool)
    ensures
        r == (i8::MIN <= target - (offset + SHORT_JUMP_LEN) <= i8::MAX),
{
    if target >= offset {
        target - offset <= 129
    } else {
        offset - target <= 126
    }
}

/// Run one round; says whether it narrowed a jump.
fn relax_once(program: &mut AsmProgram) -> (changed: bool)
    requires
        labels_bound(old(program).insts@),
        forall|i: int|
            0 <= i < old(program).insts@.len() ==> operands_encodable(
                #[trigger] old(program).insts@[i],
            ),
    ensures
        final(program).insts@ == relax_round(old(program).insts@),
        changed == can_relax(old(program).insts@),
{
    let ghost insts = program.insts@;
    let (labels, inst_map): (LabelMap, Vec<EncodedInst>) = layout_program(program);
    let mut changed = false;
    let mut i: usize = 0;
    while i < program.insts.len()
        invariant
            i <= program.insts@.len() == insts.len(),
            inst_map@.len() == insts.len(),
            labels@ == labels_of(insts),
            labels_bound(insts),
            forall|k: int| 0 <= k < insts.len() ==> (#[trigger] inst_map@[k]).offset == offset_of(
                insts,
                k,
            ),
            forall|k: int|
                0 <= k < insts.len() ==> #[trigger] program.insts@[k] == (if k < i {
                    relax_round(insts)[k]
                } else {
                    insts[k]
                }),
            changed == exists|k: int| 0 <= k < i && narrows(insts, k),
        decreases program.insts.len() - i,
    {
        let ghost was = changed;
        match try_shorten(&program.insts[i]) {
            Some((label, short)) => {
                assert(program.insts@[i as int] == insts[i as int]);
                let target: usize = match labels.get(&label) {
                    Some(offset) => *offset,
                    None => 0,
                };
                if in_short_reach(target, inst_map[i].offset) {
                    assert(narrows(insts, i as int));
                    program.insts.set(i, short);
                    changed = true;
                }
            },
            None => {},
        }
        i += 1;
    }
    assert(program.insts@ =~= relax_round(insts));
    changed
}

/// Narrow every long jump whose target is in reach of the short form, until
/// nothing changes.
pub fn relax_jumps(program: AsmProgram) -> (r: AsmProgram)
    requires
        labels_bound(program.insts@),
        forall|i: int|
            0 <= i < program.insts@.len() ==> operands_encodable(#[trigger] program.insts@[i]),
    ensures
        r.insts@ == relaxed(program.insts@),
{
    let mut current = program;
    loop
        invariant
            relaxed(current.insts@) == relaxed(program.insts@),
            labels_bound(current.insts@),
            forall|i: int|
                0 <= i < current.insts@.len() ==> operands_encodable(#[trigger] current.insts@[i]),
        decreases long_jumps(current.insts@, current.insts@.len() as int),
    {
        let ghost before = current.insts@;
        let changed = relax_once(&mut current);
        if !changed {
            assert(current.insts@ =~= before);
            return current;
        }
        proof {
            lemma_round_narrows(before, before.len() as int);
            lemma_round_keeps_labels(before, before.len() as int);
            lemma_round_keeps_bound(before);
        }
    }
}

/// The index at which `label` is bound among the first `n` instructions, or -1.
pub open spec fn label_index(insts: Seq<AsmInst>, n: int, label: u32) -> int
    decreases n,
{
    if n <= 0 {
        -1
    } else if insts[n - 1] is Label && insts[n - 1]->Label_0.0 == label {
        n - 1
    } else {
        label_index(insts, n - 1, label)
    }
}

/// A label's offset is the offset of the place where it is bound.
pub proof fn lemma_label_index(insts: Seq<AsmInst>, n: int, label: u32)
    requires
        0 <= n <= insts.len(),
    ensures
        label_map(insts, n).contains_key(label) <==> label_index(insts, n, label) >= 0,
        -1 <= label_index(insts, n, label) < n || n == 0,
        label_map(insts, n).contains_key(label) ==> label_map(insts, n)[label] == offset_of(
            insts,
            label_index(insts, n, label),
        ) as usize,
    decreases n,
{
    if n > 0 {
        lemma_label_index(insts, n - 1, label);
    }
}

proof fn lemma_round_keeps_labels(insts: Seq<AsmInst>, n: int)
    requires
        0 <= n <= insts.len(),
    ensures
        forall|label: u32| #[trigger]
            label_index(relax_round(insts), n, label) == label_index(insts, n, label),
    decreases n,
{
    if n > 0 {
        lemma_round_keeps_labels(insts, n - 1);
        assert forall|label: u32| #[trigger]
            label_index(relax_round(insts), n, label) == label_index(insts, n, label) by {
            assert(label_index(relax_round(insts), n - 1, label) == label_index(
                insts,
                n - 1,
                label,
            ));
        }
    }
}

proof fn lemma_round_keeps_bound(insts: Seq<AsmInst>)
    requires
        labels_bound(insts),
    ensures
        labels_bound(relax_round(insts)),
{
    let next = relax_round(insts);
    let n = insts.len() as int;
    lemma_round_keeps_labels(insts, n);
    assert forall|i: int| 0 <= i < next.len() && label_field(
        #[trigger] next[i],
    ) !is Absent implies labels_of(next).contains_key(label_field(next[i]).label().0) by {
        let label = label_field(next[i]).label().0;
        assert(label_field(insts[i]).label() == label_field(next[i]).label());
        assert(label_field(insts[i]) !is Absent);
        lemma_label_index(insts, n, label);
        lemma_label_index(next, n, label);
    }
}

/// Relaxation keeps the number and the order of the instructions, and each
/// instruction is either unchanged or a long jump turned short.
pub proof fn law_relaxation_only_narrows(insts: Seq<AsmInst>)
    ensures
        relaxed(insts).len() == insts.len(),
        forall|i: int|
            0 <= i < insts.len() ==> #[trigger] relaxed(insts)[i] == insts[i] || (is_long_jump(
                insts[i],
            ) && relaxed(insts)[i] == short_form(insts[i])),
    decreases long_jumps(insts, insts.len() as int),
{
    if can_relax(insts) {
        lemma_round_narrows(insts, insts.len() as int);
        law_relaxation_only_narrows(relax_round(insts));
        let next = relax_round(insts);
        assert forall|i: int| 0 <= i < insts.len() implies #[trigger] relaxed(insts)[i] == insts[i]
            || (is_long_jump(insts[i]) && relaxed(insts)[i] == short_form(insts[i])) by {
            assert(relaxed(next)[i] == next[i] || (is_long_jump(next[i]) && relaxed(next)[i]
                == short_form(next[i])));
        }
    }
}

/// Relaxation ends at a fixed point: no long jump that is left could be
/// narrowed, and relaxing once more changes nothing.
pub proof fn law_relaxation_is_complete(insts: Seq<AsmInst>)
    ensures
        !can_relax(relaxed(insts)),
        relaxed(relaxed(insts)) == relaxed(insts),
    decreases long_jumps(insts, insts.len() as int),
{
    if can_relax(insts) {
        lemma_round_narrows(insts, insts.len() as int);
        law_relaxation_is_complete(relax_round(insts));
    }
}

/// The program has no alignment padding.
pub open spec fn unaligned(insts: Seq<AsmInst>) -> bool {
    forall|i: int| 0 <= i < insts.len() ==> #[trigger] insts[i] !is Align16
}

proof fn lemma_len_shrinks(inst: AsmInst, pos: nat, other: nat)
    requires
        inst !is Align16,
    ensures
        inst_len(inst, pos) == inst_len(inst, other),
        is_long_jump(inst) ==> inst_len(short_form(inst), other) == SHORT_JUMP_LEN && inst_len(
            inst,
            pos,
        ) >= SHORT_JUMP_LEN,
{
    reveal(inst_head);
}

/// Without padding, a round brings any two instructions closer together.
proof fn lemma_round_contracts(insts: Seq<AsmInst>, i: int, j: int)
    requires
        unaligned(insts),
        0 <= i <= j <= insts.len(),
    ensures
        offset_of(relax_round(insts), j) - offset_of(relax_round(insts), i) <= offset_of(insts, j)
            - offset_of(insts, i),
    decreases j - i,
{
    if i < j {
        lemma_round_contracts(insts, i, j - 1);
        let next = relax_round(insts);
        lemma_len_shrinks(insts[j - 1], offset_of(insts, j - 1), offset_of(next, j - 1));
    }
}

proof fn lemma_round_stays_encodable(insts: Seq<AsmInst>)
    requires
        unaligned(insts),
        encodable(insts),
    ensures
        unaligned(relax_round(insts)),
        encodable(relax_round(insts)),
        offset_of(relax_round(insts), insts.len() as int) <= offset_of(insts, insts.len() as int),
{
    let next = relax_round(insts);
    let n = insts.len() as int;
    lemma_round_contracts(insts, 0, n);
    lemma_round_keeps_bound(insts);
    lemma_round_keeps_labels(insts, n);
    assert(labels_unique(next)) by {
        assert forall|i: int, j: int|
            0 <= i < j < next.len() && #[trigger] next[i] is Label && #[trigger] next[j]
                is Label implies next[i]->Label_0 != next[j]->Label_0 by {
            assert(insts[i] is Label && insts[j] is Label);
        }
    }
    assert forall|i: int| 0 <= i < next.len() && label_field(
        #[trigger] next[i],
    ) !is Absent implies label_field(next[i]).fits(displacement(next, i)) by {
        let label = label_field(insts[i]).label().0;
        assert(label_field(insts[i]) !is Absent);
        assert(label_field(next[i]).label().0 == label);
        lemma_label_index(insts, n, label);
        lemma_label_index(next, n, label);
        let k = label_index(insts, n, label);
        assert(label_index(next, n, label) == k);
        lemma_offset_monotone(insts, k, n);
        lemma_offset_monotone(next, k, n);
        assert(displacement(insts, i) == offset_of(insts, k) - offset_of(insts, i + 1));
        assert(displacement(next, i) == offset_of(next, k) - offset_of(next, i + 1));
        lemma_len_shrinks(insts[i], offset_of(insts, i), offset_of(next, i));
        if k <= i {
            lemma_round_contracts(insts, k, i);
            lemma_round_contracts(insts, k, i + 1);
            lemma_offset_monotone(next, k, i + 1);
        } else {
            lemma_round_contracts(insts, i + 1, k);
            lemma_offset_monotone(next, i + 1, k);
        }
    }
}

/// A program without alignment padding that can be encoded can still be
/// encoded after relaxation, and its code is no longer than before.
pub proof fn law_relaxation_keeps_encodable(insts: Seq<AsmInst>)
    requires
        unaligned(insts),
        encodable(insts),
    ensures
        encodable(relaxed(insts)),
        offset_of(relaxed(insts), insts.len() as int) <= offset_of(insts, insts.len() as int),
    decreases long_jumps(insts, insts.len() as int),
{
    if can_relax(insts) {
        lemma_round_narrows(insts, insts.len() as int);
        lemma_round_stays_encodable(insts);
        law_relaxation_keeps_encodable(relax_round(insts));
    }
}

} // verus!
