//! What the back ends have in common: apart from input, output and the frame
//! around a multiplication they emit the same code, up to the numbers of the
//! labels.

use vstd::prelude::*;

use crate::backend::asm_ir::{same_inst, same_insts, AsmInst, AsmLabel, Reg64};
use crate::backend::codegen::{
    init_output_insts, init_tape_insts, linux_body, linux_insts, linux_ok, linux_routines,
    LinuxEmitter, EXIT_ONE_ID, INTERNAL_LABEL_BASE,
};
use crate::backend::codegen_common::{
    add_reg_insts, cell_add_insts, clamp_i32, internal, is_loop_head, lemma_step_takes_labels,
    lir_body, lir_step,
    probe_high_insts,
    probe_low_insts, ptr_add_checked_insts, ptr_add_insts, ptr_add_labels, regrow_insts,
    scan_hint_insts, scan_loop_insts, zero_run_insts, PlatformEmitter, Routines,
};
use crate::backend::labels::{labels_in, lemma_label_positions, lemma_unique};
use crate::backend::linux_laws::{lemma_linux_labels, linux_labels_ok};
use crate::backend::x86_64::encode::label_field;
use crate::backend::x86_64::windows::{
    body_next, setup_insts, windows_body, windows_emitter, windows_insts, windows_ok,
    windows_routines,
};
use crate::backend::x86_64::windows_laws::{lemma_windows_labels, windows_labels_ok};
use crate::ir::lir::{LabelId, LirInst, LirProgram};

verus! {

/// The label that an instruction binds or refers to.
pub open spec fn label_in(inst: AsmInst) -> Option<AsmLabel> {
    match inst {
        AsmInst::Label(l) => Some(l),
        _ => if label_field(inst) is Absent {
            None
        } else {
            Some(label_field(inst).label())
        },
    }
}

/// The instruction with another label.
pub open spec fn relabel(inst: AsmInst, l: AsmLabel) -> AsmInst {
    match inst {
        AsmInst::Label(_) => AsmInst::Label(l),
        AsmInst::LeaRegLabel(reg, _) => AsmInst::LeaRegLabel(reg, l),
        AsmInst::Jz(_) => AsmInst::Jz(l),
        AsmInst::Jnz(_) => AsmInst::Jnz(l),
        AsmInst::Jb(_) => AsmInst::Jb(l),
        AsmInst::Jae(_) => AsmInst::Jae(l),
        AsmInst::Jl(_) => AsmInst::Jl(l),
        AsmInst::Jge(_) => AsmInst::Jge(l),
        AsmInst::Jmp(_) => AsmInst::Jmp(l),
        AsmInst::JzShort(_) => AsmInst::JzShort(l),
        AsmInst::JnzShort(_) => AsmInst::JnzShort(l),
        AsmInst::JbShort(_) => AsmInst::JbShort(l),
        AsmInst::JaeShort(_) => AsmInst::JaeShort(l),
        AsmInst::JlShort(_) => AsmInst::JlShort(l),
        AsmInst::JgeShort(_) => AsmInst::JgeShort(l),
        AsmInst::JmpShort(_) => AsmInst::JmpShort(l),
        AsmInst::Call(_) => AsmInst::Call(l),
        AsmInst::CallMemLabel(_) => AsmInst::CallMemLabel(l),
        _ => inst,
    }
}

/// How the labels of one back end are numbered in the other: those that it has
/// taken from `next` down are `d` further, and the routine that grows the tape
/// has its own.
pub struct Renaming {
    /// First label of the first back end.
    pub next: int,
    /// How much further the second one starts.
    pub d: int,
    /// The routine in the first back end.
    pub from: AsmLabel,
    /// The routine in the second one.
    pub to: AsmLabel,
}

impl Renaming {
    /// The label in the second back end.
    pub open spec fn label(self, l: AsmLabel) -> AsmLabel {
        if l == self.from {
            self.to
        } else {
            AsmLabel((l.0 + self.d) as u32)
        }
    }

    /// The instruction with the labels of the second back end.
    pub open spec fn inst(self, inst: AsmInst) -> AsmInst {
        match label_in(inst) {
            Some(l) => relabel(inst, self.label(l)),
            None => inst,
        }
    }

    /// Whether two pieces of code are the same up to the numbers of the labels.
    pub open spec fn relates(self, a: Seq<AsmInst>, b: Seq<AsmInst>) -> bool {
        &&& a.len() == b.len()
        &&& forall|i: int| 0 <= i < a.len() ==> #[trigger] b[i] == self.inst(a[i])
    }

    /// Different labels keep different numbers.
    pub proof fn law_labels_stay_apart(self, k: AsmLabel, l: AsmLabel)
        requires
            k != l,
            k == self.from || k.0 <= self.next,
            l == self.from || l.0 <= self.next,
            self.to.0 > self.next + self.d,
            0 <= k.0 + self.d <= u32::MAX,
            0 <= l.0 + self.d <= u32::MAX,
        ensures
            self.label(k) != self.label(l),
    {
    }
}

/// Whether an instruction is translated without regard to the platform.
pub open spec fn common(inst: LirInst) -> bool {
    inst is PtrAdd || inst is PtrAddChecked || inst is CellAdd || inst is CellSet || inst is CellAddAt
        || inst is CellSetAt || inst is ZeroRun || inst is Scan || inst is ScanWithHint
}

proof fn lemma_relates_concat(
    r: Renaming,
    a: Seq<AsmInst>,
    b: Seq<AsmInst>,
    c: Seq<AsmInst>,
    d: Seq<AsmInst>,
)
    requires
        r.relates(a, b),
        r.relates(c, d),
    ensures
        r.relates(a + c, b + d),
{
    assert forall|i: int| 0 <= i < (a + c).len() implies #[trigger] (b + d)[i] == r.inst(
        (a + c)[i],
    ) by {
        if i < a.len() {
            assert(b[i] == r.inst(a[i]));
        } else {
            assert(d[i - a.len()] == r.inst(c[i - a.len()]));
        }
    }
}

proof fn lemma_add_reg(r: Renaming, reg: Reg64, value: int)
    ensures
        r.relates(add_reg_insts(reg, value), add_reg_insts(reg, value)),
    decreases
        if value < 0 {
            -value
        } else {
            value
        },
{
    if value != 0 {
        let rest = value - clamp_i32(value);
        lemma_add_reg(r, reg, rest);
        let one = seq![
            AsmInst::AddRegImm32(reg, clamp_i32(value) as i32),
        ];
        assert(r.relates(one, one));
        lemma_relates_concat(r, one, one, add_reg_insts(reg, rest), add_reg_insts(reg, rest));
    }
}

/// The labels that both back ends take at the same place correspond.
spec fn corresponds(r: Renaming, np: int, nq: int, taken: int) -> bool {
    &&& nq - np == r.d
    &&& 0 <= np - taken
    &&& 0 <= nq - taken
    &&& np <= u32::MAX
    &&& nq <= u32::MAX
    &&& np < r.from.0
}

proof fn lemma_ptr_add(r: Renaming, np: int, nq: int, n: int)
    requires
        corresponds(r, np, nq, ptr_add_labels(n)),
    ensures
        r.relates(ptr_add_insts(np, n, r.from), ptr_add_insts(nq, n, r.to)),
{
    if n != 0 {
        let reg = Reg64::R15;
        lemma_add_reg(r, reg, n);
        let head = seq![AsmInst::MovRegReg(reg, Reg64::R13)];
        let sum = add_reg_insts(reg, n);
        assert(r.relates(head, head));
        lemma_relates_concat(r, head, head, sum, sum);
        let a = ptr_add_insts(np, n, r.from);
        let b = ptr_add_insts(nq, n, r.to);
        let k = (head + sum).len() as int;
        assert(a =~= (head + sum) + a.skip(k));
        assert(b =~= (head + sum) + b.skip(k));
        assert(r.label(internal(np, 0)) == internal(nq, 0));
        assert(r.label(internal(np, 1)) == internal(nq, 1));
        assert(r.relates(a.skip(k), b.skip(k)));
        lemma_relates_concat(r, head + sum, head + sum, a.skip(k), b.skip(k));
    }
}

proof fn lemma_probe(r: Renaming, extent: int, p: AsmLabel, q: AsmLabel)
    requires
        r.label(p) == q,
    ensures
        r.relates(probe_low_insts(extent, p), probe_low_insts(extent, q)),
        r.relates(probe_high_insts(extent, p), probe_high_insts(extent, q)),
{
    let reg = Reg64::R15;
    lemma_add_reg(r, reg, extent);
    let head = seq![AsmInst::MovRegReg(reg, Reg64::R13)];
    let sum = add_reg_insts(reg, extent);
    assert(r.relates(head, head));
    lemma_relates_concat(r, head, head, sum, sum);
    let k = (head + sum).len() as int;
    if extent < 0 {
        let a = probe_low_insts(extent, p);
        let b = probe_low_insts(extent, q);
        assert(a =~= (head + sum) + a.skip(k));
        assert(b =~= (head + sum) + b.skip(k));
        assert(r.relates(a.skip(k), b.skip(k)));
        lemma_relates_concat(r, head + sum, head + sum, a.skip(k), b.skip(k));
    }
    if extent > 0 {
        let a = probe_high_insts(extent, p);
        let b = probe_high_insts(extent, q);
        assert(a =~= (head + sum) + a.skip(k));
        assert(b =~= (head + sum) + b.skip(k));
        assert(r.relates(a.skip(k), b.skip(k)));
        lemma_relates_concat(r, head + sum, head + sum, a.skip(k), b.skip(k));
    }
}

proof fn lemma_regrow(
    r: Renaming,
    extent: int,
    slow_p: AsmLabel,
    slow_q: AsmLabel,
    retry_p: AsmLabel,
    retry_q: AsmLabel,
)
    requires
        r.label(slow_p) == slow_q,
        r.label(retry_p) == retry_q,
    ensures
        r.relates(
            regrow_insts(extent, slow_p, retry_p, r.from),
            regrow_insts(extent, slow_q, retry_q, r.to),
        ),
{
    if extent != 0 {
        let sum = add_reg_insts(Reg64::R13, -extent);
        lemma_add_reg(r, Reg64::R13, -extent);
        let ha = seq![AsmInst::Label(slow_p), AsmInst::Call(r.from)];
        let hb = seq![AsmInst::Label(slow_q), AsmInst::Call(r.to)];
        assert(r.relates(ha, hb));
        lemma_relates_concat(r, ha, hb, sum, sum);
        let ta = seq![AsmInst::Jmp(retry_p)];
        let tb = seq![AsmInst::Jmp(retry_q)];
        assert(r.relates(ta, tb));
        lemma_relates_concat(r, ha + sum, hb + sum, ta, tb);
    }
}

proof fn lemma_ptr_add_checked(r: Renaming, np: int, nq: int, delta: int, lo: int, hi: int)
    requires
        corresponds(r, np, nq, 4),
    ensures
        r.relates(
            ptr_add_checked_insts(np, delta, lo, hi, r.from),
            ptr_add_checked_insts(nq, delta, lo, hi, r.to),
        ),
{
    if !(lo == 0 && hi == 0) {
        assert(forall|k: int| 0 <= k < 4 ==> r.label(#[trigger] internal(np, k)) == internal(nq, k));
        let (rp, rq) = (internal(np, 0), internal(nq, 0));
        let (lp, lq) = (internal(np, 1), internal(nq, 1));
        let (hp, hq) = (internal(np, 2), internal(nq, 2));
        let (dp, dq) = (internal(np, 3), internal(nq, 3));
        lemma_probe(r, lo, lp, lq);
        lemma_probe(r, hi, hp, hq);
        lemma_regrow(r, lo, lp, lq, rp, rq);
        lemma_regrow(r, hi, hp, hq, rp, rq);
        let sum = add_reg_insts(Reg64::R13, delta);
        lemma_add_reg(r, Reg64::R13, delta);
        let a0 = seq![AsmInst::Label(rp)];
        let b0 = seq![AsmInst::Label(rq)];
        assert(r.relates(a0, b0));
        lemma_relates_concat(r, a0, b0, probe_low_insts(lo, lp), probe_low_insts(lo, lq));
        let a1 = a0 + probe_low_insts(lo, lp);
        let b1 = b0 + probe_low_insts(lo, lq);
        lemma_relates_concat(r, a1, b1, probe_high_insts(hi, hp), probe_high_insts(hi, hq));
        let a2 = a1 + probe_high_insts(hi, hp);
        let b2 = b1 + probe_high_insts(hi, hq);
        lemma_relates_concat(r, a2, b2, sum, sum);
        let ja = seq![AsmInst::Jmp(dp)];
        let jb = seq![AsmInst::Jmp(dq)];
        assert(r.relates(ja, jb));
        lemma_relates_concat(r, a2 + sum, b2 + sum, ja, jb);
        let a3 = a2 + sum + ja;
        let b3 = b2 + sum + jb;
        let (ga, gb) = (regrow_insts(lo, lp, rp, r.from), regrow_insts(lo, lq, rq, r.to));
        lemma_relates_concat(r, a3, b3, ga, gb);
        let (ka, kb) = (regrow_insts(hi, hp, rp, r.from), regrow_insts(hi, hq, rq, r.to));
        lemma_relates_concat(r, a3 + ga, b3 + gb, ka, kb);
        let da = seq![AsmInst::Label(dp)];
        let db = seq![AsmInst::Label(dq)];
        assert(r.relates(da, db));
        lemma_relates_concat(r, a3 + ga + ka, b3 + gb + kb, da, db);
    }
}

proof fn lemma_scan(r: Renaming, np: int, nq: int, step: int)
    requires
        corresponds(r, np, nq, 2 + ptr_add_labels(step)),
    ensures
        r.relates(scan_loop_insts(np, step, r.from), scan_loop_insts(nq, step, r.to)),
{
    assert(r.label(internal(np, 0)) == internal(nq, 0));
    assert(r.label(internal(np, 1)) == internal(nq, 1));
    lemma_ptr_add(r, np - 2, nq - 2, step);
    let a = scan_loop_insts(np, step, r.from);
    let b = scan_loop_insts(nq, step, r.to);
    let pa = ptr_add_insts(np - 2, step, r.from);
    let pb = ptr_add_insts(nq - 2, step, r.to);
    assert(r.relates(a.take(3), b.take(3)));
    lemma_relates_concat(r, a.take(3), b.take(3), pa, pb);
    let k = 3 + pa.len() as int;
    assert(a =~= (a.take(3) + pa) + a.skip(k));
    assert(b =~= (b.take(3) + pb) + b.skip(k));
    assert(r.relates(a.skip(k), b.skip(k)));
    lemma_relates_concat(r, a.take(3) + pa, b.take(3) + pb, a.skip(k), b.skip(k));
}

/// Both back ends translate a common instruction in the same way.
proof fn lemma_step<P: PlatformEmitter, Q: PlatformEmitter>(
    p: P,
    q: Q,
    all: Seq<LirInst>,
    rp: Routines,
    rq: Routines,
    inst: LirInst,
    np: int,
    nq: int,
    window: Option<(int, int)>,
    r: Renaming,
)
    requires
        common(inst),
        r.from == rp.ensure_tape,
        r.to == rq.ensure_tape,
        nq - np == r.d,
        np <= u32::MAX,
        nq <= u32::MAX,
        np < r.from.0,
        lir_step(p, all, rp, inst, np, window).next >= 0,
        lir_step(q, all, rq, inst, nq, window).next >= 0,
    ensures
        ({
            let a = lir_step(p, all, rp, inst, np, window);
            let b = lir_step(q, all, rq, inst, nq, window);
            &&& r.relates(a.insts, b.insts)
            &&& b.next - a.next == r.d
            &&& b.window == a.window
        }),
{
    let a = lir_step(p, all, rp, inst, np, window);
    let b = lir_step(q, all, rq, inst, nq, window);
    match inst {
        LirInst::PtrAdd(n) => {
            lemma_add_reg(r, Reg64::R13, n as int);
            if a.next == np - 2 {
                lemma_ptr_add(r, np, nq, n as int);
            }
        },
        LirInst::PtrAddChecked { delta, lo_extent, hi_extent } => {
            lemma_add_reg(r, Reg64::R13, delta as int);
            if a.next == np - 4 {
                lemma_ptr_add_checked(
                    r,
                    np,
                    nq,
                    delta as int,
                    lo_extent as int,
                    hi_extent as int,
                );
            }
        },
        LirInst::Scan(step) => {
            lemma_scan(r, np, nq, step as int);
        },
        LirInst::ScanWithHint { dir, hint_bytes } => {
            lemma_scan(r, np, nq, dir as int);
            let hint = scan_hint_insts(dir as int, hint_bytes);
            assert(r.relates(hint, hint));
            lemma_relates_concat(
                r,
                hint,
                hint,
                scan_loop_insts(np, dir as int, r.from),
                scan_loop_insts(nq, dir as int, r.to),
            );
        },
        LirInst::CellAdd(n) => {
            assert(r.relates(cell_add_insts(n as int), cell_add_insts(n as int)));
        },
        LirInst::ZeroRun { start, count } => {
            assert(r.relates(zero_run_insts(start, count), zero_run_insts(start, count)));
        },
        _ => {
            assert(r.relates(a.insts, b.insts));
        },
    }
}

/// Between two places of a program with none but common instructions between
/// them, two back ends emit the same code, up to the numbers of the labels,
/// where they know the same of the tape at the first place, as behind a label.
#[verifier::rlimit(60)]
pub proof fn law_back_ends_agree<P: PlatformEmitter, Q: PlatformEmitter>(
    p: P,
    q: Q,
    insts: Seq<LirInst>,
    rp: Routines,
    rq: Routines,
    np: int,
    nq: int,
    from: int,
    to: int,
)
    requires
        0 <= from <= to <= insts.len(),
        forall|i: int| from <= i < to ==> common(#[trigger] insts[i]),
        lir_body(p, insts, rp, np, from).window == lir_body(q, insts, rq, nq, from).window,
        lir_body(p, insts, rp, np, from).next <= u32::MAX,
        lir_body(q, insts, rq, nq, from).next <= u32::MAX,
        lir_body(p, insts, rp, np, from).next < rp.ensure_tape.0,
        lir_body(p, insts, rp, np, to).next >= 0,
        lir_body(q, insts, rq, nq, to).next >= 0,
    ensures
        ({
            let a = lir_body(p, insts, rp, np, from);
            let b = lir_body(q, insts, rq, nq, from);
            let c = lir_body(p, insts, rp, np, to);
            let e = lir_body(q, insts, rq, nq, to);
            let r = Renaming {
                next: a.next,
                d: b.next - a.next,
                from: rp.ensure_tape,
                to: rq.ensure_tape,
            };
            &&& c.insts.len() >= a.insts.len()
            &&& e.insts.len() >= b.insts.len()
            &&& c.insts.take(a.insts.len() as int) == a.insts
            &&& e.insts.take(b.insts.len() as int) == b.insts
            &&& r.relates(
                c.insts.skip(a.insts.len() as int),
                e.insts.skip(b.insts.len() as int),
            )
            &&& c.next <= a.next
            &&& e.next - c.next == r.d
            &&& e.window == c.window
        }),
    decreases to - from,
{
    let a = lir_body(p, insts, rp, np, from);
    let b = lir_body(q, insts, rq, nq, from);
    let la = a.insts.len() as int;
    let lb = b.insts.len() as int;
    let r = Renaming {
        next: a.next,
        d: b.next - a.next,
        from: rp.ensure_tape,
        to: rq.ensure_tape,
    };
    if from < to {
        let inst = insts[to - 1];
        let c = lir_body(p, insts, rp, np, to - 1);
        let e = lir_body(q, insts, rq, nq, to - 1);
        let sa = lir_step(p, insts, rp, inst, c.next, c.window);
        let sb = lir_step(q, insts, rq, inst, e.next, e.window);
        assert(common(inst));
        lemma_step_takes_labels(p, insts, rp, inst, c.next, c.window);
        lemma_step_takes_labels(q, insts, rq, inst, e.next, e.window);
        law_back_ends_agree(p, q, insts, rp, rq, np, nq, from, to - 1);
        lemma_step(p, q, insts, rp, rq, inst, c.next, e.next, c.window, r);
        assert((c.insts + sa.insts).take(la) =~= c.insts.take(la));
        assert((e.insts + sb.insts).take(lb) =~= e.insts.take(lb));
        assert((c.insts + sa.insts).skip(la) =~= c.insts.skip(la) + sa.insts);
        assert((e.insts + sb.insts).skip(lb) =~= e.insts.skip(lb) + sb.insts);
        lemma_relates_concat(r, c.insts.skip(la), e.insts.skip(lb), sa.insts, sb.insts);
    } else {
        assert(a.insts.take(la) =~= a.insts);
        assert(b.insts.take(lb) =~= b.insts);
    }
}

/// The labels of the first `n` instructions in the order in which they first occur.
pub open spec fn seen(code: Seq<AsmInst>, n: int) -> Seq<AsmLabel>
    decreases n,
{
    if n <= 0 {
        Seq::empty()
    } else {
        let before = seen(code, n - 1);
        match label_in(code[n - 1]) {
            Some(l) => if before.contains(l) {
                before
            } else {
                before.push(l)
            },
            None => before,
        }
    }
}

/// The place of a label among labels that differ.
pub open spec fn rank(labels: Seq<AsmLabel>, l: AsmLabel) -> int
    decreases labels.len(),
{
    if labels.len() == 0 {
        -1
    } else if labels.last() == l {
        labels.len() - 1
    } else {
        rank(labels.drop_last(), l)
    }
}

/// The code with its labels numbered from zero in the order in which they first
/// occur.
pub open spec fn renumbered(code: Seq<AsmInst>) -> Seq<AsmInst> {
    Seq::new(
        code.len(),
        |i: int|
            match label_in(code[i]) {
                Some(l) => relabel(
                    code[i],
                    AsmLabel(rank(seen(code, code.len() as int), l) as u32),
                ),
                None => code[i],
            },
    )
}

/// Where a label is first bound from `i` on.
pub open spec fn place_from(code: Seq<AsmInst>, l: AsmLabel, i: int) -> int
    decreases code.len() - i,
{
    if i >= code.len() || code[i] == AsmInst::Label(l) {
        i
    } else {
        place_from(code, l, i + 1)
    }
}

/// The instructions between the places where two labels are first bound.
pub open spec fn between(code: Seq<AsmInst>, a: AsmLabel, b: AsmLabel) -> Seq<AsmInst> {
    code.subrange(place_from(code, a, 0) + 1, place_from(code, b, 0))
}

proof fn lemma_place(code: Seq<AsmInst>, l: AsmLabel, i: int, k: int)
    requires
        0 <= i <= k < code.len(),
        code[k] == AsmInst::Label(l),
        forall|j: int| i <= j < k ==> #[trigger] code[j] != AsmInst::Label(l),
    ensures
        place_from(code, l, i) == k,
    decreases k - i,
{
    if i < k {
        assert(code[i] != AsmInst::Label(l));
        lemma_place(code, l, i + 1, k);
    }
}

proof fn lemma_place_same(a: Seq<AsmInst>, b: Seq<AsmInst>, l: AsmLabel, i: int)
    requires
        0 <= i,
        same_insts(a, b),
    ensures
        place_from(a, l, i) == place_from(b, l, i),
    decreases a.len() - i,
{
    if i < a.len() {
        assert(same_inst(a[i], b[i]));
        lemma_place_same(a, b, l, i + 1);
    }
}

/// A piece of code between two labels of its own.
proof fn lemma_between(
    code: Seq<AsmInst>,
    front: Seq<AsmInst>,
    mid: Seq<AsmInst>,
    back: Seq<AsmInst>,
    a: AsmLabel,
    b: AsmLabel,
)
    requires
        code == front + (seq![AsmInst::Label(a)] + mid + seq![AsmInst::Label(b)]) + back,
        !labels_in(front).contains(a.0),
        !labels_in(front).contains(b.0),
        labels_in(seq![AsmInst::Label(a)] + mid + seq![AsmInst::Label(b)]).no_duplicates(),
    ensures
        between(code, a, b) == mid,
        place_from(code, b, 0) <= code.len(),
        0 <= place_from(code, a, 0) < place_from(code, b, 0),
{
    let body = seq![AsmInst::Label(a)] + mid + seq![AsmInst::Label(b)];
    let f = front.len() as int;
    let k = f + 1 + mid.len();
    lemma_unique(body);
    assert forall|j: int| 0 <= j < f implies #[trigger] code[j] != AsmInst::Label(a) && code[j]
        != AsmInst::Label(b) by {
        assert(code[j] == front[j]);
        if front[j] is Label {
            let n = lemma_label_positions(front, j);
            assert(labels_in(front)[n] == front[j]->Label_0.0);
        }
    }
    assert(code[f] == body[0] && code[k] == body[k - f]);
    assert forall|j: int| f <= j < k implies #[trigger] code[j] != AsmInst::Label(b) by {
        assert(code[j] == body[j - f]);
        assert(body[k - f] is Label);
        if body[j - f] is Label {
            assert(body[j - f]->Label_0 != body[k - f]->Label_0);
        }
    }
    lemma_place(code, a, 0, f);
    lemma_place(code, b, 0, k);
    assert(between(code, a, b) =~= mid);
}

proof fn lemma_rank(labels: Seq<AsmLabel>, other: Seq<AsmLabel>, r: Renaming, l: AsmLabel)
    requires
        other.len() == labels.len(),
        forall|i: int| 0 <= i < labels.len() ==> #[trigger] other[i] == r.label(labels[i]),
        forall|i: int|
            0 <= i < labels.len() && r.label(#[trigger] labels[i]) == r.label(l) ==> labels[i] == l,
    ensures
        rank(other, r.label(l)) == rank(labels, l),
    decreases labels.len(),
{
    if labels.len() > 0 {
        assert(labels.last() == labels[labels.len() - 1]);
        assert(other.last() == other[labels.len() - 1]);
        if labels.last() != l {
            let a = labels.drop_last();
            let b = other.drop_last();
            assert forall|i: int| 0 <= i < a.len() implies #[trigger] b[i] == r.label(a[i]) by {
                assert(b[i] == other[i] && a[i] == labels[i]);
            }
            assert forall|i: int|
                0 <= i < a.len() && r.label(#[trigger] a[i]) == r.label(l) implies a[i] == l by {
                assert(a[i] == labels[i]);
            }
            lemma_rank(a, b, r, l);
        }
    }
}

/// The renaming has an inverse on the labels of the code.
spec fn undone(r: Renaming, back: Renaming, code: Seq<AsmInst>) -> bool {
    forall|i: int|
        0 <= i < code.len() && label_in(#[trigger] code[i]) is Some ==> back.label(
            r.label(label_in(code[i])->Some_0),
        ) == label_in(code[i])->Some_0
}

proof fn lemma_seen(r: Renaming, back: Renaming, a: Seq<AsmInst>, b: Seq<AsmInst>, n: int)
    requires
        0 <= n <= a.len(),
        r.relates(a, b),
        undone(r, back, a),
    ensures
        seen(b, n).len() == seen(a, n).len(),
        forall|i: int|
            0 <= i < seen(a, n).len() ==> #[trigger] seen(b, n)[i] == r.label(seen(a, n)[i]),
        forall|i: int|
            0 <= i < seen(a, n).len() ==> back.label(r.label(#[trigger] seen(a, n)[i])) == seen(
                a,
                n,
            )[i],
    decreases n,
{
    if n > 0 {
        lemma_seen(r, back, a, b, n - 1);
        let s = seen(a, n - 1);
        let t = seen(b, n - 1);
        assert(b[n - 1] == r.inst(a[n - 1]));
        if let Some(l) = label_in(a[n - 1]) {
            assert(label_in(b[n - 1]) == Some(r.label(l)));
            assert(back.label(r.label(l)) == l);
            if s.contains(l) {
                let i = choose|i: int| 0 <= i < s.len() && s[i] == l;
                assert(t[i] == r.label(l));
            }
            if t.contains(r.label(l)) {
                let i = choose|i: int| 0 <= i < t.len() && t[i] == r.label(l);
                assert(r.label(s[i]) == r.label(l));
                assert(back.label(r.label(s[i])) == s[i]);
                assert(s[i] == l);
            }
            assert(s.contains(l) == t.contains(r.label(l)));
        }
    }
}

/// Code that is the same up to the numbers of the labels, both ways, is the same once
/// its labels are numbered in the order in which they occur.
pub proof fn law_renamed_code_is_the_same(
    r: Renaming,
    back: Renaming,
    a: Seq<AsmInst>,
    b: Seq<AsmInst>,
)
    requires
        r.relates(a, b),
        back.relates(b, a),
    ensures
        renumbered(a) == renumbered(b),
{
    let n = a.len() as int;
    assert(undone(r, back, a)) by {
        assert forall|i: int| 0 <= i < a.len() && label_in(
            #[trigger] a[i],
        ) is Some implies back.label(r.label(label_in(a[i])->Some_0)) == label_in(a[i])->Some_0 by {
            assert(b[i] == r.inst(a[i]));
            assert(a[i] == back.inst(b[i]));
        }
    }
    lemma_seen(r, back, a, b, n);
    let s = seen(a, n);
    assert forall|i: int| 0 <= i < n implies renumbered(a)[i] == renumbered(b)[i] by {
        assert(b[i] == r.inst(a[i]));
        if let Some(l) = label_in(a[i]) {
            assert(label_in(b[i]) == Some(r.label(l)));
            assert forall|j: int| 0 <= j < s.len() && r.label(#[trigger] s[j]) == r.label(
                l,
            ) implies s[j] == l by {
                assert(back.label(r.label(s[j])) == s[j]);
            }
            lemma_rank(s, seen(b, n), r, l);
        }
    }
    assert(renumbered(a) =~= renumbered(b));
}

proof fn lemma_seen_same(a: Seq<AsmInst>, b: Seq<AsmInst>, n: int)
    requires
        same_insts(a, b),
        0 <= n <= a.len(),
    ensures
        seen(a, n) == seen(b, n),
    decreases n,
{
    if n > 0 {
        lemma_seen_same(a, b, n - 1);
        assert(same_inst(a[n - 1], b[n - 1]));
    }
}

proof fn lemma_renumbered_same(a: Seq<AsmInst>, b: Seq<AsmInst>)
    requires
        same_insts(a, b),
    ensures
        same_insts(renumbered(a), renumbered(b)),
{
    lemma_seen_same(a, b, a.len() as int);
    assert forall|i: int| 0 <= i < a.len() implies same_inst(
        #[trigger] renumbered(a)[i],
        renumbered(b)[i],
    ) by {
        assert(same_inst(a[i], b[i]));
    }
}

/// A program of common instructions between two labels.
pub open spec fn marked(m0: LabelId, mid: Seq<LirInst>, m1: LabelId) -> Seq<LirInst> {
    seq![LirInst::Label(m0)] + mid + seq![LirInst::Label(m1)]
}

/// The body of such a program.
proof fn lemma_marked_body<P: PlatformEmitter>(
    p: P,
    insts: Seq<LirInst>,
    mid: Seq<LirInst>,
    m0: LabelId,
    m1: LabelId,
    routines: Routines,
    next: int,
)
    requires
        insts == marked(m0, mid, m1),
        forall|i: int| 0 <= i < mid.len() ==> common(#[trigger] mid[i]),
    ensures
        ({
            let n = insts.len() as int;
            let head = lir_body(p, insts, routines, next, 1);
            let most = lir_body(p, insts, routines, next, n - 1);
            let all = lir_body(p, insts, routines, next, n);
            &&& head.insts == seq![AsmInst::Label(AsmLabel(m0.0))]
            &&& head.next == next
            &&& head.window is None
            &&& all.insts == most.insts + seq![AsmInst::Label(AsmLabel(m1.0))]
            &&& all.next == most.next
            &&& forall|i: int| 1 <= i < n - 1 ==> common(#[trigger] insts[i])
        }),
{
    let n = insts.len() as int;
    assert(insts[0] == LirInst::Label(m0));
    assert(insts[n - 1] == LirInst::Label(m1));
    assert forall|i: int| 1 <= i < n - 1 implies common(#[trigger] insts[i]) by {
        assert(insts[i] == mid[i - 1]);
    }
    assert forall|id: LabelId| !is_loop_head(insts, id) by {
        assert forall|j: int| 0 <= j < insts.len() implies !(#[trigger] insts[j] is JumpIfNonZero) by {
            if 1 <= j < n - 1 {
                assert(common(insts[j]));
            }
        }
    }
    reveal_with_fuel(lir_body, 2);
    let head = lir_body(p, insts, routines, next, 1);
    assert(head.insts =~= seq![AsmInst::Label(AsmLabel(m0.0))]);
}

/// What such a program's body holds between its labels.
spec fn inner<P: PlatformEmitter>(
    p: P,
    insts: Seq<LirInst>,
    routines: Routines,
    next: int,
) -> Seq<AsmInst> {
    lir_body(p, insts, routines, next, insts.len() - 1).insts.skip(1)
}

/// One of the two back ends against the other.
proof fn lemma_marked_relates<P: PlatformEmitter, Q: PlatformEmitter>(
    p: P,
    q: Q,
    insts: Seq<LirInst>,
    mid: Seq<LirInst>,
    m0: LabelId,
    m1: LabelId,
    rp: Routines,
    rq: Routines,
    np: int,
    nq: int,
)
    requires
        insts == marked(m0, mid, m1),
        forall|i: int| 0 <= i < mid.len() ==> common(#[trigger] mid[i]),
        np <= u32::MAX,
        nq <= u32::MAX,
        np < rp.ensure_tape.0,
        lir_body(p, insts, rp, np, insts.len() as int).next >= 0,
        lir_body(q, insts, rq, nq, insts.len() as int).next >= 0,
    ensures
        (Renaming { next: np, d: nq - np, from: rp.ensure_tape, to: rq.ensure_tape }).relates(
            inner(p, insts, rp, np),
            inner(q, insts, rq, nq),
        ),
        lir_body(p, insts, rp, np, insts.len() as int).insts == seq![
            AsmInst::Label(AsmLabel(m0.0)),
        ] + inner(p, insts, rp, np) + seq![AsmInst::Label(AsmLabel(m1.0))],
{
    let n = insts.len() as int;
    lemma_marked_body(p, insts, mid, m0, m1, rp, np);
    lemma_marked_body(q, insts, mid, m0, m1, rq, nq);
    law_back_ends_agree(p, q, insts, rp, rq, np, nq, 1, n - 1);
    let most = lir_body(p, insts, rp, np, n - 1).insts;
    assert(most =~= most.take(1) + most.skip(1));
}

/// Where the inner code stands in the Linux program.
proof fn lemma_linux_between(lir: LirProgram, m0: LabelId, mid: Seq<LirInst>, m1: LabelId, part: Seq<AsmInst>)
    requires
        lir.insts@ == marked(m0, mid, m1),
        linux_ok(lir),
        linux_labels_ok(lir),
        linux_body(lir) == seq![AsmInst::Label(AsmLabel(m0.0))] + part + seq![
            AsmInst::Label(AsmLabel(m1.0)),
        ],
    ensures
        between(linux_insts(lir), AsmLabel(m0.0), AsmLabel(m1.0)) == part,
{
    lemma_linux_labels(lir);
    let front = init_tape_insts(AsmLabel(EXIT_ONE_ID)) + init_output_insts(AsmLabel(EXIT_ONE_ID));
    let code = linux_insts(lir);
    let back = code.skip((front + linux_body(lir)).len() as int);
    assert(code =~= front + linux_body(lir) + back);
    lemma_between(code, front, part, back, AsmLabel(m0.0), AsmLabel(m1.0));
}

/// Where it stands in the Windows program.
proof fn lemma_windows_between(
    lir: LirProgram,
    m0: LabelId,
    mid: Seq<LirInst>,
    m1: LabelId,
    part: Seq<AsmInst>,
    windows: Seq<AsmInst>,
)
    requires
        lir.insts@ == marked(m0, mid, m1),
        windows_ok(lir),
        windows_labels_ok(lir),
        windows_body(lir) == seq![AsmInst::Label(AsmLabel(m0.0))] + part + seq![
            AsmInst::Label(AsmLabel(m1.0)),
        ],
        same_insts(windows, windows_insts(lir)),
    ensures
        same_insts(between(windows, AsmLabel(m0.0), AsmLabel(m1.0)), part),
{
    let (a, b) = (AsmLabel(m0.0), AsmLabel(m1.0));
    lemma_windows_labels(lir);
    let insts = lir.insts@;
    assert(insts[0] == LirInst::Label(m0) && insts[insts.len() - 1] == LirInst::Label(m1));
    assert(insts[0] is Label && insts[insts.len() - 1] is Label);
    let front = setup_insts();
    let code = windows_insts(lir);
    let back = code.skip((front + windows_body(lir)).len() as int);
    assert(code =~= front + windows_body(lir) + back);
    lemma_between(code, front, part, back, a, b);
    lemma_place_same(windows, code, a, 0);
    lemma_place_same(windows, code, b, 0);
    let w = between(windows, a, b);
    assert forall|i: int| 0 <= i < w.len() implies same_inst(#[trigger] w[i], part[i]) by {
        let k = place_from(code, a, 0) + 1 + i;
        assert(same_inst(windows[k], code[k]));
        assert(part[i] == between(code, a, b)[i]);
    }
}

/// The back ends emit the same code for a program of common instructions between two
/// labels: what stands between these labels is the same in both, once the labels of each
/// are numbered in the order in which they occur.
pub proof fn law_back_ends_emit_the_same_code(
    lir: LirProgram,
    m0: LabelId,
    mid: Seq<LirInst>,
    m1: LabelId,
    windows: Seq<AsmInst>,
)
    requires
        lir.insts@ == marked(m0, mid, m1),
        forall|i: int| 0 <= i < mid.len() ==> common(#[trigger] mid[i]),
        linux_ok(lir),
        windows_ok(lir),
        linux_labels_ok(lir),
        windows_labels_ok(lir),
        same_insts(windows, windows_insts(lir)),
    ensures
        same_insts(
            renumbered(between(windows, AsmLabel(m0.0), AsmLabel(m1.0))),
            renumbered(between(linux_insts(lir), AsmLabel(m0.0), AsmLabel(m1.0))),
        ),
{
    let insts = lir.insts@;
    let (p, rp, np) = (LinuxEmitter, linux_routines(), INTERNAL_LABEL_BASE as int);
    let (q, rq, nq) = (windows_emitter(), windows_routines(), body_next());
    lemma_marked_relates(p, q, insts, mid, m0, m1, rp, rq, np, nq);
    lemma_marked_relates(q, p, insts, mid, m0, m1, rq, rp, nq, np);
    let there = Renaming { next: np, d: nq - np, from: rp.ensure_tape, to: rq.ensure_tape };
    let back = Renaming { next: nq, d: np - nq, from: rq.ensure_tape, to: rp.ensure_tape };
    let (mp, mq) = (inner(p, insts, rp, np), inner(q, insts, rq, nq));
    law_renamed_code_is_the_same(there, back, mp, mq);
    lemma_linux_between(lir, m0, mid, m1, mp);
    lemma_windows_between(lir, m0, mid, m1, mq, windows);
    lemma_renumbered_same(between(windows, AsmLabel(m0.0), AsmLabel(m1.0)), mq);
}

} // verus!
