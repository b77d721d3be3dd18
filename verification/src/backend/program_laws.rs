//! Running the instructions of a LIR program does what the program does.

use vstd::prelude::*;

use crate::backend::asm_ir::{AsmInst, AsmLabel, Reg64};
use crate::backend::codegen::LinuxEmitter;
use crate::backend::codegen_common::{
    checked_window, covers, internal, linear_inner_insts, linear_window, lir_body, lir_inst_ok,
    lir_step, multiplicand_frame, offsets_of, ptr_add_insts, scan_loop_insts, set_at,
    zero_run_insts, PlatformEmitter, Routines, Step,
};
use crate::backend::io_laws::{flushes, lemma_kept, lemma_put_byte, tracks};
use crate::backend::run_laws::{
    arrived, comes, far, floor, grows, known, leads, lemma_add_at, lemma_arrives,
    lemma_cell_add, lemma_comes_from, lemma_comes_jump, lemma_comes_pass, lemma_idles,
    lemma_move, lemma_parts, lemma_ptr_add, lemma_ptr_add_checked, lemma_set_at, mirrors, rolls,
    sits, starved, tape, Site,
};
use crate::backend::scale_laws::{lemma_linear, offsets_near};
use crate::backend::string_laws::law_long_clearings_clear_their_cells;
use crate::backend::x86_64::encode::labels_unique;
use crate::backend::x86_64::machine::{
    after, lemma_here, lemma_jump, lemma_pass, lemma_plain, lemma_then, reaches, word, Run,
    World,
};
use crate::interp::machine::{Source, St};
use crate::ir::hir::{factors_view, sets_view};
use crate::ir::lir::{lir_view, lirs_view, Lir, LirInst};
use crate::ir::lir_meaning::{lir_effect, lir_run, lir_turn, place_of, zeroed};

verus! {

/// The platform may be asked for a byte.
pub open spec fn may_get<P: PlatformEmitter>(
    code: Seq<AsmInst>,
    w: World,
    platform: P,
    routines: Routines,
    r: Run,
    s: St,
    x: Site,
    next: int,
    win: bool,
) -> bool {
    &&& tracks(w, r, s, x, win)
    &&& sits(
        code,
        r.pc,
        platform.get_byte_insts(next, routines.exit_one, routines.flush_output),
    )
}

/// A run has come to a place with the state of the LIR program.
pub open spec fn stands_well(w: World, b: Run, t: St, x: Site, to: int, win: bool) -> bool {
    b.pc == to && tracks(w, b, t, x, win)
}

/// The platform's instructions for reading a byte do what they are for.
pub open spec fn obtains<P: PlatformEmitter>(
    code: Seq<AsmInst>,
    w: World,
    platform: P,
    routines: Routines,
    source: Source,
    win: bool,
) -> bool {
    forall|r: Run, s: St, x: Site, next: int|
        #![trigger may_get(code, w, platform, routines, r, s, x, next, win)]
        may_get(code, w, platform, routines, r, s, x, next, win) ==> exists|b: Run|
            reaches(code, w, r, b) && #[trigger] stands_well(
                w,
                b,
                s.read(source(s.reads)),
                x,
                r.pc + platform.get_byte_insts(
                    next,
                    routines.exit_one,
                    routines.flush_output,
                ).len(),
                win,
            )
}

/// A program's code, and where its body and its routines are.
pub struct Program {
    /// All instructions.
    pub code: Seq<AsmInst>,
    /// Where the body starts.
    pub start: int,
    /// Where the growth routine is.
    pub ensure: int,
    /// Where the flush routine is.
    pub flush: int,
    /// The labels of the routines.
    pub routines: Routines,
    /// The first internal label of the body.
    pub next: int,
    /// The LIR instructions.
    pub lir: Seq<LirInst>,
}

/// Whether an instruction of LIR stays within what the code is made for: moves are not
/// too far, and cells at offsets lie in the stretch that is known to exist. On Windows
/// the string instructions would lose the output handle.
pub open spec fn modest(inst: LirInst, window: Option<(int, int)>, win: bool) -> bool {
    match inst {
        LirInst::PtrAdd(n) => -far() <= n <= far(),
        LirInst::PtrAddChecked { lo_extent, hi_extent, .. } => -floor() <= lo_extent && hi_extent
            <= floor(),
        LirInst::LinearMul(factors) => offsets_near(offsets_of(factors@)),
        LirInst::LinearMulWithSets { factors, sets } => offsets_near(offsets_of(factors@))
            && offsets_near(sets@),
        LirInst::ScanWithHint { hint_bytes, .. } => hint_bytes == 0,
        LirInst::CellAddAt { off, .. } => covers(window, off as int, off as int),
        LirInst::CellSetAt { off, .. } => covers(window, off as int, off as int),
        LirInst::ZeroRun { start, count } => covers(
            window,
            start as int,
            start + count - 1,
        ) && (win ==> count < 16),
        _ => true,
    }
}

impl Program {
    /// What the first `k` instructions of LIR turn into.
    #[verifier::opaque]
    pub open spec fn body<P: PlatformEmitter>(self, platform: P, k: int) -> Step {
        lir_body(platform, self.lir, self.routines, self.next, k)
    }

    /// What instruction `k` of LIR turns into.
    #[verifier::opaque]
    pub open spec fn piece<P: PlatformEmitter>(self, platform: P, k: int) -> Step {
        let before = self.body(platform, k);
        lir_step(platform, self.lir, self.routines, self.lir[k], before.next, before.window)
    }

    /// Where instruction `k` of LIR is.
    pub open spec fn place<P: PlatformEmitter>(self, platform: P, k: int) -> int {
        self.start + self.body(platform, k).insts.len()
    }

    /// The program is as it should be, and so are its routines.
    pub open spec fn sound<P: PlatformEmitter>(
        self,
        w: World,
        platform: P,
        source: Source,
        win: bool,
    ) -> bool {
        let n = self.lir.len() as int;
        &&& labels_unique(self.code)
        &&& self.code.len() < word()
        &&& sits(self.code, self.start, self.body(platform, n).insts)
        &&& 0 <= self.ensure < self.code.len()
        &&& self.code[self.ensure] == AsmInst::Label(self.routines.ensure_tape)
        &&& 0 <= self.flush < self.code.len()
        &&& self.code[self.flush] == AsmInst::Label(self.routines.flush_output)
        &&& grows(self.code, w, self.routines.ensure_tape, win)
        &&& flushes(self.code, w, self.routines.flush_output, win)
        &&& obtains(self.code, w, platform, self.routines, source, win)
        &&& forall|m: int, l: AsmLabel|
            #[trigger] platform.put_byte_insts(m, l) == LinuxEmitter.put_byte_insts(m, l)
        &&& forall|k: int|
            0 <= k < n ==> lir_inst_ok(#[trigger] self.lir[k]) && modest(
                self.lir[k],
                self.body(platform, k).window,
                win,
            )
        &&& forall|k: int|
            0 <= k < n ==> (#[trigger] self.lir[k] matches LirInst::JumpIfZero(id) ==> exists|j: int|
                0 <= j < n && #[trigger] self.lir[j] == LirInst::Label(id))
        &&& forall|k: int|
            0 <= k < n ==> (#[trigger] self.lir[k] matches LirInst::JumpIfNonZero(id)
                ==> exists|j: int| 0 <= j < n && #[trigger] self.lir[j] == LirInst::Label(id))
    }

    /// A run is at instruction `k` of LIR: in front of it, or at its label. A search comes
    /// back to itself.
    pub open spec fn at<P: PlatformEmitter>(self, platform: P, r: Run, k: int) -> bool {
        ||| r.pc == self.place(platform, k) && known(r, self.body(platform, k).window)
        ||| {
            &&& 0 <= k < self.lir.len()
            &&& self.lir[k] is Scan || self.lir[k] is ScanWithHint
            &&& r.pc == self.place(platform, k)
        }
        ||| {
            &&& 0 <= k < self.lir.len()
            &&& self.lir[k] is Label
            &&& r.pc == self.place(platform, k + 1) - 1
        }
    }
}

/// A run has come to instruction `k` of LIR with the state of the program.
pub open spec fn met<P: PlatformEmitter>(
    p: Program,
    w: World,
    platform: P,
    b: Run,
    base: int,
    x: Site,
    t: St,
    k: int,
    win: bool,
) -> bool {
    tracks(w, b, t, (Site { base, ..x }), win) && p.at(platform, b, k)
}

/// A run goes from `r` to `b`, at instruction `k` of LIR with the state of the program
/// unless no memory was granted.
pub open spec fn takes<P: PlatformEmitter>(
    p: Program,
    w: World,
    platform: P,
    r: Run,
    x: Site,
    t: St,
    k: int,
    win: bool,
    b: Run,
    base: int,
) -> bool {
    reaches(p.code, w, r, b) && (starved(b) || met(p, w, platform, b, base, x, t, k, win))
}

/// From `r`, a run comes to instruction `k` of LIR with the state of the program, unless
/// no memory was granted.
pub open spec fn meets<P: PlatformEmitter>(
    p: Program,
    w: World,
    platform: P,
    r: Run,
    x: Site,
    t: St,
    k: int,
    win: bool,
) -> bool {
    exists|b: Run, base: int| #[trigger] takes(p, w, platform, r, x, t, k, win, b, base)
}

/// One instruction more.
proof fn lemma_more<P: PlatformEmitter>(p: Program, platform: P, k: int)
    requires
        0 <= k,
    ensures
        p.body(platform, k + 1).insts == p.body(platform, k).insts + p.piece(platform, k).insts,
        p.body(platform, k + 1).window == p.piece(platform, k).window,
{
    reveal(Program::body);
    reveal(Program::piece);
}

/// The body goes on behind a prefix.
proof fn lemma_prefix<P: PlatformEmitter>(p: Program, platform: P, k: int, n: int)
    requires
        0 <= k <= n,
    ensures
        p.body(platform, k).insts.len() <= p.body(platform, n).insts.len(),
        p.body(platform, n).insts.take(p.body(platform, k).insts.len() as int) == p.body(
            platform,
            k,
        ).insts,
    decreases n - k,
{
    let a = p.body(platform, k).insts;
    let c = p.body(platform, n).insts;
    if k < n {
        lemma_prefix(p, platform, k, n - 1);
        let b = p.body(platform, n - 1).insts;
        lemma_more(p, platform, n - 1);
        assert(c.take(a.len() as int) =~= b.take(a.len() as int));
    } else {
        assert(c.take(a.len() as int) =~= a);
    }
}

/// Every instruction's piece stands in its place.
proof fn lemma_piece<P: PlatformEmitter>(
    p: Program,
    w: World,
    platform: P,
    source: Source,
    k: int,
    win: bool,
)
    requires
        p.sound(w, platform, source, win),
        0 <= k < p.lir.len(),
    ensures
        sits(p.code, p.place(platform, k), p.piece(platform, k).insts),
        p.place(platform, k + 1) == p.place(platform, k) + p.piece(platform, k).insts.len(),
        p.body(platform, k + 1).window == p.piece(platform, k).window,
        0 <= p.place(platform, k),
{
    let n = p.lir.len() as int;
    let a = p.body(platform, k).insts;
    let one = p.piece(platform, k).insts;
    let b = p.body(platform, k + 1).insts;
    let all = p.body(platform, n).insts;
    lemma_more(p, platform, k);
    lemma_prefix(p, platform, k + 1, n);
    assert forall|i: int| 0 <= i < one.len() implies #[trigger] p.code[p.place(platform, k) + i]
        == one[i] by {
        assert(all.take(b.len() as int)[a.len() + i] == b[a.len() + i]);
        assert(p.code[p.start + (a.len() + i)] == all[a.len() + i]);
    }
}

/// Tape work that ends behind an instruction.
proof fn lemma_done<P: PlatformEmitter>(
    p: Program,
    w: World,
    platform: P,
    r: Run,
    s: St,
    x: Site,
    t: St,
    k: int,
    window: Option<(int, int)>,
    win: bool,
)
    requires
        tracks(w, r, s, x, win),
        t.trace == s.trace,
        t.reads == s.reads,
        comes(p.code, w, r, r, x, t, p.place(platform, k), window, win),
        window == p.body(platform, k).window,
    ensures
        meets(p, w, platform, r, x, t, k, win),
{
    let to = p.place(platform, k);
    let (b, base) = choose|b: Run, base: int| #[trigger]
        leads(p.code, w, r, r, x, t, to, window, win, b, base);
    if !starved(b) {
        lemma_kept(w, r, b, s, t, x, (Site { base, ..x }), win);
        assert(met(p, w, platform, b, base, x, t, k, win));
    }
    assert(takes(p, w, platform, r, x, t, k, win, b, base));
}

/// The current cell is compared with zero.
pub proof fn lemma_test(code: Seq<AsmInst>, w: World, r: Run, s: St, x: Site) -> (b: Run)
    requires
        rolls(r, s, x),
        0 <= r.pc < code.len(),
        code[r.pc] == AsmInst::CmpMem8Imm8(Reg64::R13, 0),
    ensures
        reaches(code, w, r, b),
        b.pc == r.pc + 1,
        b.cpu.zero == (s.cell() == 0),
        b.cpu.regs == r.cpu.regs,
        b.cpu.mem == r.cpu.mem,
        b.cpu.down == r.cpu.down,
        b == (Run { pc: b.pc, cpu: b.cpu, ..r }),
{
    reveal(after);
    let inst = AsmInst::CmpMem8Imm8(Reg64::R13, 0);
    lemma_plain(code, w, r, inst);
    assert(s.cells[s.ptr] == r.cpu.mem[r.cpu.regs[Reg64::R13]]);
    after(r, inst)
}

/// The pieces of labels.
proof fn lemma_label_piece<P: PlatformEmitter>(p: Program, platform: P, k: int)
    requires
        p.lir[k] is Label,
    ensures
        ({
            let one = p.piece(platform, k).insts;
            &&& one.len() == 1 || one.len() == 2 && one[0] is Align16
            &&& one[one.len() - 1] == AsmInst::Label(AsmLabel(p.lir[k]->Label_0.0))
            &&& p.piece(platform, k).window is None
        }),
{
    reveal(Program::piece);
}

/// The pieces of jumps.
proof fn lemma_jump_piece<P: PlatformEmitter>(p: Program, platform: P, k: int)
    requires
        p.lir[k] is JumpIfZero || p.lir[k] is JumpIfNonZero,
    ensures
        ({
            let one = p.piece(platform, k).insts;
            &&& one.len() == 2
            &&& one[0] == AsmInst::CmpMem8Imm8(Reg64::R13, 0)
            &&& p.lir[k] matches LirInst::JumpIfZero(id) ==> one[1] == AsmInst::Jz(AsmLabel(id.0))
            &&& p.lir[k] matches LirInst::JumpIfNonZero(id) ==> one[1] == AsmInst::Jnz(
                AsmLabel(id.0),
            )
            &&& p.piece(platform, k).window is None
        }),
{
    reveal(Program::piece);
}

/// A jump on the current cell goes to its label or on.
proof fn lemma_branch<P: PlatformEmitter>(
    p: Program,
    w: World,
    platform: P,
    r: Run,
    s: St,
    x: Site,
    k: int,
    j: int,
    source: Source,
    win: bool,
)
    requires
        p.sound(w, platform, source, win),
        0 <= k < p.lir.len(),
        0 <= j < p.lir.len(),
        tracks(w, r, s, x, win),
        r.pc == p.place(platform, k),
        p.lir[j] is Label,
        p.lir[k] == LirInst::JumpIfZero(p.lir[j]->Label_0) || p.lir[k] == LirInst::JumpIfNonZero(
            p.lir[j]->Label_0,
        ),
    ensures
        (p.lir[k] is JumpIfZero) == (s.cell() == 0) ==> meets(p, w, platform, r, x, s, j, win),
        (p.lir[k] is JumpIfZero) != (s.cell() == 0) ==> meets(p, w, platform, r, x, s, k + 1, win),
{
    let code = p.code;
    lemma_piece(p, w, platform, source, k, win);
    lemma_piece(p, w, platform, source, j, win);
    let here = p.place(platform, k);
    let one = p.piece(platform, k).insts;
    lemma_jump_piece(p, platform, k);
    lemma_label_piece(p, platform, j);
    assert(code[here + 0] == one[0] && code[here + 1] == one[1]);
    let there = p.place(platform, j + 1) - 1;
    let target = p.piece(platform, j).insts;
    assert(code[p.place(platform, j) + (target.len() - 1)] == target[target.len() - 1]);
    let b = lemma_test(code, w, r, s, x);
    lemma_jump(code, w, b, there);
    let go = (p.lir[k] is JumpIfZero) == (s.cell() == 0);
    let c = Run {
        pc: if go {
            there
        } else {
            here + 2
        },
        ..b
    };
    lemma_then(code, w, r, b, c);
    lemma_kept(w, r, c, s, s, x, x, win);
    assert((Site { base: x.base, ..x }) == x);
    let to = if go {
        j
    } else {
        k + 1
    };
    assert(met(p, w, platform, c, x.base, x, s, to, win));
    assert(takes(p, w, platform, r, x, s, to, win, c, x.base));
}

/// A label is passed.
proof fn lemma_turn_label<P: PlatformEmitter>(
    p: Program,
    w: World,
    platform: P,
    r: Run,
    s: St,
    x: Site,
    k: int,
    source: Source,
    win: bool,
)
    requires
        p.sound(w, platform, source, win),
        0 <= k < p.lir.len(),
        p.lir[k] is Label,
        tracks(w, r, s, x, win),
        p.at(platform, r, k),
    ensures
        meets(p, w, platform, r, x, s, k + 1, win),
{
    lemma_piece(p, w, platform, source, k, win);
    lemma_label_piece(p, platform, k);
    let here = p.place(platform, k);
    let one = p.piece(platform, k).insts;
    assert(p.code[here + 0] == one[0]);
    assert(p.code[here + (one.len() - 1)] == one[one.len() - 1]);
    let last = here + one.len() - 1;
    let m = Run { pc: last, ..r };
    if r.pc == last {
        lemma_here(p.code, w, r);
    } else {
        lemma_pass(p.code, w, r);
    }
    let b = Run { pc: last + 1, ..m };
    lemma_pass(p.code, w, m);
    lemma_then(p.code, w, r, m, b);
    lemma_kept(w, r, b, s, s, x, x, win);
    assert((Site { base: x.base, ..x }) == x);
    assert(met(p, w, platform, b, x.base, x, s, k + 1, win));
    assert(takes(p, w, platform, r, x, s, k + 1, win, b, x.base));
}

/// Input and output.
proof fn lemma_turn_io<P: PlatformEmitter>(
    p: Program,
    w: World,
    platform: P,
    r: Run,
    s: St,
    x: Site,
    k: int,
    source: Source,
    win: bool,
)
    requires
        p.sound(w, platform, source, win),
        0 <= k < p.lir.len(),
        p.lir[k] is PutByte || p.lir[k] is GetByte,
        tracks(w, r, s, x, win),
        r.pc == p.place(platform, k),
    ensures
        p.lir[k] is PutByte ==> meets(p, w, platform, r, x, s.wrote(), k + 1, win),
        p.lir[k] is GetByte ==> meets(
            p,
            w,
            platform,
            r,
            x,
            s.read(source(s.reads)),
            k + 1,
            win,
        ),
{
    lemma_piece(p, w, platform, source, k, win);
    let next = p.body(platform, k).next;
    let flush = p.routines.flush_output;
    assert((Site { base: x.base, ..x }) == x);
    reveal(Program::piece);
    if p.lir[k] is PutByte {
        assert(platform.put_byte_insts(next, flush) == LinuxEmitter.put_byte_insts(next, flush));
        let b = lemma_put_byte(p.code, w, r, s, x, next, flush, p.flush, win);
        assert(met(p, w, platform, b, x.base, x, s.wrote(), k + 1, win));
        assert(takes(p, w, platform, r, x, s.wrote(), k + 1, win, b, x.base));
    } else {
        assert(may_get(p.code, w, platform, p.routines, r, s, x, next, win));
        let t = s.read(source(s.reads));
        let to = r.pc + platform.get_byte_insts(next, p.routines.exit_one, flush).len();
        let b = choose|b: Run|
            reaches(p.code, w, r, b) && #[trigger] stands_well(w, b, t, x, to, win);
        assert(met(p, w, platform, b, x.base, x, t, k + 1, win));
        assert(takes(p, w, platform, r, x, t, k + 1, win, b, x.base));
    }
}

/// Moves of the data pointer.
proof fn lemma_turn_move<P: PlatformEmitter>(
    p: Program,
    w: World,
    platform: P,
    r: Run,
    s: St,
    x: Site,
    k: int,
    source: Source,
    win: bool,
)
    requires
        p.sound(w, platform, source, win),
        0 <= k < p.lir.len(),
        p.lir[k] is PtrAdd || p.lir[k] is PtrAddChecked,
        tracks(w, r, s, x, win),
        r.pc == p.place(platform, k),
        known(r, p.body(platform, k).window),
    ensures
        p.lir[k] matches LirInst::PtrAdd(n) ==> meets(
            p,
            w,
            platform,
            r,
            x,
            s.moved(n as int),
            k + 1,
            win,
        ),
        p.lir[k] matches LirInst::PtrAddChecked { delta, .. } ==> meets(
            p,
            w,
            platform,
            r,
            x,
            s.moved(delta as int),
            k + 1,
            win,
        ),
{
    lemma_piece(p, w, platform, source, k, win);
    assert(lir_inst_ok(p.lir[k]) && modest(p.lir[k], p.body(platform, k).window, win));
    reveal(Program::piece);
    let before = p.body(platform, k);
    let window = before.window;
    let after_ = p.piece(platform, k).window;
    let ensure = p.routines.ensure_tape;
    match p.lir[k] {
        LirInst::PtrAdd(n) => {
            if n == 0 {
                lemma_here(p.code, w, r);
                assert(s.moved(0) == s);
                lemma_idles(r, r, s, x, window, win);
                lemma_arrives(p.code, w, r, r, x, r, x.base, s, r.pc, window, win);
            } else if covers(window, n as int, n as int) {
                lemma_move(p.code, w, r, s, x, n as int, window, win);
            } else {
                lemma_ptr_add(
                    p.code,
                    w,
                    r,
                    s,
                    x,
                    before.next,
                    n as int,
                    ensure,
                    p.ensure,
                    win,
                );
            }
            lemma_done(p, w, platform, r, s, x, s.moved(n as int), k + 1, after_, win);
        },
        LirInst::PtrAddChecked { delta, lo_extent, hi_extent } => {
            let lo = lo_extent as int;
            let hi = hi_extent as int;
            let d = delta as int;
            if covers(window, lo, hi) {
                let both = checked_window(window, 0, lo, hi);
                assert(known(r, both));
                lemma_move(p.code, w, r, s, x, d, both, win);
            } else {
                lemma_ptr_add_checked(
                    p.code,
                    w,
                    r,
                    s,
                    x,
                    before.next,
                    d,
                    lo,
                    hi,
                    ensure,
                    p.ensure,
                    window,
                    win,
                );
            }
            lemma_done(p, w, platform, r, s, x, s.moved(d), k + 1, after_, win);
        },
        _ => {},
    }
}

/// Cells cleared one by one.
proof fn lemma_zero_stores(
    code: Seq<AsmInst>,
    w: World,
    r: Run,
    s: St,
    x: Site,
    start: i32,
    count: u32,
    k: int,
    window: Option<(int, int)>,
    win: bool,
)
    requires
        0 <= k <= count < 16,
        start + count - 1 <= i32::MAX,
        sits(code, r.pc, zero_run_insts(start, count)),
        rolls(r, s, x),
        known(r, window),
        tape(r).0 <= r.cpu.regs[Reg64::R13] + start,
        r.cpu.regs[Reg64::R13] + start + count - 1 < tape(r).1,
    ensures
        comes(code, w, r, r, x, zeroed(s, start as int, k), r.pc + k, window, win),
    decreases k,
{
    if k == 0 {
        lemma_here(code, w, r);
        lemma_idles(r, r, s, x, window, win);
        lemma_arrives(code, w, r, r, x, r, x.base, s, r.pc, window, win);
    } else {
        lemma_zero_stores(code, w, r, s, x, start, count, k - 1, window, win);
        let t = zeroed(s, start as int, k - 1);
        let u = zeroed(s, start as int, k);
        let at = r.pc + k - 1;
        let (b, base) = choose|b: Run, base: int| #[trigger]
            leads(code, w, r, r, x, t, at, window, win, b, base);
        assert(code[r.pc + (k - 1)] == zero_run_insts(start, count)[k - 1]);
        if starved(b) {
            assert(leads(code, w, r, r, x, u, at + 1, window, win, b, base));
        } else {
            lemma_zeroed_ptr(s, start as int, k - 1);
            lemma_set_at(code, w, b, t, (Site { base, ..x }), start + k - 1, 0, window, win);
            lemma_comes_from(code, w, r, r, x, b, base, t, at, window, u, at + 1, window, win);
        }
    }
}

/// Clearing cells moves nothing else.
proof fn lemma_zeroed_ptr(s: St, start: int, n: int)
    ensures
        zeroed(s, start, n).ptr == s.ptr,
        zeroed(s, start, n).trace == s.trace,
        zeroed(s, start, n).reads == s.reads,
    decreases n,
{
    if n > 0 {
        lemma_zeroed_ptr(s, start, n - 1);
    }
}

/// Changes of cells.
proof fn lemma_turn_cell<P: PlatformEmitter>(
    p: Program,
    w: World,
    platform: P,
    r: Run,
    s: St,
    x: Site,
    k: int,
    source: Source,
    win: bool,
)
    requires
        p.sound(w, platform, source, win),
        0 <= k < p.lir.len(),
        tracks(w, r, s, x, win),
        r.pc == p.place(platform, k),
        known(r, p.body(platform, k).window),
        p.lir[k] is CellAdd || p.lir[k] is CellSet || p.lir[k] is CellAddAt || p.lir[k]
            is CellSetAt || p.lir[k] is ZeroRun,
    ensures
        meets(p, w, platform, r, x, lir_effect(lir_view(p.lir[k]), s, 0), k + 1, win),
{
    lemma_piece(p, w, platform, source, k, win);
    assert(lir_inst_ok(p.lir[k]) && modest(p.lir[k], p.body(platform, k).window, win));
    reveal(Program::piece);
    let window = p.body(platform, k).window;
    let one = p.piece(platform, k).insts;
    let t = lir_effect(lir_view(p.lir[k]), s, 0);
    if one.len() > 0 {
        assert(p.code[r.pc + 0] == one[0]);
    }
    match p.lir[k] {
        LirInst::CellAdd(n) => {
            lemma_cell_add(p.code, w, r, s, x, n as int, window, win);
        },
        LirInst::CellSet(v) => {
            lemma_set_at(p.code, w, r, s, x, 0, v, window, win);
        },
        LirInst::CellAddAt { off, delta } => {
            if delta as int % 256 == 0 {
                lemma_cell_idle(p.code, w, r, s, x, off as int, delta as int, window, win);
            } else {
                lemma_add_at(p.code, w, r, s, x, off as int, delta as int, window, win);
            }
        },
        LirInst::CellSetAt { off, val } => {
            lemma_set_at(p.code, w, r, s, x, off as int, val, window, win);
        },
        LirInst::ZeroRun { start, count } => {
            if count < 16 {
                lemma_zero_stores(p.code, w, r, s, x, start, count, count as int, window, win);
            } else {
                law_long_clearings_clear_their_cells(p.code, w, r, s, x, start, count, window);
            }
            lemma_zeroed_ptr(s, start as int, count as int);
        },
        _ => {},
    }
    lemma_done(p, w, platform, r, s, x, t, k + 1, window, win);
}

/// Adding a multiple of 256 changes nothing.
proof fn lemma_cell_idle(
    code: Seq<AsmInst>,
    w: World,
    r: Run,
    s: St,
    x: Site,
    off: int,
    n: int,
    window: Option<(int, int)>,
    win: bool,
)
    requires
        rolls(r, s, x),
        known(r, window),
        n % 256 == 0,
        tape(r).0 <= r.cpu.regs[Reg64::R13] + off < tape(r).1,
    ensures
        comes(code, w, r, r, x, s.add_at(off, n), r.pc, window, win),
{
    let t = s.add_at(off, n);
    let c = r.cpu.mem[r.cpu.regs[Reg64::R13] + off];
    assert(s.cells[s.ptr + off] == c);
    assert(0 <= c < 256);
    vstd::arithmetic::div_mod::lemma_add_mod_noop_right(c, n, 256);
    assert((c + n) % 256 == c);
    lemma_here(code, w, r);
    assert(mirrors(r.cpu.mem, t, x.base, tape(r).0, tape(r).1)) by {
        assert forall|i: int|
            #[trigger] t.cells[i] == (if tape(r).0 <= x.base + i < tape(r).1 {
                r.cpu.mem[x.base + i]
            } else {
                0
            }) by {
            assert(s.cells[i] == (if tape(r).0 <= x.base + i < tape(r).1 {
                r.cpu.mem[x.base + i]
            } else {
                0
            }));
        }
    }
    assert(arrived(r, x, r, x.base, t, r.pc, window, win));
    lemma_arrives(code, w, r, r, x, r, x.base, t, r.pc, window, win);
}

/// Spreading and clearing move nothing else.
proof fn lemma_spread_rest(s: St, factors: Seq<(int, int)>, v: int, n: int)
    ensures
        s.spread(factors, v, n).ptr == s.ptr,
        s.spread(factors, v, n).trace == s.trace,
        s.spread(factors, v, n).reads == s.reads,
    decreases n,
{
    if n > 0 {
        lemma_spread_rest(s, factors, v, n - 1);
    }
}

proof fn lemma_cleared_rest(s: St, sets: Seq<int>, n: int)
    ensures
        s.cleared(sets, n).ptr == s.ptr,
        s.cleared(sets, n).trace == s.trace,
        s.cleared(sets, n).reads == s.reads,
    decreases n,
{
    if n > 0 {
        lemma_cleared_rest(s, sets, n - 1);
    }
}

/// Linear multiplication.
proof fn lemma_turn_linear<P: PlatformEmitter>(
    p: Program,
    w: World,
    platform: P,
    r: Run,
    s: St,
    x: Site,
    k: int,
    source: Source,
    win: bool,
)
    requires
        p.sound(w, platform, source, win),
        0 <= k < p.lir.len(),
        tracks(w, r, s, x, win),
        r.pc == p.place(platform, k),
        known(r, p.body(platform, k).window),
        p.lir[k] is LinearMul,
    ensures
        meets(p, w, platform, r, x, lir_effect(lir_view(p.lir[k]), s, 0), k + 1, win),
{
    lemma_piece(p, w, platform, source, k, win);
    assert(lir_inst_ok(p.lir[k]) && modest(p.lir[k], p.body(platform, k).window, win));
    reveal(Program::piece);
    let before = p.body(platform, k);
    let one = p.piece(platform, k).insts;
    let factors = p.lir[k]->LinearMul_0@;
    let t = s.multiplied(factors_view(factors));
    let after_ = p.piece(platform, k).window;
    if factors.len() == 0 {
        assert(p.code[r.pc + 0] == one[0]);
        lemma_set_at(p.code, w, r, s, x, 0, 0, before.window, win);
        assert(t == s.set_at(0, 0));
    } else {
        let none = Seq::<isize>::empty();
        lemma_linear(
            p.code,
            w,
            r,
            s,
            x,
            factors,
            none,
            before.next,
            platform.aligns_rsp(),
            p.routines.ensure_tape,
            p.ensure,
            win,
        );
        assert(t.cleared(sets_view(none), 0) == t);
    }
    lemma_spread_rest(s.set_at(0, 0), factors_view(factors), s.cell(), factors.len() as int);
    lemma_done(p, w, platform, r, s, x, t, k + 1, after_, win);
}

/// The instructions of a linear multiplication where the cell is not zero.
spec fn guarded_insts(
    factors: Seq<(isize, i32)>,
    sets: Seq<isize>,
    next: int,
    aligned: bool,
    ensure: AsmLabel,
) -> Seq<AsmInst> {
    seq![AsmInst::CmpMem8Imm8(Reg64::R13, 0), AsmInst::Jz(internal(next, 0))] + multiplicand_frame(
        aligned,
        linear_inner_insts(factors, sets, next - 1, ensure),
    ) + seq![AsmInst::Label(internal(next, 0))]
}

/// Running them.
proof fn lemma_guarded(
    code: Seq<AsmInst>,
    w: World,
    r: Run,
    s: St,
    x: Site,
    factors: Seq<(isize, i32)>,
    sets: Seq<isize>,
    next: int,
    aligned: bool,
    ensure: AsmLabel,
    j: int,
    win: bool,
)
    requires
        labels_unique(code),
        code.len() < word(),
        grows(code, w, ensure, win),
        0 <= j < code.len(),
        code[j] == AsmInst::Label(ensure),
        rolls(r, s, x),
        x.zone.0 + 144 <= x.sp,
        0 <= r.cpu.regs[Reg64::Rbx] < word(),
        offsets_near(offsets_of(factors)),
        offsets_near(sets),
        sits(code, r.pc, guarded_insts(factors, sets, next, aligned, ensure)),
    ensures
        comes(
            code,
            w,
            r,
            r,
            x,
            s.multiplied_with_sets(factors_view(factors), sets_view(sets)),
            r.pc + guarded_insts(factors, sets, next, aligned, ensure).len(),
            None,
            win,
        ),
{
    let t = s.multiplied_with_sets(factors_view(factors), sets_view(sets));
    let head = seq![AsmInst::CmpMem8Imm8(Reg64::R13, 0), AsmInst::Jz(internal(next, 0))];
    let inner = multiplicand_frame(aligned, linear_inner_insts(factors, sets, next - 1, ensure));
    let tail = seq![AsmInst::Label(internal(next, 0))];
    assert(guarded_insts(factors, sets, next, aligned, ensure) =~= head + (inner + tail));
    lemma_parts(code, r.pc, head, inner + tail);
    lemma_parts(code, r.pc + 2, inner, tail);
    let last = r.pc + 2 + inner.len();
    assert(code[r.pc + 0] == head[0] && code[r.pc + 1] == head[1]);
    assert(code[last + 0] == tail[0]);
    let b = lemma_test(code, w, r, s, x);
    lemma_jump(code, w, b, last);
    let c = Run {
        pc: if s.cell() == 0 {
            last
        } else {
            r.pc + 2
        },
        ..b
    };
    lemma_then(code, w, r, b, c);
    lemma_idles(r, c, s, x, None, win);
    assert((Site { base: x.base, ..x }) == x);
    if s.cell() == 0 {
        lemma_arrives(code, w, r, r, x, c, x.base, t, last, None, win);
    } else {
        lemma_linear(code, w, c, s, x, factors, sets, next - 1, aligned, ensure, j, win);
        lemma_forget(code, w, c, c, x, t, last, linear_window(factors, sets), win);
        lemma_comes_from(code, w, r, r, x, c, x.base, s, c.pc, None, t, last, None, win);
    }
    lemma_comes_pass(code, w, r, r, x, t, last, None, win);
}

/// Linear multiplication where the cell is not zero, with cells cleared.
proof fn lemma_turn_linear_sets<P: PlatformEmitter>(
    p: Program,
    w: World,
    platform: P,
    r: Run,
    s: St,
    x: Site,
    k: int,
    source: Source,
    win: bool,
)
    requires
        p.sound(w, platform, source, win),
        0 <= k < p.lir.len(),
        tracks(w, r, s, x, win),
        r.pc == p.place(platform, k),
        p.lir[k] is LinearMulWithSets,
    ensures
        meets(p, w, platform, r, x, lir_effect(lir_view(p.lir[k]), s, 0), k + 1, win),
{
    lemma_piece(p, w, platform, source, k, win);
    assert(lir_inst_ok(p.lir[k]) && modest(p.lir[k], p.body(platform, k).window, win));
    let before = p.body(platform, k);
    let factors = p.lir[k]->LinearMulWithSets_factors@;
    let sets = p.lir[k]->LinearMulWithSets_sets@;
    let ensure = p.routines.ensure_tape;
    let aligned = platform.aligns_rsp();
    assert(p.piece(platform, k).insts == guarded_insts(factors, sets, before.next, aligned, ensure)
        && p.piece(platform, k).window is None) by {
        reveal(Program::piece);
    }
    let t = s.multiplied_with_sets(factors_view(factors), sets_view(sets));
    lemma_guarded(
        p.code,
        w,
        r,
        s,
        x,
        factors,
        sets,
        before.next,
        aligned,
        ensure,
        p.ensure,
        win,
    );
    lemma_spread_rest(s.set_at(0, 0), factors_view(factors), s.cell(), factors.len() as int);
    lemma_cleared_rest(
        s.multiplied(factors_view(factors)),
        sets_view(sets),
        sets.len() as int,
    );
    lemma_done(p, w, platform, r, s, x, t, k + 1, None, win);
}

/// What is known need not be told.
proof fn lemma_forget(
    code: Seq<AsmInst>,
    w: World,
    from: Run,
    a: Run,
    x: Site,
    s: St,
    to: int,
    window: Option<(int, int)>,
    win: bool,
)
    requires
        comes(code, w, from, a, x, s, to, window, win),
    ensures
        comes(code, w, from, a, x, s, to, None, win),
{
    let (b, base) = choose|b: Run, base: int| #[trigger]
        leads(code, w, from, a, x, s, to, window, win, b, base);
    assert(leads(code, w, from, a, x, s, to, None, win, b, base));
}

/// One round of a search: behind it where the cell is zero, else one cell on.
proof fn lemma_scan(
    code: Seq<AsmInst>,
    w: World,
    r: Run,
    s: St,
    x: Site,
    next: int,
    d: int,
    ensure: AsmLabel,
    j: int,
    win: bool,
)
    requires
        labels_unique(code),
        code.len() < word(),
        grows(code, w, ensure, win),
        0 <= j < code.len(),
        code[j] == AsmInst::Label(ensure),
        rolls(r, s, x),
        d == 1 || d == -1,
        sits(code, r.pc, scan_loop_insts(next, d, ensure)),
    ensures
        s.cell() == 0 ==> comes(
            code,
            w,
            r,
            r,
            x,
            s,
            r.pc + scan_loop_insts(next, d, ensure).len(),
            None,
            win,
        ),
        s.cell() != 0 ==> comes(code, w, r, r, x, s.moved(d), r.pc, None, win),
{
    let head = seq![
        AsmInst::Label(internal(next, 0)),
        AsmInst::CmpMem8Imm8(Reg64::R13, 0),
        AsmInst::Jz(internal(next, 1)),
    ];
    let go = ptr_add_insts(next - 2, d, ensure);
    let tail = seq![AsmInst::Jmp(internal(next, 0)), AsmInst::Label(internal(next, 1))];
    let p = r.pc;
    assert(scan_loop_insts(next, d, ensure) =~= head + (go + tail));
    lemma_parts(code, p, head, go + tail);
    lemma_parts(code, p + 3, go, tail);
    let q = p + 3 + go.len();
    assert(code[p + 0] == head[0] && code[p + 1] == head[1] && code[p + 2] == head[2]);
    assert(code[q + 0] == tail[0] && code[q + 1] == tail[1]);
    let a = Run { pc: p + 1, ..r };
    lemma_pass(code, w, r);
    let b = lemma_test(code, w, a, s, x);
    lemma_then(code, w, r, a, b);
    lemma_jump(code, w, b, q + 1);
    let c = Run {
        pc: if s.cell() == 0 {
            q + 1
        } else {
            p + 3
        },
        ..b
    };
    lemma_then(code, w, r, b, c);
    lemma_idles(r, c, s, x, None, win);
    assert((Site { base: x.base, ..x }) == x);
    if s.cell() == 0 {
        lemma_arrives(code, w, r, r, x, c, x.base, s, q + 1, None, win);
        lemma_comes_pass(code, w, r, r, x, s, q + 1, None, win);
    } else {
        lemma_ptr_add(code, w, c, s, x, next - 2, d, ensure, j, win);
        lemma_comes_from(code, w, r, r, x, c, x.base, s, p + 3, None, s.moved(d), q, None, win);
        lemma_comes_jump(
            code,
            w,
            r,
            r,
            x,
            s.moved(d),
            q,
            None,
            win,
            internal(next, 0),
            p,
        );
    }
}

/// A search.
proof fn lemma_turn_scan<P: PlatformEmitter>(
    p: Program,
    w: World,
    platform: P,
    r: Run,
    s: St,
    x: Site,
    k: int,
    d: int,
    source: Source,
    win: bool,
)
    requires
        p.sound(w, platform, source, win),
        0 <= k < p.lir.len(),
        tracks(w, r, s, x, win),
        r.pc == p.place(platform, k),
        p.lir[k] is Scan || p.lir[k] is ScanWithHint,
        d == (match p.lir[k] {
            LirInst::Scan(d) => d as int,
            LirInst::ScanWithHint { dir, .. } => dir as int,
            _ => 0,
        }),
    ensures
        s.cell() == 0 ==> meets(p, w, platform, r, x, s, k + 1, win),
        s.cell() != 0 ==> meets(p, w, platform, r, x, s.moved(d), k, win),
{
    lemma_piece(p, w, platform, source, k, win);
    assert(lir_inst_ok(p.lir[k]) && modest(p.lir[k], p.body(platform, k).window, win));
    reveal(Program::piece);
    let before = p.body(platform, k);
    let ensure = p.routines.ensure_tape;
    let one = scan_loop_insts(before.next, d, ensure);
    assert(p.piece(platform, k).insts =~= one);
    lemma_scan(p.code, w, r, s, x, before.next, d, ensure, p.ensure, win);
    if s.cell() == 0 {
        lemma_done(p, w, platform, r, s, x, s, k + 1, None, win);
    } else {
        let t = s.moved(d);
        let (b, base) = choose|b: Run, base: int| #[trigger]
            leads(p.code, w, r, r, x, t, r.pc, None, win, b, base);
        if !starved(b) {
            lemma_kept(w, r, b, s, t, x, (Site { base, ..x }), win);
            assert(met(p, w, platform, b, base, x, t, k, win));
        }
        assert(takes(p, w, platform, r, x, t, k, win, b, base));
    }
}

/// One step of a LIR program.
proof fn lemma_turn<P: PlatformEmitter>(
    p: Program,
    w: World,
    platform: P,
    r: Run,
    s: St,
    x: Site,
    k: int,
    source: Source,
    win: bool,
)
    requires
        p.sound(w, platform, source, win),
        0 <= k < p.lir.len(),
        tracks(w, r, s, x, win),
        p.at(platform, r, k),
    ensures
        ({
            let (k2, t) = lir_turn(lirs_view(p.lir), k, s, source(s.reads));
            0 <= k2 <= p.lir.len() && meets(p, w, platform, r, x, t, k2, win)
        }),
{
    let all = lirs_view(p.lir);
    assert(all[k] == lir_view(p.lir[k]));
    match p.lir[k] {
        LirInst::Label(_) => {
            lemma_turn_label(p, w, platform, r, s, x, k, source, win);
        },
        LirInst::PutByte | LirInst::GetByte => {
            lemma_turn_io(p, w, platform, r, s, x, k, source, win);
        },
        LirInst::PtrAdd(_) | LirInst::PtrAddChecked { .. } => {
            lemma_turn_move(p, w, platform, r, s, x, k, source, win);
        },
        LirInst::LinearMul(_) => {
            lemma_turn_linear(p, w, platform, r, s, x, k, source, win);
        },
        LirInst::LinearMulWithSets { .. } => {
            lemma_turn_linear_sets(p, w, platform, r, s, x, k, source, win);
        },
        LirInst::Scan(d) => {
            lemma_turn_scan(p, w, platform, r, s, x, k, d as int, source, win);
        },
        LirInst::ScanWithHint { dir, .. } => {
            lemma_turn_scan(p, w, platform, r, s, x, k, dir as int, source, win);
        },
        LirInst::JumpIfZero(id) | LirInst::JumpIfNonZero(id) => {
            let j0 = choose|j: int| 0 <= j < p.lir.len() && #[trigger] p.lir[j] == LirInst::Label(id);
            assert(all[j0] == Lir::Label(id.0 as int));
            let j = place_of(all, id.0 as int);
            assert(0 <= j < all.len() && all[j] == Lir::Label(id.0 as int));
            assert(all[j] == lir_view(p.lir[j]));
            assert(p.lir[j] == LirInst::Label(id));
            lemma_branch(p, w, platform, r, s, x, k, j, source, win);
        },
        _ => {
            lemma_turn_cell(p, w, platform, r, s, x, k, source, win);
        },
    }
}

/// Running the instructions of a LIR program reaches the state and the output of the
/// program: where the program ends, the run comes to the end of its body, with the
/// program's cells on the tape, with everything it wrote gone out or waiting in the buffer,
/// and with as many bytes read; unless the system refused memory, which ends the run with
/// status 1.
pub proof fn law_running_the_code_runs_the_program<P: PlatformEmitter>(
    p: Program,
    w: World,
    platform: P,
    r: Run,
    s: St,
    x: Site,
    k: int,
    source: Source,
    n: nat,
    win: bool,
)
    requires
        p.sound(w, platform, source, win),
        0 <= k <= p.lir.len(),
        tracks(w, r, s, x, win),
        p.at(platform, r, k),
        lir_run(lirs_view(p.lir), k, s, source, n).0 == p.lir.len(),
    ensures
        meets(
            p,
            w,
            platform,
            r,
            x,
            lir_run(lirs_view(p.lir), k, s, source, n).1,
            p.lir.len() as int,
            win,
        ),
    decreases n,
{
    let all = lirs_view(p.lir);
    let len = p.lir.len() as int;
    let t = lir_run(all, k, s, source, n).1;
    if k == len {
        lemma_here(p.code, w, r);
        assert((Site { base: x.base, ..x }) == x);
        assert(met(p, w, platform, r, x.base, x, s, len, win));
        assert(takes(p, w, platform, r, x, s, len, win, r, x.base));
    } else {
        lemma_turn(p, w, platform, r, s, x, k, source, win);
        let (k2, s2) = lir_turn(all, k, s, source(s.reads));
        let (b, base) = choose|b: Run, base: int| #[trigger]
            takes(p, w, platform, r, x, s2, k2, win, b, base);
        if starved(b) {
            assert(takes(p, w, platform, r, x, t, len, win, b, base));
        } else {
            let y = Site { base, ..x };
            law_running_the_code_runs_the_program(
                p,
                w,
                platform,
                b,
                s2,
                y,
                k2,
                source,
                (n - 1) as nat,
                win,
            );
            let (c, base2) = choose|c: Run, base2: int| #[trigger]
                takes(p, w, platform, b, y, t, len, win, c, base2);
            lemma_then(p.code, w, r, b, c);
            if !starved(c) {
                assert((Site { base: base2, ..y }) == (Site { base: base2, ..x }));
                assert(met(p, w, platform, c, base2, x, t, len, win));
            }
            assert(takes(p, w, platform, r, x, t, len, win, c, base2));
        }
    }
}

} // verus!
