//! Running the instructions of input and output.

use vstd::prelude::*;

use crate::backend::asm_ir::{AsmInst, AsmLabel, Reg64};
use crate::backend::codegen::{flush_output_insts, LinuxEmitter};
use crate::backend::codegen_common::PlatformEmitter;
use crate::backend::run_laws::{buffer, bytewise, keeps, mirrors, rolls, sits, tape, Site};
use crate::backend::x86_64::encode::labels_unique;
use crate::backend::x86_64::machine::{
    after, bytes_at, lemma_call, lemma_jump, lemma_pass, lemma_plain, lemma_return,
    lemma_same_load, lemma_stored, lemma_syscall, lemma_then, linux_call, load64, reaches,
    store64, word, Run, World,
};
use crate::interp::machine::{written_bytes, Source, St};

verus! {

/// The bytes that wait in the output buffer.
pub open spec fn pending(r: Run) -> Seq<int> {
    bytes_at(r.cpu.mem, buffer(r).0, r.cpu.regs[Reg64::Rbx] - buffer(r).0)
}

/// On Windows, the handles are where they belong, and the slot of the fifth argument is
/// zero.
pub open spec fn handled(w: World, r: Run, x: Site) -> bool {
    &&& r.cpu.regs[Reg64::Rdi] == (w.handle)(-11)
    &&& r.cpu.regs[Reg64::Rsi] == (w.handle)(-10)
    &&& load64(r.cpu.mem, x.sp + 32) == 0
}

/// A run has the state of the LIR program: the cells on its tape, what it wrote in what
/// has gone out and what waits to, and what it has read.
pub open spec fn tracks(w: World, r: Run, s: St, x: Site, win: bool) -> bool {
    &&& rolls(r, s, x)
    &&& x.zone.0 + 256 <= x.sp
    &&& buffer(r).0 <= r.cpu.regs[Reg64::Rbx] < buffer(r).1
    &&& r.out + pending(r) == written_bytes(s.trace)
    &&& r.reads == s.reads
    &&& win ==> handled(w, r, x)
}

/// The tape work of a run keeps the rest of its state.
pub proof fn lemma_kept(w: World, a: Run, b: Run, s: St, t: St, x: Site, y: Site, win: bool)
    requires
        tracks(w, a, s, x, win),
        keeps(a, b, x, win),
        rolls(b, t, y),
        y.sp == x.sp,
        y.zone == x.zone,
        t.trace == s.trace,
        t.reads == s.reads,
    ensures
        tracks(w, b, t, y, win),
{
    assert(pending(a) =~= pending(b)) by {
        assert forall|i: int| 0 <= i < pending(a).len() implies pending(a)[i] == pending(b)[i] by {
            assert(a.cpu.mem[buffer(a).0 + i] == b.cpu.mem[buffer(a).0 + i]);
        }
    }
    if win {
        assert forall|q: int| x.sp + 32 <= q < x.sp + 40 implies #[trigger] b.cpu.mem[q]
            == a.cpu.mem[q] by {
            assert(a.cpu.mem[q] == b.cpu.mem[q]);
        }
        lemma_same_load(b.cpu.mem, a.cpu.mem, x.sp + 32);
    }
}

/// The run behind a call of the flush routine.
pub open spec fn flushed(w: World, r: Run, b: Run, s: St, x: Site, to: int, win: bool) -> bool {
    &&& b.pc == to
    &&& rolls(b, s, x)
    &&& b.out == r.out + pending(r)
    &&& b.reads == r.reads
    &&& b.cpu.regs[Reg64::Rbp] == r.cpu.regs[Reg64::Rbp]
    &&& b.cpu.regs[Reg64::Rbx] == buffer(r).0
    &&& win ==> handled(w, b, x)
}

/// The flush routine may be called.
pub open spec fn may_flush(
    code: Seq<AsmInst>,
    w: World,
    flush: AsmLabel,
    r: Run,
    s: St,
    x: Site,
    j: int,
    back: int,
    win: bool,
) -> bool {
    &&& rolls(r, s, x)
    &&& x.zone.0 + 256 <= x.sp
    &&& buffer(r).0 <= r.cpu.regs[Reg64::Rbx] <= buffer(r).1
    &&& win ==> handled(w, r, x)
    &&& 0 <= back < word()
    &&& 0 <= j < code.len()
    &&& code[j] == AsmInst::Label(flush)
}

/// The flush routine does what it is for: it writes the bytes of the buffer to standard
/// output, and the buffer is empty.
pub open spec fn flushes(code: Seq<AsmInst>, w: World, flush: AsmLabel, win: bool) -> bool {
    forall|r: Run, s: St, x: Site, j: int, back: int|
        #![trigger may_flush(code, w, flush, r, s, x, j, back, win)]
        may_flush(code, w, flush, r, s, x, j, back, win) ==> exists|b: Run|
            reaches(code, w, (Run { pc: j, cpu: r.cpu.pushed(back), ..r }), b)
                && #[trigger] flushed(w, r, b, s, x, back, win)
}

/// The flush routine is called.
pub proof fn lemma_flush(
    code: Seq<AsmInst>,
    w: World,
    r: Run,
    s: St,
    x: Site,
    flush: AsmLabel,
    j: int,
    win: bool,
) -> (b: Run)
    requires
        labels_unique(code),
        code.len() < word(),
        flushes(code, w, flush, win),
        rolls(r, s, x),
        x.zone.0 + 256 <= x.sp,
        buffer(r).0 <= r.cpu.regs[Reg64::Rbx] <= buffer(r).1,
        win ==> handled(w, r, x),
        0 <= j < code.len(),
        code[j] == AsmInst::Label(flush),
        0 <= r.pc < code.len(),
        code[r.pc] == AsmInst::Call(flush),
    ensures
        reaches(code, w, r, b),
        flushed(w, r, b, s, x, r.pc + 1, win),
{
    let back = r.pc + 1;
    lemma_call(code, w, r, flush, j);
    assert(may_flush(code, w, flush, r, s, x, j, back, win));
    let m = Run { pc: j, cpu: r.cpu.pushed(back), ..r };
    let b = choose|b: Run|
        reaches(code, w, m, b) && #[trigger] flushed(w, r, b, s, x, back, win);
    lemma_then(code, w, r, m, b);
    b
}

/// Writes into the stack leave the tape.
pub proof fn lemma_off_tape(r: Run, mem: Map<int, int>, s: St, x: Site)
    requires
        rolls(r, s, x),
        forall|y: int| x.zone.0 <= y < x.zone.1 || #[trigger] mem[y] == r.cpu.mem[y],
    ensures
        mirrors(mem, s, x.base, tape(r).0, tape(r).1),
{
    assert forall|i: int|
        #[trigger] s.cells[i] == (if tape(r).0 <= x.base + i < tape(r).1 {
            mem[x.base + i]
        } else {
            0
        }) by {
        assert(s.cells[i] == (if tape(r).0 <= x.base + i < tape(r).1 {
            r.cpu.mem[x.base + i]
        } else {
            0
        }));
        assert(x.zone.0 <= x.base + i < x.zone.1 || mem[x.base + i] == r.cpu.mem[x.base + i]);
    }
}

/// The Linux flush routine writes the buffer to standard output.
pub proof fn lemma_linux_flushes(code: Seq<AsmInst>, w: World, flush: AsmLabel, at: int)
    requires
        labels_unique(code),
        sits(code, at, flush_output_insts(flush)),
    ensures
        flushes(code, w, flush, false),
{
    let piece = flush_output_insts(flush);
    assert(code[at + 0] == piece[0]);
    assert forall|r: Run, s: St, x: Site, j: int, back: int|
        #![trigger may_flush(code, w, flush, r, s, x, j, back, false)]
        may_flush(code, w, flush, r, s, x, j, back, false) implies exists|b: Run|
        reaches(code, w, (Run { pc: j, cpu: r.cpu.pushed(back), ..r }), b) && #[trigger] flushed(
            w,
            r,
            b,
            s,
            x,
            back,
            false,
        ) by {
        if j < at {
            assert(code[j] is Label && code[at] is Label);
        } else if at < j {
            assert(code[at] is Label && code[j] is Label);
        }
        let b = lemma_linux_flush(code, w, r, s, x, flush, at, back);
        assert(flushed(w, r, b, s, x, back, false));
    }
}

/// One call of it.
#[verifier::rlimit(40)]
proof fn lemma_linux_flush(
    code: Seq<AsmInst>,
    w: World,
    r: Run,
    s: St,
    x: Site,
    flush: AsmLabel,
    at: int,
    back: int,
) -> (b: Run)
    requires
        sits(code, at, flush_output_insts(flush)),
        may_flush(code, w, flush, r, s, x, at, back, false),
    ensures
        reaches(code, w, (Run { pc: at, cpu: r.cpu.pushed(back), ..r }), b),
        flushed(w, r, b, s, x, back, false),
{
    reveal(after);
    let piece = flush_output_insts(flush);
    assert forall|k: int| 0 <= k < 9 implies #[trigger] code[at + k] == piece[k] by {}
    assert(code[at + 0] == piece[0] && code[at + 1] == piece[1] && code[at + 2] == piece[2]);
    assert(code[at + 3] == piece[3] && code[at + 4] == piece[4] && code[at + 5] == piece[5]);
    assert(code[at + 6] == piece[6] && code[at + 7] == piece[7] && code[at + 8] == piece[8]);
    let sp = x.sp - 8;
    let buf = buffer(r).0;
    let n = r.cpu.regs[Reg64::Rbx] - buf;
    lemma_stored(r.cpu.mem, sp, back);
    let r0 = Run { pc: at, cpu: r.cpu.pushed(back), ..r };
    assert(r0.cpu.mem == store64(r.cpu.mem, sp, back));
    assert(r0.cpu.regs[Reg64::Rsp] == sp);
    let r1 = Run { pc: at + 1, ..r0 };
    lemma_pass(code, w, r0);
    let r2 = after(r1, piece[1]);
    lemma_plain(code, w, r1, piece[1]);
    lemma_then(code, w, r0, r1, r2);
    assert(r2.cpu.regs[Reg64::Rsi] == buf);
    let r3 = after(r2, piece[2]);
    lemma_plain(code, w, r2, piece[2]);
    lemma_then(code, w, r0, r2, r3);
    let r4 = after(r3, piece[3]);
    lemma_plain(code, w, r3, piece[3]);
    lemma_then(code, w, r0, r3, r4);
    assert(r4.cpu.regs[Reg64::Rdx] == n);
    let r5 = after(r4, piece[4]);
    lemma_plain(code, w, r4, piece[4]);
    lemma_then(code, w, r0, r4, r5);
    let r6 = after(r5, piece[5]);
    lemma_plain(code, w, r5, piece[5]);
    lemma_then(code, w, r0, r5, r6);
    assert(r6.cpu.regs[Reg64::Rax] == 1 && r6.cpu.regs[Reg64::Rdi] == 1);
    assert(r6.cpu.regs[Reg64::Rsi] == buf && r6.cpu.regs[Reg64::Rdx] == n);
    assert(r6.cpu.mem == r0.cpu.mem);
    let r7 = linux_call(w, r6);
    lemma_syscall(code, w, r6);
    lemma_then(code, w, r0, r6, r7);
    assert(bytes_at(r6.cpu.mem, buf, n) =~= pending(r)) by {
        assert forall|i: int| 0 <= i < n implies #[trigger] r6.cpu.mem[buf + i] == r.cpu.mem[buf
            + i] by {}
    }
    let r8 = after(r7, piece[7]);
    lemma_plain(code, w, r7, piece[7]);
    lemma_then(code, w, r0, r7, r8);
    assert(r8.cpu.mem == r0.cpu.mem);
    assert(r8.cpu.regs[Reg64::Rsp] == sp);
    lemma_return(code, w, r8);
    let b = Run { pc: r8.cpu.top(), cpu: r8.cpu.popped(), ..r8 };
    lemma_then(code, w, r0, r8, b);
    lemma_off_tape(r, b.cpu.mem, s, x);
    assert(bytewise(b.cpu.mem)) by {
        assert forall|a: int| 0 <= #[trigger] b.cpu.mem[a] < 256 by {
            assert(0 <= r.cpu.mem[a] < 256);
        }
    }
    b
}

/// Writing a byte.
#[verifier::rlimit(40)]
pub proof fn lemma_put_byte(
    code: Seq<AsmInst>,
    w: World,
    r: Run,
    s: St,
    x: Site,
    next: int,
    flush: AsmLabel,
    j: int,
    win: bool,
) -> (b: Run)
    requires
        labels_unique(code),
        code.len() < word(),
        flushes(code, w, flush, win),
        0 <= j < code.len(),
        code[j] == AsmInst::Label(flush),
        tracks(w, r, s, x, win),
        sits(code, r.pc, LinuxEmitter.put_byte_insts(next, flush)),
    ensures
        reaches(code, w, r, b),
        b.pc == r.pc + 7,
        tracks(w, b, s.wrote(), x, win),
{
    reveal(after);
    let piece = LinuxEmitter.put_byte_insts(next, flush);
    let p = r.pc;
    assert forall|k: int| 0 <= k < 7 implies #[trigger] code[p + k] == piece[k] by {}
    assert(code[p + 0] == piece[0] && code[p + 1] == piece[1] && code[p + 2] == piece[2]);
    assert(code[p + 3] == piece[3] && code[p + 4] == piece[4] && code[p + 5] == piece[5]);
    assert(code[p + 6] == piece[6]);
    let at = r.cpu.regs[Reg64::R13];
    let v = r.cpu.mem[at];
    let rbx = r.cpu.regs[Reg64::Rbx];
    assert(s.cells[s.ptr] == v);
    assert(0 <= v < 256);
    let r1 = after(r, piece[0]);
    lemma_plain(code, w, r, piece[0]);
    let old = r.cpu.regs[Reg64::Rax];
    assert(r1.cpu.regs[Reg64::Rax] == old - old % 256 + v);
    assert((old - old % 256 + v) % 256 == v);
    let r2 = after(r1, piece[1]);
    lemma_plain(code, w, r1, piece[1]);
    lemma_then(code, w, r, r1, r2);
    assert(r2.cpu.mem == r.cpu.mem.insert(rbx, v));
    let r3 = after(r2, piece[2]);
    lemma_plain(code, w, r2, piece[2]);
    lemma_then(code, w, r, r2, r3);
    assert(r3.cpu.regs[Reg64::Rbx] == rbx + 1);
    let r4 = after(r3, piece[3]);
    lemma_plain(code, w, r3, piece[3]);
    lemma_then(code, w, r, r3, r4);
    let full = rbx + 1 == r.cpu.regs[Reg64::Rbp];
    assert(r4.cpu.zero == full);
    lemma_jump(code, w, r4, p + 6);
    let r5 = Run {
        pc: if full {
            p + 5
        } else {
            p + 6
        },
        ..r4
    };
    lemma_then(code, w, r, r4, r5);
    lemma_written(r, r5, s, x, v);
    if win {
        assert forall|q: int| x.sp + 32 <= q < x.sp + 40 implies #[trigger] r5.cpu.mem[q]
            == r.cpu.mem[q] by {}
        lemma_same_load(r5.cpu.mem, r.cpu.mem, x.sp + 32);
    }
    let t = s.wrote();
    let m = if full {
        let f = lemma_flush(code, w, r5, t, x, flush, j, win);
        lemma_then(code, w, r, r5, f);
        assert(pending(f) =~= Seq::<int>::empty());
        assert(f.out + pending(f) =~= r5.out + pending(r5));
        f
    } else {
        r5
    };
    let b = Run { pc: p + 7, ..m };
    lemma_pass(code, w, m);
    lemma_then(code, w, r, m, b);
    assert(pending(b) == pending(m));
    b
}

/// A byte more waits in the buffer.
proof fn lemma_written(r: Run, b: Run, s: St, x: Site, v: int)
    requires
        rolls(r, s, x),
        buffer(r).0 <= r.cpu.regs[Reg64::Rbx] < buffer(r).1,
        r.out + pending(r) == written_bytes(s.trace),
        v == s.cell(),
        0 <= v < 256,
        b.cpu.mem == r.cpu.mem.insert(r.cpu.regs[Reg64::Rbx], v),
        b.cpu.regs[Reg64::Rbx] == r.cpu.regs[Reg64::Rbx] + 1,
        forall|q: Reg64|
            !(q is Rax || q is Rbx) ==> #[trigger] b.cpu.regs[q] == r.cpu.regs[q],
        b.cpu.down == r.cpu.down,
        b == (Run { pc: b.pc, cpu: b.cpu, ..r }),
    ensures
        rolls(b, s.wrote(), x),
        b.out + pending(b) == written_bytes(s.wrote().trace),
{
    let t = s.wrote();
    assert(pending(b) =~= pending(r).push(v));
    assert(t.trace.drop_last() =~= s.trace);
    assert(written_bytes(t.trace) == written_bytes(s.trace).push(v));
    assert(b.out + pending(b) =~= (r.out + pending(r)).push(v));
    assert(mirrors(b.cpu.mem, t, x.base, tape(b).0, tape(b).1)) by {
        assert forall|i: int|
            #[trigger] t.cells[i] == (if tape(b).0 <= x.base + i < tape(b).1 {
                b.cpu.mem[x.base + i]
            } else {
                0
            }) by {
            assert(s.cells[i] == (if tape(r).0 <= x.base + i < tape(r).1 {
                r.cpu.mem[x.base + i]
            } else {
                0
            }));
        }
    }
    assert(bytewise(b.cpu.mem)) by {
        assert forall|a: int| 0 <= #[trigger] b.cpu.mem[a] < 256 by {
            assert(0 <= r.cpu.mem[a] < 256);
        }
    }
}

/// What a world gives a program to read.
pub open spec fn feeds(w: World, source: Source) -> bool {
    forall|n: nat|
        #[trigger] source(n) == (match (w.input)(n) {
            Some(v) => v % 256,
            None => 255,
        })
}

/// A byte has been read into the current cell.
pub proof fn lemma_taken(r: Run, b: Run, s: St, x: Site, v: int)
    requires
        rolls(r, s, x),
        0 <= v < 256,
        mirrors(b.cpu.mem, s.set_at(0, v), x.base, tape(r).0, tape(r).1),
        r.out == written_bytes(s.trace),
        b.out == r.out,
        r.cpu.regs[Reg64::Rbx] == buffer(r).0,
        b.cpu.regs[Reg64::Rbx] == r.cpu.regs[Reg64::Rbx],
        b.cpu.regs[Reg64::Rbp] == r.cpu.regs[Reg64::Rbp],
    ensures
        mirrors(b.cpu.mem, s.read(v), x.base, tape(r).0, tape(r).1),
        b.out + pending(b) == written_bytes(s.read(v).trace),
{
    let t = s.read(v);
    assert(pending(b) =~= Seq::<int>::empty());
    assert(t.trace.drop_last() =~= s.trace);
    assert(b.out + pending(b) =~= b.out);
    assert(s.set_at(0, v).cells == t.cells);
}

/// The current cell is set in memory.
pub proof fn lemma_mirrored(r: Run, mem: Map<int, int>, s: St, x: Site, v: int)
    requires
        rolls(r, s, x),
        0 <= v < 256,
        mem[r.cpu.regs[Reg64::R13]] == v,
        forall|y: int|
            x.zone.0 <= y < x.zone.1 || y == r.cpu.regs[Reg64::R13] || #[trigger] mem[y]
                == r.cpu.mem[y],
    ensures
        mirrors(mem, s.set_at(0, v), x.base, tape(r).0, tape(r).1),
{
    let t = s.set_at(0, v);
    assert forall|i: int|
        #[trigger] t.cells[i] == (if tape(r).0 <= x.base + i < tape(r).1 {
            mem[x.base + i]
        } else {
            0
        }) by {
        assert(s.cells[i] == (if tape(r).0 <= x.base + i < tape(r).1 {
            r.cpu.mem[x.base + i]
        } else {
            0
        }));
        let y = x.base + i;
        assert(x.zone.0 <= y < x.zone.1 || y == r.cpu.regs[Reg64::R13] || mem[y] == r.cpu.mem[y]);
    }
}

/// Reading a byte on Linux.
#[verifier::rlimit(60)]
pub proof fn lemma_linux_get_byte(
    code: Seq<AsmInst>,
    w: World,
    r: Run,
    s: St,
    x: Site,
    next: int,
    exit_one: AsmLabel,
    je: int,
    flush: AsmLabel,
    j: int,
    source: Source,
) -> (b: Run)
    requires
        labels_unique(code),
        code.len() < word(),
        flushes(code, w, flush, false),
        0 <= j < code.len(),
        code[j] == AsmInst::Label(flush),
        0 <= je < code.len(),
        code[je] == AsmInst::Label(exit_one),
        tracks(w, r, s, x, false),
        feeds(w, source),
        sits(code, r.pc, LinuxEmitter.get_byte_insts(next, exit_one, flush)),
    ensures
        reaches(code, w, r, b),
        b.pc == r.pc + 11,
        tracks(w, b, s.read(source(s.reads)), x, false),
{
    reveal(after);
    let piece = LinuxEmitter.get_byte_insts(next, exit_one, flush);
    let p = r.pc;
    assert forall|k: int| 0 <= k < 11 implies #[trigger] code[p + k] == piece[k] by {}
    assert(code[p + 0] == piece[0] && code[p + 1] == piece[1] && code[p + 2] == piece[2]);
    assert(code[p + 3] == piece[3] && code[p + 4] == piece[4] && code[p + 5] == piece[5]);
    assert(code[p + 6] == piece[6] && code[p + 7] == piece[7] && code[p + 8] == piece[8]);
    assert(code[p + 9] == piece[9] && code[p + 10] == piece[10]);
    let r1 = lemma_flush(code, w, r, s, x, flush, j, false);
    let r2 = after(r1, piece[1]);
    lemma_plain(code, w, r1, piece[1]);
    lemma_then(code, w, r, r1, r2);
    let r3 = after(r2, piece[2]);
    lemma_plain(code, w, r2, piece[2]);
    lemma_then(code, w, r, r2, r3);
    let r4 = after(r3, piece[3]);
    lemma_plain(code, w, r3, piece[3]);
    lemma_then(code, w, r, r3, r4);
    let r5 = after(r4, piece[4]);
    lemma_plain(code, w, r4, piece[4]);
    lemma_then(code, w, r, r4, r5);
    let at = r1.cpu.regs[Reg64::R13];
    assert(r5.cpu.regs[Reg64::Rax] == 0 && r5.cpu.regs[Reg64::Rdi] == 0);
    assert(r5.cpu.regs[Reg64::Rsi] == at && r5.cpu.regs[Reg64::Rdx] == 1);
    assert(r5.cpu.mem == r1.cpu.mem);
    let r6 = linux_call(w, r5);
    lemma_syscall(code, w, r5);
    lemma_then(code, w, r, r5, r6);
    let some = (w.input)(r.reads) is Some;
    let v = source(s.reads);
    assert(r6.cpu.regs[Reg64::Rax] == (if some {
        1int
    } else {
        0int
    }));
    assert(r6.cpu.mem == (if some {
        r1.cpu.mem.insert(at, v)
    } else {
        r1.cpu.mem
    }));
    let r7 = after(r6, piece[6]);
    lemma_plain(code, w, r6, piece[6]);
    lemma_then(code, w, r, r6, r7);
    assert(!r7.cpu.less);
    assert(r7.cpu.zero == !some);
    lemma_jump(code, w, r7, je);
    let r8 = Run { pc: p + 8, ..r7 };
    lemma_then(code, w, r, r7, r8);
    lemma_jump(code, w, r8, p + 10);
    let r10 = if some {
        let q = Run { pc: p + 10, ..r8 };
        lemma_then(code, w, r, r8, q);
        q
    } else {
        let r9 = Run { pc: p + 9, ..r8 };
        lemma_then(code, w, r, r8, r9);
        lemma_plain(code, w, r9, piece[9]);
        lemma_then(code, w, r, r9, after(r9, piece[9]));
        after(r9, piece[9])
    };
    assert(r10.cpu.mem == r1.cpu.mem.insert(at, v));
    let b = Run { pc: p + 11, ..r10 };
    lemma_pass(code, w, r10);
    lemma_then(code, w, r, r10, b);
    lemma_mirrored(r1, b.cpu.mem, s, x, v);
    lemma_taken(r1, b, s, x, v);
    assert(bytewise(b.cpu.mem)) by {
        assert forall|a: int| 0 <= #[trigger] b.cpu.mem[a] < 256 by {
            assert(0 <= r1.cpu.mem[a] < 256);
        }
    }
    b
}

} // verus!
