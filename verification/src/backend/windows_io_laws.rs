//! Running the instructions of input and output on Windows.

use vstd::prelude::*;

use crate::backend::asm_ir::{AsmInst, AsmLabel, Reg64};
use crate::backend::codegen_common::PlatformEmitter;
use crate::backend::grow_laws::{lemma_difference, lemma_imm, lemma_mov, sets_reg};
use crate::backend::io_laws::{
    feeds, flushed, flushes, handled, lemma_flush, lemma_mirrored, lemma_off_tape, lemma_taken,
    may_flush, pending, tracks,
};
use crate::backend::run_laws::{
    buffer, bytewise, ceiling, lemma_add_imm, lemma_compare_imm, rolls, sits, Site,
};
use crate::backend::windows_grow_laws::lemma_save;
use crate::backend::x86_64::encode::labels_unique;
use crate::backend::x86_64::machine::{
    after, bytes_at, counted, lemma_import, lemma_jump, lemma_pass, lemma_plain, lemma_return,
    lemma_same_load, lemma_stored, lemma_then, load64, reaches, store64, windows_call, word,
    Run, World,
};
use crate::backend::x86_64::windows::{flush_output_insts, Kernel32Import, WindowsEmitter};
use crate::interp::machine::{Source, St};

verus! {

/// The run at the call of `WriteFile`, seen from the caller's run.
proof fn lemma_write_args(
    code: Seq<AsmInst>,
    w: World,
    r: Run,
    s: St,
    x: Site,
    flush: AsmLabel,
    write: AsmLabel,
    at: int,
    back: int,
) -> (b: Run)
    requires
        sits(code, at, flush_output_insts(flush, write)),
        may_flush(code, w, flush, r, s, x, at, back, true),
    ensures
        reaches(code, w, (Run { pc: at, cpu: r.cpu.pushed(back), ..r }), b),
        b.pc == at + 11,
        b.cpu.regs[Reg64::Rsp] == x.sp - 96,
        b.cpu.regs[Reg64::Rcx] == r.cpu.regs[Reg64::Rdi],
        b.cpu.regs[Reg64::Rdx] == buffer(r).0,
        b.cpu.regs[Reg64::R8] == r.cpu.regs[Reg64::Rbx] - buffer(r).0,
        b.cpu.regs[Reg64::R9] == x.sp - 56,
        load64(b.cpu.mem, x.sp - 64) == 0,
        load64(b.cpu.mem, x.sp - 8) == back,
        forall|y: int|
            y < x.sp - 96 || x.sp <= y ==> #[trigger] b.cpu.mem[y] == r.cpu.mem[y],
        bytewise(b.cpu.mem),
        forall|q: Reg64|
            (q is Rbx || q is Rbp || q is Rsi || q is Rdi || q is R12 || q is R13 || q is R14)
                ==> #[trigger] b.cpu.regs[q] == r.cpu.regs[q],
        b.cpu.down == r.cpu.down,
        b == (Run { pc: b.pc, cpu: b.cpu, ..r }),
{
    let piece = flush_output_insts(flush, write);
    assert(code[at + 0] == piece[0] && code[at + 1] == piece[1] && code[at + 2] == piece[2]);
    assert(code[at + 3] == piece[3] && code[at + 4] == piece[4] && code[at + 5] == piece[5]);
    assert(code[at + 6] == piece[6] && code[at + 7] == piece[7] && code[at + 8] == piece[8]);
    assert(code[at + 9] == piece[9] && code[at + 10] == piece[10]);
    let buf = buffer(r).0;
    lemma_stored(r.cpu.mem, x.sp - 8, back);
    let r0 = Run { pc: at, cpu: r.cpu.pushed(back), ..r };
    assert(r0.cpu.mem == store64(r.cpu.mem, x.sp - 8, back));
    assert(bytewise(r0.cpu.mem)) by {
        assert forall|a: int| 0 <= #[trigger] r0.cpu.mem[a] < 256 by {
            assert(0 <= r.cpu.mem[a] < 256);
        }
    }
    let r1 = Run { pc: at + 1, ..r0 };
    lemma_pass(code, w, r0);
    lemma_add_imm(r1, Reg64::Rsp, (-88) as i32);
    let r2 = after(r1, piece[1]);
    lemma_plain(code, w, r1, piece[1]);
    lemma_then(code, w, r0, r1, r2);
    assert(r2.cpu.regs[Reg64::Rsp] == x.sp - 96);
    let r3 = lemma_imm(code, w, r2, Reg64::Rax, 0);
    lemma_then(code, w, r0, r2, r3);
    let r4 = lemma_save(code, w, r3, 32, Reg64::Rax);
    lemma_then(code, w, r0, r3, r4);
    let r5 = lemma_imm(code, w, r4, Reg64::Rax, 0);
    lemma_then(code, w, r0, r4, r5);
    let r6 = lemma_save(code, w, r5, 40, Reg64::Rax);
    lemma_then(code, w, r0, r5, r6);
    let r7 = lemma_mov(code, w, r6, Reg64::Rcx, Reg64::Rdi);
    lemma_then(code, w, r0, r6, r7);
    lemma_lea(r7, Reg64::Rdx, Reg64::Rbp, (-4096) as i32);
    let r8 = after(r7, piece[7]);
    lemma_plain(code, w, r7, piece[7]);
    lemma_then(code, w, r0, r7, r8);
    let r9 = lemma_mov(code, w, r8, Reg64::R8, Reg64::Rbx);
    lemma_then(code, w, r0, r8, r9);
    let r10 = lemma_difference(code, w, r9, Reg64::R8, Reg64::Rdx);
    lemma_then(code, w, r0, r9, r10);
    assert(r10.cpu.regs[Reg64::R8] == r.cpu.regs[Reg64::Rbx] - buf);
    lemma_lea(r10, Reg64::R9, Reg64::Rsp, 40);
    let b = after(r10, piece[10]);
    lemma_plain(code, w, r10, piece[10]);
    lemma_then(code, w, r0, r10, b);
    assert(b.cpu.mem == r6.cpu.mem);
    lemma_same_load(r6.cpu.mem, r4.cpu.mem, x.sp - 64);
    lemma_same_load(r6.cpu.mem, r0.cpu.mem, x.sp - 8);
    b
}

/// An address is computed.
proof fn lemma_lea(r: Run, d: Reg64, base: Reg64, disp: i32)
    requires
        0 <= r.cpu.regs[base] + disp < word(),
    ensures
        sets_reg(
            r,
            after(r, AsmInst::LeaRegMem(d, base, disp)),
            d,
            r.cpu.regs[base] + disp,
        ),
{
    reveal(after);
}

/// One call of the flush routine.
#[verifier::rlimit(40)]
proof fn lemma_windows_flush(
    code: Seq<AsmInst>,
    w: World,
    r: Run,
    s: St,
    x: Site,
    flush: AsmLabel,
    write: AsmLabel,
    at: int,
    back: int,
) -> (b: Run)
    requires
        sits(code, at, flush_output_insts(flush, write)),
        may_flush(code, w, flush, r, s, x, at, back, true),
        (w.imports)(write) == Some(Kernel32Import::WriteFile),
    ensures
        reaches(code, w, (Run { pc: at, cpu: r.cpu.pushed(back), ..r }), b),
        flushed(w, r, b, s, x, back, true),
{
    let piece = flush_output_insts(flush, write);
    assert(code[at + 11] == piece[11] && code[at + 12] == piece[12]);
    assert(code[at + 13] == piece[13] && code[at + 14] == piece[14]);
    let buf = buffer(r).0;
    let n = r.cpu.regs[Reg64::Rbx] - buf;
    let r0 = Run { pc: at, cpu: r.cpu.pushed(back), ..r };
    let m = lemma_write_args(code, w, r, s, x, flush, write, at, back);
    lemma_import(code, w, m, write, Kernel32Import::WriteFile);
    let c = windows_call(w, m, Kernel32Import::WriteFile);
    lemma_then(code, w, r0, m, c);
    assert(bytes_at(m.cpu.mem, buf, n) =~= pending(r)) by {
        assert forall|i: int| 0 <= i < n implies #[trigger] m.cpu.mem[buf + i] == r.cpu.mem[buf
            + i] by {}
    }
    assert(c.out == r.out + pending(r));
    assert forall|y: int| y < x.sp - 96 || x.sp - 48 <= y implies #[trigger] c.cpu.mem[y]
        == m.cpu.mem[y] by {}
    lemma_lea(c, Reg64::Rbx, Reg64::Rbp, (-4096) as i32);
    let d = after(c, piece[12]);
    lemma_plain(code, w, c, piece[12]);
    lemma_then(code, w, r0, c, d);
    assert(d.cpu.regs[Reg64::Rbx] == buf);
    lemma_add_imm(d, Reg64::Rsp, 88);
    let e = after(d, piece[13]);
    lemma_plain(code, w, d, piece[13]);
    lemma_then(code, w, r0, d, e);
    assert(e.cpu.regs[Reg64::Rsp] == x.sp - 8);
    lemma_return(code, w, e);
    let b = Run { pc: e.cpu.top(), cpu: e.cpu.popped(), ..e };
    lemma_then(code, w, r0, e, b);
    assert(b.cpu.mem == c.cpu.mem);
    lemma_same_load(c.cpu.mem, m.cpu.mem, x.sp - 8);
    assert forall|y: int| x.sp <= y implies #[trigger] b.cpu.mem[y] == r.cpu.mem[y] by {
        assert(c.cpu.mem[y] == m.cpu.mem[y]);
    }
    assert(forall|y: int| x.zone.0 <= y < x.zone.1 || #[trigger] b.cpu.mem[y] == r.cpu.mem[y]) by {
        assert forall|y: int| x.zone.0 <= y < x.zone.1 || #[trigger] b.cpu.mem[y]
            == r.cpu.mem[y] by {
            if !(x.zone.0 <= y < x.zone.1) {
                assert(c.cpu.mem[y] == m.cpu.mem[y]);
            }
        }
    }
    lemma_off_tape(r, b.cpu.mem, s, x);
    lemma_same_load(b.cpu.mem, r.cpu.mem, x.sp + 32);
    assert(bytewise(b.cpu.mem)) by {
        assert forall|a: int| 0 <= #[trigger] b.cpu.mem[a] < 256 by {
            assert(0 <= m.cpu.mem[a] < 256);
        }
    }
    b
}

/// The Windows flush routine writes the buffer to the output handle.
pub proof fn lemma_windows_flushes(
    code: Seq<AsmInst>,
    w: World,
    flush: AsmLabel,
    write: AsmLabel,
    at: int,
)
    requires
        labels_unique(code),
        sits(code, at, flush_output_insts(flush, write)),
        (w.imports)(write) == Some(Kernel32Import::WriteFile),
    ensures
        flushes(code, w, flush, true),
{
    let piece = flush_output_insts(flush, write);
    assert(code[at + 0] == piece[0]);
    assert forall|r: Run, s: St, x: Site, j: int, back: int|
        #![trigger may_flush(code, w, flush, r, s, x, j, back, true)]
        may_flush(code, w, flush, r, s, x, j, back, true) implies exists|b: Run|
        reaches(code, w, (Run { pc: j, cpu: r.cpu.pushed(back), ..r }), b) && #[trigger] flushed(
            w,
            r,
            b,
            s,
            x,
            back,
            true,
        ) by {
        if j < at {
            assert(code[j] is Label && code[at] is Label);
        } else if at < j {
            assert(code[at] is Label && code[j] is Label);
        }
        let b = lemma_windows_flush(code, w, r, s, x, flush, write, at, back);
        assert(flushed(w, r, b, s, x, back, true));
    }
}

/// A count that was stored over a cleared slot is loaded.
proof fn lemma_counted(mem: Map<int, int>, a: int, n: int)
    requires
        0 <= n < 256,
        forall|y: int| a <= y < a + 8 ==> #[trigger] mem[y] == 0,
    ensures
        load64(counted(mem, a, n), a) == n,
{
    reveal(load64);
}

/// A cleared slot holds zeros.
proof fn lemma_cleared_slot(mem: Map<int, int>, a: int)
    ensures
        forall|y: int| a <= y < a + 8 ==> #[trigger] store64(mem, a, 0)[y] == 0,
{
    reveal(store64);
}

/// RAX is stored in the count's slot.
proof fn lemma_slot_store(r: Run, x: Site)
    requires
        r.cpu.regs[Reg64::Rsp] == x.sp,
        0 < x.sp < ceiling(),
    ensures
        ({
            let b = after(r, AsmInst::MovMemReg64(Reg64::Rsp, 40, Reg64::Rax));
            &&& b.cpu.mem == store64(r.cpu.mem, x.sp + 40, r.cpu.regs[Reg64::Rax])
            &&& b.cpu.regs == r.cpu.regs
            &&& b.cpu.down == r.cpu.down
            &&& b == (Run { pc: r.pc + 1, cpu: b.cpu, ..r })
        }),
{
    reveal(after);
}

/// R9 gets the address of the count's slot.
proof fn lemma_slot_address(r: Run, x: Site)
    requires
        r.cpu.regs[Reg64::Rsp] == x.sp,
        0 < x.sp < ceiling(),
    ensures
        ({
            let b = after(r, AsmInst::LeaRegMem(Reg64::R9, Reg64::Rsp, 40));
            &&& b.cpu == r.cpu.with(Reg64::R9, x.sp + 40)
            &&& b == (Run { pc: r.pc + 1, cpu: b.cpu, ..r })
        }),
{
    reveal(after);
}

/// The run behind the call of `ReadFile`.
#[verifier::rlimit(40)]
proof fn lemma_read_call(
    code: Seq<AsmInst>,
    w: World,
    r: Run,
    s: St,
    x: Site,
    e: WindowsEmitter,
    next: int,
    exit_one: AsmLabel,
    flush: AsmLabel,
) -> (b: Run)
    requires
        rolls(r, s, x),
        x.zone.0 + 256 <= x.sp,
        handled(w, r, x),
        0 <= r.pc - 1,
        sits(code, r.pc - 1, e.get_byte_insts(next, exit_one, flush)),
        (w.imports)(e.read_file_iat) == Some(Kernel32Import::ReadFile),
    ensures
        reaches(code, w, r, b),
        b.pc == r.pc + 7,
        ({
            let input = (w.input)(r.reads);
            let at = r.cpu.regs[Reg64::R13];
            &&& b.cpu.regs[Reg64::Rax] == (if input is Some || w.end_error is None {
                1int
            } else {
                0int
            })
            &&& load64(b.cpu.mem, x.sp + 40) == (if input is Some {
                1int
            } else {
                0int
            })
            &&& b.cpu.mem[at] == (match input {
                Some(v) => v % 256,
                None => r.cpu.mem[at],
            })
            &&& forall|y: int|
                y != at && (y < x.sp || x.sp + 32 <= y < x.sp + 40 || x.sp + 48 <= y)
                    ==> #[trigger] b.cpu.mem[y] == r.cpu.mem[y]
        }),
        bytewise(b.cpu.mem),
        b.reads == r.reads + 1,
        forall|q: Reg64|
            (q is Rbx || q is Rbp || q is Rsi || q is Rdi || q is Rsp || q is R12 || q is R13
                || q is R14) ==> #[trigger] b.cpu.regs[q] == r.cpu.regs[q],
        b.cpu.down == r.cpu.down,
        b == (Run { pc: b.pc, cpu: b.cpu, reads: b.reads, calls: b.calls, ..r }),
{
    let piece = e.get_byte_insts(next, exit_one, flush);
    let p = r.pc - 1;
    assert forall|k: int| 0 <= k < 23 implies #[trigger] code[p + k] == piece[k] by {}
    assert(code[p + 1] == piece[1] && code[p + 2] == piece[2] && code[p + 3] == piece[3]);
    assert(code[p + 4] == piece[4] && code[p + 5] == piece[5] && code[p + 6] == piece[6]);
    assert(code[p + 7] == piece[7]);
    let r2 = lemma_imm(code, w, r, Reg64::Rax, 0);
    lemma_slot_store(r2, x);
    let r3 = after(r2, piece[2]);
    lemma_plain(code, w, r2, piece[2]);
    lemma_then(code, w, r, r2, r3);
    lemma_stored(r.cpu.mem, x.sp + 40, 0);
    assert(r3.cpu.mem == store64(r.cpu.mem, x.sp + 40, 0));
    let r4 = lemma_mov(code, w, r3, Reg64::Rcx, Reg64::Rsi);
    lemma_then(code, w, r, r3, r4);
    let r5 = lemma_mov(code, w, r4, Reg64::Rdx, Reg64::R13);
    lemma_then(code, w, r, r4, r5);
    let r6 = lemma_imm(code, w, r5, Reg64::R8, 1);
    lemma_then(code, w, r, r5, r6);
    lemma_slot_address(r6, x);
    let r7 = after(r6, piece[6]);
    lemma_plain(code, w, r6, piece[6]);
    lemma_then(code, w, r, r6, r7);
    let at = r.cpu.regs[Reg64::R13];
    assert(r7.cpu.regs[Reg64::Rcx] == r.cpu.regs[Reg64::Rsi]);
    assert(r7.cpu.regs[Reg64::Rdx] == at);
    assert(r7.cpu.regs[Reg64::R8] == 1);
    assert(r7.cpu.regs[Reg64::R9] == x.sp + 40);
    assert(r7.cpu.mem == r3.cpu.mem);
    lemma_same_load(r7.cpu.mem, r.cpu.mem, x.sp + 32);
    lemma_import(code, w, r7, e.read_file_iat, Kernel32Import::ReadFile);
    let b = windows_call(w, r7, Kernel32Import::ReadFile);
    lemma_then(code, w, r, r7, b);
    lemma_cleared_slot(r.cpu.mem, x.sp + 40);
    match (w.input)(r.reads) {
        Some(v) => {
            let mid = r7.cpu.mem.insert(at, v % 256);
            lemma_counted(mid, x.sp + 40, 1);
            lemma_same_load(b.cpu.mem, counted(mid, x.sp + 40, 1), x.sp + 40);
        },
        None => {
            lemma_counted(r7.cpu.mem, x.sp + 40, 0);
            lemma_same_load(b.cpu.mem, counted(r7.cpu.mem, x.sp + 40, 0), x.sp + 40);
        },
    }
    assert(bytewise(b.cpu.mem)) by {
        assert forall|a: int| 0 <= #[trigger] b.cpu.mem[a] < 256 by {
            assert(0 <= r.cpu.mem[a] < 256);
            assert(0 <= r3.cpu.mem[a] < 256);
        }
    }
    b
}

/// The errors that stand for the end of the input.
pub open spec fn ends_plainly(w: World) -> bool {
    match w.end_error {
        Some(e) => e == 38 || e == 109,
        None => true,
    }
}

/// The count is loaded.
proof fn lemma_load_slot(r: Run, x: Site)
    requires
        r.cpu.regs[Reg64::Rsp] == x.sp,
        0 < x.sp < ceiling(),
    ensures
        ({
            let b = after(r, AsmInst::MovRegMem64(Reg64::Rax, Reg64::Rsp, 40));
            &&& b.cpu == r.cpu.with(Reg64::Rax, load64(r.cpu.mem, x.sp + 40))
            &&& b == (Run { pc: r.pc + 1, cpu: b.cpu, ..r })
        }),
{
    reveal(after);
}

/// The current cell is set to 255.
proof fn lemma_fill_cell(r: Run)
    requires
        0 < r.cpu.regs[Reg64::R13] < ceiling(),
    ensures
        ({
            let b = after(r, AsmInst::MovMem8Imm8(Reg64::R13, 255));
            &&& b.cpu.mem == r.cpu.mem.insert(r.cpu.regs[Reg64::R13], 255)
            &&& b.cpu.regs == r.cpu.regs
            &&& b.cpu.down == r.cpu.down
            &&& b == (Run { pc: r.pc + 1, cpu: b.cpu, ..r })
        }),
{
    reveal(after);
}

/// The way from behind `ReadFile` to the end: the cell gets 255 where nothing was read.
#[verifier::rlimit(60)]
proof fn lemma_read_result(
    code: Seq<AsmInst>,
    w: World,
    r: Run,
    x: Site,
    e: WindowsEmitter,
    next: int,
    exit_one: AsmLabel,
    je: int,
    flush: AsmLabel,
    got: bool,
) -> (b: Run)
    requires
        labels_unique(code),
        0 <= r.pc - 8,
        sits(code, r.pc - 8, e.get_byte_insts(next, exit_one, flush)),
        (w.imports)(e.get_last_error_iat) == Some(Kernel32Import::GetLastError),
        ends_plainly(w),
        r.over is None,
        r.cpu.regs[Reg64::Rsp] == x.sp,
        0 < x.sp < ceiling(),
        0 < r.cpu.regs[Reg64::R13] < ceiling(),
        r.cpu.regs[Reg64::R13] < x.sp - 128 || x.sp + 64 <= r.cpu.regs[Reg64::R13],
        0 <= je < code.len(),
        code[je] == AsmInst::Label(exit_one),
        bytewise(r.cpu.mem),
        r.cpu.regs[Reg64::Rax] == (if got || w.end_error is None {
            1int
        } else {
            0int
        }),
        load64(r.cpu.mem, x.sp + 40) == (if got {
            1int
        } else {
            0int
        }),
    ensures
        reaches(code, w, r, b),
        b.pc == r.pc + 15,
        got ==> b.cpu.mem[r.cpu.regs[Reg64::R13]] == r.cpu.mem[r.cpu.regs[Reg64::R13]],
        !got ==> b.cpu.mem[r.cpu.regs[Reg64::R13]] == 255,
        forall|y: int|
            y != r.cpu.regs[Reg64::R13] && (y < x.sp || x.sp + 32 <= y) ==> #[trigger] b.cpu.mem[y]
                == r.cpu.mem[y],
        bytewise(b.cpu.mem),
        forall|q: Reg64|
            (q is Rbx || q is Rbp || q is Rsi || q is Rdi || q is Rsp || q is R12 || q is R13
                || q is R14) ==> #[trigger] b.cpu.regs[q] == r.cpu.regs[q],
        b.cpu.down == r.cpu.down,
        b == (Run { pc: b.pc, cpu: b.cpu, calls: b.calls, ..r }),
{
    let piece = e.get_byte_insts(next, exit_one, flush);
    let p = r.pc - 8;
    assert forall|k: int| 0 <= k < 23 implies #[trigger] code[p + k] == piece[k] by {}
    assert(code[p + 8] == piece[8] && code[p + 9] == piece[9] && code[p + 10] == piece[10]);
    assert(code[p + 11] == piece[11] && code[p + 12] == piece[12] && code[p + 13] == piece[13]);
    assert(code[p + 14] == piece[14] && code[p + 15] == piece[15] && code[p + 16] == piece[16]);
    assert(code[p + 17] == piece[17] && code[p + 18] == piece[18] && code[p + 19] == piece[19]);
    assert(code[p + 20] == piece[20] && code[p + 21] == piece[21] && code[p + 22] == piece[22]);
    let r1 = after(r, piece[8]);
    lemma_compare_imm(r, Reg64::Rax, 0);
    lemma_plain(code, w, r, piece[8]);
    lemma_jump(code, w, r1, p + 16);
    let early = !got && w.end_error is Some;
    assert(r1.cpu.zero == early);
    // where a byte was read or the count tells the end
    let m = if !early {
        let r2 = Run { pc: p + 16, ..r1 };
        lemma_then(code, w, r, r1, r2);
        let r3 = Run { pc: p + 17, ..r1 };
        lemma_pass(code, w, r2);
        lemma_then(code, w, r, r2, r3);
        let r4 = after(r3, piece[17]);
        lemma_load_slot(r3, x);
        lemma_plain(code, w, r3, piece[17]);
        lemma_then(code, w, r, r3, r4);
        assert(r4.cpu.regs[Reg64::Rax] == (if got {
            1int
        } else {
            0int
        }));
        let r5 = after(r4, piece[18]);
        lemma_compare_imm(r4, Reg64::Rax, 0);
        lemma_plain(code, w, r4, piece[18]);
        lemma_then(code, w, r, r4, r5);
        assert(r5.cpu.zero == !got);
        lemma_jump(code, w, r5, p + 22);
        let r6 = Run {
            pc: if got {
                p + 22
            } else {
                p + 20
            },
            ..r5
        };
        lemma_then(code, w, r, r5, r6);
        r6
    } else {
        let r2 = Run { pc: p + 10, ..r1 };
        lemma_then(code, w, r, r1, r2);
        lemma_import(code, w, r2, e.get_last_error_iat, Kernel32Import::GetLastError);
        let r3 = windows_call(w, r2, Kernel32Import::GetLastError);
        lemma_then(code, w, r, r2, r3);
        let code_ = w.end_error->Some_0;
        assert(r3.cpu.regs[Reg64::Rax] == code_);
        let r4 = after(r3, piece[11]);
        lemma_compare_imm(r3, Reg64::Rax, 38);
        lemma_plain(code, w, r3, piece[11]);
        lemma_then(code, w, r, r3, r4);
        assert(r4.cpu.zero == (code_ == 38));
        lemma_jump(code, w, r4, p + 20);
        if code_ == 38 {
            let r5 = Run { pc: p + 20, ..r4 };
            lemma_then(code, w, r, r4, r5);
            r5
        } else {
            let r5 = Run { pc: p + 13, ..r4 };
            lemma_then(code, w, r, r4, r5);
            let r6 = after(r5, piece[13]);
            lemma_compare_imm(r5, Reg64::Rax, 109);
            lemma_plain(code, w, r5, piece[13]);
            lemma_then(code, w, r, r5, r6);
            assert(r6.cpu.zero);
            lemma_jump(code, w, r6, p + 20);
            let r7 = Run { pc: p + 20, ..r6 };
            lemma_then(code, w, r, r6, r7);
            r7
        }
    };
    assert(forall|y: int|
        (y < x.sp || x.sp + 32 <= y) ==> #[trigger] m.cpu.mem[y] == r.cpu.mem[y]);
    assert(bytewise(m.cpu.mem)) by {
        assert forall|a: int| 0 <= #[trigger] m.cpu.mem[a] < 256 by {
            assert(0 <= r.cpu.mem[a] < 256);
        }
    }
    let n = if got {
        m
    } else {
        let m1 = Run { pc: p + 21, ..m };
        lemma_pass(code, w, m);
        lemma_then(code, w, r, m, m1);
        let m2 = after(m1, piece[21]);
        lemma_fill_cell(m1);
        lemma_plain(code, w, m1, piece[21]);
        lemma_then(code, w, r, m1, m2);
        assert(m2.cpu.mem == m.cpu.mem.insert(r.cpu.regs[Reg64::R13], 255));
        m2
    };
    let b = Run { pc: p + 23, ..n };
    lemma_pass(code, w, n);
    lemma_then(code, w, r, n, b);
    b
}

/// Reading a byte on Windows.
pub proof fn lemma_windows_get_byte(
    code: Seq<AsmInst>,
    w: World,
    r: Run,
    s: St,
    x: Site,
    e: WindowsEmitter,
    next: int,
    exit_one: AsmLabel,
    je: int,
    flush: AsmLabel,
    j: int,
    source: Source,
) -> (b: Run)
    requires
        labels_unique(code),
        code.len() < word(),
        flushes(code, w, flush, true),
        0 <= j < code.len(),
        code[j] == AsmInst::Label(flush),
        0 <= je < code.len(),
        code[je] == AsmInst::Label(exit_one),
        tracks(w, r, s, x, true),
        feeds(w, source),
        ends_plainly(w),
        (w.imports)(e.read_file_iat) == Some(Kernel32Import::ReadFile),
        (w.imports)(e.get_last_error_iat) == Some(Kernel32Import::GetLastError),
        sits(code, r.pc, e.get_byte_insts(next, exit_one, flush)),
    ensures
        reaches(code, w, r, b),
        b.pc == r.pc + 23,
        tracks(w, b, s.read(source(s.reads)), x, true),
{
    let piece = e.get_byte_insts(next, exit_one, flush);
    assert(code[r.pc + 0] == piece[0]);
    let r1 = lemma_flush(code, w, r, s, x, flush, j, true);
    let r2 = lemma_read_call(code, w, r1, s, x, e, next, exit_one, flush);
    lemma_then(code, w, r, r1, r2);
    let got = (w.input)(r.reads) is Some;
    let b = lemma_read_result(code, w, r2, x, e, next, exit_one, je, flush, got);
    lemma_then(code, w, r, r2, b);
    let v = source(s.reads);
    let at = r1.cpu.regs[Reg64::R13];
    assert forall|y: int| x.zone.0 <= y < x.zone.1 || y == at || #[trigger] b.cpu.mem[y]
        == r1.cpu.mem[y] by {
        if !(x.zone.0 <= y < x.zone.1) && y != at {
            assert(r2.cpu.mem[y] == r1.cpu.mem[y]);
        }
    }
    lemma_mirrored(r1, b.cpu.mem, s, x, v);
    lemma_taken(r1, b, s, x, v);
    assert forall|y: int| x.sp + 32 <= y < x.sp + 40 implies #[trigger] b.cpu.mem[y]
        == r1.cpu.mem[y] by {
        assert(r2.cpu.mem[y] == r1.cpu.mem[y]);
    }
    lemma_same_load(b.cpu.mem, r1.cpu.mem, x.sp + 32);
    b
}

} // verus!
