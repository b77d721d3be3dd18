//! Running the growth routine on Windows.

use vstd::prelude::*;

use crate::backend::asm_ir::{AsmInst, AsmLabel, Reg64};
use crate::backend::grow_laws::{
    honest, lemma_copied, lemma_copy, lemma_difference, lemma_grown_tape, lemma_half, lemma_imm,
    lemma_mov, lemma_search, lemma_sum, search_loop, searches, sets_reg,
};
use crate::backend::run_laws::{
    apart, buffer, bytewise, ceiling, comes, far, floor, grows, leads, lemma_add_imm,
    lemma_compare_imm, lemma_mod_add, lemma_parts, sits, starved, tape, wants, Site,
};
use crate::backend::x86_64::encode::labels_unique;
use crate::backend::x86_64::machine::{
    after, copied, lemma_import, lemma_jump, lemma_pass, lemma_plain, lemma_return,
    lemma_same_load, lemma_stored, lemma_then, load64, reaches, store64, windows_call, word,
    Run, World,
};
use crate::backend::x86_64::windows::{
    adopt_new_insts, alloc_new_insts, copy_old_insts, ensure_tape_insts, exit_process_insts,
    free_old_insts, grow_search_insts, restore_lengths_insts, save_scratch_insts,
    Kernel32Import,
};
use crate::interp::machine::St;

verus! {

/// A register is stored in the frame.
pub proof fn lemma_save(code: Seq<AsmInst>, w: World, r: Run, disp: i32, q: Reg64) -> (b: Run)
    requires
        0 <= r.pc < code.len(),
        code[r.pc] == AsmInst::MovMemReg64(Reg64::Rsp, disp, q),
        r.over is None,
        0 <= disp < 128,
        0 <= r.cpu.regs[Reg64::Rsp] < ceiling(),
        0 <= r.cpu.regs[q] < word(),
        bytewise(r.cpu.mem),
    ensures
        reaches(code, w, r, b),
        b.cpu.regs == r.cpu.regs,
        b.cpu.down == r.cpu.down,
        b == (Run { pc: r.pc + 1, cpu: b.cpu, ..r }),
        load64(b.cpu.mem, r.cpu.regs[Reg64::Rsp] + disp) == r.cpu.regs[q],
        forall|y: int|
            y < r.cpu.regs[Reg64::Rsp] + disp || r.cpu.regs[Reg64::Rsp] + disp + 8 <= y
                ==> #[trigger] b.cpu.mem[y] == r.cpu.mem[y],
        bytewise(b.cpu.mem),
{
    reveal(after);
    lemma_plain(code, w, r, code[r.pc]);
    let b = after(r, code[r.pc]);
    let at = r.cpu.regs[Reg64::Rsp] + disp;
    lemma_stored(r.cpu.mem, at, r.cpu.regs[q]);
    assert(b.cpu.mem == store64(r.cpu.mem, at, r.cpu.regs[q]));
    assert forall|y: int| 0 <= #[trigger] b.cpu.mem[y] < 256 by {
        assert(0 <= r.cpu.mem[y] < 256);
    }
    b
}

/// A register is loaded from the frame.
proof fn lemma_fetch(code: Seq<AsmInst>, w: World, r: Run, disp: i32, q: Reg64) -> (b: Run)
    requires
        0 <= r.pc < code.len(),
        code[r.pc] == AsmInst::MovRegMem64(q, Reg64::Rsp, disp),
        r.over is None,
        0 <= disp < 128,
        0 <= r.cpu.regs[Reg64::Rsp] < ceiling(),
    ensures
        reaches(code, w, r, b),
        sets_reg(r, b, q, load64(r.cpu.mem, r.cpu.regs[Reg64::Rsp] + disp)),
{
    reveal(after);
    lemma_plain(code, w, r, code[r.pc]);
    after(r, code[r.pc])
}

/// What the frame of the growth routine holds.
spec fn framed(b: Run, r: Run, sp: int, back: int) -> bool {
    &&& b.cpu.regs[Reg64::Rsp] == sp - 96
    &&& load64(b.cpu.mem, sp - 24) == r.cpu.regs[Reg64::Rdi]
    &&& load64(b.cpu.mem, sp - 16) == r.cpu.regs[Reg64::Rsi]
    &&& load64(b.cpu.mem, sp - 8) == back
    &&& bytewise(b.cpu.mem)
    &&& !b.cpu.down
    &&& b.out == r.out
    &&& b.reads == r.reads
    &&& b.over is None
    &&& b.cpu.regs[Reg64::Rbx] == r.cpu.regs[Reg64::Rbx]
    &&& b.cpu.regs[Reg64::Rbp] == r.cpu.regs[Reg64::Rbp]
}

/// The frame stays where only other memory changes.
proof fn lemma_framed(a: Run, b: Run, r: Run, sp: int, back: int)
    requires
        framed(a, r, sp, back),
        forall|y: int| sp - 24 <= y < sp ==> #[trigger] b.cpu.mem[y] == a.cpu.mem[y],
        bytewise(b.cpu.mem),
        b.cpu.regs[Reg64::Rsp] == sp - 96,
        !b.cpu.down,
        b.out == r.out,
        b.reads == r.reads,
        b.over is None,
        b.cpu.regs[Reg64::Rbx] == r.cpu.regs[Reg64::Rbx],
        b.cpu.regs[Reg64::Rbp] == r.cpu.regs[Reg64::Rbp],
    ensures
        framed(b, r, sp, back),
{
    lemma_same_load(b.cpu.mem, a.cpu.mem, sp - 24);
    lemma_same_load(b.cpu.mem, a.cpu.mem, sp - 16);
    lemma_same_load(b.cpu.mem, a.cpu.mem, sp - 8);
}

/// The entry of the growth routine.
#[verifier::rlimit(40)]
proof fn lemma_entry(
    code: Seq<AsmInst>,
    w: World,
    r: Run,
    s: St,
    x: Site,
    e: AsmLabel,
    l: AsmLabel,
    at: int,
    d: int,
    back: int,
) -> (b: Run)
    requires
        sits(code, at, grow_search_insts(e, l)),
        wants(code, e, r, s, x, d, at, back),
    ensures
        reaches(code, w, (Run { pc: at, cpu: r.cpu.pushed(back), ..r }), b),
        b.pc == at + 9,
        framed(b, r, x.sp, back),
        searches(
            b,
            tape(r).1 - tape(r).0,
            x.base + s.ptr + d - tape(r).0,
            tape(r).1 - tape(r).0,
        ),
        tape(b) == tape(r),
        b.cpu.regs[Reg64::R15] == r.cpu.regs[Reg64::R15],
        forall|y: int| y < x.sp - 96 || x.sp <= y ==> #[trigger] b.cpu.mem[y] == r.cpu.mem[y],
        b == (Run { pc: b.pc, cpu: b.cpu, ..r }),
{
    let piece = grow_search_insts(e, l);
    assert(code[at + 0] == piece[0] && code[at + 1] == piece[1] && code[at + 2] == piece[2]);
    assert(code[at + 3] == piece[3] && code[at + 4] == piece[4] && code[at + 5] == piece[5]);
    assert(code[at + 6] == piece[6] && code[at + 7] == piece[7] && code[at + 8] == piece[8]);
    let sp = x.sp;
    let to = x.base + s.ptr + d;
    lemma_stored(r.cpu.mem, sp - 8, back);
    let r0 = Run { pc: at, cpu: r.cpu.pushed(back), ..r };
    assert(r0.cpu.mem == store64(r.cpu.mem, sp - 8, back));
    assert(bytewise(r0.cpu.mem)) by {
        assert forall|y: int| 0 <= #[trigger] r0.cpu.mem[y] < 256 by {
            assert(0 <= r.cpu.mem[y] < 256);
        }
    }
    let r1 = Run { pc: at + 1, ..r0 };
    lemma_pass(code, w, r0);
    lemma_add_imm(r1, Reg64::Rsp, (-88) as i32);
    let r2 = after(r1, piece[1]);
    lemma_plain(code, w, r1, piece[1]);
    lemma_then(code, w, r0, r1, r2);
    assert(r2.cpu.regs[Reg64::Rsp] == sp - 96);
    let r3 = lemma_save(code, w, r2, 72, Reg64::Rdi);
    lemma_then(code, w, r0, r2, r3);
    let r4 = lemma_save(code, w, r3, 80, Reg64::Rsi);
    lemma_then(code, w, r0, r3, r4);
    lemma_same_load(r4.cpu.mem, r3.cpu.mem, sp - 24);
    lemma_same_load(r4.cpu.mem, r0.cpu.mem, sp - 8);
    let r5 = lemma_mov(code, w, r4, Reg64::R10, Reg64::R14);
    lemma_then(code, w, r0, r4, r5);
    let r6 = lemma_difference(code, w, r5, Reg64::R10, Reg64::R12);
    lemma_then(code, w, r0, r5, r6);
    let r7 = lemma_mov(code, w, r6, Reg64::R9, Reg64::R15);
    lemma_then(code, w, r0, r6, r7);
    let r8 = lemma_difference(code, w, r7, Reg64::R9, Reg64::R12);
    lemma_then(code, w, r0, r7, r8);
    lemma_mod_add(-tape(r).0, to, to % word());
    let b = lemma_mov(code, w, r8, Reg64::R11, Reg64::R10);
    lemma_then(code, w, r0, r8, b);
    b
}

/// The failure exit leaves with status 1.
pub proof fn lemma_windows_exit(
    code: Seq<AsmInst>,
    w: World,
    r: Run,
    leave: AsmLabel,
    status: i64,
) -> (b: Run)
    requires
        sits(code, r.pc, exit_process_insts(leave, status)),
        r.over is None,
        0 <= status,
        (w.imports)(leave) == Some(Kernel32Import::ExitProcess),
    ensures
        reaches(code, w, r, b),
        b.over == Some(status as int),
        b.refused == r.refused,
        b.out == r.out,
        b.reads == r.reads,
{
    let piece = exit_process_insts(leave, status);
    let p = r.pc;
    assert(code[p + 0] == piece[0] && code[p + 1] == piece[1]);
    let r1 = lemma_imm(code, w, r, Reg64::Rcx, status);
    lemma_import(code, w, r1, leave, Kernel32Import::ExitProcess);
    let b = windows_call(w, r1, Kernel32Import::ExitProcess);
    lemma_then(code, w, r, r1, b);
    b
}

/// A new tape is mapped, or the program leaves.
#[verifier::rlimit(60)]
proof fn lemma_alloc(
    code: Seq<AsmInst>,
    w: World,
    r: Run,
    q: Run,
    sp: int,
    back: int,
    exit: AsmLabel,
    je: int,
    leave: AsmLabel,
    alloc: AsmLabel,
    new: int,
) -> (b: Run)
    requires
        labels_unique(code),
        sits(code, r.pc, alloc_new_insts(exit, alloc)),
        0 <= je,
        je < code.len(),
        code[je] == AsmInst::Label(exit),
        sits(code, je + 1, exit_process_insts(leave, 1)),
        honest(w),
        framed(r, q, sp, back),
        128 <= sp < ceiling(),
        !r.refused,
        r.cpu.regs[Reg64::R11] == new,
        0 < new < word(),
        (w.imports)(alloc) == Some(Kernel32Import::VirtualAlloc),
        (w.imports)(leave) == Some(Kernel32Import::ExitProcess),
        (w.grant)(r.live, new) matches Some(g) ==> apart((sp - 96, sp), (g, g + new)),
    ensures
        reaches(code, w, r, b),
        (w.grant)(r.live, new) is None ==> starved(b),
        (w.grant)(r.live, new) matches Some(g) ==> {
            &&& b.pc == r.pc + 8
            &&& framed(b, q, sp, back)
            &&& !b.refused
            &&& b.cpu.regs[Reg64::Rax] == g
            &&& load64(b.cpu.mem, sp - 40) == new
            &&& b.live == r.live.insert((g, g + new))
            &&& tape(b) == tape(r)
            &&& b.cpu.regs[Reg64::R15] == r.cpu.regs[Reg64::R15]
            &&& forall|y: int|
                y < sp - 96 || sp <= y ==> #[trigger] b.cpu.mem[y] == (if g <= y < g + new {
                    0
                } else {
                    r.cpu.mem[y]
                })
        },
{
    let piece = alloc_new_insts(exit, alloc);
    let p = r.pc;
    assert(code[p + 0] == piece[0] && code[p + 1] == piece[1] && code[p + 2] == piece[2]);
    assert(code[p + 3] == piece[3] && code[p + 4] == piece[4] && code[p + 5] == piece[5]);
    assert(code[p + 6] == piece[6] && code[p + 7] == piece[7]);
    let r1 = lemma_save(code, w, r, 56, Reg64::R11);
    lemma_framed(r, r1, q, sp, back);
    let r2 = lemma_imm(code, w, r1, Reg64::Rcx, 0);
    lemma_then(code, w, r, r1, r2);
    let r3 = lemma_mov(code, w, r2, Reg64::Rdx, Reg64::R11);
    lemma_then(code, w, r, r2, r3);
    let r4 = lemma_imm(code, w, r3, Reg64::R8, 0x3000);
    lemma_then(code, w, r, r3, r4);
    let r5 = lemma_imm(code, w, r4, Reg64::R9, 4);
    lemma_then(code, w, r, r4, r5);
    assert(r5.cpu.regs[Reg64::Rcx] == 0 && r5.cpu.regs[Reg64::Rdx] == new);
    assert(r5.cpu.regs[Reg64::R8] == 0x3000 && r5.cpu.regs[Reg64::R9] == 4);
    assert(r5.cpu.mem == r1.cpu.mem);
    lemma_import(code, w, r5, alloc, Kernel32Import::VirtualAlloc);
    let r6 = windows_call(w, r5, Kernel32Import::VirtualAlloc);
    lemma_then(code, w, r, r5, r6);
    lemma_compare_imm(r6, Reg64::Rax, 0);
    let r7 = after(r6, piece[6]);
    lemma_plain(code, w, r6, piece[6]);
    lemma_then(code, w, r, r6, r7);
    lemma_jump(code, w, r7, je);
    match (w.grant)(r.live, new) {
        Some(g) => {
            let b = Run { pc: p + 8, ..r7 };
            lemma_then(code, w, r, r7, b);
            assert(bytewise(b.cpu.mem)) by {
                assert forall|y: int| 0 <= #[trigger] b.cpu.mem[y] < 256 by {
                    assert(0 <= r1.cpu.mem[y] < 256);
                }
            }
            assert forall|y: int| sp - 40 <= y < sp implies #[trigger] b.cpu.mem[y]
                == r1.cpu.mem[y] by {}
            lemma_framed(r1, b, q, sp, back);
            lemma_same_load(b.cpu.mem, r1.cpu.mem, sp - 40);
            assert forall|y: int| y < sp - 96 || sp <= y implies #[trigger] b.cpu.mem[y] == (if g
                <= y < g + new {
                0
            } else {
                r.cpu.mem[y]
            }) by {
                assert(r1.cpu.mem[y] == r.cpu.mem[y]);
            }
            b
        },
        None => {
            let c = Run { pc: je, ..r7 };
            lemma_then(code, w, r, r7, c);
            let c1 = Run { pc: je + 1, ..c };
            lemma_pass(code, w, c);
            lemma_then(code, w, r, c, c1);
            let b = lemma_windows_exit(code, w, c1, leave, 1);
            lemma_then(code, w, r, c1, b);
            b
        },
    }
}

/// The lengths are computed again.
proof fn lemma_restore(
    code: Seq<AsmInst>,
    w: World,
    r: Run,
    to: int,
    sp: int,
    new: int,
    g: int,
) -> (b: Run)
    requires
        sits(code, r.pc, restore_lengths_insts()),
        r.over is None,
        floor() <= tape(r).0 < tape(r).1 <= ceiling(),
        r.cpu.regs[Reg64::R15] == to % word(),
        r.cpu.regs[Reg64::Rsp] == sp - 96,
        128 <= sp < ceiling(),
        load64(r.cpu.mem, sp - 40) == new,
        r.cpu.regs[Reg64::Rax] == g,
        2 * (tape(r).1 - tape(r).0) <= new < 16 * far(),
    ensures
        reaches(code, w, r, b),
        b.pc == r.pc + 9,
        b == (Run { pc: b.pc, cpu: b.cpu, ..r }),
        b.cpu.mem == r.cpu.mem,
        b.cpu.down == r.cpu.down,
        forall|q: Reg64|
            !(q is R8 || q is R9 || q is R10 || q is R11 || q is Rdx) ==> #[trigger] b.cpu.regs[q]
                == r.cpu.regs[q],
        b.cpu.regs[Reg64::R10] == tape(r).1 - tape(r).0,
        b.cpu.regs[Reg64::R9] == (to - tape(r).0) % word(),
        b.cpu.regs[Reg64::R11] == new,
        b.cpu.regs[Reg64::R8] == (new - (tape(r).1 - tape(r).0)) / 2,
        b.cpu.regs[Reg64::Rdx] == g,
{
    let piece = restore_lengths_insts();
    let p = r.pc;
    assert(code[p + 0] == piece[0] && code[p + 1] == piece[1] && code[p + 2] == piece[2]);
    assert(code[p + 3] == piece[3] && code[p + 4] == piece[4] && code[p + 5] == piece[5]);
    assert(code[p + 6] == piece[6] && code[p + 7] == piece[7] && code[p + 8] == piece[8]);
    let r1 = lemma_mov(code, w, r, Reg64::R10, Reg64::R14);
    let r2 = lemma_difference(code, w, r1, Reg64::R10, Reg64::R12);
    lemma_then(code, w, r, r1, r2);
    let r3 = lemma_mov(code, w, r2, Reg64::R9, Reg64::R15);
    lemma_then(code, w, r, r2, r3);
    let r4 = lemma_difference(code, w, r3, Reg64::R9, Reg64::R12);
    lemma_then(code, w, r, r3, r4);
    lemma_mod_add(-tape(r).0, to, to % word());
    let r5 = lemma_fetch(code, w, r4, 56, Reg64::R11);
    lemma_then(code, w, r, r4, r5);
    let r6 = lemma_mov(code, w, r5, Reg64::R8, Reg64::R11);
    lemma_then(code, w, r, r5, r6);
    let r7 = lemma_difference(code, w, r6, Reg64::R8, Reg64::R10);
    lemma_then(code, w, r, r6, r7);
    let r8 = lemma_half(code, w, r7, Reg64::R8);
    lemma_then(code, w, r, r7, r8);
    let r9 = lemma_mov(code, w, r8, Reg64::Rdx, Reg64::Rax);
    lemma_then(code, w, r, r8, r9);
    r9
}

/// What the frame holds while the old tape is given back.
spec fn parked(b: Run, sp: int, g: int, half: int, new: int, off: int) -> bool {
    &&& load64(b.cpu.mem, sp - 56) == g
    &&& load64(b.cpu.mem, sp - 48) == half
    &&& load64(b.cpu.mem, sp - 40) == new
    &&& load64(b.cpu.mem, sp - 32) == off % word()
}

/// The values are saved, and the old tape is given back.
#[verifier::rlimit(60)]
proof fn lemma_free(
    code: Seq<AsmInst>,
    w: World,
    r: Run,
    q: Run,
    sp: int,
    back: int,
    exit: AsmLabel,
    je: int,
    free: AsmLabel,
    g: int,
    half: int,
    new: int,
    off: int,
) -> (b: Run)
    requires
        labels_unique(code),
        sits(code, r.pc, save_scratch_insts() + free_old_insts(exit, free)),
        0 <= je < code.len(),
        code[je] == AsmInst::Label(exit),
        framed(r, q, sp, back),
        128 <= sp < ceiling(),
        r.cpu.regs[Reg64::Rdx] == g,
        r.cpu.regs[Reg64::R8] == half,
        r.cpu.regs[Reg64::R11] == new,
        r.cpu.regs[Reg64::R9] == off % word(),
        0 <= g < word(),
        0 <= half < word(),
        0 <= new < word(),
        (w.imports)(free) == Some(Kernel32Import::VirtualFree),
    ensures
        reaches(code, w, r, b),
        b.pc == r.pc + 10,
        framed(b, q, sp, back),
        parked(b, sp, g, half, new, off),
        b.refused == r.refused,
        b.live == Set::new(|m: (int, int)| r.live.contains(m) && m.0 != tape(r).0),
        forall|y: int| y < sp - 96 || sp <= y ==> #[trigger] b.cpu.mem[y] == r.cpu.mem[y],
{
    let a = save_scratch_insts();
    let c = free_old_insts(exit, free);
    let p = r.pc;
    lemma_parts(code, p, a, c);
    assert(code[p + 0] == a[0] && code[p + 1] == a[1] && code[p + 2] == a[2] && code[p + 3] == a[3]);
    assert(code[p + 4 + 0] == c[0] && code[p + 4 + 1] == c[1] && code[p + 4 + 2] == c[2]);
    assert(code[p + 4 + 3] == c[3] && code[p + 4 + 4] == c[4] && code[p + 4 + 5] == c[5]);
    let r1 = lemma_save(code, w, r, 40, Reg64::Rdx);
    let r2 = lemma_save(code, w, r1, 48, Reg64::R8);
    lemma_then(code, w, r, r1, r2);
    lemma_same_load(r2.cpu.mem, r1.cpu.mem, sp - 56);
    let r3 = lemma_save(code, w, r2, 56, Reg64::R11);
    lemma_then(code, w, r, r2, r3);
    lemma_same_load(r3.cpu.mem, r2.cpu.mem, sp - 56);
    lemma_same_load(r3.cpu.mem, r2.cpu.mem, sp - 48);
    let r4 = lemma_save(code, w, r3, 64, Reg64::R9);
    lemma_then(code, w, r, r3, r4);
    lemma_same_load(r4.cpu.mem, r3.cpu.mem, sp - 56);
    lemma_same_load(r4.cpu.mem, r3.cpu.mem, sp - 48);
    lemma_same_load(r4.cpu.mem, r3.cpu.mem, sp - 40);
    lemma_framed(r, r4, q, sp, back);
    let r5 = lemma_mov(code, w, r4, Reg64::Rcx, Reg64::R12);
    lemma_then(code, w, r, r4, r5);
    let r6 = lemma_imm(code, w, r5, Reg64::Rdx, 0);
    lemma_then(code, w, r, r5, r6);
    let r7 = lemma_imm(code, w, r6, Reg64::R8, 0x8000);
    lemma_then(code, w, r, r6, r7);
    assert(r7.cpu.regs[Reg64::Rdx] == 0 && r7.cpu.regs[Reg64::R8] == 0x8000);
    assert(r7.cpu.mem == r4.cpu.mem);
    lemma_import(code, w, r7, free, Kernel32Import::VirtualFree);
    let r8 = windows_call(w, r7, Kernel32Import::VirtualFree);
    lemma_then(code, w, r, r7, r8);
    lemma_compare_imm(r8, Reg64::Rax, 0);
    let r9 = after(r8, c[4]);
    lemma_plain(code, w, r8, c[4]);
    lemma_then(code, w, r, r8, r9);
    lemma_jump(code, w, r9, je);
    let b = Run { pc: p + 10, ..r9 };
    lemma_then(code, w, r, r9, b);
    assert(bytewise(b.cpu.mem)) by {
        assert forall|y: int| 0 <= #[trigger] b.cpu.mem[y] < 256 by {
            assert(0 <= r4.cpu.mem[y] < 256);
        }
    }
    assert forall|y: int| sp - 64 <= y < sp implies #[trigger] b.cpu.mem[y] == r4.cpu.mem[y] by {}
    lemma_framed(r4, b, q, sp, back);
    lemma_same_load(b.cpu.mem, r4.cpu.mem, sp - 56);
    lemma_same_load(b.cpu.mem, r4.cpu.mem, sp - 48);
    lemma_same_load(b.cpu.mem, r4.cpu.mem, sp - 40);
    lemma_same_load(b.cpu.mem, r4.cpu.mem, sp - 32);
    b
}

/// The new tape is taken, and the routine comes back.
#[verifier::rlimit(60)]
proof fn lemma_adopt(
    code: Seq<AsmInst>,
    w: World,
    r: Run,
    q: Run,
    sp: int,
    back: int,
    g: int,
    half: int,
    new: int,
    off: int,
) -> (b: Run)
    requires
        sits(code, r.pc, adopt_new_insts()),
        framed(r, q, sp, back),
        parked(r, sp, g, half, new, off),
        128 <= sp < ceiling(),
        0 <= g,
        0 <= half,
        0 <= new,
        g + half < word(),
        g + new < word(),
        0 <= g + half + off < word(),
    ensures
        reaches(code, w, r, b),
        b.pc == back,
        b == (Run { pc: b.pc, cpu: b.cpu, ..r }),
        b.cpu.mem == r.cpu.mem,
        b.cpu.down == r.cpu.down,
        b.cpu.regs[Reg64::R12] == g,
        b.cpu.regs[Reg64::R13] == g + half + off,
        b.cpu.regs[Reg64::R14] == g + new,
        b.cpu.regs[Reg64::Rsp] == sp,
        b.cpu.regs[Reg64::Rdi] == q.cpu.regs[Reg64::Rdi],
        b.cpu.regs[Reg64::Rsi] == q.cpu.regs[Reg64::Rsi],
        b.cpu.regs[Reg64::Rbx] == q.cpu.regs[Reg64::Rbx],
        b.cpu.regs[Reg64::Rbp] == q.cpu.regs[Reg64::Rbp],
{
    let piece = adopt_new_insts();
    let p = r.pc;
    assert(code[p + 0] == piece[0] && code[p + 1] == piece[1] && code[p + 2] == piece[2]);
    assert(code[p + 3] == piece[3] && code[p + 4] == piece[4] && code[p + 5] == piece[5]);
    assert(code[p + 6] == piece[6] && code[p + 7] == piece[7] && code[p + 8] == piece[8]);
    assert(code[p + 9] == piece[9] && code[p + 10] == piece[10] && code[p + 11] == piece[11]);
    assert(code[p + 12] == piece[12] && code[p + 13] == piece[13]);
    let r1 = lemma_fetch(code, w, r, 40, Reg64::Rdx);
    let r2 = lemma_fetch(code, w, r1, 48, Reg64::R8);
    lemma_then(code, w, r, r1, r2);
    let r3 = lemma_fetch(code, w, r2, 56, Reg64::R11);
    lemma_then(code, w, r, r2, r3);
    let r4 = lemma_fetch(code, w, r3, 64, Reg64::R9);
    lemma_then(code, w, r, r3, r4);
    let r5 = lemma_mov(code, w, r4, Reg64::R12, Reg64::Rdx);
    lemma_then(code, w, r, r4, r5);
    let r6 = lemma_mov(code, w, r5, Reg64::R13, Reg64::Rdx);
    lemma_then(code, w, r, r5, r6);
    let r7 = lemma_sum(code, w, r6, Reg64::R13, Reg64::R8);
    lemma_then(code, w, r, r6, r7);
    assert(r7.cpu.regs[Reg64::R13] == g + half);
    let r8 = lemma_sum(code, w, r7, Reg64::R13, Reg64::R9);
    lemma_then(code, w, r, r7, r8);
    lemma_mod_add(g + half, off, off % word());
    let r9 = lemma_mov(code, w, r8, Reg64::R14, Reg64::Rdx);
    lemma_then(code, w, r, r8, r9);
    let r10 = lemma_sum(code, w, r9, Reg64::R14, Reg64::R11);
    lemma_then(code, w, r, r9, r10);
    assert(r10.cpu.regs[Reg64::R14] == g + new);
    let r11 = lemma_fetch(code, w, r10, 72, Reg64::Rdi);
    lemma_then(code, w, r, r10, r11);
    let r12 = lemma_fetch(code, w, r11, 80, Reg64::Rsi);
    lemma_then(code, w, r, r11, r12);
    let r13 = after(r12, piece[12]);
    lemma_add_imm(r12, Reg64::Rsp, 88);
    lemma_plain(code, w, r12, piece[12]);
    lemma_then(code, w, r, r12, r13);
    assert(r13.cpu.regs[Reg64::Rsp] == sp - 8);
    assert(r13.cpu.mem == r.cpu.mem);
    lemma_return(code, w, r13);
    let b = Run { pc: r13.cpu.top(), cpu: r13.cpu.popped(), ..r13 };
    lemma_then(code, w, r, r13, b);
    b
}

/// The memory behind the copy of the old tape, outside the frame.
proof fn lemma_moved_memory(
    q: Map<int, int>,
    m: Map<int, int>,
    lo: int,
    old: int,
    g: int,
    new: int,
    half: int,
    sp: int,
)
    requires
        0 <= old,
        half == (new - old) / 2,
        2 * old <= new,
        apart((lo, lo + old), (g, g + new)),
        apart((sp - 96, sp), (g, g + new)),
        apart((sp - 96, sp), (lo, lo + old)),
        forall|y: int|
            y < sp - 96 || sp <= y ==> #[trigger] m[y] == (if g <= y < g + new {
                0
            } else {
                q[y]
            }),
    ensures
        ({
            let c = copied(m, lo, g + half, old as nat, 1);
            &&& forall|y: int|
                g <= y < g + new ==> #[trigger] c[y] == (if g + half <= y < g + half + old {
                    q[lo + (y - (g + half))]
                } else {
                    0
                })
            &&& forall|y: int|
                !(g <= y < g + new) && (y < sp - 96 || sp <= y) ==> #[trigger] c[y] == q[y]
            &&& forall|y: int| sp - 96 <= y < sp ==> #[trigger] c[y] == m[y]
        }),
{
    lemma_copied(m, lo, g + half, old as nat);
    let c = copied(m, lo, g + half, old as nat, 1);
    assert forall|y: int| g <= y < g + new implies #[trigger] c[y] == (if g + half <= y < g + half
        + old {
        q[lo + (y - (g + half))]
    } else {
        0
    }) by {
        if g + half <= y < g + half + old {
            let z = lo + (y - (g + half));
            assert(lo <= z < lo + old);
            assert(m[z] == q[z]);
        } else {
            assert(m[y] == 0);
        }
    }
    assert forall|y: int| !(g <= y < g + new) && (y < sp - 96 || sp <= y) implies #[trigger] c[y]
        == q[y] by {
        assert(m[y] == q[y]);
    }
}

/// The imports of the growth routine.
pub struct GrowImports {
    /// `ExitProcess`.
    pub leave: AsmLabel,
    /// `VirtualAlloc`.
    pub alloc: AsmLabel,
    /// `VirtualFree`.
    pub free: AsmLabel,
}

/// They are what they should be.
pub open spec fn linked(w: World, i: GrowImports) -> bool {
    &&& (w.imports)(i.leave) == Some(Kernel32Import::ExitProcess)
    &&& (w.imports)(i.alloc) == Some(Kernel32Import::VirtualAlloc)
    &&& (w.imports)(i.free) == Some(Kernel32Import::VirtualFree)
}

/// One call of the growth routine.
#[verifier::rlimit(80)]
proof fn lemma_windows_grow(
    code: Seq<AsmInst>,
    w: World,
    r: Run,
    s: St,
    x: Site,
    d: int,
    e: AsmLabel,
    l: AsmLabel,
    exit: AsmLabel,
    i: GrowImports,
    at: int,
    je: int,
    back: int,
)
    requires
        labels_unique(code),
        honest(w),
        linked(w, i),
        sits(code, at, ensure_tape_insts(e, l, exit, i.alloc, i.free)),
        0 <= je < code.len(),
        code[je] == AsmInst::Label(exit),
        sits(code, je + 1, exit_process_insts(i.leave, 1)),
        wants(code, e, r, s, x, d, at, back),
    ensures
        comes(
            code,
            w,
            (Run { pc: at, cpu: r.cpu.pushed(back), ..r }),
            r,
            x,
            s.moved(d),
            back,
            None,
            true,
        ),
{
    let a1 = grow_search_insts(e, l);
    let a2 = alloc_new_insts(exit, i.alloc);
    let a3 = restore_lengths_insts();
    let a4 = copy_old_insts();
    let a5 = save_scratch_insts() + free_old_insts(exit, i.free);
    let a6 = adopt_new_insts();
    let t5 = a5 + a6;
    let t4 = a4 + t5;
    let t3 = a3 + t4;
    let t2 = a2 + t3;
    assert(ensure_tape_insts(e, l, exit, i.alloc, i.free) =~= a1 + t2);
    lemma_parts(code, at, a1, t2);
    lemma_parts(code, at + 20, a2, t3);
    lemma_parts(code, at + 28, a3, t4);
    lemma_parts(code, at + 37, a4, t5);
    lemma_parts(code, at + 43, a5, a6);
    assert(a1 =~= a1.take(9) + search_loop(l));
    lemma_parts(code, at, a1.take(9), search_loop(l));
    assert(a4 =~= crate::backend::codegen::copy_old_insts().take(6));
    let sp = x.sp;
    let lo = tape(r).0;
    let hi = tape(r).1;
    let old = hi - lo;
    let to = x.base + s.ptr + d;
    let off = to - lo;
    let t = s.moved(d);
    let r0 = Run { pc: at, cpu: r.cpu.pushed(back), ..r };
    let r1 = lemma_entry(code, w, r, s, x, e, l, at, d, back);
    let r2 = lemma_search(code, w, r1, l, old, off, old);
    lemma_then(code, w, r0, r1, r2);
    lemma_framed(r1, r2, r, sp, back);
    let new = r2.cpu.regs[Reg64::R11];
    let half = (new - old) / 2;
    if let Some(g) = (w.grant)(r.live, new) {
        assert(apart(x.zone, (g, g + new)));
    }
    let r3 = lemma_alloc(code, w, r2, r, sp, back, exit, je, i.leave, i.alloc, new);
    lemma_then(code, w, r0, r2, r3);
    match (w.grant)(r.live, new) {
        None => {
            assert(leads(code, w, r0, r, x, t, back, None, true, r3, 0));
        },
        Some(g) => {
            assert(apart(tape(r), (g, g + new)) && apart(buffer(r), (g, g + new)) && apart(
                x.zone,
                (g, g + new),
            ));
            let r4 = lemma_restore(code, w, r3, to, sp, new, g);
            lemma_then(code, w, r0, r3, r4);
            let r5 = lemma_copy(code, w, r4, g, half, old);
            lemma_then(code, w, r0, r4, r5);
            assert forall|y: int| y < sp - 96 || sp <= y implies #[trigger] r3.cpu.mem[y] == (if g
                <= y < g + new {
                0
            } else {
                r.cpu.mem[y]
            }) by {
                assert(r2.cpu.mem[y] == r.cpu.mem[y]);
            }
            lemma_moved_memory(r.cpu.mem, r3.cpu.mem, lo, old, g, new, half, sp);
            assert(bytewise(r5.cpu.mem)) by {
                assert forall|y: int| 0 <= #[trigger] r5.cpu.mem[y] < 256 by {
                    assert(0 <= r.cpu.mem[y] < 256);
                    assert(0 <= r3.cpu.mem[y] < 256);
                    assert(0 <= r.cpu.mem[lo + (y - (g + half))] < 256);
                }
            }
            lemma_framed(r3, r5, r, sp, back);
            let r6 = lemma_free(
                code,
                w,
                r5,
                r,
                sp,
                back,
                exit,
                je,
                i.free,
                g,
                half,
                new,
                off,
            );
            lemma_then(code, w, r0, r5, r6);
            let b = lemma_adopt(code, w, r6, r, sp, back, g, half, new, off);
            lemma_then(code, w, r0, r6, b);
            assert forall|y: int|
                buffer(r).0 <= y < buffer(r).1 || x.sp <= y < x.zone.1 implies #[trigger] b.cpu.mem[y]
                == r.cpu.mem[y] by {
                assert(r6.cpu.mem[y] == r5.cpu.mem[y]);
            }
            assert forall|y: int| g <= y < g + new implies #[trigger] b.cpu.mem[y] == (if g + half
                <= y < g + half + old {
                r.cpu.mem[lo + (y - (g + half))]
            } else {
                0
            }) by {
                assert(r6.cpu.mem[y] == r5.cpu.mem[y]);
            }
            assert(b.live.contains((g, g + new)) && b.live.contains(buffer(r)) && b.live.contains(
                x.zone,
            ));
            let base = lemma_grown_tape(r, b, s, x, d, new, g, true);
            assert(leads(code, w, r0, r, x, t, back, None, true, b, base));
        },
    }
}

/// The Windows growth routine does what it is for.
pub proof fn lemma_windows_grows(
    code: Seq<AsmInst>,
    w: World,
    e: AsmLabel,
    l: AsmLabel,
    exit: AsmLabel,
    i: GrowImports,
    at: int,
    je: int,
)
    requires
        labels_unique(code),
        honest(w),
        linked(w, i),
        sits(code, at, ensure_tape_insts(e, l, exit, i.alloc, i.free)),
        0 <= je < code.len(),
        code[je] == AsmInst::Label(exit),
        sits(code, je + 1, exit_process_insts(i.leave, 1)),
    ensures
        grows(code, w, e, true),
{
    assert(ensure_tape_insts(e, l, exit, i.alloc, i.free)[0] == AsmInst::Label(e));
    assert(code[at + 0] == AsmInst::Label(e));
    assert forall|r: Run, s: St, x: Site, d: int, j: int, back: int|
        #![trigger wants(code, e, r, s, x, d, j, back)]
        wants(code, e, r, s, x, d, j, back) implies comes(
        code,
        w,
        (Run { pc: j, cpu: r.cpu.pushed(back), ..r }),
        r,
        x,
        s.moved(d),
        back,
        None,
        true,
    ) by {
        if j < at {
            assert(code[j] is Label && code[at] is Label);
        } else if at < j {
            assert(code[at] is Label && code[j] is Label);
        }
        lemma_windows_grow(code, w, r, s, x, d, e, l, exit, i, at, je, back);
    }
}

} // verus!
