//! Running the growth routine on Linux.

use vstd::prelude::*;

use crate::backend::asm_ir::{AsmInst, AsmLabel, Reg64};
use crate::backend::codegen::{
    adopt_new_insts, copy_old_insts, ensure_tape_insts, exit_one_insts, grow_search_insts,
    map_new_insts, restore_lengths_insts, unmap_old_insts, GROW_LOOP_ID,
};
use crate::backend::run_laws::{
    apart, arrived, buffer, bytewise, ceiling, comes, far, floor, grows, keeps, leads,
    lemma_compare_imm, lemma_mod_add, lemma_parts, mirrors, rolls, sits, starved, tape, wants,
    Site,
};
use crate::backend::x86_64::encode::labels_unique;
use crate::backend::x86_64::machine::{
    after, cleared, copied, lemma_jump, lemma_pass, lemma_plain, lemma_return, lemma_stored,
    lemma_same_load, lemma_syscall, lemma_then, linux_call, load64, reaches, store64, word, Run,
    World,
};
use crate::interp::machine::St;

verus! {

/// Only the register, the flags and the place in the code differ.
pub open spec fn sets_reg(r: Run, b: Run, reg: Reg64, v: int) -> bool {
    &&& b.cpu.regs == r.cpu.regs.insert(reg, v)
    &&& b.cpu.mem == r.cpu.mem
    &&& b.cpu.down == r.cpu.down
    &&& b == (Run { pc: r.pc + 1, cpu: b.cpu, ..r })
}

/// A register is copied.
pub proof fn lemma_mov(code: Seq<AsmInst>, w: World, r: Run, d: Reg64, q: Reg64) -> (b: Run)
    requires
        0 <= r.pc < code.len(),
        code[r.pc] == AsmInst::MovRegReg(d, q),
        r.over is None,
    ensures
        reaches(code, w, r, b),
        sets_reg(r, b, d, r.cpu.regs[q]),
{
    reveal(after);
    lemma_plain(code, w, r, code[r.pc]);
    after(r, code[r.pc])
}

/// A register is set.
pub proof fn lemma_imm(code: Seq<AsmInst>, w: World, r: Run, d: Reg64, v: i64) -> (b: Run)
    requires
        0 <= r.pc < code.len(),
        code[r.pc] == AsmInst::MovRegImm64(d, v),
        r.over is None,
    ensures
        reaches(code, w, r, b),
        sets_reg(r, b, d, v as int % word()),
{
    reveal(after);
    lemma_plain(code, w, r, code[r.pc]);
    after(r, code[r.pc])
}

/// A register is added to another.
pub proof fn lemma_sum(code: Seq<AsmInst>, w: World, r: Run, d: Reg64, q: Reg64) -> (b: Run)
    requires
        0 <= r.pc < code.len(),
        code[r.pc] == AsmInst::AddRegReg(d, q),
        r.over is None,
    ensures
        reaches(code, w, r, b),
        sets_reg(r, b, d, (r.cpu.regs[d] + r.cpu.regs[q]) % word()),
{
    reveal(after);
    lemma_plain(code, w, r, code[r.pc]);
    after(r, code[r.pc])
}

/// A register is subtracted from another.
pub proof fn lemma_difference(code: Seq<AsmInst>, w: World, r: Run, d: Reg64, q: Reg64) -> (b: Run)
    requires
        0 <= r.pc < code.len(),
        code[r.pc] == AsmInst::SubRegReg(d, q),
        r.over is None,
    ensures
        reaches(code, w, r, b),
        sets_reg(r, b, d, (r.cpu.regs[d] - r.cpu.regs[q]) % word()),
{
    reveal(after);
    lemma_plain(code, w, r, code[r.pc]);
    after(r, code[r.pc])
}

/// A register is halved.
pub proof fn lemma_half(code: Seq<AsmInst>, w: World, r: Run, d: Reg64) -> (b: Run)
    requires
        0 <= r.pc < code.len(),
        code[r.pc] == AsmInst::ShrRegImm8(d, 1),
        r.over is None,
    ensures
        reaches(code, w, r, b),
        sets_reg(r, b, d, r.cpu.regs[d] / 2),
{
    reveal(after);
    vstd::arithmetic::power2::lemma2_to64();
    lemma_plain(code, w, r, code[r.pc]);
    after(r, code[r.pc])
}

/// The values of the search for a new length: `old` is the length, `off` the place that is
/// wanted, counted from the start of the tape, and `len` the length that is tried.
pub open spec fn searches(r: Run, old: int, off: int, len: int) -> bool {
    let g = r.cpu.regs;
    &&& r.over is None
    &&& g[Reg64::R10] == old
    &&& g[Reg64::R9] == off % word()
    &&& g[Reg64::R11] == len
    &&& 0 < old <= ceiling()
    &&& -2 * far() <= off <= 2 * far()
    &&& old <= len < 8 * far()
    &&& off < 0 || old <= off
}

/// The tape stays while registers for scratch change.
pub open spec fn scratches(a: Run, b: Run) -> bool {
    &&& b == (Run { pc: b.pc, cpu: b.cpu, ..a })
    &&& b.cpu.mem == a.cpu.mem
    &&& b.cpu.down == a.cpu.down
    &&& forall|q: Reg64|
        !(q is Rax || q is R8 || q is R9 || q is R10 || q is R11) ==> #[trigger] b.cpu.regs[q]
            == a.cpu.regs[q]
}

/// The loop of the search.
pub open spec fn search_loop(l: AsmLabel) -> Seq<AsmInst> {
    seq![
        AsmInst::Label(l),
        AsmInst::AddRegReg(Reg64::R11, Reg64::R11),
        AsmInst::MovRegReg(Reg64::R8, Reg64::R11),
        AsmInst::SubRegReg(Reg64::R8, Reg64::R10),
        AsmInst::ShrRegImm8(Reg64::R8, 1),
        AsmInst::MovRegReg(Reg64::Rax, Reg64::R8),
        AsmInst::AddRegReg(Reg64::Rax, Reg64::R9),
        AsmInst::CmpRegImm32(Reg64::Rax, 0),
        AsmInst::Jl(l),
        AsmInst::CmpRegReg(Reg64::Rax, Reg64::R11),
        AsmInst::Jge(l),
    ]
}

/// Two registers are compared as signed numbers.
proof fn lemma_compare_signed(
    code: Seq<AsmInst>,
    w: World,
    r: Run,
    a: Reg64,
    c: Reg64,
) -> (b: Run)
    requires
        0 <= r.pc < code.len(),
        code[r.pc] == AsmInst::CmpRegReg(a, c),
        r.over is None,
        0 <= r.cpu.regs[a] < word() / 2,
        0 <= r.cpu.regs[c] < word() / 2,
    ensures
        reaches(code, w, r, b),
        b.cpu.regs == r.cpu.regs,
        b.cpu.mem == r.cpu.mem,
        b.cpu.down == r.cpu.down,
        b.cpu.less == (r.cpu.regs[a] < r.cpu.regs[c]),
        b == (Run { pc: r.pc + 1, cpu: b.cpu, ..r }),
{
    reveal(after);
    lemma_plain(code, w, r, code[r.pc]);
    after(r, code[r.pc])
}

/// The front of a round: the length is doubled, and RAX gets the place that is wanted.
proof fn lemma_round(
    code: Seq<AsmInst>,
    w: World,
    r: Run,
    l: AsmLabel,
    old: int,
    off: int,
    len: int,
) -> (b: Run)
    requires
        sits(code, r.pc, search_loop(l)),
        searches(r, old, off, len),
    ensures
        reaches(code, w, r, b),
        b.pc == r.pc + 7,
        scratches(r, b),
        b.cpu.regs[Reg64::R10] == old,
        b.cpu.regs[Reg64::R9] == off % word(),
        b.cpu.regs[Reg64::R11] == 2 * len,
        b.cpu.regs[Reg64::Rax] == ((2 * len - old) / 2 + off) % word(),
{
    let piece = search_loop(l);
    let p = r.pc;
    assert(code[p + 0] == piece[0] && code[p + 1] == piece[1] && code[p + 2] == piece[2]);
    assert(code[p + 3] == piece[3] && code[p + 4] == piece[4] && code[p + 5] == piece[5]);
    assert(code[p + 6] == piece[6]);
    let new = 2 * len;
    let half = (new - old) / 2;
    let r1 = Run { pc: p + 1, ..r };
    lemma_pass(code, w, r);
    let r2 = lemma_sum(code, w, r1, Reg64::R11, Reg64::R11);
    lemma_then(code, w, r, r1, r2);
    let r3 = lemma_mov(code, w, r2, Reg64::R8, Reg64::R11);
    lemma_then(code, w, r, r2, r3);
    let r4 = lemma_difference(code, w, r3, Reg64::R8, Reg64::R10);
    lemma_then(code, w, r, r3, r4);
    assert(r4.cpu.regs[Reg64::R8] == new - old);
    let r5 = lemma_half(code, w, r4, Reg64::R8);
    lemma_then(code, w, r, r4, r5);
    let r6 = lemma_mov(code, w, r5, Reg64::Rax, Reg64::R8);
    lemma_then(code, w, r, r5, r6);
    let r7 = lemma_sum(code, w, r6, Reg64::Rax, Reg64::R9);
    lemma_then(code, w, r, r6, r7);
    lemma_mod_add(half, off, off % word());
    r7
}

/// The search ends with a length that has room for the place that is wanted.
pub proof fn lemma_search(
    code: Seq<AsmInst>,
    w: World,
    r: Run,
    l: AsmLabel,
    old: int,
    off: int,
    len: int,
) -> (b: Run)
    requires
        labels_unique(code),
        sits(code, r.pc, search_loop(l)),
        searches(r, old, off, len),
    ensures
        reaches(code, w, r, b),
        b.pc == r.pc + 11,
        scratches(r, b),
        ({
            let new = b.cpu.regs[Reg64::R11];
            &&& 2 * old <= new < 16 * far()
            &&& 0 <= (new - old) / 2 + off < new
        }),
    decreases 8 * far() - len,
{
    let piece = search_loop(l);
    let p = r.pc;
    assert(code[p + 0] == piece[0] && code[p + 7] == piece[7] && code[p + 8] == piece[8]);
    assert(code[p + 9] == piece[9] && code[p + 10] == piece[10]);
    let new = 2 * len;
    let v = (new - old) / 2 + off;
    let r7 = lemma_round(code, w, r, l, old, off, len);
    assert(v >= 0 ==> v % word() == v);
    assert(v < 0 ==> v % word() == v + word());
    lemma_compare_imm(r7, Reg64::Rax, 0);
    let r8 = after(r7, piece[7]);
    lemma_plain(code, w, r7, piece[7]);
    lemma_then(code, w, r, r7, r8);
    assert(r8.cpu.less == (v < 0));
    lemma_jump(code, w, r8, p);
    if v < 0 {
        let again = Run { pc: p, ..r8 };
        lemma_then(code, w, r, r8, again);
        assert(new < 8 * far());
        let b = lemma_search(code, w, again, l, old, off, new);
        lemma_then(code, w, r, again, b);
        b
    } else {
        let r9 = Run { pc: p + 9, ..r8 };
        lemma_then(code, w, r, r8, r9);
        let r10 = lemma_compare_signed(code, w, r9, Reg64::Rax, Reg64::R11);
        lemma_then(code, w, r, r9, r10);
        lemma_jump(code, w, r10, p);
        if v >= new {
            let again = Run { pc: p, ..r10 };
            lemma_then(code, w, r, r10, again);
            assert(new < 8 * far());
            let b = lemma_search(code, w, again, l, old, off, new);
            lemma_then(code, w, r, again, b);
            b
        } else {
            let b = Run { pc: p + 11, ..r10 };
            lemma_then(code, w, r, r10, b);
            b
        }
    }
}

/// Copied bytes, where the ranges do not overlap.
pub proof fn lemma_copied(mem: Map<int, int>, from: int, to: int, n: nat)
    requires
        apart((from, from + n), (to, to + n)),
    ensures
        forall|y: int|
            #[trigger] copied(mem, from, to, n, 1)[y] == (if to <= y < to + n {
                mem[from + (y - to)]
            } else {
                mem[y]
            }),
    decreases n,
{
    if n > 0 {
        let m = mem.insert(to, mem[from]);
        lemma_copied(m, from + 1, to + 1, (n - 1) as nat);
        assert forall|y: int|
            #[trigger] copied(mem, from, to, n, 1)[y] == (if to <= y < to + n {
                mem[from + (y - to)]
            } else {
                mem[y]
            }) by {
            assert(copied(mem, from, to, n, 1)[y] == copied(m, from + 1, to + 1, (n - 1) as nat, 1)[y]);
            if to + 1 <= y < to + n {
                assert(from + 1 + (y - (to + 1)) == from + (y - to));
            }
        }
    }
}

/// A world gives memory that nothing else uses.
pub open spec fn honest(w: World) -> bool {
    forall|live: Set<(int, int)>, n: int|
        #[trigger] (w.grant)(live, n) matches Some(g) ==> {
            &&& floor() <= g
            &&& g + n <= ceiling()
            &&& forall|m: (int, int)| #[trigger] live.contains(m) ==> apart(m, (g, g + n))
        }
}

/// The tape after growth: the old cells stand in the middle of the new ones.
pub proof fn lemma_grown_tape(
    r: Run,
    b: Run,
    s: St,
    x: Site,
    d: int,
    new: int,
    g: int,
    win: bool,
) -> (base: int)
    requires
        rolls(r, s, x),
        ({
            let old = tape(r).1 - tape(r).0;
            let half = (new - old) / 2;
            let off = x.base + s.ptr + d - tape(r).0;
            &&& 2 * old <= new
            &&& 0 <= half + off < new
            &&& floor() <= g
            &&& g + new <= ceiling()
            &&& apart(tape(r), (g, g + new))
            &&& apart(buffer(r), (g, g + new))
            &&& apart(x.zone, (g, g + new))
            &&& b.cpu.regs[Reg64::R12] == g
            &&& b.cpu.regs[Reg64::R14] == g + new
            &&& b.cpu.regs[Reg64::R13] == g + half + off
            &&& forall|y: int|
                g <= y < g + new ==> #[trigger] b.cpu.mem[y] == (if g + half <= y < g + half + old {
                    r.cpu.mem[tape(r).0 + (y - (g + half))]
                } else {
                    0
                })
        }),
        forall|y: int|
            buffer(r).0 <= y < buffer(r).1 || x.sp <= y < x.zone.1 ==> #[trigger] b.cpu.mem[y]
                == r.cpu.mem[y],
        bytewise(b.cpu.mem),
        0 <= b.cpu.regs[Reg64::Rdi] < word(),
        0 <= b.cpu.regs[Reg64::Rsi] < word(),
        b.cpu.regs[Reg64::Rsp] == x.sp,
        b.cpu.regs[Reg64::Rbp] == r.cpu.regs[Reg64::Rbp],
        b.cpu.regs[Reg64::Rbx] == r.cpu.regs[Reg64::Rbx],
        win ==> b.cpu.regs[Reg64::Rdi] == r.cpu.regs[Reg64::Rdi] && b.cpu.regs[Reg64::Rsi]
            == r.cpu.regs[Reg64::Rsi],
        b.out == r.out,
        b.reads == r.reads,
        b.live.contains((g, g + new)),
        b.live.contains(buffer(r)),
        b.live.contains(x.zone),
        b.over is None,
        !b.refused,
        !b.cpu.down,
    ensures
        arrived(r, x, b, base, s.moved(d), b.pc, None, win),
{
    let lo = tape(r).0;
    let hi = tape(r).1;
    let old = hi - lo;
    let half = (new - old) / 2;
    let base = g + half + x.base - lo;
    let t = s.moved(d);
    assert(mirrors(b.cpu.mem, t, base, g, g + new)) by {
        assert forall|i: int|
            #[trigger] t.cells[i] == (if g <= base + i < g + new {
                b.cpu.mem[base + i]
            } else {
                0
            }) by {
            assert(s.cells[i] == (if lo <= x.base + i < hi {
                r.cpu.mem[x.base + i]
            } else {
                0
            }));
            let y = base + i;
            assert(lo + (y - (g + half)) == x.base + i);
            if g <= y < g + new {
                assert(b.cpu.mem[y] == (if g + half <= y < g + half + old {
                    r.cpu.mem[lo + (y - (g + half))]
                } else {
                    0
                }));
            }
        }
    }
    assert(rolls(b, t, (Site { base, ..x })));
    assert(keeps(r, b, x, win)) by {
        assert forall|y: int|
            buffer(r).0 <= y < buffer(r).1 || x.sp <= y < x.zone.1 implies #[trigger] r.cpu.mem[y]
            == b.cpu.mem[y] by {
            assert(b.cpu.mem[y] == r.cpu.mem[y]);
        }
    }
    base
}

/// The failure exit leaves with status 1.
pub proof fn lemma_linux_exit(code: Seq<AsmInst>, w: World, r: Run, l: AsmLabel) -> (b: Run)
    requires
        sits(code, r.pc, exit_one_insts(l)),
        r.over is None,
    ensures
        reaches(code, w, r, b),
        b.over == Some(1int),
        b.refused == r.refused,
{
    let piece = exit_one_insts(l);
    let p = r.pc;
    assert(code[p + 0] == piece[0] && code[p + 1] == piece[1]);
    assert(code[p + 2] == piece[2] && code[p + 3] == piece[3]);
    let r1 = Run { pc: p + 1, ..r };
    lemma_pass(code, w, r);
    let r2 = lemma_imm(code, w, r1, Reg64::Rax, 60);
    lemma_then(code, w, r, r1, r2);
    let r3 = lemma_imm(code, w, r2, Reg64::Rdi, 1);
    lemma_then(code, w, r, r2, r3);
    lemma_syscall(code, w, r3);
    let b = linux_call(w, r3);
    lemma_then(code, w, r, r3, b);
    b
}

/// The entry of the growth routine.
proof fn lemma_linux_entry(
    code: Seq<AsmInst>,
    w: World,
    r: Run,
    e: AsmLabel,
    to: int,
) -> (b: Run)
    requires
        sits(code, r.pc, grow_search_insts(e, AsmLabel(GROW_LOOP_ID))),
        r.over is None,
        floor() <= tape(r).0 < tape(r).1 <= ceiling(),
        r.cpu.regs[Reg64::R15] == to % word(),
        -far() <= to <= far() + ceiling(),
        to < tape(r).0 || tape(r).1 <= to,
    ensures
        reaches(code, w, r, b),
        b.pc == r.pc + 6,
        scratches(r, b),
        searches(b, tape(r).1 - tape(r).0, to - tape(r).0, tape(r).1 - tape(r).0),
{
    let piece = grow_search_insts(e, AsmLabel(GROW_LOOP_ID));
    let p = r.pc;
    assert(code[p + 0] == piece[0] && code[p + 1] == piece[1] && code[p + 2] == piece[2]);
    assert(code[p + 3] == piece[3] && code[p + 4] == piece[4] && code[p + 5] == piece[5]);
    let r1 = Run { pc: p + 1, ..r };
    lemma_pass(code, w, r);
    let r2 = lemma_mov(code, w, r1, Reg64::R10, Reg64::R14);
    lemma_then(code, w, r, r1, r2);
    let r3 = lemma_difference(code, w, r2, Reg64::R10, Reg64::R12);
    lemma_then(code, w, r, r2, r3);
    let r4 = lemma_mov(code, w, r3, Reg64::R9, Reg64::R15);
    lemma_then(code, w, r, r3, r4);
    let r5 = lemma_difference(code, w, r4, Reg64::R9, Reg64::R12);
    lemma_then(code, w, r, r4, r5);
    lemma_mod_add(-tape(r).0, to, to % word());
    let r6 = lemma_mov(code, w, r5, Reg64::R11, Reg64::R10);
    lemma_then(code, w, r, r5, r6);
    r6
}

/// What a system call leaves of the registers that the growth routine works with.
pub open spec fn holds_on(a: Run, b: Run) -> bool {
    &&& b.out == a.out
    &&& b.reads == a.reads
    &&& b.over == a.over
    &&& b.cpu.down == a.cpu.down
    &&& forall|q: Reg64|
        (q is Rbx || q is Rbp || q is Rsp || q is R12 || q is R13 || q is R14 || q is R15)
            ==> #[trigger] b.cpu.regs[q] == a.cpu.regs[q]
}

/// A new tape is mapped, or the program leaves.
#[verifier::rlimit(40)]
proof fn lemma_linux_map(
    code: Seq<AsmInst>,
    w: World,
    r: Run,
    exit: AsmLabel,
    je: int,
    new: int,
) -> (b: Run)
    requires
        labels_unique(code),
        sits(code, r.pc, map_new_insts(exit)),
        sits(code, je, exit_one_insts(exit)),
        honest(w),
        r.over is None,
        !r.refused,
        r.cpu.regs[Reg64::R11] == new,
        0 <= new,
    ensures
        reaches(code, w, r, b),
        (w.grant)(r.live, new) is None ==> starved(b),
        (w.grant)(r.live, new) matches Some(g) ==> {
            &&& b.pc == r.pc + 10
            &&& holds_on(r, b)
            &&& !b.refused
            &&& b.cpu.regs[Reg64::Rax] == g
            &&& b.cpu.regs[Reg64::Rsi] == new
            &&& b.cpu.mem == cleared(r.cpu.mem, g, new)
            &&& b.live == r.live.insert((g, g + new))
        },
{
    let piece = map_new_insts(exit);
    let p = r.pc;
    assert(code[p + 0] == piece[0] && code[p + 1] == piece[1] && code[p + 2] == piece[2]);
    assert(code[p + 3] == piece[3] && code[p + 4] == piece[4] && code[p + 5] == piece[5]);
    assert(code[p + 6] == piece[6] && code[p + 7] == piece[7] && code[p + 8] == piece[8]);
    assert(code[p + 9] == piece[9]);
    assert(code[je + 0] == exit_one_insts(exit)[0]);
    let r1 = lemma_imm(code, w, r, Reg64::Rax, 9);
    let r2 = lemma_imm(code, w, r1, Reg64::Rdi, 0);
    lemma_then(code, w, r, r1, r2);
    let r3 = lemma_mov(code, w, r2, Reg64::Rsi, Reg64::R11);
    lemma_then(code, w, r, r2, r3);
    let r4 = lemma_imm(code, w, r3, Reg64::Rdx, 3);
    lemma_then(code, w, r, r3, r4);
    let r5 = lemma_imm(code, w, r4, Reg64::R10, 0x22);
    lemma_then(code, w, r, r4, r5);
    let r6 = lemma_imm(code, w, r5, Reg64::R8, (-1) as i64);
    lemma_then(code, w, r, r5, r6);
    let r7 = lemma_imm(code, w, r6, Reg64::R9, 0);
    lemma_then(code, w, r, r6, r7);
    assert((-1int) % word() == word() - 1);
    assert(r7.cpu.regs[Reg64::Rax] == 9 && r7.cpu.regs[Reg64::Rdi] == 0);
    assert(r7.cpu.regs[Reg64::Rdx] == 3 && r7.cpu.regs[Reg64::R10] == 0x22);
    assert(r7.cpu.regs[Reg64::R8] == word() - 1 && r7.cpu.regs[Reg64::R9] == 0);
    assert(r7.cpu.regs[Reg64::Rsi] == new);
    let r8 = linux_call(w, r7);
    lemma_syscall(code, w, r7);
    lemma_then(code, w, r, r7, r8);
    lemma_compare_imm(r8, Reg64::Rax, 0);
    let r9 = after(r8, piece[8]);
    lemma_plain(code, w, r8, piece[8]);
    lemma_then(code, w, r, r8, r9);
    lemma_jump(code, w, r9, je);
    match (w.grant)(r.live, new) {
        Some(g) => {
            let b = Run { pc: p + 10, ..r9 };
            lemma_then(code, w, r, r9, b);
            b
        },
        None => {
            let q = Run { pc: je, ..r9 };
            lemma_then(code, w, r, r9, q);
            let b = lemma_linux_exit(code, w, q, exit);
            lemma_then(code, w, r, q, b);
            b
        },
    }
}

/// The lengths are computed again.
proof fn lemma_linux_restore(
    code: Seq<AsmInst>,
    w: World,
    r: Run,
    to: int,
    new: int,
    g: int,
) -> (b: Run)
    requires
        sits(code, r.pc, restore_lengths_insts()),
        r.over is None,
        floor() <= tape(r).0 < tape(r).1 <= ceiling(),
        r.cpu.regs[Reg64::R15] == to % word(),
        r.cpu.regs[Reg64::Rsi] == new,
        r.cpu.regs[Reg64::Rax] == g,
        2 * (tape(r).1 - tape(r).0) <= new < 16 * far(),
    ensures
        reaches(code, w, r, b),
        b.pc == r.pc + 9,
        b == (Run { pc: b.pc, cpu: b.cpu, ..r }),
        b.cpu.mem == r.cpu.mem,
        holds_on(r, b),
        b.cpu.regs[Reg64::R10] == tape(r).1 - tape(r).0,
        b.cpu.regs[Reg64::R9] == (to - tape(r).0) % word(),
        b.cpu.regs[Reg64::R11] == new,
        b.cpu.regs[Reg64::R8] == (new - (tape(r).1 - tape(r).0)) / 2,
        b.cpu.regs[Reg64::Rdx] == g,
{
    let piece = restore_lengths_insts();
    let p = r.pc;
    assert(code[p + 0] == piece[0] && code[p + 1] == piece[1] && code[p + 2] == piece[2]);
    assert(code[p + 3] == piece[3] && code[p + 4] == piece[4] && code[p + 5] == piece[5]);
    assert(code[p + 6] == piece[6] && code[p + 7] == piece[7] && code[p + 8] == piece[8]);
    let r1 = lemma_mov(code, w, r, Reg64::R10, Reg64::R14);
    let r2 = lemma_difference(code, w, r1, Reg64::R10, Reg64::R12);
    lemma_then(code, w, r, r1, r2);
    let r3 = lemma_mov(code, w, r2, Reg64::R9, Reg64::R15);
    lemma_then(code, w, r, r2, r3);
    let r4 = lemma_difference(code, w, r3, Reg64::R9, Reg64::R12);
    lemma_then(code, w, r, r3, r4);
    lemma_mod_add(-tape(r).0, to, to % word());
    let r5 = lemma_mov(code, w, r4, Reg64::R11, Reg64::Rsi);
    lemma_then(code, w, r, r4, r5);
    let r6 = lemma_mov(code, w, r5, Reg64::R8, Reg64::R11);
    lemma_then(code, w, r, r5, r6);
    let r7 = lemma_difference(code, w, r6, Reg64::R8, Reg64::R10);
    lemma_then(code, w, r, r6, r7);
    let r8 = lemma_half(code, w, r7, Reg64::R8);
    lemma_then(code, w, r, r7, r8);
    let r9 = lemma_mov(code, w, r8, Reg64::Rdx, Reg64::Rax);
    lemma_then(code, w, r, r8, r9);
    r9
}

/// The old bytes are copied, and nothing else changes but the registers of the copy.
pub proof fn lemma_copy(
    code: Seq<AsmInst>,
    w: World,
    r: Run,
    g: int,
    half: int,
    old: int,
) -> (b: Run)
    requires
        sits(code, r.pc, copy_old_insts().take(6)),
        r.over is None,
        r.cpu.regs[Reg64::Rdx] == g,
        r.cpu.regs[Reg64::R8] == half,
        r.cpu.regs[Reg64::R10] == old,
        0 <= old,
        0 < g,
        0 <= half,
        g + half + old <= ceiling(),
        0 <= tape(r).0,
        tape(r).0 + old <= ceiling(),
    ensures
        reaches(code, w, r, b),
        b.pc == r.pc + 6,
        b == (Run { pc: b.pc, cpu: b.cpu, ..r }),
        b.cpu.mem == copied(r.cpu.mem, tape(r).0, g + half, old as nat, 1),
        !b.cpu.down,
        forall|q: Reg64|
            !(q is Rdi || q is Rsi || q is Rcx) ==> #[trigger] b.cpu.regs[q] == r.cpu.regs[q],
{
    let piece = copy_old_insts().take(6);
    let p = r.pc;
    assert(code[p + 0] == piece[0] && code[p + 1] == piece[1] && code[p + 2] == piece[2]);
    assert(code[p + 3] == piece[3] && code[p + 4] == piece[4] && code[p + 5] == piece[5]);
    let r1 = lemma_mov(code, w, r, Reg64::Rdi, Reg64::Rdx);
    let r2 = lemma_sum(code, w, r1, Reg64::Rdi, Reg64::R8);
    lemma_then(code, w, r, r1, r2);
    let r3 = lemma_mov(code, w, r2, Reg64::Rsi, Reg64::R12);
    lemma_then(code, w, r, r2, r3);
    let r4 = lemma_mov(code, w, r3, Reg64::Rcx, Reg64::R10);
    lemma_then(code, w, r, r3, r4);
    reveal(after);
    let r5 = after(r4, AsmInst::Cld);
    lemma_plain(code, w, r4, AsmInst::Cld);
    lemma_then(code, w, r, r4, r5);
    let b = after(r5, AsmInst::RepMovsb);
    lemma_plain(code, w, r5, AsmInst::RepMovsb);
    lemma_then(code, w, r, r5, b);
    b
}

/// The old tape is given back.
proof fn lemma_linux_unmap(code: Seq<AsmInst>, w: World, r: Run, exit: AsmLabel, je: int) -> (b: Run)
    requires
        labels_unique(code),
        sits(code, r.pc, unmap_old_insts(exit)),
        0 <= je < code.len(),
        code[je] == AsmInst::Label(exit),
        r.over is None,
    ensures
        reaches(code, w, r, b),
        b.pc == r.pc + 6,
        holds_on(r, b),
        b.refused == r.refused,
        b.cpu.mem == r.cpu.mem,
        b.live == r.live.remove((tape(r).0, tape(r).0 + r.cpu.regs[Reg64::R10])),
        b.cpu.regs[Reg64::Rdx] == r.cpu.regs[Reg64::Rdx],
        b.cpu.regs[Reg64::R8] == r.cpu.regs[Reg64::R8],
        b.cpu.regs[Reg64::R9] == r.cpu.regs[Reg64::R9],
        b.cpu.regs[Reg64::Rdi] == tape(r).0,
        b.cpu.regs[Reg64::Rsi] == r.cpu.regs[Reg64::R10],
{
    let piece = unmap_old_insts(exit);
    let p = r.pc;
    assert(code[p + 0] == piece[0] && code[p + 1] == piece[1] && code[p + 2] == piece[2]);
    assert(code[p + 3] == piece[3] && code[p + 4] == piece[4] && code[p + 5] == piece[5]);
    let r1 = lemma_imm(code, w, r, Reg64::Rax, 11);
    let r2 = lemma_mov(code, w, r1, Reg64::Rdi, Reg64::R12);
    lemma_then(code, w, r, r1, r2);
    let r3 = lemma_mov(code, w, r2, Reg64::Rsi, Reg64::R10);
    lemma_then(code, w, r, r2, r3);
    let r4 = linux_call(w, r3);
    lemma_syscall(code, w, r3);
    lemma_then(code, w, r, r3, r4);
    lemma_compare_imm(r4, Reg64::Rax, 0);
    let r5 = after(r4, piece[4]);
    lemma_plain(code, w, r4, piece[4]);
    lemma_then(code, w, r, r4, r5);
    lemma_jump(code, w, r5, je);
    let b = Run { pc: p + 6, ..r5 };
    lemma_then(code, w, r, r5, b);
    b
}

/// The new tape is taken, and the routine comes back.
proof fn lemma_linux_adopt(
    code: Seq<AsmInst>,
    w: World,
    r: Run,
    g: int,
    half: int,
    off: int,
    sp: int,
    back: int,
) -> (b: Run)
    requires
        sits(code, r.pc, adopt_new_insts()),
        r.over is None,
        r.cpu.regs[Reg64::Rdx] == g,
        r.cpu.regs[Reg64::R8] == half,
        r.cpu.regs[Reg64::R9] == off % word(),
        0 <= g,
        0 <= half,
        g + half < word(),
        0 <= g + half + off < word(),
        r.cpu.regs[Reg64::Rsp] == sp - 8,
        8 <= sp < ceiling(),
        load64(r.cpu.mem, sp - 8) == back,
    ensures
        reaches(code, w, r, b),
        b.pc == back,
        b == (Run { pc: b.pc, cpu: b.cpu, ..r }),
        b.cpu.mem == r.cpu.mem,
        b.cpu.down == r.cpu.down,
        b.cpu.regs[Reg64::R12] == g,
        b.cpu.regs[Reg64::R13] == g + half + off,
        b.cpu.regs[Reg64::R14] == r.cpu.regs[Reg64::R14],
        b.cpu.regs[Reg64::Rsp] == sp,
        b.cpu.regs[Reg64::Rbx] == r.cpu.regs[Reg64::Rbx],
        b.cpu.regs[Reg64::Rbp] == r.cpu.regs[Reg64::Rbp],
        b.cpu.regs[Reg64::Rdi] == r.cpu.regs[Reg64::Rdi],
        b.cpu.regs[Reg64::Rsi] == r.cpu.regs[Reg64::Rsi],
{
    let piece = adopt_new_insts();
    let p = r.pc;
    assert(code[p + 0] == piece[0] && code[p + 1] == piece[1] && code[p + 2] == piece[2]);
    assert(code[p + 3] == piece[3] && code[p + 4] == piece[4]);
    let r1 = lemma_mov(code, w, r, Reg64::R12, Reg64::Rdx);
    let r2 = lemma_mov(code, w, r1, Reg64::R13, Reg64::Rdx);
    lemma_then(code, w, r, r1, r2);
    let r3 = lemma_sum(code, w, r2, Reg64::R13, Reg64::R8);
    lemma_then(code, w, r, r2, r3);
    assert(r3.cpu.regs[Reg64::R13] == g + half);
    let r4 = lemma_sum(code, w, r3, Reg64::R13, Reg64::R9);
    lemma_then(code, w, r, r3, r4);
    lemma_mod_add(g + half, off, off % word());
    lemma_return(code, w, r4);
    let b = Run { pc: r4.cpu.top(), cpu: r4.cpu.popped(), ..r4 };
    lemma_then(code, w, r, r4, b);
    b
}

/// The old bytes in the middle of the new tape.
pub proof fn lemma_new_memory(mem: Map<int, int>, lo: int, old: int, g: int, new: int, half: int)
    requires
        0 <= old,
        half == (new - old) / 2,
        2 * old <= new,
        apart((lo, lo + old), (g, g + new)),
    ensures
        ({
            let after_ = copied(cleared(mem, g, new), lo, g + half, old as nat, 1);
            &&& forall|y: int|
                g <= y < g + new ==> #[trigger] after_[y] == (if g + half <= y < g + half + old {
                    mem[lo + (y - (g + half))]
                } else {
                    0
                })
            &&& forall|y: int| !(g <= y < g + new) ==> #[trigger] after_[y] == mem[y]
        }),
{
    let blank = cleared(mem, g, new);
    lemma_copied(blank, lo, g + half, old as nat);
    let after_ = copied(blank, lo, g + half, old as nat, 1);
    assert forall|y: int| g <= y < g + new implies #[trigger] after_[y] == (if g + half <= y < g
        + half + old {
        mem[lo + (y - (g + half))]
    } else {
        0
    }) by {
        if g + half <= y < g + half + old {
            let z = lo + (y - (g + half));
            assert(lo <= z < lo + old);
            assert(blank[z] == mem[z]);
        }
    }
}

/// One call of the growth routine.
#[verifier::rlimit(60)]
proof fn lemma_linux_grow(
    code: Seq<AsmInst>,
    w: World,
    r: Run,
    s: St,
    x: Site,
    d: int,
    e: AsmLabel,
    exit: AsmLabel,
    at: int,
    je: int,
    back: int,
)
    requires
        labels_unique(code),
        honest(w),
        sits(code, at, ensure_tape_insts(e, exit)),
        sits(code, je, exit_one_insts(exit)),
        wants(code, e, r, s, x, d, at, back),
    ensures
        comes(
            code,
            w,
            (Run { pc: at, cpu: r.cpu.pushed(back), ..r }),
            r,
            x,
            s.moved(d),
            back,
            None,
            false,
        ),
{
    let l = AsmLabel(GROW_LOOP_ID);
    let a1 = grow_search_insts(e, l);
    let a2 = map_new_insts(exit);
    let a3 = restore_lengths_insts();
    let a4 = copy_old_insts();
    let a5 = unmap_old_insts(exit);
    let a6 = adopt_new_insts();
    let t5 = a5 + a6;
    let t4 = a4 + t5;
    let t3 = a3 + t4;
    let t2 = a2 + t3;
    assert(ensure_tape_insts(e, exit) =~= a1 + t2);
    lemma_parts(code, at, a1, t2);
    lemma_parts(code, at + 17, a2, t3);
    lemma_parts(code, at + 27, a3, t4);
    lemma_parts(code, at + 36, a4, t5);
    lemma_parts(code, at + 44, a5, a6);
    assert(a1 =~= a1.take(6) + search_loop(l));
    lemma_parts(code, at, a1.take(6), search_loop(l));
    assert(a4 =~= a4.take(6) + a4.skip(6));
    lemma_parts(code, at + 36, a4.take(6), a4.skip(6));
    assert(code[at + 42 + 0] == a4.skip(6)[0] && code[at + 42 + 1] == a4.skip(6)[1]);
    assert(code[je + 0] == exit_one_insts(exit)[0]);
    let lo = tape(r).0;
    let hi = tape(r).1;
    let old = hi - lo;
    let to = x.base + s.ptr + d;
    let off = to - lo;
    let t = s.moved(d);
    lemma_stored(r.cpu.mem, x.sp - 8, back);
    let r0 = Run { pc: at, cpu: r.cpu.pushed(back), ..r };
    assert(r0.cpu.mem == store64(r.cpu.mem, x.sp - 8, back));
    assert(r0.cpu.regs[Reg64::Rsp] == x.sp - 8);
    let r1 = lemma_linux_entry(code, w, r0, e, to);
    let r2 = lemma_search(code, w, r1, l, old, off, old);
    lemma_then(code, w, r0, r1, r2);
    let new = r2.cpu.regs[Reg64::R11];
    let half = (new - old) / 2;
    let r3 = lemma_linux_map(code, w, r2, exit, je, new);
    lemma_then(code, w, r0, r2, r3);
    match (w.grant)(r.live, new) {
        None => {
            assert(leads(code, w, r0, r, x, t, back, None, false, r3, 0));
        },
        Some(g) => {
            assert(apart(tape(r), (g, g + new)) && apart(buffer(r), (g, g + new)) && apart(
                x.zone,
                (g, g + new),
            ));
            let r4 = lemma_linux_restore(code, w, r3, to, new, g);
            lemma_then(code, w, r0, r3, r4);
            let r5 = lemma_copy(code, w, r4, g, half, old);
            lemma_then(code, w, r0, r4, r5);
            let r6 = lemma_mov(code, w, r5, Reg64::R14, Reg64::Rdx);
            lemma_then(code, w, r0, r5, r6);
            let r7 = lemma_sum(code, w, r6, Reg64::R14, Reg64::R11);
            lemma_then(code, w, r0, r6, r7);
            assert(r7.cpu.regs[Reg64::R14] == g + new);
            let r8 = lemma_linux_unmap(code, w, r7, exit, je);
            lemma_then(code, w, r0, r7, r8);
            let m = r8.cpu.mem;
            lemma_new_memory(r0.cpu.mem, lo, old, g, new, half);
            assert(m == copied(cleared(r0.cpu.mem, g, new), lo, g + half, old as nat, 1));
            lemma_same_load(m, r0.cpu.mem, x.sp - 8);
            let b = lemma_linux_adopt(code, w, r8, g, half, off, x.sp, back);
            lemma_then(code, w, r0, r8, b);
            assert(bytewise(b.cpu.mem)) by {
                assert forall|y: int| 0 <= #[trigger] b.cpu.mem[y] < 256 by {
                    assert(0 <= r.cpu.mem[y] < 256);
                    assert(0 <= r0.cpu.mem[y] < 256);
                    let z = lo + (y - (g + half));
                    assert(0 <= r.cpu.mem[z] < 256);
                    assert(0 <= r0.cpu.mem[z] < 256);
                }
            }
            assert forall|y: int|
                buffer(r).0 <= y < buffer(r).1 || x.sp <= y < x.zone.1 implies #[trigger] b.cpu.mem[y]
                == r.cpu.mem[y] by {
                assert(m[y] == r0.cpu.mem[y]);
            }
            assert forall|y: int| g <= y < g + new implies #[trigger] b.cpu.mem[y] == (if g + half
                <= y < g + half + old {
                r.cpu.mem[lo + (y - (g + half))]
            } else {
                0
            }) by {
                let z = lo + (y - (g + half));
                if g + half <= y < g + half + old {
                    assert(r0.cpu.mem[z] == r.cpu.mem[z]);
                }
            }
            let base = lemma_grown_tape(r, b, s, x, d, new, g, false);
            assert(leads(code, w, r0, r, x, t, back, None, false, b, base));
        },
    }
}

/// The Linux growth routine does what it is for.
pub proof fn lemma_linux_grows(
    code: Seq<AsmInst>,
    w: World,
    e: AsmLabel,
    exit: AsmLabel,
    at: int,
    je: int,
)
    requires
        labels_unique(code),
        honest(w),
        sits(code, at, ensure_tape_insts(e, exit)),
        sits(code, je, exit_one_insts(exit)),
    ensures
        grows(code, w, e, false),
{
    assert(ensure_tape_insts(e, exit)[0] == AsmInst::Label(e));
    assert(code[at + 0] == AsmInst::Label(e));
    assert forall|r: Run, s: St, x: Site, d: int, j: int, back: int|
        #![trigger wants(code, e, r, s, x, d, j, back)]
        wants(code, e, r, s, x, d, j, back) implies comes(
        code,
        w,
        (Run { pc: j, cpu: r.cpu.pushed(back), ..r }),
        r,
        x,
        s.moved(d),
        back,
        None,
        false,
    ) by {
        if j < at {
            assert(code[j] is Label && code[at] is Label);
        } else if at < j {
            assert(code[at] is Label && code[j] is Label);
        }
        lemma_linux_grow(code, w, r, s, x, d, e, exit, at, je, back);
    }
}

} // verus!
