//! Running the string instructions of searches and of long clearings.

use vstd::prelude::*;

use crate::backend::asm_ir::{AsmInst, Reg64};
use crate::backend::codegen_common::{scan_hint_insts, zero_run_insts};
use crate::backend::grow_laws::{lemma_imm, lemma_mov, sets_reg};
use crate::backend::run_laws::{
    arrived, buffer, bytewise, comes, known, lemma_add_imm, lemma_arrives, mirrors, rolls,
    sits, tape, Site,
};
use crate::backend::x86_64::machine::{
    after, filled, lemma_plain, lemma_then, searched, word, Run, World,
};
use crate::interp::machine::St;
use crate::ir::lir_meaning::zeroed;

verus! {

/// Filled bytes.
proof fn lemma_filled(mem: Map<int, int>, to: int, v: int, n: nat)
    ensures
        forall|y: int|
            #[trigger] filled(mem, to, v, n, 1)[y] == (if to <= y < to + n {
                v
            } else {
                mem[y]
            }),
    decreases n,
{
    if n > 0 {
        let m = mem.insert(to, v);
        lemma_filled(m, to + 1, v, (n - 1) as nat);
        assert forall|y: int|
            #[trigger] filled(mem, to, v, n, 1)[y] == (if to <= y < to + n {
                v
            } else {
                mem[y]
            }) by {
            assert(filled(mem, to, v, n, 1)[y] == filled(m, to + 1, v, (n - 1) as nat, 1)[y]);
        }
    }
}

/// Cleared cells.
proof fn lemma_zeroed(s: St, start: int, n: int)
    requires
        0 <= n,
    ensures
        zeroed(s, start, n).ptr == s.ptr,
        zeroed(s, start, n).trace == s.trace,
        zeroed(s, start, n).reads == s.reads,
        forall|i: int|
            #[trigger] zeroed(s, start, n).cells[i] == (if s.ptr + start <= i < s.ptr + start + n {
                0
            } else {
                s.cells[i]
            }),
    decreases n,
{
    if n > 0 {
        lemma_zeroed(s, start, n - 1);
    }
}

/// EAX is cleared.
proof fn lemma_clear_eax(r: Run)
    ensures
        sets_reg(r, after(r, AsmInst::XorEaxEax), Reg64::Rax, 0),
{
    reveal(after);
    let a = (r.cpu.regs[Reg64::Rax] % 0x1_0000_0000) as u64;
    assert(a ^ a == 0) by (bit_vector);
}

/// RDI gets an address on the tape.
proof fn lemma_aim(r: Run, start: i32)
    requires
        0 <= r.cpu.regs[Reg64::R13] + start < word(),
    ensures
        sets_reg(
            r,
            after(r, AsmInst::LeaRegMem(Reg64::Rdi, Reg64::R13, start)),
            Reg64::Rdi,
            r.cpu.regs[Reg64::R13] + start,
        ),
{
    reveal(after);
}

/// ECX gets a count.
proof fn lemma_count(r: Run, count: u32)
    ensures
        sets_reg(r, after(r, AsmInst::MovEcxImm32(count as i32)), Reg64::Rcx, count as int),
{
    reveal(after);
    let c = count as i32;
    assert(count < 0x8000_0000 ==> c as i64 == count as i64) by (bit_vector)
        requires
            c == count as i32,
    ;
    assert(count >= 0x8000_0000 ==> c as i64 == count as i64 - 0x1_0000_0000) by (bit_vector)
        requires
            c == count as i32,
    ;
    assert(c as int % 0x1_0000_0000 == count);
}

/// Bytes are filled upwards.
proof fn lemma_fill(r: Run)
    requires
        !r.cpu.down,
        0 <= r.cpu.regs[Reg64::Rcx],
    ensures
        ({
            let b = after(r, AsmInst::RepStosb);
            &&& b.cpu.mem == filled(
                r.cpu.mem,
                r.cpu.regs[Reg64::Rdi],
                r.cpu.regs[Reg64::Rax] % 256,
                r.cpu.regs[Reg64::Rcx] as nat,
                1,
            )
            &&& forall|q: Reg64|
                !(q is Rcx || q is Rdi) ==> #[trigger] b.cpu.regs[q] == r.cpu.regs[q]
            &&& 0 <= b.cpu.regs[Reg64::Rdi] < word()
            &&& b.cpu.down == r.cpu.down
            &&& b == (Run { pc: r.pc + 1, cpu: b.cpu, ..r })
        }),
{
    reveal(after);
}

/// The direction is set.
proof fn lemma_direction(r: Run)
    ensures
        ({
            let b = after(r, AsmInst::Cld);
            &&& b.cpu.mem == r.cpu.mem
            &&& b.cpu.regs == r.cpu.regs
            &&& !b.cpu.down
            &&& b == (Run { pc: r.pc + 1, cpu: b.cpu, ..r })
        }),
        ({
            let b = after(r, AsmInst::Std);
            &&& b.cpu.mem == r.cpu.mem
            &&& b.cpu.regs == r.cpu.regs
            &&& b.cpu.down
            &&& b == (Run { pc: r.pc + 1, cpu: b.cpu, ..r })
        }),
{
    reveal(after);
}

/// A long clearing with a string instruction clears its cells, and nothing else on the
/// tape changes.
pub proof fn law_long_clearings_clear_their_cells(
    code: Seq<AsmInst>,
    w: World,
    r: Run,
    s: St,
    x: Site,
    start: i32,
    count: u32,
    window: Option<(int, int)>,
)
    requires
        count >= 16,
        sits(code, r.pc, zero_run_insts(start, count)),
        rolls(r, s, x),
        known(r, window),
        tape(r).0 <= r.cpu.regs[Reg64::R13] + start,
        r.cpu.regs[Reg64::R13] + start + count - 1 < tape(r).1,
    ensures
        comes(
            code,
            w,
            r,
            r,
            x,
            zeroed(s, start as int, count as int),
            r.pc + zero_run_insts(start, count).len(),
            window,
            false,
        ),
{
    let piece = zero_run_insts(start, count);
    let p = r.pc;
    assert(code[p + 0] == piece[0] && code[p + 1] == piece[1] && code[p + 2] == piece[2]);
    assert(code[p + 3] == piece[3] && code[p + 4] == piece[4]);
    let at = r.cpu.regs[Reg64::R13] + start;
    let r1 = after(r, piece[0]);
    lemma_clear_eax(r);
    lemma_plain(code, w, r, piece[0]);
    let r2 = after(r1, piece[1]);
    lemma_aim(r1, start);
    lemma_plain(code, w, r1, piece[1]);
    lemma_then(code, w, r, r1, r2);
    let r3 = after(r2, piece[2]);
    lemma_count(r2, count);
    lemma_plain(code, w, r2, piece[2]);
    lemma_then(code, w, r, r2, r3);
    let r4 = after(r3, piece[3]);
    lemma_direction(r3);
    lemma_plain(code, w, r3, piece[3]);
    lemma_then(code, w, r, r3, r4);
    let b = after(r4, piece[4]);
    lemma_fill(r4);
    lemma_plain(code, w, r4, piece[4]);
    lemma_then(code, w, r, r4, b);
    let n = count as nat;
    assert(b.cpu.mem == filled(r.cpu.mem, at, 0, n, 1));
    lemma_filled(r.cpu.mem, at, 0, n);
    lemma_zeroed(s, start as int, count as int);
    let t = zeroed(s, start as int, count as int);
    assert(mirrors(b.cpu.mem, t, x.base, tape(b).0, tape(b).1)) by {
        assert forall|i: int|
            #[trigger] t.cells[i] == (if tape(b).0 <= x.base + i < tape(b).1 {
                b.cpu.mem[x.base + i]
            } else {
                0
            }) by {
            assert(s.cells[i] == (if tape(r).0 <= x.base + i < tape(r).1 {
                r.cpu.mem[x.base + i]
            } else {
                0
            }));
        }
    }
    assert(bytewise(b.cpu.mem)) by {
        assert forall|a: int| 0 <= #[trigger] b.cpu.mem[a] < 256 by {
            assert(0 <= r.cpu.mem[a] < 256);
        }
    }
    assert(arrived(r, x, b, x.base, t, p + 5, window, false)) by {
        assert forall|y: int|
            buffer(r).0 <= y < buffer(r).1 || x.sp <= y < x.zone.1 implies #[trigger] r.cpu.mem[y]
            == b.cpu.mem[y] by {
            assert(!(at <= y < at + n));
        }
    }
    lemma_arrives(code, w, r, r, x, b, x.base, t, p + 5, window, false);
}

/// Where a search for zero stops: at the first zero, or behind the last byte.
proof fn lemma_searched(mem: Map<int, int>, at: int, n: nat, d: int) -> (q: nat)
    requires
        n > 0,
        d == 1 || d == -1,
    ensures
        1 <= q <= n,
        searched(mem, at, 0, n, d).0 == at + d * q,
        forall|k: int| 0 <= k < q - 1 ==> #[trigger] mem[at + d * k] != 0,
        mem[at + d * (q - 1)] == 0 || q == n,
    decreases n,
{
    if mem[at] == 0 {
        assert(at + d * 0 == at);
        1
    } else if n == 1 {
        assert(searched(mem, at + d, 0, 0, d).0 == at + d);
        assert(searched(mem, at, 0, 1, d) == searched(mem, at + d, 0, 0, d));
        1
    } else {
        let q = lemma_searched(mem, at + d, (n - 1) as nat, d);
        assert forall|k: int| 0 <= k < q implies #[trigger] mem[at + d * k] != 0 by {
            if k > 0 {
                assert(at + d + d * (k - 1) == at + d * k) by (nonlinear_arith);
                assert(mem[at + d + d * (k - 1)] != 0);
            }
        }
        assert(at + d + d * q == at + d * (q + 1)) by (nonlinear_arith);
        assert(at + d + d * (q - 1) == at + d * (q + 1 - 1)) by (nonlinear_arith);
        q + 1
    }
}

/// A zero is looked for.
proof fn lemma_find(r: Run)
    requires
        0 < r.cpu.regs[Reg64::Rcx],
    ensures
        ({
            let b = after(r, AsmInst::RepneScasb);
            let d = if r.cpu.down {
                -1int
            } else {
                1int
            };
            &&& b.cpu.regs[Reg64::Rdi] == searched(
                r.cpu.mem,
                r.cpu.regs[Reg64::Rdi],
                r.cpu.regs[Reg64::Rax] % 256,
                r.cpu.regs[Reg64::Rcx] as nat,
                d,
            ).0 % word()
            &&& forall|q: Reg64|
                !(q is Rcx || q is Rdi) ==> #[trigger] b.cpu.regs[q] == r.cpu.regs[q]
            &&& b.cpu.mem == r.cpu.mem
            &&& b.cpu.down == r.cpu.down
            &&& b == (Run { pc: r.pc + 1, cpu: b.cpu, ..r })
        }),
{
    reveal(after);
}

/// A search with a string instruction over cells that exist comes to the first zero among
/// them or to the last of them: every cell that it passes is not zero.
pub proof fn law_hinted_searches_pass_no_zero(
    code: Seq<AsmInst>,
    w: World,
    r: Run,
    s: St,
    x: Site,
    d: int,
    hint: u32,
) -> (q: nat)
    requires
        hint > 0,
        d == 1 || d == -1,
        sits(code, r.pc, scan_hint_insts(d, hint)),
        rolls(r, s, x),
        tape(r).0 <= r.cpu.regs[Reg64::R13] + d * (hint - 1) < tape(r).1,
    ensures
        1 <= q <= hint,
        comes(
            code,
            w,
            r,
            r,
            x,
            s.moved(d * (q - 1)),
            r.pc + scan_hint_insts(d, hint).len(),
            None,
            false,
        ),
        forall|k: int| 0 <= k < q - 1 ==> #[trigger] s.cells[s.ptr + d * k] != 0,
        s.cells[s.ptr + d * (q - 1)] == 0 || q == hint,
{
    let piece = scan_hint_insts(d, hint);
    let p = r.pc;
    let at = r.cpu.regs[Reg64::R13];
    let turn = if d == -1 {
        AsmInst::Std
    } else {
        AsmInst::Cld
    };
    assert(code[p + 0] == piece[0] && code[p + 1] == piece[1] && code[p + 2] == piece[2]);
    assert(code[p + 3] == piece[3] && code[p + 4] == piece[4] && code[p + 5] == piece[5]);
    assert(code[p + 6] == piece[6]);
    let r1 = lemma_imm(code, w, r, Reg64::Rax, 0);
    let r2 = lemma_mov(code, w, r1, Reg64::Rdi, Reg64::R13);
    lemma_then(code, w, r, r1, r2);
    let r3 = lemma_imm(code, w, r2, Reg64::Rcx, hint as i64);
    lemma_then(code, w, r, r2, r3);
    let r4 = after(r3, turn);
    lemma_direction(r3);
    lemma_plain(code, w, r3, turn);
    lemma_then(code, w, r, r3, r4);
    let r5 = after(r4, AsmInst::RepneScasb);
    lemma_find(r4);
    lemma_plain(code, w, r4, AsmInst::RepneScasb);
    lemma_then(code, w, r, r4, r5);
    let q = lemma_searched(r.cpu.mem, at, hint as nat, d);
    let there = at + d * q;
    assert(d * q == q || d * q == -q) by (nonlinear_arith)
        requires
            d == 1 || d == -1,
    ;
    assert(d * (q - 1) == d * q - d) by (nonlinear_arith);
    assert(d * (hint - 1) == hint - 1 || d * (hint - 1) == -(hint - 1)) by (nonlinear_arith)
        requires
            d == 1 || d == -1,
    ;
    assert(r5.cpu.regs[Reg64::Rdi] == there);
    let r6 = if d == -1 {
        assert(code[p + 7] == piece[7]);
        lemma_direction(r5);
        lemma_plain(code, w, r5, AsmInst::Cld);
        lemma_then(code, w, r, r5, after(r5, AsmInst::Cld));
        after(r5, AsmInst::Cld)
    } else {
        r5
    };
    let r7 = lemma_mov(code, w, r6, Reg64::R13, Reg64::Rdi);
    lemma_then(code, w, r, r6, r7);
    let last = AsmInst::AddRegImm32(Reg64::R13, (-d) as i32);
    let b = after(r7, last);
    lemma_add_imm(r7, Reg64::R13, (-d) as i32);
    lemma_plain(code, w, r7, last);
    lemma_then(code, w, r, r7, b);
    let t = s.moved(d * (q - 1));
    assert(b.cpu.regs[Reg64::R13] == at + d * (q - 1));
    assert(b.cpu.mem == r.cpu.mem);
    assert(t.cells == s.cells);
    let to = p + piece.len();
    assert(arrived(r, x, b, x.base, t, to, None, false));
    lemma_arrives(code, w, r, r, x, b, x.base, t, to, None, false);
    assert forall|k: int| 0 <= k < q - 1 implies #[trigger] s.cells[s.ptr + d * k] != 0 by {
        lemma_between(d, k, q - 1, hint - 1);
        assert(s.cells[s.ptr + d * k] == r.cpu.mem[x.base + (s.ptr + d * k)]);
        assert(r.cpu.mem[at + d * k] != 0);
    }
    lemma_between(d, q - 1, q - 1, hint - 1);
    assert(s.cells[s.ptr + d * (q - 1)] == r.cpu.mem[x.base + (s.ptr + d * (q - 1))]);
    q
}

/// A place between others.
proof fn lemma_between(d: int, k: int, m: int, n: int)
    requires
        d == 1 || d == -1,
        0 <= k <= m <= n,
    ensures
        d == 1 ==> 0 <= d * k <= d * n,
        d == -1 ==> d * n <= d * k <= 0,
{
    if d == 1 {
        assert(d * k == k && d * n == n) by (nonlinear_arith)
            requires
                d == 1,
        ;
    } else {
        assert(d * k == -k && d * n == -n) by (nonlinear_arith)
            requires
                d == -1,
        ;
    }
}

} // verus!
