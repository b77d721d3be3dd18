//! Running the instructions of a linear multiplication.

use vstd::prelude::*;

use crate::backend::asm_ir::{AsmInst, AsmLabel, Reg64};
use crate::backend::codegen_common::{
    all_disp8, factors_at_insts, factors_walk_insts, highest, linear_inner_insts, linear_window,
    lowest, multiplicand_frame, offsets_of, ptr_add_checked_insts, ptr_add_insts,
    ptr_add_labels, scaled_at_insts, scaled_here_insts, sets_at_insts, sets_walk_insts,
    walk_insts, walks_labels,
};
use crate::backend::run_laws::{
    arrived, bytewise, buffer, ceiling, comes, far, grows, idles, known, leads, lemma_add_imm,
    lemma_arrives, lemma_comes_from, lemma_idles, lemma_parts, lemma_poke, lemma_ptr_add,
    lemma_ptr_add_checked, lemma_set_at, mirrors, rolls, sits, starved, tape, Site,
};
use crate::backend::x86_64::encode::labels_unique;
use crate::backend::x86_64::machine::{
    after, lemma_here, lemma_plain, lemma_same_load, lemma_stored, lemma_then, load64, reaches,
    store64, word, Run, World,
};
use crate::interp::machine::St;
use crate::ir::hir::{factors_view, sets_view};

verus! {

/// A cell with a multiple added.
proof fn lemma_scale(c: int, v: int, f: int)
    ensures
        f % 256 == 0 ==> (c + v * f) % 256 == c % 256,
        f % 256 == 1 ==> (c + v * f) % 256 == (c + v) % 256,
        f % 256 == 255 ==> (c + v * f) % 256 == (c - v) % 256,
        (c + ((v * f) % 0x1_0000_0000) % 256) % 256 == (c + v * f) % 256,
{
    let m = f % 256;
    let q = f / 256;
    assert(f == 256 * q + m);
    assert(v * f == 256 * (v * q) + v * m) by (nonlinear_arith)
        requires
            f == 256 * q + m,
    ;
    vstd::arithmetic::div_mod::lemma_mod_multiples_vanish(v * q, c + v * m, 256);
    if m == 255 {
        assert(v * m == 256 * v - v) by (nonlinear_arith)
            requires
                m == 255,
        ;
        vstd::arithmetic::div_mod::lemma_mod_multiples_vanish(v, c - v, 256);
    }
    if m == 1 {
        assert(v * m == v) by (nonlinear_arith)
            requires
                m == 1,
        ;
    }
    if m == 0 {
        assert(v * m == 0) by (nonlinear_arith)
            requires
                m == 0,
        ;
    }
    let p = v * f;
    vstd::arithmetic::div_mod::lemma_mod_mod(p, 256, 0x100_0000);
    vstd::arithmetic::div_mod::lemma_add_mod_noop_right(c, p, 256);
}

/// What adding BL or AL to a byte of the tape does, or subtracting BL.
spec fn blended(a: Run, b: Run, at: int, v: int) -> bool {
    &&& b.cpu.mem == a.cpu.mem.insert(at, v)
    &&& b.cpu.regs == a.cpu.regs
    &&& b.cpu.down == a.cpu.down
    &&& b == (Run { pc: a.pc + 1, cpu: b.cpu, ..a })
}

proof fn lemma_blend_here(r: Run)
    requires
        0 <= r.cpu.regs[Reg64::R13] < ceiling(),
        bytewise(r.cpu.mem),
    ensures
        ({
            let at = r.cpu.regs[Reg64::R13];
            let c = r.cpu.mem[at];
            &&& blended(r, after(r, AsmInst::AddMemR13Bl), at, (c + r.cpu.regs[Reg64::Rbx] % 256) % 256)
            &&& blended(r, after(r, AsmInst::SubMemR13Bl), at, (c - r.cpu.regs[Reg64::Rbx] % 256) % 256)
            &&& blended(r, after(r, AsmInst::AddMemR13Al), at, (c + r.cpu.regs[Reg64::Rax] % 256) % 256)
        }),
{
    reveal(after);
}

proof fn lemma_blend_at(r: Run, off: i8)
    requires
        256 <= r.cpu.regs[Reg64::R13] < ceiling(),
        bytewise(r.cpu.mem),
    ensures
        ({
            let at = r.cpu.regs[Reg64::R13] + off;
            let c = r.cpu.mem[at];
            let bl = r.cpu.regs[Reg64::Rbx] % 256;
            &&& blended(r, after(r, AsmInst::AddMemR13BlDisp8(off)), at, (c + bl) % 256)
            &&& blended(r, after(r, AsmInst::SubMemR13BlDisp8(off)), at, (c - bl) % 256)
            &&& blended(
                r,
                after(r, AsmInst::AddMemR13AlDisp8(off)),
                at,
                (c + r.cpu.regs[Reg64::Rax] % 256) % 256,
            )
        }),
{
    reveal(after);
}

/// What multiplying into EAX does.
proof fn lemma_product(r: Run, f: i32)
    requires
        0 <= r.cpu.regs[Reg64::Rbx] < 256,
    ensures
        idles(r, after(r, AsmInst::ImulEaxEbxImm32(f))),
        after(r, AsmInst::ImulEaxEbxImm32(f)).pc == r.pc + 1,
        after(r, AsmInst::ImulEaxEbxImm32(f)).cpu.regs[Reg64::Rax] == (r.cpu.regs[Reg64::Rbx] * f)
            % 0x1_0000_0000,
{
    reveal(after);
}

/// Adding a multiple of BL to a cell.
proof fn lemma_scaled(
    code: Seq<AsmInst>,
    w: World,
    r: Run,
    s: St,
    x: Site,
    off: isize,
    f: i32,
    here: bool,
    v: int,
    window: Option<(int, int)>,
    win: bool,
)
    requires
        rolls(r, s, x),
        known(r, window),
        tape(r).0 <= r.cpu.regs[Reg64::R13] + off < tape(r).1,
        i8::MIN <= off <= i8::MAX,
        here ==> off == 0,
        r.cpu.regs[Reg64::Rbx] == v,
        0 <= v < 256,
        sits(
            code,
            r.pc,
            if here {
                scaled_here_insts(f)
            } else {
                scaled_at_insts(off, f)
            },
        ),
    ensures
        comes(
            code,
            w,
            r,
            r,
            x,
            s.add_at(off as int, v * f),
            r.pc + (if here {
                scaled_here_insts(f)
            } else {
                scaled_at_insts(off, f)
            }).len(),
            window,
            win,
        ),
{
    let piece = if here {
        scaled_here_insts(f)
    } else {
        scaled_at_insts(off, f)
    };
    let at = r.cpu.regs[Reg64::R13] + off;
    let c = r.cpu.mem[at];
    let t = s.add_at(off as int, v * f);
    assert(s.cells[s.ptr + off] == c);
    assert(0 <= c < 256);
    lemma_scale(c, v, f as int);
    let m = f as int % 256;
    let new = (c + v * f) % 256;
    if m == 0 {
        assert(c % 256 == c);
        lemma_here(code, w, r);
        assert(mirrors(r.cpu.mem, t, x.base, tape(r).0, tape(r).1)) by {
            assert forall|i: int|
                #[trigger] t.cells[i] == (if tape(r).0 <= x.base + i < tape(r).1 {
                    r.cpu.mem[x.base + i]
                } else {
                    0
                }) by {
                assert(s.cells[i] == (if tape(r).0 <= x.base + i < tape(r).1 {
                    r.cpu.mem[x.base + i]
                } else {
                    0
                }));
            }
        }
        assert(arrived(r, x, r, x.base, t, r.pc, window, win));
        lemma_arrives(code, w, r, r, x, r, x.base, t, r.pc, window, win);
    } else if m == 1 || m == 255 {
        let inst = piece[0];
        assert(code[r.pc + 0] == inst);
        let b = after(r, inst);
        assert(v % 256 == v);
        if here {
            lemma_blend_here(r);
        } else {
            lemma_blend_at(r, off as i8);
        }
        assert(blended(r, b, at, new));
        lemma_plain(code, w, r, inst);
        lemma_poke(r, b, s, x, off as int, new, window, win);
        lemma_arrives(code, w, r, r, x, b, x.base, t, b.pc, window, win);
    } else {
        let i0 = piece[0];
        let i1 = piece[1];
        assert(code[r.pc + 0] == i0 && code[r.pc + 1] == i1);
        lemma_plain(code, w, r, i0);
        let a = after(r, i0);
        lemma_product(r, f);
        lemma_idles(r, a, s, x, window, win);
        let b = after(a, i1);
        if here {
            lemma_blend_here(a);
        } else {
            lemma_blend_at(a, off as i8);
        }
        assert(blended(a, b, at, new));
        lemma_plain(code, w, a, i1);
        lemma_poke(a, b, s, x, off as int, new, window, win);
        lemma_arrives(code, w, a, a, x, b, x.base, t, b.pc, window, win);
        assert((Site { base: x.base, ..x }) == x);
        lemma_comes_from(
            code,
            w,
            r,
            r,
            x,
            a,
            x.base,
            s,
            a.pc,
            window,
            t,
            b.pc,
            window,
            win,
        );
    }
}

/// The state after additions at the first `k` offsets.
proof fn lemma_factors_at(
    code: Seq<AsmInst>,
    w: World,
    r: Run,
    s: St,
    x: Site,
    factors: Seq<(isize, i32)>,
    k: int,
    v: int,
    lo: int,
    hi: int,
    win: bool,
)
    requires
        0 <= k <= factors.len(),
        rolls(r, s, x),
        known(r, Some((lo, hi))),
        lo <= 0 <= hi,
        forall|i: int|
            0 <= i < factors.len() ==> lo <= (#[trigger] factors[i]).0 <= hi && i8::MIN
                <= factors[i].0 <= i8::MAX,
        r.cpu.regs[Reg64::Rbx] == v,
        0 <= v < 256,
        sits(code, r.pc, factors_at_insts(factors, k)),
    ensures
        comes(
            code,
            w,
            r,
            r,
            x,
            s.spread(factors_view(factors), v, k),
            r.pc + factors_at_insts(factors, k).len(),
            Some((lo, hi)),
            win,
        ),
    decreases k,
{
    let here = Some((lo, hi));
    if k == 0 {
        lemma_here(code, w, r);
        lemma_idles(r, r, s, x, here, win);
        lemma_arrives(code, w, r, r, x, r, x.base, s, r.pc, here, win);
    } else {
        let front = factors_at_insts(factors, k - 1);
        let one = scaled_at_insts(factors[k - 1].0, factors[k - 1].1);
        lemma_parts(code, r.pc, front, one);
        lemma_factors_at(code, w, r, s, x, factors, k - 1, v, lo, hi, win);
        let t = s.spread(factors_view(factors), v, k - 1);
        let u = s.spread(factors_view(factors), v, k);
        let p = r.pc + front.len();
        let to = p + one.len();
        let (b, base) = choose|b: Run, base: int| #[trigger]
            leads(code, w, r, r, x, t, p, here, win, b, base);
        if starved(b) {
            assert(leads(code, w, r, r, x, u, to, here, win, b, base));
        } else {
            let y = Site { base, ..x };
            lemma_scaled(
                code,
                w,
                b,
                t,
                y,
                factors[k - 1].0,
                factors[k - 1].1,
                false,
                v,
                here,
                win,
            );
            assert(factors_view(factors)[k - 1] == (factors[k - 1].0 as int, factors[k - 1].1 as int));
            lemma_comes_from(code, w, r, r, x, b, base, t, p, here, u, to, here, win);
        }
    }
}

/// The state after the first `k` offsets have been cleared.
proof fn lemma_sets_at(
    code: Seq<AsmInst>,
    w: World,
    r: Run,
    s: St,
    x: Site,
    sets: Seq<isize>,
    k: int,
    lo: int,
    hi: int,
    win: bool,
)
    requires
        0 <= k <= sets.len(),
        rolls(r, s, x),
        known(r, Some((lo, hi))),
        lo <= 0 <= hi,
        forall|i: int|
            0 <= i < sets.len() ==> lo <= #[trigger] sets[i] <= hi && i8::MIN <= sets[i] <= i8::MAX,
        sits(code, r.pc, sets_at_insts(sets, k)),
    ensures
        comes(
            code,
            w,
            r,
            r,
            x,
            s.cleared(sets_view(sets), k),
            r.pc + sets_at_insts(sets, k).len(),
            Some((lo, hi)),
            win,
        ),
    decreases k,
{
    let here = Some((lo, hi));
    if k == 0 {
        lemma_here(code, w, r);
        lemma_idles(r, r, s, x, here, win);
        lemma_arrives(code, w, r, r, x, r, x.base, s, r.pc, here, win);
    } else {
        let front = sets_at_insts(sets, k - 1);
        let one = seq![AsmInst::MovMem8ImmDisp8(Reg64::R13, sets[k - 1] as i8, 0)];
        lemma_parts(code, r.pc, front, one);
        lemma_sets_at(code, w, r, s, x, sets, k - 1, lo, hi, win);
        let t = s.cleared(sets_view(sets), k - 1);
        let u = s.cleared(sets_view(sets), k);
        let p = r.pc + front.len();
        assert(code[p + 0] == one[0]);
        let (b, base) = choose|b: Run, base: int| #[trigger]
            leads(code, w, r, r, x, t, p, here, win, b, base);
        if starved(b) {
            assert(leads(code, w, r, r, x, u, p + 1, here, win, b, base));
        } else {
            let y = Site { base, ..x };
            lemma_set_at(code, w, b, t, y, sets[k - 1] as int, 0, here, win);
            lemma_comes_from(code, w, r, r, x, b, base, t, p, here, u, p + 1, here, win);
        }
    }
}

/// The ends of a list of offsets enclose them.
proof fn lemma_ends(offs: Seq<isize>, k: int, i: int)
    requires
        0 <= i < k <= offs.len(),
    ensures
        lowest(offs, k) <= offs[i] <= highest(offs, k),
        lowest(offs, k) <= 0 <= highest(offs, k),
    decreases k,
{
    lemma_zero(offs, k - 1);
    if i < k - 1 {
        lemma_ends(offs, k - 1, i);
    }
}

/// They enclose zero, and fit a byte where the offsets do.
proof fn lemma_zero(offs: Seq<isize>, k: int)
    requires
        k <= offs.len(),
    ensures
        lowest(offs, k) <= 0 <= highest(offs, k),
        all_disp8(offs) ==> i8::MIN <= lowest(offs, k) && highest(offs, k) <= i8::MAX,
    decreases k,
{
    if k > 0 {
        lemma_zero(offs, k - 1);
    }
}

/// Walking to a cell, working there, and walking back.
proof fn lemma_walk(
    code: Seq<AsmInst>,
    w: World,
    r: Run,
    s: St,
    x: Site,
    next: int,
    off: int,
    work: Seq<AsmInst>,
    f: Option<i32>,
    v: int,
    ensure: AsmLabel,
    j: int,
    win: bool,
)
    requires
        labels_unique(code),
        code.len() < word(),
        grows(code, w, ensure, win),
        0 <= j < code.len(),
        code[j] == AsmInst::Label(ensure),
        rolls(r, s, x),
        -far() <= off <= far(),
        sits(code, r.pc, walk_insts(next, off, work, ensure)),
        match f {
            Some(f) => work == scaled_here_insts(f) && r.cpu.regs[Reg64::Rbx] == v && 0 <= v < 256,
            None => work == seq![AsmInst::MovMem8Imm8(Reg64::R13, 0)],
        },
    ensures
        comes(
            code,
            w,
            r,
            r,
            x,
            match f {
                Some(f) => s.add_at(off, v * f),
                None => s.set_at(off, 0),
            },
            r.pc + walk_insts(next, off, work, ensure).len(),
            None,
            win,
        ),
{
    let a = ptr_add_insts(next, off, ensure);
    let c = ptr_add_insts(next - ptr_add_labels(off), -off, ensure);
    assert(walk_insts(next, off, work, ensure) =~= a + (work + c));
    lemma_parts(code, r.pc, a, work + c);
    let p1 = r.pc + a.len();
    lemma_parts(code, p1, work, c);
    let p2 = p1 + work.len();
    let p3 = p2 + c.len();
    let s1 = s.moved(off);
    let s2 = match f {
        Some(f) => s1.add_at(0, v * f),
        None => s1.set_at(0, 0),
    };
    let s3 = match f {
        Some(f) => s.add_at(off, v * f),
        None => s.set_at(off, 0),
    };
    assert(s2.moved(-off) =~= s3);
    lemma_ptr_add(code, w, r, s, x, next, off, ensure, j, win);
    let (b1, base1) = choose|b: Run, base: int| #[trigger]
        leads(code, w, r, r, x, s1, p1, None, win, b, base);
    if starved(b1) {
        assert(leads(code, w, r, r, x, s3, p3, None, win, b1, base1));
    } else {
        let y = Site { base: base1, ..x };
        match f {
            Some(f) => {
                lemma_scaled(code, w, b1, s1, y, 0, f, true, v, None, win);
            },
            None => {
                assert(code[p1 + 0] == work[0]);
                lemma_set_at(code, w, b1, s1, y, 0, 0, None, win);
            },
        }
        lemma_comes_from(code, w, r, r, x, b1, base1, s1, p1, None, s2, p2, None, win);
        let (b2, base2) = choose|b: Run, base: int| #[trigger]
            leads(code, w, r, r, x, s2, p2, None, win, b, base);
        if starved(b2) {
            assert(leads(code, w, r, r, x, s3, p3, None, win, b2, base2));
        } else {
            let z = Site { base: base2, ..x };
            lemma_ptr_add(
                code,
                w,
                b2,
                s2,
                z,
                next - ptr_add_labels(off),
                -off,
                ensure,
                j,
                win,
            );
            lemma_comes_from(code, w, r, r, x, b2, base2, s2, p2, None, s3, p3, None, win);
        }
    }
}

/// The state after walks to the first `k` factors.
proof fn lemma_factors_walk(
    code: Seq<AsmInst>,
    w: World,
    r: Run,
    s: St,
    x: Site,
    factors: Seq<(isize, i32)>,
    next: int,
    k: int,
    v: int,
    ensure: AsmLabel,
    j: int,
    win: bool,
)
    requires
        labels_unique(code),
        code.len() < word(),
        grows(code, w, ensure, win),
        0 <= j < code.len(),
        code[j] == AsmInst::Label(ensure),
        0 <= k <= factors.len(),
        rolls(r, s, x),
        forall|i: int| 0 <= i < factors.len() ==> -far() <= (#[trigger] factors[i]).0 <= far(),
        r.cpu.regs[Reg64::Rbx] == v,
        0 <= v < 256,
        sits(code, r.pc, factors_walk_insts(factors, next, k, ensure)),
    ensures
        comes(
            code,
            w,
            r,
            r,
            x,
            s.spread(factors_view(factors), v, k),
            r.pc + factors_walk_insts(factors, next, k, ensure).len(),
            None,
            win,
        ),
    decreases k,
{
    if k == 0 {
        lemma_here(code, w, r);
        lemma_idles(r, r, s, x, None, win);
        lemma_arrives(code, w, r, r, x, r, x.base, s, r.pc, None, win);
    } else {
        let front = factors_walk_insts(factors, next, k - 1, ensure);
        let n = next - walks_labels(offsets_of(factors), k - 1);
        let work = scaled_here_insts(factors[k - 1].1);
        let one = walk_insts(n, factors[k - 1].0 as int, work, ensure);
        lemma_parts(code, r.pc, front, one);
        lemma_factors_walk(code, w, r, s, x, factors, next, k - 1, v, ensure, j, win);
        let t = s.spread(factors_view(factors), v, k - 1);
        let u = s.spread(factors_view(factors), v, k);
        let p = r.pc + front.len();
        let to = p + one.len();
        let (b, base) = choose|b: Run, base: int| #[trigger]
            leads(code, w, r, r, x, t, p, None, win, b, base);
        if starved(b) {
            assert(leads(code, w, r, r, x, u, to, None, win, b, base));
        } else {
            let y = Site { base, ..x };
            lemma_walk(
                code,
                w,
                b,
                t,
                y,
                n,
                factors[k - 1].0 as int,
                work,
                Some(factors[k - 1].1),
                v,
                ensure,
                j,
                win,
            );
            assert(factors_view(factors)[k - 1] == (factors[k - 1].0 as int, factors[k - 1].1 as int));
            lemma_comes_from(code, w, r, r, x, b, base, t, p, None, u, to, None, win);
        }
    }
}

/// The state after walks to the first `k` cells that are cleared.
proof fn lemma_sets_walk(
    code: Seq<AsmInst>,
    w: World,
    r: Run,
    s: St,
    x: Site,
    sets: Seq<isize>,
    next: int,
    k: int,
    ensure: AsmLabel,
    j: int,
    win: bool,
)
    requires
        labels_unique(code),
        code.len() < word(),
        grows(code, w, ensure, win),
        0 <= j < code.len(),
        code[j] == AsmInst::Label(ensure),
        0 <= k <= sets.len(),
        rolls(r, s, x),
        forall|i: int| 0 <= i < sets.len() ==> -far() <= #[trigger] sets[i] <= far(),
        sits(code, r.pc, sets_walk_insts(sets, next, k, ensure)),
    ensures
        comes(
            code,
            w,
            r,
            r,
            x,
            s.cleared(sets_view(sets), k),
            r.pc + sets_walk_insts(sets, next, k, ensure).len(),
            None,
            win,
        ),
    decreases k,
{
    if k == 0 {
        lemma_here(code, w, r);
        lemma_idles(r, r, s, x, None, win);
        lemma_arrives(code, w, r, r, x, r, x.base, s, r.pc, None, win);
    } else {
        let front = sets_walk_insts(sets, next, k - 1, ensure);
        let n = next - walks_labels(sets, k - 1);
        let work = seq![AsmInst::MovMem8Imm8(Reg64::R13, 0)];
        let one = walk_insts(n, sets[k - 1] as int, work, ensure);
        lemma_parts(code, r.pc, front, one);
        lemma_sets_walk(code, w, r, s, x, sets, next, k - 1, ensure, j, win);
        let t = s.cleared(sets_view(sets), k - 1);
        let u = s.cleared(sets_view(sets), k);
        let p = r.pc + front.len();
        let to = p + one.len();
        let (b, base) = choose|b: Run, base: int| #[trigger]
            leads(code, w, r, r, x, t, p, None, win, b, base);
        if starved(b) {
            assert(leads(code, w, r, r, x, u, to, None, win, b, base));
        } else {
            let y = Site { base, ..x };
            lemma_walk(
                code,
                w,
                b,
                t,
                y,
                n,
                sets[k - 1] as int,
                work,
                None,
                0,
                ensure,
                j,
                win,
            );
            lemma_comes_from(code, w, r, r, x, b, base, t, p, None, u, to, None, win);
        }
    }
}

/// Offsets that are not too far.
pub open spec fn offsets_near(offs: Seq<isize>) -> bool {
    forall|i: int| 0 <= i < offs.len() ==> -far() <= #[trigger] offs[i] <= far()
}

/// The additions and clearings of a linear multiplication, with the multiplicand in RBX.
proof fn lemma_inner(
    code: Seq<AsmInst>,
    w: World,
    r: Run,
    s: St,
    x: Site,
    factors: Seq<(isize, i32)>,
    sets: Seq<isize>,
    next: int,
    v: int,
    ensure: AsmLabel,
    j: int,
    win: bool,
)
    requires
        labels_unique(code),
        code.len() < word(),
        grows(code, w, ensure, win),
        0 <= j < code.len(),
        code[j] == AsmInst::Label(ensure),
        rolls(r, s, x),
        offsets_near(offsets_of(factors)),
        offsets_near(sets),
        r.cpu.regs[Reg64::Rbx] == v,
        0 <= v < 256,
        sits(code, r.pc, linear_inner_insts(factors, sets, next, ensure)),
    ensures
        comes(
            code,
            w,
            r,
            r,
            x,
            s.spread(factors_view(factors), v, factors.len() as int).cleared(
                sets_view(sets),
                sets.len() as int,
            ),
            r.pc + linear_inner_insts(factors, sets, next, ensure).len(),
            linear_window(factors, sets),
            win,
        ),
{
    let offs = offsets_of(factors) + sets;
    let n = offs.len() as int;
    let s1 = s.spread(factors_view(factors), v, factors.len() as int);
    let s2 = s1.cleared(sets_view(sets), sets.len() as int);
    assert forall|i: int| 0 <= i < factors.len() implies -far() <= (#[trigger] factors[i]).0
        <= far() by {
        assert(offsets_of(factors)[i] == factors[i].0);
    }
    let all = linear_inner_insts(factors, sets, next, ensure);
    if all_disp8(offs) {
        let lo = lowest(offs, n);
        let hi = highest(offs, n);
        lemma_zero(offs, n);
        assert forall|i: int| 0 <= i < factors.len() implies lo <= (#[trigger] factors[i]).0 <= hi
            && i8::MIN <= factors[i].0 <= i8::MAX by {
            assert(offs[i] == factors[i].0);
            lemma_ends(offs, n, i);
        }
        assert forall|i: int| 0 <= i < sets.len() implies lo <= #[trigger] sets[i] <= hi && i8::MIN
            <= sets[i] <= i8::MAX by {
            assert(offs[factors.len() + i] == sets[i]);
            lemma_ends(offs, n, factors.len() + i);
        }
        let a = ptr_add_checked_insts(next, 0, lo, hi, ensure);
        let b = factors_at_insts(factors, factors.len() as int);
        let c = sets_at_insts(sets, sets.len() as int);
        assert(all =~= a + (b + c));
        lemma_parts(code, r.pc, a, b + c);
        let p1 = r.pc + a.len();
        lemma_parts(code, p1, b, c);
        let p2 = p1 + b.len();
        let p3 = p2 + c.len();
        let here = Some((lo, hi));
        lemma_ptr_add_checked(code, w, r, s, x, next, 0, lo, hi, ensure, j, None, win);
        assert(s.moved(0) == s);
        let (m1, base1) = choose|b: Run, base: int| #[trigger]
            leads(code, w, r, r, x, s, p1, here, win, b, base);
        if starved(m1) {
            assert(leads(code, w, r, r, x, s2, p3, here, win, m1, base1));
        } else {
            let y = Site { base: base1, ..x };
            lemma_factors_at(
                code,
                w,
                m1,
                s,
                y,
                factors,
                factors.len() as int,
                v,
                lo,
                hi,
                win,
            );
            lemma_comes_from(code, w, r, r, x, m1, base1, s, p1, here, s1, p2, here, win);
            let (m2, base2) = choose|b: Run, base: int| #[trigger]
                leads(code, w, r, r, x, s1, p2, here, win, b, base);
            if starved(m2) {
                assert(leads(code, w, r, r, x, s2, p3, here, win, m2, base2));
            } else {
                let z = Site { base: base2, ..x };
                lemma_sets_at(code, w, m2, s1, z, sets, sets.len() as int, lo, hi, win);
                lemma_comes_from(code, w, r, r, x, m2, base2, s1, p2, here, s2, p3, here, win);
            }
        }
    } else {
        let k = factors.len() as int;
        let a = factors_walk_insts(factors, next, k, ensure);
        let m = next - walks_labels(offsets_of(factors), k);
        let b = sets_walk_insts(sets, m, sets.len() as int, ensure);
        lemma_parts(code, r.pc, a, b);
        let p1 = r.pc + a.len();
        let p2 = p1 + b.len();
        lemma_factors_walk(code, w, r, s, x, factors, next, k, v, ensure, j, win);
        let (m1, base1) = choose|b: Run, base: int| #[trigger]
            leads(code, w, r, r, x, s1, p1, None, win, b, base);
        if starved(m1) {
            assert(leads(code, w, r, r, x, s2, p2, None, win, m1, base1));
        } else {
            let y = Site { base: base1, ..x };
            lemma_sets_walk(
                code,
                w,
                m1,
                s1,
                y,
                sets,
                m,
                sets.len() as int,
                ensure,
                j,
                win,
            );
            lemma_comes_from(code, w, r, r, x, m1, base1, s1, p1, None, s2, p2, None, win);
        }
    }
}

/// The way into a multiplication: RBX is saved and the multiplicand taken.
proof fn lemma_enter(code: Seq<AsmInst>, w: World, r: Run, s: St, x: Site, aligned: bool, win: bool) -> (b:
    Run)
    requires
        rolls(r, s, x),
        x.zone.0 + 144 <= x.sp,
        0 <= r.cpu.regs[Reg64::Rbx] < word(),
        sits(
            code,
            r.pc,
            seq![AsmInst::Push(Reg64::Rbx)] + (if aligned {
                seq![AsmInst::AddRegImm32(Reg64::Rsp, (-8) as i32)]
            } else {
                Seq::empty()
            }) + seq![AsmInst::MovzxEbxFromMemR13],
        ),
    ensures
        reaches(code, w, r, b),
        b.pc == r.pc + (if aligned {
            3int
        } else {
            2int
        }),
        rolls(b, s, (Site { sp: x.sp - (if aligned {
            16int
        } else {
            8int
        }), ..x })),
        b.cpu.regs[Reg64::Rbx] == s.cell(),
        load64(b.cpu.mem, x.sp - 8) == r.cpu.regs[Reg64::Rbx],
        b.out == r.out,
        b.reads == r.reads,
        tape(b) == tape(r),
        b.cpu.regs[Reg64::Rbp] == r.cpu.regs[Reg64::Rbp],
        win ==> b.cpu.regs[Reg64::Rdi] == r.cpu.regs[Reg64::Rdi] && b.cpu.regs[Reg64::Rsi]
            == r.cpu.regs[Reg64::Rsi],
        forall|y: int|
            buffer(r).0 <= y < buffer(r).1 || x.sp <= y < x.zone.1 ==> #[trigger] b.cpu.mem[y]
                == r.cpu.mem[y],
{
    reveal(after);
    let i0 = AsmInst::Push(Reg64::Rbx);
    let i1 = AsmInst::AddRegImm32(Reg64::Rsp, (-8) as i32);
    let i2 = AsmInst::MovzxEbxFromMemR13;
    let old = r.cpu.regs[Reg64::Rbx];
    let piece = seq![i0] + (if aligned {
        seq![i1]
    } else {
        Seq::empty()
    }) + seq![i2];
    assert(code[r.pc + 0] == piece[0]);
    assert(code[r.pc + 1] == piece[1]);
    lemma_plain(code, w, r, i0);
    let r1 = after(r, i0);
    lemma_stored(r.cpu.mem, x.sp - 8, old);
    assert(r1.cpu.mem == store64(r.cpu.mem, x.sp - 8, old));
    let r2 = if aligned {
        assert(code[r.pc + 2] == piece[2]);
        lemma_plain(code, w, r1, i1);
        lemma_add_imm(r1, Reg64::Rsp, (-8) as i32);
        lemma_then(code, w, r, r1, after(r1, i1));
        after(r1, i1)
    } else {
        r1
    };
    assert(r2.cpu.regs[Reg64::Rsp] == x.sp - (if aligned {
        16int
    } else {
        8int
    }));
    assert(r2.cpu.mem == r1.cpu.mem);
    lemma_plain(code, w, r2, i2);
    let b = after(r2, i2);
    lemma_then(code, w, r, r2, b);
    assert(s.cells[s.ptr] == r.cpu.mem[r.cpu.regs[Reg64::R13]]);
    assert(b.cpu.mem == r1.cpu.mem);
    assert(mirrors(b.cpu.mem, s, x.base, tape(b).0, tape(b).1)) by {
        assert forall|i: int|
            #[trigger] s.cells[i] == (if tape(b).0 <= x.base + i < tape(b).1 {
                b.cpu.mem[x.base + i]
            } else {
                0
            }) by {
            assert(s.cells[i] == (if tape(r).0 <= x.base + i < tape(r).1 {
                r.cpu.mem[x.base + i]
            } else {
                0
            }));
        }
    }
    assert(bytewise(b.cpu.mem)) by {
        assert forall|a: int| 0 <= #[trigger] b.cpu.mem[a] < 256 by {
            assert(0 <= r.cpu.mem[a] < 256);
        }
    }
    b
}

/// The way out of a multiplication: RBX is as it was.
proof fn lemma_leave(
    code: Seq<AsmInst>,
    w: World,
    r: Run,
    b: Run,
    base: int,
    s: St,
    x: Site,
    aligned: bool,
    window: Option<(int, int)>,
    win: bool,
) -> (c: Run)
    requires
        ({
            let y = Site { base, sp: x.sp - (if aligned {
                16int
            } else {
                8int
            }), ..x };
            rolls(b, s, y)
        }),
        known(b, window),
        x.zone.0 + 144 <= x.sp,
        x.sp + 64 <= x.zone.1,
        tape(b).0 - base <= tape(r).0 - x.base,
        tape(r).1 - x.base <= tape(b).1 - base,
        load64(b.cpu.mem, x.sp - 8) == r.cpu.regs[Reg64::Rbx],
        b.out == r.out,
        b.reads == r.reads,
        b.cpu.regs[Reg64::Rbp] == r.cpu.regs[Reg64::Rbp],
        win ==> b.cpu.regs[Reg64::Rdi] == r.cpu.regs[Reg64::Rdi] && b.cpu.regs[Reg64::Rsi]
            == r.cpu.regs[Reg64::Rsi],
        forall|y: int|
            buffer(r).0 <= y < buffer(r).1 || x.sp <= y < x.zone.1 ==> #[trigger] b.cpu.mem[y]
                == r.cpu.mem[y],
        sits(
            code,
            b.pc,
            (if aligned {
                seq![AsmInst::AddRegImm32(Reg64::Rsp, 8)]
            } else {
                Seq::empty()
            }) + seq![AsmInst::Pop(Reg64::Rbx)],
        ),
    ensures
        reaches(code, w, b, c),
        arrived(
            r,
            x,
            c,
            base,
            s,
            b.pc + (if aligned {
                2int
            } else {
                1int
            }),
            window,
            win,
        ),
{
    reveal(after);
    let i0 = AsmInst::AddRegImm32(Reg64::Rsp, 8);
    let i1 = AsmInst::Pop(Reg64::Rbx);
    let piece = (if aligned {
        seq![i0]
    } else {
        Seq::empty()
    }) + seq![i1];
    assert(code[b.pc + 0] == piece[0]);
    let b1 = if aligned {
        assert(code[b.pc + 1] == piece[1]);
        lemma_plain(code, w, b, i0);
        lemma_add_imm(b, Reg64::Rsp, 8);
        after(b, i0)
    } else {
        lemma_here(code, w, b);
        b
    };
    assert(b1.cpu.mem == b.cpu.mem);
    assert(b1.cpu.regs[Reg64::Rsp] == x.sp - 8);
    lemma_plain(code, w, b1, i1);
    let c = after(b1, i1);
    lemma_then(code, w, b, b1, c);
    assert(c.cpu.mem == b.cpu.mem);
    assert(c.cpu.regs[Reg64::Rbx] == r.cpu.regs[Reg64::Rbx]);
    c
}

/// A linear multiplication with its frame.
pub proof fn lemma_linear(
    code: Seq<AsmInst>,
    w: World,
    r: Run,
    s: St,
    x: Site,
    factors: Seq<(isize, i32)>,
    sets: Seq<isize>,
    next: int,
    aligned: bool,
    ensure: AsmLabel,
    j: int,
    win: bool,
)
    requires
        labels_unique(code),
        code.len() < word(),
        grows(code, w, ensure, win),
        0 <= j < code.len(),
        code[j] == AsmInst::Label(ensure),
        rolls(r, s, x),
        x.zone.0 + 144 <= x.sp,
        0 <= r.cpu.regs[Reg64::Rbx] < word(),
        offsets_near(offsets_of(factors)),
        offsets_near(sets),
        sits(
            code,
            r.pc,
            multiplicand_frame(aligned, linear_inner_insts(factors, sets, next, ensure)),
        ),
    ensures
        comes(
            code,
            w,
            r,
            r,
            x,
            s.multiplied(factors_view(factors)).cleared(sets_view(sets), sets.len() as int),
            r.pc + multiplicand_frame(
                aligned,
                linear_inner_insts(factors, sets, next, ensure),
            ).len(),
            linear_window(factors, sets),
            win,
        ),
{
    let inner = linear_inner_insts(factors, sets, next, ensure);
    let all = multiplicand_frame(aligned, inner);
    let head = seq![AsmInst::Push(Reg64::Rbx)] + (if aligned {
        seq![AsmInst::AddRegImm32(Reg64::Rsp, (-8) as i32)]
    } else {
        Seq::empty()
    }) + seq![AsmInst::MovzxEbxFromMemR13];
    let clear = seq![AsmInst::MovMem8Imm8(Reg64::R13, 0)];
    let tail = (if aligned {
        seq![AsmInst::AddRegImm32(Reg64::Rsp, 8)]
    } else {
        Seq::empty()
    }) + seq![AsmInst::Pop(Reg64::Rbx)];
    assert(all =~= head + (clear + (inner + tail)));
    lemma_parts(code, r.pc, head, clear + (inner + tail));
    let p1 = r.pc + head.len();
    lemma_parts(code, p1, clear, inner + tail);
    let p2 = p1 + 1;
    lemma_parts(code, p2, inner, tail);
    let p3 = p2 + inner.len();
    let p4 = p3 + tail.len();
    assert(code[p1 + 0] == clear[0]);
    let v = s.cell();
    assert(s.cells[s.ptr] == r.cpu.mem[r.cpu.regs[Reg64::R13]]);
    let b1 = lemma_enter(code, w, r, s, x, aligned, win);
    let y = Site { sp: x.sp - (if aligned {
        16int
    } else {
        8int
    }), ..x };
    let s1 = s.set_at(0, 0);
    let s2 = s1.spread(factors_view(factors), v, factors.len() as int);
    let s3 = s2.cleared(sets_view(sets), sets.len() as int);
    let window = linear_window(factors, sets);
    lemma_set_at(code, w, b1, s, y, 0, 0, None, win);
    let (b2, base2) = choose|b: Run, base: int| #[trigger]
        leads(code, w, b1, b1, y, s1, p2, None, win, b, base);
    lemma_then(code, w, r, b1, b2);
    if starved(b2) {
        assert(leads(code, w, r, r, x, s3, p4, window, win, b2, base2));
    } else {
        let z = Site { base: base2, ..y };
        lemma_inner(code, w, b2, s1, z, factors, sets, next, v, ensure, j, win);
        lemma_comes_from(code, w, b1, b1, y, b2, base2, s1, p2, None, s3, p3, window, win);
        let (b3, base3) = choose|b: Run, base: int| #[trigger]
            leads(code, w, b1, b1, y, s3, p3, window, win, b, base);
        lemma_then(code, w, r, b1, b3);
        if starved(b3) {
            assert(leads(code, w, r, r, x, s3, p4, window, win, b3, base3));
        } else {
            assert forall|a: int| x.sp - 8 <= a < x.sp implies #[trigger] b3.cpu.mem[a]
                == b1.cpu.mem[a] by {
                assert(b1.cpu.mem[a] == b3.cpu.mem[a]);
            }
            lemma_same_load(b3.cpu.mem, b1.cpu.mem, x.sp - 8);
            assert forall|a: int|
                buffer(r).0 <= a < buffer(r).1 || x.sp <= a < x.zone.1 implies #[trigger] b3.cpu.mem[a]
                == r.cpu.mem[a] by {
                assert(b1.cpu.mem[a] == r.cpu.mem[a]);
                assert(b1.cpu.mem[a] == b3.cpu.mem[a]);
            }
            assert((Site { base: base3, ..y }) == (Site {
                base: base3,
                sp: x.sp - (if aligned {
                    16int
                } else {
                    8int
                }),
                ..x
            }));
            let c = lemma_leave(code, w, r, b3, base3, s3, x, aligned, window, win);
            lemma_then(code, w, r, b3, c);
            lemma_arrives(code, w, r, r, x, c, base3, s3, p4, window, win);
        }
    }
}

} // verus!
