//! Running the instructions of a LIR program: the tape in memory follows the cells.

use vstd::prelude::*;

use crate::backend::asm_ir::{AsmInst, AsmLabel, Reg64};
use crate::backend::codegen_common::{
    add_at, add_reg_insts, cell_add_insts, checked_window, clamp_i32, internal,
    probe_high_insts, probe_low_insts, ptr_add_checked_insts, ptr_add_insts, regrow_insts,
    set_at,
};
use crate::backend::x86_64::encode::labels_unique;
use crate::backend::x86_64::machine::{
    after, lemma_call, lemma_here, lemma_jump, lemma_pass, lemma_plain, lemma_then, reaches,
    signed, word, Run, World,
};
use crate::interp::machine::St;

verus! {

/// Addresses of programs lie below this one.
pub open spec fn ceiling() -> int {
    0x8000_0000_0000
}

/// And not below this one.
pub open spec fn floor() -> int {
    0x1_0000_0000
}

/// Two ranges have nothing in common.
pub open spec fn apart(a: (int, int), b: (int, int)) -> bool {
    a.1 <= b.0 || b.1 <= a.0
}

/// Memory holds bytes.
pub open spec fn bytewise(mem: Map<int, int>) -> bool {
    forall|a: int| 0 <= #[trigger] mem[a] < 256
}

/// Where a running program has its things.
pub struct Site {
    /// The address of cell 0, if it were on the tape.
    pub base: int,
    /// The stack pointer.
    pub sp: int,
    /// The stack.
    pub zone: (int, int),
}

/// The tape.
pub open spec fn tape(r: Run) -> (int, int) {
    (r.cpu.regs[Reg64::R12], r.cpu.regs[Reg64::R14])
}

/// The output buffer.
pub open spec fn buffer(r: Run) -> (int, int) {
    (r.cpu.regs[Reg64::Rbp] - 4096, r.cpu.regs[Reg64::Rbp])
}

/// Memory from `lo` to `hi` holds the cells, and the cells elsewhere are zero.
pub open spec fn mirrors(mem: Map<int, int>, s: St, base: int, lo: int, hi: int) -> bool {
    forall|i: int|
        #[trigger] s.cells[i] == (if lo <= base + i < hi {
            mem[base + i]
        } else {
            0
        })
}

/// The tape of a run mirrors the cells, with the data pointer in R13.
pub open spec fn rolls(r: Run, s: St, site: Site) -> bool {
    let g = r.cpu.regs;
    &&& g[Reg64::R13] == site.base + s.ptr
    &&& floor() <= g[Reg64::R12] <= g[Reg64::R13] < g[Reg64::R14] <= ceiling()
    &&& mirrors(r.cpu.mem, s, site.base, g[Reg64::R12], g[Reg64::R14])
    &&& bytewise(r.cpu.mem)
    &&& g[Reg64::Rsp] == site.sp
    &&& 0 <= g[Reg64::Rdi] < word()
    &&& 0 <= g[Reg64::Rsi] < word()
    &&& 0 < site.zone.0
    &&& site.zone.0 + 128 <= site.sp
    &&& site.sp + 64 <= site.zone.1 <= ceiling()
    &&& 0 < buffer(r).0
    &&& buffer(r).1 <= ceiling()
    &&& apart(tape(r), site.zone)
    &&& apart(tape(r), buffer(r))
    &&& apart(buffer(r), site.zone)
    &&& r.live.contains(tape(r))
    &&& r.live.contains(buffer(r))
    &&& r.live.contains(site.zone)
    &&& r.over is None
    &&& !r.refused
    &&& !r.cpu.down
}

/// What the tape has nothing to do with stays as it was: input and output, the buffer and
/// its registers, the stack from the stack pointer on, and on Windows the handles.
pub open spec fn keeps(a: Run, b: Run, x: Site, win: bool) -> bool {
    let g = a.cpu.regs;
    let h = b.cpu.regs;
    &&& a.out == b.out
    &&& a.reads == b.reads
    &&& g[Reg64::Rbx] == h[Reg64::Rbx]
    &&& g[Reg64::Rbp] == h[Reg64::Rbp]
    &&& win ==> g[Reg64::Rdi] == h[Reg64::Rdi] && g[Reg64::Rsi] == h[Reg64::Rsi]
    &&& forall|y: int|
        buffer(a).0 <= y < buffer(a).1 || x.sp <= y < x.zone.1 ==> #[trigger] a.cpu.mem[y]
            == b.cpu.mem[y]
}

/// The tape has at least the cells that it had.
pub open spec fn wider(a: Run, x: Site, b: Run, y: Site) -> bool {
    &&& tape(b).0 - y.base <= tape(a).0 - x.base
    &&& tape(a).1 - x.base <= tape(b).1 - y.base
}

/// The places around the data pointer that are known to be on the tape are on it.
pub open spec fn known(r: Run, window: Option<(int, int)>) -> bool {
    match window {
        Some((lo, hi)) => {
            &&& tape(r).0 <= r.cpu.regs[Reg64::R13] + lo
            &&& r.cpu.regs[Reg64::R13] + hi < tape(r).1
        },
        None => true,
    }
}

/// A run has come to a place with the cells as they should be.
pub open spec fn arrived(
    a: Run,
    x: Site,
    b: Run,
    base: int,
    s: St,
    to: int,
    window: Option<(int, int)>,
    win: bool,
) -> bool {
    &&& b.pc == to
    &&& rolls(b, s, (Site { base, ..x }))
    &&& keeps(a, b, x, win)
    &&& wider(a, x, b, (Site { base, ..x }))
    &&& known(b, window)
}

/// A run has left because no memory was granted.
pub open spec fn starved(b: Run) -> bool {
    b.refused && b.over == Some(1int)
}

/// A run goes from `from` to `b`, where the cells are as they should be unless no memory
/// was granted.
pub open spec fn leads(
    code: Seq<AsmInst>,
    w: World,
    from: Run,
    a: Run,
    x: Site,
    s: St,
    to: int,
    window: Option<(int, int)>,
    win: bool,
    b: Run,
    base: int,
) -> bool {
    reaches(code, w, from, b) && (starved(b) || arrived(a, x, b, base, s, to, window, win))
}

/// From `from`, a run comes to a place with the cells as they should be, unless no
/// memory was granted.
pub open spec fn comes(
    code: Seq<AsmInst>,
    w: World,
    from: Run,
    a: Run,
    x: Site,
    s: St,
    to: int,
    window: Option<(int, int)>,
    win: bool,
) -> bool {
    exists|b: Run, base: int| #[trigger]
        leads(code, w, from, a, x, s, to, window, win, b, base)
}

/// The growth routine does what it is for: called with the address of a place off the
/// tape in R15, it comes back with that place on the tape and R13 there, and with every
/// cell as it was.
pub open spec fn grows(code: Seq<AsmInst>, w: World, ensure: AsmLabel, win: bool) -> bool {
    forall|r: Run, s: St, x: Site, d: int, j: int, back: int|
        #![trigger wants(code, ensure, r, s, x, d, j, back)]
        wants(code, ensure, r, s, x, d, j, back) ==> comes(
            code,
            w,
            (Run { pc: j, cpu: r.cpu.pushed(back), ..r }),
            r,
            x,
            s.moved(d),
            back,
            None,
            win,
        )
}

/// A place off the tape is wanted.
pub open spec fn wants(
    code: Seq<AsmInst>,
    ensure: AsmLabel,
    r: Run,
    s: St,
    x: Site,
    d: int,
    j: int,
    back: int,
) -> bool {
    let to = x.base + s.ptr + d;
    &&& rolls(r, s, x)
    &&& 0 <= j < code.len()
    &&& code[j] == AsmInst::Label(ensure)
    &&& 0 <= back < word()
    &&& -far() <= d <= far()
    &&& r.cpu.regs[Reg64::R15] == to % word()
    &&& to < tape(r).0 || tape(r).1 <= to
}

/// Moves are no longer than this.
pub open spec fn far() -> int {
    0x400_0000_0000_0000
}

/// Some instructions stand in a program.
pub open spec fn sits(code: Seq<AsmInst>, p: int, piece: Seq<AsmInst>) -> bool {
    &&& 0 <= p
    &&& p + piece.len() <= code.len()
    &&& forall|k: int| 0 <= k < piece.len() ==> #[trigger] code[p + k] == piece[k]
}

/// Parts stand where the whole does.
pub proof fn lemma_parts(code: Seq<AsmInst>, p: int, a: Seq<AsmInst>, b: Seq<AsmInst>)
    requires
        sits(code, p, a + b),
    ensures
        sits(code, p, a),
        sits(code, p + a.len(), b),
{
    let all = a + b;
    assert forall|k: int| 0 <= k < a.len() implies #[trigger] code[p + k] == a[k] by {
        assert(all[k] == a[k]);
    }
    assert forall|k: int| 0 <= k < b.len() implies #[trigger] code[p + a.len() + k] == b[k] by {
        assert(all[a.len() + k] == b[k]);
        assert(code[p + (a.len() + k)] == all[a.len() + k]);
    }
}

/// One way behind another.
pub proof fn lemma_comes_then(
    code: Seq<AsmInst>,
    w: World,
    from: Run,
    mid: Run,
    a: Run,
    x: Site,
    s: St,
    to: int,
    window: Option<(int, int)>,
    win: bool,
)
    requires
        reaches(code, w, from, mid),
        comes(code, w, mid, a, x, s, to, window, win),
    ensures
        comes(code, w, from, a, x, s, to, window, win),
{
    let (b, base) = choose|b: Run, base: int| #[trigger]
        leads(code, w, mid, a, x, s, to, window, win, b, base);
    lemma_then(code, w, from, mid, b);
    assert(leads(code, w, from, a, x, s, to, window, win, b, base));
}

/// What comes behind a way whose end is known.
pub proof fn lemma_arrives(
    code: Seq<AsmInst>,
    w: World,
    from: Run,
    a: Run,
    x: Site,
    b: Run,
    base: int,
    s: St,
    to: int,
    window: Option<(int, int)>,
    win: bool,
)
    requires
        reaches(code, w, from, b),
        arrived(a, x, b, base, s, to, window, win),
    ensures
        comes(code, w, from, a, x, s, to, window, win),
{
    assert(leads(code, w, from, a, x, s, to, window, win, b, base));
}

/// Two runs that keep things, one behind the other.
pub proof fn lemma_keeps(a: Run, b: Run, c: Run, x: Site, win: bool)
    requires
        keeps(a, b, x, win),
        keeps(b, c, x, win),
    ensures
        keeps(a, c, x, win),
{
    assert forall|y: int|
        buffer(a).0 <= y < buffer(a).1 || x.sp <= y < x.zone.1 implies #[trigger] a.cpu.mem[y]
        == c.cpu.mem[y] by {
        assert(a.cpu.mem[y] == b.cpu.mem[y]);
        assert(b.cpu.mem[y] == c.cpu.mem[y]);
    }
}

/// A way on from where another has come to.
pub proof fn lemma_comes_from(
    code: Seq<AsmInst>,
    w: World,
    from: Run,
    a: Run,
    x: Site,
    m: Run,
    base: int,
    sm: St,
    pm: int,
    wm: Option<(int, int)>,
    s: St,
    to: int,
    window: Option<(int, int)>,
    win: bool,
)
    requires
        reaches(code, w, from, m),
        arrived(a, x, m, base, sm, pm, wm, win),
        comes(code, w, m, m, (Site { base, ..x }), s, to, window, win),
    ensures
        comes(code, w, from, a, x, s, to, window, win),
{
    let y = Site { base, ..x };
    let (b, base2) = choose|b: Run, base2: int| #[trigger]
        leads(code, w, m, m, y, s, to, window, win, b, base2);
    lemma_then(code, w, from, m, b);
    if !starved(b) {
        lemma_keeps(a, m, b, x, win);
        assert(arrived(a, x, b, base2, s, to, window, win));
    }
    assert(leads(code, w, from, a, x, s, to, window, win, b, base2));
}

/// A register moved by a value, in as many immediates as it takes.
pub proof fn lemma_add_reg(
    code: Seq<AsmInst>,
    w: World,
    r: Run,
    reg: Reg64,
    v: int,
) -> (b: Run)
    requires
        sits(code, r.pc, add_reg_insts(reg, v)),
        0 <= r.cpu.regs[reg] < word(),
        r.over is None,
    ensures
        reaches(code, w, r, b),
        b.pc == r.pc + add_reg_insts(reg, v).len(),
        forall|q: Reg64| #[trigger]
            b.cpu.regs[q] == (if q == reg {
                (r.cpu.regs[reg] + v) % word()
            } else {
                r.cpu.regs[q]
            }),
        b.cpu.mem == r.cpu.mem,
        b.cpu.down == r.cpu.down,
        b == (Run { pc: b.pc, cpu: b.cpu, ..r }),
    decreases
        if v < 0 {
            -v
        } else {
            v
        },
{
    reveal(after);
    if v == 0 {
        lemma_here(code, w, r);
        r
    } else {
        let c = clamp_i32(v);
        let inst = AsmInst::AddRegImm32(reg, c as i32);
        let rest = add_reg_insts(reg, v - c);
        lemma_parts(code, r.pc, seq![inst], rest);
        assert(code[r.pc + 0] == seq![inst][0]);
        lemma_plain(code, w, r, inst);
        let m = after(r, inst);
        let old = r.cpu.regs[reg];
        lemma_mod_add(old, c, c % word());
        assert(m.cpu.regs == r.cpu.regs.insert(reg, (old + c) % word()));
        let b = lemma_add_reg(code, w, m, reg, v - c);
        lemma_then(code, w, r, m, b);
        lemma_mod_add(v - c, old + c, (old + c) % word());
        assert((old + c) + (v - c) == old + v);
        b
    }
}

/// A remainder may be taken of a summand first.
pub proof fn lemma_mod_add(a: int, b: int, c: int)
    requires
        c == b % word(),
    ensures
        (a + c) % word() == (a + b) % word(),
        (c + a) % word() == (b + a) % word(),
{
    vstd::arithmetic::div_mod::lemma_add_mod_noop_right(a, b, word());
}

/// Adding an immediate to a register.
pub proof fn lemma_add_imm(r: Run, reg: Reg64, imm: i32)
    ensures
        ({
            let b = after(r, AsmInst::AddRegImm32(reg, imm));
            &&& b.cpu.regs == r.cpu.regs.insert(reg, (r.cpu.regs[reg] + imm) % word())
            &&& b.cpu.mem == r.cpu.mem
            &&& b.cpu.down == r.cpu.down
            &&& b == (Run { pc: r.pc + 1, cpu: b.cpu, ..r })
        }),
{
    reveal(after);
    lemma_mod_add(r.cpu.regs[reg], imm as int, imm as int % word());
}

/// Comparing a register with an immediate.
pub proof fn lemma_compare_imm(r: Run, reg: Reg64, imm: i32)
    requires
        0 <= r.cpu.regs[reg] < word(),
    ensures
        ({
            let b = after(r, AsmInst::CmpRegImm32(reg, imm));
            &&& b.cpu == r.cpu.flagged(b.cpu.zero, b.cpu.below, b.cpu.less)
            &&& b.cpu.zero == (r.cpu.regs[reg] == imm as int % word())
            &&& b.cpu.less == (signed(r.cpu.regs[reg], 8) < imm)
            &&& b == (Run { pc: r.pc + 1, cpu: b.cpu, ..r })
        }),
{
    reveal(after);
    let a = r.cpu.regs[reg];
    let v = imm as int % word();
    assert(signed(v, 8) == imm);
    let all = a - v;
    assert((all % word() == 0) == (a == v)) by {
        if a < v {
            assert(all % word() == all + word());
        } else {
            assert(all % word() == all);
        }
    }
}

/// A byte of the tape is set.
pub proof fn lemma_poke(
    r: Run,
    b: Run,
    s: St,
    x: Site,
    off: int,
    v: int,
    window: Option<(int, int)>,
    win: bool,
)
    requires
        rolls(r, s, x),
        known(r, window),
        0 <= v < 256,
        tape(r).0 <= r.cpu.regs[Reg64::R13] + off < tape(r).1,
        b.cpu.regs == r.cpu.regs,
        b.cpu.mem == r.cpu.mem.insert(r.cpu.regs[Reg64::R13] + off, v),
        b.cpu.down == r.cpu.down,
        b == (Run { pc: b.pc, cpu: b.cpu, ..r }),
    ensures
        arrived(r, x, b, x.base, s.set_at(off, v), b.pc, window, win),
{
    let t = s.set_at(off, v);
    let at = r.cpu.regs[Reg64::R13] + off;
    let lo = tape(r).0;
    let hi = tape(r).1;
    assert forall|i: int|
        #[trigger] t.cells[i] == (if lo <= x.base + i < hi {
            b.cpu.mem[x.base + i]
        } else {
            0
        }) by {
        assert(s.cells[i] == (if lo <= x.base + i < hi {
            r.cpu.mem[x.base + i]
        } else {
            0
        }));
    }
    assert forall|a: int| 0 <= #[trigger] b.cpu.mem[a] < 256 by {
        assert(0 <= r.cpu.mem[a] < 256);
    }
    assert forall|y: int|
        buffer(r).0 <= y < buffer(r).1 || x.sp <= y < x.zone.1 implies #[trigger] r.cpu.mem[y]
        == b.cpu.mem[y] by {
        assert(y != at);
    }
}

/// A byte as a signed number and back.
proof fn lemma_cast(v: u8)
    ensures
        (v as i8) as int % 256 == v,
{
    assert(v < 128 ==> (v as i8) as i16 == v as i16) by (bit_vector);
    assert(v >= 128 ==> (v as i8) as i16 == v as i16 - 256) by (bit_vector);
}

/// The number added to a cell counts only modulo 256.
proof fn lemma_mod_byte(a: int, n: int, k: int)
    requires
        k == n % 256,
    ensures
        (a + k) % 256 == (a + n) % 256,
{
    vstd::arithmetic::div_mod::lemma_add_mod_noop_right(a, n, 256);
}

/// Adding to the current cell.
pub proof fn lemma_cell_add(
    code: Seq<AsmInst>,
    w: World,
    r: Run,
    s: St,
    x: Site,
    n: int,
    window: Option<(int, int)>,
    win: bool,
)
    requires
        sits(code, r.pc, cell_add_insts(n)),
        rolls(r, s, x),
        known(r, window),
    ensures
        comes(
            code,
            w,
            r,
            r,
            x,
            s.add_at(0, n),
            r.pc + cell_add_insts(n).len(),
            window,
            win,
        ),
{
    reveal(after);
    let imm = n % 256;
    let at = r.cpu.regs[Reg64::R13];
    let old = r.cpu.mem[at];
    assert(s.cells[s.ptr] == old);
    lemma_mod_byte(old, n, imm);
    let piece = cell_add_insts(n);
    if imm == 0 {
        assert(old % 256 == old);
        lemma_here(code, w, r);
        let t = s.add_at(0, n);
        assert forall|i: int|
            #[trigger] t.cells[i] == (if tape(r).0 <= x.base + i < tape(r).1 {
                r.cpu.mem[x.base + i]
            } else {
                0
            }) by {
            assert(s.cells[i] == (if tape(r).0 <= x.base + i < tape(r).1 {
                r.cpu.mem[x.base + i]
            } else {
                0
            }));
        }
        assert(arrived(r, x, r, x.base, t, r.pc, window, win));
        lemma_arrives(code, w, r, r, x, r, x.base, t, r.pc, window, win);
    } else {
        let inst = piece[0];
        assert(code[r.pc + 0] == inst);
        lemma_plain(code, w, r, inst);
        let b = after(r, inst);
        lemma_cast(imm as u8);
        let v = (old + n) % 256;
        if imm == 255 {
            vstd::arithmetic::div_mod::lemma_mod_add_multiples_vanish(old - 1, 256);
            assert(old + 255 == 256 + (old - 1));
        }
        assert(b.cpu.mem == r.cpu.mem.insert(at, v));
        lemma_poke(r, b, s, x, 0, v, window, win);
        lemma_arrives(code, w, r, r, x, b, x.base, s.add_at(0, n), b.pc, window, win);
    }
}

/// Adding to a cell at an offset.
pub proof fn lemma_add_at(
    code: Seq<AsmInst>,
    w: World,
    r: Run,
    s: St,
    x: Site,
    off: int,
    n: int,
    window: Option<(int, int)>,
    win: bool,
)
    requires
        0 <= r.pc < code.len(),
        i32::MIN <= off <= i32::MAX,
        code[r.pc] == add_at(off, ((n % 256) as u8) as i8),
        rolls(r, s, x),
        known(r, window),
        tape(r).0 <= r.cpu.regs[Reg64::R13] + off < tape(r).1,
    ensures
        comes(code, w, r, r, x, s.add_at(off, n), r.pc + 1, window, win),
{
    reveal(after);
    let inst = code[r.pc];
    let at = r.cpu.regs[Reg64::R13] + off;
    let old = r.cpu.mem[at];
    assert(s.cells[s.ptr + off] == old);
    lemma_mod_byte(old, n, n % 256);
    lemma_cast((n % 256) as u8);
    lemma_plain(code, w, r, inst);
    let b = after(r, inst);
    let v = (old + n) % 256;
    assert(r.cpu.at(Reg64::R13, off) == at);
    assert(b.cpu.mem == r.cpu.mem.insert(at, v));
    lemma_poke(r, b, s, x, off, v, window, win);
    lemma_arrives(code, w, r, r, x, b, x.base, s.add_at(off, n), b.pc, window, win);
}

/// Setting a cell at an offset.
pub proof fn lemma_set_at(
    code: Seq<AsmInst>,
    w: World,
    r: Run,
    s: St,
    x: Site,
    off: int,
    v: u8,
    window: Option<(int, int)>,
    win: bool,
)
    requires
        0 <= r.pc < code.len(),
        i32::MIN <= off <= i32::MAX,
        code[r.pc] == set_at(off, v) || off == 0 && code[r.pc] == AsmInst::MovMem8Imm8(
            Reg64::R13,
            v,
        ),
        rolls(r, s, x),
        known(r, window),
        tape(r).0 <= r.cpu.regs[Reg64::R13] + off < tape(r).1,
    ensures
        comes(code, w, r, r, x, s.set_at(off, v as int), r.pc + 1, window, win),
{
    reveal(after);
    let inst = code[r.pc];
    let at = r.cpu.regs[Reg64::R13] + off;
    lemma_plain(code, w, r, inst);
    let b = after(r, inst);
    assert(r.cpu.at(Reg64::R13, off) == at);
    assert(b.cpu.mem == r.cpu.mem.insert(at, v as int));
    lemma_poke(r, b, s, x, off, v as int, window, win);
    lemma_arrives(code, w, r, r, x, b, x.base, s.set_at(off, v as int), b.pc, window, win);
}

/// Only R15, RAX, the flags and the place in the code differ.
pub open spec fn idles(a: Run, b: Run) -> bool {
    &&& a.cpu.mem == b.cpu.mem
    &&& a.cpu.down == b.cpu.down
    &&& a.out == b.out
    &&& a.reads == b.reads
    &&& a.live == b.live
    &&& a.refused == b.refused
    &&& a.over == b.over
    &&& forall|q: Reg64| !(q is R15 || q is Rax) ==> #[trigger] b.cpu.regs[q] == a.cpu.regs[q]
}

/// Such runs have the same tape.
pub proof fn lemma_idles(a: Run, b: Run, s: St, x: Site, window: Option<(int, int)>, win: bool)
    requires
        idles(a, b),
        rolls(a, s, x),
        known(a, window),
    ensures
        arrived(a, x, b, x.base, s, b.pc, window, win),
{
}

/// A label behind the place where a run comes to is passed.
pub proof fn lemma_comes_pass(
    code: Seq<AsmInst>,
    w: World,
    from: Run,
    a: Run,
    x: Site,
    s: St,
    to: int,
    window: Option<(int, int)>,
    win: bool,
)
    requires
        comes(code, w, from, a, x, s, to, window, win),
        0 <= to < code.len(),
        code[to] is Label || code[to] is Align16,
    ensures
        comes(code, w, from, a, x, s, to + 1, window, win),
{
    let (b, base) = choose|b: Run, base: int| #[trigger]
        leads(code, w, from, a, x, s, to, window, win, b, base);
    if starved(b) {
        assert(leads(code, w, from, a, x, s, to + 1, window, win, b, base));
    } else {
        let c = Run { pc: to + 1, ..b };
        lemma_pass(code, w, b);
        lemma_then(code, w, from, b, c);
        assert(arrived(a, x, c, base, s, to + 1, window, win));
        assert(leads(code, w, from, a, x, s, to + 1, window, win, c, base));
    }
}

/// The growth routine is called.
proof fn lemma_grown(
    code: Seq<AsmInst>,
    w: World,
    r: Run,
    s: St,
    x: Site,
    d: int,
    ensure: AsmLabel,
    j: int,
    win: bool,
)
    requires
        labels_unique(code),
        code.len() < word(),
        grows(code, w, ensure, win),
        0 <= j < code.len(),
        code[j] == AsmInst::Label(ensure),
        rolls(r, s, x),
        0 <= r.pc < code.len(),
        code[r.pc] == AsmInst::Call(ensure),
        -far() <= d <= far(),
        r.cpu.regs[Reg64::R15] == (x.base + s.ptr + d) % word(),
        x.base + s.ptr + d < tape(r).0 || tape(r).1 <= x.base + s.ptr + d,
    ensures
        comes(code, w, r, r, x, s.moved(d), r.pc + 1, None, win),
{
    let back = r.pc + 1;
    lemma_call(code, w, r, ensure, j);
    assert(wants(code, ensure, r, s, x, d, j, back));
    let entered = Run { pc: j, cpu: r.cpu.pushed(back), ..r };
    lemma_comes_then(code, w, r, entered, r, x, s.moved(d), back, None, win);
}

/// R15 is set to the place at an offset.
proof fn lemma_probe(code: Seq<AsmInst>, w: World, r: Run, s: St, x: Site, n: int) -> (b: Run)
    requires
        sits(
            code,
            r.pc,
            seq![AsmInst::MovRegReg(Reg64::R15, Reg64::R13)] + add_reg_insts(Reg64::R15, n),
        ),
        rolls(r, s, x),
    ensures
        reaches(code, w, r, b),
        b.pc == r.pc + 1 + add_reg_insts(Reg64::R15, n).len(),
        idles(r, b),
        b.cpu.regs[Reg64::R15] == (x.base + s.ptr + n) % word(),
{
    reveal(after);
    let m = AsmInst::MovRegReg(Reg64::R15, Reg64::R13);
    lemma_parts(code, r.pc, seq![m], add_reg_insts(Reg64::R15, n));
    assert(code[r.pc + 0] == seq![m][0]);
    lemma_plain(code, w, r, m);
    let r1 = after(r, m);
    let b = lemma_add_reg(code, w, r1, Reg64::R15, n);
    lemma_then(code, w, r, r1, b);
    b
}

/// R15 is compared with an end of the tape, and a jump is made.
proof fn lemma_bound(code: Seq<AsmInst>, w: World, r: Run, low: bool, j: int) -> (b: Run)
    requires
        labels_unique(code),
        0 <= r.pc,
        r.pc + 1 < code.len(),
        0 <= j < code.len(),
        r.over is None,
        0 <= r.cpu.regs[Reg64::R15] < word(),
        0 < tape(r).0 < tape(r).1 <= ceiling(),
        code[r.pc] == AsmInst::CmpRegReg(
            Reg64::R15,
            if low {
                Reg64::R12
            } else {
                Reg64::R14
            },
        ),
        code[j] is Label,
        code[r.pc + 1] == (if low {
            AsmInst::Jb(code[j]->Label_0)
        } else {
            AsmInst::Jae(code[j]->Label_0)
        }),
    ensures
        reaches(code, w, r, b),
        idles(r, b),
        b.cpu.regs[Reg64::R15] == r.cpu.regs[Reg64::R15],
        b.pc == (if (low && r.cpu.regs[Reg64::R15] < tape(r).0) || (!low && r.cpu.regs[Reg64::R15]
            >= tape(r).1) {
            j
        } else {
            r.pc + 2
        }),
{
    reveal(after);
    let inst = code[r.pc];
    lemma_plain(code, w, r, inst);
    let r1 = after(r, inst);
    let a = r.cpu.regs[Reg64::R15];
    let e = if low {
        tape(r).0
    } else {
        tape(r).1
    };
    assert(r1.cpu.below == (a < e)) by {
        if a < e {
            assert((a - e) % word() != a - e);
        } else {
            assert((a - e) % word() == a - e);
        }
    }
    lemma_jump(code, w, r1, j);
    let b = Run {
        pc: if r1.cpu.below == low {
            j
        } else {
            r1.pc + 1
        },
        ..r1
    };
    lemma_then(code, w, r, r1, b);
    b
}

/// Moving the data pointer, with growth where the target is off the tape.
pub proof fn lemma_ptr_add(
    code: Seq<AsmInst>,
    w: World,
    r: Run,
    s: St,
    x: Site,
    next: int,
    n: int,
    ensure: AsmLabel,
    j: int,
    win: bool,
)
    requires
        labels_unique(code),
        code.len() < word(),
        grows(code, w, ensure, win),
        0 <= j < code.len(),
        code[j] == AsmInst::Label(ensure),
        rolls(r, s, x),
        -far() <= n <= far(),
        sits(code, r.pc, ptr_add_insts(next, n, ensure)),
    ensures
        comes(
            code,
            w,
            r,
            r,
            x,
            s.moved(n),
            r.pc + ptr_add_insts(next, n, ensure).len(),
            None,
            win,
        ),
{
    reveal(after);
    let piece = ptr_add_insts(next, n, ensure);
    if n == 0 {
        lemma_here(code, w, r);
        assert(s.moved(0) == s);
        lemma_idles(r, r, s, x, None, win);
        lemma_arrives(code, w, r, r, x, r, x.base, s, r.pc, None, win);
    } else {
        let head = seq![AsmInst::MovRegReg(Reg64::R15, Reg64::R13)] + add_reg_insts(Reg64::R15, n);
        let tail = seq![
            AsmInst::CmpRegReg(Reg64::R15, Reg64::R12),
            AsmInst::Jb(internal(next, 0)),
            AsmInst::CmpRegReg(Reg64::R15, Reg64::R14),
            AsmInst::Jae(internal(next, 0)),
            AsmInst::MovRegReg(Reg64::R13, Reg64::R15),
            AsmInst::Jmp(internal(next, 1)),
            AsmInst::Label(internal(next, 0)),
            AsmInst::Call(ensure),
            AsmInst::Label(internal(next, 1)),
        ];
        assert(piece =~= head + tail);
        lemma_parts(code, r.pc, head, tail);
        let q = r.pc + head.len();
        assert forall|k: int| 0 <= k < 9 implies #[trigger] code[q + k] == tail[k] by {}
        assert(code[q + 0] == tail[0] && code[q + 1] == tail[1] && code[q + 2] == tail[2]);
        assert(code[q + 3] == tail[3] && code[q + 4] == tail[4] && code[q + 5] == tail[5]);
        assert(code[q + 6] == tail[6] && code[q + 7] == tail[7] && code[q + 8] == tail[8]);
        let to = x.base + s.ptr + n;
        let r1 = lemma_probe(code, w, r, s, x, n);
        lemma_reduce(to);
        let r2 = lemma_bound(code, w, r1, true, q + 6);
        lemma_then(code, w, r, r1, r2);
        let slow = to < tape(r).0 || tape(r).1 <= to;
        if to >= 0 && to < tape(r).0 {
            lemma_slow(code, w, r, r2, s, x, n, ensure, j, q + 6, win);
        } else {
            let r3 = lemma_bound(code, w, r2, false, q + 6);
            lemma_then(code, w, r, r2, r3);
            if slow {
                lemma_slow(code, w, r, r3, s, x, n, ensure, j, q + 6, win);
            } else {
                let m = AsmInst::MovRegReg(Reg64::R13, Reg64::R15);
                lemma_plain(code, w, r3, m);
                let r4 = after(r3, m);
                lemma_then(code, w, r, r3, r4);
                lemma_jump(code, w, r4, q + 8);
                let r5 = Run { pc: q + 8, ..r4 };
                lemma_then(code, w, r, r4, r5);
                assert(mirrors(r5.cpu.mem, s.moved(n), x.base, tape(r5).0, tape(r5).1)) by {
                    assert(s.moved(n).cells == s.cells);
                }
                assert(arrived(r, x, r5, x.base, s.moved(n), q + 8, None, win));
                lemma_arrives(code, w, r, r, x, r5, x.base, s.moved(n), q + 8, None, win);
            }
        }
        lemma_comes_pass(code, w, r, r, x, s.moved(n), q + 8, None, win);
    }
}

/// An address modulo the word.
proof fn lemma_reduce(to: int)
    requires
        -far() <= to <= far() + ceiling(),
    ensures
        to >= 0 ==> to % word() == to,
        to < 0 ==> to % word() == to + word(),
{
}

/// The slow path of a move: the growth routine is called.
proof fn lemma_slow(
    code: Seq<AsmInst>,
    w: World,
    r: Run,
    b: Run,
    s: St,
    x: Site,
    n: int,
    ensure: AsmLabel,
    j: int,
    at: int,
    win: bool,
)
    requires
        labels_unique(code),
        code.len() < word(),
        grows(code, w, ensure, win),
        0 <= j < code.len(),
        code[j] == AsmInst::Label(ensure),
        rolls(r, s, x),
        -far() <= n <= far(),
        reaches(code, w, r, b),
        idles(r, b),
        b.pc == at,
        0 <= at,
        at + 1 < code.len(),
        code[at] is Label,
        code[at + 1] == AsmInst::Call(ensure),
        b.cpu.regs[Reg64::R15] == (x.base + s.ptr + n) % word(),
        x.base + s.ptr + n < tape(r).0 || tape(r).1 <= x.base + s.ptr + n,
    ensures
        comes(code, w, r, r, x, s.moved(n), at + 2, None, win),
{
    let c = Run { pc: at + 1, ..b };
    lemma_pass(code, w, b);
    lemma_then(code, w, r, b, c);
    lemma_idles(r, c, s, x, None, win);
    lemma_grown(code, w, c, s, x, n, ensure, j, win);
    assert((Site { base: x.base, ..x }) == x);
    lemma_comes_from(
        code,
        w,
        r,
        r,
        x,
        c,
        x.base,
        s,
        at + 1,
        None,
        s.moved(n),
        at + 2,
        None,
        win,
    );
}

/// Moving the data pointer to a place that is on the tape.
pub proof fn lemma_move(
    code: Seq<AsmInst>,
    w: World,
    r: Run,
    s: St,
    x: Site,
    n: int,
    window: Option<(int, int)>,
    win: bool,
)
    requires
        sits(code, r.pc, add_reg_insts(Reg64::R13, n)),
        rolls(r, s, x),
        tape(r).0 <= r.cpu.regs[Reg64::R13] + n < tape(r).1,
        known(r, window),
    ensures
        comes(
            code,
            w,
            r,
            r,
            x,
            s.moved(n),
            r.pc + add_reg_insts(Reg64::R13, n).len(),
            (match window {
                Some((lo, hi)) => Some((lo - n, hi - n)),
                None => None,
            }),
            win,
        ),
{
    let b = lemma_add_reg(code, w, r, Reg64::R13, n);
    let t = s.moved(n);
    let shifted = match window {
        Some((lo, hi)) => Some((lo - n, hi - n)),
        None => None,
    };
    assert(t.cells == s.cells);
    assert(arrived(r, x, b, x.base, t, b.pc, shifted, win));
    lemma_arrives(code, w, r, r, x, b, x.base, t, b.pc, shifted, win);
}

/// A jump behind the place where a run comes to is made.
pub proof fn lemma_comes_jump(
    code: Seq<AsmInst>,
    w: World,
    from: Run,
    a: Run,
    x: Site,
    s: St,
    to: int,
    window: Option<(int, int)>,
    win: bool,
    l: AsmLabel,
    j: int,
)
    requires
        labels_unique(code),
        comes(code, w, from, a, x, s, to, window, win),
        0 <= to < code.len(),
        code[to] == AsmInst::Jmp(l),
        0 <= j < code.len(),
        code[j] == AsmInst::Label(l),
    ensures
        comes(code, w, from, a, x, s, j, window, win),
{
    let (b, base) = choose|b: Run, base: int| #[trigger]
        leads(code, w, from, a, x, s, to, window, win, b, base);
    if starved(b) {
        assert(leads(code, w, from, a, x, s, j, window, win, b, base));
    } else {
        let c = Run { pc: j, ..b };
        lemma_jump(code, w, b, j);
        lemma_then(code, w, from, b, c);
        assert(arrived(a, x, c, base, s, j, window, win));
        assert(leads(code, w, from, a, x, s, j, window, win, c, base));
    }
}

/// Growing towards an extent, and back to the checks.
proof fn lemma_regrow(
    code: Seq<AsmInst>,
    w: World,
    r: Run,
    s: St,
    x: Site,
    extent: int,
    slow: AsmLabel,
    retry: AsmLabel,
    ensure: AsmLabel,
    j: int,
    top: int,
    win: bool,
)
    requires
        labels_unique(code),
        code.len() < word(),
        grows(code, w, ensure, win),
        0 <= j < code.len(),
        code[j] == AsmInst::Label(ensure),
        rolls(r, s, x),
        extent != 0,
        -far() <= extent <= far(),
        sits(code, r.pc, regrow_insts(extent, slow, retry, ensure)),
        0 <= top < code.len(),
        code[top] == AsmInst::Label(retry),
        r.cpu.regs[Reg64::R15] == (x.base + s.ptr + extent) % word(),
        x.base + s.ptr + extent < tape(r).0 || tape(r).1 <= x.base + s.ptr + extent,
    ensures
        comes(code, w, r, r, x, s, top, Some((extent, extent)), win),
{
    let head = seq![AsmInst::Label(slow), AsmInst::Call(ensure)];
    let back = add_reg_insts(Reg64::R13, -extent);
    let last = seq![AsmInst::Jmp(retry)];
    let p = r.pc;
    assert(regrow_insts(extent, slow, retry, ensure) =~= head + (back + last));
    lemma_parts(code, p, head, back + last);
    lemma_parts(code, p + 2, back, last);
    assert(code[p + 0] == head[0] && code[p + 1] == head[1]);
    assert(code[p + 2 + back.len() + 0] == last[0]);
    lemma_here(code, w, r);
    lemma_slow(code, w, r, r, s, x, extent, ensure, j, p, win);
    let t = s.moved(extent);
    let (b, base) = choose|b: Run, base: int| #[trigger]
        leads(code, w, r, r, x, t, p + 2, None, win, b, base);
    let to = p + 2 + back.len();
    if starved(b) {
        assert(leads(code, w, r, r, x, s, to, Some((extent, extent)), win, b, base));
    } else {
        let y = Site { base, ..x };
        lemma_move(code, w, b, t, y, -extent, Some((0int, 0int)), win);
        assert(t.moved(-extent) == s);
        lemma_comes_from(
            code,
            w,
            r,
            r,
            x,
            b,
            base,
            t,
            p + 2,
            None,
            s,
            to,
            Some((extent, extent)),
            win,
        );
    }
    lemma_comes_jump(code, w, r, r, x, s, to, Some((extent, extent)), win, retry, top);
}

/// Where the parts of a checked move stand.
struct Checked {
    low: int,
    high: int,
    go: int,
    out: int,
    slow_low: int,
    slow_high: int,
    done: int,
}

/// The parts of a checked move.
spec fn checked_places(lo: int, hi: int, delta: int, next: int, ensure: AsmLabel, p: int) -> Checked {
    let low = p + 1;
    let high = low + probe_low_insts(lo, internal(next, 1)).len();
    let go = high + probe_high_insts(hi, internal(next, 2)).len();
    let out = go + add_reg_insts(Reg64::R13, delta).len();
    let slow_low = out + 1;
    let slow_high = slow_low + regrow_insts(lo, internal(next, 1), internal(next, 0), ensure).len();
    let done = slow_high + regrow_insts(hi, internal(next, 2), internal(next, 0), ensure).len();
    Checked { low, high, go, out, slow_low, slow_high, done }
}

/// The parts stand where they should.
proof fn lemma_checked_places(
    code: Seq<AsmInst>,
    p: int,
    next: int,
    delta: int,
    lo: int,
    hi: int,
    ensure: AsmLabel,
)
    requires
        lo != 0 || hi != 0,
        sits(code, p, ptr_add_checked_insts(next, delta, lo, hi, ensure)),
    ensures
        ({
            let c = checked_places(lo, hi, delta, next, ensure, p);
            &&& 0 <= p < code.len()
            &&& code[p] == AsmInst::Label(internal(next, 0))
            &&& sits(code, c.low, probe_low_insts(lo, internal(next, 1)))
            &&& sits(code, c.high, probe_high_insts(hi, internal(next, 2)))
            &&& sits(code, c.go, add_reg_insts(Reg64::R13, delta))
            &&& 0 <= c.out < code.len()
            &&& code[c.out] == AsmInst::Jmp(internal(next, 3))
            &&& sits(
                code,
                c.slow_low,
                regrow_insts(lo, internal(next, 1), internal(next, 0), ensure),
            )
            &&& sits(
                code,
                c.slow_high,
                regrow_insts(hi, internal(next, 2), internal(next, 0), ensure),
            )
            &&& 0 <= c.done < code.len()
            &&& code[c.done] == AsmInst::Label(internal(next, 3))
            &&& c.done + 1 == p + ptr_add_checked_insts(next, delta, lo, hi, ensure).len()
        }),
{
    let c = checked_places(lo, hi, delta, next, ensure, p);
    let a0 = seq![AsmInst::Label(internal(next, 0))];
    let a1 = probe_low_insts(lo, internal(next, 1));
    let a2 = probe_high_insts(hi, internal(next, 2));
    let a3 = add_reg_insts(Reg64::R13, delta);
    let a4 = seq![AsmInst::Jmp(internal(next, 3))];
    let a5 = regrow_insts(lo, internal(next, 1), internal(next, 0), ensure);
    let a6 = regrow_insts(hi, internal(next, 2), internal(next, 0), ensure);
    let a7 = seq![AsmInst::Label(internal(next, 3))];
    let t6 = a6 + a7;
    let t5 = a5 + t6;
    let t4 = a4 + t5;
    let t3 = a3 + t4;
    let t2 = a2 + t3;
    let t1 = a1 + t2;
    assert(ptr_add_checked_insts(next, delta, lo, hi, ensure) =~= a0 + t1);
    lemma_parts(code, p, a0, t1);
    lemma_parts(code, c.low, a1, t2);
    lemma_parts(code, c.high, a2, t3);
    lemma_parts(code, c.go, a3, t4);
    lemma_parts(code, c.out, a4, t5);
    lemma_parts(code, c.slow_low, a5, t6);
    lemma_parts(code, c.slow_high, a6, a7);
    assert(code[p + 0] == a0[0]);
    assert(code[c.out + 0] == a4[0]);
    assert(code[c.done + 0] == a7[0]);
}

/// The check of one side: it goes on, or to the growth of that side.
proof fn lemma_side(
    code: Seq<AsmInst>,
    w: World,
    r: Run,
    s: St,
    x: Site,
    low: bool,
    extent: int,
    slow: AsmLabel,
    at: int,
) -> (b: Run)
    requires
        labels_unique(code),
        rolls(r, s, x),
        -floor() <= extent <= floor(),
        if low {
            extent <= 0 && sits(code, r.pc, probe_low_insts(extent, slow))
        } else {
            extent >= 0 && sits(code, r.pc, probe_high_insts(extent, slow))
        },
        extent != 0 ==> 0 <= at < code.len() && code[at] == AsmInst::Label(slow),
    ensures
        reaches(code, w, r, b),
        idles(r, b),
        ({
            let to = x.base + s.ptr + extent;
            let n = if low {
                probe_low_insts(extent, slow).len()
            } else {
                probe_high_insts(extent, slow).len()
            };
            if tape(r).0 <= to < tape(r).1 {
                b.pc == r.pc + n
            } else {
                extent != 0 && b.pc == at && b.cpu.regs[Reg64::R15] == to % word()
            }
        }),
{
    if extent == 0 {
        lemma_here(code, w, r);
        r
    } else {
        let head = seq![AsmInst::MovRegReg(Reg64::R15, Reg64::R13)] + add_reg_insts(
            Reg64::R15,
            extent,
        );
        let tail = if low {
            seq![AsmInst::CmpRegReg(Reg64::R15, Reg64::R12), AsmInst::Jb(slow)]
        } else {
            seq![AsmInst::CmpRegReg(Reg64::R15, Reg64::R14), AsmInst::Jae(slow)]
        };
        if low {
            assert(probe_low_insts(extent, slow) =~= head + tail);
        } else {
            assert(probe_high_insts(extent, slow) =~= head + tail);
        }
        lemma_parts(code, r.pc, head, tail);
        let q = r.pc + head.len();
        assert(code[q + 0] == tail[0] && code[q + 1] == tail[1]);
        let m = lemma_probe(code, w, r, s, x, extent);
        lemma_reduce(x.base + s.ptr + extent);
        let b = lemma_bound(code, w, m, low, at);
        lemma_then(code, w, r, m, b);
        b
    }
}

/// How many ends of a stretch are off the tape.
pub open spec fn missing(r: Run, lo: int, hi: int) -> nat {
    let at = r.cpu.regs[Reg64::R13];
    ((if tape(r).0 <= at + lo {
        0nat
    } else {
        1nat
    }) + (if at + hi < tape(r).1 {
        0nat
    } else {
        1nat
    })) as nat
}

/// A move within a stretch of cells that is made to exist first.
pub proof fn lemma_ptr_add_checked(
    code: Seq<AsmInst>,
    w: World,
    r: Run,
    s: St,
    x: Site,
    next: int,
    delta: int,
    lo: int,
    hi: int,
    ensure: AsmLabel,
    j: int,
    window: Option<(int, int)>,
    win: bool,
)
    requires
        labels_unique(code),
        code.len() < word(),
        grows(code, w, ensure, win),
        0 <= j < code.len(),
        code[j] == AsmInst::Label(ensure),
        rolls(r, s, x),
        known(r, window),
        -floor() <= lo <= 0,
        0 <= hi <= floor(),
        lo <= delta <= hi,
        sits(code, r.pc, ptr_add_checked_insts(next, delta, lo, hi, ensure)),
    ensures
        comes(
            code,
            w,
            r,
            r,
            x,
            s.moved(delta),
            r.pc + ptr_add_checked_insts(next, delta, lo, hi, ensure).len(),
            checked_window(window, delta, lo, hi),
            win,
        ),
    decreases missing(r, lo, hi), 1int,
{
    let p = r.pc;
    let goal = checked_window(window, delta, lo, hi);
    if lo == 0 && hi == 0 {
        lemma_here(code, w, r);
        assert(s.moved(0) == s);
        lemma_idles(r, r, s, x, goal, win);
        lemma_arrives(code, w, r, r, x, r, x.base, s, p, goal, win);
    } else {
        lemma_checked_places(code, p, next, delta, lo, hi, ensure);
        let c = checked_places(lo, hi, delta, next, ensure, p);
        let r1 = Run { pc: c.low, ..r };
        lemma_pass(code, w, r);
        lemma_idles(r, r1, s, x, window, win);
        if lo != 0 {
            let l = regrow_insts(lo, internal(next, 1), internal(next, 0), ensure);
            assert(code[c.slow_low + 0] == l[0]);
        }
        if hi != 0 {
            let l = regrow_insts(hi, internal(next, 2), internal(next, 0), ensure);
            assert(code[c.slow_high + 0] == l[0]);
        }
        let r2 = lemma_side(code, w, r1, s, x, true, lo, internal(next, 1), c.slow_low);
        lemma_then(code, w, r, r1, r2);
        lemma_idles(r1, r2, s, x, window, win);
        lemma_keeps(r, r1, r2, x, win);
        let at = r.cpu.regs[Reg64::R13];
        if at + lo < tape(r).0 {
            lemma_regrow(
                code,
                w,
                r2,
                s,
                x,
                lo,
                internal(next, 1),
                internal(next, 0),
                ensure,
                j,
                p,
                win,
            );
            lemma_again(code, w, r, r2, s, x, next, delta, lo, hi, lo, ensure, j, window, win);
        } else {
            let r3 = lemma_side(code, w, r2, s, x, false, hi, internal(next, 2), c.slow_high);
            lemma_then(code, w, r, r2, r3);
            lemma_idles(r2, r3, s, x, window, win);
            lemma_keeps(r, r2, r3, x, win);
            if tape(r).1 <= at + hi {
                lemma_regrow(
                    code,
                    w,
                    r3,
                    s,
                    x,
                    hi,
                    internal(next, 2),
                    internal(next, 0),
                    ensure,
                    j,
                    p,
                    win,
                );
                lemma_again(code, w, r, r3, s, x, next, delta, lo, hi, hi, ensure, j, window, win);
            } else {
                let both = checked_window(window, 0, lo, hi);
                assert(known(r3, both));
                lemma_move(code, w, r3, s, x, delta, both, win);
                assert((Site { base: x.base, ..x }) == x);
                assert(arrived(r, x, r3, x.base, s, c.go, window, win));
                lemma_comes_from(
                    code,
                    w,
                    r,
                    r,
                    x,
                    r3,
                    x.base,
                    s,
                    c.go,
                    window,
                    s.moved(delta),
                    c.out,
                    goal,
                    win,
                );
                lemma_comes_jump(
                    code,
                    w,
                    r,
                    r,
                    x,
                    s.moved(delta),
                    c.out,
                    goal,
                    win,
                    internal(next, 3),
                    c.done,
                );
                lemma_comes_pass(code, w, r, r, x, s.moved(delta), c.done, goal, win);
            }
        }
    }
}

/// The checks run again behind growth.
proof fn lemma_again(
    code: Seq<AsmInst>,
    w: World,
    r: Run,
    m: Run,
    s: St,
    x: Site,
    next: int,
    delta: int,
    lo: int,
    hi: int,
    extent: int,
    ensure: AsmLabel,
    j: int,
    window: Option<(int, int)>,
    win: bool,
)
    requires
        labels_unique(code),
        code.len() < word(),
        grows(code, w, ensure, win),
        0 <= j < code.len(),
        code[j] == AsmInst::Label(ensure),
        rolls(r, s, x),
        known(r, window),
        -floor() <= lo <= 0,
        0 <= hi <= floor(),
        lo <= delta <= hi,
        sits(code, r.pc, ptr_add_checked_insts(next, delta, lo, hi, ensure)),
        reaches(code, w, r, m),
        idles(r, m),
        extent == lo && r.cpu.regs[Reg64::R13] + lo < tape(r).0 || extent == hi && tape(r).1
            <= r.cpu.regs[Reg64::R13] + hi,
        comes(code, w, m, m, x, s, r.pc, Some((extent, extent)), win),
    ensures
        comes(
            code,
            w,
            r,
            r,
            x,
            s.moved(delta),
            r.pc + ptr_add_checked_insts(next, delta, lo, hi, ensure).len(),
            checked_window(window, delta, lo, hi),
            win,
        ),
    decreases missing(r, lo, hi), 0int,
{
    let here = Some((extent, extent));
    let (b, base) = choose|b: Run, base: int| #[trigger]
        leads(code, w, m, m, x, s, r.pc, here, win, b, base);
    lemma_then(code, w, r, m, b);
    let to = r.pc + ptr_add_checked_insts(next, delta, lo, hi, ensure).len();
    let goal = checked_window(window, delta, lo, hi);
    if starved(b) {
        assert(leads(code, w, r, r, x, s.moved(delta), to, goal, win, b, base));
    } else {
        let y = Site { base, ..x };
        lemma_idles(r, m, s, x, window, win);
        lemma_keeps(r, m, b, x, win);
        assert(arrived(r, x, b, base, s, r.pc, here, win));
        assert(known(b, window));
        assert(missing(b, lo, hi) < missing(r, lo, hi));
        lemma_ptr_add_checked(code, w, b, s, y, next, delta, lo, hi, ensure, j, window, win);
        lemma_comes_from(
            code,
            w,
            r,
            r,
            x,
            b,
            base,
            s,
            r.pc,
            here,
            s.moved(delta),
            to,
            goal,
            win,
        );
    }
}

} // verus!
