//! Lowering to bytecode keeps the meaning of a program.

use vstd::prelude::*;

use crate::interp::bytecode::Op;
use crate::interp::lower::{
    appended, ascending, block_in_order, block_ops, block_state, blockable, blocked,
    blocks_in_order, bytecode, displacement, flushed, fused, law_net_writes_ascend,
    lemma_block_grows, lemma_block_has_no_blocks, lemma_block_paired, lemma_blocked_in_order,
    lemma_flush_grows, lemma_fused, lemma_sweep_keeps_order, lemma_sweep_shrinks, lookup,
    net_writes, offset_form, paired, plain_form, put, reduced, self_contained, self_standing, sign,
    signed_byte, specialized, starts, swept, window_ops, with_add, without, write_op, write_ops,
    Linear, Pending,
};
use crate::interp::machine::{
    effect, loaded, run, run_one, scanned, step, steps, turn, Config, Frame, Go, Source, St,
};
use crate::ir::hir::Hir;

verus! {

/// Every place has a cell that holds a byte.
pub open spec fn solid(s: St) -> bool {
    forall|i: int| #[trigger] s.cells.dom().contains(i) && 0 <= s.cells[i] < 256
}

/// What straight-line operations do, one after the other.
pub open spec fn effects(ops: Seq<Op>, s: St) -> St
    decreases ops.len(),
{
    if ops.len() == 0 {
        s
    } else {
        effect(ops.last(), effects(ops.drop_last(), s))
    }
}

/// What an operation of a window does.
pub open spec fn lin(op: Linear, s: St) -> St {
    match op {
        Linear::Move(d) => s.moved(d),
        Linear::Add(k) => s.add_at(0, k),
        Linear::Zero => s.set_at(0, 0),
    }
}

/// What a window does.
pub open spec fn lins(raw: Seq<Linear>, s: St) -> St
    decreases raw.len(),
{
    if raw.len() == 0 {
        s
    } else {
        lin(raw.last(), lins(raw.drop_last(), s))
    }
}

/// Whether the displacements of a window never reach the ends of the range in
/// which they are kept.
pub open spec fn exact(raw: Seq<Linear>) -> bool
    decreases raw.len(),
{
    raw.len() == 0 || (exact(raw.drop_last()) && (raw.last() matches Linear::Move(d) ==> isize::MIN
        <= displacement(raw.drop_last()) + d <= isize::MAX))
}

/// A cell after a write of a window.
pub open spec fn written(w: Option<Pending>, c: int) -> int {
    match w {
        None => c,
        Some(Pending::Add(k)) => (c + k) % 256,
        Some(Pending::Store(v)) => v,
    }
}

proof fn lemma_fused_effect(ops: Seq<Op>, s: St)
    ensures
        effects(fused(ops), s) == effects(ops, s),
{
    if ops.len() >= 2 {
        let front = ops.take(ops.len() - 2);
        let a = ops[ops.len() - 2];
        let b = ops[ops.len() - 1];
        assert(ops.drop_last().drop_last() =~= front);
        assert(ops.drop_last().last() == a);
        assert(effects(ops.drop_last(), s) == effect(a, effects(front, s)));
        assert(effects(ops, s) == effect(b, effect(a, effects(front, s))));
        if fused(ops) != ops {
            let f = fused(ops).last();
            assert(fused(ops) =~= front.push(f));
            assert(front.push(f).drop_last() =~= front);
        }
    }
}

proof fn lemma_appended_effect(ops: Seq<Op>, more: Seq<Op>, s: St)
    ensures
        effects(appended(ops, more), s) == effects(more, effects(ops, s)),
    decreases more.len(),
{
    if more.len() > 0 {
        lemma_appended_effect(ops, more.drop_last(), s);
        let front = appended(ops, more.drop_last());
        lemma_fused_effect(front.push(more.last()), s);
        assert(front.push(more.last()).drop_last() =~= front);
    }
}

/// Operations put behind one that is not fused stand on their own.
proof fn lemma_appended_splits(ops: Seq<Op>, more: Seq<Op>)
    requires
        ops.len() == 0 || self_standing(ops.last()),
    ensures
        appended(ops, more) == ops + appended(Seq::empty(), more),
    decreases more.len(),
{
    if more.len() > 0 {
        lemma_appended_splits(ops, more.drop_last());
        let a = appended(Seq::<Op>::empty(), more.drop_last());
        let m = more.last();
        let whole = (ops + a).push(m);
        assert(whole =~= ops + a.push(m));
        if a.len() > 0 {
            assert(whole[whole.len() - 2] == a.last());
            assert(a.push(m)[a.push(m).len() - 2] == a.last());
            assert(whole.take(whole.len() - 2) =~= ops + a.push(m).take(a.push(m).len() - 2));
            assert(fused(whole) =~= ops + fused(a.push(m)));
        } else {
            assert(a.push(m) =~= seq![m]);
            if ops.len() > 0 {
                assert(whole[whole.len() - 2] == ops.last());
            }
            assert(fused(whole) == whole);
            assert(fused(a.push(m)) == a.push(m));
        }
    } else {
        assert(ops + Seq::<Op>::empty() =~= ops);
    }
}

proof fn lemma_plain_effect(raw: Seq<Linear>, s: St)
    ensures
        effects(plain_form(raw), s) == lins(raw, s),
    decreases raw.len(),
{
    if raw.len() > 0 {
        lemma_plain_effect(raw.drop_last(), s);
        let front = plain_form(raw.drop_last());
        match raw.last() {
            Linear::Move(d) => {
                lemma_fused_effect(front.push(Op::Move(d)), s);
                assert(front.push(Op::Move(d)).drop_last() =~= front);
            },
            Linear::Add(k) => {
                lemma_fused_effect(front.push(Op::Add(k)), s);
                assert(front.push(Op::Add(k)).drop_last() =~= front);
            },
            Linear::Zero => {
                assert(front.push(Op::Zero).drop_last() =~= front);
            },
        }
    }
}

/// What the list of writes says of an offset after a change.
proof fn lemma_lookup(writes: Seq<(int, Pending)>, off: int, w: Pending, x: int)
    requires
        ascending(writes),
    ensures
        lookup(put(writes, off, w), x) == if x == off {
            Some(w)
        } else {
            lookup(writes, x)
        },
        lookup(without(writes, off), x) == if x == off {
            None
        } else {
            lookup(writes, x)
        },
    decreases writes.len(),
{
    if writes.len() > 0 {
        let front = writes.drop_last();
        lemma_lookup(front, off, w, x);
        let last = writes.last();
        let p = put(front, off, w).push(last);
        assert(p.drop_last() =~= put(front, off, w));
        let q = without(front, off).push(last);
        assert(q.drop_last() =~= without(front, off));
        assert(writes.push((off, w)).drop_last() =~= writes);
        assert(front.push((off, w)).drop_last() =~= front);
    } else {
        assert(writes.push((off, w)).drop_last() =~= writes);
    }
}

/// Sums modulo 256 may be reduced on the way.
proof fn lemma_mod_sum(c: int, a: int, b: int)
    ensures
        (c + a % 256) % 256 == (c + a) % 256,
        ((c + a) % 256 + b) % 256 == (c + (a + b) % 256) % 256,
        0 <= c < 256 && (a + b) % 256 == 0 ==> ((c + a) % 256 + b) % 256 == c,
{
    vstd::arithmetic::div_mod::lemma_add_mod_noop(c, a, 256);
    vstd::arithmetic::div_mod::lemma_add_mod_noop_right(c, a, 256);
    vstd::arithmetic::div_mod::lemma_add_mod_noop_right(b, c + a, 256);
    vstd::arithmetic::div_mod::lemma_add_mod_noop_right(c, a + b, 256);
    assert(b + (c + a) == c + (a + b));
}

/// What an add does to what the list of writes says of a cell.
proof fn lemma_written_add(writes: Seq<(int, Pending)>, at: int, k: int, x: int, c: int)
    requires
        ascending(writes),
        0 <= c < 256,
        0 <= written(lookup(writes, x), c) < 256,
    ensures
        written(lookup(with_add(writes, at, k), x), c) == if x == at {
            (written(lookup(writes, x), c) + k) % 256
        } else {
            written(lookup(writes, x), c)
        },
{
    match lookup(writes, at) {
        None => {
            lemma_lookup(writes, at, Pending::Add(k % 256), x);
            lemma_mod_sum(c, k, 0);
        },
        Some(Pending::Add(prev)) => {
            lemma_lookup(writes, at, Pending::Add((prev + k) % 256), x);
            lemma_mod_sum(c, prev, k);
        },
        Some(Pending::Store(v)) => {
            lemma_lookup(writes, at, Pending::Store((v + k) % 256), x);
        },
    }
}

/// Where a window leaves the pointer and the cells.
proof fn lemma_window_meaning(raw: Seq<Linear>, s: St)
    requires
        exact(raw),
        solid(s),
    ensures
        solid(lins(raw, s)),
        lins(raw, s).ptr == s.ptr + displacement(raw),
        lins(raw, s).trace == s.trace,
        lins(raw, s).reads == s.reads,
        forall|p: int| #[trigger]
            lins(raw, s).cells[p] == written(lookup(net_writes(raw), p - s.ptr), s.cells[p]),
    decreases raw.len(),
{
    if raw.len() > 0 {
        let front = raw.drop_last();
        lemma_window_meaning(front, s);
        law_net_writes_ascend(front);
        let before = net_writes(front);
        let at = displacement(front);
        let t = lins(front, s);
        let u = lins(raw, s);
        match raw.last() {
            Linear::Move(_) => {},
            Linear::Add(k) => {
                lemma_solid_set(t, 0, (t.cells[t.ptr] + k) % 256);
                assert forall|p: int| #[trigger]
                    u.cells[p] == written(lookup(net_writes(raw), p - s.ptr), s.cells[p]) by {
                    assert(s.cells.dom().contains(p));
                    assert(t.cells.dom().contains(p));
                    lemma_written_add(before, at, k, p - s.ptr, s.cells[p]);
                }
            },
            Linear::Zero => {
                lemma_solid_set(t, 0, 0);
                assert forall|p: int| #[trigger]
                    u.cells[p] == written(lookup(net_writes(raw), p - s.ptr), s.cells[p]) by {
                    assert(t.cells.dom().contains(p));
                    lemma_lookup(before, at, Pending::Store(0), p - s.ptr);
                }
            },
        }
    }
}

/// Where a list of writes leaves the pointer and the cells.
proof fn lemma_writes_meaning(writes: Seq<(int, Pending)>, s: St)
    requires
        ascending(writes),
        solid(s),
    ensures
        effects(write_ops(writes), s).ptr == s.ptr,
        effects(write_ops(writes), s).trace == s.trace,
        effects(write_ops(writes), s).reads == s.reads,
        forall|p: int| #[trigger] effects(write_ops(writes), s).cells.dom().contains(p),
        forall|p: int| #[trigger]
            effects(write_ops(writes), s).cells[p] == written(
                lookup(writes, p - s.ptr),
                s.cells[p],
            ),
    decreases writes.len(),
{
    if writes.len() > 0 {
        let front = writes.drop_last();
        let (off, w) = writes.last();
        assert(write_ops(writes).drop_last() =~= write_ops(front));
        assert(write_ops(writes).last() == write_op(off, w));
        assert(ascending(front)) by {
            assert forall|i: int, j: int| 0 <= i < j < front.len() implies (
            #[trigger] front[i]).0 < (#[trigger] front[j]).0 by {
                assert(writes[i].0 < writes[j].0);
            }
        }
        lemma_writes_meaning(front, s);
        let t = effects(write_ops(front), s);
        lemma_lookup_absent(front, off);
        let u = effects(write_ops(writes), s);
        assert(t.cells[s.ptr + off] == s.cells[s.ptr + off]);
        assert forall|p: int| #[trigger]
            u.cells[p] == written(lookup(writes, p - s.ptr), s.cells[p]) by {
            assert(t.cells[p] == written(lookup(front, p - s.ptr), s.cells[p]));
        }
        assert forall|p: int| #[trigger] u.cells.dom().contains(p) by {
            assert(t.cells.dom().contains(p));
        }
    } else {
        assert(write_ops(writes) =~= Seq::<Op>::empty());
    }
}

/// An offset above all others of a list is not in it.
proof fn lemma_lookup_absent(writes: Seq<(int, Pending)>, off: int)
    requires
        forall|i: int| 0 <= i < writes.len() ==> (#[trigger] writes[i]).0 < off,
    ensures
        lookup(writes, off) is None,
    decreases writes.len(),
{
    if writes.len() > 0 {
        assert(writes[writes.len() - 1].0 < off);
        assert forall|i: int| 0 <= i < writes.drop_last().len() implies (
        #[trigger] writes.drop_last()[i]).0 < off by {
            assert(writes[i].0 < off);
        }
        lemma_lookup_absent(writes.drop_last(), off);
    }
}

proof fn lemma_offset_effect(raw: Seq<Linear>, s: St)
    requires
        exact(raw),
        solid(s),
    ensures
        effects(offset_form(raw), s) == lins(raw, s),
{
    lemma_window_meaning(raw, s);
    law_net_writes_ascend(raw);
    let writes = net_writes(raw);
    lemma_writes_meaning(writes, s);
    let t = effects(write_ops(writes), s);
    let u = lins(raw, s);
    assert forall|p: int| #[trigger] t.cells[p] == u.cells[p] by {
        assert(u.cells[p] == written(lookup(writes, p - s.ptr), s.cells[p]));
    }
    assert(t.cells =~= u.cells) by {
        assert forall|p: int| t.cells.dom().contains(p) <==> u.cells.dom().contains(p) by {
            assert(t.cells.dom().contains(p));
            assert(u.cells.dom().contains(p));
        }
    }
    let end = displacement(raw);
    if end != 0 {
        assert(write_ops(writes).push(Op::Move(end)).drop_last() =~= write_ops(writes));
    }
    assert(effects(offset_form(raw), s) =~= u);
}

/// A window means the same in the form that is taken. Writes at offsets with
/// one closing move do what its moves, adds and clears do in turn.
pub proof fn law_window_keeps_meaning(raw: Seq<Linear>, s: St)
    requires
        exact(raw),
        solid(s),
    ensures
        effects(window_ops(raw), s) == lins(raw, s),
        effects(appended(Seq::empty(), window_ops(raw)), s) == lins(raw, s),
{
    lemma_plain_effect(raw, s);
    lemma_offset_effect(raw, s);
    lemma_appended_effect(Seq::empty(), window_ops(raw), s);
}

/// Whether an operation only acts on the tape.
pub open spec fn straight(op: Op) -> bool {
    !(op is PutByte || op is GetByte || op is Scan || op is LoopBlock || op is LoopStart
        || op is LoopEnd)
}

/// Whether all operations only act on the tape.
pub open spec fn all_straight(ops: Seq<Op>) -> bool {
    forall|i: int| 0 <= i < ops.len() ==> straight(#[trigger] ops[i])
}

proof fn lemma_plain_straight(raw: Seq<Linear>)
    ensures
        all_straight(plain_form(raw)),
    decreases raw.len(),
{
    if raw.len() > 0 {
        lemma_plain_straight(raw.drop_last());
        let front = plain_form(raw.drop_last());
        match raw.last() {
            Linear::Move(d) => {
                lemma_fused(front.push(Op::Move(d)));
            },
            Linear::Add(k) => {
                lemma_fused(front.push(Op::Add(k)));
            },
            Linear::Zero => {},
        }
    }
}

proof fn lemma_append_straight(more: Seq<Op>)
    requires
        all_straight(more),
    ensures
        all_straight(appended(Seq::empty(), more)),
    decreases more.len(),
{
    if more.len() > 0 {
        assert forall|i: int| 0 <= i < more.drop_last().len() implies straight(
            #[trigger] more.drop_last()[i],
        ) by {
            assert(straight(more[i]));
        }
        lemma_append_straight(more.drop_last());
        assert(straight(more[more.len() - 1]));
        lemma_fused(appended(Seq::<Op>::empty(), more.drop_last()).push(more.last()));
    }
}

/// A machine in the program itself.
pub open spec fn cfg(ops: Seq<Op>, pc: int, s: St) -> Config {
    Config { frames: seq![Frame { ops, pc }], st: s }
}

/// Steps in a row.
pub proof fn lemma_steps_add(c: Config, source: Source, a: nat, b: nat)
    ensures
        steps(c, source, a + b) == steps(steps(c, source, a), source, b),
    decreases a,
{
    if a > 0 {
        lemma_steps_add(step(c, source(c.st.reads)), source, (a - 1) as nat, b);
        assert((a + b - 1) as nat == (a - 1) as nat + b);
    }
}

/// One step of a machine in the program itself.
proof fn lemma_one(ops: Seq<Op>, pc: int, s: St, source: Source)
    requires
        0 <= pc < ops.len(),
    ensures
        ({
            let (go, t) = turn(ops[pc], s, source(s.reads), true);
            match go {
                Go::Next => steps(cfg(ops, pc, s), source, 1) == cfg(ops, pc + 1, t),
                Go::Stay => steps(cfg(ops, pc, s), source, 1) == cfg(ops, pc, t),
                Go::Jump(to) => steps(cfg(ops, pc, s), source, 1) == cfg(ops, to, t),
                Go::Enter(_) => true,
            }
        }),
{
    let c = cfg(ops, pc, s);
    let byte = source(s.reads);
    assert(steps(step(c, byte), source, 0) == step(c, byte));
    assert(c.top() == Frame { ops, pc });
    let (go, t) = turn(ops[pc], s, byte, true);
    match go {
        Go::Next => {
            assert(step(c, byte).frames =~= cfg(ops, pc + 1, t).frames);
        },
        Go::Stay => {
            assert(step(c, byte).frames =~= cfg(ops, pc, t).frames);
        },
        Go::Jump(to) => {
            assert(step(c, byte).frames =~= cfg(ops, to, t).frames);
        },
        Go::Enter(_) => {},
    }
}

/// Straight-line operations are done one after the other.
proof fn lemma_run_straight(ops: Seq<Op>, from: int, to: int, s: St, source: Source)
    requires
        0 <= from <= to <= ops.len(),
        all_straight(ops.subrange(from, to)),
    ensures
        steps(cfg(ops, from, s), source, (to - from) as nat) == cfg(
            ops,
            to,
            effects(ops.subrange(from, to), s),
        ),
    decreases to - from,
{
    let part = ops.subrange(from, to);
    if from < to {
        let front = ops.subrange(from, to - 1);
        assert(part.drop_last() =~= front);
        assert forall|i: int| 0 <= i < front.len() implies straight(#[trigger] front[i]) by {
            assert(straight(part[i]));
        }
        lemma_run_straight(ops, from, to - 1, s, source);
        let t = effects(front, s);
        assert(straight(part[part.len() - 1]));
        assert(part.last() == ops[to - 1]);
        lemma_one(ops, to - 1, t, source);
        lemma_steps_add(cfg(ops, from, s), source, (to - 1 - from) as nat, 1);
    }
}

/// A window is run where it has been put.
proof fn lemma_run_window(
    full: Seq<Op>,
    done: Seq<Op>,
    raw: Seq<Linear>,
    u: St,
    source: Source,
) -> (n: nat)
    requires
        done.len() == 0 || self_standing(done.last()),
        exact(raw),
        solid(u),
        flushed(done, raw).len() <= full.len(),
        forall|i: int|
            done.len() <= i < flushed(done, raw).len() ==> #[trigger] full[i] == flushed(
                done,
                raw,
            )[i],
    ensures
        flushed(done, raw).len() >= done.len(),
        solid(lins(raw, u)),
        steps(cfg(full, done.len() as int, u), source, n) == cfg(
            full,
            flushed(done, raw).len() as int,
            lins(raw, u),
        ),
{
    let w = appended(Seq::empty(), window_ops(raw));
    lemma_appended_splits(done, window_ops(raw));
    law_window_keeps_meaning(raw, u);
    lemma_window_meaning(raw, u);
    lemma_plain_straight(raw);
    assert(all_straight(window_ops(raw)));
    lemma_append_straight(window_ops(raw));
    let to = flushed(done, raw).len() as int;
    assert(full.subrange(done.len() as int, to) =~= w);
    lemma_run_straight(full, done.len() as int, to, u, source);
    w.len()
}

/// Whether no window of a program reaches the ends of the range in which
/// displacements are kept.
pub open spec fn exact_moves(insts: Seq<Hir>) -> bool
    decreases insts,
{
    insts.len() == 0 || (exact_moves(insts.drop_last()) && exact(
        block_state(insts, Seq::empty()).1,
    ) && (insts.last() matches Hir::Loop(body) ==> exact_moves(body)))
}

/// The open window of a block does not depend on what stands before it.
proof fn lemma_window_same(insts: Seq<Hir>, ops: Seq<Op>)
    ensures
        block_state(insts, ops).1 == block_state(insts, Seq::empty()).1,
    decreases insts.len(),
{
    if insts.len() > 0 {
        lemma_window_same(insts.drop_last(), ops);
    }
}

/// Reducing factors keeps what they add.
proof fn lemma_spread_reduced(s: St, factors: Seq<(int, int)>, v: int, n: int)
    requires
        solid(s),
        0 <= n <= factors.len(),
    ensures
        s.spread(reduced(factors), v, n) == s.spread(factors, v, n),
        solid(s.spread(factors, v, n)),
        s.spread(factors, v, n).ptr == s.ptr,
    decreases n,
{
    if n > 0 {
        lemma_spread_reduced(s, factors, v, n - 1);
        let t = s.spread(factors, v, n - 1);
        let (off, f) = factors[n - 1];
        let g = signed_byte(f);
        let c = t.cells[t.ptr + off];
        assert(reduced(factors)[n - 1] == (off, g));
        lemma_product_reduced(c, v, f);
        lemma_solid_set(t, off, (c + v * f) % 256);
    }
}

proof fn lemma_product_reduced(c: int, v: int, f: int)
    ensures
        (c + v * signed_byte(f)) % 256 == (c + v * f) % 256,
{
    let g = signed_byte(f);
    let q = f / 256;
    let r = f % 256;
    assert(f == 256 * q + r);
    if r <= 127 {
        assert(v * f == v * g + 256 * (v * q)) by (nonlinear_arith)
            requires
                f == 256 * q + r,
                g == r,
        ;
        assert((c + v * g + 256 * (v * q)) % 256 == (c + v * g) % 256) by (nonlinear_arith);
    } else {
        assert(v * f == v * g + 256 * (v * (q + 1))) by (nonlinear_arith)
            requires
                f == 256 * q + r,
                g == r - 256,
        ;
        assert((c + v * g + 256 * (v * (q + 1))) % 256 == (c + v * g) % 256) by (nonlinear_arith);
    }
}

/// A state with a cell set to a byte is still solid.
pub proof fn lemma_solid_set(s: St, off: int, v: int)
    requires
        solid(s),
        0 <= v < 256,
    ensures
        solid(s.set_at(off, v)),
{
    let t = s.set_at(off, v);
    assert forall|i: int| #[trigger] t.cells.dom().contains(i) && 0 <= t.cells[i] < 256 by {
        assert(s.cells.dom().contains(i));
    }
}

proof fn lemma_solid_cleared(s: St, sets: Seq<int>, n: int)
    requires
        solid(s),
    ensures
        solid(s.cleared(sets, n)),
    decreases n,
{
    if n > 0 {
        lemma_solid_cleared(s, sets, n - 1);
        lemma_solid_set(s.cleared(sets, n - 1), sets[n - 1], 0);
    }
}

/// Searching is done one cell a step.
proof fn lemma_scan(full: Seq<Op>, pc: int, s: St, dir: int, source: Source, fuel: nat) -> (n: nat)
    requires
        0 <= pc < full.len(),
        full[pc] == Op::Scan(sign(dir)),
        solid(s),
    ensures
        match scanned(s, dir, fuel) {
            Some(t) => steps(cfg(full, pc, s), source, n) == cfg(full, pc + 1, t) && solid(t),
            None => n >= fuel && !steps(cfg(full, pc, s), source, n).halted(),
        },
    decreases fuel,
{
    lemma_one(full, pc, s, source);
    if s.cell() == 0 {
        1
    } else if fuel == 0 {
        0
    } else {
        let t = s.moved(sign(dir));
        let n = lemma_scan(full, pc, t, dir, source, (fuel - 1) as nat);
        lemma_steps_add(cfg(full, pc, s), source, 1, n);
        1 + n
    }
}

/// Whether every byte of a source is one.
pub open spec fn gives_bytes(source: Source) -> bool {
    forall|n: nat| 0 <= #[trigger] source(n) < 256
}

/// A loop is run where it has been put. It goes on the same way from its
/// first operation and from its last.
proof fn lemma_loop(
    body: Seq<Hir>,
    start: Seq<Op>,
    full: Seq<Op>,
    pc: int,
    s: St,
    source: Source,
    fuel: nat,
) -> (n: nat)
    requires
        exact_moves(body),
        gives_bytes(source),
        solid(s),
        ({
            let opened = start.push(Op::LoopStart(0));
            let inner = block_ops(body, opened);
            &&& inner.len() < full.len()
            &&& full[start.len() as int] == Op::LoopStart(inner.len() as int)
            &&& full[inner.len() as int] == Op::LoopEnd(start.len() as int)
            &&& forall|i: int|
                opened.len() <= i < inner.len() ==> #[trigger] full[i] == inner[i]
            &&& pc == start.len() || pc == inner.len()
        }),
    ensures
        match run_one(Hir::Loop(body), s, source, fuel) {
            Some(t) => steps(cfg(full, pc, s), source, n) == cfg(
                full,
                block_ops(body, start.push(Op::LoopStart(0))).len() as int + 1,
                t,
            ) && solid(t),
            None => n >= fuel && !steps(cfg(full, pc, s), source, n).halted(),
        },
    decreases fuel, body, 0int,
{
    let opened = start.push(Op::LoopStart(0));
    let inner = block_ops(body, opened);
    lemma_block_grows(body, opened);
    lemma_one(full, pc, s, source);
    if s.cell() == 0 {
        1
    } else if fuel == 0 {
        0
    } else {
        let less = (fuel - 1) as nat;
        let (done, raw) = block_state(body, opened);
        lemma_flush_grows(done, raw);
        assert forall|i: int| opened.len() <= i < done.len() implies #[trigger] full[i]
            == done[i] by {
            assert(inner[i] == done[i]);
        }
        let (n1, u) = lemma_block(body, opened, full, s, source, less);
        let here = cfg(full, pc, s);
        lemma_steps_add(here, source, 1, n1);
        match run(body, s, source, less) {
            None => 1 + n1,
            Some(t) => {
                lemma_window_same(body, opened);
                lemma_exact_window(body);
                let n2 = lemma_run_window(full, done, raw, u, source);
                lemma_steps_add(here, source, 1 + n1, n2);
                let n3 = lemma_loop(body, start, full, inner.len() as int, t, source, less);
                lemma_steps_add(here, source, 1 + n1 + n2, n3);
                1 + n1 + n2 + n3
            },
        }
    }
}

/// The window that a block leaves open is exact.
proof fn lemma_exact_window(insts: Seq<Hir>)
    requires
        exact_moves(insts),
    ensures
        exact(block_state(insts, Seq::empty()).1),
{
}

/// A block is run where it has been put, but for the window that it leaves
/// open.
proof fn lemma_block(
    insts: Seq<Hir>,
    ops: Seq<Op>,
    full: Seq<Op>,
    s: St,
    source: Source,
    fuel: nat,
) -> (r: (nat, St))
    requires
        ops.len() == 0 || self_standing(ops.last()),
        exact_moves(insts),
        gives_bytes(source),
        solid(s),
        block_state(insts, ops).0.len() <= full.len(),
        forall|i: int|
            ops.len() <= i < block_state(insts, ops).0.len() ==> #[trigger] full[i] == block_state(
                insts,
                ops,
            ).0[i],
    ensures
        match run(insts, s, source, fuel) {
            Some(t) => {
                &&& steps(cfg(full, ops.len() as int, s), source, r.0) == cfg(
                    full,
                    block_state(insts, ops).0.len() as int,
                    r.1,
                )
                &&& solid(r.1)
                &&& lins(block_state(insts, ops).1, r.1) == t
            },
            None => r.0 >= fuel && !steps(
                cfg(full, ops.len() as int, s),
                source,
                r.0,
            ).halted(),
        },
    decreases fuel, insts, 1int,
{
    if insts.len() == 0 {
        (0, s)
    } else {
        let front = insts.drop_last();
        let (done, raw) = block_state(front, ops);
        let all = block_state(insts, ops).0;
        lemma_block_grows(front, ops);
        lemma_block_grows(insts, ops);
        lemma_flush_grows(done, raw);
        let start = flushed(done, raw);
        lemma_last_extends(insts, ops);
        assert forall|i: int| ops.len() <= i < done.len() implies #[trigger] full[i] == done[i] by {
            assert(all[i] == done[i]);
        }
        let (n, u) = lemma_block(front, ops, full, s, source, fuel);
        let here = cfg(full, ops.len() as int, s);
        match run(front, s, source, fuel) {
            None => (n, u),
            Some(t) => {
                lemma_window_same(front, ops);
                lemma_exact_window(front);
                lemma_window_meaning(raw, u);
                match insts.last() {
                    Hir::Move(d) => {
                        if d == 0 {
                            assert(t.moved(d) =~= t);
                        } else {
                            assert(raw.push(Linear::Move(d)).drop_last() =~= raw);
                        }
                        (n, u)
                    },
                    Hir::Add(k) => {
                        if k == 0 {
                            assert(t.cells.dom().contains(t.ptr));
                            assert(t.cells.insert(t.ptr, t.cells[t.ptr]) =~= t.cells);
                            assert(t.add_at(0, k) =~= t);
                        } else {
                            assert(raw.push(Linear::Add(k)).drop_last() =~= raw);
                        }
                        (n, u)
                    },
                    Hir::Zero => {
                        assert(raw.push(Linear::Zero).drop_last() =~= raw);
                        (n, u)
                    },
                    _ => {
                        assert forall|i: int| done.len() <= i < start.len() implies #[trigger] full[i]
                            == start[i] by {
                            assert(all[i] == start[i]);
                        }
                        let m = lemma_run_window(full, done, raw, u, source);
                        lemma_steps_add(here, source, n, m);
                        let (k, v) = lemma_last(insts, ops, full, t, source, fuel);
                        lemma_steps_add(here, source, n + m, k);
                        assert(run(insts, s, source, fuel) == run_one(insts.last(), t, source, fuel));
                        (n + m + k, v)
                    },
                }
            },
        }
    }
}

/// What a block's last instruction adds to the operations.
proof fn lemma_last_extends(insts: Seq<Hir>, ops: Seq<Op>)
    requires
        ops.len() == 0 || self_standing(ops.last()),
        insts.len() > 0,
    ensures
        ({
            let (done, raw) = block_state(insts.drop_last(), ops);
            let start = flushed(done, raw);
            let all = block_state(insts, ops).0;
            &&& all.len() >= done.len()
            &&& forall|i: int| 0 <= i < done.len() ==> all[i] == #[trigger] done[i]
            &&& (insts.last() is Move || insts.last() is Add || insts.last() is Zero) || (
            all.len() > start.len() && forall|i: int|
                0 <= i < start.len() ==> all[i] == #[trigger] start[i])
        }),
{
    let (done, raw) = block_state(insts.drop_last(), ops);
    lemma_block_grows(insts.drop_last(), ops);
    lemma_flush_grows(done, raw);
    let start = flushed(done, raw);
    if let Hir::Loop(body) = insts.last() {
        let opened = start.push(Op::LoopStart(0));
        lemma_block_grows(body, opened);
        let inner = block_ops(body, opened);
        assert forall|i: int| 0 <= i < start.len() implies inner[i] == #[trigger] start[i] by {
            assert(opened[i] == start[i]);
        }
    }
}

/// The last instruction of a block, one that is no part of a window, is run
/// where it has been put.
proof fn lemma_last(
    insts: Seq<Hir>,
    ops: Seq<Op>,
    full: Seq<Op>,
    t: St,
    source: Source,
    fuel: nat,
) -> (r: (nat, St))
    requires
        ops.len() == 0 || self_standing(ops.last()),
        insts.len() > 0,
        exact_moves(insts),
        gives_bytes(source),
        solid(t),
        !(insts.last() is Move || insts.last() is Add || insts.last() is Zero),
        block_state(insts, ops).0.len() <= full.len(),
        forall|i: int|
            ops.len() <= i < block_state(insts, ops).0.len() ==> #[trigger] full[i] == block_state(
                insts,
                ops,
            ).0[i],
    ensures
        ({
            let (done, raw) = block_state(insts.drop_last(), ops);
            let from = cfg(full, flushed(done, raw).len() as int, t);
            match run_one(insts.last(), t, source, fuel) {
                Some(v) => {
                    &&& steps(from, source, r.0) == cfg(
                        full,
                        block_state(insts, ops).0.len() as int,
                        r.1,
                    )
                    &&& solid(r.1)
                    &&& lins(block_state(insts, ops).1, r.1) == v
                },
                None => r.0 >= fuel && !steps(from, source, r.0).halted(),
            }
        }),
    decreases fuel, insts, 0int,
{
    let (done, raw) = block_state(insts.drop_last(), ops);
    let all = block_state(insts, ops).0;
    lemma_block_grows(insts.drop_last(), ops);
    lemma_flush_grows(done, raw);
    lemma_last_extends(insts, ops);
    let start = flushed(done, raw);
    let at = start.len() as int;
    let inst = insts.last();
    if let Hir::Loop(body) = inst {
        let opened = start.push(Op::LoopStart(0));
        let inner = block_ops(body, opened);
        lemma_block_grows(body, opened);
        assert(opened[at] == Op::LoopStart(0));
        assert(full[at] == all[at]);
        assert(full[inner.len() as int] == all[inner.len() as int]);
        assert forall|i: int| opened.len() <= i < inner.len() implies #[trigger] full[i]
            == inner[i] by {
            assert(all[i] == inner[i]);
        }
        let n = lemma_loop(body, start, full, at, t, source, fuel);
        match run_one(inst, t, source, fuel) {
            Some(v) => (n, v),
            None => (n, t),
        }
    } else if let Hir::Scan(dir) = inst {
        assert(full[at] == all[at]);
        let n = lemma_scan(full, at, t, dir, source, fuel);
        match run_one(inst, t, source, fuel) {
            Some(v) => (n, v),
            None => (n, t),
        }
    } else {
        assert(full[at] == all[at]);
        lemma_one(full, at, t, source);
        let z = t.set_at(0, 0);
        lemma_solid_set(t, 0, 0);
        assert(t.cells.dom().contains(t.ptr));
        match inst {
            Hir::LinearMul(factors) => {
                lemma_spread_reduced(z, factors, t.cell(), factors.len() as int);
            },
            Hir::LinearMulWithSets(factors, sets) => {
                lemma_spread_reduced(z, factors, t.cell(), factors.len() as int);
                lemma_solid_cleared(t.multiplied(factors), sets, sets.len() as int);
            },
            Hir::GetByte => {
                let b = source(t.reads);
                lemma_solid_set(t, 0, b);
                assert(t.read(b).cells =~= t.set_at(0, b).cells);
            },
            _ => {},
        }
        (1, run_one(inst, t, source, fuel)->Some_0)
    }
}

/// A program's operations, before loops become single operations, do what the
/// program does. Where the program ends in a state, they end in the same
/// state; where it takes more than `fuel` rounds, they take at least as many
/// steps.
proof fn lemma_flat(insts: Seq<Hir>, s: St, source: Source, fuel: nat) -> (n: nat)
    requires
        exact_moves(insts),
        gives_bytes(source),
        solid(s),
    ensures
        match run(insts, s, source, fuel) {
            Some(t) => steps(cfg(block_ops(insts, Seq::empty()), 0, s), source, n) == (Config {
                frames: Seq::empty(),
                st: t,
            }),
            None => n >= fuel && !steps(
                cfg(block_ops(insts, Seq::empty()), 0, s),
                source,
                n,
            ).halted(),
        },
{
    let none = Seq::<Op>::empty();
    let full = block_ops(insts, none);
    let (done, raw) = block_state(insts, none);
    lemma_block_grows(insts, none);
    lemma_flush_grows(done, raw);
    let (n, u) = lemma_block(insts, none, full, s, source, fuel);
    let here = cfg(full, 0, s);
    match run(insts, s, source, fuel) {
        None => n,
        Some(t) => {
            lemma_exact_window(insts);
            let m = lemma_run_window(full, done, raw, u, source);
            lemma_steps_add(here, source, n, m);
            let last = cfg(full, full.len() as int, t);
            lemma_steps_add(here, source, n + m, 1);
            let end = step(last, source(t.reads));
            assert(steps(end, source, 0) == end);
            assert(end.frames =~= Seq::<Frame>::empty());
            n + m + 1
        },
    }
}

/// A machine on operations in which the loop from `i` to `end` has become one
/// operation, where the other machine is inside that loop or elsewhere.
pub open spec fn folded(c: Config, ops: Seq<Op>, i: int, end: int) -> Config {
    if c.frames.len() == 0 {
        c
    } else {
        let pc = c.frames[0].pc;
        let next = blocked(ops, i, end);
        let bottom = if i < pc <= end {
            seq![Frame { ops: next, pc: i }, Frame { ops: ops.subrange(i + 1, end), pc: pc - i - 1 }]
        } else {
            seq![Frame { ops: next, pc }]
        };
        Config { frames: bottom + c.frames.skip(1), st: c.st }
    }
}

/// Whether a machine runs these operations.
pub open spec fn runs_on(c: Config, ops: Seq<Op>) -> bool {
    c.frames.len() > 0 ==> c.frames[0].ops == ops && 0 <= c.frames[0].pc
}

/// A machine goes through operations that do nothing.
proof fn lemma_noops(frames: Seq<Frame>, body: Seq<Op>, from: int, to: int, s: St, source: Source)
    requires
        0 <= from <= to <= body.len(),
        forall|j: int| from <= j < to ==> #[trigger] body[j] is NoOp,
    ensures
        steps(
            Config { frames: frames.push(Frame { ops: body, pc: from }), st: s },
            source,
            (to - from) as nat,
        ) == (Config { frames: frames.push(Frame { ops: body, pc: to }), st: s }),
    decreases to - from,
{
    if from < to {
        let c = Config { frames: frames.push(Frame { ops: body, pc: from }), st: s };
        let d = Config { frames: frames.push(Frame { ops: body, pc: from + 1 }), st: s };
        assert(body[from] is NoOp);
        assert(c.frames.drop_last() =~= frames);
        assert(step(c, source(s.reads)).frames =~= d.frames);
        lemma_noops(frames, body, from + 1, to, s, source);
    }
}

/// One step of a machine in a body that is being run as one operation, or in
/// one that such a body has started, is the same after folding.
proof fn lemma_fold_inner(c: Config, ops: Seq<Op>, i: int, end: int, byte: int)
    requires
        c.frames.len() >= 2,
        runs_on(c, ops),
    ensures
        step(folded(c, ops, i, end), byte) == folded(step(c, byte), ops, i, end),
        runs_on(step(c, byte), ops),
{
    let f = folded(c, ops, i, end);
    let rest = c.frames.skip(1);
    assert(rest.last() == c.frames.last());
    assert(f.frames.last() == c.frames.last());
    assert(f.frames.len() >= 2);
    assert(f.top() == c.top());
    let d = step(c, byte);
    let g = step(f, byte);
    assert(d.frames[0] == c.frames[0]);
    let bottom = f.frames.take(f.frames.len() - rest.len());
    assert(folded(d, ops, i, end).frames =~= bottom + d.frames.skip(1));
    assert(g.frames =~= bottom + d.frames.skip(1));
}

/// Nothing jumps into a loop.
proof fn lemma_no_jump_inside(ops: Seq<Op>, i: int, pc: int)
    requires
        paired(ops),
        blocks_in_order(ops),
        blockable(ops, i),
        0 <= pc < ops.len(),
        pc < i || ops[i]->LoopStart_0 < pc,
    ensures
        ({
            let end = ops[i]->LoopStart_0;
            match ops[pc] {
                Op::LoopStart(e) => 0 <= e + 1 && !(i < e + 1 <= end),
                Op::LoopEnd(st) => 0 <= st + 1 && !(i < st + 1 <= end),
                Op::LoopBlock(after, _) => 0 <= after && !(i < after <= end),
                _ => true,
            }
        }),
{
    let end = ops[i]->LoopStart_0;
    let body = ops.subrange(i + 1, end);
    assert forall|k: int| i < k < end implies self_contained(#[trigger] ops[k]) by {
        assert(body[k - i - 1] == ops[k]);
    }
    match ops[pc] {
        Op::LoopStart(e) => {
            assert(ops[e] == Op::LoopEnd(pc));
        },
        Op::LoopEnd(st) => {
            assert(ops[st] == Op::LoopStart(pc));
        },
        Op::LoopBlock(after, _) => {
            assert(block_in_order(ops, pc));
            if pc < i && i < after {
                assert(ops[i] is NoOp);
            }
        },
        _ => {},
    }
}

/// One step of a machine is one or more steps after folding.
proof fn lemma_fold_step(c: Config, ops: Seq<Op>, i: int, source: Source) -> (n: nat)
    requires
        paired(ops),
        blocks_in_order(ops),
        blockable(ops, i),
        runs_on(c, ops),
        !c.halted(),
    ensures
        n >= 1,
        steps(folded(c, ops, i, ops[i]->LoopStart_0), source, n) == folded(
            step(c, source(c.st.reads)),
            ops,
            i,
            ops[i]->LoopStart_0,
        ),
        runs_on(step(c, source(c.st.reads)), ops),
{
    let end = ops[i]->LoopStart_0;
    let byte = source(c.st.reads);
    let f = folded(c, ops, i, end);
    let d = step(c, byte);
    let fd = folded(d, ops, i, end);
    assert(steps(step(f, byte), source, 0) == step(f, byte));
    if c.frames.len() >= 2 {
        lemma_fold_inner(c, ops, i, end, byte);
        1
    } else {
        let pc = c.frames[0].pc;
        let next = blocked(ops, i, end);
        let body = ops.subrange(i + 1, end);
        assert(c.frames =~= seq![Frame { ops, pc }]);
        assert(c.top() == Frame { ops, pc });
        assert(c.frames.skip(1) =~= Seq::<Frame>::empty());
        assert(ops[end] == Op::LoopEnd(i));
        if i < pc <= end {
            let low = seq![Frame { ops: next, pc: i }];
            let top = Frame { ops: body, pc: pc - i - 1 };
            assert(f.frames =~= low.push(top));
            assert(f.top() == top);
            assert(f.frames.drop_last() =~= low);
            if pc == end {
                // The body has ended, and the loop is asked again.
                let e = step(f, byte);
                assert(e.frames =~= low);
                assert(e.top() == Frame { ops: next, pc: i });
                assert(next[i] == Op::LoopBlock(end + 1, body));
                let g = step(e, byte);
                assert(steps(g, source, 0) == g);
                assert(steps(e, source, 1) == g);
                assert(steps(f, source, 2) == g);
                if c.st.cell() == 0 {
                    assert(g.frames =~= seq![Frame { ops: next, pc: end + 1 }]);
                    assert(d.frames =~= seq![Frame { ops, pc: end + 1 }]);
                    assert(fd.frames =~= g.frames);
                } else {
                    assert(g.frames =~= low.push(Frame { ops: body, pc: 0 }));
                    assert(d.frames =~= seq![Frame { ops, pc: i + 1 }]);
                    assert(fd.frames =~= g.frames);
                }
                2
            } else {
                assert(body[pc - i - 1] == ops[pc]);
                assert(self_contained(body[pc - i - 1]));
                if ops[pc] is LoopBlock && c.st.cell() == 0 {
                    let after = ops[pc]->LoopBlock_0;
                    assert(block_in_order(ops, pc));
                    assert(after <= end) by {
                        if end < after {
                            assert(ops[end] is NoOp);
                        }
                    }
                    assert forall|j: int| pc - i <= j < after - i - 1 implies #[trigger] body[j] is NoOp by {
                        assert(body[j] == ops[j + i + 1]);
                        assert(ops[j + i + 1] is NoOp);
                    }
                    let e = step(f, byte);
                    assert(e.frames =~= low.push(Frame { ops: body, pc: pc - i }));
                    lemma_noops(low, body, pc - i, after - i - 1, c.st, source);
                    let m = (after - pc - 1) as nat;
                    let g = Config {
                        frames: low.push(Frame { ops: body, pc: after - i - 1 }),
                        st: c.st,
                    };
                    assert(steps(e, source, m) == g);
                    assert(steps(f, source, (m + 1) as nat) == g);
                    assert(d.frames =~= seq![Frame { ops, pc: after }]);
                    assert(fd.frames =~= g.frames);
                    m + 1
                } else {
                    let e = step(f, byte);
                    let (go, st) = turn(ops[pc], c.st, byte, true);
                    assert(turn(ops[pc], c.st, byte, false) == (go, st));
                    match go {
                        Go::Next => {
                            assert(d.frames =~= seq![Frame { ops, pc: pc + 1 }]);
                            assert(e.frames =~= low.push(Frame { ops: body, pc: pc - i }));
                        },
                        Go::Stay => {
                            assert(d.frames =~= seq![Frame { ops, pc }]);
                            assert(e.frames =~= low.push(top));
                        },
                        Go::Jump(_) => {},
                        Go::Enter(inner) => {
                            assert(d.frames =~= seq![
                                Frame { ops, pc },
                                Frame { ops: inner, pc: 0 },
                            ]);
                            assert(e.frames =~= low.push(top).push(Frame { ops: inner, pc: 0 }));
                        },
                    }
                    assert(fd.frames =~= e.frames);
                    1
                }
            }
        } else {
            assert(f.frames =~= seq![Frame { ops: next, pc }]);
            assert(f.top() == Frame { ops: next, pc });
            let e = step(f, byte);
            if pc >= ops.len() {
                assert(d.frames =~= Seq::<Frame>::empty());
                assert(e.frames =~= Seq::<Frame>::empty());
                1
            } else if pc == i {
                assert(next[i] == Op::LoopBlock(end + 1, body));
                if c.st.cell() == 0 {
                    assert(d.frames =~= seq![Frame { ops, pc: end + 1 }]);
                    assert(e.frames =~= seq![Frame { ops: next, pc: end + 1 }]);
                } else {
                    assert(d.frames =~= seq![Frame { ops, pc: i + 1 }]);
                    assert(e.frames =~= seq![
                        Frame { ops: next, pc: i },
                        Frame { ops: body, pc: 0 },
                    ]);
                }
                assert(fd.frames =~= e.frames);
                1
            } else {
                lemma_no_jump_inside(ops, i, pc);
                assert(next[pc] == ops[pc]);
                let (go, st) = turn(ops[pc], c.st, byte, true);
                match go {
                    Go::Next => {
                        assert(d.frames =~= seq![Frame { ops, pc: pc + 1 }]);
                        assert(e.frames =~= seq![Frame { ops: next, pc: pc + 1 }]);
                    },
                    Go::Stay => {
                        assert(d.frames =~= seq![Frame { ops, pc }]);
                        assert(e.frames =~= seq![Frame { ops: next, pc }]);
                    },
                    Go::Jump(to) => {
                        assert(d.frames =~= seq![Frame { ops, pc: to }]);
                        assert(e.frames =~= seq![Frame { ops: next, pc: to }]);
                    },
                    Go::Enter(inner) => {
                        assert(d.frames =~= seq![Frame { ops, pc }, Frame { ops: inner, pc: 0 }]);
                        assert(e.frames =~= seq![
                            Frame { ops: next, pc },
                            Frame { ops: inner, pc: 0 },
                        ]);
                    },
                }
                assert(fd.frames =~= e.frames);
                1
            }
        }
    }
}

/// A machine that has halted stays where it is.
pub proof fn lemma_halted_stays(c: Config, source: Source, n: nat)
    requires
        c.halted(),
    ensures
        steps(c, source, n) == c,
    decreases n,
{
    if n > 0 {
        lemma_halted_stays(c, source, (n - 1) as nat);
    }
}

/// The steps of a machine are at least as many after folding, unless it halts.
proof fn lemma_fold_steps(c: Config, ops: Seq<Op>, i: int, source: Source, n: nat) -> (m: nat)
    requires
        paired(ops),
        blocks_in_order(ops),
        blockable(ops, i),
        runs_on(c, ops),
    ensures
        steps(folded(c, ops, i, ops[i]->LoopStart_0), source, m) == folded(
            steps(c, source, n),
            ops,
            i,
            ops[i]->LoopStart_0,
        ),
        steps(c, source, n).halted() || m >= n,
    decreases n,
{
    if c.halted() {
        lemma_halted_stays(c, source, n);
        0
    } else if n == 0 {
        0
    } else {
        let end = ops[i]->LoopStart_0;
        let a = lemma_fold_step(c, ops, i, source);
        let d = step(c, source(c.st.reads));
        let b = lemma_fold_steps(d, ops, i, source, (n - 1) as nat);
        lemma_steps_add(folded(c, ops, i, end), source, a, b);
        a + b
    }
}

/// What a run of a machine comes to: it halts in a state, or is still running.
pub open spec fn outcome(c: Config) -> Option<St> {
    if c.halted() {
        Some(c.st)
    } else {
        None
    }
}

/// A sweep keeps what a program comes to.
proof fn lemma_sweep_keeps(ops: Seq<Op>, i: int, s: St, source: Source, n: nat) -> (m: nat)
    requires
        0 <= i,
        paired(ops),
        blocks_in_order(ops),
    ensures
        outcome(steps(cfg(swept(ops, i), 0, s), source, m)) == outcome(
            steps(cfg(ops, 0, s), source, n),
        ),
        steps(cfg(ops, 0, s), source, n).halted() || m >= n,
    decreases ops.len() - i,
{
    if i >= ops.len() {
        n
    } else if blockable(ops, i) {
        let end = ops[i]->LoopStart_0;
        let next = blocked(ops, i, end);
        lemma_blocked_in_order(ops, i);
        let c = cfg(ops, 0, s);
        let k = lemma_fold_steps(c, ops, i, source, n);
        assert(folded(c, ops, i, end).frames =~= cfg(next, 0, s).frames);
        lemma_sweep_keeps(next, end + 1, s, source, k)
    } else {
        lemma_sweep_keeps(ops, i + 1, s, source, n)
    }
}

/// Making loops single operations keeps what a program comes to.
proof fn lemma_specialized_keeps(ops: Seq<Op>, s: St, source: Source, n: nat) -> (m: nat)
    requires
        paired(ops),
        blocks_in_order(ops),
    ensures
        outcome(steps(cfg(specialized(ops), 0, s), source, m)) == outcome(
            steps(cfg(ops, 0, s), source, n),
        ),
        steps(cfg(ops, 0, s), source, n).halted() || m >= n,
    decreases starts(ops),
{
    if swept(ops, 0) == ops {
        n
    } else {
        lemma_sweep_shrinks(ops, 0);
        lemma_sweep_keeps_order(ops, 0);
        let k = lemma_sweep_keeps(ops, 0, s, source, n);
        lemma_specialized_keeps(swept(ops, 0), s, source, k)
    }
}

/// The bytecode of a program does what the program does, whatever it reads.
/// Where the program ends, its bytecode ends too, with the same cells, the
/// same data pointer, and the same input and output at the same places. Where
/// the program's loops and searches take more than `fuel` rounds, the
/// bytecode takes at least `fuel` steps.
pub proof fn law_bytecode_keeps_meaning(
    insts: Seq<Hir>,
    s: St,
    source: Source,
    fuel: nat,
) -> (n: nat)
    requires
        exact_moves(insts),
        gives_bytes(source),
        solid(s),
    ensures
        outcome(steps(loaded(bytecode(insts), s), source, n)) == run(insts, s, source, fuel),
        run(insts, s, source, fuel) is None ==> n >= fuel,
{
    let ops = block_ops(insts, Seq::empty());
    let k = lemma_flat(insts, s, source, fuel);
    lemma_block_paired(insts, Seq::empty());
    lemma_block_has_no_blocks(insts, Seq::empty());
    assert(paired(ops));
    assert forall|i: int| 0 <= i < ops.len() implies #[trigger] block_in_order(ops, i) by {
        assert(!(ops[i] is LoopBlock));
    }
    let n = lemma_specialized_keeps(ops, s, source, k);
    assert(loaded(bytecode(insts), s) == cfg(bytecode(insts), 0, s));
    n
}

/// The bytecode of a program ends only where the program does: if it has
/// halted after `n` steps, the program ends within as many rounds, in the
/// same state.
pub proof fn law_bytecode_ends_with_the_program(insts: Seq<Hir>, s: St, source: Source, n: nat)
    requires
        exact_moves(insts),
        gives_bytes(source),
        solid(s),
        steps(loaded(bytecode(insts), s), source, n).halted(),
    ensures
        run(insts, s, source, n + 1) == Some(steps(loaded(bytecode(insts), s), source, n).st),
{
    let c = loaded(bytecode(insts), s);
    let m = law_bytecode_keeps_meaning(insts, s, source, n + 1);
    if m >= n {
        lemma_steps_add(c, source, n, (m - n) as nat);
        lemma_halted_stays(steps(c, source, n), source, (m - n) as nat);
    } else {
        lemma_steps_add(c, source, m, (n - m) as nat);
        lemma_halted_stays(steps(c, source, m), source, (n - m) as nat);
    }
}

} // verus!
