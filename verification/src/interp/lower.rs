//! HIR to bytecode.
//!
//! Nested loops become one instruction stream with absolute jumps. Windows of
//! moves, adds and clears become either writes at offsets with one closing
//! move, or the plain operations with frequent pairs fused, whichever is
//! shorter. Loops without I/O then become single operations.

use std::sync::Arc;

use vstd::prelude::*;

use crate::interp::bytecode::{
    InterpOp, InterpProgram, LinearMulPlan, LinearMulWithSetsPlan, LoopBlockPlan,
};
use crate::interp::bytecode::{
    group_ops_view, lemma_ops_len, op_view, ops_view, packed_sets_view, packed_view, Op,
};
use crate::ir::hir::{factors_view, hir_view, hirs_view, lemma_hirs_index, sets_view, Hir};
use crate::ir::hir::{HirInst, HirProgram};

verus! {

/// An operation of a straight-line window.
pub enum Linear {
    /// Move the data pointer.
    Move(int),
    /// Add to the current cell.
    Add(int),
    /// Clear the current cell.
    Zero,
}

/// What a window does to one cell.
pub enum Pending {
    /// Adds, by 1 to 255.
    Add(int),
    /// Stores a byte.
    Store(int),
}

/// The number clamped to the range of `isize`.
pub open spec fn saturated(x: int) -> int {
    if x > isize::MAX {
        isize::MAX as int
    } else if x < isize::MIN {
        isize::MIN as int
    } else {
        x
    }
}

/// Where a window leaves the pointer, relative to where it starts.
pub open spec fn displacement(raw: Seq<Linear>) -> int
    decreases raw.len(),
{
    if raw.len() == 0 {
        0
    } else {
        match raw.last() {
            Linear::Move(d) => saturated(displacement(raw.drop_last()) + d),
            _ => displacement(raw.drop_last()),
        }
    }
}

/// The write at an offset in a list in ascending order.
pub open spec fn lookup(writes: Seq<(int, Pending)>, off: int) -> Option<Pending>
    decreases writes.len(),
{
    if writes.len() == 0 {
        None
    } else if writes.last().0 == off {
        Some(writes.last().1)
    } else {
        lookup(writes.drop_last(), off)
    }
}

/// The list with the write at an offset put in or replaced.
pub open spec fn put(writes: Seq<(int, Pending)>, off: int, w: Pending) -> Seq<(int, Pending)>
    decreases writes.len(),
{
    if writes.len() == 0 || writes.last().0 < off {
        writes.push((off, w))
    } else if writes.last().0 == off {
        writes.drop_last().push((off, w))
    } else {
        put(writes.drop_last(), off, w).push(writes.last())
    }
}

/// The list without the write at an offset.
pub open spec fn without(writes: Seq<(int, Pending)>, off: int) -> Seq<(int, Pending)>
    decreases writes.len(),
{
    if writes.len() == 0 {
        writes
    } else if writes.last().0 == off {
        without(writes.drop_last(), off)
    } else {
        without(writes.drop_last(), off).push(writes.last())
    }
}

/// The list after an add at an offset.
pub open spec fn with_add(writes: Seq<(int, Pending)>, off: int, delta: int) -> Seq<
    (int, Pending),
> {
    match lookup(writes, off) {
        None => if delta % 256 != 0 {
            put(writes, off, Pending::Add(delta % 256))
        } else {
            writes
        },
        Some(Pending::Add(prev)) => if (prev + delta) % 256 != 0 {
            put(writes, off, Pending::Add((prev + delta) % 256))
        } else {
            without(writes, off)
        },
        Some(Pending::Store(v)) => put(writes, off, Pending::Store((v + delta) % 256)),
    }
}

/// The net writes of a window, in ascending order of their offsets.
pub open spec fn net_writes(raw: Seq<Linear>) -> Seq<(int, Pending)>
    decreases raw.len(),
{
    if raw.len() == 0 {
        Seq::empty()
    } else {
        let before = net_writes(raw.drop_last());
        let at = displacement(raw.drop_last());
        match raw.last() {
            Linear::Move(_) => before,
            Linear::Add(delta) => with_add(before, at, delta),
            Linear::Zero => put(before, at, Pending::Store(0)),
        }
    }
}

/// The operation for a net write.
pub open spec fn write_op(off: int, w: Pending) -> Op {
    match w {
        Pending::Add(delta) => if off == 0 {
            Op::Add(delta)
        } else {
            Op::AddAt(off, delta)
        },
        Pending::Store(v) => if off != 0 {
            Op::SetAt(off, v)
        } else if v == 0 {
            Op::Zero
        } else {
            Op::SetByte(v)
        },
    }
}

/// The operations for a list of net writes.
pub open spec fn write_ops(writes: Seq<(int, Pending)>) -> Seq<Op> {
    Seq::new(writes.len(), |i: int| write_op(writes[i].0, writes[i].1))
}

/// A window as writes at offsets with one closing move.
pub open spec fn offset_form(raw: Seq<Linear>) -> Seq<Op> {
    let end = displacement(raw);
    if end == 0 {
        write_ops(net_writes(raw))
    } else {
        write_ops(net_writes(raw)).push(Op::Move(end))
    }
}

/// The operations with the last two made one where they are a frequent pair.
pub open spec fn fused(ops: Seq<Op>) -> Seq<Op> {
    if ops.len() < 2 {
        ops
    } else {
        let front = ops.take(ops.len() - 2);
        match (ops[ops.len() - 2], ops[ops.len() - 1]) {
            (Op::Move(d), Op::Add(k)) => front.push(Op::MoveAdd(d, k)),
            (Op::Zero, Op::Move(d)) => front.push(Op::ZeroMove(d)),
            _ => ops,
        }
    }
}

/// A window operation by operation, frequent pairs fused.
pub open spec fn plain_form(raw: Seq<Linear>) -> Seq<Op>
    decreases raw.len(),
{
    if raw.len() == 0 {
        Seq::empty()
    } else {
        let front = plain_form(raw.drop_last());
        match raw.last() {
            Linear::Move(d) => fused(front.push(Op::Move(d))),
            Linear::Add(delta) => fused(front.push(Op::Add(delta))),
            Linear::Zero => front.push(Op::Zero),
        }
    }
}

/// The form that is taken: offsets where that is shorter.
pub open spec fn window_ops(raw: Seq<Linear>) -> Seq<Op> {
    if offset_form(raw).len() < plain_form(raw).len() {
        offset_form(raw)
    } else {
        plain_form(raw)
    }
}

/// Operations put behind others one by one, frequent pairs fused.
pub open spec fn appended(ops: Seq<Op>, more: Seq<Op>) -> Seq<Op>
    decreases more.len(),
{
    if more.len() == 0 {
        ops
    } else {
        fused(appended(ops, more.drop_last()).push(more.last()))
    }
}

/// A window put behind other operations.
pub open spec fn flushed(ops: Seq<Op>, raw: Seq<Linear>) -> Seq<Op> {
    appended(ops, window_ops(raw))
}

/// The factor modulo 256, as a signed byte.
pub open spec fn signed_byte(v: int) -> int {
    if v % 256 <= 127 {
        v % 256
    } else {
        v % 256 - 256
    }
}

/// A factor list with its factors as signed bytes.
pub open spec fn reduced(factors: Seq<(int, int)>) -> Seq<(int, int)> {
    Seq::new(factors.len(), |i: int| (factors[i].0, signed_byte(factors[i].1)))
}

/// 1 or -1, with the sign of the number.
pub open spec fn sign(dir: int) -> int {
    if dir > 0 {
        1
    } else {
        -1
    }
}

/// The operations after a block's instructions, and the window that is still
/// open behind them.
pub open spec fn block_state(insts: Seq<Hir>, ops: Seq<Op>) -> (Seq<Op>, Seq<Linear>)
    decreases insts, 0int,
{
    if insts.len() == 0 {
        (ops, Seq::empty())
    } else {
        let (done, raw) = block_state(insts.drop_last(), ops);
        match insts.last() {
            Hir::Move(d) => (done, if d == 0 {
                raw
            } else {
                raw.push(Linear::Move(d))
            }),
            Hir::Add(k) => (done, if k == 0 {
                raw
            } else {
                raw.push(Linear::Add(k))
            }),
            Hir::Zero => (done, raw.push(Linear::Zero)),
            Hir::PutByte => (flushed(done, raw).push(Op::PutByte), Seq::empty()),
            Hir::GetByte => (flushed(done, raw).push(Op::GetByte), Seq::empty()),
            Hir::LinearMul(factors) => (
                flushed(done, raw).push(Op::LinearMul(reduced(factors))),
                Seq::empty(),
            ),
            Hir::LinearMulWithSets(factors, sets) => (
                flushed(done, raw).push(Op::LinearMulWithSets(reduced(factors), sets)),
                Seq::empty(),
            ),
            Hir::Scan(dir) => (flushed(done, raw).push(Op::Scan(sign(dir))), Seq::empty()),
            Hir::Loop(body) => {
                let start = flushed(done, raw);
                let inner = block_ops(body, start.push(Op::LoopStart(0)));
                (
                    inner.update(start.len() as int, Op::LoopStart(inner.len() as int)).push(
                        Op::LoopEnd(start.len() as int),
                    ),
                    Seq::empty(),
                )
            },
        }
    }
}

/// The operations with those of a block behind them.
pub open spec fn block_ops(insts: Seq<Hir>, ops: Seq<Op>) -> Seq<Op>
    decreases insts, 1int,
{
    let (done, raw) = block_state(insts, ops);
    flushed(done, raw)
}

/// The number fits an `i32`.
pub open spec fn fits32(x: int) -> bool {
    i32::MIN <= x <= i32::MAX
}

/// Every distance and offset of a window fits its operation.
pub open spec fn window_fits(raw: Seq<Linear>) -> bool {
    &&& forall|i: int| 0 <= i < raw.len() ==> (#[trigger] raw[i] matches Linear::Move(d) ==> fits32(d))
    &&& forall|i: int| 0 <= i < net_writes(raw).len() ==> fits32(#[trigger] net_writes(raw)[i].0)
    &&& fits32(displacement(raw))
}

/// Every offset of a factor list fits an `i32`.
pub open spec fn factors_fit(factors: Seq<(int, int)>) -> bool {
    forall|i: int| 0 <= i < factors.len() ==> fits32(#[trigger] factors[i].0)
}

/// Every offset of a list fits an `i32`.
pub open spec fn sets_fit(sets: Seq<int>) -> bool {
    forall|i: int| 0 <= i < sets.len() ==> fits32(#[trigger] sets[i])
}

/// Every instruction fits its operation: distances and offsets an `i32`,
/// indices a `u32`, and scans have a direction. The last window is left out.
pub open spec fn insts_fit(insts: Seq<Hir>, ops: Seq<Op>) -> bool
    decreases insts, 0int,
{
    insts.len() == 0 || (insts_fit(insts.drop_last(), ops) && {
        let (done, raw) = block_state(insts.drop_last(), ops);
        match insts.last() {
            Hir::Move(_) => true,
            Hir::Add(_) => true,
            Hir::Zero => true,
            Hir::PutByte => window_fits(raw),
            Hir::GetByte => window_fits(raw),
            Hir::LinearMul(factors) => window_fits(raw) && factors_fit(factors),
            Hir::LinearMulWithSets(factors, sets) => window_fits(raw) && factors_fit(factors)
                && sets_fit(sets),
            Hir::Scan(dir) => window_fits(raw) && dir != 0,
            Hir::Loop(body) => {
                let start = flushed(done, raw);
                &&& window_fits(raw)
                &&& start.len() <= u32::MAX
                &&& block_fits(body, start.push(Op::LoopStart(0)))
                &&& block_ops(body, start.push(Op::LoopStart(0))).len() < u32::MAX
            },
        }
    })
}

/// Every instruction of a block fits its operation.
pub open spec fn block_fits(insts: Seq<Hir>, ops: Seq<Op>) -> bool
    decreases insts, 1int,
{
    insts_fit(insts, ops) && window_fits(block_state(insts, ops).1)
}

/// Whether the operation may stand in a loop that runs as one operation: it
/// does no I/O and no jump, and is no such loop itself nor one of its places.
pub open spec fn self_contained(op: Op) -> bool {
    !(op is PutByte || op is GetByte || op is LoopStart || op is LoopEnd || op is LoopBlock
        || op is NoOp)
}

/// Whether the operations are the body of a loop that runs as one operation.
pub open spec fn is_block_body(body: Seq<Op>) -> bool {
    body.len() >= 2 && forall|i: int| 0 <= i < body.len() ==> self_contained(#[trigger] body[i])
}

/// Whether a loop starts at `i` that can run as one operation.
pub open spec fn blockable(ops: Seq<Op>, i: int) -> bool {
    0 <= i < ops.len() && (ops[i] matches Op::LoopStart(end) && i < end < ops.len()
        && is_block_body(ops.subrange(i + 1, end)))
}

/// The operations with the loop from `i` to `end` made one operation, and the
/// places of its other operations kept.
pub open spec fn blocked(ops: Seq<Op>, i: int, end: int) -> Seq<Op> {
    Seq::new(
        ops.len(),
        |j: int|
            if j == i {
                Op::LoopBlock(end + 1, ops.subrange(i + 1, end))
            } else if i < j <= end {
                Op::NoOp
            } else {
                ops[j]
            },
    )
}

/// One sweep over the loops from `i` on.
pub open spec fn swept(ops: Seq<Op>, i: int) -> Seq<Op>
    decreases ops.len() - i,
{
    if i < 0 || i >= ops.len() {
        ops
    } else if blockable(ops, i) {
        let end = ops[i]->LoopStart_0;
        swept(blocked(ops, i, end), end + 1)
    } else {
        swept(ops, i + 1)
    }
}

/// Number of loops that start among the operations.
pub open spec fn starts(ops: Seq<Op>) -> nat
    decreases ops.len(),
{
    if ops.len() == 0 {
        0
    } else {
        starts(ops.drop_last()) + if ops.last() is LoopStart {
            1nat
        } else {
            0nat
        }
    }
}

/// Fewer places with loop starts are fewer loop starts.
pub proof fn lemma_fewer_starts(a: Seq<Op>, b: Seq<Op>)
    requires
        a.len() == b.len(),
        forall|j: int| 0 <= j < b.len() && #[trigger] b[j] is LoopStart ==> a[j] is LoopStart,
    ensures
        starts(b) <= starts(a),
        (exists|j: int| 0 <= j < a.len() && #[trigger] a[j] is LoopStart && !(b[j] is LoopStart))
            ==> starts(b) < starts(a),
    decreases a.len(),
{
    if a.len() > 0 {
        let n = a.len() - 1;
        assert forall|j: int| 0 <= j < n && #[trigger] b.drop_last()[j] is LoopStart implies a.drop_last()[j] is LoopStart by {
            assert(b[j] is LoopStart);
        }
        lemma_fewer_starts(a.drop_last(), b.drop_last());
        if exists|j: int| 0 <= j < a.len() && #[trigger] a[j] is LoopStart && !(b[j] is LoopStart) {
            let j = choose|j: int|
                0 <= j < a.len() && #[trigger] a[j] is LoopStart && !(b[j] is LoopStart);
            if j < n {
                assert(a.drop_last()[j] is LoopStart && !(b.drop_last()[j] is LoopStart));
            }
        }
        assert(b[n] is LoopStart ==> a[n] is LoopStart);
    }
}

/// A sweep leaves the operations as they are, or with fewer loop starts.
pub proof fn lemma_sweep_shrinks(ops: Seq<Op>, i: int)
    ensures
        swept(ops, i).len() == ops.len(),
        swept(ops, i) == ops || starts(swept(ops, i)) < starts(ops),
    decreases ops.len() - i,
{
    if 0 <= i < ops.len() {
        if blockable(ops, i) {
            let end = ops[i]->LoopStart_0;
            let next = blocked(ops, i, end);
            lemma_fewer_starts(ops, next);
            assert(ops[i] is LoopStart && !(next[i] is LoopStart));
            lemma_sweep_shrinks(next, end + 1);
        } else {
            lemma_sweep_shrinks(ops, i + 1);
        }
    }
}

/// The operations with every loop that holds neither I/O nor a loop made one
/// operation.
pub open spec fn specialized(ops: Seq<Op>) -> Seq<Op>
    decreases starts(ops),
{
    if swept(ops, 0) == ops {
        ops
    } else {
        proof {
            lemma_sweep_shrinks(ops, 0);
        }
        specialized(swept(ops, 0))
    }
}

/// The bytecode of a program.
pub open spec fn bytecode(insts: Seq<Hir>) -> Seq<Op> {
    specialized(block_ops(insts, Seq::empty()))
}

/// A write that a window still owes one cell.
#[derive(Debug, Clone, Copy, PartialEq, Eq)]
enum PendingWrite {
    Add(i32),
    Store(u8),
}

/// An operation of a straight-line window.
#[derive(Debug, Clone, Copy, PartialEq, Eq)]
enum LinearOp {
    Move(isize),
    Add(i32),
    Zero,
}

spec fn pending_view(w: PendingWrite) -> Pending {
    match w {
        PendingWrite::Add(delta) => Pending::Add(delta as int),
        PendingWrite::Store(v) => Pending::Store(v as int),
    }
}

spec fn writes_view(writes: Seq<(isize, PendingWrite)>) -> Seq<(int, Pending)> {
    Seq::new(writes.len(), |i: int| (writes[i].0 as int, pending_view(writes[i].1)))
}

spec fn linear_view(op: LinearOp) -> Linear {
    match op {
        LinearOp::Move(d) => Linear::Move(d as int),
        LinearOp::Add(delta) => Linear::Add(delta as int),
        LinearOp::Zero => Linear::Zero,
    }
}

spec fn raw_view(raw: Seq<LinearOp>) -> Seq<Linear> {
    Seq::new(raw.len(), |i: int| linear_view(raw[i]))
}

/// The offsets ascend.
pub open spec fn ascending(writes: Seq<(int, Pending)>) -> bool {
    forall|i: int, j: int|
        0 <= i < j < writes.len() ==> (#[trigger] writes[i]).0 < (#[trigger] writes[j]).0
}

/// Where the offset stands at `i`, or would stand.
pub open spec fn splits(writes: Seq<(int, Pending)>, off: int, i: int) -> bool {
    &&& 0 <= i <= writes.len()
    &&& forall|j: int| 0 <= j < i ==> (#[trigger] writes[j]).0 < off
    &&& forall|j: int| i <= j < writes.len() ==> off <= (#[trigger] writes[j]).0
}

pub proof fn lemma_at_split(writes: Seq<(int, Pending)>, off: int, w: Pending, i: int)
    requires
        ascending(writes),
        splits(writes, off, i),
    ensures
        i < writes.len() && writes[i].0 == off ==> {
            &&& lookup(writes, off) == Some(writes[i].1)
            &&& put(writes, off, w) == writes.update(i, (off, w))
            &&& without(writes, off) == writes.remove(i)
        },
        !(i < writes.len() && writes[i].0 == off) ==> {
            &&& lookup(writes, off) == None::<Pending>
            &&& put(writes, off, w) == writes.insert(i, (off, w))
            &&& without(writes, off) == writes
        },
    decreases writes.len(),
{
    if writes.len() > 0 {
        let n = writes.len() - 1;
        let front = writes.drop_last();
        if i <= n {
            lemma_at_split(front, off, w, i);
            if writes[n].0 == off {
                assert(i == n) by {
                    if i < n {
                        assert(writes[i].0 < writes[n].0);
                    }
                }
                assert(put(writes, off, w) =~= writes.update(i, (off, w)));
                assert(without(front, off) == front);
                assert(without(writes, off) =~= writes.remove(i));
            } else {
                assert(off < writes[n].0);
                if i < front.len() && front[i].0 == off {
                    assert(put(writes, off, w) =~= writes.update(i, (off, w)));
                    assert(without(writes, off) =~= writes.remove(i));
                } else {
                    assert(put(writes, off, w) =~= writes.insert(i, (off, w)));
                    assert(without(writes, off) =~= writes);
                }
            }
        } else {
            lemma_at_split(front, off, w, n);
            assert(writes[n].0 < off);
            assert(put(writes, off, w) =~= writes.insert(i, (off, w)));
            assert(without(writes, off) =~= writes);
        }
    } else {
        assert(put(writes, off, w) =~= writes.insert(i, (off, w)));
    }
}

/// There is a place for every offset.
pub proof fn lemma_split_exists(writes: Seq<(int, Pending)>, off: int) -> (i: int)
    requires
        ascending(writes),
    ensures
        splits(writes, off, i),
    decreases writes.len(),
{
    if writes.len() == 0 {
        0
    } else if writes.last().0 < off {
        assert forall|j: int| 0 <= j < writes.len() implies (#[trigger] writes[j]).0 < off by {
            if j < writes.len() - 1 {
                assert(writes[j].0 < writes[writes.len() - 1].0);
            }
        }
        writes.len() as int
    } else {
        let i = lemma_split_exists(writes.drop_last(), off);
        assert forall|j: int| 0 <= j < i implies (#[trigger] writes[j]).0 < off by {
            assert(writes.drop_last()[j].0 < off);
        }
        assert forall|j: int| i <= j < writes.len() implies off <= (#[trigger] writes[j]).0 by {
            if j < writes.len() - 1 {
                assert(off <= writes.drop_last()[j].0);
            }
        }
        i
    }
}

/// The net writes of a window stand in ascending order, at most one for each
/// offset.
pub proof fn law_net_writes_ascend(raw: Seq<Linear>)
    ensures
        ascending(net_writes(raw)),
    decreases raw.len(),
{
    if raw.len() > 0 {
        law_net_writes_ascend(raw.drop_last());
        let before = net_writes(raw.drop_last());
        let at = displacement(raw.drop_last());
        let i = lemma_split_exists(before, at);
        match raw.last() {
            Linear::Move(_) => {},
            Linear::Add(delta) => {
                lemma_at_split(before, at, Pending::Add(delta % 256), i);
                match lookup(before, at) {
                    None => {},
                    Some(Pending::Add(prev)) => {
                        lemma_at_split(before, at, Pending::Add((prev + delta) % 256), i);
                    },
                    Some(Pending::Store(v)) => {
                        lemma_at_split(before, at, Pending::Store((v + delta) % 256), i);
                    },
                }
            },
            Linear::Zero => {
                lemma_at_split(before, at, Pending::Store(0), i);
            },
        }
    }
}

/// The remainder modulo 256, never negative.
fn mod256(x: i64) -> (m: i32)
    requires
        x > i64::MIN,
    ensures
        m == x as int % 256,
{
    if x >= 0 {
        (x % 256) as i32
    } else {
        let r: i64 = (-x) % 256;
        if r == 0 {
            0
        } else {
            (256 - r) as i32
        }
    }
}

/// The factor modulo 256, as a signed byte.
fn clamp_i16_mod256(v: i32) -> (r: i16)
    ensures
        r == signed_byte(v as int),
{
    let m = mod256(v as i64);
    if m <= 127 {
        m as i16
    } else {
        (m - 256) as i16
    }
}

/// The open window of the block that is being lowered.
struct OffsetLowering {
    virt_ptr: isize,
    pending: Vec<(isize, PendingWrite)>,
    raw: Vec<LinearOp>,
}

impl OffsetLowering {
    /// The window's operations.
    spec fn window(self) -> Seq<Linear> {
        raw_view(self.raw@)
    }

    spec fn wf(self) -> bool {
        &&& self.virt_ptr == displacement(self.window())
        &&& writes_view(self.pending@) == net_writes(self.window())
    }

    fn new() -> (w: Self)
        ensures
            w.wf(),
            w.window() == Seq::<Linear>::empty(),
    {
        let w = OffsetLowering { virt_ptr: 0, pending: Vec::new(), raw: Vec::new() };
        assert(w.window() =~= Seq::<Linear>::empty());
        assert(writes_view(w.pending@) =~= net_writes(w.window()));
        w
    }

    /// Where the pointer's offset stands among the writes, or would stand.
    fn find(&self) -> (i: usize)
        requires
            self.wf(),
        ensures
            splits(net_writes(self.window()), self.virt_ptr as int, i as int),
    {
        proof {
            law_net_writes_ascend(self.window());
        }
        let ghost writes = net_writes(self.window());
        let mut i: usize = 0;
        while i < self.pending.len() && self.pending[i].0 < self.virt_ptr
            invariant
                i <= self.pending.len(),
                writes == writes_view(self.pending@),
                forall|j: int| 0 <= j < i ==> (#[trigger] writes[j]).0 < self.virt_ptr,
            decreases self.pending.len() - i,
        {
            i += 1;
        }
        assert forall|j: int| i <= j < writes.len() implies self.virt_ptr <= (#[trigger] writes[j]).0 by {
            assert(writes[i as int].0 >= self.virt_ptr);
            if i < j {
                assert(writes[i as int].0 < writes[j].0);
            }
        }
        i
    }

    fn merge_move(&mut self, delta: isize)
        requires
            old(self).wf(),
        ensures
            final(self).wf(),
            final(self).window() == if delta == 0 {
                old(self).window()
            } else {
                old(self).window().push(Linear::Move(delta as int))
            },
    {
        if delta == 0 {
            return ;
        }
        let sum: i128 = self.virt_ptr as i128 + delta as i128;
        let ghost before = self.window();
        self.raw.push(LinearOp::Move(delta));
        if sum > isize::MAX as i128 {
            self.virt_ptr = isize::MAX;
        } else if sum < isize::MIN as i128 {
            self.virt_ptr = isize::MIN;
        } else {
            self.virt_ptr = sum as isize;
        }
        assert(self.window() =~= before.push(Linear::Move(delta as int)));
        assert(self.window().drop_last() =~= before);
    }

    fn merge_add(&mut self, delta: i32)
        requires
            old(self).wf(),
        ensures
            final(self).wf(),
            final(self).window() == if delta == 0 {
                old(self).window()
            } else {
                old(self).window().push(Linear::Add(delta as int))
            },
    {
        if delta == 0 {
            return ;
        }
        let ghost before = self.window();
        let ghost writes = net_writes(before);
        let key = self.virt_ptr;
        let i = self.find();
        proof {
            law_net_writes_ascend(before);
        }
        self.raw.push(LinearOp::Add(delta));
        assert(self.window() =~= before.push(Linear::Add(delta as int)));
        assert(self.window().drop_last() =~= before);
        assert(displacement(self.window()) == displacement(before));
        assert(net_writes(self.window()) == with_add(writes, key as int, delta as int));
        assert(writes.len() == self.pending@.len());
        if i < self.pending.len() && self.pending[i].0 == key {
            match self.pending[i].1 {
                PendingWrite::Add(prev) => {
                    let sum = mod256(prev as i64 + delta as i64);
                    proof {
                        lemma_at_split(writes, key as int, Pending::Add(sum as int), i as int);
                    }
                    if sum != 0 {
                        self.pending.set(i, (key, PendingWrite::Add(sum)));
                        assert(writes_view(self.pending@) =~= net_writes(self.window()));
                    } else {
                        self.pending.remove(i);
                        assert(writes_view(self.pending@) =~= net_writes(self.window()));
                    }
                },
                PendingWrite::Store(v) => {
                    let new_v = mod256(v as i64 + delta as i64) as u8;
                    proof {
                        lemma_at_split(writes, key as int, Pending::Store(new_v as int), i as int);
                    }
                    self.pending.set(i, (key, PendingWrite::Store(new_v)));
                    assert(writes_view(self.pending@) =~= net_writes(self.window()));
                },
            }
        } else {
            let norm = mod256(delta as i64);
            proof {
                lemma_at_split(writes, key as int, Pending::Add(norm as int), i as int);
            }
            if norm != 0 {
                self.pending.insert(i, (key, PendingWrite::Add(norm)));
            }
            assert(writes_view(self.pending@) =~= net_writes(self.window()));
        }
    }

    fn merge_zero(&mut self)
        requires
            old(self).wf(),
        ensures
            final(self).wf(),
            final(self).window() == old(self).window().push(Linear::Zero),
    {
        let ghost before = self.window();
        let ghost writes = net_writes(before);
        let key = self.virt_ptr;
        let i = self.find();
        proof {
            law_net_writes_ascend(before);
            lemma_at_split(writes, key as int, Pending::Store(0), i as int);
        }
        self.raw.push(LinearOp::Zero);
        assert(self.window() =~= before.push(Linear::Zero));
        assert(self.window().drop_last() =~= before);
        assert(writes.len() == self.pending@.len());
        if i < self.pending.len() && self.pending[i].0 == key {
            self.pending.set(i, (key, PendingWrite::Store(0)));
        } else {
            self.pending.insert(i, (key, PendingWrite::Store(0)));
        }
        assert(writes_view(self.pending@) =~= net_writes(self.window()));
    }

    /// The window as writes at offsets with one closing move.
    fn offset_ops(&self) -> (out: Vec<InterpOp>)
        requires
            self.wf(),
            window_fits(self.window()),
        ensures
            ops_view(out@) == offset_form(self.window()),
    {
        broadcast use group_ops_view;

        let ghost writes = net_writes(self.window());
        let mut out: Vec<InterpOp> = Vec::new();
        let mut i: usize = 0;
        assert(ops_view(out@) =~= write_ops(writes.take(0)));
        while i < self.pending.len()
            invariant
                i <= self.pending.len(),
                self.wf(),
                window_fits(self.window()),
                writes == net_writes(self.window()),
                writes == writes_view(self.pending@),
                ops_view(out@) == write_ops(writes.take(i as int)),
            decreases self.pending.len() - i,
        {
            broadcast use group_ops_view;

            let ghost before = ops_view(out@);
            assert(fits32(writes[i as int].0));
            let off = self.pending[i].0 as i32;
            let op = match self.pending[i].1 {
                PendingWrite::Add(delta) => if off == 0 {
                    InterpOp::Add(delta)
                } else {
                    InterpOp::AddAt { off, delta }
                },
                PendingWrite::Store(val) => if off != 0 {
                    InterpOp::SetAt { off, val }
                } else if val == 0 {
                    InterpOp::Zero
                } else {
                    InterpOp::SetByte(val)
                },
            };
            assert(op_view(op) == write_op(writes[i as int].0, writes[i as int].1));
            let ghost done = out@;
            out.push(op);
            i += 1;
            assert(ops_view(out@) =~= before.push(op_view(op)));
            assert(ops_view(out@) =~= write_ops(writes.take(i as int)));
        }
        assert(writes.take(writes.len() as int) =~= writes);
        if self.virt_ptr != 0 {
            let ghost before = ops_view(out@);
            out.push(InterpOp::Move(self.virt_ptr as i32));
            assert(ops_view(out@) =~= before.push(Op::Move(self.virt_ptr as int)));
        }
        out
    }

    /// The window operation by operation, frequent pairs fused.
    fn fallback_ops(&self) -> (out: Vec<InterpOp>)
        requires
            self.wf(),
            window_fits(self.window()),
        ensures
            ops_view(out@) == plain_form(self.window()),
    {
        let ghost raw = self.window();
        let mut out: Vec<InterpOp> = Vec::new();
        let mut i: usize = 0;
        assert(raw.take(0) =~= Seq::<Linear>::empty());
        while i < self.raw.len()
            invariant
                i <= self.raw.len(),
                raw == self.window(),
                window_fits(raw),
                ops_view(out@) == plain_form(raw.take(i as int)),
            decreases self.raw.len() - i,
        {
            broadcast use group_ops_view;

            assert(raw[i as int] == linear_view(self.raw@[i as int]));
            assert(raw.take(i + 1).drop_last() =~= raw.take(i as int));
            let ghost before = ops_view(out@);
            match self.raw[i] {
                LinearOp::Move(delta) => {
                    assert(fits32(delta as int));
                    out.push(InterpOp::Move(delta as i32));
                    assert(ops_view(out@) =~= before.push(Op::Move(delta as int)));
                    fuse_recent_tail(&mut out);
                },
                LinearOp::Add(delta) => {
                    out.push(InterpOp::Add(delta));
                    assert(ops_view(out@) =~= before.push(Op::Add(delta as int)));
                    fuse_recent_tail(&mut out);
                },
                LinearOp::Zero => {
                    out.push(InterpOp::Zero);
                    assert(ops_view(out@) =~= before.push(Op::Zero));
                },
            }
            i += 1;
        }
        assert(raw.take(raw.len() as int) =~= raw);
        out
    }

    /// Put the window behind the operations and start a new one.
    fn flush_into(&mut self, ops: &mut Vec<InterpOp>)
        requires
            old(self).wf(),
            window_fits(old(self).window()),
        ensures
            final(self).wf(),
            final(self).window() == Seq::<Linear>::empty(),
            ops_view(final(ops)@) == flushed(ops_view(old(ops)@), old(self).window()),
    {
        let ghost start = ops_view(ops@);
        if self.raw.len() == 0 {
            assert(self.window() =~= Seq::<Linear>::empty());
            assert(window_ops(self.window()) =~= Seq::<Op>::empty());
            return ;
        }
        let offset_ops = self.offset_ops();
        let fallback_ops = self.fallback_ops();
        proof {
            broadcast use group_ops_view;

            assert(ops_view(offset_ops@).len() == offset_ops@.len());
            assert(ops_view(fallback_ops@).len() == fallback_ops@.len());
        }
        let mut chosen = if offset_ops.len() < fallback_ops.len() {
            offset_ops
        } else {
            fallback_ops
        };
        let ghost all = ops_view(chosen@);
        assert(all == window_ops(self.window()));
        let mut i: usize = 0;
        assert(all.take(0) =~= Seq::<Op>::empty());
        let ghost whole = chosen@;
        while i < chosen.len()
            invariant
                i <= chosen.len(),
                chosen@.len() == whole.len(),
                all == ops_view(whole),
                all.len() == whole.len(),
                forall|j: int| i <= j < whole.len() ==> #[trigger] chosen@[j] == whole[j],
                ops_view(ops@) == appended(start, all.take(i as int)),
            decreases chosen.len() - i,
        {
            broadcast use group_ops_view;

            let mut op = InterpOp::NoOp;
            chosen.set_and_swap(i, &mut op);
            assert(op == whole[i as int]);
            assert(op_view(op) == all[i as int]);
            push_with_tail_fusion(ops, op);
            i += 1;
            assert(all.take(i as int).drop_last() =~= all.take(i - 1));
        }
        assert(all.take(all.len() as int) =~= all);
        self.virt_ptr = 0;
        self.pending.clear();
        self.raw.clear();
        assert(self.window() =~= Seq::<Linear>::empty());
        assert(writes_view(self.pending@) =~= net_writes(self.window()));
    }
}

fn push_with_tail_fusion(ops: &mut Vec<InterpOp>, op: InterpOp)
    ensures
        ops_view(final(ops)@) == fused(ops_view(old(ops)@).push(op_view(op))),
{
    broadcast use group_ops_view;

    let ghost before = ops_view(ops@);
    ops.push(op);
    assert(ops_view(ops@) =~= before.push(op_view(op)));
    fuse_recent_tail(ops);
}

/// Make the last two operations one where they are a frequent pair.
fn fuse_recent_tail(ops: &mut Vec<InterpOp>)
    ensures
        ops_view(final(ops)@) == fused(ops_view(old(ops)@)),
{
    broadcast use group_ops_view;

    if ops.len() < 2 {
        return ;
    }
    let ghost before = ops_view(ops@);
    let len = ops.len();
    assert(before[len - 2] == op_view(ops@[len - 2]));
    assert(before[len - 1] == op_view(ops@[len - 1]));
    match (&ops[len - 2], &ops[len - 1]) {
        (InterpOp::Move(d), InterpOp::Add(k)) => {
            let d = *d;
            let k = *k;
            ops.truncate(len - 2);
            assert(ops_view(ops@) =~= before.take(len - 2));
            let ghost front = ops_view(ops@);
            ops.push(InterpOp::MoveAdd { d, k });
            assert(ops_view(ops@) =~= front.push(Op::MoveAdd(d as int, k as int)));
        },
        (InterpOp::Zero, InterpOp::Move(d)) => {
            let d = *d;
            ops.truncate(len - 2);
            assert(ops_view(ops@) =~= before.take(len - 2));
            let ghost front = ops_view(ops@);
            ops.push(InterpOp::ZeroMove(d));
            assert(ops_view(ops@) =~= front.push(Op::ZeroMove(d as int)));
        },
        _ => {},
    }
}

/// Pack a factor list.
fn pack_factors(factors: &Vec<(isize, i32)>) -> (packed: Vec<(i32, i16)>)
    requires
        factors_fit(factors_view(factors@)),
    ensures
        packed_view(packed@) == reduced(factors_view(factors@)),
{
    let mut packed: Vec<(i32, i16)> = Vec::new();
    let mut i: usize = 0;
    let ghost view = factors_view(factors@);
    while i < factors.len()
        invariant
            i <= factors.len(),
            view == factors_view(factors@),
            factors_fit(view),
            packed_view(packed@) == reduced(view.take(i as int)),
            packed@.len() == i,
        decreases factors.len() - i,
    {
        assert(fits32(view[i as int].0));
        let (off, f) = factors[i];
        let ghost before = packed@;
        packed.push((off as i32, clamp_i16_mod256(f)));
        i += 1;
        assert(packed_view(packed@) =~= packed_view(before).push((off as int, signed_byte(f as int))));
        assert(packed_view(packed@) =~= reduced(view.take(i as int)));
    }
    assert(view.take(view.len() as int) =~= view);
    packed
}

/// Pack a list of offsets.
fn pack_sets(sets: &Vec<isize>) -> (packed: Vec<i32>)
    requires
        sets_fit(sets_view(sets@)),
    ensures
        packed_sets_view(packed@) == sets_view(sets@),
{
    let mut packed: Vec<i32> = Vec::new();
    let mut i: usize = 0;
    let ghost view = sets_view(sets@);
    while i < sets.len()
        invariant
            i <= sets.len(),
            view == sets_view(sets@),
            sets_fit(view),
            packed@.len() == i,
            forall|j: int| 0 <= j < i ==> #[trigger] packed@[j] == sets@[j],
        decreases sets.len() - i,
    {
        assert(fits32(view[i as int]));
        packed.push(sets[i] as i32);
        i += 1;
    }
    assert(packed_sets_view(packed@) =~= view);
    packed
}

/// A block only adds operations.
pub proof fn lemma_block_grows(insts: Seq<Hir>, ops: Seq<Op>)
    requires
        ops.len() == 0 || self_standing(ops.last()),
    ensures
        block_state(insts, ops).0.len() >= ops.len(),
        block_state(insts, ops).0.len() == 0 || self_standing(block_state(insts, ops).0.last()),
        block_ops(insts, ops).len() >= ops.len(),
        forall|i: int| 0 <= i < ops.len() ==> block_state(insts, ops).0[i] == #[trigger] ops[i],
        forall|i: int| 0 <= i < ops.len() ==> block_ops(insts, ops)[i] == #[trigger] ops[i],
    decreases insts,
{
    if insts.len() > 0 {
        let (done, raw) = block_state(insts.drop_last(), ops);
        lemma_block_grows(insts.drop_last(), ops);
        lemma_flush_grows(done, raw);
        let start = flushed(done, raw);
        match insts.last() {
            Hir::Loop(body) => {
                let opened = start.push(Op::LoopStart(0));
                lemma_block_grows(body, opened);
                let inner = block_ops(body, opened);
                assert forall|i: int| 0 <= i < ops.len() implies inner[i] == #[trigger] ops[i] by {
                    assert(done[i] == ops[i]);
                    assert(start[i] == done[i]);
                    assert(inner[i] == opened[i]);
                }
            },
            _ => {},
        }
        assert forall|i: int| 0 <= i < ops.len() implies block_state(insts, ops).0[i]
            == #[trigger] ops[i] by {
            assert(done[i] == ops[i]);
            assert(start[i] == done[i]);
        }
    }
    let (done, raw) = block_state(insts, ops);
    lemma_flush_grows(done, raw);
    assert forall|i: int| 0 <= i < ops.len() implies block_ops(insts, ops)[i]
        == #[trigger] ops[i] by {
        assert(done[i] == ops[i]);
    }
}

/// The operation is not fused with one that follows.
pub open spec fn self_standing(op: Op) -> bool {
    !(op is Move || op is Zero)
}

pub proof fn lemma_append_grows(ops: Seq<Op>, more: Seq<Op>)
    requires
        ops.len() == 0 || self_standing(ops.last()),
    ensures
        appended(ops, more).len() >= ops.len(),
        forall|i: int| 0 <= i < ops.len() ==> appended(ops, more)[i] == #[trigger] ops[i],
        appended(ops, more).len() == ops.len() ==> more.len() == 0,
    decreases more.len(),
{
    if more.len() > 0 {
        lemma_append_grows(ops, more.drop_last());
    }
}

pub proof fn lemma_flush_grows(ops: Seq<Op>, raw: Seq<Linear>)
    requires
        ops.len() == 0 || self_standing(ops.last()),
    ensures
        flushed(ops, raw).len() >= ops.len(),
        forall|i: int| 0 <= i < ops.len() ==> flushed(ops, raw)[i] == #[trigger] ops[i],
{
    lemma_append_grows(ops, window_ops(raw));
}

/// Lower one block behind the operations.
fn lower_block(insts: &Vec<HirInst>, ops: &mut Vec<InterpOp>)
    requires
        old(ops)@.len() == 0 || self_standing(ops_view(old(ops)@).last()),
        block_fits(hirs_view(insts@), ops_view(old(ops)@)),
    ensures
        ops_view(final(ops)@) == block_ops(hirs_view(insts@), ops_view(old(ops)@)),
    decreases insts,
{
    let ghost hirs = hirs_view(insts@);
    let ghost before = ops_view(ops@);
    proof {
        lemma_hirs_index(insts@);
        assert(hirs.take(0) =~= Seq::<Hir>::empty());
        assert(hirs.take(hirs.len() as int) =~= hirs);
        broadcast use group_ops_view;

        assert(before.len() == ops@.len());
    }
    let mut state = OffsetLowering::new();
    let mut i: usize = 0;
    while i < insts.len()
        invariant
            i <= insts.len(),
            hirs == hirs_view(insts@),
            hirs.len() == insts@.len(),
            forall|k: int| 0 <= k < insts@.len() ==> #[trigger] hirs[k] == hir_view(insts@[k]),
            before.len() == 0 || self_standing(before.last()),
            insts_fit(hirs, before),
            state.wf(),
            block_state(hirs.take(i as int), before) == (ops_view(ops@), state.window()),
        decreases insts.len() - i,
    {
        broadcast use group_ops_view;

        let ghost prefix = hirs.take(i as int);
        let ghost next = hirs.take(i + 1);
        assert(next.drop_last() =~= prefix);
        assert(next.last() == hir_view(insts@[i as int]));
        proof {
            lemma_fit_prefix(hirs, before, i + 1);
            lemma_block_grows(prefix, before);
        }
        let ghost at = ops_view(ops@);
        let ghost flat = flushed(at, state.window());
        match &insts[i] {
            HirInst::Move(d) => {
                state.merge_move(*d);
            },
            HirInst::Add(k) => {
                state.merge_add(*k);
            },
            HirInst::Zero => {
                state.merge_zero();
            },
            HirInst::PutByte => {
                state.flush_into(ops);
                ops.push(InterpOp::PutByte);
                assert(ops_view(ops@) =~= flat.push(Op::PutByte));
            },
            HirInst::GetByte => {
                state.flush_into(ops);
                ops.push(InterpOp::GetByte);
                assert(ops_view(ops@) =~= flat.push(Op::GetByte));
            },
            HirInst::LinearMul(factors) => {
                state.flush_into(ops);
                let packed = pack_factors(factors);
                ops.push(InterpOp::LinearMul(Arc::new(LinearMulPlan { factors: packed })));
                assert(ops_view(ops@) =~= flat.push(
                    Op::LinearMul(reduced(factors_view(factors@))),
                ));
            },
            HirInst::LinearMulWithSets { factors, sets } => {
                state.flush_into(ops);
                let packed = pack_factors(factors);
                let packed_sets = pack_sets(sets);
                ops.push(
                    InterpOp::LinearMulWithSets(
                        Arc::new(LinearMulWithSetsPlan { factors: packed, sets: packed_sets }),
                    ),
                );
                assert(ops_view(ops@) =~= flat.push(
                    Op::LinearMulWithSets(reduced(factors_view(factors@)), sets_view(sets@)),
                ));
            },
            HirInst::Scan(dir) => {
                state.flush_into(ops);
                let step: i8 = if *dir > 0 {
                    1
                } else {
                    -1
                };
                ops.push(InterpOp::Scan(step));
                assert(ops_view(ops@) =~= flat.push(Op::Scan(sign(*dir as int))));
            },
            HirInst::Loop(body) => {
                state.flush_into(ops);
                let start: usize = ops.len();
                ops.push(InterpOp::LoopStart { end_pc: 0 });
                let ghost opened = flat.push(Op::LoopStart(0));
                assert(ops_view(ops@) =~= opened);
                lower_block(body, ops);
                let ghost inner = block_ops(hirs_view(body@), opened);
                proof {
                    lemma_block_grows(hirs_view(body@), opened);
                }
                let end: usize = ops.len();
                ops.set(start, InterpOp::LoopStart { end_pc: end as u32 });
                ops.push(InterpOp::LoopEnd { start_pc: start as u32 });
                assert(ops_view(ops@) =~= inner.update(
                    start as int,
                    Op::LoopStart(inner.len() as int),
                ).push(Op::LoopEnd(start as int)));
            },
        }
        i += 1;
    }
    state.flush_into(ops);
}

proof fn lemma_fit_prefix(insts: Seq<Hir>, ops: Seq<Op>, n: int)
    requires
        insts_fit(insts, ops),
        0 <= n <= insts.len(),
    ensures
        insts_fit(insts.take(n), ops),
    decreases insts.len(),
{
    if n < insts.len() {
        lemma_fit_prefix(insts.drop_last(), ops, n);
        assert(insts.drop_last().take(n) =~= insts.take(n));
    } else {
        assert(insts.take(n) =~= insts);
    }
}

/// Whether the operation may stand in a loop that runs as one operation.
fn is_self_contained(op: &InterpOp) -> (b: bool)
    ensures
        b == self_contained(op_view(*op)),
{
    match op {
        InterpOp::PutByte => false,
        InterpOp::GetByte => false,
        InterpOp::LoopStart { .. } => false,
        InterpOp::LoopEnd { .. } => false,
        InterpOp::LoopBlock(_) => false,
        InterpOp::NoOp => false,
        _ => true,
    }
}

/// Whether the operations between `from` and `to` are the body of a loop that
/// runs as one operation.
fn is_loop_block_body(ops: &Vec<InterpOp>, from: usize, to: usize) -> (b: bool)
    requires
        from <= to <= ops@.len(),
    ensures
        b == is_block_body(ops_view(ops@).subrange(from as int, to as int)),
{
    broadcast use group_ops_view;

    let ghost body = ops_view(ops@).subrange(from as int, to as int);
    if to - from < 2 {
        return false;
    }
    let mut i: usize = from;
    while i < to
        invariant
            from <= i <= to <= ops@.len(),
            body == ops_view(ops@).subrange(from as int, to as int),
            forall|j: int| 0 <= j < i - from ==> self_contained(#[trigger] body[j]),
        decreases to - i,
    {
        broadcast use group_ops_view;

        assert(body[i - from] == op_view(ops@[i as int]));
        if !is_self_contained(&ops[i]) {
            return false;
        }
        i += 1;
    }
    true
}

/// Every loop start names a later operation.
pub open spec fn forward(ops: Seq<Op>) -> bool {
    forall|i: int|
        0 <= i < ops.len() ==> (#[trigger] ops[i] matches Op::LoopStart(end) ==> i < end
            < ops.len())
}

/// Make the loop from `start` to `end` one operation.
fn make_block(out: &mut Vec<InterpOp>, start: usize, end: usize)
    requires
        start < end < old(out)@.len(),
        end < u32::MAX,
    ensures
        ops_view(final(out)@) == blocked(ops_view(old(out)@), start as int, end as int),
{
    broadcast use group_ops_view;

    let ghost before = out@;
    let ghost view = ops_view(before);
    let mut body: Vec<InterpOp> = Vec::new();
    let mut j: usize = start + 1;
    while j < end
        invariant
            start < j <= end < before.len(),
            out@.len() == before.len(),
            forall|k: int| 0 <= k < before.len() && !(start < k < j) ==> #[trigger] out@[k] == before[k],
            forall|k: int| start < k < j ==> #[trigger] out@[k] == InterpOp::NoOp,
            body@.len() == j - start - 1,
            forall|k: int| 0 <= k < body@.len() ==> #[trigger] body@[k] == before[k + start + 1],
        decreases end - j,
    {
        let mut op = InterpOp::NoOp;
        out.set_and_swap(j, &mut op);
        body.push(op);
        j += 1;
    }
    assert(ops_view(body@) =~= view.subrange(start + 1, end as int));
    out.set(end, InterpOp::NoOp);
    let plan = LoopBlockPlan { after_pc: (end + 1) as u32, ops: body };
    out.set(start, InterpOp::LoopBlock(Arc::new(plan)));
    let ghost after = ops_view(out@);
    let ghost want = blocked(view, start as int, end as int);
    assert forall|k: int| 0 <= k < before.len() implies #[trigger] after[k] == want[k] by {
        assert(after[k] == op_view(out@[k]));
        assert(view[k] == op_view(before[k]));
    }
    assert(after =~= want);
}

/// Make every loop that holds neither I/O nor a loop one operation.
fn specialize_loop_blocks(ops: Vec<InterpOp>) -> (out: Vec<InterpOp>)
    requires
        forward(ops_view(ops@)),
        forall|i: int|
            0 <= i < ops@.len() ==> (#[trigger] ops_view(ops@)[i] matches Op::LoopStart(end) ==> end
                < u32::MAX),
    ensures
        ops_view(out@) == specialized(ops_view(ops@)),
{
    let ghost goal = specialized(ops_view(ops@));
    let mut out = ops;
    loop
        invariant
            goal == specialized(ops_view(out@)),
            forward(ops_view(out@)),
            forall|i: int|
                0 <= i < out@.len() ==> (#[trigger] ops_view(out@)[i] matches Op::LoopStart(end)
                    ==> end < u32::MAX),
        ensures
            ops_view(out@) == goal,
        decreases starts(ops_view(out@)),
    {
        let ghost round = ops_view(out@);
        let mut changed = false;
        let mut i: usize = 0;
        while i < out.len()
            invariant
                i <= out@.len(),
                forward(ops_view(out@)),
                forall|k: int|
                    0 <= k < out@.len() ==> (#[trigger] ops_view(out@)[k] matches Op::LoopStart(
                        end,
                    ) ==> end < u32::MAX),
                swept(ops_view(out@), i as int) == swept(round, 0),
                !changed ==> ops_view(out@) == round,
                changed ==> starts(ops_view(out@)) < starts(round),
            decreases out@.len() - i,
        {
            broadcast use group_ops_view;

            let ghost now = ops_view(out@);
            assert(now[i as int] == op_view(out@[i as int]));
            let mut step = i + 1;
            if let InterpOp::LoopStart { end_pc } = &out[i] {
                let end = *end_pc as usize;
                assert(i < end < out@.len());
                if is_loop_block_body(&out, i + 1, end) {
                    assert(blockable(now, i as int));
                    make_block(&mut out, i, end);
                    changed = true;
                    step = end + 1;
                    proof {
                        let next = blocked(now, i as int, end as int);
                        assert(ops_view(out@) == next);
                        assert(now[i as int] is LoopStart && !(next[i as int] is LoopStart));
                        lemma_fewer_starts(now, next);
                        assert forall|k: int| 0 <= k < next.len() implies (
                        #[trigger] next[k] matches Op::LoopStart(e) ==> k < e < next.len() && e
                            < u32::MAX) by {
                            if next[k] is LoopStart {
                                assert(now[k] == next[k]);
                            }
                        }
                    }
                }
            }
            i = step;
        }
        proof {
            broadcast use group_ops_view;

            assert(swept(ops_view(out@), i as int) == ops_view(out@));
            assert(changed ==> swept(round, 0) != round);
        }
        if !changed {
            break;
        }
    }
    out
}

/// Every loop's ends name each other.
pub open spec fn paired(ops: Seq<Op>) -> bool {
    &&& forall|i: int|
        0 <= i < ops.len() ==> (#[trigger] ops[i] matches Op::LoopStart(end) ==> i < end < ops.len()
            && ops[end] == Op::LoopEnd(i))
    &&& forall|i: int|
        0 <= i < ops.len() ==> (#[trigger] ops[i] matches Op::LoopEnd(start) ==> 0 <= start < i
            && ops[start] == Op::LoopStart(i))
}

/// The operation is no end of a loop.
spec fn no_jump(op: Op) -> bool {
    !(op is LoopStart || op is LoopEnd)
}

/// Fusing changes only the end.
pub proof fn lemma_fused(ops: Seq<Op>)
    ensures
        fused(ops).len() <= ops.len(),
        forall|i: int|
            0 <= i < fused(ops).len() ==> #[trigger] fused(ops)[i] == ops[i]
                || fused(ops)[i] is MoveAdd || fused(ops)[i] is ZeroMove,
{
}

proof fn lemma_plain_form_has_no_jumps(raw: Seq<Linear>)
    ensures
        forall|i: int| 0 <= i < plain_form(raw).len() ==> no_jump(#[trigger] plain_form(raw)[i]),
    decreases raw.len(),
{
    if raw.len() > 0 {
        lemma_plain_form_has_no_jumps(raw.drop_last());
        let front = plain_form(raw.drop_last());
        match raw.last() {
            Linear::Move(d) => {
                lemma_fused(front.push(Op::Move(d)));
            },
            Linear::Add(delta) => {
                lemma_fused(front.push(Op::Add(delta)));
            },
            Linear::Zero => {},
        }
    }
}

proof fn lemma_window_has_no_jumps(raw: Seq<Linear>)
    ensures
        forall|i: int| 0 <= i < window_ops(raw).len() ==> no_jump(#[trigger] window_ops(raw)[i]),
{
    lemma_plain_form_has_no_jumps(raw);
}

proof fn lemma_append_has_no_jumps(ops: Seq<Op>, more: Seq<Op>)
    requires
        ops.len() == 0 || self_standing(ops.last()),
        forall|i: int| 0 <= i < more.len() ==> no_jump(#[trigger] more[i]),
    ensures
        appended(ops, more).len() >= ops.len(),
        forall|i: int|
            ops.len() <= i < appended(ops, more).len() ==> no_jump(#[trigger] appended(ops, more)[i]),
    decreases more.len(),
{
    if more.len() > 0 {
        assert forall|i: int| 0 <= i < more.len() - 1 implies no_jump(
            #[trigger] more.drop_last()[i],
        ) by {
            assert(no_jump(more[i]));
        }
        lemma_append_has_no_jumps(ops, more.drop_last());
        lemma_fused(appended(ops, more.drop_last()).push(more.last()));
        lemma_append_grows(ops, more.drop_last());
        assert(no_jump(more[more.len() - 1]));
    }
}

/// The ends of the loops from `base` on name each other.
pub open spec fn paired_from(ops: Seq<Op>, base: int) -> bool {
    &&& forall|i: int|
        base <= i < ops.len() ==> (#[trigger] ops[i] matches Op::LoopStart(end) ==> i < end
            < ops.len() && ops[end] == Op::LoopEnd(i))
    &&& forall|i: int|
        base <= i < ops.len() ==> (#[trigger] ops[i] matches Op::LoopEnd(start) ==> base <= start
            < i && ops[start] == Op::LoopStart(i))
}

proof fn lemma_flush_paired(done: Seq<Op>, raw: Seq<Linear>, base: int)
    requires
        0 <= base <= done.len(),
        done.len() == 0 || self_standing(done.last()),
        paired_from(done, base),
    ensures
        paired_from(flushed(done, raw), base),
{
    lemma_window_has_no_jumps(raw);
    lemma_append_has_no_jumps(done, window_ops(raw));
    lemma_flush_grows(done, raw);
    let all = flushed(done, raw);
    assert forall|i: int| base <= i < all.len() implies (#[trigger] all[i] matches Op::LoopStart(
        end,
    ) ==> i < end < all.len() && all[end] == Op::LoopEnd(i)) by {
        if i < done.len() {
            assert(all[i] == done[i]);
            if let Op::LoopStart(end) = done[i] {
                assert(all[end] == done[end]);
            }
        }
    }
    assert forall|i: int| base <= i < all.len() implies (#[trigger] all[i] matches Op::LoopEnd(
        start,
    ) ==> base <= start < i && all[start] == Op::LoopStart(i)) by {
        if i < done.len() {
            assert(all[i] == done[i]);
            if let Op::LoopEnd(start) = done[i] {
                assert(all[start] == done[start]);
            }
        }
    }
}

pub proof fn lemma_block_paired(insts: Seq<Hir>, ops: Seq<Op>)
    requires
        ops.len() == 0 || self_standing(ops.last()),
    ensures
        paired_from(block_state(insts, ops).0, ops.len() as int),
        paired_from(block_ops(insts, ops), ops.len() as int),
    decreases insts,
{
    let base = ops.len() as int;
    lemma_block_grows(insts, ops);
    if insts.len() > 0 {
        let (done, raw) = block_state(insts.drop_last(), ops);
        lemma_block_paired(insts.drop_last(), ops);
        lemma_block_grows(insts.drop_last(), ops);
        lemma_flush_paired(done, raw, base);
        lemma_flush_grows(done, raw);
        let start = flushed(done, raw);
        match insts.last() {
            Hir::Loop(body) => {
                let s = start.len() as int;
                let opened = start.push(Op::LoopStart(0));
                lemma_block_paired(body, opened);
                lemma_block_grows(body, opened);
                let inner = block_ops(body, opened);
                let e = inner.len() as int;
                let all = inner.update(s, Op::LoopStart(e)).push(Op::LoopEnd(s));
                assert forall|i: int| base <= i < all.len() implies (
                #[trigger] all[i] matches Op::LoopStart(end) ==> i < end < all.len() && all[end]
                    == Op::LoopEnd(i)) by {
                    if i < s {
                        assert(inner[i] == opened[i]);
                        if let Op::LoopStart(end) = start[i] {
                            assert(inner[end] == opened[end]);
                        }
                    } else if s < i < e {
                        assert(inner[i] == all[i]);
                    }
                }
                assert forall|i: int| base <= i < all.len() implies (
                #[trigger] all[i] matches Op::LoopEnd(st) ==> base <= st < i && all[st]
                    == Op::LoopStart(i)) by {
                    if i < s {
                        assert(inner[i] == opened[i]);
                        if let Op::LoopEnd(st) = start[i] {
                            assert(inner[st] == opened[st]);
                        }
                    } else if s < i < e {
                        assert(inner[i] == all[i]);
                    }
                }
                assert(block_state(insts, ops).0 == all);
            },
            _ => {
                let all = block_state(insts, ops).0;
                if insts.last() is Move || insts.last() is Add || insts.last() is Zero {
                    assert(all == done);
                } else {
                    assert(all.len() == start.len() + 1);
                    assert(no_jump(all[all.len() - 1]));
                    assert forall|i: int| base <= i < all.len() implies (
                    #[trigger] all[i] matches Op::LoopStart(end) ==> i < end < all.len()
                        && all[end] == Op::LoopEnd(i)) by {
                        if i < start.len() {
                            assert(start[i] == all[i]);
                        }
                    }
                    assert forall|i: int| base <= i < all.len() implies (
                    #[trigger] all[i] matches Op::LoopEnd(st) ==> base <= st < i && all[st]
                        == Op::LoopStart(i)) by {
                        if i < start.len() {
                            assert(start[i] == all[i]);
                        }
                    }
                }
            },
        }
    }
    let (done, raw) = block_state(insts, ops);
    lemma_flush_paired(done, raw, base);
}

/// The loop starts of a block that fits name indices below `u32::MAX`.
proof fn lemma_block_ends_fit(insts: Seq<Hir>, ops: Seq<Op>)
    requires
        ops.len() == 0 || self_standing(ops.last()),
        insts_fit(insts, ops),
    ensures
        ends_fit(block_state(insts, ops).0, ops.len() as int),
        ends_fit(block_ops(insts, ops), ops.len() as int),
    decreases insts,
{
    let base = ops.len() as int;
    lemma_block_grows(insts, ops);
    if insts.len() > 0 {
        let (done, raw) = block_state(insts.drop_last(), ops);
        lemma_block_ends_fit(insts.drop_last(), ops);
        lemma_block_grows(insts.drop_last(), ops);
        lemma_flush_ends_fit(done, raw, base);
        lemma_flush_grows(done, raw);
        let start = flushed(done, raw);
        match insts.last() {
            Hir::Loop(body) => {
                let opened = start.push(Op::LoopStart(0));
                assert(block_fits(body, opened));
                lemma_block_ends_fit(body, opened);
                lemma_block_grows(body, opened);
                let inner = block_ops(body, opened);
                assert forall|i: int| base <= i < block_state(insts, ops).0.len() implies (
                #[trigger] block_state(insts, ops).0[i] matches Op::LoopStart(end) ==> end
                    < u32::MAX) by {
                    if i < start.len() {
                        assert(inner[i] == opened[i]);
                        assert(start[i] == opened[i]);
                    } else if start.len() < i < inner.len() {
                        assert(inner[i] == block_state(insts, ops).0[i]);
                    }
                }
            },
            _ => {
                let all = block_state(insts, ops).0;
                if insts.last() is Move || insts.last() is Add || insts.last() is Zero {
                    assert(all == done);
                } else {
                    assert forall|i: int| base <= i < all.len() implies (
                    #[trigger] all[i] matches Op::LoopStart(end) ==> end < u32::MAX) by {
                        if i < start.len() {
                            assert(start[i] == all[i]);
                        }
                    }
                }
            },
        }
    }
    let (done, raw) = block_state(insts, ops);
    lemma_flush_ends_fit(done, raw, base);
}

/// The loop starts from `base` on name indices below `u32::MAX`.
spec fn ends_fit(ops: Seq<Op>, base: int) -> bool {
    forall|i: int|
        base <= i < ops.len() ==> (#[trigger] ops[i] matches Op::LoopStart(end) ==> end < u32::MAX)
}

proof fn lemma_flush_ends_fit(done: Seq<Op>, raw: Seq<Linear>, base: int)
    requires
        0 <= base <= done.len(),
        done.len() == 0 || self_standing(done.last()),
        ends_fit(done, base),
    ensures
        ends_fit(flushed(done, raw), base),
{
    lemma_window_has_no_jumps(raw);
    lemma_append_has_no_jumps(done, window_ops(raw));
    lemma_flush_grows(done, raw);
    let all = flushed(done, raw);
    assert forall|i: int| base <= i < all.len() implies (#[trigger] all[i] matches Op::LoopStart(
        end,
    ) ==> end < u32::MAX) by {
        if i < done.len() {
            assert(all[i] == done[i]);
        }
    }
}

/// Whether a loop that runs as one operation is in order at `i`: its body does
/// no I/O and no jump, it keeps the places of the loop that it stands for, and
/// goes on right behind them.
pub open spec fn block_in_order(ops: Seq<Op>, i: int) -> bool {
    ops[i] matches Op::LoopBlock(after, body) ==> {
        &&& is_block_body(body)
        &&& after == i + body.len() + 2
        &&& after <= ops.len()
        &&& forall|j: int| i < j < after ==> #[trigger] ops[j] is NoOp
    }
}

/// Every loop that runs as one operation is in order.
pub open spec fn blocks_in_order(ops: Seq<Op>) -> bool {
    forall|i: int| 0 <= i < ops.len() ==> #[trigger] block_in_order(ops, i)
}

/// Making a loop one operation keeps the order of the others.
pub proof fn lemma_blocked_in_order(ops: Seq<Op>, i: int)
    requires
        paired(ops),
        blocks_in_order(ops),
        blockable(ops, i),
    ensures
        paired(blocked(ops, i, ops[i]->LoopStart_0)),
        blocks_in_order(blocked(ops, i, ops[i]->LoopStart_0)),
{
    let end = ops[i]->LoopStart_0;
    let next = blocked(ops, i, end);
    let body = ops.subrange(i + 1, end);
    assert(ops[end] == Op::LoopEnd(i));
    assert forall|k: int| i < k < end implies self_contained(#[trigger] ops[k]) by {
        assert(body[k - i - 1] == ops[k]);
    }
    assert forall|k: int| 0 <= k < next.len() implies (
    #[trigger] next[k] matches Op::LoopStart(e) ==> k < e < next.len() && next[e]
        == Op::LoopEnd(k)) by {
        if next[k] is LoopStart {
            assert(ops[k] == next[k]);
            let e = ops[k]->LoopStart_0;
            assert(ops[e] == Op::LoopEnd(k));
        }
    }
    assert forall|k: int| 0 <= k < next.len() implies (
    #[trigger] next[k] matches Op::LoopEnd(st) ==> 0 <= st < k && next[st]
        == Op::LoopStart(k)) by {
        if next[k] is LoopEnd {
            assert(ops[k] == next[k]);
            let st = ops[k]->LoopEnd_0;
            assert(ops[st] == Op::LoopStart(k));
        }
    }
    assert forall|k: int| 0 <= k < next.len() implies #[trigger] block_in_order(next, k) by {
        assert(block_in_order(ops, k));
        if k == i {
            assert(body.len() == end - i - 1);
        } else if next[k] is LoopBlock {
            assert(ops[k] == next[k]);
            let after = ops[k]->LoopBlock_0;
            if k < i {
                assert(after <= i) by {
                    if after > i {
                        assert(ops[i] is NoOp);
                    }
                }
            }
            assert forall|j: int| k < j < after implies #[trigger] next[j] is NoOp by {
                assert(ops[j] is NoOp);
            }
        }
    }
}

pub proof fn lemma_sweep_keeps_order(ops: Seq<Op>, i: int)
    requires
        0 <= i,
        paired(ops),
        blocks_in_order(ops),
    ensures
        paired(swept(ops, i)),
        blocks_in_order(swept(ops, i)),
    decreases ops.len() - i,
{
    if i < ops.len() {
        if blockable(ops, i) {
            let end = ops[i]->LoopStart_0;
            let next = blocked(ops, i, end);
            lemma_blocked_in_order(ops, i);
            lemma_sweep_keeps_order(next, end + 1);
        } else {
            lemma_sweep_keeps_order(ops, i + 1);
        }
    }
}

proof fn lemma_specialized_in_order(ops: Seq<Op>)
    requires
        paired(ops),
        blocks_in_order(ops),
    ensures
        paired(specialized(ops)),
        blocks_in_order(specialized(ops)),
    decreases starts(ops),
{
    if swept(ops, 0) != ops {
        lemma_sweep_shrinks(ops, 0);
        lemma_sweep_keeps_order(ops, 0);
        lemma_specialized_in_order(swept(ops, 0));
    }
}

/// In the bytecode of every program, the ends of each loop name each other.
/// Each loop that runs as one operation has a body without I/O and jumps, and
/// goes on behind the places of the loop that it stands for.
pub proof fn law_bytecode_is_in_order(insts: Seq<Hir>)
    ensures
        paired(bytecode(insts)),
        blocks_in_order(bytecode(insts)),
{
    let ops = block_ops(insts, Seq::empty());
    lemma_block_paired(insts, Seq::empty());
    lemma_block_has_no_blocks(insts, Seq::empty());
    assert(paired(ops));
    assert forall|i: int| 0 <= i < ops.len() implies #[trigger] block_in_order(ops, i) by {
        assert(!(ops[i] is LoopBlock));
    }
    lemma_specialized_in_order(ops);
}

/// Only the last step makes loops one operation.
pub proof fn lemma_block_has_no_blocks(insts: Seq<Hir>, ops: Seq<Op>)
    requires
        ops.len() == 0 || self_standing(ops.last()),
        forall|i: int| 0 <= i < ops.len() ==> !(#[trigger] ops[i] is LoopBlock),
    ensures
        forall|i: int|
            0 <= i < block_state(insts, ops).0.len() ==> !(#[trigger] block_state(
                insts,
                ops,
            ).0[i] is LoopBlock),
        forall|i: int|
            0 <= i < block_ops(insts, ops).len() ==> !(#[trigger] block_ops(
                insts,
                ops,
            )[i] is LoopBlock),
    decreases insts,
{
    if insts.len() > 0 {
        let (done, raw) = block_state(insts.drop_last(), ops);
        lemma_block_has_no_blocks(insts.drop_last(), ops);
        lemma_flush_has_no_blocks(done, raw);
        let start = flushed(done, raw);
        match insts.last() {
            Hir::Loop(body) => {
                lemma_block_has_no_blocks(body, start.push(Op::LoopStart(0)));
            },
            _ => {},
        }
        let all = block_state(insts, ops).0;
        assert forall|i: int| 0 <= i < all.len() implies !(#[trigger] all[i] is LoopBlock) by {
            assert(i < start.len() ==> !(start[i] is LoopBlock));
            assert(i < done.len() ==> !(done[i] is LoopBlock));
            if let Hir::Loop(body) = insts.last() {
                let inner = block_ops(body, start.push(Op::LoopStart(0)));
                lemma_block_grows(body, start.push(Op::LoopStart(0)));
                assert(i < inner.len() ==> !(inner[i] is LoopBlock));
            }
        }
    }
    let (done, raw) = block_state(insts, ops);
    lemma_flush_has_no_blocks(done, raw);
}

proof fn lemma_flush_has_no_blocks(done: Seq<Op>, raw: Seq<Linear>)
    requires
        forall|i: int| 0 <= i < done.len() ==> !(#[trigger] done[i] is LoopBlock),
    ensures
        forall|i: int|
            0 <= i < flushed(done, raw).len() ==> !(#[trigger] flushed(done, raw)[i] is LoopBlock),
{
    lemma_plain_form_has_no_blocks(raw);
    lemma_append_has_no_blocks(done, window_ops(raw));
}

proof fn lemma_plain_form_has_no_blocks(raw: Seq<Linear>)
    ensures
        forall|i: int|
            0 <= i < plain_form(raw).len() ==> !(#[trigger] plain_form(raw)[i] is LoopBlock),
    decreases raw.len(),
{
    if raw.len() > 0 {
        lemma_plain_form_has_no_blocks(raw.drop_last());
        let front = plain_form(raw.drop_last());
        match raw.last() {
            Linear::Move(d) => {
                lemma_fused(front.push(Op::Move(d)));
            },
            Linear::Add(delta) => {
                lemma_fused(front.push(Op::Add(delta)));
            },
            Linear::Zero => {},
        }
    }
}

proof fn lemma_append_has_no_blocks(ops: Seq<Op>, more: Seq<Op>)
    requires
        forall|i: int| 0 <= i < ops.len() ==> !(#[trigger] ops[i] is LoopBlock),
        forall|i: int| 0 <= i < more.len() ==> !(#[trigger] more[i] is LoopBlock),
    ensures
        forall|i: int|
            0 <= i < appended(ops, more).len() ==> !(#[trigger] appended(ops, more)[i] is LoopBlock),
    decreases more.len(),
{
    if more.len() > 0 {
        assert forall|i: int| 0 <= i < more.len() - 1 implies !(
        #[trigger] more.drop_last()[i] is LoopBlock) by {
            assert(!(more[i] is LoopBlock));
        }
        lemma_append_has_no_blocks(ops, more.drop_last());
        lemma_fused(appended(ops, more.drop_last()).push(more.last()));
        assert(!(more[more.len() - 1] is LoopBlock));
    }
}

/// Lower a program to bytecode.
pub fn lower_hir_to_bytecode(program: &HirProgram) -> (r: InterpProgram)
    requires
        block_fits(hirs_view(program.insts@), Seq::empty()),
    ensures
        ops_view(r.ops@) == bytecode(hirs_view(program.insts@)),
{
    let mut ops: Vec<InterpOp> = Vec::new();
    assert(ops_view(ops@) =~= Seq::<Op>::empty());
    lower_block(&program.insts, &mut ops);
    proof {
        broadcast use lemma_ops_len;

        let flat = block_ops(hirs_view(program.insts@), Seq::empty());
        lemma_block_paired(hirs_view(program.insts@), Seq::empty());
        lemma_block_ends_fit(hirs_view(program.insts@), Seq::empty());
        assert(ops_view(ops@) == flat);
        assert(forward(flat));
    }
    InterpProgram { ops: specialize_loop_blocks(ops) }
}

} // verus!
