//! The LIR of a loop does what its bytecode does.

use vstd::prelude::*;

use crate::interp::bytecode::Op;
use crate::interp::jit_compile::{
    lemma_labels_grow, lemma_loop_end, loop_end, loop_lir, looped, ops_lir, plain_lir,
};
use crate::interp::machine::{loaded, step, steps, Config, Frame, Source, St};
use crate::ir::lir::Lir;
use crate::ir::lir_meaning::{
    labels_in_order, lemma_order_join, lemma_place, lemma_run_add, lemma_run_one, lir_run, single,
    stands_at,
};

verus! {

/// The loops among the operations from `from` to `to` lie in each other, and their
/// jumps lead to each other's places. `outer` tells whether the operations stand in
/// the program itself.
pub open spec fn nested(ops: Seq<Op>, from: int, to: int, outer: bool) -> bool
    decreases ops, to - from,
{
    if from < 0 || from >= to || to > ops.len() {
        from == to
    } else {
        match ops[from] {
            Op::LoopStart(target) => {
                let end = loop_end(ops, from + 1, to, 1);
                proof {
                    lemma_loop_end(ops, from + 1, to, 1);
                }
                &&& end < to
                &&& target == end
                &&& ops[end] == Op::LoopEnd(from)
                &&& nested(ops, from + 1, end, outer)
                &&& nested(ops, end + 1, to, outer)
            },
            Op::LoopEnd(_) => false,
            Op::LoopBlock(after, body) => {
                &&& outer ==> after == from + 1
                &&& nested(body, 0, body.len() as int, false)
                &&& nested(ops, from + 1, to, outer)
            },
            _ => nested(ops, from + 1, to, outer),
        }
    }
}

/// A loop with the given body, as a program.
pub open spec fn loop_around(body: Seq<Op>) -> Seq<Op> {
    seq![Op::LoopStart(body.len() as int + 1)] + body + seq![Op::LoopEnd(0)]
}

/// A machine that has halted stays so.
proof fn lemma_stays_halted(c: Config, source: Source, n: nat)
    requires
        c.halted(),
    ensures
        steps(c, source, n) == c,
    decreases n,
{
    if n > 0 {
        lemma_stays_halted(c, source, (n - 1) as nat);
    }
}

proof fn lemma_steps_add(c: Config, source: Source, a: nat, b: nat)
    ensures
        steps(c, source, a + b) == steps(steps(c, source, a), source, b),
    decreases a,
{
    if a > 0 {
        lemma_steps_add(step(c, source(c.st.reads)), source, (a - 1) as nat, b);
        assert((a + b - 1) as nat == (a - 1) as nat + b);
    }
}

/// The labels of compiled operations are in order.
proof fn lemma_order(ops: Seq<Op>, from: int, to: int, next: int)
    ensures
        labels_in_order(ops_lir(ops, from, to, next).0, next, ops_lir(ops, from, to, next).1),
        next <= ops_lir(ops, from, to, next).1,
    decreases ops, to - from,
{
    lemma_labels_grow(ops, from, to, next);
    if 0 <= from < to <= ops.len() {
        match ops[from] {
            Op::LoopStart(_) => {
                let end = loop_end(ops, from + 1, to, 1);
                lemma_loop_end(ops, from + 1, to, 1);
                lemma_order(ops, from + 1, end, next + 2);
                let inner = ops_lir(ops, from + 1, end, next + 2);
                lemma_order_looped(inner.0, next, inner.1);
                if end < to {
                    lemma_order(ops, end + 1, to, inner.1);
                    let rest = ops_lir(ops, end + 1, to, inner.1);
                    lemma_order_join(looped(next, inner.0), rest.0, next, inner.1, rest.1);
                } else {
                    assert(looped(next, inner.0) + Seq::<Lir>::empty() =~= looped(next, inner.0));
                }
            },
            Op::LoopBlock(_, body) => {
                let len = body.len() as int;
                lemma_order(body, 0, len, next + 2);
                let inner = ops_lir(body, 0, len, next + 2);
                lemma_order_looped(inner.0, next, inner.1);
                lemma_order(ops, from + 1, to, inner.1);
                let rest = ops_lir(ops, from + 1, to, inner.1);
                lemma_order_join(looped(next, inner.0), rest.0, next, inner.1, rest.1);
            },
            op => {
                lemma_order(ops, from + 1, to, next);
                let rest = ops_lir(ops, from + 1, to, next);
                let front = plain_lir(op);
                assert(labels_in_order(front, next, next));
                lemma_order_join(front, rest.0, next, next, rest.1);
            },
        }
    }
}

/// The labels of a loop are in order.
proof fn lemma_order_looped(inner: Seq<Lir>, next: int, top: int)
    requires
        labels_in_order(inner, next + 2, top),
        next + 2 <= top,
    ensures
        labels_in_order(looped(next, inner), next, top),
{
    let all = looped(next, inner);
    let n = inner.len() as int;
    assert(all[0] == Lir::Label(next));
    assert(all[1] == Lir::JumpIfZero(next + 1));
    assert(all[n + 2] == Lir::JumpIfNonZero(next));
    assert(all[n + 3] == Lir::Label(next + 1));
    assert(all.len() == n + 4);
    assert forall|i: int| 2 <= i < n + 2 implies #[trigger] all[i] == inner[i - 2] by {}
    assert forall|i: int| 0 <= i < all.len() implies (#[trigger] all[i] matches Lir::Label(l)
        ==> next <= l < top) by {
        if 2 <= i < n + 2 {
            assert(all[i] == inner[i - 2]);
        }
    }
    assert forall|i: int, j: int|
        0 <= i < j < all.len() && #[trigger] all[i] is Label
            && #[trigger] all[j] is Label implies all[i]->Label_0 != all[j]->Label_0 by {
        if 2 <= i < n + 2 {
            assert(inner[i - 2] is Label);
        }
        if 2 <= j < n + 2 {
            assert(inner[j - 2] is Label);
        }
    }
}

/// A machine inside some frames.
spec fn inside(rest: Seq<Frame>, ops: Seq<Op>, pc: int, s: St) -> Config {
    Config { frames: rest.push(Frame { ops, pc }), st: s }
}

/// A step of a machine inside some frames.
proof fn lemma_one(rest: Seq<Frame>, ops: Seq<Op>, pc: int, s: St, source: Source, n: nat)
    requires
        steps(inside(rest, ops, pc, s), source, n).halted(),
    ensures
        n > 0,
        steps(inside(rest, ops, pc, s), source, n) == steps(
            step(inside(rest, ops, pc, s), source(s.reads)),
            source,
            (n - 1) as nat,
        ),
        steps(inside(rest, ops, pc, s), source, 1) == step(
            inside(rest, ops, pc, s),
            source(s.reads),
        ),
        forall|p: int, t: St| #[trigger]
            inside(rest, ops, pc, s).at(p, t) == inside(rest, ops, p, t),
        rest.push(Frame { ops, pc }).drop_last() == rest,
{
    let c = inside(rest, ops, pc, s);
    assert(c.frames.drop_last() =~= rest);
    reveal_with_fuel(steps, 2);
    assert forall|p: int, t: St| #[trigger] c.at(p, t) == inside(rest, ops, p, t) by {
        assert(c.at(p, t).frames =~= inside(rest, ops, p, t).frames);
    }
}

/// What running operations and their LIR comes to: where the machine is and after how
/// many steps, and how many steps the LIR takes.
struct Met {
    s: St,
    n: nat,
    m: nat,
}

/// Both runs have met: the machine at `to`, the LIR behind its code.
spec fn met(
    start: Config,
    rest: Seq<Frame>,
    ops: Seq<Op>,
    to: int,
    all: Seq<Lir>,
    q: int,
    q2: int,
    s: St,
    source: Source,
    n: nat,
    r: Met,
) -> bool {
    &&& r.n <= n
    &&& steps(start, source, r.n) == inside(rest, ops, to, r.s)
    &&& steps(inside(rest, ops, to, r.s), source, (n - r.n) as nat).halted()
    &&& lir_run(all, q, s, source, r.m) == (q2, r.s)
}

/// One run behind another.
proof fn lemma_met(
    start: Config,
    mid: Config,
    rest: Seq<Frame>,
    ops: Seq<Op>,
    to: int,
    all: Seq<Lir>,
    q: int,
    q1: int,
    q2: int,
    s: St,
    s1: St,
    source: Source,
    n: nat,
    a: nat,
    b: nat,
    r: Met,
) -> (w: Met)
    requires
        a <= n,
        steps(start, source, a) == mid,
        lir_run(all, q, s, source, b) == (q1, s1),
        met(mid, rest, ops, to, all, q1, q2, s1, source, (n - a) as nat, r),
    ensures
        met(start, rest, ops, to, all, q, q2, s, source, n, w),
        w.n == a + r.n,
        w.s == r.s,
{
    lemma_steps_add(start, source, a, r.n);
    lemma_run_add(all, q, s, source, b, r.m);
    Met { s: r.s, n: a + r.n, m: b + r.m }
}

/// Operations and their LIR meet behind them, where the machine halts at last.
#[verifier::rlimit(60)]
proof fn lemma_region(
    rest: Seq<Frame>,
    ops: Seq<Op>,
    from: int,
    to: int,
    next: int,
    all: Seq<Lir>,
    q: int,
    s: St,
    source: Source,
    n: nat,
) -> (r: Met)
    requires
        single(all),
        0 <= from <= to <= ops.len(),
        nested(ops, from, to, rest.len() == 0),
        stands_at(all, q, ops_lir(ops, from, to, next).0),
        steps(inside(rest, ops, from, s), source, n).halted(),
    ensures
        met(
            inside(rest, ops, from, s),
            rest,
            ops,
            to,
            all,
            q,
            q + ops_lir(ops, from, to, next).0.len(),
            s,
            source,
            n,
            r,
        ),
    decreases n, ops, to - from,
{
    let c = inside(rest, ops, from, s);
    let piece = ops_lir(ops, from, to, next).0;
    if from == to {
        Met { s, n: 0, m: 0 }
    } else {
        lemma_one(rest, ops, from, s, source, n);
        let less = (n - 1) as nat;
        let top = c.top();
        assert(top == Frame { ops, pc: from });
        match ops[from] {
            Op::LoopStart(target) => {
                let end = loop_end(ops, from + 1, to, 1);
                lemma_loop_end(ops, from + 1, to, 1);
                let inner = ops_lir(ops, from + 1, end, next + 2);
                let tail = ops_lir(ops, end + 1, to, inner.1);
                let loop_ = looped(next, inner.0);
                let len = loop_.len() as int;
                assert(stands_at(all, q, loop_)) by {
                    assert forall|k: int| 0 <= k < loop_.len() implies all[q + k]
                        == #[trigger] loop_[k] by {
                        assert(piece[k] == loop_[k]);
                    }
                }
                assert(stands_at(all, q + len, tail.0)) by {
                    assert forall|k: int| 0 <= k < tail.0.len() implies all[q + len + k]
                        == #[trigger] tail.0[k] by {
                        assert(piece[len + k] == tail.0[k]);
                        assert(all[q + (len + k)] == piece[len + k]);
                    }
                }
                let a = lemma_loop(rest, ops, from, end, next, all, q, s, source, n);
                let left = (n - a.n) as nat;
                assert(a.n > 0);
                let b = lemma_region(
                    rest,
                    ops,
                    end + 1,
                    to,
                    inner.1,
                    all,
                    q + len,
                    a.s,
                    source,
                    left,
                );
                lemma_met(
                    c,
                    inside(rest, ops, end + 1, a.s),
                    rest,
                    ops,
                    to,
                    all,
                    q,
                    q + len,
                    q + piece.len(),
                    s,
                    a.s,
                    source,
                    n,
                    a.n,
                    a.m,
                    b,
                )
            },
            Op::LoopBlock(after, body) => {
                let inner = ops_lir(body, 0, body.len() as int, next + 2);
                let tail = ops_lir(ops, from + 1, to, inner.1);
                let loop_ = looped(next, inner.0);
                let len = loop_.len() as int;
                assert(stands_at(all, q, loop_)) by {
                    assert forall|k: int| 0 <= k < loop_.len() implies all[q + k]
                        == #[trigger] loop_[k] by {
                        assert(piece[k] == loop_[k]);
                    }
                }
                assert(stands_at(all, q + len, tail.0)) by {
                    assert forall|k: int| 0 <= k < tail.0.len() implies all[q + len + k]
                        == #[trigger] tail.0[k] by {
                        assert(piece[len + k] == tail.0[k]);
                        assert(all[q + (len + k)] == piece[len + k]);
                    }
                }
                let a = lemma_block(rest, ops, from, after, body, next, all, q, s, source, n);
                let left = (n - a.n) as nat;
                assert(a.n > 0);
                let b = lemma_region(
                    rest,
                    ops,
                    from + 1,
                    to,
                    inner.1,
                    all,
                    q + len,
                    a.s,
                    source,
                    left,
                );
                lemma_met(
                    c,
                    inside(rest, ops, from + 1, a.s),
                    rest,
                    ops,
                    to,
                    all,
                    q,
                    q + len,
                    q + piece.len(),
                    s,
                    a.s,
                    source,
                    n,
                    a.n,
                    a.m,
                    b,
                )
            },
            Op::Scan(dir) => {
                let tail = ops_lir(ops, from + 1, to, next).0;
                assert(piece[0] == Lir::Scan(dir));
                assert(all[q + 0] == piece[0]);
                lemma_run_one(all, q, s, source);
                if s.cell() == 0 {
                    assert forall|k: int| 0 <= k < tail.len() implies all[q + 1 + k]
                        == #[trigger] tail[k] by {
                        assert(piece[1 + k] == tail[k]);
                        assert(all[q + (1 + k)] == piece[1 + k]);
                    }
                    let b = lemma_region(rest, ops, from + 1, to, next, all, q + 1, s, source, less);
                    lemma_met(
                        c,
                        inside(rest, ops, from + 1, s),
                        rest,
                        ops,
                        to,
                        all,
                        q,
                        q + 1,
                        q + piece.len(),
                        s,
                        s,
                        source,
                        n,
                        1,
                        1,
                        b,
                    )
                } else {
                    let t = s.moved(dir);
                    let b = lemma_region(rest, ops, from, to, next, all, q, t, source, less);
                    lemma_met(
                        c,
                        inside(rest, ops, from, t),
                        rest,
                        ops,
                        to,
                        all,
                        q,
                        q,
                        q + piece.len(),
                        s,
                        t,
                        source,
                        n,
                        1,
                        1,
                        b,
                    )
                }
            },
            op => {
                let tail = ops_lir(ops, from + 1, to, next).0;
                let front = plain_lir(op);
                let len = front.len() as int;
                assert forall|k: int| 0 <= k < len implies all[q + k] == #[trigger] front[k] by {
                    assert(piece[k] == front[k]);
                }
                assert forall|k: int| 0 <= k < tail.len() implies all[q + len + k]
                    == #[trigger] tail[k] by {
                    assert(piece[len + k] == tail[k]);
                    assert(all[q + (len + k)] == piece[len + k]);
                }
                let t = step(c, source(s.reads)).st;
                let m = lemma_plain(op, all, q, s, source, rest.len() == 0);
                let b = lemma_region(rest, ops, from + 1, to, next, all, q + len, t, source, less);
                lemma_met(
                    c,
                    inside(rest, ops, from + 1, t),
                    rest,
                    ops,
                    to,
                    all,
                    q,
                    q + len,
                    q + piece.len(),
                    s,
                    t,
                    source,
                    n,
                    1,
                    m,
                    b,
                )
            },
        }
    }
}

/// The LIR of an operation that is no loop and no search does what the operation
/// does.
proof fn lemma_plain(op: Op, all: Seq<Lir>, q: int, s: St, source: Source, outer: bool) -> (m: nat)
    requires
        !(op is LoopStart || op is LoopEnd || op is LoopBlock || op is Scan),
        stands_at(all, q, plain_lir(op)),
    ensures
        lir_run(all, q, s, source, m) == (
            q + plain_lir(op).len(),
            crate::interp::machine::turn(op, s, source(s.reads), outer).1,
        ),
{
    let front = plain_lir(op);
    if front.len() > 0 {
        assert(all[q + 0] == front[0]);
        lemma_run_one(all, q, s, source);
        let (p, t) = lir_run(all, q, s, source, 1);
        if front.len() == 2 {
            assert(all[q + 1] == front[1]);
            lemma_run_one(all, q + 1, t, source);
            lemma_run_add(all, q, s, source, 1, 1);
            2
        } else {
            1
        }
    } else {
        0
    }
}

/// The places of a loop's code.
spec fn loop_places(all: Seq<Lir>, q: int, next: int, inner: Seq<Lir>) -> bool {
    let n = inner.len() as int;
    &&& 0 <= q
    &&& q + n + 4 <= all.len()
    &&& all[q] == Lir::Label(next)
    &&& all[q + 1] == Lir::JumpIfZero(next + 1)
    &&& all[q + 2 + n] == Lir::JumpIfNonZero(next)
    &&& all[q + 3 + n] == Lir::Label(next + 1)
    &&& stands_at(all, q + 2, inner)
}

proof fn lemma_loop_places(all: Seq<Lir>, q: int, next: int, inner: Seq<Lir>)
    requires
        stands_at(all, q, looped(next, inner)),
    ensures
        loop_places(all, q, next, inner),
{
    let l = looped(next, inner);
    let n = inner.len() as int;
    assert(all[q + 0] == l[0] && all[q + 1] == l[1]);
    assert(all[q + (2 + n)] == l[2 + n] && all[q + (3 + n)] == l[3 + n]);
    assert forall|k: int| 0 <= k < n implies all[q + 2 + k] == #[trigger] inner[k] by {
        assert(l[2 + k] == inner[k]);
        assert(all[q + (2 + k)] == l[2 + k]);
    }
}

/// The head of a loop: behind the loop where the cell is zero, else at its body.
proof fn lemma_head(all: Seq<Lir>, q: int, next: int, inner: Seq<Lir>, s: St, source: Source) -> (m:
    nat)
    requires
        single(all),
        loop_places(all, q, next, inner),
    ensures
        lir_run(all, q, s, source, m) == (
            if s.cell() == 0 {
                q + inner.len() + 4
            } else {
                q + 2
            },
            s,
        ),
{
    let n = inner.len() as int;
    lemma_place(all, q + 3 + n, next + 1);
    lemma_run_one(all, q, s, source);
    lemma_run_one(all, q + 1, s, source);
    lemma_run_add(all, q, s, source, 1, 1);
    if s.cell() == 0 {
        lemma_run_one(all, q + 3 + n, s, source);
        lemma_run_add(all, q, s, source, 2, 1);
        3
    } else {
        2
    }
}

/// The end of a loop: behind it where the cell is zero, else at its head.
proof fn lemma_foot(all: Seq<Lir>, q: int, next: int, inner: Seq<Lir>, s: St, source: Source) -> (m:
    nat)
    requires
        single(all),
        loop_places(all, q, next, inner),
    ensures
        lir_run(all, q + 2 + inner.len(), s, source, m) == (
            if s.cell() == 0 {
                q + inner.len() + 4
            } else {
                q
            },
            s,
        ),
{
    let n = inner.len() as int;
    lemma_place(all, q, next);
    lemma_run_one(all, q + 2 + n, s, source);
    if s.cell() == 0 {
        lemma_run_one(all, q + 3 + n, s, source);
        lemma_run_add(all, q + 2 + n, s, source, 1, 1);
        2
    } else {
        1
    }
}

/// A loop between a start and an end.
proof fn lemma_loop(
    rest: Seq<Frame>,
    ops: Seq<Op>,
    from: int,
    end: int,
    next: int,
    all: Seq<Lir>,
    q: int,
    s: St,
    source: Source,
    n: nat,
) -> (r: Met)
    requires
        single(all),
        0 <= from < end < ops.len(),
        ops[from] == Op::LoopStart(end),
        ops[end] == Op::LoopEnd(from),
        nested(ops, from + 1, end, rest.len() == 0),
        stands_at(all, q, looped(next, ops_lir(ops, from + 1, end, next + 2).0)),
        steps(inside(rest, ops, from, s), source, n).halted(),
    ensures
        r.n > 0,
        met(
            inside(rest, ops, from, s),
            rest,
            ops,
            end + 1,
            all,
            q,
            q + looped(next, ops_lir(ops, from + 1, end, next + 2).0).len(),
            s,
            source,
            n,
            r,
        ),
    decreases n, ops, end - from,
{
    let c = inside(rest, ops, from, s);
    let inner = ops_lir(ops, from + 1, end, next + 2).0;
    let len = inner.len() as int;
    lemma_loop_places(all, q, next, inner);
    lemma_one(rest, ops, from, s, source, n);
    assert(c.top() == Frame { ops, pc: from });
    let m = lemma_head(all, q, next, inner, s, source);
    if s.cell() == 0 {
        let r = Met { s, n: 1, m };
        assert(steps(c, source, 1) == inside(rest, ops, end + 1, s));
        r
    } else {
        assert(steps(c, source, 1) == inside(rest, ops, from + 1, s));
        let b = lemma_rounds(rest, ops, from, end, next, all, q, s, source, (n - 1) as nat);
        lemma_met(
            c,
            inside(rest, ops, from + 1, s),
            rest,
            ops,
            end + 1,
            all,
            q,
            q + 2,
            q + len + 4,
            s,
            s,
            source,
            n,
            1,
            m,
            b,
        )
    }
}

/// The rounds of such a loop.
proof fn lemma_rounds(
    rest: Seq<Frame>,
    ops: Seq<Op>,
    from: int,
    end: int,
    next: int,
    all: Seq<Lir>,
    q: int,
    s: St,
    source: Source,
    n: nat,
) -> (r: Met)
    requires
        single(all),
        0 <= from < end < ops.len(),
        ops[end] == Op::LoopEnd(from),
        nested(ops, from + 1, end, rest.len() == 0),
        loop_places(all, q, next, ops_lir(ops, from + 1, end, next + 2).0),
        steps(inside(rest, ops, from + 1, s), source, n).halted(),
    ensures
        met(
            inside(rest, ops, from + 1, s),
            rest,
            ops,
            end + 1,
            all,
            q + 2,
            q + ops_lir(ops, from + 1, end, next + 2).0.len() + 4,
            s,
            source,
            n,
            r,
        ),
    decreases n, ops, end - from, 1int,
{
    let inner = ops_lir(ops, from + 1, end, next + 2).0;
    let len = inner.len() as int;
    let c = inside(rest, ops, from + 1, s);
    let a = lemma_region(rest, ops, from + 1, end, next + 2, all, q + 2, s, source, n);
    let left = (n - a.n) as nat;
    let d = inside(rest, ops, end, a.s);
    lemma_one(rest, ops, end, a.s, source, left);
    assert(d.top() == Frame { ops, pc: end });
    let m = lemma_foot(all, q, next, inner, a.s, source);
    let b = if a.s.cell() == 0 {
        assert(steps(d, source, 1) == inside(rest, ops, end + 1, a.s));
        Met { s: a.s, n: 1, m }
    } else {
        let again = inside(rest, ops, from + 1, a.s);
        assert(steps(d, source, 1) == again);
        let h = lemma_head(all, q, next, inner, a.s, source);
        lemma_run_add(all, q + 2 + len, a.s, source, m, h);
        let less = (left - 1) as nat;
        let e = lemma_rounds(rest, ops, from, end, next, all, q, a.s, source, less);
        lemma_met(
            d,
            again,
            rest,
            ops,
            end + 1,
            all,
            q + 2 + len,
            q + 2,
            q + len + 4,
            a.s,
            a.s,
            source,
            left,
            1,
            m + h,
            e,
        )
    };
    lemma_met(
        c,
        d,
        rest,
        ops,
        end + 1,
        all,
        q + 2,
        q + 2 + len,
        q + len + 4,
        s,
        a.s,
        source,
        n,
        a.n,
        a.m,
        b,
    )
}

/// A loop that runs as one operation.
proof fn lemma_block(
    rest: Seq<Frame>,
    ops: Seq<Op>,
    at: int,
    after: int,
    body: Seq<Op>,
    next: int,
    all: Seq<Lir>,
    q: int,
    s: St,
    source: Source,
    n: nat,
) -> (r: Met)
    requires
        single(all),
        0 <= at < ops.len(),
        ops[at] == Op::LoopBlock(after, body),
        rest.len() == 0 ==> after == at + 1,
        nested(body, 0, body.len() as int, false),
        stands_at(all, q, looped(next, ops_lir(body, 0, body.len() as int, next + 2).0)),
        steps(inside(rest, ops, at, s), source, n).halted(),
    ensures
        r.n > 0,
        met(
            inside(rest, ops, at, s),
            rest,
            ops,
            at + 1,
            all,
            q,
            q + looped(next, ops_lir(body, 0, body.len() as int, next + 2).0).len(),
            s,
            source,
            n,
            r,
        ),
    decreases n, ops, 0int,
{
    let c = inside(rest, ops, at, s);
    let size = body.len() as int;
    let inner = ops_lir(body, 0, size, next + 2).0;
    let len = inner.len() as int;
    lemma_loop_places(all, q, next, inner);
    lemma_one(rest, ops, at, s, source, n);
    assert(c.top() == Frame { ops, pc: at });
    let m = lemma_head(all, q, next, inner, s, source);
    if s.cell() == 0 {
        assert(steps(c, source, 1) == inside(rest, ops, at + 1, s));
        Met { s, n: 1, m }
    } else {
        let deep = c.frames;
        let less = (n - 1) as nat;
        assert(steps(c, source, 1) == inside(deep, body, 0, s));
        let a = lemma_region(deep, body, 0, size, next + 2, all, q + 2, s, source, less);
        let left = (less - a.n) as nat;
        let d = inside(deep, body, size, a.s);
        lemma_one(deep, body, size, a.s, source, left);
        assert(d.top() == Frame { ops: body, pc: size });
        let again = inside(rest, ops, at, a.s);
        assert(steps(d, source, 1) == again);
        lemma_steps_add(c, source, 1, a.n);
        lemma_steps_add(c, source, 1 + a.n, 1);
        lemma_run_add(all, q, s, source, m, a.m);
        let f = lemma_foot(all, q, next, inner, a.s, source);
        lemma_run_add(all, q, s, source, m + a.m, f);
        let rounds = 1 + a.n + 1;
        let then_left = (n - rounds) as nat;
        if a.s.cell() == 0 {
            lemma_one(rest, ops, at, a.s, source, then_left);
            assert(again.top() == Frame { ops, pc: at });
            assert(steps(again, source, 1) == inside(rest, ops, at + 1, a.s));
            lemma_steps_add(c, source, rounds, 1);
            Met { s: a.s, n: rounds + 1, m: m + a.m + f }
        } else {
            let e = lemma_block(rest, ops, at, after, body, next, all, q, a.s, source, then_left);
            lemma_met(
                c,
                again,
                rest,
                ops,
                at + 1,
                all,
                q,
                q,
                q + len + 4,
                s,
                a.s,
                source,
                n,
                rounds,
                m + a.m + f,
                e,
            )
        }
    }
}

/// A part of a list, as a list of its own, has the same loops.
proof fn lemma_loop_end_moved(a: Seq<Op>, b: Seq<Op>, by: int, from: int, to: int, depth: int)
    requires
        0 <= from,
        to <= a.len(),
        0 <= by,
        to + by <= b.len(),
        forall|i: int| 0 <= i < a.len() && i + by < b.len() ==> b[i + by] == #[trigger] a[i],
    ensures
        loop_end(b, from + by, to + by, depth) == loop_end(a, from, to, depth) + by,
    decreases to - from,
{
    if from < to {
        assert(b[from + by] == a[from]);
        lemma_loop_end_moved(a, b, by, from + 1, to, depth + 1);
        lemma_loop_end_moved(a, b, by, from + 1, to, depth - 1);
        lemma_loop_end_moved(a, b, by, from + 1, to, depth);
    }
}

/// And the same LIR.
proof fn lemma_lir_moved(a: Seq<Op>, b: Seq<Op>, by: int, from: int, to: int, next: int)
    requires
        0 <= from <= to <= a.len(),
        0 <= by,
        to + by <= b.len(),
        forall|i: int| 0 <= i < a.len() && i + by < b.len() ==> b[i + by] == #[trigger] a[i],
    ensures
        ops_lir(b, from + by, to + by, next) == ops_lir(a, from, to, next),
    decreases to - from,
{
    if from < to {
        assert(b[from + by] == a[from]);
        match a[from] {
            Op::LoopStart(_) => {
                let end = loop_end(a, from + 1, to, 1);
                lemma_loop_end(a, from + 1, to, 1);
                lemma_loop_end_moved(a, b, by, from + 1, to, 1);
                assert(loop_end(b, from + by + 1, to + by, 1) == end + by);
                lemma_lir_moved(a, b, by, from + 1, end, next + 2);
                assert(from + 1 + by == from + by + 1);
                let inner = ops_lir(a, from + 1, end, next + 2);
                if end < to {
                    lemma_lir_moved(a, b, by, end + 1, to, inner.1);
                    assert(end + 1 + by == end + by + 1);
                }
            },
            Op::LoopBlock(_, body) => {
                let inner = ops_lir(body, 0, body.len() as int, next + 2);
                lemma_lir_moved(a, b, by, from + 1, to, inner.1);
                assert(from + 1 + by == from + by + 1);
            },
            _ => {
                lemma_lir_moved(a, b, by, from + 1, to, next);
                assert(from + 1 + by == from + by + 1);
            },
        }
    }
}

/// Compiling a hot loop keeps what it does: where the bytecode of the loop around a
/// body halts, whatever the tape and the input, the LIR of the body ends behind its last
/// instruction in the same state, with the same bytes read and written.
pub proof fn law_compiled_loops_do_what_their_bytecode_does(
    body: Seq<Op>,
    s: St,
    source: Source,
    n: nat,
) -> (m: nat)
    requires
        nested(loop_around(body), 0, body.len() as int + 2, true),
        steps(loaded(loop_around(body), s), source, n).halted(),
    ensures
        lir_run(loop_lir(body).0, 0, s, source, m) == (
            loop_lir(body).0.len() as int,
            steps(loaded(loop_around(body), s), source, n).st,
        ),
{
    let ops = loop_around(body);
    let len = body.len() as int;
    let rest = Seq::<Frame>::empty();
    let c = loaded(ops, s);
    assert(c.frames =~= inside(rest, ops, 0, s).frames);
    assert(ops[0] == Op::LoopStart(len + 1));
    assert(ops[len + 1] == Op::LoopEnd(0));
    let end = loop_end(ops, 1, len + 2, 1);
    lemma_loop_end(ops, 1, len + 2, 1);
    assert(end == len + 1);
    assert forall|i: int| 0 <= i < body.len() && i + 1 < ops.len() implies ops[i + 1]
        == #[trigger] body[i] by {}
    lemma_lir_moved(body, ops, 1, 0, len, 2);
    let all = loop_lir(body).0;
    let inner = ops_lir(body, 0, len, 2);
    lemma_order(body, 0, len, 2);
    lemma_order_looped(inner.0, 0, inner.1);
    assert(single(all));
    assert(ops_lir(ops, len + 2, len + 2, inner.1).0 =~= Seq::<Lir>::empty());
    assert(ops_lir(ops, 0, len + 2, 0).0 =~= all);
    let r = lemma_region(rest, ops, 0, len + 2, 0, all, 0, s, source, n);
    let left = (n - r.n) as nat;
    let d = inside(rest, ops, len + 2, r.s);
    lemma_steps_add(c, source, r.n, left);
    lemma_one(rest, ops, len + 2, r.s, source, left);
    assert(d.top() == Frame { ops, pc: len + 2 });
    let h = step(d, source(r.s.reads));
    assert(h.halted());
    lemma_stays_halted(h, source, (left - 1) as nat);
    r.m
}

} // verus!
