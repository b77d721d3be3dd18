//! What the walks through the chunks of a long array do.

use vstd::prelude::*;

use crate::bfsc::effect::steps::{
    bytes, lemma_sound_then, lemma_works_bytes, lemma_works_loop, lemma_works_quiet,
    lemma_works_start, lemma_works_then, plus, since, with, works, works_goto, works_minus,
    works_plus, Cells,
};
use crate::bfsc::effect::text::{lemma_takes_loop, takes};
use crate::bfsc::emitter::Bf;
use crate::bfsc::sound::arrays::sound_pour;
use crate::bfsc::sound::steps::{
    lemma_sound_tokens, sound, sound_close, sound_goto, sound_minus, sound_open, sound_plus,
};
use crate::interp::machine::{Source, St};

verus! {

/// The emitter with the data pointer at `p`.
pub open spec fn at(b: Bf, p: int) -> Bf {
    b.set_ptr(p)
}

/// The cells with `a` moved onto `c`.
pub open spec fn poured(x: Cells, a: int, c: int) -> Cells {
    x.insert(a, 0).insert(c, (x[c] + x[a]) % 256)
}

/// The cells with `a` moved onto both `c` and `d`.
pub open spec fn forked(x: Cells, a: int, c: int, d: int) -> Cells {
    x.insert(a, 0).insert(c, (x[c] + x[a]) % 256).insert(d, (x[d] + x[a]) % 256)
}

/// A text that has just begun.
proof fn lemma_sound_self(b: Bf)
    ensures
        sound(b.out, b.out, 0),
{
    reveal(sound);
}

/// A loop that leaves the data pointer elsewhere each time round.
proof fn lemma_roam(a: Bf, z: Bf, p: int, x: Cells, p2: int, m: Cells, q: int, y: Cells)
    requires
        bytes(x),
        sound(a.raw("["@).out, z.out, 0),
        x[p] == 0 ==> y == x && q == p,
        x[p] != 0 ==> works(at(a.raw("["@), p), at(z, p2), x, m) && works(
            at(a, p2),
            at(z.raw("]"@), q),
            m,
            y,
        ),
    ensures
        works(at(a, p), at(z.raw("]"@), q), x, y),
{
    broadcast use {sound_open, sound_close};

    reveal(works);
    let a1 = a.raw("["@);
    let z1 = z.raw("]"@);
    lemma_sound_self(a);
    assert(sound(a.out, a1.out, 1));
    lemma_sound_then(a.out, a1.out, z.out, 1, 0);
    assert(sound(a.out, z.out, 1));
    assert(sound(a.out, z1.out, 0));
    lemma_sound_tokens(a1.out, z.out, 0);
    let body = since(a1, z);
    reveal_strlit("[");
    reveal_strlit("]");
    assert(since(a, z1) =~= "["@ + body + "]"@);
    assert(since(at(a1, p), at(z, p2)) == body);
    assert(since(at(a, p), at(z1, q)) == since(a, z1));
    assert(since(at(a, p2), at(z1, q)) == since(a, z1));
    assert forall|s: St, source: Source| s.cells == x && s.ptr == p implies #[trigger] takes(
        since(at(a, p), at(z1, q)),
        s,
        with(s, y, q),
        source,
    ) by {
        let u = with(s, y, q);
        let k = with(s, m, p2);
        if s.cell() != 0 {
            assert(takes(since(at(a1, p), at(z, p2)), s, with(s, m, at(z, p2).ptr), source));
            assert(takes(since(at(a, p2), at(z1, q)), k, with(k, y, at(z1, q).ptr), source));
            assert(with(k, y, q) == u);
        } else {
            assert(u == s);
        }
        lemma_takes_loop(body, s, k, u, source);
    }
}

/// The loop of `pour`.
proof fn lemma_pour_loop(a: Bf, x: Cells, c: int)
    requires
        bytes(x),
        c != a.ptr,
    ensures
        works(
            a,
            a.raw("["@).raw("-"@).goto(c).raw("+"@).goto(a.ptr).raw("]"@),
            x,
            poured(x, a.ptr, c),
        ),
    decreases x[a.ptr],
{
    broadcast use {works_minus, works_plus, works_goto, sound_minus, sound_plus, sound_goto};

    let a1 = a.raw("["@);
    let z = a1.raw("-"@).goto(c).raw("+"@).goto(a.ptr);
    let y = poured(x, a.ptr, c);
    lemma_sound_self(a1);
    assert(x.dom().contains(a.ptr));
    assert(x.dom().contains(c));
    let m = plus(plus(x, a.ptr, -1), c, 1);
    if x[a.ptr] != 0 {
        lemma_works_start(a1, x);
        assert(works(a1, a1.raw("-"@), x, plus(x, a.ptr, -1)));
        assert(works(a1, a1.raw("-"@).goto(c), x, plus(x, a.ptr, -1)));
        assert(works(a1, a1.raw("-"@).goto(c).raw("+"@), x, m));
        assert(works(a1, z, x, m));
        lemma_works_bytes(a1, z, x, m);
        lemma_pour_loop(a, m, c);
        assert(poured(m, a.ptr, c) =~= y);
    } else {
        assert(y =~= x);
    }
    lemma_works_loop(a, z, x, m, y);
}

/// `pour` moves a cell onto another.
pub broadcast proof fn works_pour(o: Bf, b: Bf, x0: Cells, x: Cells, a: int, c: int)
    requires
        #[trigger] works(o, b, x0, x),
        a != c,
    ensures
        works(o, #[trigger] b.pour(a, c), x0, poured(x, a, c)),
{
    broadcast use works_goto;

    lemma_works_bytes(o, b, x0, x);
    let g = b.goto(a);
    lemma_pour_loop(g, x, c);
    let e = g.raw("["@).raw("-"@).goto(c).raw("+"@).goto(a).raw("]"@);
    lemma_works_then(o, g, e, x0, x, poured(x, a, c));
    reveal(Bf::pour);
    reveal_strlit("[");
    reveal_strlit("-");
    reveal_strlit("[-");
    assert(g.raw("["@).raw("-"@).out =~= g.raw("[-"@).out);
    lemma_works_quiet(o, e, b.pour(a, c), x0, poured(x, a, c));
}

/// Move `a` to both `c` and `d`, and go back by way of `e`.
#[verifier::opaque]
pub open spec fn fork(b: Bf, a: int, c: int, d: int, e: int) -> Bf {
    b.goto(a).raw("["@).raw("-"@).goto(c).raw("+"@).goto(d).raw("+"@).goto(e).goto(a).raw("]"@)
}

proof fn lemma_fork_loop(a: Bf, x: Cells, c: int, d: int, e: int)
    requires
        bytes(x),
        c != a.ptr,
        d != a.ptr,
        c != d,
    ensures
        works(a, fork(a, a.ptr, c, d, e), x, forked(x, a.ptr, c, d)),
    decreases x[a.ptr],
{
    broadcast use {works_minus, works_plus, works_goto, sound_minus, sound_plus, sound_goto};

    reveal(fork);
    let a1 = a.raw("["@);
    let z = a1.raw("-"@).goto(c).raw("+"@).goto(d).raw("+"@).goto(e).goto(a.ptr);
    let y = forked(x, a.ptr, c, d);
    lemma_sound_self(a1);
    assert(x.dom().contains(a.ptr));
    assert(x.dom().contains(c));
    assert(x.dom().contains(d));
    let m1 = plus(x, a.ptr, -1);
    let m2 = plus(m1, c, 1);
    let m = plus(m2, d, 1);
    if x[a.ptr] != 0 {
        lemma_works_start(a1, x);
        assert(works(a1, a1.raw("-"@), x, m1));
        assert(works(a1, a1.raw("-"@).goto(c), x, m1));
        assert(works(a1, a1.raw("-"@).goto(c).raw("+"@), x, m2));
        assert(works(a1, a1.raw("-"@).goto(c).raw("+"@).goto(d), x, m2));
        assert(works(a1, a1.raw("-"@).goto(c).raw("+"@).goto(d).raw("+"@), x, m));
        assert(works(a1, a1.raw("-"@).goto(c).raw("+"@).goto(d).raw("+"@).goto(e), x, m));
        assert(works(a1, z, x, m));
        lemma_works_bytes(a1, z, x, m);
        lemma_fork_loop(a, m, c, d, e);
        assert(forked(m, a.ptr, c, d) =~= y);
    } else {
        assert(y =~= x);
    }
    lemma_works_loop(a, z, x, m, y);
    assert(a.goto(a.ptr).out =~= a.out);
    assert(a.goto(a.ptr) == a);
}

/// `fork` moves a cell onto two others.
pub broadcast proof fn works_fork(
    o: Bf,
    b: Bf,
    x0: Cells,
    x: Cells,
    a: int,
    c: int,
    d: int,
    e: int,
)
    requires
        #[trigger] works(o, b, x0, x),
        a != c,
        a != d,
        c != d,
    ensures
        works(o, #[trigger] fork(b, a, c, d, e), x0, forked(x, a, c, d)),
{
    broadcast use works_goto;

    lemma_works_bytes(o, b, x0, x);
    reveal(fork);
    let g = b.goto(a);
    lemma_fork_loop(g, x, c, d, e);
    assert(g.goto(a).out =~= g.out);
    assert(g.goto(a) == g);
    lemma_works_then(o, g, fork(g, a, c, d, e), x0, x, forked(x, a, c, d));
}

/// Offsets of the cells that a walk carries, in the order in which it moves them.
pub open spec fn fits(offs: Seq<int>, d: int) -> bool {
    &&& offs.no_duplicates()
    &&& forall|o: int| #[trigger] offs.contains(o) ==> 0 <= o && (o < d || o < -d)
}

/// The cells that belong to `q` are 0.
pub open spec fn clear_at(x: Cells, q: int, offs: Seq<int>) -> bool {
    forall|o: int| #[trigger] offs.contains(o) ==> x[q + o] == 0
}

/// The cells with those that belong to `p` moved to `q`.
pub open spec fn carried(x: Cells, p: int, q: int, offs: Seq<int>) -> Cells {
    Map::new(
        |c: int| true,
        |c: int|
            if offs.contains(c - q) {
                x[p + (c - q)]
            } else if offs.contains(c - p) {
                0
            } else {
                x[c]
            },
    )
}

/// Move the cells that belong to `p` by `d`.
pub open spec fn hop(b: Bf, p: int, d: int, offs: Seq<int>) -> Bf
    decreases offs.len(),
{
    if offs.len() == 0 {
        b
    } else {
        hop(b.pour(p + offs[0], p + offs[0] + d), p, d, offs.skip(1))
    }
}

/// A hop takes the cells that belong to a place to the next.
proof fn lemma_hop(o: Bf, b: Bf, x0: Cells, x: Cells, p: int, d: int, offs: Seq<int>)
    requires
        works(o, b, x0, x),
        fits(offs, d),
        clear_at(x, p + d, offs),
    ensures
        works(o, hop(b, p, d, offs), x0, carried(x, p, p + d, offs)),
    decreases offs.len(),
{
    broadcast use works_pour;

    lemma_works_bytes(o, b, x0, x);
    let y = carried(x, p, p + d, offs);
    if offs.len() == 0 {
        assert forall|c: int| x.dom().contains(c) by {}
        assert(y =~= x);
    } else {
        let e = offs[0];
        let rest = offs.skip(1);
        assert(offs.contains(e));
        let m = poured(x, p + e, p + e + d);
        let b1 = b.pour(p + e, p + e + d);
        assert(works(o, b1, x0, m));
        lemma_works_bytes(o, b1, x0, m);
        assert forall|k: int| #[trigger] rest.contains(k) implies offs.contains(k) && k != e by {
            let i = choose|i: int| 0 <= i < rest.len() && rest[i] == k;
            assert(offs[i + 1] == k);
        }
        assert forall|k: int| #[trigger] offs.contains(k) && k != e implies rest.contains(k) by {
            let i = choose|i: int| 0 <= i < offs.len() && offs[i] == k;
            assert(rest[i - 1] == k);
        }
        assert(rest.no_duplicates());
        assert(x[p + d + e] == 0);
        assert(0 <= x[p + e] < 256) by {
            assert(x.dom().contains(p + e));
        }
        assert(clear_at(m, p + d, rest)) by {
            assert forall|k: int| #[trigger] rest.contains(k) implies m[p + d + k] == 0 by {
                assert(offs.contains(k));
                assert(x[p + d + k] == 0);
            }
        }
        lemma_hop(o, b1, x0, m, p, d, rest);
        let z = carried(m, p, p + d, rest);
        assert forall|c: int| z[c] == y[c] by {
            assert(x.dom().contains(c));
            if c - (p + d) == e {
                assert(offs.contains(c - (p + d)));
                assert(!rest.contains(c - (p + d)));
                assert(!offs.contains(c - p)) by {
                    assert(c - p == e + d);
                }
                assert(!rest.contains(c - p));
            } else if offs.contains(c - (p + d)) {
                assert(rest.contains(c - (p + d)));
            } else {
                assert(!rest.contains(c - (p + d)));
                if c - p == e {
                    assert(offs.contains(c - p));
                    assert(!rest.contains(c - p));
                } else if offs.contains(c - p) {
                    assert(rest.contains(c - p));
                } else {
                    assert(!rest.contains(c - p));
                }
            }
        }
        assert(z =~= y);
    }
}

/// The text of a hop does not depend on the place.
proof fn lemma_hop_out(b: Bf, c: Bf, p: int, q: int, d: int, offs: Seq<int>)
    requires
        b.out == c.out,
        b.ptr - p == c.ptr - q,
    ensures
        hop(b, p, d, offs).out == hop(c, q, d, offs).out,
        hop(b, p, d, offs).ptr - p == hop(c, q, d, offs).ptr - q,
    decreases offs.len(),
{
    if offs.len() > 0 {
        reveal(Bf::pour);
        let e = offs[0];
        let b1 = b.pour(p + e, p + e + d);
        let c1 = c.pour(q + e, q + e + d);
        assert(b1.ptr == p + e && c1.ptr == q + e);
        assert(b1.out == c1.out);
        lemma_hop_out(b1, c1, p, q, d, offs.skip(1));
    }
}

/// Counts the cell at `p` down and moves the cells that belong to it by `d`.
pub open spec fn round(a: Bf, p: int, d: int, offs: Seq<int>) -> Bf {
    hop(at(a.raw("["@), p).raw("-"@), p, d, offs).goto(p).goto(p + d)
}

/// Walks by `d` as often as the cell at `p` says.
pub open spec fn walk(a: Bf, d: int, offs: Seq<int>) -> Bf {
    round(a, 0, d, offs).raw("]"@)
}

proof fn lemma_round_out(a: Bf, p: int, d: int, offs: Seq<int>)
    ensures
        round(a, p, d, offs).out == round(a, 0, d, offs).out,
        sound(a.raw("["@).out, round(a, p, d, offs).out, 0),
{
    broadcast use {sound_minus, sound_goto};

    let a1 = a.raw("["@);
    lemma_hop_out(at(a1, p).raw("-"@), at(a1, 0).raw("-"@), p, 0, d, offs);
    lemma_sound_self(a1);
    assert(sound(a1.out, at(a1, p).out, 0));
    assert(sound(a1.out, at(a1, p).raw("-"@).out, 0));
    lemma_sound_hop(a1.out, at(a1, p).raw("-"@), p, d, offs);
    let h = hop(at(a1, p).raw("-"@), p, d, offs);
    let g = hop(at(a1, 0).raw("-"@), 0, d, offs);
    assert(h.goto(p).out == g.goto(0).out);
}

proof fn lemma_sound_hop(from: Seq<char>, b: Bf, p: int, d: int, offs: Seq<int>)
    requires
        sound(from, b.out, 0),
    ensures
        sound(from, hop(b, p, d, offs).out, 0),
    decreases offs.len(),
{
    broadcast use sound_pour;

    if offs.len() > 0 {
        lemma_sound_hop(from, b.pour(p + offs[0], p + offs[0] + d), p, d, offs.skip(1));
    }
}

/// Where a walk of `k` rounds ends.
pub open spec fn stride(p: int, d: int, k: int) -> int
    decreases k,
{
    if k <= 0 {
        p
    } else {
        stride(p + d, d, k - 1)
    }
}

/// The cells that a walk of `k` rounds moves to are 0.
pub open spec fn clear_way(x: Cells, p: int, d: int, k: int, offs: Seq<int>) -> bool
    decreases k,
{
    k <= 0 || (clear_at(x, p + d, offs) && clear_way(x, p + d, d, k - 1, offs))
}

/// What lies ahead is as clear after a change behind.
proof fn lemma_way_kept(x: Cells, y: Cells, q: int, d: int, k: int, offs: Seq<int>)
    requires
        clear_way(x, q, d, k, offs),
        fits(offs, d),
        d > 0 ==> forall|c: int| c >= q + d ==> #[trigger] y[c] == x[c],
        d < 0 ==> forall|c: int| c < q ==> #[trigger] y[c] == x[c],
    ensures
        clear_way(y, q, d, k, offs),
    decreases k,
{
    if k > 0 {
        assert(clear_at(y, q + d, offs)) by {
            assert forall|o: int| #[trigger] offs.contains(o) implies y[q + d + o] == 0 by {
                assert(x[q + d + o] == 0);
            }
        }
        lemma_way_kept(x, y, q + d, d, k - 1, offs);
    }
}

/// A walk takes the cells that belong to its start to its end.
pub proof fn lemma_walk(a: Bf, x: Cells, p: int, d: int, offs: Seq<int>)
    requires
        bytes(x),
        d != 0,
        fits(offs, d),
        offs.contains(0),
        clear_way(x, p, d, x[p], offs),
    ensures
        works(
            at(a, p),
            at(walk(a, d, offs), stride(p, d, x[p])),
            x,
            carried(x.insert(p, 0), p, stride(p, d, x[p]), offs),
        ),
    decreases x[p],
{
    broadcast use {works_minus, works_goto};

    let k = x[p];
    assert(x.dom().contains(p));
    let q = stride(p, d, k);
    let y = carried(x.insert(p, 0), p, q, offs);
    let z = round(a, p, d, offs);
    lemma_round_out(a, p, d, offs);
    let x1 = plus(x, p, -1);
    let m = carried(x1, p, p + d, offs);
    if k != 0 {
        let a1 = at(a.raw("["@), p);
        lemma_works_start(a1, x);
        assert(works(a1, a1.raw("-"@), x, x1));
        assert(x1[p] == k - 1);
        assert(clear_at(x1, p + d, offs)) by {
            assert forall|o: int| #[trigger] offs.contains(o) implies x1[p + d + o] == 0 by {
                assert(x[p + d + o] == 0);
            }
        }
        lemma_hop(a1, a1.raw("-"@), x, x1, p, d, offs);
        assert(works(a1, z, x, m));
        lemma_works_bytes(a1, z, x, m);
        assert(offs.contains((p + d) - (p + d)));
        assert(m[p + d] == k - 1);
        assert(clear_way(m, p + d, d, k - 1, offs)) by {
            assert(clear_way(x, p + d, d, k - 1, offs));
            assert forall|c: int|
                (d > 0 && c >= p + d + d) || (d < 0 && c < p + d) implies #[trigger] m[c] == x[c] by {
                assert(!offs.contains(c - (p + d)));
                assert(!offs.contains(c - p));
            }
            lemma_way_kept(x, m, p + d, d, k - 1, offs);
        }
        lemma_walk(a, m, p + d, d, offs);
        let w = carried(m.insert(p + d, 0), p + d, q, offs);
        assert forall|c: int| w[c] == y[c] by {
            if offs.contains(c - q) {
                let o = c - q;
                if o != 0 {
                    assert(offs.contains((p + d + o) - (p + d)));
                }
            } else if offs.contains(c - (p + d)) {
                assert(!offs.contains(c - p));
                assert(x[p + d + (c - (p + d))] == 0);
            } else {
                assert(c != p + d);
                if offs.contains(c - p) {
                } else {
                    assert(c != p) by {
                        assert(offs.contains(p - p));
                    }
                }
            }
        }
        assert(w =~= y);
    } else {
        assert(q == p);
        assert(x.insert(p, 0) =~= x);
        assert forall|c: int| y[c] == x[c] by {}
        assert forall|c: int| x.dom().contains(c) by {}
        assert(y =~= x);
    }
    if k != 0 {
        lemma_works_quiet(at(a, p + d), at(walk(a, d, offs), q), at(z.raw("]"@), q), m, y);
        assert(at(z, p + d) == z);
    }
    lemma_roam(a, z, p, x, p + d, m, q, y);
    lemma_works_quiet(at(a, p), at(z.raw("]"@), q), at(walk(a, d, offs), q), x, y);
}

} // verus!
