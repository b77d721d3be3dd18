//! What reads and writes over the chunks of a long array do.

use vstd::prelude::*;

use crate::bfsc::effect::steps::{
    bytes, lemma_works_bytes, lemma_works_quiet, lemma_works_start, lemma_works_then, works,
    works_clear, works_goto, works_tfree, works_tfree_n, Cells,
};
use crate::bfsc::effect::walk::{
    at, carried, clear_at, clear_way, fits, fork, forked, hop, lemma_walk, poured, stride, walk,
    works_fork, works_pour,
};
use crate::bfsc::emitter::Bf;
use crate::text::repeat;

verus! {

/// A pour to another cell is a shift.
pub proof fn lemma_pour_out(c: Bf, b: Bf, a: int, n: int)
    requires
        c.goto(a).out == b.out,
        n != 0,
    ensures
        n > 0 ==> c.pour(a, a + n).out == b.shift_right(n).out,
        n < 0 ==> c.pour(a, a + n).out == b.shift_left(-n).out,
        c.pour(a, a + n).ptr == a,
{
    reveal(Bf::pour);
    reveal(Bf::shift_right);
    reveal(Bf::shift_left);
}

/// A move by nothing.
pub proof fn lemma_stay(b: Bf)
    ensures
        b.goto(b.ptr).out == b.out,
{
    assert(b.goto(b.ptr).out =~= b.out);
}

/// Short moves.
pub proof fn lemma_short_moves()
    ensures
        repeat('>', 1) == ">"@,
        repeat('>', 2) == ">>"@,
        repeat('>', 3) == ">>>"@,
        repeat('<', 1) == "<"@,
        repeat('<', 2) == "<<"@,
{
    reveal_strlit(">");
    reveal_strlit(">>");
    reveal_strlit(">>>");
    reveal_strlit("<");
    reveal_strlit("<<");
    assert(repeat('>', 1) =~= ">"@);
    assert(repeat('>', 2) =~= ">>"@);
    assert(repeat('>', 3) =~= ">>>"@);
    assert(repeat('<', 1) =~= "<"@);
    assert(repeat('<', 2) =~= "<<"@);
}

/// A loop that counts down begins.
pub proof fn lemma_open(b: Bf)
    ensures
        at(b.raw("["@), 0).raw("-"@).out == b.raw("[-"@).out,
{
    reveal_strlit("[");
    reveal_strlit("-");
    reveal_strlit("[-");
    assert(at(b.raw("["@), 0).raw("-"@).out =~= b.raw("[-"@).out);
}

/// `forward_three` is a walk.
proof fn lemma_forward_three_out(b: Bf, s: int)
    requires
        s > 2,
    ensures
        b.forward_three(s).out == walk(b, s, seq![0, 1, 2]).out,
{
    reveal(Bf::forward_three);
    reveal_with_fuel(hop, 4);
    lemma_open(b);
    lemma_short_moves();
    let h0 = at(b.raw("["@), 0).raw("-"@);
    let k0 = b.raw("[-"@);
    lemma_stay(h0);
    lemma_pour_out(h0, k0, 0, s);
    let h1 = h0.pour(0, s);
    let k1 = k0.shift_right(s).raw(">"@);
    lemma_pour_out(h1, k1, 1, s);
    let h2 = h1.pour(1, 1 + s);
    let k2 = k1.shift_right(s).raw(">"@);
    lemma_pour_out(h2, k2, 2, s);
    let h3 = h2.pour(2, 2 + s);
    let offs: Seq<int> = seq![0, 1, 2];
    assert(offs.skip(1)[0] == 1);
    assert(offs.skip(1).skip(1)[0] == 2);
    assert(offs.skip(1).skip(1).skip(1).len() == 0);
    assert(hop(h0, 0, s, offs) == h3);
}

/// `backward_three` is a walk.
proof fn lemma_backward_three_out(b: Bf, s: int)
    requires
        s > 2,
    ensures
        b.backward_three(s).out == walk(b, -s, seq![0, 1, 2]).out,
{
    reveal(Bf::backward_three);
    reveal_with_fuel(hop, 4);
    lemma_open(b);
    lemma_short_moves();
    let h0 = at(b.raw("["@), 0).raw("-"@);
    let k0 = b.raw("[-"@);
    lemma_stay(h0);
    lemma_pour_out(h0, k0, 0, -s);
    let h1 = h0.pour(0, -s);
    let k1 = k0.shift_left(s).raw(">"@);
    lemma_pour_out(h1, k1, 1, -s);
    let h2 = h1.pour(1, 1 - s);
    let k2 = k1.shift_left(s).raw(">"@);
    lemma_pour_out(h2, k2, 2, -s);
    let h3 = h2.pour(2, 2 - s);
    let offs: Seq<int> = seq![0, 1, 2];
    assert(offs.skip(1)[0] == 1);
    assert(offs.skip(1).skip(1)[0] == 2);
    assert(offs.skip(1).skip(1).skip(1).len() == 0);
    assert(hop(h0, 0, -s, offs) == h3);
}

/// The walk to the element for a read.
proof fn lemma_inner_forward_out(b: Bf)
    ensures
        b.raw("[-[->>>>+<<<<]>[->>>>+<<<<]<>>>>]"@).out == walk(b, 4, seq![0, 1]).out,
{
    reveal_with_fuel(hop, 3);
    reveal(Bf::pour);
    reveal_strlit("[-[->>>>+<<<<]>[->>>>+<<<<]<>>>>]");
    reveal_strlit("[");
    reveal_strlit("]");
    reveal_strlit("-");
    reveal_strlit("+");
    reveal_strlit("[-");
    let offs: Seq<int> = seq![0, 1];
    assert(offs.skip(1)[0] == 1);
    assert(offs.skip(1).skip(1).len() == 0);
    assert(b.raw("[-[->>>>+<<<<]>[->>>>+<<<<]<>>>>]"@).out =~= walk(b, 4, seq![0, 1]).out);
}

/// The walk back from the element for a read.
proof fn lemma_inner_back_out(b: Bf)
    ensures
        b.raw("[-[-<<<<+>>>>]>[-<<<<+>>>>]<<<<<]"@).out == walk(b, -4, seq![0, 1]).out,
{
    reveal_with_fuel(hop, 3);
    reveal(Bf::pour);
    reveal_strlit("[-[-<<<<+>>>>]>[-<<<<+>>>>]<<<<<]");
    reveal_strlit("[");
    reveal_strlit("]");
    reveal_strlit("-");
    reveal_strlit("+");
    reveal_strlit("[-");
    let offs: Seq<int> = seq![0, 1];
    assert(offs.skip(1)[0] == 1);
    assert(offs.skip(1).skip(1).len() == 0);
    assert(b.raw("[-[-<<<<+>>>>]>[-<<<<+>>>>]<<<<<]"@).out =~= walk(b, -4, seq![0, 1]).out);
}

/// The walk to the element for a write.
proof fn lemma_inner_write_out(b: Bf)
    ensures
        b.raw("[-[->>>>+<<<<]>[->>>>+<<<<]>[->>>>+<<<<]<<>>>>]"@).out == walk(
            b,
            4,
            seq![0, 1, 2],
        ).out,
{
    reveal_with_fuel(hop, 4);
    reveal(Bf::pour);
    reveal_strlit("[-[->>>>+<<<<]>[->>>>+<<<<]>[->>>>+<<<<]<<>>>>]");
    reveal_strlit("[");
    reveal_strlit("]");
    reveal_strlit("-");
    reveal_strlit("+");
    reveal_strlit("[-");
    let offs: Seq<int> = seq![0, 1, 2];
    assert(offs.skip(1)[0] == 1);
    assert(offs.skip(1).skip(1)[0] == 2);
    assert(offs.skip(1).skip(1).skip(1).len() == 0);
    assert(b.raw("[-[->>>>+<<<<]>[->>>>+<<<<]>[->>>>+<<<<]<<>>>>]"@).out =~= walk(
        b,
        4,
        offs,
    ).out);
}

/// The walk back from the element for a write.
proof fn lemma_inner_return_out(b: Bf)
    ensures
        b.raw("[-[-<<<<+>>>>]<<<<]"@).out == walk(b, -4, seq![0]).out,
{
    reveal_with_fuel(hop, 2);
    reveal(Bf::pour);
    reveal_strlit("[-[-<<<<+>>>>]<<<<]");
    reveal_strlit("[");
    reveal_strlit("]");
    reveal_strlit("-");
    reveal_strlit("+");
    reveal_strlit("[-");
    let offs: Seq<int> = seq![0];
    assert(offs.skip(1).len() == 0);
    assert(b.raw("[-[-<<<<+>>>>]<<<<]"@).out =~= walk(b, -4, offs).out);
}

/// The walk to the chunk for a write.
pub open spec fn forward_four(b: Bf, s: int) -> Bf {
    b.raw("[-"@).shift_right(s).raw(">"@).shift_right(s).raw(">"@).shift_right(s).many(
        '>',
        s - 3,
    ).shift_right(s).many('<', s - 1).many('>', s).raw("]"@)
}

proof fn lemma_forward_four_out(b: Bf, s: int)
    requires
        s > 3,
    ensures
        forward_four(b, s).out == walk(b, s, seq![0, 1, 2, s - 1]).out,
{
    reveal_with_fuel(hop, 5);
    lemma_open(b);
    lemma_short_moves();
    let h0 = at(b.raw("["@), 0).raw("-"@);
    let k0 = b.raw("[-"@);
    lemma_stay(h0);
    lemma_pour_out(h0, k0, 0, s);
    let h1 = h0.pour(0, s);
    let k1 = k0.shift_right(s).raw(">"@);
    lemma_pour_out(h1, k1, 1, s);
    let h2 = h1.pour(1, 1 + s);
    let k2 = k1.shift_right(s).raw(">"@);
    lemma_pour_out(h2, k2, 2, s);
    let h3 = h2.pour(2, 2 + s);
    let k3 = k2.shift_right(s).many('>', s - 3);
    lemma_pour_out(h3, k3, s - 1, s);
    let h4 = h3.pour(s - 1, s - 1 + s);
    let offs: Seq<int> = seq![0, 1, 2, s - 1];
    assert(offs.skip(1)[0] == 1);
    assert(offs.skip(1).skip(1)[0] == 2);
    assert(offs.skip(1).skip(1).skip(1)[0] == s - 1);
    assert(offs.skip(1).skip(1).skip(1).skip(1).len() == 0);
    assert(hop(h0, 0, s, offs) == h4);
}

/// A byte in place of another.
pub broadcast proof fn bytes_insert(x: Cells, c: int, v: int)
    requires
        bytes(x),
        0 <= v < 256,
    ensures
        #[trigger] bytes(x.insert(c, v)),
{
    assert forall|i: int| #[trigger] x.insert(c, v).dom().contains(i) && 0 <= x.insert(c, v)[i]
        < 256 by {
        assert(x.dom().contains(i));
    }
}

/// The first cell of a chunk.
pub open spec fn chunk(base: int, j: int) -> int {
    base + 1029 * j
}

/// The cell `r` places on in a chunk.
pub open spec fn spot(b: int, r: int) -> int {
    b + r
}

/// Whether the cell `r` places on in a chunk holds an element.
pub open spec fn holds_element(r: int) -> bool {
    r % 4 == 3 && r < 1024
}

/// Whether the cell `r` places on in a chunk is 0 between reads and writes. The
/// one that is left out is where a group number is kept while a walk goes
/// through the group; a walk that has none never touches it.
pub open spec fn idle(r: int) -> bool {
    !holds_element(r) && r != 1026
}

/// The cells of the chunk at `b` that are idle are 0.
pub open spec fn tidy(x: Cells, b: int) -> bool {
    forall|r: int| 0 <= r < 1029 && idle(r) ==> x[#[trigger] spot(b, r)] == 0
}

/// The cells of the chunks that are idle are 0.
pub open spec fn all_tidy(x: Cells, base: int, n: int) -> bool {
    forall|j: int| 0 <= j < n ==> tidy(x, #[trigger] chunk(base, j))
}

/// Where a walk of `j` rounds ends.
pub open spec fn leap(p: int, d: int, j: int) -> int {
    p + d * j
}

pub proof fn lemma_leaps(x: Cells, p: int, d: int, k: int, offs: Seq<int>)
    requires
        k >= 0,
        forall|j: int| 1 <= j <= k ==> clear_at(x, #[trigger] leap(p, d, j), offs),
    ensures
        clear_way(x, p, d, k, offs),
        stride(p, d, k) == leap(p, d, k),
    decreases k,
{
    if k > 0 {
        assert(leap(p, d, 1) == p + d);
        assert forall|j: int| 1 <= j <= k - 1 implies clear_at(
            x,
            #[trigger] leap(p + d, d, j),
            offs,
        ) by {
            assert(leap(p + d, d, j) == leap(p, d, j + 1)) by (nonlinear_arith);
        }
        assert(leap(p + d, d, k - 1) == leap(p, d, k)) by (nonlinear_arith);
        lemma_leaps(x, p + d, d, k - 1, offs);
    } else {
        assert(leap(p, d, 0) == p);
    }
}

/// What a walk with two cells carries.
proof fn lemma_two(offs: Seq<int>, d: int)
    requires
        offs == seq![0int, 1],
        d >= 2 || d <= -2,
    ensures
        fits(offs, d),
        forall|o: int| #[trigger] offs.contains(o) <==> o == 0 || o == 1,
{
    assert(offs[0] == 0 && offs[1] == 1);
    assert(offs.contains(0) && offs.contains(1));
}

/// What a walk with three cells carries.
proof fn lemma_three(offs: Seq<int>, d: int)
    requires
        offs == seq![0int, 1, 2],
        d >= 3 || d <= -3,
    ensures
        fits(offs, d),
        forall|o: int| #[trigger] offs.contains(o) <==> o == 0 || o == 1 || o == 2,
{
    assert(offs[0] == 0 && offs[1] == 1 && offs[2] == 2);
    assert(offs.contains(0) && offs.contains(1) && offs.contains(2));
}

/// From the prefix cells of a chunk to an element and back with its value.
pub open spec fn fetch(b: Bf) -> Bf {
    b.raw("[-[->>>>+<<<<]>[->>>>+<<<<]<>>>>]"@).raw(">>>"@).raw("<[-]>[-<+>>+<]>[-<+>]<"@).raw(
        "<<"@,
    ).raw("[-[-<<<<+>>>>]>[-<<<<+>>>>]<<<<<]"@)
}

proof fn lemma_fetch_forward(b: Bf, w: Cells, l: int, h: int)
    requires
        bytes(w),
        tidy(w, b.ptr),
        0 <= l < 256,
        0 <= h < 256,
    ensures
        works(
            b,
            at(b.raw("[-[->>>>+<<<<]>[->>>>+<<<<]<>>>>]"@), b.ptr + 4 * l),
            w.insert(b.ptr, l).insert(b.ptr + 1, l).insert(b.ptr + 1027, h),
            w.insert(b.ptr + 1027, h).insert(b.ptr + 4 * l + 1, l),
        ),
{
    broadcast use bytes_insert;

    let p = b.ptr;
    let x = w.insert(p, l).insert(p + 1, l).insert(p + 1027, h);
    let y = w.insert(p + 1027, h).insert(p + 4 * l + 1, l);
    let offs: Seq<int> = seq![0, 1];
    lemma_two(offs, 4);
    assert forall|j: int| 1 <= j <= l implies clear_at(x, #[trigger] leap(p, 4, j), offs) by {
        assert forall|o: int| #[trigger] offs.contains(o) implies x[leap(p, 4, j) + o] == 0 by {
            assert(w[spot(p, 4 * j + o)] == 0);
        }
    }
    lemma_leaps(x, p, 4, l, offs);
    lemma_walk(b, x, p, 4, offs);
    let q = p + 4 * l;
    let z = carried(x.insert(p, 0), p, q, offs);
    assert(w[spot(p, 0)] == 0);
    assert(w[spot(p, 1)] == 0);
    assert(w[spot(p, 4 * l)] == 0);
    assert forall|c: int| z[c] == y[c] by {}
    assert(z =~= y);
    lemma_inner_forward_out(b);
    assert(at(b, p) == b);
    lemma_works_quiet(
        b,
        at(walk(b, 4, offs), q),
        at(b.raw("[-[->>>>+<<<<]>[->>>>+<<<<]<>>>>]"@), q),
        x,
        y,
    );
}

proof fn lemma_fetch_value(b: Bf, w: Cells, p: int, l: int, h: int)
    requires
        bytes(w),
        tidy(w, p),
        0 <= l < 256,
        0 <= h < 256,
        b.ptr == p + 4 * l,
    ensures
        works(
            b,
            at(b.raw(">>>"@).raw("<[-]>[-<+>>+<]>[-<+>]<"@).raw("<<"@), p + 4 * l + 1),
            w.insert(p + 1027, h).insert(p + 4 * l + 1, l),
            w.insert(p + 1027, h).insert(p + 4 * l + 1, l).insert(
                p + 4 * l + 2,
                w[p + 4 * l + 3],
            ),
        ),
{
    broadcast use {works_goto, works_clear, works_fork, works_pour, bytes_insert};

    let x = w.insert(p + 1027, h).insert(p + 4 * l + 1, l);
    let v = p + 4 * l + 3;
    let y = x.insert(v - 1, w[v]);
    assert(w.dom().contains(v));
    lemma_works_start(b, x);
    let b1 = b.goto(v);
    let b2 = b1.clear(v - 1);
    let x2 = x.insert(v - 1, 0);
    assert(works(b, b1, x, x));
    assert(works(b, b2, x, x2));
    let b3 = fork(b2, v, v - 1, v + 1, v + 1);
    let x3 = forked(x2, v, v - 1, v + 1);
    assert(works(b, b3, x, x3));
    let b4 = b3.pour(v + 1, v);
    let x4 = poured(x3, v + 1, v);
    assert(works(b, b4, x, x4));
    let b5 = b4.goto(v).goto(v - 2);
    assert(works(b, b4.goto(v), x, x4));
    assert(works(b, b5, x, x4));
    assert(w[spot(p, 4 * l + 4)] == 0);
    assert(w[spot(p, 4 * l + 2)] == 0);
    assert(x4 =~= y);
    let c = at(b.raw(">>>"@).raw("<[-]>[-<+>>+<]>[-<+>]<"@).raw("<<"@), v - 2);
    assert(c.out =~= b5.out) by {
        reveal(fork);
        reveal(Bf::pour);
        reveal_strlit(">>>");
        reveal_strlit("<[-]>[-<+>>+<]>[-<+>]<");
        reveal_strlit("<<");
        reveal_strlit("[");
        reveal_strlit("]");
        reveal_strlit("-");
        reveal_strlit("+");
        reveal_strlit("[-");
        reveal_strlit("[-]");
    }
    assert(b5.ptr == c.ptr);
    lemma_works_quiet(b, b5, c, x, y);
}

proof fn lemma_fetch_back(b: Bf, w: Cells, p: int, l: int, h: int, v: int)
    requires
        bytes(w),
        tidy(w, p),
        0 <= l < 256,
        0 <= h < 256,
        0 <= v < 256,
        b.ptr == p + 4 * l + 1,
    ensures
        works(
            b,
            at(b.raw("[-[-<<<<+>>>>]>[-<<<<+>>>>]<<<<<]"@), p + 1),
            w.insert(p + 1027, h).insert(p + 4 * l + 1, l).insert(p + 4 * l + 2, v),
            w.insert(p + 1027, h).insert(p + 2, v),
        ),
{
    broadcast use bytes_insert;

    let x = w.insert(p + 1027, h).insert(p + 4 * l + 1, l).insert(p + 4 * l + 2, v);
    let y = w.insert(p + 1027, h).insert(p + 2, v);
    let q = p + 4 * l + 1;
    let offs: Seq<int> = seq![0, 1];
    lemma_two(offs, -4);
    assert forall|j: int| 1 <= j <= l implies clear_at(x, #[trigger] leap(q, -4, j), offs) by {
        assert forall|o: int| #[trigger] offs.contains(o) implies x[leap(q, -4, j) + o] == 0 by {
            assert(w[spot(p, 4 * (l - j) + 1 + o)] == 0);
        }
    }
    lemma_leaps(x, q, -4, l, offs);
    lemma_walk(b, x, q, -4, offs);
    let z = carried(x.insert(q, 0), q, p + 1, offs);
    assert(w[spot(p, 1)] == 0);
    assert(w[spot(p, 2)] == 0);
    assert(w[spot(p, 4 * l + 1)] == 0);
    assert(w[spot(p, 4 * l + 2)] == 0);
    assert forall|c: int| z[c] == y[c] by {}
    assert(z =~= y);
    lemma_inner_back_out(b);
    assert(at(b, q) == b);
    lemma_works_quiet(
        b,
        at(walk(b, -4, offs), p + 1),
        at(b.raw("[-[-<<<<+>>>>]>[-<<<<+>>>>]<<<<<]"@), p + 1),
        x,
        y,
    );
}

/// `fetch` brings the element back.
proof fn lemma_fetch(b: Bf, w: Cells, l: int, h: int)
    requires
        bytes(w),
        tidy(w, b.ptr),
        0 <= l < 256,
        0 <= h < 256,
    ensures
        works(
            b,
            at(fetch(b), b.ptr + 1),
            w.insert(b.ptr, l).insert(b.ptr + 1, l).insert(b.ptr + 1027, h),
            w.insert(b.ptr + 1027, h).insert(b.ptr + 2, w[b.ptr + 4 * l + 3]),
        ),
{
    let p = b.ptr;
    let v = w[p + 4 * l + 3];
    assert(w.dom().contains(p + 4 * l + 3));
    let x = w.insert(p, l).insert(p + 1, l).insert(p + 1027, h);
    lemma_fetch_forward(b, w, l, h);
    let b1 = at(b.raw("[-[->>>>+<<<<]>[->>>>+<<<<]<>>>>]"@), p + 4 * l);
    let x1 = w.insert(p + 1027, h).insert(p + 4 * l + 1, l);
    lemma_fetch_value(b1, w, p, l, h);
    let b2 = at(b1.raw(">>>"@).raw("<[-]>[-<+>>+<]>[-<+>]<"@).raw("<<"@), p + 4 * l + 1);
    let x2 = x1.insert(p + 4 * l + 2, v);
    lemma_works_then(b, b1, b2, x, x1, x2);
    lemma_fetch_back(b2, w, p, l, h, v);
    let b3 = at(b2.raw("[-[-<<<<+>>>>]>[-<<<<+>>>>]<<<<<]"@), p + 1);
    let x3 = w.insert(p + 1027, h).insert(p + 2, v);
    lemma_works_then(b, b2, b3, x, x2, x3);
    assert(b3.out == fetch(b).out);
    lemma_works_quiet(b, b3, at(fetch(b), p + 1), x, x3);
}

/// `forward_three` takes the prefix cells of the first chunk to chunk `h`.
proof fn lemma_out_three(b: Bf, w: Cells, base: int, n: int, h: int, l: int)
    requires
        bytes(w),
        all_tidy(w, base, n),
        0 <= h < n,
        h < 256,
        0 <= l < 256,
        b.ptr == base,
    ensures
        works(
            b,
            at(b.forward_three(1029), chunk(base, h)),
            w.insert(base, h).insert(base + 1, h).insert(base + 2, l),
            w.insert(chunk(base, h) + 1, h).insert(chunk(base, h) + 2, l),
        ),
{
    broadcast use bytes_insert;

    let x = w.insert(base, h).insert(base + 1, h).insert(base + 2, l);
    let q = chunk(base, h);
    let y = w.insert(q + 1, h).insert(q + 2, l);
    let offs: Seq<int> = seq![0, 1, 2];
    lemma_three(offs, 1029);
    assert forall|j: int| 1 <= j <= h implies clear_at(x, #[trigger] leap(base, 1029, j), offs) by {
        let c = chunk(base, j);
        assert(tidy(w, c));
        assert forall|o: int| #[trigger] offs.contains(o) implies x[leap(base, 1029, j) + o] == 0 by {
            assert(w[spot(c, o)] == 0);
        }
    }
    lemma_leaps(x, base, 1029, h, offs);
    lemma_walk(b, x, base, 1029, offs);
    let z = carried(x.insert(base, 0), base, q, offs);
    let c = chunk(base, 0);
    assert(tidy(w, c) && tidy(w, q));
    assert(w[spot(c, 0)] == 0 && w[spot(c, 1)] == 0 && w[spot(c, 2)] == 0);
    assert(w[spot(q, 0)] == 0 && w[spot(q, 1)] == 0 && w[spot(q, 2)] == 0);
    assert forall|c: int| z[c] == y[c] by {}
    assert(z =~= y);
    lemma_forward_three_out(b, 1029);
    assert(at(b, base) == b);
    lemma_works_quiet(b, at(walk(b, 1029, offs), q), at(b.forward_three(1029), q), x, y);
}

/// `backward_three` takes the prefix cells of chunk `h` to the first chunk.
proof fn lemma_home_three(b: Bf, w: Cells, base: int, n: int, h: int, v: int)
    requires
        bytes(w),
        all_tidy(w, base, n),
        0 <= h < n,
        h < 256,
        0 <= v < 256,
        b.ptr == chunk(base, h),
    ensures
        works(
            b,
            at(b.backward_three(1029), base),
            w.insert(b.ptr, h).insert(b.ptr + 1, h).insert(b.ptr + 2, v),
            w.insert(base + 1, h).insert(base + 2, v),
        ),
{
    broadcast use bytes_insert;

    let q = b.ptr;
    let x = w.insert(q, h).insert(q + 1, h).insert(q + 2, v);
    let y = w.insert(base + 1, h).insert(base + 2, v);
    let offs: Seq<int> = seq![0, 1, 2];
    lemma_three(offs, -1029);
    assert forall|j: int| 1 <= j <= h implies clear_at(x, #[trigger] leap(q, -1029, j), offs) by {
        let c = chunk(base, h - j);
        assert(tidy(w, c));
        assert forall|o: int| #[trigger] offs.contains(o) implies x[leap(q, -1029, j) + o] == 0 by {
            assert(w[spot(c, o)] == 0);
        }
    }
    lemma_leaps(x, q, -1029, h, offs);
    lemma_walk(b, x, q, -1029, offs);
    let z = carried(x.insert(q, 0), q, base, offs);
    let c = chunk(base, 0);
    assert(tidy(w, c) && tidy(w, q));
    assert(w[spot(c, 0)] == 0 && w[spot(c, 1)] == 0 && w[spot(c, 2)] == 0);
    assert(w[spot(q, 0)] == 0 && w[spot(q, 1)] == 0 && w[spot(q, 2)] == 0);
    assert forall|c: int| z[c] == y[c] by {}
    assert(z =~= y);
    lemma_backward_three_out(b, 1029);
    assert(at(b, q) == b);
    lemma_works_quiet(b, at(walk(b, -1029, offs), base), at(b.backward_three(1029), base), x, y);
}

/// `restore_chunk_id` brings the chunk number back, twice.
proof fn lemma_restore(b: Bf, w: Cells, q: int, h: int, v: int)
    requires
        bytes(w),
        tidy(w, q),
        0 <= h < 256,
        0 <= v < 256,
        b.ptr == q + 1,
    ensures
        works(
            b,
            at(b.restore_chunk_id(1029), q),
            w.insert(q + 1027, h).insert(q + 2, v),
            w.insert(q, h).insert(q + 1, h).insert(q + 2, v),
        ),
{
    broadcast use {works_goto, works_fork, works_pour, bytes_insert};

    let x = w.insert(q + 1027, h).insert(q + 2, v);
    let y = w.insert(q, h).insert(q + 1, h).insert(q + 2, v);
    lemma_works_start(b, x);
    let b1 = b.pour(q + 1027, q);
    let x1 = poured(x, q + 1027, q);
    assert(works(b, b1, x, x1));
    let b2 = b1.goto(q);
    assert(works(b, b2, x, x1));
    let b3 = fork(b2, q, q + 1, q + 4, q + 4);
    let x3 = forked(x1, q, q + 1, q + 4);
    assert(works(b, b3, x, x3));
    let b4 = b3.pour(q + 4, q);
    let x4 = poured(x3, q + 4, q);
    assert(works(b, b4, x, x4));
    let b5 = b4.goto(q);
    assert(works(b, b5, x, x4));
    assert(w[spot(q, 0)] == 0 && w[spot(q, 1)] == 0 && w[spot(q, 4)] == 0 && w[spot(q, 1027)] == 0);
    assert(x4 =~= y);
    let c = b.restore_chunk_id(1029);
    let g = b.many('>', 1026);
    let c2 = g.shift_left(1027).many('<', 1027);
    assert(b2.out == c2.out) by {
        lemma_pour_out(b, g, q + 1027, -1027);
    }
    assert(c.out =~= b5.out) by {
        reveal(Bf::restore_chunk_id);
        assert(c.out == c2.raw("[->+>>>+<<<<]>>>>[-<<<<+>>>>]<<<<"@).out);
        reveal(fork);
        reveal(Bf::pour);
        reveal_strlit("[->+>>>+<<<<]>>>>[-<<<<+>>>>]<<<<");
        reveal_strlit("[");
        reveal_strlit("]");
        reveal_strlit("-");
        reveal_strlit("+");
        reveal_strlit("[-");
    }
    lemma_works_quiet(b, b5, at(c, q), x, y);
}

/// The chunk number is parked behind the elements, and the offset doubled.
proof fn lemma_park(b: Bf, w: Cells, h: int, l: int)
    requires
        bytes(w),
        tidy(w, b.ptr),
        0 <= h < 256,
        0 <= l < 256,
    ensures
        works(
            b,
            b.raw(">"@).shift_right(1026).raw("<"@).raw(">>[-<+<+>>]<<"@),
            w.insert(b.ptr + 1, h).insert(b.ptr + 2, l),
            w.insert(b.ptr, l).insert(b.ptr + 1, l).insert(b.ptr + 1027, h),
        ),
{
    broadcast use {works_goto, works_fork, works_pour, bytes_insert};

    let q = b.ptr;
    let x = w.insert(q + 1, h).insert(q + 2, l);
    let y = w.insert(q, l).insert(q + 1, l).insert(q + 1027, h);
    lemma_works_start(b, x);
    let b1 = b.pour(q + 1, q + 1027);
    let x1 = poured(x, q + 1, q + 1027);
    assert(works(b, b1, x, x1));
    let b2 = b1.goto(q);
    assert(works(b, b2, x, x1));
    let b3 = fork(b2, q + 2, q + 1, q, q);
    let x3 = forked(x1, q + 2, q + 1, q);
    assert(works(b, b3, x, x3));
    let b4 = b3.goto(q);
    assert(works(b, b4, x, x3));
    assert(w[spot(q, 0)] == 0 && w[spot(q, 1)] == 0 && w[spot(q, 2)] == 0 && w[spot(q, 1027)] == 0);
    assert(x3 =~= y);
    lemma_short_moves();
    let g = b.raw(">"@);
    let c2 = g.shift_right(1026).raw("<"@);
    assert(b2.out == c2.out) by {
        lemma_pour_out(b, g, q + 1, 1026);
    }
    let c = c2.raw(">>[-<+<+>>]<<"@);
    assert(c.out =~= b4.out) by {
        reveal(fork);
        reveal_strlit(">>[-<+<+>>]<<");
        reveal_strlit("[");
        reveal_strlit("]");
        reveal_strlit("-");
        reveal_strlit("+");
    }
    assert(c.ptr == q) by {
        reveal(Bf::shift_right);
    }
    assert(b4.ptr == q) by {
        reveal(fork);
    }
    lemma_works_quiet(b, b4, c, x, y);
}

/// A read over chunks brings the element back behind the prefix of the first one.
pub proof fn lemma_read_body(b: Bf, w: Cells, base: int, n: int, h: int, l: int)
    requires
        bytes(w),
        all_tidy(w, base, n),
        0 <= h < n,
        h < 256,
        0 <= l < 256,
        b.ptr == base,
    ensures
        works(
            b,
            b.emit_outer_walk_read_body(256).set_ptr(base),
            w.insert(base, h).insert(base + 1, h).insert(base + 2, l),
            w.insert(base + 1, h).insert(base + 2, w[chunk(base, h) + 4 * l + 3]),
        ),
{
    let q = chunk(base, h);
    assert(tidy(w, q));
    let v = w[q + 4 * l + 3];
    assert(w.dom().contains(q + 4 * l + 3));
    let x = w.insert(base, h).insert(base + 1, h).insert(base + 2, l);
    lemma_out_three(b, w, base, n, h, l);
    let b1 = at(b.forward_three(1029), q);
    let x1 = w.insert(q + 1, h).insert(q + 2, l);
    lemma_park(b1, w, h, l);
    let b2 = b1.raw(">"@).shift_right(1026).raw("<"@).raw(">>[-<+<+>>]<<"@);
    let x2 = w.insert(q, l).insert(q + 1, l).insert(q + 1027, h);
    lemma_works_then(b, b1, b2, x, x1, x2);
    assert(b2.ptr == q) by {
        reveal(Bf::shift_right);
    }
    lemma_fetch(b2, w, l, h);
    let b3 = at(fetch(b2), q + 1);
    let x3 = w.insert(q + 1027, h).insert(q + 2, v);
    lemma_works_then(b, b2, b3, x, x2, x3);
    lemma_restore(b3, w, q, h, v);
    let b4 = at(b3.restore_chunk_id(1029), q);
    let x4 = w.insert(q, h).insert(q + 1, h).insert(q + 2, v);
    lemma_works_then(b, b3, b4, x, x3, x4);
    lemma_home_three(b4, w, base, n, h, v);
    let b5 = at(b4.backward_three(1029), base);
    let x5 = w.insert(base + 1, h).insert(base + 2, v);
    lemma_works_then(b, b4, b5, x, x4, x5);
    let c = b.emit_outer_walk_read_body(256).set_ptr(base);
    assert(c.out == b5.out) by {
        reveal(Bf::emit_outer_walk_read_body);
        lemma_same_text(b, b1, b2, b3, b4, q);
    }
    lemma_works_quiet(b, b5, c, x, x5);
}

/// The text of a read over chunks does not depend on the data pointer.
proof fn lemma_same_text(b: Bf, b1: Bf, b2: Bf, b3: Bf, b4: Bf, q: int)
    requires
        b1 == at(b.forward_three(1029), q),
        b2 == b1.raw(">"@).shift_right(1026).raw("<"@).raw(">>[-<+<+>>]<<"@),
        b3 == at(fetch(b2), q + 1),
        b4 == at(b3.restore_chunk_id(1029), q),
    ensures
        b.emit_outer_walk_read_body(256).out == b4.backward_three(1029).out,
{
    reveal(Bf::emit_outer_walk_read_body);
    reveal(Bf::restore_chunk_id);
    reveal(Bf::backward_three);
    reveal(Bf::shift_right);
    reveal(Bf::shift_left);
}

/// A chunk stays tidy where an element changes.
pub proof fn lemma_tidy_put(w: Cells, base: int, n: int, h: int, l: int, v: int)
    requires
        all_tidy(w, base, n),
        0 <= l < 256,
    ensures
        all_tidy(w.insert(chunk(base, h) + 4 * l + 3, v), base, n),
{
    let at = chunk(base, h) + 4 * l + 3;
    assert forall|j: int| 0 <= j < n implies tidy(w.insert(at, v), #[trigger] chunk(base, j)) by {
        let c = chunk(base, j);
        assert(tidy(w, c));
        assert forall|r: int| 0 <= r < 1029 && idle(r) implies w.insert(
            at,
            v,
        )[#[trigger] spot(c, r)] == 0 by {
            assert(w[spot(c, r)] == 0);
            assert(holds_element(4 * l + 3));
            if spot(c, r) == at {
                assert(1029 * (j - h) == 4 * l + 3 - r);
                assert(j == h);
            }
        }
    }
}

/// What a walk with four cells carries.
proof fn lemma_four(offs: Seq<int>, d: int)
    requires
        offs == seq![0int, 1, 2, d - 1],
        d >= 4,
    ensures
        fits(offs, d),
        forall|o: int| #[trigger]
            offs.contains(o) <==> o == 0 || o == 1 || o == 2 || o == d - 1,
{
    assert(offs[0] == 0 && offs[1] == 1 && offs[2] == 2 && offs[3] == d - 1);
    assert(offs.contains(0) && offs.contains(1) && offs.contains(2) && offs.contains(d - 1));
}

/// The walk of a write takes the prefix cells and the value to chunk `h`.
proof fn lemma_out_four(b: Bf, w: Cells, base: int, n: int, h: int, l: int, v: int)
    requires
        bytes(w),
        all_tidy(w, base, n),
        0 <= h < n,
        h < 256,
        0 <= l < 256,
        0 <= v < 256,
        b.ptr == base,
    ensures
        works(
            b,
            at(forward_four(b, 1029), chunk(base, h)),
            w.insert(base, h).insert(base + 1, h).insert(base + 2, l).insert(base + 1028, v),
            w.insert(chunk(base, h) + 1, h).insert(chunk(base, h) + 2, l).insert(
                chunk(base, h) + 1028,
                v,
            ),
        ),
{
    broadcast use bytes_insert;

    let x = w.insert(base, h).insert(base + 1, h).insert(base + 2, l).insert(base + 1028, v);
    let q = chunk(base, h);
    let y = w.insert(q + 1, h).insert(q + 2, l).insert(q + 1028, v);
    let offs: Seq<int> = seq![0, 1, 2, 1028];
    lemma_four(offs, 1029);
    assert forall|j: int| 1 <= j <= h implies clear_at(x, #[trigger] leap(base, 1029, j), offs) by {
        let c = chunk(base, j);
        assert(tidy(w, c));
        assert forall|o: int| #[trigger] offs.contains(o) implies x[leap(base, 1029, j) + o] == 0 by {
            assert(w[spot(c, o)] == 0);
        }
    }
    lemma_leaps(x, base, 1029, h, offs);
    lemma_walk(b, x, base, 1029, offs);
    let z = carried(x.insert(base, 0), base, q, offs);
    let c = chunk(base, 0);
    assert(tidy(w, c) && tidy(w, q));
    assert(w[spot(c, 0)] == 0 && w[spot(c, 1)] == 0 && w[spot(c, 2)] == 0 && w[spot(c, 1028)] == 0);
    assert(w[spot(q, 0)] == 0 && w[spot(q, 1)] == 0 && w[spot(q, 2)] == 0 && w[spot(q, 1028)] == 0);
    assert forall|c: int| z[c] == y[c] by {}
    assert(z =~= y);
    lemma_forward_four_out(b, 1029);
    assert(at(b, base) == b);
    lemma_works_quiet(b, at(walk(b, 1029, offs), q), at(forward_four(b, 1029), q), x, y);
}

/// The cells of the chunk are put in place for the walk to the element.
pub open spec fn arrange(b: Bf) -> Bf {
    b.raw(">"@).shift_right(1026).raw("<"@).raw(">>[-<<+>>]<<"@).many('>', 1028).shift_left(
        1026,
    ).many('<', 1028).raw("[->+>>>>>+<<<<<<]>>>>>>[-<<<<<<+>>>>>>]<<<<<<"@)
}

proof fn lemma_arrange(b: Bf, w: Cells, h: int, l: int, v: int)
    requires
        bytes(w),
        tidy(w, b.ptr),
        0 <= h < 256,
        0 <= l < 256,
        0 <= v < 256,
    ensures
        works(
            b,
            at(arrange(b), b.ptr),
            w.insert(b.ptr + 1, h).insert(b.ptr + 2, l).insert(b.ptr + 1028, v),
            w.insert(b.ptr, l).insert(b.ptr + 1, l).insert(b.ptr + 2, v).insert(b.ptr + 1027, h),
        ),
{
    broadcast use {works_goto, works_fork, works_pour, bytes_insert};

    let q = b.ptr;
    let x = w.insert(q + 1, h).insert(q + 2, l).insert(q + 1028, v);
    let y = w.insert(q, l).insert(q + 1, l).insert(q + 2, v).insert(q + 1027, h);
    lemma_works_start(b, x);
    let b1 = b.pour(q + 1, q + 1027);
    let x1 = poured(x, q + 1, q + 1027);
    assert(works(b, b1, x, x1));
    let b2 = b1.goto(q);
    assert(works(b, b2, x, x1));
    let b3 = b2.pour(q + 2, q);
    let x3 = poured(x1, q + 2, q);
    assert(works(b, b3, x, x3));
    let b4 = b3.goto(q);
    assert(works(b, b4, x, x3));
    let b5 = b4.pour(q + 1028, q + 2);
    let x5 = poured(x3, q + 1028, q + 2);
    assert(works(b, b5, x, x5));
    let b6 = b5.goto(q);
    assert(works(b, b6, x, x5));
    let b7 = fork(b6, q, q + 1, q + 6, q + 6);
    let x7 = forked(x5, q, q + 1, q + 6);
    assert(works(b, b7, x, x7));
    let b8 = b7.pour(q + 6, q);
    let x8 = poured(x7, q + 6, q);
    assert(works(b, b8, x, x8));
    let b9 = b8.goto(q);
    assert(works(b, b9, x, x8));
    assert(w[spot(q, 0)] == 0 && w[spot(q, 1)] == 0 && w[spot(q, 2)] == 0 && w[spot(q, 6)] == 0);
    assert(w[spot(q, 1027)] == 0 && w[spot(q, 1028)] == 0);
    assert(x8 =~= y);
    lemma_short_moves();
    let g1 = b.raw(">"@);
    let c2 = g1.shift_right(1026).raw("<"@);
    assert(b2.out == c2.out) by {
        lemma_pour_out(b, g1, q + 1, 1026);
    }
    assert(b2.ptr == q);
    let c4 = c2.raw(">>[-<<+>>]<<"@);
    assert(c4.out =~= b4.out) by {
        reveal(Bf::pour);
        reveal_strlit(">>[-<<+>>]<<");
        reveal_strlit("]");
        reveal_strlit("+");
        reveal_strlit("[-");
    }
    let g2 = c4.many('>', 1028);
    let c6 = g2.shift_left(1026).many('<', 1028);
    assert(b6.out == c6.out) by {
        lemma_pour_out(b4, g2, q + 1028, -1026);
    }
    let c = c6.raw("[->+>>>>>+<<<<<<]>>>>>>[-<<<<<<+>>>>>>]<<<<<<"@);
    assert(c.out =~= b9.out) by {
        reveal(fork);
        reveal(Bf::pour);
        reveal_strlit("[->+>>>>>+<<<<<<]>>>>>>[-<<<<<<+>>>>>>]<<<<<<");
        reveal_strlit("[");
        reveal_strlit("]");
        reveal_strlit("-");
        reveal_strlit("+");
        reveal_strlit("[-");
    }
    lemma_works_quiet(b, b9, at(arrange(b), q), x, y);
}

/// From the prefix cells of a chunk to an element with its new value and back.
pub open spec fn deliver(b: Bf) -> Bf {
    b.raw("[-[->>>>+<<<<]>[->>>>+<<<<]>[->>>>+<<<<]<<>>>>]"@).raw(">>>"@).raw("[-]<[->+<]<"@).raw(
        "[-[-<<<<+>>>>]<<<<]"@,
    )
}

proof fn lemma_deliver_forward(b: Bf, w: Cells, l: int, h: int, v: int)
    requires
        bytes(w),
        tidy(w, b.ptr),
        0 <= l < 256,
        0 <= h < 256,
        0 <= v < 256,
    ensures
        works(
            b,
            at(b.raw("[-[->>>>+<<<<]>[->>>>+<<<<]>[->>>>+<<<<]<<>>>>]"@), b.ptr + 4 * l),
            w.insert(b.ptr, l).insert(b.ptr + 1, l).insert(b.ptr + 2, v).insert(b.ptr + 1027, h),
            w.insert(b.ptr + 1027, h).insert(b.ptr + 4 * l + 1, l).insert(b.ptr + 4 * l + 2, v),
        ),
{
    broadcast use bytes_insert;

    let p = b.ptr;
    let x = w.insert(p, l).insert(p + 1, l).insert(p + 2, v).insert(p + 1027, h);
    let y = w.insert(p + 1027, h).insert(p + 4 * l + 1, l).insert(p + 4 * l + 2, v);
    let offs: Seq<int> = seq![0, 1, 2];
    lemma_three(offs, 4);
    assert forall|j: int| 1 <= j <= l implies clear_at(x, #[trigger] leap(p, 4, j), offs) by {
        assert forall|o: int| #[trigger] offs.contains(o) implies x[leap(p, 4, j) + o] == 0 by {
            assert(w[spot(p, 4 * j + o)] == 0);
        }
    }
    lemma_leaps(x, p, 4, l, offs);
    lemma_walk(b, x, p, 4, offs);
    let q = p + 4 * l;
    let z = carried(x.insert(p, 0), p, q, offs);
    assert(w[spot(p, 0)] == 0);
    assert(w[spot(p, 1)] == 0);
    assert(w[spot(p, 2)] == 0);
    assert(w[spot(p, 4 * l)] == 0);
    assert forall|c: int| z[c] == y[c] by {}
    assert(z =~= y);
    lemma_inner_write_out(b);
    assert(at(b, p) == b);
    lemma_works_quiet(
        b,
        at(walk(b, 4, offs), q),
        at(b.raw("[-[->>>>+<<<<]>[->>>>+<<<<]>[->>>>+<<<<]<<>>>>]"@), q),
        x,
        y,
    );
}

proof fn lemma_deliver_value(b: Bf, w: Cells, p: int, l: int, h: int, v: int)
    requires
        bytes(w),
        tidy(w, p),
        0 <= l < 256,
        0 <= h < 256,
        0 <= v < 256,
        b.ptr == p + 4 * l,
    ensures
        works(
            b,
            at(b.raw(">>>"@).raw("[-]<[->+<]<"@), p + 4 * l + 1),
            w.insert(p + 1027, h).insert(p + 4 * l + 1, l).insert(p + 4 * l + 2, v),
            w.insert(p + 4 * l + 3, v).insert(p + 1027, h).insert(p + 4 * l + 1, l),
        ),
{
    broadcast use {works_goto, works_clear, works_pour, bytes_insert};

    let x = w.insert(p + 1027, h).insert(p + 4 * l + 1, l).insert(p + 4 * l + 2, v);
    let e = p + 4 * l + 3;
    let y = w.insert(e, v).insert(p + 1027, h).insert(p + 4 * l + 1, l);
    lemma_works_start(b, x);
    let b1 = b.goto(e).clear(e);
    let x1 = x.insert(e, 0);
    assert(works(b, b.goto(e), x, x));
    assert(works(b, b1, x, x1));
    let b2 = b1.pour(e - 1, e);
    let x2 = poured(x1, e - 1, e);
    assert(works(b, b2, x, x2));
    let b3 = b2.goto(e - 2);
    assert(works(b, b3, x, x2));
    assert(w[spot(p, 4 * l + 2)] == 0);
    assert(x2 =~= y);
    let c = at(b.raw(">>>"@).raw("[-]<[->+<]<"@), e - 2);
    assert(c.out =~= b3.out) by {
        reveal(Bf::pour);
        reveal_strlit(">>>");
        reveal_strlit("[-]<[->+<]<");
        reveal_strlit("]");
        reveal_strlit("+");
        reveal_strlit("[-");
        reveal_strlit("[-]");
    }
    lemma_works_quiet(b, b3, c, x, y);
}

proof fn lemma_deliver_back(b: Bf, w: Cells, p: int, l: int, h: int)
    requires
        bytes(w),
        tidy(w, p),
        0 <= l < 256,
        0 <= h < 256,
        b.ptr == p + 4 * l + 1,
    ensures
        works(
            b,
            at(b.raw("[-[-<<<<+>>>>]<<<<]"@), p + 1),
            w.insert(p + 1027, h).insert(p + 4 * l + 1, l),
            w.insert(p + 1027, h),
        ),
{
    broadcast use bytes_insert;

    let x = w.insert(p + 1027, h).insert(p + 4 * l + 1, l);
    let y = w.insert(p + 1027, h);
    let q = p + 4 * l + 1;
    let offs: Seq<int> = seq![0];
    assert(offs[0] == 0);
    assert(offs.contains(0));
    assert(fits(offs, -4));
    assert forall|j: int| 1 <= j <= l implies clear_at(x, #[trigger] leap(q, -4, j), offs) by {
        assert forall|o: int| #[trigger] offs.contains(o) implies x[leap(q, -4, j) + o] == 0 by {
            assert(w[spot(p, 4 * (l - j) + 1)] == 0);
        }
    }
    lemma_leaps(x, q, -4, l, offs);
    lemma_walk(b, x, q, -4, offs);
    let z = carried(x.insert(q, 0), q, p + 1, offs);
    assert(w[spot(p, 1)] == 0);
    assert(w[spot(p, 4 * l + 1)] == 0);
    assert forall|c: int| z[c] == y[c] by {
        assert(offs.contains(c - q) <==> c == q);
        assert(offs.contains(c - (p + 1)) <==> c == p + 1);
    }
    assert forall|c: int| w.dom().contains(c) by {}
    assert(z =~= y);
    lemma_inner_return_out(b);
    assert(at(b, q) == b);
    lemma_works_quiet(
        b,
        at(walk(b, -4, offs), p + 1),
        at(b.raw("[-[-<<<<+>>>>]<<<<]"@), p + 1),
        x,
        y,
    );
}

/// `deliver` changes the element.
proof fn lemma_deliver(b: Bf, w: Cells, l: int, h: int, v: int)
    requires
        bytes(w),
        tidy(w, b.ptr),
        tidy(w.insert(b.ptr + 4 * l + 3, v), b.ptr),
        0 <= l < 256,
        0 <= h < 256,
        0 <= v < 256,
    ensures
        works(
            b,
            at(deliver(b), b.ptr + 1),
            w.insert(b.ptr, l).insert(b.ptr + 1, l).insert(b.ptr + 2, v).insert(b.ptr + 1027, h),
            w.insert(b.ptr + 4 * l + 3, v).insert(b.ptr + 1027, h),
        ),
{
    broadcast use bytes_insert;

    let p = b.ptr;
    let x = w.insert(p, l).insert(p + 1, l).insert(p + 2, v).insert(p + 1027, h);
    lemma_deliver_forward(b, w, l, h, v);
    let b1 = at(b.raw("[-[->>>>+<<<<]>[->>>>+<<<<]>[->>>>+<<<<]<<>>>>]"@), p + 4 * l);
    let x1 = w.insert(p + 1027, h).insert(p + 4 * l + 1, l).insert(p + 4 * l + 2, v);
    lemma_deliver_value(b1, w, p, l, h, v);
    let b2 = at(b1.raw(">>>"@).raw("[-]<[->+<]<"@), p + 4 * l + 1);
    let u = w.insert(p + 4 * l + 3, v);
    let x2 = u.insert(p + 1027, h).insert(p + 4 * l + 1, l);
    lemma_works_then(b, b1, b2, x, x1, x2);
    lemma_deliver_back(b2, u, p, l, h);
    let b3 = at(b2.raw("[-[-<<<<+>>>>]<<<<]"@), p + 1);
    let x3 = u.insert(p + 1027, h);
    lemma_works_then(b, b2, b3, x, x2, x3);
    assert(b3.out == deliver(b).out);
    lemma_works_quiet(b, b3, at(deliver(b), p + 1), x, x3);
}

/// A write over chunks changes the element and leaves the chunk number behind.
pub proof fn lemma_write_body(b: Bf, w: Cells, base: int, n: int, h: int, l: int, v: int)
    requires
        bytes(w),
        all_tidy(w, base, n),
        0 <= h < n,
        h < 256,
        0 <= l < 256,
        0 <= v < 256,
        b.ptr == base,
    ensures
        works(
            b,
            b.emit_outer_walk_write_body(256).set_ptr(base),
            w.insert(base, h).insert(base + 1, h).insert(base + 2, l).insert(base + 1028, v),
            w.insert(chunk(base, h) + 4 * l + 3, v).insert(base + 1, h).insert(base + 2, 0),
        ),
{
    broadcast use bytes_insert;

    let q = chunk(base, h);
    let u = w.insert(q + 4 * l + 3, v);
    lemma_tidy_put(w, base, n, h, l, v);
    assert(tidy(w, q) && tidy(u, q));
    let x = w.insert(base, h).insert(base + 1, h).insert(base + 2, l).insert(base + 1028, v);
    lemma_out_four(b, w, base, n, h, l, v);
    let b1 = at(forward_four(b, 1029), q);
    let x1 = w.insert(q + 1, h).insert(q + 2, l).insert(q + 1028, v);
    lemma_arrange(b1, w, h, l, v);
    let b2 = at(arrange(b1), q);
    let x2 = w.insert(q, l).insert(q + 1, l).insert(q + 2, v).insert(q + 1027, h);
    lemma_works_then(b, b1, b2, x, x1, x2);
    lemma_deliver(b2, w, l, h, v);
    let b3 = at(deliver(b2), q + 1);
    let x3 = u.insert(q + 1027, h);
    lemma_works_then(b, b2, b3, x, x2, x3);
    assert(u[spot(q, 2)] == 0);
    assert(u.dom().contains(q + 2));
    assert(x3 =~= u.insert(q + 1027, h).insert(q + 2, 0));
    lemma_restore(b3, u, q, h, 0);
    let b4 = at(b3.restore_chunk_id(1029), q);
    let x4 = u.insert(q, h).insert(q + 1, h).insert(q + 2, 0);
    lemma_works_then(b, b3, b4, x, x3, x4);
    lemma_home_three(b4, u, base, n, h, 0);
    let b5 = at(b4.backward_three(1029), base);
    let x5 = u.insert(base + 1, h).insert(base + 2, 0);
    lemma_works_then(b, b4, b5, x, x4, x5);
    let c = b.emit_outer_walk_write_body(256).set_ptr(base);
    assert(c.out == b5.out) by {
        reveal(Bf::emit_outer_walk_write_body);
        reveal(Bf::restore_chunk_id);
        reveal(Bf::backward_three);
        reveal(Bf::shift_right);
        reveal(Bf::shift_left);
    }
    lemma_works_quiet(b, b5, c, x, x5);
}

/// Whether a cell lies outside the chunks of an array.
pub open spec fn outside(c: int, base: int, n: int) -> bool {
    c < base || c >= base + 1029 * n
}

/// Chunks stay tidy where a cell outside them changes.
pub proof fn lemma_tidy_outside(x: Cells, base: int, n: int, c: int, v: int)
    requires
        all_tidy(x, base, n),
        outside(c, base, n),
    ensures
        all_tidy(x.insert(c, v), base, n),
{
    assert forall|j: int| 0 <= j < n implies tidy(x.insert(c, v), #[trigger] chunk(base, j)) by {
        let q = chunk(base, j);
        assert(tidy(x, q));
        assert forall|r: int| 0 <= r < 1029 && idle(r) implies x.insert(
            c,
            v,
        )[#[trigger] spot(q, r)] == 0 by {
            assert(x[spot(q, r)] == 0);
        }
    }
}

/// The index goes into the prefix cells of the first chunk.
proof fn lemma_seed(o: Bf, b: Bf, x0: Cells, x: Cells, base: int, n: int, idx: int)
    requires
        works(o, b, x0, x),
        all_tidy(x, base, n),
        n >= 1,
        outside(idx, base, n),
        outside(idx + 1, base, n),
    ensures
        works(
            o,
            b.seed_outer_prefix(base, idx),
            x0,
            x.insert(idx, 0).insert(idx + 1, 0).insert(base, x[idx + 1]).insert(
                base + 1,
                x[idx + 1],
            ).insert(base + 2, x[idx]),
        ),
        all_tidy(x.insert(idx, 0).insert(idx + 1, 0), base, n),
{
    broadcast use {works_fork, works_pour};

    lemma_works_bytes(o, b, x0, x);
    assert(x.dom().contains(idx) && x.dom().contains(idx + 1));
    lemma_tidy_outside(x, base, n, idx, 0);
    lemma_tidy_outside(x.insert(idx, 0), base, n, idx + 1, 0);
    let q = chunk(base, 0);
    assert(tidy(x, q));
    assert(x[spot(q, 0)] == 0 && x[spot(q, 1)] == 0 && x[spot(q, 2)] == 0);
    let b1 = fork(b, idx + 1, base, base + 1, base);
    let x1 = forked(x, idx + 1, base, base + 1);
    assert(works(o, b1, x0, x1));
    let b2 = b1.pour(idx, base + 2);
    let x2 = poured(x1, idx, base + 2);
    assert(works(o, b2, x0, x2));
    let y = x.insert(idx, 0).insert(idx + 1, 0).insert(base, x[idx + 1]).insert(
        base + 1,
        x[idx + 1],
    ).insert(base + 2, x[idx]);
    assert(x2 =~= y);
    let c = b.seed_outer_prefix(base, idx);
    assert(c.out == b2.out && c.ptr == b2.ptr) by {
        reveal(Bf::seed_outer_prefix);
        let g = b.goto(idx + 1);
        let g1 = g.raw("["@).raw("-"@);
        let f1 = g.raw("[-"@);
        assert(g1.out =~= f1.out) by {
            reveal_strlit("[");
            reveal_strlit("-");
            reveal_strlit("[-");
        }
        let g2 = g1.goto(base);
        let f2 = f1.goto(base);
        let g3 = g2.raw("+"@).goto(base + 1).raw("+"@).goto(base);
        let f3 = f2.raw("+>+<"@);
        assert(g3.out =~= f3.out) by {
            reveal_strlit("+");
            reveal_strlit("+>+<");
        }
        let f4 = f3.goto(idx + 1).raw("]"@);
        assert(b1.out == f4.out && b1.ptr == f4.ptr) by {
            reveal(fork);
        }
        reveal(Bf::pour);
    }
    lemma_works_quiet(o, b2, c, x0, y);
}

/// The element of a chunked array that an index of two cells selects.
pub open spec fn element(base: int, h: int, l: int) -> int {
    chunk(base, h) + 4 * l + 3
}

/// A read over chunks adds the selected element to `result`. The index is used
/// up, and no other cell changes.
pub proof fn lemma_read_chunks(
    o: Bf,
    b: Bf,
    x0: Cells,
    x: Cells,
    base: int,
    n: int,
    idx: int,
    result: int,
)
    requires
        works(o, b, x0, x),
        all_tidy(x, base, n),
        x[idx + 1] < n,
        outside(idx, base, n),
        outside(idx + 1, base, n),
        outside(result, base, n),
        result != idx,
        result != idx + 1,
    ensures
        works(
            o,
            b.read_chunks(base, idx, 256, result),
            x0,
            x.insert(idx, 0).insert(idx + 1, 0).insert(
                result,
                (x[result] + x[element(base, x[idx + 1], x[idx])]) % 256,
            ),
        ),
{
    broadcast use {works_goto, works_clear, works_pour, works_tfree_n, bytes_insert};

    lemma_works_bytes(o, b, x0, x);
    assert(x.dom().contains(idx) && x.dom().contains(idx + 1) && x.dom().contains(result));
    let h = x[idx + 1];
    let l = x[idx];
    lemma_seed(o, b, x0, x, base, n, idx);
    let w = x.insert(idx, 0).insert(idx + 1, 0);
    let b1 = b.seed_outer_prefix(base, idx);
    let x1 = w.insert(base, h).insert(base + 1, h).insert(base + 2, l);
    let b2 = b1.tfree_n(idx, 2);
    assert(works(o, b2, x0, x1));
    let b3 = b2.goto(base);
    assert(works(o, b3, x0, x1));
    lemma_read_body(b3, w, base, n, h, l);
    let b4 = b3.emit_outer_walk_read_body(256).set_ptr(base);
    let e = element(base, h, l);
    let v = w[e];
    assert(v == x[e]);
    assert(x.dom().contains(e));
    let x4 = w.insert(base + 1, h).insert(base + 2, v);
    lemma_works_then(o, b3, b4, x0, x1, x4);
    let b5 = b4.clear(base + 1);
    let x5 = x4.insert(base + 1, 0);
    assert(works(o, b5, x0, x5));
    let b6 = b5.pour(base + 2, result);
    let x6 = poured(x5, base + 2, result);
    assert(works(o, b6, x0, x6));
    let q = chunk(base, 0);
    assert(tidy(w, q));
    assert(w[spot(q, 0)] == 0 && w[spot(q, 1)] == 0 && w[spot(q, 2)] == 0);
    let y = w.insert(result, (x[result] + x[e]) % 256);
    assert(x6 =~= y);
    reveal(Bf::read_chunks);
    reveal(Bf::extract_outer_walk_result);
    assert(b.read_chunks(base, idx, 256, result) == b6);
}

/// A write over chunks changes the selected element to `val`. The index and
/// `val` are used up, and no other cell changes.
pub proof fn lemma_write_chunks(
    o: Bf,
    b: Bf,
    x0: Cells,
    x: Cells,
    base: int,
    n: int,
    idx: int,
    val: int,
)
    requires
        works(o, b, x0, x),
        all_tidy(x, base, n),
        x[idx + 1] < n,
        outside(idx, base, n),
        outside(idx + 1, base, n),
        outside(val, base, n),
        val != idx,
        val != idx + 1,
    ensures
        works(
            o,
            b.write_chunks(base, idx, 256, val),
            x0,
            x.insert(idx, 0).insert(idx + 1, 0).insert(val, 0).insert(
                element(base, x[idx + 1], x[idx]),
                x[val],
            ),
        ),
{
    broadcast use {works_goto, works_clear, works_pour, works_tfree, works_tfree_n, bytes_insert};

    lemma_works_bytes(o, b, x0, x);
    assert(x.dom().contains(idx) && x.dom().contains(idx + 1) && x.dom().contains(val));
    let h = x[idx + 1];
    let l = x[idx];
    let v = x[val];
    lemma_seed(o, b, x0, x, base, n, idx);
    let w0 = x.insert(idx, 0).insert(idx + 1, 0);
    let w = w0.insert(val, 0);
    lemma_tidy_outside(w0, base, n, val, 0);
    let b1 = b.seed_outer_prefix(base, idx);
    let x1 = w0.insert(base, h).insert(base + 1, h).insert(base + 2, l);
    assert(works(o, b1, x0, x1));
    let b2 = b1.pour(val, base + 1028);
    let x2 = poured(x1, val, base + 1028);
    assert(works(o, b2, x0, x2));
    let q = chunk(base, 0);
    assert(tidy(w, q) && tidy(w0, q));
    assert(w[spot(q, 0)] == 0 && w[spot(q, 1)] == 0 && w[spot(q, 2)] == 0);
    assert(w0[spot(q, 1028)] == 0);
    let x3 = w.insert(base, h).insert(base + 1, h).insert(base + 2, l).insert(base + 1028, v);
    assert(x2 =~= x3);
    let b3 = b2.tfree_n(idx, 2);
    assert(works(o, b3, x0, x3));
    let b4 = b3.tfree(val);
    assert(works(o, b4, x0, x3));
    let b5 = b4.goto(base);
    assert(works(o, b5, x0, x3));
    lemma_write_body(b5, w, base, n, h, l, v);
    let b6 = b5.emit_outer_walk_write_body(256).set_ptr(base);
    let e = element(base, h, l);
    let u = w.insert(e, v);
    let x6 = u.insert(base + 1, h).insert(base + 2, 0);
    lemma_works_then(o, b5, b6, x0, x3, x6);
    let b7 = b6.clear(base + 1);
    let x7 = x6.insert(base + 1, 0);
    assert(works(o, b7, x0, x7));
    lemma_tidy_put(w, base, n, h, l, v);
    assert(tidy(u, q));
    assert(u[spot(q, 1)] == 0 && u[spot(q, 2)] == 0);
    assert(x7 =~= u);
    reveal(Bf::write_chunks);
    assert(b.write_chunks(base, idx, 256, val) == b7);
}

/// A chunked array gives back what was stored in it: the code that stores the
/// value at `v` under the index in `p` and reads under the index in `q` adds to
/// the result the value, where the indices are equal, and the element as it was,
/// where they differ. The idle cells of the chunks are 0 again.
pub proof fn law_chunked_elements_are_read_back(
    b: Bf,
    x: Cells,
    base: int,
    n: int,
    p: int,
    q: int,
    v: int,
    result: int,
) -> (z: Cells)
    requires
        bytes(x),
        all_tidy(x, base, n),
        x[p + 1] < n,
        x[q + 1] < n,
        forall|c: int|
            #![trigger outside(c, base, n)]
            p <= c <= p + 1 || q <= c <= q + 1 || c == v || c == result ==> outside(c, base, n),
        q > p + 1 || p > q + 1,
        !(p <= v <= p + 1) && !(q <= v <= q + 1),
        !(p <= result <= p + 1) && !(q <= result <= q + 1),
        v != result,
    ensures
        works(b, b.write_chunks(base, p, 256, v).read_chunks(base, q, 256, result), x, z),
        z[result] == (x[result] + if x[p] == x[q] && x[p + 1] == x[q + 1] {
            x[v]
        } else {
            x[element(base, x[q + 1], x[q])]
        }) % 256,
        z[element(base, x[p + 1], x[p])] == x[v],
        all_tidy(z, base, n),
{
    assert(outside(p, base, n) && outside(p + 1, base, n) && outside(q, base, n));
    assert(outside(q + 1, base, n) && outside(v, base, n) && outside(result, base, n));
    assert(x.dom().contains(p) && x.dom().contains(p + 1));
    assert(x.dom().contains(q) && x.dom().contains(q + 1));
    let e = element(base, x[p + 1], x[p]);
    let f = element(base, x[q + 1], x[q]);
    lemma_works_start(b, x);
    lemma_write_chunks(b, b, x, x, base, n, p, v);
    let c = b.write_chunks(base, p, 256, v);
    let w = x.insert(p, 0).insert(p + 1, 0).insert(v, 0);
    lemma_tidy_outside(x, base, n, p, 0);
    lemma_tidy_outside(x.insert(p, 0), base, n, p + 1, 0);
    lemma_tidy_outside(x.insert(p, 0).insert(p + 1, 0), base, n, v, 0);
    lemma_tidy_put(w, base, n, x[p + 1], x[p], x[v]);
    let y = w.insert(e, x[v]);
    lemma_read_chunks(b, c, x, y, base, n, q, result);
    lemma_tidy_outside(y, base, n, q, 0);
    lemma_tidy_outside(y.insert(q, 0), base, n, q + 1, 0);
    let z = y.insert(q, 0).insert(q + 1, 0).insert(result, (y[result] + y[f]) % 256);
    lemma_tidy_outside(y.insert(q, 0).insert(q + 1, 0), base, n, result, (y[result] + y[f]) % 256);
    assert(base <= e < base + 1029 * n && base <= f < base + 1029 * n);
    if x[p] == x[q] && x[p + 1] == x[q + 1] {
        assert(e == f);
    } else {
        assert(e != f);
    }
    z
}

} // verus!
