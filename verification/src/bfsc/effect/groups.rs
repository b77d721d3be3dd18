//! What reads and writes over groups of chunks do.

use vstd::prelude::*;

use crate::bfsc::effect::chunks::{
    all_tidy, bytes_insert, chunk, element, idle, leap, lemma_leaps, lemma_open, lemma_pour_out,
    lemma_read_body, lemma_short_moves, lemma_stay, lemma_tidy_outside, lemma_tidy_put,
    lemma_write_body, outside, spot, tidy,
};
use crate::bfsc::effect::steps::{
    bytes, lemma_works_bytes, lemma_works_quiet, lemma_works_start, lemma_works_then, works,
    works_clear, works_goto, works_tfree, works_tfree_n, Cells,
};
use crate::bfsc::effect::walk::{
    at, carried, clear_at, fits, fork, forked, hop, lemma_walk, poured, walk, works_fork, works_pour,
};
use crate::bfsc::emitter::Bf;

verus! {

/// The first cell of a group of 256 chunks.
pub open spec fn group(base: int, g: int) -> int {
    base + 263424 * g
}

/// The offsets of the cells that a walk over groups carries.
pub open spec fn luggage(with_val: bool) -> Seq<int> {
    if with_val {
        seq![0, 1, 2, 1027, 1028]
    } else {
        seq![0, 1, 2, 1027]
    }
}

proof fn lemma_luggage(with_val: bool)
    ensures
        fits(luggage(with_val), 263424),
        forall|o: int| #[trigger]
            luggage(with_val).contains(o) <==> o == 0 || o == 1 || o == 2 || o == 1027 || (with_val
                && o == 1028),
{
    let offs = luggage(with_val);
    assert(offs[0] == 0 && offs[1] == 1 && offs[2] == 2 && offs[3] == 1027);
    assert(with_val ==> offs[4] == 1028);
    assert(offs.contains(0) && offs.contains(1) && offs.contains(2) && offs.contains(1027));
    assert(with_val ==> offs.contains(1028));
}

/// The walk to the group.
proof fn lemma_forward_out(b: Bf, with_val: bool)
    ensures
        b.emit_stage1_macro_walk_forward(256, with_val).out == walk(
            b,
            263424,
            luggage(with_val),
        ).out,
{
    reveal(Bf::emit_stage1_macro_walk_forward);
    reveal_with_fuel(hop, 6);
    let s: int = 263424;
    lemma_open(b);
    lemma_short_moves();
    let h0 = at(b.raw("["@), 0).raw("-"@);
    let k0 = b.raw("[-"@);
    lemma_stay(h0);
    lemma_pour_out(h0, k0, 0, s);
    let h1 = h0.pour(0, s);
    let k1 = k0.shift_right(s).raw(">"@);
    lemma_pour_out(h1, k1, 1, s);
    let h2 = h1.pour(1, 1 + s);
    let k2 = k1.shift_right(s).raw(">"@);
    lemma_pour_out(h2, k2, 2, s);
    let h3 = h2.pour(2, 2 + s);
    let k3 = k2.shift_right(s).many('>', 1025);
    lemma_pour_out(h3, k3, 1027, s);
    let h4 = h3.pour(1027, 1027 + s);
    let offs = luggage(with_val);
    assert(offs.skip(1)[0] == 1);
    assert(offs.skip(1).skip(1)[0] == 2);
    assert(offs.skip(1).skip(1).skip(1)[0] == 1027);
    if with_val {
        let k4 = k3.shift_right(s).raw(">"@);
        lemma_pour_out(h4, k4, 1028, s);
        let h5 = h4.pour(1028, 1028 + s);
        assert(offs.skip(1).skip(1).skip(1).skip(1)[0] == 1028);
        assert(offs.skip(1).skip(1).skip(1).skip(1).skip(1).len() == 0);
        assert(hop(h0, 0, s, offs) == h5);
    } else {
        assert(offs.skip(1).skip(1).skip(1).skip(1).len() == 0);
        assert(hop(h0, 0, s, offs) == h4);
    }
}

/// The offsets of the cells that a walk back over groups carries.
pub open spec fn homeward(carry: bool) -> Seq<int> {
    if carry {
        seq![0, 2]
    } else {
        seq![0]
    }
}

proof fn lemma_homeward(carry: bool)
    ensures
        fits(homeward(carry), -263424),
        forall|o: int| #[trigger] homeward(carry).contains(o) <==> o == 0 || (carry && o == 2),
{
    let offs = homeward(carry);
    assert(offs[0] == 0);
    assert(carry ==> offs[1] == 2);
    assert(offs.contains(0));
    assert(carry ==> offs.contains(2));
}

/// The walk back from the group.
proof fn lemma_backward_out(b: Bf, carry: bool)
    ensures
        b.emit_stage1_macro_walk_backward(256, carry).out == walk(
            b,
            -263424,
            homeward(carry),
        ).out,
{
    reveal(Bf::emit_stage1_macro_walk_backward);
    reveal_with_fuel(hop, 3);
    let s: int = 263424;
    lemma_open(b);
    lemma_short_moves();
    let h0 = at(b.raw("["@), 0).raw("-"@);
    let k0 = b.raw("[-"@);
    lemma_stay(h0);
    lemma_pour_out(h0, k0, 0, -s);
    let h1 = h0.pour(0, -s);
    let offs = homeward(carry);
    if carry {
        let k1 = k0.shift_left(s).raw(">>"@);
        lemma_pour_out(h1, k1, 2, -s);
        let h2 = h1.pour(2, 2 - s);
        assert(offs.skip(1)[0] == 2);
        assert(offs.skip(1).skip(1).len() == 0);
        assert(hop(h0, 0, -s, offs) == h2);
    } else {
        assert(offs.skip(1).len() == 0);
        assert(hop(h0, 0, -s, offs) == h1);
        lemma_stay(h1);
    }
}

/// The first chunk of a group is tidy.
proof fn lemma_group_tidy(w: Cells, base: int, n: int, g: int)
    requires
        all_tidy(w, base, n),
        0 <= g,
        256 * g < n,
    ensures
        tidy(w, group(base, g)),
{
    assert(tidy(w, chunk(base, 256 * g)));
}

/// The chunks of a group and those behind it are tidy.
proof fn lemma_rest_tidy(w: Cells, base: int, n: int, g: int)
    requires
        all_tidy(w, base, n),
        0 <= g,
    ensures
        all_tidy(w, group(base, g), n - 256 * g),
{
    assert forall|j: int| 0 <= j < n - 256 * g implies tidy(
        w,
        #[trigger] chunk(group(base, g), j),
    ) by {
        assert(tidy(w, chunk(base, 256 * g + j)));
    }
}

/// The value cell, where one is carried.
pub open spec fn loaded_with(w: Cells, p: int, with_val: bool, v: int) -> Cells {
    if with_val {
        w.insert(p + 1028, v)
    } else {
        w
    }
}

/// The walk to the group takes the index with it, and the value where there is
/// one.
proof fn lemma_out_group(
    b: Bf,
    w: Cells,
    base: int,
    n: int,
    g: int,
    c: int,
    l: int,
    with_val: bool,
    v: int,
)
    requires
        bytes(w),
        all_tidy(w, base, n),
        0 <= g < 256,
        256 * g < n,
        0 <= c < 256,
        0 <= l < 256,
        0 <= v < 256,
        b.ptr == base,
    ensures
        works(
            b,
            at(b.emit_stage1_macro_walk_forward(256, with_val), group(base, g)),
            loaded_with(
                w.insert(base, g).insert(base + 1, g).insert(base + 2, c).insert(base + 1027, l),
                base,
                with_val,
                v,
            ),
            loaded_with(
                w.insert(group(base, g) + 1, g).insert(group(base, g) + 2, c).insert(
                    group(base, g) + 1027,
                    l,
                ),
                group(base, g),
                with_val,
                v,
            ),
        ),
{
    broadcast use bytes_insert;

    let q = group(base, g);
    let x = loaded_with(
        w.insert(base, g).insert(base + 1, g).insert(base + 2, c).insert(base + 1027, l),
        base,
        with_val,
        v,
    );
    let y = loaded_with(
        w.insert(q + 1, g).insert(q + 2, c).insert(q + 1027, l),
        q,
        with_val,
        v,
    );
    let offs = luggage(with_val);
    lemma_luggage(with_val);
    assert forall|j: int| 1 <= j <= g implies clear_at(
        x,
        #[trigger] leap(base, 263424, j),
        offs,
    ) by {
        let p = group(base, j);
        lemma_group_tidy(w, base, n, j);
        assert forall|o: int| #[trigger] offs.contains(o) implies x[leap(base, 263424, j) + o]
            == 0 by {
            assert(w[spot(p, o)] == 0);
        }
    }
    lemma_leaps(x, base, 263424, g, offs);
    assert(x[base] == g);
    lemma_walk(b, x, base, 263424, offs);
    let z = carried(x.insert(base, 0), base, q, offs);
    let p = group(base, 0);
    lemma_group_tidy(w, base, n, 0);
    lemma_group_tidy(w, base, n, g);
    assert(w[spot(p, 0)] == 0 && w[spot(p, 1)] == 0 && w[spot(p, 2)] == 0);
    assert(w[spot(p, 1027)] == 0 && w[spot(p, 1028)] == 0);
    assert(w[spot(q, 0)] == 0 && w[spot(q, 1)] == 0 && w[spot(q, 2)] == 0);
    assert(w[spot(q, 1027)] == 0 && w[spot(q, 1028)] == 0);
    assert forall|k: int| z[k] == y[k] by {}
    assert(z =~= y);
    lemma_forward_out(b, with_val);
    assert(at(b, base) == b);
    lemma_works_quiet(
        b,
        at(walk(b, 263424, offs), q),
        at(b.emit_stage1_macro_walk_forward(256, with_val), q),
        x,
        y,
    );
}

/// The walk back from the group brings the value, where one is carried.
proof fn lemma_home_group(b: Bf, w: Cells, base: int, n: int, g: int, carry: bool, v: int)
    requires
        bytes(w),
        all_tidy(w, base, n),
        0 <= g < 256,
        256 * g < n,
        0 <= v < 256,
        !carry ==> v == 0,
        b.ptr == group(base, g),
    ensures
        works(
            b,
            at(b.emit_stage1_macro_walk_backward(256, carry), base),
            w.insert(b.ptr, g).insert(b.ptr + 2, v),
            w.insert(base + 2, v),
        ),
{
    broadcast use bytes_insert;

    let q = b.ptr;
    let x = w.insert(q, g).insert(q + 2, v);
    let y = w.insert(base + 2, v);
    let offs = homeward(carry);
    lemma_homeward(carry);
    assert forall|j: int| 1 <= j <= g implies clear_at(x, #[trigger] leap(q, -263424, j), offs) by {
        let p = group(base, g - j);
        lemma_group_tidy(w, base, n, g - j);
        assert forall|o: int| #[trigger] offs.contains(o) implies x[leap(q, -263424, j) + o]
            == 0 by {
            assert(w[spot(p, o)] == 0);
        }
    }
    lemma_leaps(x, q, -263424, g, offs);
    assert(x[q] == g);
    lemma_walk(b, x, q, -263424, offs);
    let z = carried(x.insert(q, 0), q, base, offs);
    let p = group(base, 0);
    lemma_group_tidy(w, base, n, 0);
    lemma_group_tidy(w, base, n, g);
    assert(w[spot(p, 0)] == 0 && w[spot(p, 2)] == 0);
    assert(w[spot(q, 0)] == 0 && w[spot(q, 2)] == 0);
    assert forall|k: int| z[k] == y[k] by {}
    assert forall|k: int| w.dom().contains(k) by {}
    assert(z =~= y);
    lemma_backward_out(b, carry);
    assert(at(b, q) == b);
    lemma_works_quiet(
        b,
        at(walk(b, -263424, offs), base),
        at(b.emit_stage1_macro_walk_backward(256, carry), base),
        x,
        y,
    );
}

/// The group number is kept, and the chunk number and the offset go to their
/// places.
proof fn lemma_down(b: Bf, w: Cells, g: int, c: int, l: int)
    requires
        bytes(w),
        w[b.ptr] == 0,
        w[b.ptr + 1] == 0,
        w[b.ptr + 2] == 0,
        w[b.ptr + 6] == 0,
        w[b.ptr + 1026] == 0,
        w[b.ptr + 1027] == 0,
        0 <= g < 256,
        0 <= c < 256,
        0 <= l < 256,
    ensures
        works(
            b,
            at(b.emit_stage1_to_stage2_transition(256), b.ptr),
            w.insert(b.ptr + 1, g).insert(b.ptr + 2, c).insert(b.ptr + 1027, l),
            w.insert(b.ptr, c).insert(b.ptr + 1, c).insert(b.ptr + 2, l).insert(b.ptr + 1026, g),
        ),
{
    broadcast use {works_goto, works_fork, works_pour, bytes_insert};

    let q = b.ptr;
    let x = w.insert(q + 1, g).insert(q + 2, c).insert(q + 1027, l);
    let y = w.insert(q, c).insert(q + 1, c).insert(q + 2, l).insert(q + 1026, g);
    lemma_works_start(b, x);
    let b1 = b.pour(q + 1, q + 1026);
    let x1 = poured(x, q + 1, q + 1026);
    assert(works(b, b1, x, x1));
    let b2 = b1.pour(q + 2, q);
    let x2 = poured(x1, q + 2, q);
    assert(works(b, b2, x, x2));
    let b3 = b2.pour(q + 1027, q + 2);
    let x3 = poured(x2, q + 1027, q + 2);
    assert(works(b, b3, x, x3));
    let b4 = b3.goto(q);
    assert(works(b, b4, x, x3));
    let b5 = fork(b4, q, q + 1, q + 6, q + 6);
    let x5 = forked(x3, q, q + 1, q + 6);
    assert(works(b, b5, x, x5));
    let b6 = b5.pour(q + 6, q);
    let x6 = poured(x5, q + 6, q);
    assert(works(b, b6, x, x6));
    let b7 = b6.goto(q);
    assert(works(b, b7, x, x6));
    assert(x6 =~= y);
    lemma_short_moves();
    let g1 = b.raw(">"@);
    let c1 = g1.shift_right(1025);
    assert(b1.out == c1.out && b1.ptr == q + 1) by {
        lemma_pour_out(b, g1, q + 1, 1025);
    }
    let c2 = c1.raw(">[-<<+>>]"@);
    assert(c2.out =~= b2.out && b2.ptr == q + 2) by {
        reveal(Bf::pour);
        reveal_strlit(">[-<<+>>]");
        reveal_strlit("]");
        reveal_strlit("+");
        reveal_strlit("[-");
    }
    let g3 = c2.many('>', 1025);
    let c4 = g3.shift_left(1025).many('<', 1027);
    assert(b4.out == c4.out) by {
        lemma_pour_out(b2, g3, q + 1027, -1025);
    }
    let d = c4.raw("[->+>>>>>+<<<<<<]>>>>>>[-<<<<<<+>>>>>>]<<<<<<"@);
    assert(d.out =~= b7.out) by {
        reveal(fork);
        reveal(Bf::pour);
        reveal_strlit("[->+>>>>>+<<<<<<]>>>>>>[-<<<<<<+>>>>>>]<<<<<<");
        reveal_strlit("[");
        reveal_strlit("]");
        reveal_strlit("-");
        reveal_strlit("+");
        reveal_strlit("[-");
    }
    assert(b.emit_stage1_to_stage2_transition(256).out == d.out) by {
        reveal(Bf::emit_stage1_to_stage2_transition);
    }
    lemma_works_quiet(b, b7, at(b.emit_stage1_to_stage2_transition(256), q), x, y);
}

/// The group number comes back.
proof fn lemma_up(b: Bf, w: Cells, g: int, c: int)
    requires
        bytes(w),
        w[b.ptr] == 0,
        w[b.ptr + 1] == 0,
        w[b.ptr + 1026] == 0,
        0 <= g < 256,
        0 <= c < 256,
    ensures
        works(
            b,
            at(b.emit_stage2_to_stage1_transition(256), b.ptr),
            w.insert(b.ptr + 1026, g).insert(b.ptr + 1, c),
            w.insert(b.ptr, g),
        ),
{
    broadcast use {works_goto, works_clear, works_pour, bytes_insert};

    let q = b.ptr;
    let x = w.insert(q + 1026, g).insert(q + 1, c);
    let y = w.insert(q, g);
    lemma_works_start(b, x);
    let b1 = b.clear(q + 1);
    let x1 = x.insert(q + 1, 0);
    assert(works(b, b1, x, x1));
    let b2 = b1.goto(q);
    assert(works(b, b2, x, x1));
    let b3 = b2.pour(q + 1026, q);
    let x3 = poured(x1, q + 1026, q);
    assert(works(b, b3, x, x3));
    let b4 = b3.goto(q);
    assert(works(b, b4, x, x3));
    assert(w.dom().contains(q + 1) && w.dom().contains(q + 1026));
    assert(x3 =~= y);
    let c2 = b.raw(">[-]<"@);
    assert(c2.out =~= b2.out) by {
        reveal_strlit(">[-]<");
        reveal_strlit("[-]");
    }
    let g2 = c2.many('>', 1026);
    let c4 = g2.shift_left(1026).many('<', 1026);
    assert(b4.out == c4.out) by {
        lemma_pour_out(b2, g2, q + 1026, -1026);
    }
    assert(b.emit_stage2_to_stage1_transition(256).out == c4.out) by {
        reveal(Bf::emit_stage2_to_stage1_transition);
    }
    lemma_works_quiet(b, b4, at(b.emit_stage2_to_stage1_transition(256), q), x, y);
}

/// Where a tidy array has no group number kept.
pub open spec fn no_group_kept(x: Cells, base: int, n: int) -> bool {
    forall|g: int| 0 <= g && 256 * g < n ==> x[#[trigger] group(base, g) + 1026] == 0
}

/// The first chunk of every group keeps no number where an element or a cell
/// outside changes.
proof fn lemma_kept_put(x: Cells, base: int, n: int, k: int, v: int)
    requires
        no_group_kept(x, base, n),
        outside(k, base, n) || exists|h: int, l: int|
            0 <= l < 256 && k == #[trigger] element(base, h, l),
    ensures
        no_group_kept(x.insert(k, v), base, n),
{
    assert forall|g: int| 0 <= g && 256 * g < n implies x.insert(k, v)[#[trigger] group(base, g)
        + 1026] == 0 by {
        assert(x[group(base, g) + 1026] == 0);
        if k == group(base, g) + 1026 {
            if exists|h: int, l: int| 0 <= l < 256 && k == #[trigger] element(base, h, l) {
                let (h, l) = choose|h: int, l: int|
                    0 <= l < 256 && k == #[trigger] element(base, h, l);
                assert(1029 * (256 * g - h) == 4 * l + 3 - 1026);
            }
        }
    }
}

/// The index goes into the prefix cells of the first chunk.
proof fn lemma_seed_groups(o: Bf, b: Bf, x0: Cells, x: Cells, base: int, n: int, idx: int)
    requires
        works(o, b, x0, x),
        all_tidy(x, base, n),
        n >= 1,
        outside(idx, base, n),
        outside(idx + 1, base, n),
        outside(idx + 2, base, n),
    ensures
        works(
            o,
            b.seed_outer_prefix_2stage(base, idx, 256),
            x0,
            x.insert(idx, 0).insert(idx + 1, 0).insert(idx + 2, 0).insert(
                base,
                x[idx + 2],
            ).insert(base + 1, x[idx + 2]).insert(base + 2, x[idx + 1]).insert(
                base + 1027,
                x[idx],
            ),
        ),
{
    broadcast use {works_fork, works_pour};

    lemma_works_bytes(o, b, x0, x);
    assert(x.dom().contains(idx) && x.dom().contains(idx + 1) && x.dom().contains(idx + 2));
    let q = chunk(base, 0);
    assert(tidy(x, q));
    assert(x[spot(q, 0)] == 0 && x[spot(q, 1)] == 0 && x[spot(q, 2)] == 0 && x[spot(q, 1027)] == 0);
    let b1 = fork(b, idx + 2, base, base + 1, base);
    let x1 = forked(x, idx + 2, base, base + 1);
    assert(works(o, b1, x0, x1));
    let b2 = b1.pour(idx + 1, base + 2);
    let x2 = poured(x1, idx + 1, base + 2);
    assert(works(o, b2, x0, x2));
    let b3 = b2.pour(idx, base + 1027);
    let x3 = poured(x2, idx, base + 1027);
    assert(works(o, b3, x0, x3));
    let y = x.insert(idx, 0).insert(idx + 1, 0).insert(idx + 2, 0).insert(
        base,
        x[idx + 2],
    ).insert(base + 1, x[idx + 2]).insert(base + 2, x[idx + 1]).insert(base + 1027, x[idx]);
    assert(x3 =~= y);
    let c = b.seed_outer_prefix_2stage(base, idx, 256);
    assert(c.out == b3.out && c.ptr == b3.ptr) by {
        reveal(Bf::seed_outer_prefix_2stage);
        let g = b.goto(idx + 2);
        let g1 = g.raw("["@).raw("-"@);
        let f1 = g.raw("[-"@);
        assert(g1.out =~= f1.out) by {
            reveal_strlit("[");
            reveal_strlit("-");
            reveal_strlit("[-");
        }
        let g2 = g1.goto(base);
        let f2 = f1.goto(base);
        let g3 = g2.raw("+"@).goto(base + 1).raw("+"@).goto(base);
        let f3 = f2.raw("+>+<"@);
        assert(g3.out =~= f3.out) by {
            reveal_strlit("+");
            reveal_strlit("+>+<");
        }
        let f4 = f3.goto(idx + 2).raw("]"@);
        assert(b1.out == f4.out && b1.ptr == f4.ptr) by {
            reveal(fork);
        }
        reveal(Bf::pour);
    }
    lemma_works_quiet(o, b3, c, x0, y);
}

/// From the first group to an element and back with its value.
pub open spec fn fetch_far(b: Bf) -> Bf {
    b.emit_stage1_macro_walk_forward(256, false).emit_stage1_to_stage2_transition(
        256,
    ).emit_outer_walk_read_body(256).emit_stage2_to_stage1_transition(
        256,
    ).emit_stage1_macro_walk_backward(256, true)
}

/// The text of a step does not depend on the data pointer.
proof fn lemma_same_step(b: Bf, c: Bf)
    requires
        b.out == c.out,
    ensures
        b.emit_stage1_to_stage2_transition(256).out == c.emit_stage1_to_stage2_transition(256).out,
        b.emit_stage2_to_stage1_transition(256).out == c.emit_stage2_to_stage1_transition(256).out,
        b.emit_outer_walk_read_body(256).out == c.emit_outer_walk_read_body(256).out,
        b.emit_outer_walk_write_body(256).out == c.emit_outer_walk_write_body(256).out,
        b.emit_stage1_macro_walk_backward(256, true).out == c.emit_stage1_macro_walk_backward(
            256,
            true,
        ).out,
        b.emit_stage1_macro_walk_backward(256, false).out == c.emit_stage1_macro_walk_backward(
            256,
            false,
        ).out,
{
    reveal(Bf::emit_stage1_to_stage2_transition);
    reveal(Bf::emit_stage2_to_stage1_transition);
    reveal(Bf::emit_outer_walk_read_body);
    reveal(Bf::emit_outer_walk_write_body);
    reveal(Bf::emit_stage1_macro_walk_backward);
    reveal(Bf::forward_three);
    reveal(Bf::backward_three);
    reveal(Bf::restore_chunk_id);
    reveal(Bf::shift_right);
    reveal(Bf::shift_left);
}

proof fn lemma_fetch_far(b: Bf, w: Cells, base: int, n: int, g: int, c: int, l: int)
    requires
        bytes(w),
        all_tidy(w, base, n),
        no_group_kept(w, base, n),
        0 <= g < 256,
        0 <= c < 256,
        256 * g + c < n,
        0 <= l < 256,
        b.ptr == base,
    ensures
        works(
            b,
            at(fetch_far(b), base),
            w.insert(base, g).insert(base + 1, g).insert(base + 2, c).insert(base + 1027, l),
            w.insert(base + 2, w[element(base, 256 * g + c, l)]),
        ),
{
    broadcast use bytes_insert;

    let q = group(base, g);
    let e = element(base, 256 * g + c, l);
    let v = w[e];
    assert(w.dom().contains(e));
    assert(e == chunk(q, c) + 4 * l + 3);
    let x = w.insert(base, g).insert(base + 1, g).insert(base + 2, c).insert(base + 1027, l);
    lemma_out_group(b, w, base, n, g, c, l, false, 0);
    let b1 = at(b.emit_stage1_macro_walk_forward(256, false), q);
    let x1 = w.insert(q + 1, g).insert(q + 2, c).insert(q + 1027, l);
    lemma_group_tidy(w, base, n, g);
    assert(w[spot(q, 0)] == 0 && w[spot(q, 1)] == 0 && w[spot(q, 2)] == 0 && w[spot(q, 6)] == 0);
    assert(w[spot(q, 1027)] == 0);
    assert(w[q + 1026] == 0);
    lemma_down(b1, w, g, c, l);
    let b2 = at(b1.emit_stage1_to_stage2_transition(256), q);
    let w2 = w.insert(q + 1026, g);
    let x2 = w2.insert(q, c).insert(q + 1, c).insert(q + 2, l);
    assert(x2 =~= w.insert(q, c).insert(q + 1, c).insert(q + 2, l).insert(q + 1026, g));
    lemma_works_then(b, b1, b2, x, x1, x2);
    lemma_rest_tidy(w, base, n, g);
    lemma_kept_tidy(w, q, n - 256 * g, g);
    lemma_read_body(b2, w2, q, n - 256 * g, c, l);
    let b3 = b2.emit_outer_walk_read_body(256).set_ptr(q);
    let x3 = w2.insert(q + 1, c).insert(q + 2, v);
    assert(w2[e] == v) by {
        assert(e != q + 1026) by {
            if e == q + 1026 {
                assert(1029 * c == 1026 - 4 * l - 3);
            }
        }
    }
    lemma_works_then(b, b2, b3, x, x2, x3);
    let w3 = w.insert(q + 2, v);
    assert(x3 =~= w3.insert(q + 1026, g).insert(q + 1, c));
    lemma_up(b3, w3, g, c);
    let b4 = at(b3.emit_stage2_to_stage1_transition(256), q);
    let x4 = w.insert(q, g).insert(q + 2, v);
    assert(x4 =~= w3.insert(q, g));
    lemma_works_then(b, b3, b4, x, x3, x4);
    lemma_home_group(b4, w, base, n, g, true, v);
    let b5 = at(b4.emit_stage1_macro_walk_backward(256, true), base);
    let x5 = w.insert(base + 2, v);
    lemma_works_then(b, b4, b5, x, x4, x5);
    let d = at(fetch_far(b), base);
    assert(d.out == b5.out) by {
        let d1 = b.emit_stage1_macro_walk_forward(256, false);
        let d2 = d1.emit_stage1_to_stage2_transition(256);
        let d3 = d2.emit_outer_walk_read_body(256);
        let d4 = d3.emit_stage2_to_stage1_transition(256);
        lemma_same_step(d1, b1);
        lemma_same_step(d2, b2);
        lemma_same_step(d3, b3);
        lemma_same_step(d4, b4);
    }
    lemma_works_quiet(b, b5, d, x, x5);
}

/// Where a group number is kept makes no difference to its chunks.
proof fn lemma_kept_tidy(w: Cells, q: int, n: int, g: int)
    requires
        all_tidy(w, q, n),
    ensures
        all_tidy(w.insert(q + 1026, g), q, n),
{
    assert forall|j: int| 0 <= j < n implies tidy(w.insert(q + 1026, g), #[trigger] chunk(q, j)) by {
        let p = chunk(q, j);
        assert(tidy(w, p));
        assert forall|r: int| 0 <= r < 1029 && idle(r) implies w.insert(
            q + 1026,
            g,
        )[#[trigger] spot(p, r)] == 0 by {
            assert(w[spot(p, r)] == 0);
            if spot(p, r) == q + 1026 {
                assert(1029 * j == 1026 - r);
                assert(j == 0);
            }
        }
    }
}

/// From the first group to an element with its new value and back.
pub open spec fn deliver_far(b: Bf) -> Bf {
    b.emit_stage1_macro_walk_forward(256, true).emit_stage1_to_stage2_transition(
        256,
    ).emit_outer_walk_write_body(256).emit_stage2_to_stage1_transition(
        256,
    ).emit_stage1_macro_walk_backward(256, false)
}

proof fn lemma_deliver_far(b: Bf, w: Cells, base: int, n: int, g: int, c: int, l: int, v: int)
    requires
        bytes(w),
        all_tidy(w, base, n),
        no_group_kept(w, base, n),
        0 <= g < 256,
        0 <= c < 256,
        256 * g + c < n,
        0 <= l < 256,
        0 <= v < 256,
        b.ptr == base,
    ensures
        works(
            b,
            at(deliver_far(b), base),
            w.insert(base, g).insert(base + 1, g).insert(base + 2, c).insert(
                base + 1027,
                l,
            ).insert(base + 1028, v),
            w.insert(element(base, 256 * g + c, l), v),
        ),
{
    broadcast use bytes_insert;

    let q = group(base, g);
    let e = element(base, 256 * g + c, l);
    assert(e == chunk(q, c) + 4 * l + 3);
    let u = w.insert(e, v);
    lemma_tidy_put(w, base, n, 256 * g + c, l, v);
    assert(0 <= l < 256 && e == element(base, 256 * g + c, l));
    lemma_kept_put(w, base, n, e, v);
    let x = w.insert(base, g).insert(base + 1, g).insert(base + 2, c).insert(
        base + 1027,
        l,
    ).insert(base + 1028, v);
    lemma_out_group(b, w, base, n, g, c, l, true, v);
    let b1 = at(b.emit_stage1_macro_walk_forward(256, true), q);
    let w1 = w.insert(q + 1028, v);
    let x1 = w1.insert(q + 1, g).insert(q + 2, c).insert(q + 1027, l);
    assert(x1 =~= w.insert(q + 1, g).insert(q + 2, c).insert(q + 1027, l).insert(q + 1028, v));
    lemma_group_tidy(w, base, n, g);
    lemma_group_tidy(u, base, n, g);
    assert(w[spot(q, 0)] == 0 && w[spot(q, 1)] == 0 && w[spot(q, 2)] == 0 && w[spot(q, 6)] == 0);
    assert(w[spot(q, 1027)] == 0);
    assert(w[q + 1026] == 0);
    lemma_down(b1, w1, g, c, l);
    let b2 = at(b1.emit_stage1_to_stage2_transition(256), q);
    let w2 = w.insert(q + 1026, g);
    let x2 = w2.insert(q, c).insert(q + 1, c).insert(q + 2, l).insert(q + 1028, v);
    assert(x2 =~= w1.insert(q, c).insert(q + 1, c).insert(q + 2, l).insert(q + 1026, g));
    lemma_works_then(b, b1, b2, x, x1, x2);
    lemma_rest_tidy(w, base, n, g);
    lemma_kept_tidy(w, q, n - 256 * g, g);
    lemma_write_body(b2, w2, q, n - 256 * g, c, l, v);
    let b3 = b2.emit_outer_walk_write_body(256).set_ptr(q);
    let x3 = w2.insert(e, v).insert(q + 1, c).insert(q + 2, 0);
    lemma_works_then(b, b2, b3, x, x2, x3);
    assert(e != q + 1026 && e != q + 2 && e != q + 1 && e != q) by {
        assert(e - q == 1029 * c + 4 * l + 3);
        if c == 0 {
            assert(4 * l + 3 != 1026);
        }
    }
    assert(u[spot(q, 0)] == 0 && u[spot(q, 1)] == 0 && u[spot(q, 2)] == 0);
    assert(u[q + 1026] == 0);
    assert(u.dom().contains(q + 2));
    assert(x3 =~= u.insert(q + 1026, g).insert(q + 1, c));
    lemma_up(b3, u, g, c);
    let b4 = at(b3.emit_stage2_to_stage1_transition(256), q);
    let x4 = u.insert(q, g);
    lemma_works_then(b, b3, b4, x, x3, x4);
    assert(x4 =~= u.insert(q, g).insert(q + 2, 0));
    lemma_home_group(b4, u, base, n, g, false, 0);
    let b5 = at(b4.emit_stage1_macro_walk_backward(256, false), base);
    lemma_group_tidy(u, base, n, 0);
    assert(u[spot(group(base, 0), 2)] == 0);
    assert(u.dom().contains(base + 2));
    assert(u.insert(base + 2, 0) =~= u);
    lemma_works_then(b, b4, b5, x, x4, u);
    let d = at(deliver_far(b), base);
    assert(d.out == b5.out) by {
        let d1 = b.emit_stage1_macro_walk_forward(256, true);
        let d2 = d1.emit_stage1_to_stage2_transition(256);
        let d3 = d2.emit_outer_walk_write_body(256);
        let d4 = d3.emit_stage2_to_stage1_transition(256);
        lemma_same_step(d1, b1);
        lemma_same_step(d2, b2);
        lemma_same_step(d3, b3);
        lemma_same_step(d4, b4);
    }
    lemma_works_quiet(b, b5, d, x, u);
}

/// An array in groups can be used: the idle cells of its chunks are 0, and no
/// group number is kept.
pub open spec fn in_order(x: Cells, base: int, n: int) -> bool {
    all_tidy(x, base, n) && no_group_kept(x, base, n)
}

/// Changes outside an array leave it in order.
proof fn lemma_order_outside(x: Cells, base: int, n: int, k: int, v: int)
    requires
        in_order(x, base, n),
        outside(k, base, n),
    ensures
        in_order(x.insert(k, v), base, n),
{
    lemma_tidy_outside(x, base, n, k, v);
    lemma_kept_put(x, base, n, k, v);
}

/// The chunk that an index of three cells selects.
pub open spec fn chunk_of(x: Cells, idx: int) -> int {
    256 * x[idx + 2] + x[idx + 1]
}

/// Whether the cells of an index lie outside an array and select one of its
/// chunks.
pub open spec fn selects(x: Cells, base: int, n: int, idx: int) -> bool {
    &&& chunk_of(x, idx) < n
    &&& outside(idx, base, n)
    &&& outside(idx + 1, base, n)
    &&& outside(idx + 2, base, n)
}

/// A read over groups adds the selected element to `result`. The index is used
/// up, and no other cell changes.
pub proof fn lemma_read_groups(
    o: Bf,
    b: Bf,
    x0: Cells,
    x: Cells,
    base: int,
    n: int,
    idx: int,
    result: int,
)
    requires
        works(o, b, x0, x),
        in_order(x, base, n),
        selects(x, base, n, idx),
        outside(result, base, n),
        !(idx <= result <= idx + 2),
    ensures
        works(
            o,
            b.read_groups(base, idx, 256, result),
            x0,
            x.insert(idx, 0).insert(idx + 1, 0).insert(idx + 2, 0).insert(
                result,
                (x[result] + x[element(base, chunk_of(x, idx), x[idx])]) % 256,
            ),
        ),
{
    broadcast use {works_goto, works_clear, works_pour, works_tfree_n, bytes_insert};

    lemma_works_bytes(o, b, x0, x);
    assert(x.dom().contains(idx) && x.dom().contains(idx + 1) && x.dom().contains(idx + 2));
    assert(x.dom().contains(result));
    let g = x[idx + 2];
    let c = x[idx + 1];
    let l = x[idx];
    lemma_seed_groups(o, b, x0, x, base, n, idx);
    lemma_order_outside(x, base, n, idx, 0);
    lemma_order_outside(x.insert(idx, 0), base, n, idx + 1, 0);
    lemma_order_outside(x.insert(idx, 0).insert(idx + 1, 0), base, n, idx + 2, 0);
    let w = x.insert(idx, 0).insert(idx + 1, 0).insert(idx + 2, 0);
    let b1 = b.seed_outer_prefix_2stage(base, idx, 256);
    let x1 = w.insert(base, g).insert(base + 1, g).insert(base + 2, c).insert(base + 1027, l);
    let b2 = b1.tfree_n(idx, 3);
    assert(works(o, b2, x0, x1));
    let b3 = b2.goto(base);
    assert(works(o, b3, x0, x1));
    lemma_fetch_far(b3, w, base, n, g, c, l);
    let b4 = fetch_far(b3).set_ptr(base);
    let e = element(base, 256 * g + c, l);
    let v = w[e];
    assert(v == x[e]);
    assert(x.dom().contains(e));
    let x4 = w.insert(base + 2, v);
    lemma_works_then(o, b3, b4, x0, x1, x4);
    let b5 = b4.clear(base + 1);
    let x5 = x4.insert(base + 1, 0);
    assert(works(o, b5, x0, x5));
    let b6 = b5.pour(base + 2, result);
    let x6 = poured(x5, base + 2, result);
    assert(works(o, b6, x0, x6));
    let q = chunk(base, 0);
    assert(tidy(w, q));
    assert(w[spot(q, 1)] == 0 && w[spot(q, 2)] == 0);
    let y = w.insert(result, (x[result] + x[e]) % 256);
    assert(x6 =~= y);
    reveal(Bf::read_groups);
    reveal(Bf::extract_outer_walk_result);
    assert(b.read_groups(base, idx, 256, result) == b6);
}

/// A write over groups changes the selected element to `val`. The index and
/// `val` are used up, and no other cell changes.
pub proof fn lemma_write_groups(
    o: Bf,
    b: Bf,
    x0: Cells,
    x: Cells,
    base: int,
    n: int,
    idx: int,
    val: int,
)
    requires
        works(o, b, x0, x),
        in_order(x, base, n),
        selects(x, base, n, idx),
        outside(val, base, n),
        !(idx <= val <= idx + 2),
    ensures
        works(
            o,
            b.write_groups(base, idx, 256, val),
            x0,
            x.insert(idx, 0).insert(idx + 1, 0).insert(idx + 2, 0).insert(val, 0).insert(
                element(base, chunk_of(x, idx), x[idx]),
                x[val],
            ),
        ),
{
    broadcast use {works_goto, works_pour, works_tfree, works_tfree_n, bytes_insert};

    lemma_works_bytes(o, b, x0, x);
    assert(x.dom().contains(idx) && x.dom().contains(idx + 1) && x.dom().contains(idx + 2));
    assert(x.dom().contains(val));
    let g = x[idx + 2];
    let c = x[idx + 1];
    let l = x[idx];
    let v = x[val];
    lemma_seed_groups(o, b, x0, x, base, n, idx);
    lemma_order_outside(x, base, n, idx, 0);
    lemma_order_outside(x.insert(idx, 0), base, n, idx + 1, 0);
    lemma_order_outside(x.insert(idx, 0).insert(idx + 1, 0), base, n, idx + 2, 0);
    let w0 = x.insert(idx, 0).insert(idx + 1, 0).insert(idx + 2, 0);
    lemma_order_outside(w0, base, n, val, 0);
    let w = w0.insert(val, 0);
    let b1 = b.seed_outer_prefix_2stage(base, idx, 256);
    let x1 = w0.insert(base, g).insert(base + 1, g).insert(base + 2, c).insert(base + 1027, l);
    assert(works(o, b1, x0, x1));
    let b2 = b1.pour(val, base + 1028);
    let x2 = poured(x1, val, base + 1028);
    assert(works(o, b2, x0, x2));
    let q = chunk(base, 0);
    assert(tidy(w0, q));
    assert(w0[spot(q, 1028)] == 0);
    let x3 = w.insert(base, g).insert(base + 1, g).insert(base + 2, c).insert(
        base + 1027,
        l,
    ).insert(base + 1028, v);
    assert(x2 =~= x3);
    let b3 = b2.tfree_n(idx, 3);
    assert(works(o, b3, x0, x3));
    let b4 = b3.tfree(val);
    assert(works(o, b4, x0, x3));
    let b5 = b4.goto(base);
    assert(works(o, b5, x0, x3));
    lemma_deliver_far(b5, w, base, n, g, c, l, v);
    let b6 = deliver_far(b5).set_ptr(base);
    let u = w.insert(element(base, 256 * g + c, l), v);
    lemma_works_then(o, b5, b6, x0, x3, u);
    reveal(Bf::write_groups);
    assert(b.write_groups(base, idx, 256, val) == b6);
}

/// An array in groups gives back what was stored in it: the code that stores the
/// value at `v` under the index in `p` and reads under the index in `q` adds to
/// the result the value, where the indices are equal, and the element as it was,
/// where they differ. The array is in order again.
pub proof fn law_grouped_elements_are_read_back(
    b: Bf,
    x: Cells,
    base: int,
    n: int,
    p: int,
    q: int,
    v: int,
    result: int,
) -> (z: Cells)
    requires
        bytes(x),
        in_order(x, base, n),
        selects(x, base, n, p),
        selects(x, base, n, q),
        outside(v, base, n),
        outside(result, base, n),
        q > p + 2 || p > q + 2,
        !(p <= v <= p + 2) && !(q <= v <= q + 2),
        !(p <= result <= p + 2) && !(q <= result <= q + 2),
        v != result,
    ensures
        works(b, b.write_groups(base, p, 256, v).read_groups(base, q, 256, result), x, z),
        z[result] == (x[result] + if x[p] == x[q] && x[p + 1] == x[q + 1] && x[p + 2] == x[q + 2] {
            x[v]
        } else {
            x[element(base, chunk_of(x, q), x[q])]
        }) % 256,
        z[element(base, chunk_of(x, p), x[p])] == x[v],
        in_order(z, base, n),
{
    assert(x.dom().contains(p) && x.dom().contains(p + 1) && x.dom().contains(p + 2));
    assert(x.dom().contains(q) && x.dom().contains(q + 1) && x.dom().contains(q + 2));
    let h = chunk_of(x, p);
    let k = chunk_of(x, q);
    let e = element(base, h, x[p]);
    let f = element(base, k, x[q]);
    lemma_works_start(b, x);
    lemma_write_groups(b, b, x, x, base, n, p, v);
    let c = b.write_groups(base, p, 256, v);
    let w = x.insert(p, 0).insert(p + 1, 0).insert(p + 2, 0).insert(v, 0);
    lemma_order_outside(x, base, n, p, 0);
    lemma_order_outside(x.insert(p, 0), base, n, p + 1, 0);
    lemma_order_outside(x.insert(p, 0).insert(p + 1, 0), base, n, p + 2, 0);
    lemma_order_outside(x.insert(p, 0).insert(p + 1, 0).insert(p + 2, 0), base, n, v, 0);
    lemma_tidy_put(w, base, n, h, x[p], x[v]);
    lemma_kept_put(w, base, n, e, x[v]);
    let y = w.insert(e, x[v]);
    assert(base <= e < base + 1029 * n && base <= f < base + 1029 * n);
    lemma_read_groups(b, c, x, y, base, n, q, result);
    let sum = (y[result] + y[f]) % 256;
    let z = y.insert(q, 0).insert(q + 1, 0).insert(q + 2, 0).insert(result, sum);
    lemma_order_outside(y, base, n, q, 0);
    lemma_order_outside(y.insert(q, 0), base, n, q + 1, 0);
    lemma_order_outside(y.insert(q, 0).insert(q + 1, 0), base, n, q + 2, 0);
    lemma_order_outside(
        y.insert(q, 0).insert(q + 1, 0).insert(q + 2, 0),
        base,
        n,
        result,
        sum,
    );
    if x[p] == x[q] && x[p + 1] == x[q + 1] && x[p + 2] == x[q + 2] {
        assert(e == f);
    } else {
        assert(e != f) by {
            if e == f {
                assert(1029 * (h - k) == 4 * (x[q] - x[p]));
                assert(h == k);
            }
        }
    }
    z
}

} // verus!
