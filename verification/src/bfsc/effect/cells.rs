//! Which cells are in use, and what the steps on single cells do.

use vstd::prelude::*;

use crate::bfsc::effect::steps::{
    bytes, lemma_works_bytes, lemma_works_loop, lemma_works_start, lemma_works_then, plus, works,
    works_clear, works_goto, works_inc, works_minus, works_plus, works_setv, works_talloc,
    works_tfree, Cells,
};
use crate::bfsc::emitter::{free_run, lemma_lowest_free, lowest_free, lowest_run, Bf};
use crate::bfsc::sound::arith::sound_flag_if;
use crate::bfsc::sound::steps::{
    sound, sound_clear, sound_goto, sound_minus, sound_plus, sound_setv,
};

verus! {

/// From some place on no cell is in use.
pub open spec fn ample(used: Set<int>) -> bool {
    exists|m: int| #[trigger] all_free(used, m)
}

/// From some place on no temporary cell is in use.
pub open spec fn roomy(b: Bf) -> bool {
    ample(b.used)
}

/// From `m` on no cell is in use.
pub open spec fn all_free(used: Set<int>, m: int) -> bool {
    forall|k: int| k >= m ==> !#[trigger] used.contains(k)
}

/// Whether a cell is in use: one of the program's cells, or a temporary cell
/// that has been taken.
pub open spec fn held(b: Bf, c: int) -> bool {
    c < b.temp_base || b.used.contains(c - b.temp_base)
}

/// The cells in use hold the same.
pub open spec fn agree(b: Bf, x: Cells, y: Cells) -> bool {
    forall|c: int| held(b, c) ==> #[trigger] y[c] == x[c]
}

/// The cells in use are the same.
pub open spec fn settled(b: Bf, c: Bf) -> bool {
    c.used == b.used && c.temp_base == b.temp_base
}

/// Where there is a place for some cells, there is a lowest one.
proof fn lemma_lowest_exists(used: Set<int>, n: int, from: int, m: int)
    requires
        0 <= from <= m,
        free_run(used, m, n),
        forall|j: int| 0 <= j < from ==> !#[trigger] free_run(used, j, n),
    ensures
        exists|i: int| lowest_run(used, i, n),
    decreases m - from,
{
    if free_run(used, from, n) {
        assert(lowest_run(used, from, n));
    } else {
        lemma_lowest_exists(used, n, from + 1, m);
    }
}

/// New temporary cells lie beside those in use.
pub proof fn lemma_fresh(b: Bf, n: int)
    requires
        roomy(b),
        n >= 0,
    ensures
        lowest_free(b.used, n) >= 0,
        free_run(b.used, lowest_free(b.used, n), n),
        roomy(b.talloc_n(n).0),
        b.talloc_n(n).1 >= b.temp_base,
        forall|c: int|
            b.talloc_n(n).1 <= c < b.talloc_n(n).1 + n ==> !#[trigger] held(b, c) && held(
                b.talloc_n(n).0,
                c,
            ),
        forall|c: int| #[trigger] held(b, c) ==> held(b.talloc_n(n).0, c),
{
    let m = choose|m: int| #[trigger] all_free(b.used, m);
    let top = if m < 0 {
        0
    } else {
        m
    };
    assert(free_run(b.used, top, n));
    lemma_lowest_exists(b.used, n, 0, top);
    let i = choose|i: int| lowest_run(b.used, i, n);
    lemma_lowest_free(b.used, n, i);
    let c = b.talloc_n(n).0;
    let high = if top > i + n {
        top
    } else {
        i + n
    };
    assert(all_free(c.used, high));
    assert forall|k: int| b.talloc_n(n).1 <= k < b.talloc_n(n).1 + n implies !#[trigger] held(b, k)
        && held(c, k) by {
        let d = k - b.talloc_n(n).1;
        assert(!b.used.contains(i + d));
        assert(k - b.temp_base == i + d);
    }
}

/// Taking a temporary cell and giving it back leaves the cells in use as they
/// were.
pub proof fn lemma_give_back(b: Bf, c: Bf)
    requires
        roomy(b),
        settled(b.talloc().0, c),
    ensures
        settled(b, c.tfree(b.talloc().1)),
{
    lemma_fresh(b, 1);
    let t = b.talloc().1;
    assert(!held(b, t));
    let d = c.tfree(t);
    assert(d.used =~= b.used);
}

/// A loop whose body clears its cell is done at most once.
pub proof fn lemma_works_once(a: Bf, z: Bf, x: Cells, m: Cells)
    requires
        bytes(x),
        z.ptr == a.ptr,
        sound(a.raw("["@).out, z.out, 0),
        x[a.ptr] != 0 ==> works(a.raw("["@), z, x, m) && m[a.ptr] == 0,
        x[a.ptr] == 0 ==> m == x,
    ensures
        works(a, z.raw("]"@), x, m),
{
    if x[a.ptr] != 0 {
        lemma_works_bytes(a.raw("["@), z, x, m);
        lemma_works_loop(a, z, m, m, m);
    }
    lemma_works_loop(a, z, x, m, m);
}

/// The text `-]` is `-` and then `]`.
proof fn lemma_minus_close(b: Bf)
    ensures
        b.raw("-]"@) == b.raw("-"@).raw("]"@),
{
    reveal_strlit("-]");
    reveal_strlit("-");
    reveal_strlit("]");
    assert(b.raw("-]"@).out =~= b.raw("-"@).raw("]"@).out);
}

/// A loop that counts `src` down and `dst` up.
proof fn lemma_add_loop(a: Bf, x: Cells, src: int, dst: int)
    requires
        bytes(x),
        a.ptr == src,
        src != dst,
    ensures
        works(
            a,
            a.raw("["@).goto(dst).raw("+"@).goto(src).raw("-]"@),
            x,
            plus(x, dst, x[src]).insert(src, 0),
        ),
    decreases x[src],
{
    broadcast use {works_goto, works_plus, works_minus, sound_goto, sound_plus, sound_minus};

    let a1 = a.raw("["@);
    let z = a1.goto(dst).raw("+"@).goto(src).raw("-"@);
    lemma_minus_close(a1.goto(dst).raw("+"@).goto(src));
    assert(sound(a1.out, a1.out, 0)) by {
        reveal(sound);
    }
    assert(x.dom().contains(src) && x.dom().contains(dst));
    let y = plus(x, dst, x[src]).insert(src, 0);
    let m = plus(plus(x, dst, 1), src, -1);
    if x[src] != 0 {
        lemma_works_start(a1, x);
        assert(works(a1, z, x, m));
        lemma_works_bytes(a1, z, x, m);
        lemma_add_loop(a, m, src, dst);
        assert(m[src] == x[src] - 1);
        vstd::arithmetic::div_mod::lemma_add_mod_noop_right(x[src] - 1, x[dst] + 1, 256);
        assert(plus(m, dst, m[src]).insert(src, 0) =~= y);
    } else {
        assert(y =~= x);
    }
    lemma_works_loop(a, z, x, m, y);
}

/// A loop that counts `src` and `dst` down.
proof fn lemma_sub_loop(a: Bf, x: Cells, src: int, dst: int)
    requires
        bytes(x),
        a.ptr == src,
        src != dst,
    ensures
        works(
            a,
            a.raw("["@).goto(dst).raw("-"@).goto(src).raw("-]"@),
            x,
            plus(x, dst, -x[src]).insert(src, 0),
        ),
    decreases x[src],
{
    broadcast use {works_goto, works_minus, sound_goto, sound_minus};

    let a1 = a.raw("["@);
    let z = a1.goto(dst).raw("-"@).goto(src).raw("-"@);
    lemma_minus_close(a1.goto(dst).raw("-"@).goto(src));
    assert(sound(a1.out, a1.out, 0)) by {
        reveal(sound);
    }
    assert(x.dom().contains(src) && x.dom().contains(dst));
    let y = plus(x, dst, -x[src]).insert(src, 0);
    let m = plus(plus(x, dst, -1), src, -1);
    if x[src] != 0 {
        lemma_works_start(a1, x);
        assert(works(a1, z, x, m));
        lemma_works_bytes(a1, z, x, m);
        lemma_sub_loop(a, m, src, dst);
        assert(m[src] == x[src] - 1);
        vstd::arithmetic::div_mod::lemma_add_mod_noop_right(-(x[src] - 1), x[dst] - 1, 256);
        assert(plus(m, dst, -m[src]).insert(src, 0) =~= y);
    } else {
        assert(y =~= x);
    }
    lemma_works_loop(a, z, x, m, y);
}

/// A loop that counts `src` down and two cells up.
proof fn lemma_add_both_loop(a: Bf, x: Cells, src: int, dst: int, tmp: int)
    requires
        bytes(x),
        a.ptr == src,
        src != dst,
        src != tmp,
        dst != tmp,
    ensures
        works(
            a,
            a.raw("["@).goto(dst).raw("+"@).goto(tmp).raw("+"@).goto(src).raw("-]"@),
            x,
            plus(plus(x, dst, x[src]), tmp, x[src]).insert(src, 0),
        ),
    decreases x[src],
{
    broadcast use {works_goto, works_plus, works_minus, sound_goto, sound_plus, sound_minus};

    let a1 = a.raw("["@);
    let near = a1.goto(dst).raw("+"@).goto(tmp).raw("+"@).goto(src);
    let z = near.raw("-"@);
    lemma_minus_close(near);
    assert(sound(a1.out, a1.out, 0)) by {
        reveal(sound);
    }
    assert(x.dom().contains(src) && x.dom().contains(dst) && x.dom().contains(tmp));
    let y = plus(plus(x, dst, x[src]), tmp, x[src]).insert(src, 0);
    let m = plus(plus(plus(x, dst, 1), tmp, 1), src, -1);
    if x[src] != 0 {
        lemma_works_start(a1, x);
        assert(works(a1, z, x, m));
        lemma_works_bytes(a1, z, x, m);
        lemma_add_both_loop(a, m, src, dst, tmp);
        assert(m[src] == x[src] - 1);
        vstd::arithmetic::div_mod::lemma_add_mod_noop_right(x[src] - 1, x[dst] + 1, 256);
        vstd::arithmetic::div_mod::lemma_add_mod_noop_right(x[src] - 1, x[tmp] + 1, 256);
        assert(plus(plus(m, dst, m[src]), tmp, m[src]).insert(src, 0) =~= y);
    } else {
        assert(y =~= x);
    }
    lemma_works_loop(a, z, x, m, y);
}

/// `add_to` adds one cell to another and clears it.
pub broadcast proof fn works_add_to(o: Bf, b: Bf, x0: Cells, x: Cells, src: int, dst: int)
    requires
        #[trigger] works(o, b, x0, x),
        src != dst,
    ensures
        works(o, #[trigger] b.add_to(src, dst), x0, plus(x, dst, x[src]).insert(src, 0)),
        settled(b, b.add_to(src, dst)),
{
    broadcast use works_goto;

    reveal(Bf::add_to);
    lemma_works_bytes(o, b, x0, x);
    let a = b.goto(src);
    lemma_add_loop(a, x, src, dst);
    lemma_works_then(o, a, b.add_to(src, dst), x0, x, plus(x, dst, x[src]).insert(src, 0));
}

/// `sub_from` subtracts one cell from another and clears it.
pub broadcast proof fn works_sub_from(o: Bf, b: Bf, x0: Cells, x: Cells, src: int, dst: int)
    requires
        #[trigger] works(o, b, x0, x),
        src != dst,
    ensures
        works(o, #[trigger] b.sub_from(src, dst), x0, plus(x, dst, -x[src]).insert(src, 0)),
        settled(b, b.sub_from(src, dst)),
{
    broadcast use works_goto;

    reveal(Bf::sub_from);
    lemma_works_bytes(o, b, x0, x);
    let a = b.goto(src);
    lemma_sub_loop(a, x, src, dst);
    lemma_works_then(o, a, b.sub_from(src, dst), x0, x, plus(x, dst, -x[src]).insert(src, 0));
}

/// `bfmove` moves a cell to another and clears it.
pub broadcast proof fn works_bfmove(o: Bf, b: Bf, x0: Cells, x: Cells, src: int, dst: int)
    requires
        #[trigger] works(o, b, x0, x),
        src != dst,
    ensures
        works(o, #[trigger] b.bfmove(src, dst), x0, x.insert(dst, x[src]).insert(src, 0)),
        settled(b, b.bfmove(src, dst)),
{
    broadcast use {works_goto, works_clear};

    reveal(Bf::bfmove);
    lemma_works_bytes(o, b, x0, x);
    assert(x.dom().contains(src));
    let x1 = x.insert(dst, 0);
    let a = b.clear(dst).goto(src);
    assert(works(o, a, x0, x1));
    lemma_works_bytes(o, a, x0, x1);
    lemma_add_loop(a, x1, src, dst);
    let y = plus(x1, dst, x1[src]).insert(src, 0);
    assert(y =~= x.insert(dst, x[src]).insert(src, 0));
    lemma_works_then(o, a, b.bfmove(src, dst), x0, x1, y);
}

/// `copy` sets a cell to what another one holds.
pub broadcast proof fn works_copy(o: Bf, b: Bf, x0: Cells, x: Cells, src: int, dst: int)
    requires
        #[trigger] works(o, b, x0, x),
        roomy(b),
        held(b, src),
        held(b, dst),
        src != dst,
    ensures
        settled(b, #[trigger] b.copy(src, dst)),
        exists|y: Cells| #[trigger]
            works(o, b.copy(src, dst), x0, y) && agree(b, x.insert(dst, x[src]), y),
{
    broadcast use {works_goto, works_clear, works_talloc, works_tfree};

    reveal(Bf::copy);
    lemma_works_bytes(o, b, x0, x);
    lemma_fresh(b, 1);
    let (b1, tmp) = b.talloc();
    assert(!held(b, tmp));
    assert(x.dom().contains(src));
    let x1 = x.insert(dst, 0).insert(tmp, 0);
    let a = b1.clear(dst).clear(tmp).goto(src);
    assert(works(o, a, x0, x1));
    lemma_works_bytes(o, a, x0, x1);
    lemma_add_both_loop(a, x1, src, dst, tmp);
    let c = a.raw("["@).goto(dst).raw("+"@).goto(tmp).raw("+"@).goto(src).raw("-]"@);
    let x2 = plus(plus(x1, dst, x1[src]), tmp, x1[src]).insert(src, 0);
    lemma_works_then(o, a, c, x0, x1, x2);
    lemma_works_bytes(o, c, x0, x2);
    let e = c.goto(tmp);
    assert(works(o, e, x0, x2));
    lemma_add_loop(e, x2, tmp, src);
    let f = e.raw("["@).goto(src).raw("+"@).goto(tmp).raw("-]"@);
    let x3 = plus(x2, src, x2[tmp]).insert(tmp, 0);
    lemma_works_then(o, e, f, x0, x2, x3);
    assert(b.copy(src, dst) == f.tfree(tmp));
    assert(works(o, b.copy(src, dst), x0, x3));
    lemma_give_back(b, f);
    assert(agree(b, x.insert(dst, x[src]), x3));
}

/// The cells after `flag_if`.
pub open spec fn flagged(x: Cells, cell: int, flag: int) -> Cells {
    if x[cell] != 0 {
        x.insert(flag, 1).insert(cell, 0)
    } else {
        x
    }
}

/// `flag_if` sets a flag where a cell is not 0, and clears that cell.
pub broadcast proof fn works_flag_if(o: Bf, b: Bf, x0: Cells, x: Cells, cell: int, flag: int)
    requires
        #[trigger] works(o, b, x0, x),
        cell != flag,
    ensures
        works(o, #[trigger] b.flag_if(cell, flag), x0, flagged(x, cell, flag)),
        settled(b, b.flag_if(cell, flag)),
{
    broadcast use {works_goto, works_clear, works_setv, sound_goto, sound_clear, sound_setv};

    reveal(Bf::flag_if);
    lemma_works_bytes(o, b, x0, x);
    let a = b.goto(cell);
    let a1 = a.raw("["@);
    let z = a1.setv(flag, 1).clear(cell).goto(cell);
    assert(sound(a1.out, a1.out, 0)) by {
        reveal(sound);
    }
    lemma_works_start(a1, x);
    assert(works(a1, z, x, x.insert(flag, 1).insert(cell, 0)));
    lemma_works_once(a, z, x, flagged(x, cell, flag));
    lemma_works_then(o, a, z.raw("]"@), x0, x, flagged(x, cell, flag));
}

/// The cells after `unflag_if`.
pub open spec fn unflagged(x: Cells, cell: int, flag: int) -> Cells {
    if x[cell] != 0 {
        x.insert(flag, 0).insert(cell, 0)
    } else {
        x
    }
}

/// `unflag_if` clears a flag where a cell is not 0, and clears that cell.
pub broadcast proof fn works_unflag_if(o: Bf, b: Bf, x0: Cells, x: Cells, cell: int, flag: int)
    requires
        #[trigger] works(o, b, x0, x),
        cell != flag,
    ensures
        works(o, #[trigger] b.unflag_if(cell, flag), x0, unflagged(x, cell, flag)),
        settled(b, b.unflag_if(cell, flag)),
{
    broadcast use {works_goto, works_clear, sound_goto, sound_clear};

    reveal(Bf::unflag_if);
    lemma_works_bytes(o, b, x0, x);
    let a = b.goto(cell);
    let a1 = a.raw("["@);
    let z = a1.clear(flag).clear(cell).goto(cell);
    assert(sound(a1.out, a1.out, 0)) by {
        reveal(sound);
    }
    lemma_works_start(a1, x);
    assert(works(a1, z, x, x.insert(flag, 0).insert(cell, 0)));
    lemma_works_once(a, z, x, unflagged(x, cell, flag));
    lemma_works_then(o, a, z.raw("]"@), x0, x, unflagged(x, cell, flag));
}

/// The cells after `flag_if_both`.
pub open spec fn flagged_both(x: Cells, a: int, b: int, flag: int) -> Cells {
    if x[a] != 0 {
        flagged(x, b, flag).insert(a, 0)
    } else {
        x
    }
}

/// `flag_if_both` sets a flag where two cells are not 0.
pub broadcast proof fn works_flag_if_both(
    o: Bf,
    bf: Bf,
    x0: Cells,
    x: Cells,
    a: int,
    b: int,
    flag: int,
)
    requires
        #[trigger] works(o, bf, x0, x),
        a != b,
        a != flag,
        b != flag,
    ensures
        works(o, #[trigger] bf.flag_if_both(a, b, flag), x0, flagged_both(x, a, b, flag)),
        settled(bf, bf.flag_if_both(a, b, flag)),
{
    broadcast use {works_goto, works_clear, works_flag_if, sound_goto, sound_clear, sound_flag_if};

    reveal(Bf::flag_if_both);
    lemma_works_bytes(o, bf, x0, x);
    let e = bf.goto(a);
    let e1 = e.raw("["@);
    let z = e1.flag_if(b, flag).clear(a).goto(a);
    assert(sound(e1.out, e1.out, 0)) by {
        reveal(sound);
    }
    lemma_works_start(e1, x);
    assert(works(e1, z, x, flagged(x, b, flag).insert(a, 0)));
    lemma_works_once(e, z, x, flagged_both(x, a, b, flag));
    lemma_works_then(o, e, z.raw("]"@), x0, x, flagged_both(x, a, b, flag));
}

/// A truth value as a byte.
pub open spec fn bit(p: bool) -> int {
    if p {
        1
    } else {
        0
    }
}

/// `negate` makes a cell 1 where it is 0, else 0.
pub broadcast proof fn works_negate(o: Bf, b: Bf, x0: Cells, x: Cells, c: int)
    requires
        #[trigger] works(o, b, x0, x),
        roomy(b),
        held(b, c),
    ensures
        settled(b, (#[trigger] b.negate(c)).0),
        b.negate(c).1 == c,
        exists|y: Cells| #[trigger]
            works(o, b.negate(c).0, x0, y) && agree(b, x.insert(c, bit(x[c] == 0)), y),
{
    broadcast use {
        works_goto,
        works_clear,
        works_inc,
        works_bfmove,
        works_talloc,
        works_tfree,
        sound_goto,
        sound_clear,
    };

    reveal(Bf::negate);
    lemma_works_bytes(o, b, x0, x);
    lemma_fresh(b, 1);
    let (b1, t) = b.talloc();
    assert(!held(b, t));
    assert(x.dom().contains(c));
    let a = b1.bfmove(c, t).inc(c, 1).goto(t);
    let x1 = plus(x.insert(t, x[c]).insert(c, 0), c, 1);
    assert(works(o, a, x0, x1));
    lemma_works_bytes(o, a, x0, x1);
    let a1 = a.raw("["@);
    let z = a1.clear(c).clear(t).goto(t);
    assert(sound(a1.out, a1.out, 0)) by {
        reveal(sound);
    }
    lemma_works_start(a1, x1);
    let m = if x1[t] != 0 {
        x1.insert(c, 0).insert(t, 0)
    } else {
        x1
    };
    assert(works(a1, z, x1, x1.insert(c, 0).insert(t, 0)));
    lemma_works_once(a, z, x1, m);
    lemma_works_then(o, a, z.raw("]"@), x0, x1, m);
    assert(b.negate(c).0 == z.raw("]"@).tfree(t));
    lemma_give_back(b, z.raw("]"@));
    assert(works(o, b.negate(c).0, x0, m));
    assert(agree(b, x.insert(c, bit(x[c] == 0)), m));
}

/// What a step that takes one new cell leaves in use.
pub open spec fn took(b: Bf, c: Bf, r: int) -> bool {
    &&& c.temp_base == b.temp_base
    &&& c.used == b.talloc().0.used
    &&& r == b.talloc().1
}

/// `is_nz` gives a new cell with whether a cell is not 0.
pub broadcast proof fn works_is_nz(o: Bf, b: Bf, x0: Cells, x: Cells, cell: int)
    requires
        #[trigger] works(o, b, x0, x),
        roomy(b),
        held(b, cell),
    ensures
        took(b, (#[trigger] b.is_nz(cell)).0, b.is_nz(cell).1),
        exists|y: Cells| #[trigger]
            works(o, b.is_nz(cell).0, x0, y) && agree(
                b.talloc().0,
                x.insert(b.talloc().1, bit(x[cell] != 0)),
                y,
            ),
{
    broadcast use {
        works_goto,
        works_clear,
        works_setv,
        works_copy,
        works_talloc,
        works_tfree,
        sound_goto,
        sound_clear,
        sound_setv,
    };

    reveal(Bf::is_nz);
    lemma_works_bytes(o, b, x0, x);
    lemma_fresh(b, 1);
    let (b1, r) = b.talloc();
    let b2 = b1.clear(r);
    let x1 = x.insert(r, 0);
    assert(works(o, b2, x0, x1));
    assert(b2.used == b1.used);
    lemma_fresh(b2, 1);
    let (b3, tc) = b2.talloc();
    assert(!held(b2, tc));
    assert(held(b3, tc) && held(b3, cell));
    let a = b3.copy(cell, tc).goto(tc);
    assert(works(o, b3, x0, x1));
    let x2 = choose|y: Cells| #[trigger]
        works(o, b3.copy(cell, tc), x0, y) && agree(b3, x1.insert(tc, x1[cell]), y);
    assert(works(o, a, x0, x2));
    lemma_works_bytes(o, a, x0, x2);
    let a1 = a.raw("["@);
    let z = a1.setv(r, 1).clear(tc).goto(tc);
    assert(sound(a1.out, a1.out, 0)) by {
        reveal(sound);
    }
    lemma_works_start(a1, x2);
    assert(works(a1, z, x2, x2.insert(r, 1).insert(tc, 0)));
    let m = if x2[tc] != 0 {
        x2.insert(r, 1).insert(tc, 0)
    } else {
        x2
    };
    lemma_works_once(a, z, x2, m);
    lemma_works_then(o, a, z.raw("]"@), x0, x2, m);
    assert(b.is_nz(cell).0 == z.raw("]"@).tfree(tc));
    lemma_give_back(b2, z.raw("]"@));
    assert(works(o, b.is_nz(cell).0, x0, m));
    assert(held(b3, cell) && held(b3, r) && held(b3, tc));
    assert forall|c: int| held(b1, c) implies #[trigger] m[c] == x.insert(
        r,
        bit(x[cell] != 0),
    )[c] by {
        assert(held(b3, c));
        assert(c != tc);
        assert(x2[c] == x1.insert(tc, x1[cell])[c]);
    }
}

} // verus!
