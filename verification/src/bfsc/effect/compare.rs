//! What the comparisons of single cells do.

use vstd::prelude::*;

use crate::bfsc::effect::cells::{
    agree, bit, flagged, held, lemma_fresh, lemma_works_once, roomy, took, unflagged, works_flag_if,
    works_is_nz, works_unflag_if,
};
use crate::bfsc::effect::steps::{
    bytes, lemma_works_bytes, lemma_works_loop, lemma_works_start, lemma_works_then, plus, works,
    works_clear, works_dec, works_goto, works_setv, works_talloc, works_tfree, Cells,
};
use crate::bfsc::emitter::Bf;
use crate::bfsc::sound::arith::{
    sound_gt_count_down, sound_gt_decide, sound_flag_if, sound_is_nz, sound_unflag_if,
};
use crate::bfsc::sound::steps::{
    sound, sound_clear, sound_dec, sound_goto, sound_setv, sound_talloc, sound_tfree,
};

verus! {

/// The cells in use grow by one.
pub broadcast proof fn lemma_took(b: Bf, c: Bf, r: int)
    requires
        #[trigger] took(b, c, r),
        roomy(b),
    ensures
        roomy(c),
        !held(b, r),
        r >= b.temp_base,
        forall|k: int| #[trigger] held(c, k) <==> held(b, k) || k == r,
{
    lemma_fresh(b, 1);
    assert(held(b.talloc().0, r) && !held(b, r));
    assert forall|k: int| #[trigger] held(c, k) <==> held(b, k) || k == r by {
        assert(held(b.talloc().0, k) == held(c, k));
    }
}

/// Every cell in use stays in use.
pub open spec fn grown(b: Bf, c: Bf) -> bool {
    &&& c.temp_base == b.temp_base
    &&& roomy(c)
    &&& forall|k: int| #[trigger] held(b, k) ==> held(c, k)
}

/// Whether a cell is a temporary cell that is in use.
pub open spec fn lent(b: Bf, c: int) -> bool {
    c >= b.temp_base && held(b, c)
}

/// What stays in use when a temporary cell is given back.
pub proof fn lemma_freed(b: Bf, c: int)
    requires
        roomy(b),
        c >= b.temp_base,
    ensures
        roomy(b.tfree(c)),
        b.tfree(c).temp_base == b.temp_base,
        forall|k: int| #[trigger] held(b.tfree(c), k) <==> held(b, k) && k != c,
{
    let d = b.tfree(c);
    let m = choose|m: int| crate::bfsc::effect::cells::all_free(b.used, m);
    assert(crate::bfsc::effect::cells::all_free(d.used, m));
}

/// Where `cell` is not 0, count `a` down and clear `cell`.
pub proof fn lemma_dec_if(bf: Bf, x: Cells, cell: int, a: int)
    requires
        bytes(x),
        cell != a,
    ensures
        ({
            let e = bf.goto(cell);
            let z = e.raw("["@).dec(a, 1).clear(cell).goto(cell);
            works(
                bf,
                z.raw("]"@),
                x,
                if x[cell] != 0 {
                    plus(x, a, -1).insert(cell, 0)
                } else {
                    x
                },
            )
        }),
{
    broadcast use {works_goto, works_clear, works_dec, sound_goto, sound_clear, sound_dec};

    let e = bf.goto(cell);
    let e1 = e.raw("["@);
    let z = e1.dec(a, 1).clear(cell).goto(cell);
    assert(sound(e1.out, e1.out, 0)) by {
        reveal(sound);
    }
    lemma_works_start(bf, x);
    lemma_works_start(e1, x);
    assert(works(e1, z, x, plus(x, a, -1).insert(cell, 0)));
    let m = if x[cell] != 0 {
        plus(x, a, -1).insert(cell, 0)
    } else {
        x
    };
    lemma_works_once(e, z, x, m);
    lemma_works_then(bf, e, z.raw("]"@), x, x, m);
}

/// One count down of the comparison.
pub open spec fn counted_down(x: Cells, a: int, b: int, flag: int) -> Cells {
    if x[b] == 0 {
        x
    } else {
        let less = if x[a] == 0 {
            0
        } else {
            x[a] - 1
        };
        let y = x.insert(b, x[b] - 1).insert(a, less);
        if less == 0 {
            y.insert(flag, 0)
        } else {
            y
        }
    }
}

/// The body of the count down.
proof fn lemma_count_body(e1: Bf, x: Cells, a: int, b: int, flag: int, bnz: int) -> (r: (Bf, Cells))
    requires
        bytes(x),
        roomy(e1),
        held(e1, a),
        held(e1, b),
        held(e1, flag),
        held(e1, bnz),
        a != b,
        a != flag,
        b != flag,
        bnz != a,
        bnz != b,
        bnz != flag,
        x[b] != 0,
    ensures
        ({
            let (bf, anz) = e1.dec(b, 1).is_nz(a);
            let bf = bf.goto(anz).raw("["@).dec(a, 1).clear(anz).goto(anz).raw("]"@);
            let (bf, ef_a) = bf.talloc();
            let bf = bf.setv(ef_a, 1);
            let (bf, anz2) = bf.is_nz(a);
            let bf = bf.unflag_if(anz2, ef_a).tfree(anz2);
            let bf = bf.unflag_if(ef_a, flag).tfree(ef_a);
            let z = bf.clear(bnz).goto(bnz);
            &&& r.0 == z
            &&& works(e1, z, x, r.1)
            &&& grown(e1, z)
            &&& agree(e1, counted_down(x, a, b, flag).insert(bnz, 0), r.1)
        }),
{
    broadcast use {
        lemma_took,
        works_goto,
        works_clear,
        works_dec,
        works_setv,
        works_talloc,
        works_tfree,
        works_is_nz,
        works_unflag_if,
    };

    lemma_works_start(e1, x);
    let c1 = e1.dec(b, 1);
    let x1 = plus(x, b, -1);
    assert(works(e1, c1, x, x1));
    assert(x.dom().contains(b) && x.dom().contains(a));
    assert(x1[b] == x[b] - 1);
    let (c2, anz) = c1.is_nz(a);
    let x2 = choose|y: Cells| #[trigger]
        works(e1, c2, x, y) && agree(c1.talloc().0, x1.insert(c1.talloc().1, bit(x1[a] != 0)), y);
    assert(took(c1, c2, anz));
    assert(held(c2, a) && held(c2, anz) && held(c2, b) && held(c2, flag) && held(c2, bnz));
    assert(agree(c2, x1.insert(anz, bit(x1[a] != 0)), x2));
    lemma_works_bytes(e1, c2, x, x2);
    lemma_dec_if(c2, x2, anz, a);
    let d2 = c2.goto(anz).raw("["@).dec(a, 1).clear(anz).goto(anz).raw("]"@);
    let x3 = if x2[anz] != 0 {
        plus(x2, a, -1).insert(anz, 0)
    } else {
        x2
    };
    lemma_works_then(e1, c2, d2, x, x2, x3);
    let less = if x[a] == 0 {
        0
    } else {
        x[a] - 1
    };
    assert(x2[a] == x[a]);
    assert(x3[a] == less);
    assert(took(d2, d2.talloc().0, d2.talloc().1));
    let (d3, ef) = d2.talloc();
    let d4 = d3.setv(ef, 1);
    let x4 = x3.insert(ef, 1);
    assert(works(e1, d4, x, x4));
    assert(held(d4, a));
    let (d5, anz2) = d4.is_nz(a);
    let x5 = choose|y: Cells| #[trigger]
        works(e1, d5, x, y) && agree(d4.talloc().0, x4.insert(d4.talloc().1, bit(x4[a] != 0)), y);
    assert(took(d4, d5, anz2));
    assert(agree(d5, x4.insert(anz2, bit(x4[a] != 0)), x5));
    assert(held(d5, anz2) && held(d5, ef) && held(d5, a));
    let d6 = d5.unflag_if(anz2, ef);
    let x6 = unflagged(x5, anz2, ef);
    assert(works(e1, d6, x, x6));
    let d7 = d6.tfree(anz2);
    assert(works(e1, d7, x, x6));
    lemma_freed(d6, anz2);
    let d8 = d7.unflag_if(ef, flag);
    let x8 = unflagged(x6, ef, flag);
    assert(works(e1, d8, x, x8));
    let d9 = d8.tfree(ef);
    lemma_freed(d8, ef);
    let z = d9.clear(bnz).goto(bnz);
    let y = x8.insert(bnz, 0);
    assert(works(e1, z, x, y));
    assert(x6[ef] == bit(less == 0));
    let ideal = counted_down(x, a, b, flag).insert(bnz, 0);
    assert forall|k: int| held(e1, k) implies #[trigger] y[k] == ideal[k] by {
        assert(held(c1, k));
        assert(held(c2, k) && k != anz);
        assert(held(d2, k));
        assert(held(d4, k) && k != ef);
        assert(held(d5, k) && k != anz2);
        assert(x2[k] == x1.insert(anz, bit(x1[a] != 0))[k]);
        assert(x5[k] == x4.insert(anz2, bit(x4[a] != 0))[k]);
    }
    assert forall|k: int| #[trigger] held(e1, k) implies held(z, k) by {
        assert(held(c2, k) && k != anz);
        assert(held(d2, k));
        assert(held(d4, k) && k != ef);
        assert(held(d5, k) && k != anz2);
        assert(held(d7, k));
        assert(held(d9, k));
    }
    (z, y)
}

/// `gt_count_down` counts both cells down where `b` is not 0, and clears the
/// flag where `a` comes to 0.
proof fn lemma_gt_count_down(bf: Bf, x: Cells, a: int, b: int, flag: int) -> (y: Cells)
    requires
        bytes(x),
        roomy(bf),
        held(bf, a),
        held(bf, b),
        held(bf, flag),
        a != b,
        a != flag,
        b != flag,
    ensures
        works(bf, bf.gt_count_down(a, b, flag).0, x, y),
        agree(bf, counted_down(x, a, b, flag), y),
        grown(bf, bf.gt_count_down(a, b, flag).0),
        bf.gt_count_down(a, b, flag).1 >= bf.temp_base,
        !held(bf, bf.gt_count_down(a, b, flag).1),
{
    broadcast use {
        lemma_took,
        works_goto,
        works_is_nz,
        sound_dec,
        sound_is_nz,
        sound_goto,
        sound_clear,
        sound_setv,
        sound_talloc,
        sound_tfree,
        sound_unflag_if,
        crate::bfsc::sound::steps::sound_open,
        crate::bfsc::sound::steps::sound_close,
    };

    reveal(Bf::gt_count_down);
    reveal(Bf::unflag_if);
    lemma_works_start(bf, x);
    let (b1, bnz) = bf.is_nz(b);
    let x1 = choose|y: Cells| #[trigger]
        works(bf, b1, x, y) && agree(bf.talloc().0, x.insert(bf.talloc().1, bit(x[b] != 0)), y);
    assert(took(bf, b1, bnz));
    assert(agree(b1, x.insert(bnz, bit(x[b] != 0)), x1));
    assert(held(b1, a) && held(b1, b) && held(b1, flag) && held(b1, bnz));
    lemma_works_bytes(bf, b1, x, x1);
    let e = b1.goto(bnz);
    let e1 = e.raw("["@);
    assert(works(bf, e, x, x1));
    assert(x1[b] == x[b] && x1[a] == x[a]);
    let c = bf.gt_count_down(a, b, flag).0;
    let (c1, anz) = e1.dec(b, 1).is_nz(a);
    let c2 = c1.goto(anz).raw("["@).dec(a, 1).clear(anz).goto(anz).raw("]"@);
    let (c3, ef_a) = c2.talloc();
    let (c4, anz2) = c3.setv(ef_a, 1).is_nz(a);
    let c5 = c4.unflag_if(anz2, ef_a).tfree(anz2);
    let z = c5.unflag_if(ef_a, flag).tfree(ef_a).clear(bnz).goto(bnz);
    assert(c == z.raw("]"@));
    assert(sound(e1.out, e1.out, 0)) by {
        reveal(sound);
    }
    assert(sound(e1.out, c1.out, 0));
    assert(sound(e1.out, c1.goto(anz).raw("["@).out, 1));
    assert(sound(e1.out, c2.out, 0));
    assert(sound(e1.out, c5.out, 0));
    assert(sound(e1.out, z.out, 0));
    let y = if x1[b] != 0 {
        let (z2, y) = lemma_count_body(e1, x1, a, b, flag, bnz);
        assert(z2 == z);
        y
    } else {
        let (z2, _) = lemma_count_body(e1, x1.insert(b, 1), a, b, flag, bnz);
        assert(z2 == z);
        x1
    };
    assert(grown(e1, z));
    assert forall|k: int| #[trigger] held(bf, k) implies held(c, k) by {
        assert(held(b1, k));
        assert(held(e1, k));
        assert(held(z, k));
    }
    lemma_works_once(e, z, x1, y);
    lemma_works_then(bf, e, c, x, x1, y);
    assert forall|k: int| held(bf, k) implies #[trigger] y[k] == counted_down(
        x,
        a,
        b,
        flag,
    )[k] by {
        assert(held(b1, k) && k != bnz);
        assert(x1[k] == x.insert(bnz, bit(x[b] != 0))[k]);
        assert(held(e1, k));
    }
    y
}

/// The end of a round of the comparison.
pub open spec fn decided(x: Cells, a: int, b: int, flag: int, result: int) -> Cells {
    if x[b] != 0 {
        x
    } else if x[a] != 0 {
        x.insert(result, 1).insert(flag, 0)
    } else {
        x.insert(flag, 0)
    }
}

/// `gt_decide` ends the comparison where `b` is 0.
proof fn lemma_gt_decide(bf: Bf, x: Cells, a: int, b: int, flag: int, result: int) -> (y: Cells)
    requires
        bytes(x),
        roomy(bf),
        held(bf, a),
        held(bf, b),
        held(bf, flag),
        held(bf, result),
        a != b,
        a != flag,
        b != flag,
        result != a,
        result != b,
        result != flag,
    ensures
        works(bf, bf.gt_decide(a, b, flag, result), x, y),
        agree(bf, decided(x, a, b, flag, result), y),
        grown(bf, bf.gt_decide(a, b, flag, result)),
{
    broadcast use {
        lemma_took,
        works_goto,
        works_clear,
        works_setv,
        works_talloc,
        works_tfree,
        works_is_nz,
        works_flag_if,
        works_unflag_if,
        sound_is_nz,
        sound_goto,
        sound_clear,
        sound_tfree,
        sound_flag_if,
    };

    reveal(Bf::gt_decide);
    lemma_works_start(bf, x);
    assert(took(bf, bf.talloc().0, bf.talloc().1));
    let (b1, ef) = bf.talloc();
    let b2 = b1.setv(ef, 1);
    let x2 = x.insert(ef, 1);
    assert(works(bf, b2, x, x2));
    assert(held(b2, b) && held(b2, ef));
    let (b3, bnz2) = b2.is_nz(b);
    let x3 = choose|y: Cells| #[trigger]
        works(bf, b3, x, y) && agree(b2.talloc().0, x2.insert(b2.talloc().1, bit(x2[b] != 0)), y);
    assert(took(b2, b3, bnz2));
    assert(agree(b3, x2.insert(bnz2, bit(x2[b] != 0)), x3));
    assert(held(b3, ef) && held(b3, bnz2) && held(b3, a) && held(b3, b));
    let b4 = b3.unflag_if(bnz2, ef);
    let x4 = unflagged(x3, bnz2, ef);
    assert(works(bf, b4, x, x4));
    let b5 = b4.tfree(bnz2);
    lemma_freed(b4, bnz2);
    assert(works(bf, b5, x, x4));
    lemma_works_bytes(bf, b5, x, x4);
    assert(x4[ef] == bit(x[b] == 0));
    let e = b5.goto(ef);
    let e1 = e.raw("["@);
    assert(works(bf, e, x, x4));
    lemma_works_start(e1, x4);
    assert(held(e1, a) && held(e1, result) && held(e1, flag) && held(e1, ef));
    let (c1, anz) = e1.is_nz(a);
    let y1 = choose|y: Cells| #[trigger]
        works(e1, c1, x4, y) && agree(e1.talloc().0, x4.insert(e1.talloc().1, bit(x4[a] != 0)), y);
    assert(took(e1, c1, anz));
    assert(agree(c1, x4.insert(anz, bit(x4[a] != 0)), y1));
    assert(held(c1, anz) && held(c1, a) && held(c1, result) && held(c1, flag) && held(c1, ef));
    let c2 = c1.flag_if(anz, result);
    let y2 = flagged(y1, anz, result);
    assert(works(e1, c2, x4, y2));
    let c3 = c2.tfree(anz);
    lemma_freed(c2, anz);
    let z = c3.clear(flag).clear(ef).goto(ef);
    let y4 = y2.insert(flag, 0).insert(ef, 0);
    assert(works(e1, z, x4, y4));
    assert(sound(e1.out, e1.out, 0)) by {
        reveal(sound);
    }
    let y = if x4[ef] != 0 {
        y4
    } else {
        x4
    };
    lemma_works_once(e, z, x4, y);
    let f = z.raw("]"@);
    lemma_works_then(bf, e, f, x, x4, y);
    let c = f.tfree(ef);
    assert(c == bf.gt_decide(a, b, flag, result));
    lemma_freed(f, ef);
    assert(works(bf, c, x, y));
    let ideal = decided(x, a, b, flag, result);
    assert(x4[a] == x[a]) by {
        assert(held(b2, a) && held(b3, a));
        assert(x3[a] == x2.insert(bnz2, bit(x2[b] != 0))[a]);
    }
    assert forall|k: int| held(bf, k) implies #[trigger] y[k] == ideal[k] by {
        assert(held(b2, k) && k != ef);
        assert(held(b3, k) && k != bnz2);
        assert(x3[k] == x2.insert(bnz2, bit(x2[b] != 0))[k]);
        assert(held(e1, k));
        assert(held(c1, k) && k != anz);
        assert(y1[k] == x4.insert(anz, bit(x4[a] != 0))[k]);
    }
    assert forall|k: int| #[trigger] held(bf, k) implies held(c, k) by {
        assert(held(b2, k) && k != ef);
        assert(held(b3, k) && k != bnz2);
        assert(held(b5, k));
        assert(held(c1, k) && k != anz);
        assert(held(c3, k));
    }
    y
}

/// The rounds of the comparison.
proof fn lemma_gt_loop(h: Bf, x: Cells, a: int, b: int, flag: int, result: int) -> (y: Cells)
    requires
        bytes(x),
        roomy(h),
        h.ptr == flag,
        held(h, a),
        held(h, b),
        held(h, flag),
        held(h, result),
        a != b,
        a != flag,
        b != flag,
        result != a,
        result != b,
        result != flag,
        x[flag] == 1,
        x[result] == 0,
    ensures
        ({
            let (c, bnz) = h.raw("["@).gt_count_down(a, b, flag);
            let z = c.gt_decide(a, b, flag, result).tfree(bnz).goto(flag);
            &&& works(h, z.raw("]"@), x, y)
            &&& grown(h, z)
        }),
        y[result] == bit(x[a] > x[b]),
        forall|k: int|
            held(h, k) && k != a && k != b && k != flag && k != result ==> #[trigger] y[k] == x[k],
    decreases x[b],
{
    broadcast use {
        works_goto,
        works_tfree,
        sound_gt_count_down,
        sound_gt_decide,
        sound_tfree,
        sound_goto,
    };

    let h1 = h.raw("["@);
    assert(sound(h1.out, h1.out, 0)) by {
        reveal(sound);
    }
    let x1 = lemma_gt_count_down(h1, x, a, b, flag);
    let (c, bnz) = h1.gt_count_down(a, b, flag);
    lemma_works_bytes(h1, c, x, x1);
    assert(held(h1, a) && held(h1, b) && held(h1, flag) && held(h1, result));
    assert(held(c, a) && held(c, b) && held(c, flag) && held(c, result));
    let x2 = lemma_gt_decide(c, x1, a, b, flag, result);
    let d = c.gt_decide(a, b, flag, result);
    lemma_works_then(h1, c, d, x, x1, x2);
    lemma_works_bytes(h1, d, x, x2);
    lemma_freed(d, bnz);
    let z = d.tfree(bnz).goto(flag);
    assert(works(h1, z, x, x2));
    assert forall|k: int| #[trigger] held(h, k) implies held(z, k) by {
        assert(held(h1, k));
        assert(held(c, k));
        assert(held(d, k));
        assert(k != bnz);
    }
    let ideal = decided(counted_down(x, a, b, flag), a, b, flag, result);
    assert forall|k: int| held(h, k) implies #[trigger] x2[k] == ideal[k] by {
        assert(held(h1, k));
        assert(held(c, k));
        assert(x1[k] == counted_down(x, a, b, flag)[k]);
        assert(x1[b] == counted_down(x, a, b, flag)[b]);
        assert(x1[a] == counted_down(x, a, b, flag)[a]);
    }
    assert(x2[flag] == ideal[flag] && x2[result] == ideal[result] && x2[a] == ideal[a] && x2[b]
        == ideal[b]);
    assert(x.dom().contains(a) && x.dom().contains(b));
    let y = if x2[flag] == 0 {
        lemma_works_loop(h, z, x2, x2, x2);
        x2
    } else {
        assert(x2[flag] == 1 && x2[b] == x[b] - 1 && x2[a] == x[a] - 1);
        lemma_gt_loop(h, x2, a, b, flag, result)
    };
    lemma_works_loop(h, z, x, x2, y);
    y
}

/// `byte_gt` gives a new cell with whether one cell is greater than another;
/// both are given back, and all other cells in use keep what they hold.
pub proof fn lemma_byte_gt(o: Bf, bf: Bf, x0: Cells, x: Cells, a: int, b: int) -> (y: Cells)
    requires
        works(o, bf, x0, x),
        roomy(bf),
        lent(bf, a),
        lent(bf, b),
        a != b,
    ensures
        ({
            let (c, r) = bf.byte_gt(a, b);
            &&& works(o, c, x0, y)
            &&& y[r] == bit(x[a] > x[b])
            &&& news(bf, c, r, a, b)
            &&& agree_but(bf, x, y, a, b)
        }),
{
    broadcast use {
        lemma_took,
        works_goto,
        works_clear,
        works_setv,
        works_talloc,
        works_tfree,
    };

    reveal(Bf::byte_gt);
    lemma_works_bytes(o, bf, x0, x);
    assert(took(bf, bf.talloc().0, bf.talloc().1));
    let (b1, result) = bf.talloc();
    let b2 = b1.clear(result);
    let x2 = x.insert(result, 0);
    assert(works(o, b2, x0, x2));
    assert(took(b2, b2.talloc().0, b2.talloc().1));
    let (b3, flag) = b2.talloc();
    let h = b3.setv(flag, 1).goto(flag);
    let x3 = x2.insert(flag, 1);
    assert(works(o, h, x0, x3));
    lemma_works_bytes(o, h, x0, x3);
    assert(held(b2, a) && held(b2, b) && held(b2, result));
    assert(held(b3, a) && held(b3, b) && held(b3, result) && held(b3, flag));
    let y = lemma_gt_loop(h, x3, a, b, flag, result);
    let (c, bnz) = h.raw("["@).gt_count_down(a, b, flag);
    let z = c.gt_decide(a, b, flag, result).tfree(bnz).goto(flag);
    let e = z.raw("]"@);
    lemma_works_then(o, h, e, x0, x3, y);
    lemma_freed(e, flag);
    lemma_freed(e.tfree(flag), a);
    lemma_freed(e.tfree(flag).tfree(a), b);
    let f = e.tfree(flag).tfree(a).tfree(b);
    assert(f == bf.byte_gt(a, b).0);
    assert(works(o, f, x0, y));
    assert forall|k: int| held(bf, k) && k != a && k != b implies #[trigger] y[k] == x[k] by {
        assert(held(b2, k) && k != result);
        assert(held(b3, k) && k != flag);
        assert(held(h, k));
    }
    assert forall|k: int| #[trigger] held(bf, k) && k != a && k != b implies held(f, k) by {
        assert(held(b2, k) && k != result);
        assert(held(b3, k) && k != flag);
        assert(held(h, k));
        assert(held(z, k));
        assert(held(e, k));
        assert(held(e.tfree(flag), k));
    }
    assert(held(h, result) && held(z, result) && held(e, result));
    assert(held(e.tfree(flag), result));
    y
}

/// The new cell `r` is in use, and every cell in use but two is still so.
pub open spec fn news(b: Bf, c: Bf, r: int, p: int, q: int) -> bool {
    &&& c.temp_base == b.temp_base
    &&& roomy(c)
    &&& lent(c, r)
    &&& !held(b, r)
    &&& forall|k: int| #[trigger] held(b, k) && k != p && k != q ==> held(c, k)
}

/// The cells in use but two hold the same.
pub open spec fn agree_but(b: Bf, x: Cells, y: Cells, p: int, q: int) -> bool {
    forall|k: int| held(b, k) && k != p && k != q ==> #[trigger] y[k] == x[k]
}

} // verus!
