//! What the division by a constant does.

use vstd::prelude::*;

use crate::bfsc::effect::arith::{
    blk, lemma_bytes_val, lemma_const_val, lemma_copied_val, lemma_held_val, lemma_same_val,
    lemma_sub_n, lemma_zero_val, operands, same_in, size, val, word,
};
use crate::bfsc::effect::blocks::{
    apart, held_n, holds_bytes, lemma_clear_range, lemma_copy_n, lemma_set_const_n, lemma_took_n,
    lent_n, took_n,
};
use crate::bfsc::effect::cells::{
    agree, bit, held, lemma_works_once, roomy, settled, took, works_copy, works_negate,
};
use crate::bfsc::effect::compare::{grown, lemma_byte_gt, lemma_freed, lemma_took, lent};
use crate::bfsc::effect::division::{count, lemma_count, lemma_quotient_step};
use crate::bfsc::effect::product::{lemma_beside, same_but};
use crate::bfsc::effect::steps::{
    bytes, lemma_works_bytes, lemma_works_loop, lemma_works_start, lemma_works_then, plus, works,
    works_clear, works_dec, works_goto, works_setv, works_talloc, works_talloc_n, works_tfree,
    Cells,
};
use crate::bfsc::effect::truth::lemma_gt_n;
use crate::bfsc::emitter::Bf;
use crate::bfsc::sound::arith::{
    sound_byte_gt, sound_copy, sound_copy_n, sound_gt_n, sound_inc_n, sound_negate, sound_sub_n,
};
use crate::bfsc::sound::steps::{
    sound, sound_clear, sound_close, sound_dec, sound_goto, sound_inc, sound_open,
    sound_set_const_n, sound_setv, sound_talloc, sound_talloc_n, sound_tfree,
};

verus! {

/// The step that finds out whether a constant fits.
spec fn const_fits(bf: Bf, v: int, div: int, n: int) -> (Bf, int) {
    if n == 1 {
        let (bf, tv) = bf.talloc();
        let (bf, td) = bf.talloc();
        let bf = bf.copy(v, tv).setv(td, div);
        let (bf, gt) = bf.byte_gt(td, tv);
        bf.negate(gt)
    } else {
        let (bf, tv) = bf.talloc_n(n);
        let (bf, td) = bf.talloc_n(n);
        let bf = bf.copy_n(v, tv, n).set_const_n(td, div, n);
        let (bf, gt) = bf.gt_n(td, tv, n);
        bf.negate(gt)
    }
}

/// The step that takes a constant away.
spec fn const_take(bf: Bf, v: int, div: int, n: int) -> Bf {
    if n == 1 {
        bf.dec(v, div)
    } else {
        let (bf, ts) = bf.talloc_n(n);
        bf.set_const_n(ts, div, n).sub_n(v, ts, n)
    }
}

/// A new block that holds a constant.
proof fn lemma_constant(bf: Bf, b1: Bf, b2: Bf, x: Cells, x1: Cells, t: int, div: int, n: int)
    requires
        took_n(bf, b1, t, n),
        settled(b1, b2),
        word(n),
        0 < div < size(n),
        holds_bytes(x, x1, t, div, n, 0),
    ensures
        lent_n(b2, t, n),
        val(x1, t, n) == div,
        forall|k: int| #[trigger] held(bf, k) ==> held(b2, k) && !(t <= k < t + n),
        forall|k: int| held(bf, k) ==> #[trigger] x1[k] == x[k],
{
    assert forall|k: int| t <= k < t + n implies #[trigger] held(b2, k) by {
        assert(held(b1, k));
    }
    lemma_const_val(x, x1, t, div, n);
    assert forall|k: int| #[trigger] held(bf, k) implies held(b2, k) && !(t <= k < t + n) by {
        assert(held(b1, k));
    }
    assert forall|k: int| held(bf, k) implies #[trigger] x1[k] == x[k] by {
        assert(!(t <= k < t + n));
    }
}

/// `const_fits` gives a new cell with whether a constant fits.
proof fn lemma_const_fits(o: Bf, bf: Bf, x0: Cells, x: Cells, v: int, div: int, n: int) -> (y:
    Cells)
    requires
        works(o, bf, x0, x),
        roomy(bf),
        word(n),
        held_n(bf, v, n),
        0 < div < size(n),
    ensures
        works(o, const_fits(bf, v, div, n).0, x0, y),
        grown(bf, const_fits(bf, v, div, n).0),
        lent(const_fits(bf, v, div, n).0, const_fits(bf, v, div, n).1),
        !held(bf, const_fits(bf, v, div, n).1),
        y[const_fits(bf, v, div, n).1] == bit(val(x, v, n) >= div),
        agree(bf, x, y),
{
    broadcast use {works_copy, works_setv, works_negate, works_talloc, works_talloc_n, lemma_took};

    lemma_works_bytes(o, bf, x0, x);
    assert(held(bf, v));
    if n == 1 {
        assert(took(bf, bf.talloc().0, bf.talloc().1));
        let (b1, tv) = bf.talloc();
        assert(took(b1, b1.talloc().0, b1.talloc().1));
        let (b2, td) = b1.talloc();
        assert(works(o, b2, x0, x));
        assert(held(b1, v) && held(b1, tv));
        assert(held(b2, v) && held(b2, tv) && held(b2, td));
        let b3 = b2.copy(v, tv);
        let x3 = choose|y: Cells| #[trigger]
            works(o, b3, x0, y) && agree(b2, x.insert(tv, x[v]), y);
        let b4 = b3.setv(td, div);
        let x4 = x3.insert(td, div);
        assert(works(o, b4, x0, x4));
        assert(x4[tv] == x[v] && x4[td] == div);
        assert(held(b4, tv) && held(b4, td));
        let x5 = lemma_byte_gt(o, b4, x0, x4, td, tv);
        let (b5, gt) = b4.byte_gt(td, tv);
        assert(held(b5, gt));
        let (c, ge) = b5.negate(gt);
        let y = choose|y: Cells| #[trigger]
            works(o, c, x0, y) && agree(b5, x5.insert(gt, bit(x5[gt] == 0)), y);
        assert(c == const_fits(bf, v, div, n).0 && ge == gt);
        assert forall|k: int| held(bf, k) implies #[trigger] y[k] == x[k] by {
            assert(held(b1, k) && k != tv);
            assert(held(b2, k) && k != td);
            assert(x3[k] == x[k]);
            assert(held(b4, k));
            assert(x5[k] == x4[k]);
            assert(held(b5, k) && k != gt);
        }
        assert forall|k: int| #[trigger] held(bf, k) implies held(c, k) && k != gt by {
            assert(held(b1, k) && k != tv);
            assert(held(b2, k) && k != td);
            assert(held(b4, k));
            assert(held(b5, k));
        }
        assert(held(c, gt));
        y
    } else {
        lemma_took_n(bf, n);
        let (b1, tv) = bf.talloc_n(n);
        lemma_took_n(b1, n);
        let (b2, td) = b1.talloc_n(n);
        assert(works(o, b2, x0, x));
        lemma_beside(bf, b1, v, n, tv, n);
        assert forall|k: int| v <= k < v + n implies #[trigger] held(b1, k) by {
            assert(held(bf, k));
        }
        assert forall|k: int| tv <= k < tv + n implies #[trigger] held(b1, k) by {}
        lemma_beside(b1, b2, tv, n, td, n);
        lemma_beside(b1, b2, v, n, td, n);
        assert forall|k: int| v <= k < v + n implies #[trigger] held(b2, k) by {
            assert(held(b1, k));
        }
        assert forall|k: int| tv <= k < tv + n implies #[trigger] held(b2, k) by {
            assert(held(b1, k));
        }
        let x3 = lemma_copy_n(o, b2, x0, x, v, tv, n);
        let b3 = b2.copy_n(v, tv, n);
        lemma_copied_val(b2, x, x3, v, tv, n);
        let x4 = lemma_set_const_n(o, b3, x0, x3, td, div, n);
        let b4 = b3.set_const_n(td, div, n);
        assert(took_n(b1, b3, td, n)) by {
            assert forall|k: int| #[trigger] held(b3, k) <==> held(b1, k) || td <= k < td + n by {
                assert(held(b2, k) <==> held(b1, k) || td <= k < td + n);
            }
        }
        lemma_constant(b1, b3, b4, x3, x4, td, div, n);
        lemma_held_val(b1, x3, x4, tv, n);
        assert forall|k: int| tv <= k < tv + n implies #[trigger] held(b4, k) by {
            assert(held(b1, k));
        }
        let x5 = lemma_gt_n(o, b4, x0, x4, td, tv, n);
        let (b5, gt) = b4.gt_n(td, tv, n);
        let d = blk(td, n).union(blk(tv, n));
        assert(held(b5, gt));
        let (c, ge) = b5.negate(gt);
        let y = choose|y: Cells| #[trigger]
            works(o, c, x0, y) && agree(b5, x5.insert(gt, bit(x5[gt] == 0)), y);
        assert(c == const_fits(bf, v, div, n).0 && ge == gt);
        assert forall|k: int| held(bf, k) implies #[trigger] y[k] == x[k] by {
            assert(held(b1, k) && !(tv <= k < tv + n));
            assert(held(b2, k) && !(td <= k < td + n));
            assert(x3[k] == x[k]);
            assert(x4[k] == x3[k]);
            assert(held(b4, k) && !d.contains(k));
            assert(x5[k] == x4[k]);
            assert(held(b5, k) && k != gt);
        }
        assert forall|k: int| #[trigger] held(bf, k) implies held(c, k) && k != gt by {
            assert(held(b1, k) && !(tv <= k < tv + n));
            assert(held(b4, k) && !d.contains(k));
            assert(held(b5, k));
        }
        assert(held(c, gt));
        y
    }
}

/// `const_take` takes a constant away.
proof fn lemma_const_take(o: Bf, bf: Bf, x0: Cells, x: Cells, v: int, div: int, n: int) -> (y:
    Cells)
    requires
        works(o, bf, x0, x),
        roomy(bf),
        word(n),
        lent_n(bf, v, n),
        0 < div < size(n),
        val(x, v, n) >= div,
    ensures
        works(o, const_take(bf, v, div, n), x0, y),
        grown(bf, const_take(bf, v, div, n)),
        val(y, v, n) == val(x, v, n) - div,
        same_but(bf, x, y, v, n),
{
    broadcast use {works_dec, works_talloc_n};

    lemma_works_bytes(o, bf, x0, x);
    assert(held(bf, v));
    lemma_bytes_val(x, v, n);
    if n == 1 {
        let y = plus(x, v, -div);
        assert(works(o, bf.dec(v, div), x0, y));
        y
    } else {
        lemma_took_n(bf, n);
        let (b1, ts) = bf.talloc_n(n);
        assert(works(o, b1, x0, x));
        lemma_beside(bf, b1, v, n, ts, n);
        let x2 = lemma_set_const_n(o, b1, x0, x, ts, div, n);
        let b2 = b1.set_const_n(ts, div, n);
        lemma_constant(bf, b1, b2, x, x2, ts, div, n);
        lemma_held_val(bf, x, x2, v, n);
        assert forall|k: int| v <= k < v + n implies #[trigger] held(b2, k) by {
            assert(held(bf, k));
        }
        let y = lemma_sub_n(o, b2, x0, x2, v, ts, n);
        let c = b2.sub_n(v, ts, n);
        assert forall|k: int| held(bf, k) && !(v <= k < v + n) implies #[trigger] y[k]
            == x[k] by {
            assert(held(b2, k) && !(ts <= k < ts + n));
            assert(x2[k] == x[k]);
        }
        assert forall|k: int| #[trigger] held(bf, k) implies held(c, k) by {
            assert(held(b2, k) && !blk(ts, n).contains(k));
        }
        y
    }
}

/// The cells that a division by a constant works on.
spec fn shares(h: Bf, v: int, q: int, flag: int, n: int) -> bool {
    &&& operands(h, v, q, n)
    &&& lent(h, flag)
    &&& apart(v, n, flag, 1)
    &&& apart(q, n, flag, 1)
}

/// Cells in use stay so.
proof fn lemma_shares_grown(h: Bf, c: Bf, v: int, q: int, flag: int, n: int)
    requires
        grown(h, c),
        shares(h, v, q, flag, n),
    ensures
        shares(c, v, q, flag, n),
{
    assert forall|k: int| v <= k < v + n implies #[trigger] held(c, k) by {
        assert(held(h, k));
    }
    assert forall|k: int| q <= k < q + n implies #[trigger] held(c, k) by {
        assert(held(h, k));
    }
    assert(held(h, flag));
}

/// What a division by a constant does where the constant fits.
spec fn share_inner(e1: Bf, v: int, div: int, q: int, flag: int, ge: int, n: int) -> Bf {
    count(const_take(e1, v, div, n), q, n, true).setv(flag, 1).clear(ge).goto(ge)
}

proof fn lemma_share_inner(
    e1: Bf,
    x: Cells,
    v: int,
    div: int,
    q: int,
    flag: int,
    ge: int,
    n: int,
) -> (y: Cells)
    requires
        bytes(x),
        shares(e1, v, q, flag, n),
        held(e1, ge),
        ge != flag,
        apart(v, n, ge, 1),
        apart(q, n, ge, 1),
        0 < div < size(n),
        val(x, v, n) >= div,
    ensures
        works(e1, share_inner(e1, v, div, q, flag, ge, n), x, y),
        grown(e1, share_inner(e1, v, div, q, flag, ge, n)),
        val(y, v, n) == val(x, v, n) - div,
        val(y, q, n) == (val(x, q, n) + 1) % size(n),
        y[flag] == 1,
        y[ge] == 0,
        forall|k: int|
            held(e1, k) && k != ge && !(v <= k < v + n) && !(q <= k < q + n) && k != flag
                ==> #[trigger] y[k] == x[k],
{
    broadcast use {works_clear, works_goto, works_setv};

    lemma_works_start(e1, x);
    let x1 = lemma_const_take(e1, e1, x, x, v, div, n);
    let f1 = const_take(e1, v, div, n);
    lemma_shares_grown(e1, f1, v, q, flag, n);
    let x2 = lemma_count(e1, f1, x, x1, q, n, true);
    let f2 = count(f1, q, n, true);
    let z = f2.setv(flag, 1).clear(ge).goto(ge);
    let y = x2.insert(flag, 1).insert(ge, 0);
    assert(works(e1, z, x, y));
    assert forall|k: int| #[trigger] held(e1, k) implies held(z, k) by {
        assert(held(f1, k));
        assert(held(f2, k));
    }
    assert(same_in(x1, y, v, n)) by {
        assert forall|k: int| v <= k < v + n implies #[trigger] y[k] == x1[k] by {
            assert(held(f1, k));
        }
    }
    lemma_same_val(x1, y, v, n);
    assert(same_in(x, x1, q, n)) by {
        assert forall|k: int| q <= k < q + n implies #[trigger] x1[k] == x[k] by {
            assert(held(e1, k));
        }
    }
    lemma_same_val(x, x1, q, n);
    assert(same_in(x2, y, q, n));
    lemma_same_val(x2, y, q, n);
    assert forall|k: int|
        held(e1, k) && k != ge && !(v <= k < v + n) && !(q <= k < q + n) && k
            != flag implies #[trigger] y[k] == x[k] by {
        assert(x1[k] == x[k]);
        assert(held(f1, k));
        assert(x2[k] == x1[k]);
    }
    y
}

/// One round of a division by a constant, up to its flag.
spec fn share_body(h1: Bf, v: int, div: int, q: int, flag: int, n: int) -> Bf {
    let (c2, ge) = const_fits(h1.clear(flag), v, div, n);
    let f3 = share_inner(c2.goto(ge).raw("["@), v, div, q, flag, ge, n);
    f3.raw("]"@).tfree(ge).goto(flag)
}

proof fn lemma_share_body(h1: Bf, x: Cells, v: int, div: int, q: int, flag: int, n: int) -> (y:
    Cells)
    requires
        bytes(x),
        shares(h1, v, q, flag, n),
        0 < div < size(n),
    ensures
        works(h1, share_body(h1, v, div, q, flag, n), x, y),
        grown(h1, share_body(h1, v, div, q, flag, n)),
        y[flag] == bit(val(x, v, n) >= div),
        val(y, v, n) == if val(x, v, n) >= div {
            val(x, v, n) - div
        } else {
            val(x, v, n)
        },
        val(y, q, n) == if val(x, v, n) >= div {
            (val(x, q, n) + 1) % size(n)
        } else {
            val(x, q, n)
        },
        forall|k: int|
            held(h1, k) && !(v <= k < v + n) && !(q <= k < q + n) && k != flag ==> #[trigger] y[k]
                == x[k],
{
    broadcast use {
        works_clear,
        works_goto,
        works_tfree,
        sound_dec,
        sound_talloc_n,
        sound_set_const_n,
        sound_sub_n,
        sound_inc,
        sound_inc_n,
        sound_setv,
        sound_clear,
        sound_goto,
    };

    lemma_works_start(h1, x);
    assert(held(h1, flag));
    let c1 = h1.clear(flag);
    let x1 = x.insert(flag, 0);
    assert(works(h1, c1, x, x1));
    assert(grown(h1, c1));
    lemma_shares_grown(h1, c1, v, q, flag, n);
    assert(same_in(x, x1, v, n) && same_in(x, x1, q, n));
    lemma_same_val(x, x1, v, n);
    lemma_same_val(x, x1, q, n);
    let x2 = lemma_const_fits(h1, c1, x, x1, v, div, n);
    let (c2, ge) = const_fits(c1, v, div, n);
    lemma_shares_grown(c1, c2, v, q, flag, n);
    lemma_works_bytes(h1, c2, x, x2);
    assert(same_in(x1, x2, v, n)) by {
        assert forall|k: int| v <= k < v + n implies #[trigger] x2[k] == x1[k] by {
            assert(held(c1, k));
        }
    }
    assert(same_in(x1, x2, q, n)) by {
        assert forall|k: int| q <= k < q + n implies #[trigger] x2[k] == x1[k] by {
            assert(held(c1, k));
        }
    }
    lemma_same_val(x1, x2, v, n);
    lemma_same_val(x1, x2, q, n);
    assert(held(c1, flag));
    assert(ge != flag);
    assert(apart(v, n, ge, 1)) by {
        if !apart(v, n, ge, 1) {
            assert(held(c1, ge));
        }
    }
    assert(apart(q, n, ge, 1)) by {
        if !apart(q, n, ge, 1) {
            assert(held(c1, ge));
        }
    }
    let e = c2.goto(ge);
    let e1 = e.raw("["@);
    assert(works(h1, e, x, x2));
    assert(grown(c2, e1));
    lemma_shares_grown(c2, e1, v, q, flag, n);
    assert(held(e1, ge));
    let f3 = share_inner(e1, v, div, q, flag, ge, n);
    assert(sound(e1.out, e1.out, 0)) by {
        reveal(sound);
    }
    assert(sound(e1.out, f3.out, 0));
    let fit = val(x, v, n) >= div;
    let y = if fit {
        lemma_share_inner(e1, x2, v, div, q, flag, ge, n)
    } else {
        let full = x2.insert(v, 255).insert(v + 1, 255).insert(v + 2, 255).insert(v + 3, 255);
        assert forall|k: int| #[trigger] full.dom().contains(k) && 0 <= full[k] < 256 by {
            assert(x2.dom().contains(k));
        }
        assert(val(full, v, n) == size(n) - 1);
        let _ = lemma_share_inner(e1, full, v, div, q, flag, ge, n);
        x2
    };
    lemma_works_once(e, f3, x2, y);
    let e2 = f3.raw("]"@);
    lemma_works_then(h1, e, e2, x, x2, y);
    lemma_freed(e2, ge);
    let c3 = e2.tfree(ge);
    assert(works(h1, c3, x, y));
    let z = c3.goto(flag);
    assert(works(h1, z, x, y));
    assert(x2[flag] == 0);
    assert forall|k: int| #[trigger] held(h1, k) implies held(z, k) by {
        assert(held(c1, k));
        assert(held(c2, k) && k != ge);
        assert(held(e1, k));
        assert(held(f3, k));
        assert(held(e2, k));
        assert(held(c3, k));
    }
    assert forall|k: int|
        held(h1, k) && !(v <= k < v + n) && !(q <= k < q + n) && k != flag implies #[trigger] y[k]
        == x[k] by {
        assert(held(c1, k));
        assert(x2[k] == x1[k]);
        assert(held(c2, k) && k != ge);
        assert(held(e1, k));
    }
    y
}

/// The rounds of a division by a constant.
proof fn lemma_share_loop(h: Bf, x: Cells, v: int, div: int, q: int, flag: int, n: int) -> (y:
    Cells)
    requires
        bytes(x),
        h.ptr == flag,
        shares(h, v, q, flag, n),
        x[flag] == 1,
        0 < div < size(n),
        val(x, q, n) + val(x, v, n) / div < size(n),
    ensures
        works(h, share_body(h.raw("["@), v, div, q, flag, n).raw("]"@), x, y),
        grown(h, share_body(h.raw("["@), v, div, q, flag, n)),
        val(y, v, n) == val(x, v, n) % div,
        val(y, q, n) == val(x, q, n) + val(x, v, n) / div,
        forall|k: int|
            held(h, k) && !(v <= k < v + n) && !(q <= k < q + n) && k != flag ==> #[trigger] y[k]
                == x[k],
    decreases val(x, v, n),
{
    broadcast use {
        sound_clear,
        sound_talloc,
        sound_talloc_n,
        sound_copy,
        sound_copy_n,
        sound_setv,
        sound_set_const_n,
        sound_byte_gt,
        sound_gt_n,
        sound_negate,
        sound_goto,
        sound_open,
        sound_close,
        sound_dec,
        sound_sub_n,
        sound_inc,
        sound_inc_n,
        sound_tfree,
    };

    let h1 = h.raw("["@);
    assert(sound(h1.out, h1.out, 0)) by {
        reveal(sound);
    }
    let z = share_body(h1, v, div, q, flag, n);
    let (c2, ge) = const_fits(h1.clear(flag), v, div, n);
    assert(sound(h1.out, c2.out, 0));
    let e1 = c2.goto(ge).raw("["@);
    assert(sound(h1.out, e1.out, 1));
    let f3 = share_inner(e1, v, div, q, flag, ge, n);
    assert(sound(h1.out, const_take(e1, v, div, n).out, 1));
    assert(sound(h1.out, f3.out, 1));
    assert(sound(h1.out, z.out, 0));
    assert(grown(h, h1));
    lemma_shares_grown(h, h1, v, q, flag, n);
    let m = lemma_share_body(h1, x, v, div, q, flag, n);
    lemma_works_bytes(h1, z, x, m);
    lemma_bytes_val(x, v, n);
    let y = if val(x, v, n) >= div {
        lemma_quotient_step(val(x, v, n), div);
        lemma_bytes_val(x, q, n);
        assert((val(x, q, n) + 1) % size(n) == val(x, q, n) + 1);
        lemma_share_loop(h, m, v, div, q, flag, n)
    } else {
        vstd::arithmetic::div_mod::lemma_small_mod(val(x, v, n) as nat, div as nat);
        vstd::arithmetic::div_mod::lemma_basic_div(val(x, v, n), div);
        lemma_works_loop(h, z, m, m, m);
        m
    };
    lemma_works_loop(h, z, x, m, y);
    assert forall|k: int|
        held(h, k) && !(v <= k < v + n) && !(q <= k < q + n) && k != flag implies #[trigger] y[k]
        == x[k] by {
        assert(held(h1, k));
        assert(m[k] == x[k]);
    }
    y
}

/// The division of a number by a constant.
pub open spec fn shared(bf: Bf, v: int, div: int, q: int, n: int) -> Bf {
    if n == 1 {
        bf.divconst(v, div, q)
    } else {
        bf.divconst_wide(v, n, div, q)
    }
}

/// The division by a constant leaves the quotient in one block and the remainder
/// in the other.
pub proof fn lemma_shared(o: Bf, bf: Bf, x0: Cells, x: Cells, v: int, div: int, q: int, n: int)
    -> (y: Cells)
    requires
        works(o, bf, x0, x),
        operands(bf, v, q, n),
        0 < div < size(n),
    ensures
        works(o, shared(bf, v, div, q, n), x0, y),
        grown(bf, shared(bf, v, div, q, n)),
        val(y, v, n) == val(x, v, n) % div,
        val(y, q, n) == val(x, v, n) / div,
        forall|k: int|
            held(bf, k) && !(v <= k < v + n) && !(q <= k < q + n) ==> #[trigger] y[k] == x[k],
{
    broadcast use {works_clear, works_goto, works_setv, works_talloc, works_tfree, lemma_took};

    reveal(Bf::divconst);
    reveal(Bf::divconst_wide);
    lemma_works_bytes(o, bf, x0, x);
    let x2 = if n == 1 {
        x.insert(q, 0)
    } else {
        lemma_clear_range(o, bf, x0, x, q, 0, n)
    };
    let b2 = if n == 1 {
        bf.clear(q)
    } else {
        bf.clear_range(q, 0, n)
    };
    assert(works(o, b2, x0, x2));
    assert(settled(bf, b2));
    assert(took(b2, b2.talloc().0, b2.talloc().1));
    let (b3, flag) = b2.talloc();
    let h = b3.setv(flag, 1).goto(flag);
    let x3 = x2.insert(flag, 1);
    assert(works(o, h, x0, x3));
    lemma_works_bytes(o, h, x0, x3);
    assert forall|k: int| v <= k < v + n implies #[trigger] held(h, k) && k != flag by {
        assert(held(bf, k));
        assert(held(b2, k));
        assert(held(b3, k));
    }
    assert forall|k: int| q <= k < q + n implies #[trigger] held(h, k) && k != flag by {
        assert(held(bf, k));
        assert(held(b2, k));
        assert(held(b3, k));
    }
    assert(held(h, v) && held(h, q));
    lemma_held_val(h, x, x3, v, n);
    assert forall|k: int| q <= k < q + n implies #[trigger] x3[k] == 0 by {
        assert(held(h, k));
    }
    lemma_zero_val(x3, q, n);
    assert(held(b3, flag));
    assert(held(h, flag));
    lemma_bytes_val(x, v, n);
    assert(val(x, v, n) / div <= val(x, v, n)) by {
        vstd::arithmetic::div_mod::lemma_div_is_ordered_by_denominator(val(x, v, n), 1, div);
    }
    let y = lemma_share_loop(h, x3, v, div, q, flag, n);
    let z = share_body(h.raw("["@), v, div, q, flag, n);
    let e = z.raw("]"@);
    lemma_works_then(o, h, e, x0, x3, y);
    lemma_freed(e, flag);
    let c = e.tfree(flag);
    assert(works(o, c, x0, y));
    assert(c == shared(bf, v, div, q, n));
    assert forall|k: int| #[trigger] held(bf, k) implies held(c, k) by {
        assert(held(b2, k));
        assert(held(b3, k) && k != flag);
        assert(held(h, k));
        assert(held(z, k));
        assert(held(e, k));
    }
    assert forall|k: int|
        held(bf, k) && !(v <= k < v + n) && !(q <= k < q + n) implies #[trigger] y[k] == x[k] by {
        assert(x2[k] == x[k]);
        assert(held(b2, k));
        assert(held(b3, k) && k != flag);
        assert(held(h, k));
    }
    y
}

} // verus!
