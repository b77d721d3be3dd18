//! What quotients and remainders of one and two cells do.

use vstd::prelude::*;

use crate::bfsc::effect::arith::{
    blk, leaves, lemma_bytes_val, lemma_copied_val, lemma_held_val, lemma_same_val, lemma_sub_n,
    lemma_zero_val, operands, same_in, size, val, word,
};
use crate::bfsc::effect::blocks::{
    apart, lemma_clear_range, lemma_copy_n, lemma_freed_n, lemma_took_n, lent_n,
};
use crate::bfsc::effect::cells::{
    agree, bit, held, lemma_give_back, lemma_works_once, roomy, settled, took, works_copy,
    works_negate, works_sub_from,
};
use crate::bfsc::effect::compare::{grown, lemma_byte_gt, lemma_freed, lemma_took, lent};
use crate::bfsc::effect::product::{lemma_beside, lemma_inc_n, same_but};
use crate::bfsc::effect::steps::{
    bytes, lemma_works_bytes, lemma_works_loop, lemma_works_start, lemma_works_then, plus, works,
    works_clear, works_goto, works_inc, works_setv, works_talloc, works_talloc_n, works_tfree,
    works_tfree_n, Cells,
};
use crate::bfsc::effect::truth::lemma_gt_n;
use crate::bfsc::emitter::Bf;
use crate::bfsc::sound::arith::{
    sound_fits_byte, sound_fits_n, sound_inc_n, sound_take_byte, sound_take_n,
};
use crate::bfsc::sound::steps::{
    sound, sound_clear, sound_close, sound_goto, sound_inc, sound_open, sound_setv, sound_tfree,
};

verus! {

/// The step that finds out whether a divisor fits.
spec fn fits(bf: Bf, a: int, b: int, n: int) -> (Bf, int) {
    if n == 1 {
        bf.fits_byte(a, b)
    } else {
        bf.fits_n(a, b, n)
    }
}

/// The step that takes a divisor away.
spec fn take(bf: Bf, a: int, b: int, n: int) -> Bf {
    if n == 1 {
        bf.take_byte(a, b)
    } else {
        bf.take_n(a, b, n)
    }
}

/// The step that counts in a quotient.
pub open spec fn count(bf: Bf, q: int, n: int, quotient: bool) -> Bf {
    if !quotient {
        bf
    } else if n == 1 {
        bf.inc(q, 1)
    } else {
        bf.inc_n(q, n)
    }
}

/// `fits` gives a new cell with whether a divisor fits.
proof fn lemma_fits(o: Bf, bf: Bf, x0: Cells, x: Cells, a: int, b: int, n: int) -> (y: Cells)
    requires
        works(o, bf, x0, x),
        operands(bf, a, b, n),
    ensures
        works(o, fits(bf, a, b, n).0, x0, y),
        grown(bf, fits(bf, a, b, n).0),
        lent(fits(bf, a, b, n).0, fits(bf, a, b, n).1),
        !held(bf, fits(bf, a, b, n).1),
        y[fits(bf, a, b, n).1] == bit(val(x, a, n) >= val(x, b, n)),
        agree(bf, x, y),
{
    broadcast use {works_copy, works_negate, works_talloc, works_talloc_n, lemma_took};

    lemma_works_bytes(o, bf, x0, x);
    assert(held(bf, a) && held(bf, b));
    if n == 1 {
        reveal(Bf::fits_byte);
        assert(took(bf, bf.talloc().0, bf.talloc().1));
        let (b1, ta) = bf.talloc();
        assert(took(b1, b1.talloc().0, b1.talloc().1));
        let (b2, tb) = b1.talloc();
        assert(works(o, b2, x0, x));
        assert(held(b1, a) && held(b1, b) && held(b1, ta));
        assert(held(b2, a) && held(b2, b) && held(b2, ta) && held(b2, tb));
        let b3 = b2.copy(a, ta);
        let x3 = choose|y: Cells| #[trigger]
            works(o, b3, x0, y) && agree(b2, x.insert(ta, x[a]), y);
        assert(held(b3, b) && held(b3, tb));
        let b4 = b3.copy(b, tb);
        let x4 = choose|y: Cells| #[trigger]
            works(o, b4, x0, y) && agree(b3, x3.insert(tb, x3[b]), y);
        assert(held(b3, ta));
        assert(x3[b] == x[b] && x3[ta] == x[a]);
        assert(x4[ta] == x[a] && x4[tb] == x[b]);
        assert(held(b4, ta) && held(b4, tb));
        let x5 = lemma_byte_gt(o, b4, x0, x4, tb, ta);
        let (b5, bga) = b4.byte_gt(tb, ta);
        assert(held(b5, bga));
        let (c, ge) = b5.negate(bga);
        let y = choose|y: Cells| #[trigger]
            works(o, c, x0, y) && agree(b5, x5.insert(bga, bit(x5[bga] == 0)), y);
        assert(c == fits(bf, a, b, n).0 && ge == bga);
        assert forall|k: int| held(bf, k) implies #[trigger] y[k] == x[k] by {
            assert(held(b1, k) && k != ta);
            assert(held(b2, k) && k != tb);
            assert(x3[k] == x[k]);
            assert(held(b3, k));
            assert(x4[k] == x3[k]);
            assert(held(b4, k));
            assert(x5[k] == x4[k]);
            assert(held(b5, k) && k != bga);
        }
        assert forall|k: int| #[trigger] held(bf, k) implies held(c, k) by {
            assert(held(b1, k) && k != ta);
            assert(held(b2, k) && k != tb);
            assert(held(b3, k));
            assert(held(b4, k));
            assert(held(b5, k));
        }
        assert(!held(bf, bga)) by {
            if held(bf, bga) {
                assert(held(b1, bga));
                assert(held(b2, bga));
                assert(held(b3, bga));
                assert(held(b4, bga));
            }
        }
        assert(held(c, bga));
        y
    } else {
        reveal(Bf::fits_n);
        lemma_took_n(bf, n);
        let (b1, ta) = bf.talloc_n(n);
        lemma_took_n(b1, n);
        let (b2, tb) = b1.talloc_n(n);
        assert(works(o, b2, x0, x));
        lemma_beside(bf, b1, a, n, ta, n);
        lemma_beside(bf, b1, b, n, ta, n);
        assert forall|k: int| a <= k < a + n implies #[trigger] held(b1, k) by {
            assert(held(bf, k));
        }
        assert forall|k: int| b <= k < b + n implies #[trigger] held(b1, k) by {
            assert(held(bf, k));
        }
        assert forall|k: int| ta <= k < ta + n implies #[trigger] held(b1, k) by {}
        lemma_beside(b1, b2, a, n, tb, n);
        lemma_beside(b1, b2, b, n, tb, n);
        lemma_beside(b1, b2, ta, n, tb, n);
        assert forall|k: int| a <= k < a + n implies #[trigger] held(b2, k) by {
            assert(held(b1, k));
        }
        assert forall|k: int| b <= k < b + n implies #[trigger] held(b2, k) by {
            assert(held(b1, k));
        }
        assert forall|k: int| ta <= k < ta + n implies #[trigger] held(b2, k) by {
            assert(held(b1, k));
        }
        assert forall|k: int| tb <= k < tb + n implies #[trigger] held(b2, k) by {}
        let x3 = lemma_copy_n(o, b2, x0, x, a, ta, n);
        let b3 = b2.copy_n(a, ta, n);
        lemma_copied_val(b2, x, x3, a, ta, n);
        lemma_held_val(b2, x, x3, b, n);
        assert forall|k: int| b <= k < b + n implies #[trigger] held(b3, k) by {
            assert(held(b2, k));
        }
        assert forall|k: int| tb <= k < tb + n implies #[trigger] held(b3, k) by {
            assert(held(b2, k));
        }
        let x4 = lemma_copy_n(o, b3, x0, x3, b, tb, n);
        let b4 = b3.copy_n(b, tb, n);
        assert forall|k: int| ta <= k < ta + n implies #[trigger] held(b3, k) by {
            assert(held(b2, k));
        }
        lemma_copied_val(b3, x3, x4, b, tb, n);
        lemma_held_val(b3, x3, x4, ta, n);
        assert forall|k: int| ta <= k < ta + n implies #[trigger] held(b4, k) by {
            assert(held(b2, k));
        }
        assert forall|k: int| tb <= k < tb + n implies #[trigger] held(b4, k) by {
            assert(held(b2, k));
        }
        let x5 = lemma_gt_n(o, b4, x0, x4, tb, ta, n);
        let (b5, bgt) = b4.gt_n(tb, ta, n);
        let d = blk(tb, n).union(blk(ta, n));
        assert(held(b5, bgt));
        let (c, ge) = b5.negate(bgt);
        let y = choose|y: Cells| #[trigger]
            works(o, c, x0, y) && agree(b5, x5.insert(bgt, bit(x5[bgt] == 0)), y);
        assert(c == fits(bf, a, b, n).0 && ge == bgt);
        assert forall|k: int| held(bf, k) implies #[trigger] y[k] == x[k] by {
            assert(held(b1, k) && !(ta <= k < ta + n));
            assert(held(b2, k) && !(tb <= k < tb + n));
            assert(x3[k] == x[k]);
            assert(held(b3, k));
            assert(x4[k] == x3[k]);
            assert(held(b4, k) && !d.contains(k));
            assert(x5[k] == x4[k]);
            assert(held(b5, k) && k != bgt);
        }
        assert forall|k: int| #[trigger] held(bf, k) implies held(c, k) && k != bgt by {
            assert(held(b1, k) && !(ta <= k < ta + n));
            assert(held(b2, k) && !(tb <= k < tb + n));
            assert(held(b3, k));
            assert(held(b4, k) && !d.contains(k));
            assert(held(b5, k));
        }
        assert(held(c, bgt));
        y
    }
}

/// `take` takes a divisor away.
proof fn lemma_take(o: Bf, bf: Bf, x0: Cells, x: Cells, a: int, b: int, n: int) -> (y: Cells)
    requires
        works(o, bf, x0, x),
        operands(bf, a, b, n),
        val(x, a, n) >= val(x, b, n),
    ensures
        works(o, take(bf, a, b, n), x0, y),
        grown(bf, take(bf, a, b, n)),
        val(y, a, n) == val(x, a, n) - val(x, b, n),
        same_but(bf, x, y, a, n),
{
    broadcast use {works_copy, works_sub_from, works_talloc, works_talloc_n, works_tfree, lemma_took};

    lemma_works_bytes(o, bf, x0, x);
    assert(held(bf, a) && held(bf, b));
    assert(x.dom().contains(a) && x.dom().contains(b));
    if n == 1 {
        reveal(Bf::take_byte);
        assert(took(bf, bf.talloc().0, bf.talloc().1));
        let (b1, ts) = bf.talloc();
        assert(held(b1, a) && held(b1, b) && held(b1, ts));
        let b2 = b1.copy(b, ts);
        let x2 = choose|y: Cells| #[trigger]
            works(o, b2, x0, y) && agree(b1, x.insert(ts, x[b]), y);
        assert(x2[ts] == x[b] && x2[a] == x[a]);
        let b3 = b2.sub_from(ts, a);
        let y = plus(x2, a, -x2[ts]).insert(ts, 0);
        assert(works(o, b3, x0, y));
        lemma_give_back(bf, b3);
        let c = b3.tfree(ts);
        assert(works(o, c, x0, y));
        assert forall|k: int| held(bf, k) && !(a <= k < a + 1) implies #[trigger] y[k]
            == x[k] by {
            assert(held(b1, k) && k != ts);
            assert(x2[k] == x[k]);
        }
        y
    } else {
        reveal(Bf::take_n);
        lemma_took_n(bf, n);
        let (b1, ts) = bf.talloc_n(n);
        assert(works(o, b1, x0, x));
        lemma_beside(bf, b1, a, n, ts, n);
        lemma_beside(bf, b1, b, n, ts, n);
        lemma_bytes_val(x, a, n);
        lemma_bytes_val(x, b, n);
        assert forall|k: int| a <= k < a + n implies #[trigger] held(b1, k) by {
            assert(held(bf, k));
        }
        assert forall|k: int| b <= k < b + n implies #[trigger] held(b1, k) by {
            assert(held(bf, k));
        }
        assert forall|k: int| ts <= k < ts + n implies #[trigger] held(b1, k) by {}
        let x2 = lemma_copy_n(o, b1, x0, x, b, ts, n);
        let b2 = b1.copy_n(b, ts, n);
        lemma_copied_val(b1, x, x2, b, ts, n);
        lemma_held_val(b1, x, x2, a, n);
        assert forall|k: int| a <= k < a + n implies #[trigger] held(b2, k) by {
            assert(held(b1, k));
        }
        assert forall|k: int| ts <= k < ts + n implies #[trigger] held(b2, k) by {
            assert(held(b1, k));
        }
        let y = lemma_sub_n(o, b2, x0, x2, a, ts, n);
        let c = b2.sub_n(a, ts, n);
        assert forall|k: int| held(bf, k) && !(a <= k < a + n) implies #[trigger] y[k]
            == x[k] by {
            assert(held(b1, k) && !(ts <= k < ts + n));
            assert(x2[k] == x[k]);
            assert(held(b2, k));
        }
        assert forall|k: int| #[trigger] held(bf, k) implies held(c, k) by {
            assert(held(b1, k) && !(ts <= k < ts + n));
            assert(held(b2, k));
            assert(!blk(ts, n).contains(k));
        }
        y
    }
}

/// `count` adds 1 to a quotient.
pub proof fn lemma_count(o: Bf, bf: Bf, x0: Cells, x: Cells, q: int, n: int, quotient: bool) -> (y:
    Cells)
    requires
        works(o, bf, x0, x),
        word(n),
        roomy(bf),
        quotient ==> lent_n(bf, q, n),
    ensures
        works(o, count(bf, q, n, quotient), x0, y),
        grown(bf, count(bf, q, n, quotient)),
        quotient ==> val(y, q, n) == (val(x, q, n) + 1) % size(n) && same_but(bf, x, y, q, n),
        !quotient ==> y == x,
{
    broadcast use works_inc;

    if !quotient {
        x
    } else if n == 1 {
        let y = plus(x, q, 1);
        assert(works(o, bf.inc(q, 1), x0, y));
        y
    } else {
        lemma_inc_n(o, bf, x0, x, q, n)
    }
}

/// The cells that a division works on.
spec fn parts(h: Bf, a: int, b: int, q: int, flag: int, n: int, quotient: bool) -> bool {
    &&& operands(h, a, b, n)
    &&& lent(h, flag)
    &&& apart(a, n, flag, 1)
    &&& apart(b, n, flag, 1)
    &&& quotient ==> {
        &&& lent_n(h, q, n)
        &&& apart(a, n, q, n)
        &&& apart(b, n, q, n)
        &&& apart(q, n, flag, 1)
    }
}

/// Cells in use stay so.
proof fn lemma_parts_grown(
    h: Bf,
    c: Bf,
    a: int,
    b: int,
    q: int,
    flag: int,
    n: int,
    quotient: bool,
)
    requires
        grown(h, c),
        parts(h, a, b, q, flag, n, quotient),
    ensures
        parts(c, a, b, q, flag, n, quotient),
{
    assert forall|k: int| a <= k < a + n implies #[trigger] held(c, k) by {
        assert(held(h, k));
    }
    assert forall|k: int| b <= k < b + n implies #[trigger] held(c, k) by {
        assert(held(h, k));
    }
    if quotient {
        assert forall|k: int| q <= k < q + n implies #[trigger] held(c, k) by {
            assert(held(h, k));
        }
    }
    assert(held(h, flag));
}

/// What a division does where the divisor fits, up to the cell `ge`.
spec fn div_inner(
    e1: Bf,
    a: int,
    b: int,
    q: int,
    flag: int,
    ge: int,
    n: int,
    quotient: bool,
) -> Bf {
    count(take(e1, a, b, n), q, n, quotient).setv(flag, 1).clear(ge).goto(ge)
}

/// The cells in use but a division's hold the same.
spec fn beside_division(
    h: Bf,
    x: Cells,
    y: Cells,
    a: int,
    q: int,
    flag: int,
    n: int,
    quotient: bool,
) -> bool {
    forall|k: int|
        held(h, k) && !(a <= k < a + n) && !(quotient && q <= k < q + n) && k != flag
            ==> #[trigger] y[k] == x[k]
}

proof fn lemma_div_inner(
    e1: Bf,
    x: Cells,
    a: int,
    b: int,
    q: int,
    flag: int,
    ge: int,
    n: int,
    quotient: bool,
) -> (y: Cells)
    requires
        bytes(x),
        parts(e1, a, b, q, flag, n, quotient),
        held(e1, ge),
        ge != flag,
        apart(a, n, ge, 1),
        apart(b, n, ge, 1),
        quotient ==> apart(q, n, ge, 1),
        val(x, a, n) >= val(x, b, n),
    ensures
        works(e1, div_inner(e1, a, b, q, flag, ge, n, quotient), x, y),
        grown(e1, div_inner(e1, a, b, q, flag, ge, n, quotient)),
        val(y, a, n) == val(x, a, n) - val(x, b, n),
        quotient ==> val(y, q, n) == (val(x, q, n) + 1) % size(n),
        y[flag] == 1,
        y[ge] == 0,
        forall|k: int|
            held(e1, k) && k != ge && !(a <= k < a + n) && !(quotient && q <= k < q + n) && k
                != flag ==> #[trigger] y[k] == x[k],
{
    broadcast use {works_clear, works_goto, works_setv};

    lemma_works_start(e1, x);
    let x1 = lemma_take(e1, e1, x, x, a, b, n);
    let f1 = take(e1, a, b, n);
    lemma_parts_grown(e1, f1, a, b, q, flag, n, quotient);
    let x2 = lemma_count(e1, f1, x, x1, q, n, quotient);
    let f2 = count(f1, q, n, quotient);
    let z = f2.setv(flag, 1).clear(ge).goto(ge);
    let y = x2.insert(flag, 1).insert(ge, 0);
    assert(works(e1, z, x, y));
    assert forall|k: int| #[trigger] held(e1, k) implies held(z, k) by {
        assert(held(f1, k));
        assert(held(f2, k));
    }
    assert(same_in(x1, y, a, n)) by {
        assert forall|k: int| a <= k < a + n implies #[trigger] y[k] == x1[k] by {
            assert(held(f1, k));
        }
    }
    lemma_same_val(x1, y, a, n);
    if quotient {
        assert(same_in(x, x1, q, n)) by {
            assert forall|k: int| q <= k < q + n implies #[trigger] x1[k] == x[k] by {
                assert(held(e1, k));
            }
        }
        lemma_same_val(x, x1, q, n);
        assert(same_in(x2, y, q, n));
        lemma_same_val(x2, y, q, n);
    }
    assert forall|k: int|
        held(e1, k) && k != ge && !(a <= k < a + n) && !(quotient && q <= k < q + n) && k
            != flag implies #[trigger] y[k] == x[k] by {
        assert(x1[k] == x[k]);
        assert(held(f1, k));
        assert(x2[k] == x1[k]);
    }
    y
}

/// One round of a division, up to its flag.
spec fn div_body(h1: Bf, a: int, b: int, q: int, flag: int, n: int, quotient: bool) -> Bf {
    let (c2, ge) = fits(h1.clear(flag), a, b, n);
    let f3 = div_inner(c2.goto(ge).raw("["@), a, b, q, flag, ge, n, quotient);
    f3.raw("]"@).tfree(ge).goto(flag)
}

proof fn lemma_div_body(
    h1: Bf,
    x: Cells,
    a: int,
    b: int,
    q: int,
    flag: int,
    n: int,
    quotient: bool,
) -> (y: Cells)
    requires
        bytes(x),
        parts(h1, a, b, q, flag, n, quotient),
    ensures
        works(h1, div_body(h1, a, b, q, flag, n, quotient), x, y),
        grown(h1, div_body(h1, a, b, q, flag, n, quotient)),
        y[flag] == bit(val(x, a, n) >= val(x, b, n)),
        val(y, a, n) == if val(x, a, n) >= val(x, b, n) {
            val(x, a, n) - val(x, b, n)
        } else {
            val(x, a, n)
        },
        quotient ==> val(y, q, n) == if val(x, a, n) >= val(x, b, n) {
            (val(x, q, n) + 1) % size(n)
        } else {
            val(x, q, n)
        },
        beside_division(h1, x, y, a, q, flag, n, quotient),
{
    broadcast use {
        works_clear,
        works_goto,
        works_tfree,
        sound_take_byte,
        sound_take_n,
        sound_inc,
        sound_inc_n,
        sound_setv,
        sound_clear,
        sound_goto,
    };

    lemma_works_start(h1, x);
    assert(held(h1, flag));
    let c1 = h1.clear(flag);
    let x1 = x.insert(flag, 0);
    assert(works(h1, c1, x, x1));
    assert(grown(h1, c1));
    lemma_parts_grown(h1, c1, a, b, q, flag, n, quotient);
    assert(same_in(x, x1, a, n) && same_in(x, x1, b, n));
    lemma_same_val(x, x1, a, n);
    lemma_same_val(x, x1, b, n);
    let x2 = lemma_fits(h1, c1, x, x1, a, b, n);
    let (c2, ge) = fits(c1, a, b, n);
    lemma_parts_grown(c1, c2, a, b, q, flag, n, quotient);
    lemma_works_bytes(h1, c2, x, x2);
    assert(same_in(x1, x2, a, n)) by {
        assert forall|k: int| a <= k < a + n implies #[trigger] x2[k] == x1[k] by {
            assert(held(c1, k));
        }
    }
    assert(same_in(x1, x2, b, n)) by {
        assert forall|k: int| b <= k < b + n implies #[trigger] x2[k] == x1[k] by {
            assert(held(c1, k));
        }
    }
    lemma_same_val(x1, x2, a, n);
    lemma_same_val(x1, x2, b, n);
    assert(held(c1, flag));
    assert(ge != flag);
    assert(apart(a, n, ge, 1)) by {
        if !apart(a, n, ge, 1) {
            assert(held(c1, ge));
        }
    }
    assert(apart(b, n, ge, 1)) by {
        if !apart(b, n, ge, 1) {
            assert(held(c1, ge));
        }
    }
    if quotient {
        assert(apart(q, n, ge, 1)) by {
            if !apart(q, n, ge, 1) {
                assert(held(c1, ge));
            }
        }
        assert(same_in(x, x2, q, n)) by {
            assert forall|k: int| q <= k < q + n implies #[trigger] x2[k] == x[k] by {
                assert(held(c1, k));
            }
        }
        lemma_same_val(x, x2, q, n);
    }
    let e = c2.goto(ge);
    let e1 = e.raw("["@);
    assert(works(h1, e, x, x2));
    assert(grown(c2, e1));
    lemma_parts_grown(c2, e1, a, b, q, flag, n, quotient);
    assert(held(e1, ge));
    let f3 = div_inner(e1, a, b, q, flag, ge, n, quotient);
    assert(sound(e1.out, e1.out, 0)) by {
        reveal(sound);
    }
    assert(sound(e1.out, f3.out, 0));
    let fit = val(x, a, n) >= val(x, b, n);
    let y = if fit {
        lemma_div_inner(e1, x2, a, b, q, flag, ge, n, quotient)
    } else {
        let zero = x2.insert(b, 0).insert(b + 1, 0).insert(b + 2, 0).insert(b + 3, 0);
        lemma_zero_val(zero, b, n);
        assert forall|k: int| #[trigger] zero.dom().contains(k) && 0 <= zero[k] < 256 by {
            assert(x2.dom().contains(k));
        }
        lemma_bytes_val(zero, a, n);
        let _ = lemma_div_inner(e1, zero, a, b, q, flag, ge, n, quotient);
        x2
    };
    lemma_works_once(e, f3, x2, y);
    let e2 = f3.raw("]"@);
    lemma_works_then(h1, e, e2, x, x2, y);
    lemma_freed(e2, ge);
    let c3 = e2.tfree(ge);
    assert(works(h1, c3, x, y));
    let z = c3.goto(flag);
    assert(works(h1, z, x, y));
    assert(x2[flag] == 0);
    assert forall|k: int| #[trigger] held(h1, k) implies held(z, k) by {
        assert(held(c1, k));
        assert(held(c2, k) && k != ge);
        assert(held(e1, k));
        assert(held(f3, k));
        assert(held(e2, k));
        assert(held(c3, k));
    }
    assert forall|k: int|
        held(h1, k) && !(a <= k < a + n) && !(quotient && q <= k < q + n) && k
            != flag implies #[trigger] y[k] == x[k] by {
        assert(held(c1, k));
        assert(x2[k] == x1[k]);
        assert(held(c2, k) && k != ge);
        assert(held(e1, k));
    }
    y
}

/// One subtraction more in a quotient.
pub proof fn lemma_quotient_step(a: int, b: int)
    requires
        b > 0,
        a >= b,
    ensures
        (a - b) / b == a / b - 1,
        (a - b) % b == a % b,
        a / b >= 1,
{
    vstd::arithmetic::div_mod::lemma_mod_sub_multiples_vanish(a, b);
    vstd::arithmetic::div_mod::lemma_div_minus_one(a, b);
    vstd::arithmetic::div_mod::lemma_div_non_zero(a, b);
}

/// The rounds of a division.
proof fn lemma_div_loop(
    h: Bf,
    x: Cells,
    a: int,
    b: int,
    q: int,
    flag: int,
    n: int,
    quotient: bool,
) -> (y: Cells)
    requires
        bytes(x),
        h.ptr == flag,
        parts(h, a, b, q, flag, n, quotient),
        x[flag] == 1,
        val(x, b, n) > 0,
        quotient ==> val(x, q, n) + val(x, a, n) / val(x, b, n) < size(n),
    ensures
        works(h, div_body(h.raw("["@), a, b, q, flag, n, quotient).raw("]"@), x, y),
        grown(h, div_body(h.raw("["@), a, b, q, flag, n, quotient)),
        val(y, a, n) == val(x, a, n) % val(x, b, n),
        quotient ==> val(y, q, n) == val(x, q, n) + val(x, a, n) / val(x, b, n),
        beside_division(h, x, y, a, q, flag, n, quotient),
    decreases val(x, a, n),
{
    broadcast use {
        sound_clear,
        sound_fits_byte,
        sound_fits_n,
        sound_goto,
        sound_open,
        sound_close,
        sound_take_byte,
        sound_take_n,
        sound_inc,
        sound_inc_n,
        sound_setv,
        sound_tfree,
    };

    let h1 = h.raw("["@);
    assert(sound(h1.out, h1.out, 0)) by {
        reveal(sound);
    }
    let z = div_body(h1, a, b, q, flag, n, quotient);
    let (c2, ge) = fits(h1.clear(flag), a, b, n);
    assert(sound(h1.out, c2.out, 0));
    let e1 = c2.goto(ge).raw("["@);
    assert(sound(h1.out, e1.out, 1));
    let f3 = div_inner(e1, a, b, q, flag, ge, n, quotient);
    assert(sound(h1.out, take(e1, a, b, n).out, 1));
    assert(sound(h1.out, f3.out, 1));
    assert(sound(h1.out, z.out, 0));
    assert(grown(h, h1));
    lemma_parts_grown(h, h1, a, b, q, flag, n, quotient);
    let m = lemma_div_body(h1, x, a, b, q, flag, n, quotient);
    lemma_works_bytes(h1, z, x, m);
    assert(same_in(x, m, b, n)) by {
        assert forall|k: int| b <= k < b + n implies #[trigger] m[k] == x[k] by {
            assert(held(h1, k));
        }
    }
    lemma_same_val(x, m, b, n);
    lemma_bytes_val(x, a, n);
    let y = if val(x, a, n) >= val(x, b, n) {
        lemma_quotient_step(val(x, a, n), val(x, b, n));
        if quotient {
            lemma_bytes_val(x, q, n);
            assert(val(x, q, n) + 1 < size(n) || val(x, a, n) / val(x, b, n) == 1);
            assert((val(x, q, n) + 1) % size(n) == val(x, q, n) + 1);
        }
        lemma_div_loop(h, m, a, b, q, flag, n, quotient)
    } else {
        vstd::arithmetic::div_mod::lemma_small_mod(val(x, a, n) as nat, val(x, b, n) as nat);
        vstd::arithmetic::div_mod::lemma_basic_div(val(x, a, n), val(x, b, n));
        lemma_works_loop(h, z, m, m, m);
        m
    };
    lemma_works_loop(h, z, x, m, y);
    assert forall|k: int|
        held(h, k) && !(a <= k < a + n) && !(quotient && q <= k < q + n) && k
            != flag implies #[trigger] y[k] == x[k] by {
        assert(held(h1, k));
        assert(m[k] == x[k]);
    }
    y
}

/// `arith_div_n` gives a new block with the quotient of two numbers. Division
/// by 0 does not end.
pub proof fn lemma_div_n(o: Bf, bf: Bf, x0: Cells, x: Cells, a: int, b: int, n: int) -> (y: Cells)
    requires
        works(o, bf, x0, x),
        operands(bf, a, b, n),
        val(x, b, n) > 0,
    ensures
        works(o, bf.arith_div_n(a, b, n).0, x0, y),
        leaves(
            bf,
            bf.arith_div_n(a, b, n).0,
            x,
            y,
            bf.arith_div_n(a, b, n).1,
            n,
            val(x, a, n) / val(x, b, n),
            blk(a, n).union(blk(b, n)),
        ),
{
    broadcast use {
        works_clear,
        works_goto,
        works_setv,
        works_talloc,
        works_talloc_n,
        works_tfree,
        works_tfree_n,
        lemma_took,
    };

    reveal(Bf::arith_div_n);
    reveal(Bf::arith_div);
    lemma_works_bytes(o, bf, x0, x);
    lemma_took_n(bf, n);
    let (b1, q) = bf.talloc_n(n);
    assert(works(o, b1, x0, x));
    lemma_beside(bf, b1, a, n, q, n);
    lemma_beside(bf, b1, b, n, q, n);
    let x2 = if n == 1 {
        x.insert(q, 0)
    } else {
        lemma_clear_range(o, b1, x0, x, q, 0, n)
    };
    let b2 = if n == 1 {
        b1.clear(q)
    } else {
        b1.clear_range(q, 0, n)
    };
    assert(works(o, b2, x0, x2));
    assert(settled(b1, b2));
    assert(took(b2, b2.talloc().0, b2.talloc().1));
    let (b3, flag) = b2.talloc();
    let h = b3.setv(flag, 1).goto(flag);
    let x3 = x2.insert(flag, 1);
    assert(works(o, h, x0, x3));
    lemma_works_bytes(o, h, x0, x3);
    assert forall|k: int| a <= k < a + n implies #[trigger] held(h, k) && k != flag by {
        assert(held(bf, k));
        assert(held(b1, k));
        assert(held(b2, k));
        assert(held(b3, k));
    }
    assert forall|k: int| b <= k < b + n implies #[trigger] held(h, k) && k != flag by {
        assert(held(bf, k));
        assert(held(b1, k));
        assert(held(b2, k));
        assert(held(b3, k));
    }
    assert forall|k: int| q <= k < q + n implies #[trigger] held(h, k) && k != flag by {
        assert(held(b1, k));
        assert(held(b2, k));
        assert(held(b3, k));
    }
    assert(held(h, a) && held(h, b) && held(h, q));
    lemma_held_val(h, x, x3, a, n);
    lemma_held_val(h, x, x3, b, n);
    assert forall|k: int| q <= k < q + n implies #[trigger] x3[k] == 0 by {
        assert(held(h, k));
    }
    lemma_zero_val(x3, q, n);
    assert(held(b3, flag));
    assert(held(h, flag));
    lemma_bytes_val(x, a, n);
    assert(val(x, a, n) / val(x, b, n) <= val(x, a, n)) by {
        vstd::arithmetic::div_mod::lemma_div_is_ordered_by_denominator(
            val(x, a, n),
            1,
            val(x, b, n),
        );
    }
    let y = lemma_div_loop(h, x3, a, b, q, flag, n, true);
    let z = div_body(h.raw("["@), a, b, q, flag, n, true);
    let e = z.raw("]"@);
    lemma_works_then(o, h, e, x0, x3, y);
    lemma_freed(e, flag);
    let f = e.tfree(flag);
    assert(works(o, f, x0, y));
    lemma_freed_n(f, a, n);
    let g = f.tfree_n(a, n);
    assert(works(o, g, x0, y));
    lemma_freed_n(g, b, n);
    let c = g.tfree_n(b, n);
    assert(works(o, c, x0, y));
    assert(c == bf.arith_div_n(a, b, n).0);
    let d = blk(a, n).union(blk(b, n));
    assert forall|k: int| q <= k < q + n implies #[trigger] held(c, k) by {
        assert(held(h, k) && k != flag);
        assert(held(z, k));
        assert(held(e, k));
        assert(held(f, k));
        assert(held(g, k));
    }
    assert forall|k: int| #[trigger] held(bf, k) && !d.contains(k) implies held(c, k) && !(q <= k
        < q + n) by {
        assert(!blk(a, n).contains(k) && !blk(b, n).contains(k));
        assert(held(b1, k));
        assert(held(b2, k));
        assert(held(b3, k) && k != flag);
        assert(held(h, k));
        assert(held(z, k));
        assert(held(e, k));
        assert(held(f, k));
        assert(held(g, k));
    }
    assert forall|k: int| held(bf, k) && !d.contains(k) implies #[trigger] y[k] == x[k] by {
        assert(!blk(a, n).contains(k) && !blk(b, n).contains(k));
        assert(held(b1, k) && !(q <= k < q + n));
        assert(x2[k] == x[k]);
        assert(held(b2, k));
        assert(held(b3, k) && k != flag);
        assert(held(h, k));
    }
    y
}

/// `arith_mod_n` gives the remainder of two numbers, in the block of the first.
pub proof fn lemma_mod_n(o: Bf, bf: Bf, x0: Cells, x: Cells, a: int, b: int, n: int) -> (y: Cells)
    requires
        works(o, bf, x0, x),
        operands(bf, a, b, n),
        val(x, b, n) > 0,
    ensures
        works(o, bf.arith_mod_n(a, b, n).0, x0, y),
        leaves(
            bf,
            bf.arith_mod_n(a, b, n).0,
            x,
            y,
            bf.arith_mod_n(a, b, n).1,
            n,
            val(x, a, n) % val(x, b, n),
            blk(a, n).union(blk(b, n)),
        ),
{
    broadcast use {works_goto, works_setv, works_talloc, works_tfree, works_tfree_n, lemma_took};

    reveal(Bf::arith_mod_n);
    reveal(Bf::arith_mod);
    lemma_works_bytes(o, bf, x0, x);
    assert(took(bf, bf.talloc().0, bf.talloc().1));
    let (b3, flag) = bf.talloc();
    let h = b3.setv(flag, 1).goto(flag);
    let x3 = x.insert(flag, 1);
    assert(works(o, h, x0, x3));
    lemma_works_bytes(o, h, x0, x3);
    assert forall|k: int| a <= k < a + n implies #[trigger] held(h, k) && k != flag by {
        assert(held(bf, k));
        assert(held(b3, k));
    }
    assert forall|k: int| b <= k < b + n implies #[trigger] held(h, k) && k != flag by {
        assert(held(bf, k));
        assert(held(b3, k));
    }
    assert(held(h, a) && held(h, b));
    lemma_held_val(h, x, x3, a, n);
    lemma_held_val(h, x, x3, b, n);
    assert(held(b3, flag));
    assert(held(h, flag));
    let y = lemma_div_loop(h, x3, a, b, 0, flag, n, false);
    let z = div_body(h.raw("["@), a, b, 0, flag, n, false);
    let e = z.raw("]"@);
    lemma_works_then(o, h, e, x0, x3, y);
    lemma_freed(e, flag);
    let f = e.tfree(flag);
    assert(works(o, f, x0, y));
    lemma_freed_n(f, b, n);
    let c = f.tfree_n(b, n);
    assert(works(o, c, x0, y));
    assert(c == bf.arith_mod_n(a, b, n).0);
    let d = blk(a, n).union(blk(b, n));
    assert forall|k: int| a <= k < a + n implies #[trigger] held(c, k) by {
        assert(held(h, k) && k != flag);
        assert(held(z, k));
        assert(held(e, k));
        assert(held(f, k));
    }
    assert forall|k: int| #[trigger] held(bf, k) && !d.contains(k) implies held(c, k) && !(a <= k
        < a + n) by {
        assert(!blk(a, n).contains(k) && !blk(b, n).contains(k));
        assert(held(b3, k) && k != flag);
        assert(held(h, k));
        assert(held(z, k));
        assert(held(e, k));
        assert(held(f, k));
    }
    assert forall|k: int| held(bf, k) && !d.contains(k) implies #[trigger] y[k] == x[k] by {
        assert(!blk(a, n).contains(k) && !blk(b, n).contains(k));
        assert(held(b3, k) && k != flag);
        assert(held(h, k));
    }
    y
}

} // verus!
