//! What the reading of a number does.

use vstd::prelude::*;

use crate::bfsc::effect::arith::{
    blk, lemma_add_n, lemma_bytes_val, lemma_copied_val, lemma_held_val, lemma_same_val,
    lemma_zero_val, same_in, size, val, word,
};
use crate::bfsc::effect::blocks::{
    apart, held_n, lemma_clear_range, lemma_copy_n, lemma_freed_n, lemma_took_n,
};
use crate::bfsc::effect::cells::{
    agree, bit, held, lemma_works_once, roomy, settled, took, works_add_to, works_bfmove,
    works_copy, works_is_nz,
};
use crate::bfsc::effect::compare::{grown, lemma_freed, lemma_took, lent};
use crate::bfsc::effect::expr::lemma_widened;
use crate::bfsc::effect::flow::{
    goes, lemma_get, lemma_goes_ends, lemma_goes_goto, lemma_goes_loop, lemma_goes_quiet,
    lemma_goes_then, lemma_goes_works,
};
use crate::bfsc::effect::product::lemma_beside;
use crate::bfsc::effect::shape::ones;
use crate::bfsc::effect::steps::{
    bytes, lemma_works_bytes, lemma_works_start, lemma_works_then, plus, with, works, works_clear,
    works_dec, works_goto, works_setv, works_talloc, works_talloc_n, works_tfree, works_tfree_n,
    Cells,
};
use crate::bfsc::emitter::Bf;
use crate::bfsc::meaning::{goes_on, scanned};
use crate::bfsc::sound::arith::{sound_add_n, sound_add_to, sound_copy, sound_widen};
use crate::bfsc::sound::numbers::{sound_mul10_n, sound_next_char};
use crate::bfsc::sound::steps::{
    sound, sound_clear, sound_close, sound_dec, sound_goto, sound_open, sound_setv, sound_talloc,
    sound_tfree,
};
use crate::interp::machine::{written_bytes, Source, St};
use crate::interp::preserve::gives_bytes;

verus! {

/// A new cell with whether a byte differs from `v`.
spec fn differs(bf: Bf, ch: int, v: int) -> (Bf, int) {
    let (bf, t) = bf.talloc();
    let (bf, c) = bf.copy(ch, t).dec(t, v).is_nz(t);
    (bf.tfree(t), c)
}

proof fn lemma_differs(o: Bf, bf: Bf, x0: Cells, x: Cells, ch: int, v: int) -> (y: Cells)
    requires
        works(o, bf, x0, x),
        roomy(bf),
        held(bf, ch),
        0 <= v < 256,
    ensures
        ({
            let (c, r) = differs(bf, ch, v);
            &&& works(o, c, x0, y)
            &&& roomy(c)
            &&& c.temp_base == bf.temp_base
            &&& r >= bf.temp_base
            &&& !held(bf, r)
            &&& forall|k: int| #[trigger] held(c, k) <==> held(bf, k) || k == r
            &&& y[r] == bit(x[ch] != v)
        }),
        agree(bf, x, y),
{
    broadcast use {works_talloc, works_tfree, works_copy, works_dec, works_is_nz, lemma_took};

    lemma_works_bytes(o, bf, x0, x);
    assert(took(bf, bf.talloc().0, bf.talloc().1));
    let (b1, t) = bf.talloc();
    assert(works(o, b1, x0, x));
    assert(held(b1, ch) && held(b1, t));
    let b2 = b1.copy(ch, t);
    let x2 = choose|y: Cells| #[trigger] works(o, b2, x0, y) && agree(b1, x.insert(t, x[ch]), y);
    lemma_works_bytes(o, b2, x0, x2);
    let b3 = b2.dec(t, v);
    let x3 = plus(x2, t, -v);
    assert(works(o, b3, x0, x3));
    assert(x.dom().contains(ch));
    assert(x2[t] == x[ch]);
    assert(x3[t] == (x[ch] - v) % 256);
    assert((x3[t] != 0) == (x[ch] != v));
    assert(held(b3, t));
    let (b4, r) = b3.is_nz(t);
    assert(took(b3, b4, r));
    let y = choose|y: Cells| #[trigger]
        works(o, b4, x0, y) && agree(b3.talloc().0, x3.insert(b3.talloc().1, bit(x3[t] != 0)), y);
    assert(held(b4, r) && held(b3.talloc().0, r));
    lemma_freed(b4, t);
    let c = b4.tfree(t);
    assert(works(o, c, x0, y));
    assert forall|k: int| #[trigger] held(c, k) <==> held(bf, k) || k == r by {
        assert(held(b1, k) <==> held(bf, k) || k == t);
        assert(held(b3, k) == held(b1, k));
        assert(held(b4, k) <==> held(b3, k) || k == r);
    }
    assert(!held(bf, r)) by {
        if held(bf, r) {
            assert(held(b1, r));
            assert(held(b3, r));
        }
    }
    assert forall|k: int| held(bf, k) implies #[trigger] y[k] == x[k] by {
        assert(held(b1, k) && k != t);
        assert(x2[k] == x.insert(t, x[ch])[k]);
        assert(held(b3, k));
        assert(held(b4, k) && k != r);
        assert(held(b3.talloc().0, k));
    }
    y
}

/// The body of a flag's loop that clears it.
spec fn cleared(bf: Bf, c: int) -> Bf {
    bf.clear(c).goto(c)
}

/// Three flags that are all set set a fourth.
spec fn all_three(bf: Bf, c1: int, c2: int, c3: int, r: int) -> Bf {
    let e3 = bf.goto(c1).raw("["@).goto(c2).raw("["@).goto(c3).raw("["@);
    cleared(
        cleared(cleared(e3.setv(r, 1), c3).raw("]"@), c2).raw("]"@),
        c1,
    ).raw("]"@)
}

/// The innermost loop.
proof fn lemma_inner(bf: Bf, x: Cells, c3: int, r: int)
    requires
        bytes(x),
        c3 != r,
    ensures
        works(
            bf,
            cleared(bf.goto(c3).raw("["@).setv(r, 1), c3).raw("]"@),
            x,
            if x[c3] != 0 {
                x.insert(r, 1).insert(c3, 0)
            } else {
                x
            },
        ),
        settled(bf, cleared(bf.goto(c3).raw("["@).setv(r, 1), c3).raw("]"@)),
{
    broadcast use {works_goto, works_clear, works_setv, sound_goto, sound_clear, sound_setv};

    lemma_works_start(bf, x);
    let a = bf.goto(c3);
    let a1 = a.raw("["@);
    let z = cleared(a1.setv(r, 1), c3);
    assert(sound(a1.out, a1.out, 0)) by {
        reveal(sound);
    }
    lemma_works_start(a1, x);
    let y = x.insert(r, 1).insert(c3, 0);
    assert(works(a1, z, x, y));
    let m = if x[c3] != 0 {
        y
    } else {
        x
    };
    lemma_works_once(a, z, x, m);
    lemma_works_then(bf, a, z.raw("]"@), x, x, m);
}

/// The loop around it.
proof fn lemma_middle(bf: Bf, x: Cells, c2: int, c3: int, r: int) -> (y: Cells)
    requires
        bytes(x),
        c3 != r,
        c2 != r,
        c2 != c3,
    ensures
        ({
            let e = bf.goto(c2).raw("["@);
            let z = cleared(cleared(e.goto(c3).raw("["@).setv(r, 1), c3).raw("]"@), c2).raw("]"@);
            &&& works(bf, z, x, y)
            &&& settled(bf, z)
        }),
        y[r] == if x[c2] != 0 && x[c3] != 0 {
            1
        } else {
            x[r]
        },
        forall|k: int| k != r && k != c2 && k != c3 ==> #[trigger] y[k] == x[k],
{
    broadcast use {
        works_goto,
        works_clear,
        works_setv,
        sound_goto,
        sound_clear,
        sound_setv,
        sound_open,
        sound_close,
    };

    lemma_works_start(bf, x);
    let a = bf.goto(c2);
    let e = a.raw("["@);
    let f = cleared(e.goto(c3).raw("["@).setv(r, 1), c3).raw("]"@);
    let z = cleared(f, c2);
    assert(sound(e.out, e.out, 0)) by {
        reveal(sound);
    }
    assert(sound(e.out, z.out, 0));
    lemma_inner(e, x, c3, r);
    let m = if x[c3] != 0 {
        x.insert(r, 1).insert(c3, 0)
    } else {
        x
    };
    let n = m.insert(c2, 0);
    assert(works(e, z, x, n));
    let y = if x[c2] != 0 {
        n
    } else {
        x
    };
    lemma_works_once(a, z, x, y);
    lemma_works_then(bf, a, z.raw("]"@), x, x, y);
    y
}

proof fn lemma_all_three(bf: Bf, x: Cells, c1: int, c2: int, c3: int, r: int) -> (y: Cells)
    requires
        bytes(x),
        c3 != r,
        c2 != r,
        c2 != c3,
        c1 != r,
        c1 != c2,
        c1 != c3,
    ensures
        works(bf, all_three(bf, c1, c2, c3, r), x, y),
        settled(bf, all_three(bf, c1, c2, c3, r)),
        y[r] == if x[c1] != 0 && x[c2] != 0 && x[c3] != 0 {
            1
        } else {
            x[r]
        },
        forall|k: int| k != r && k != c1 && k != c2 && k != c3 ==> #[trigger] y[k] == x[k],
{
    broadcast use {
        works_goto,
        works_clear,
        sound_goto,
        sound_clear,
        sound_setv,
        sound_open,
        sound_close,
    };

    lemma_works_start(bf, x);
    let a = bf.goto(c1);
    let e = a.raw("["@);
    let e2 = e.goto(c2).raw("["@);
    let f = cleared(cleared(e2.goto(c3).raw("["@).setv(r, 1), c3).raw("]"@), c2).raw("]"@);
    let z = cleared(f, c1);
    assert(sound(e.out, e.out, 0)) by {
        reveal(sound);
    }
    assert(sound(e.out, z.out, 0));
    let m = lemma_middle(e, x, c2, c3, r);
    let n = m.insert(c1, 0);
    assert(works(e, z, x, n));
    let y = if x[c1] != 0 {
        n
    } else {
        x
    };
    lemma_works_once(a, z, x, y);
    lemma_works_then(bf, a, z.raw("]"@), x, x, y);
    y
}

/// `is_digit` gives a new cell with whether a character goes on with a number.
proof fn lemma_is_digit(o: Bf, bf: Bf, x0: Cells, x: Cells, ch: int) -> (y: Cells)
    requires
        works(o, bf, x0, x),
        roomy(bf),
        held(bf, ch),
    ensures
        ({
            let (c, r) = bf.is_digit(ch);
            &&& works(o, c, x0, y)
            &&& roomy(c)
            &&& c.temp_base == bf.temp_base
            &&& r >= bf.temp_base
            &&& !held(bf, r)
            &&& forall|k: int| #[trigger] held(c, k) <==> held(bf, k) || k == r
            &&& y[r] == bit(goes_on(x[ch]))
        }),
        agree(bf, x, y),
{
    broadcast use {works_talloc, works_tfree, works_clear, works_is_nz, lemma_took};

    reveal(Bf::is_digit);
    lemma_works_bytes(o, bf, x0, x);
    assert(took(bf, bf.talloc().0, bf.talloc().1));
    let (b1, r) = bf.talloc();
    let b2 = b1.clear(r);
    let x2 = x.insert(r, 0);
    assert(works(o, b2, x0, x2));
    assert(held(b1, ch) && held(b1, r));
    assert(held(b2, ch) && held(b2, r));
    let (b3, c1) = b2.is_nz(ch);
    assert(took(b2, b3, c1));
    let x3 = choose|y: Cells| #[trigger]
        works(o, b3, x0, y) && agree(b2.talloc().0, x2.insert(b2.talloc().1, bit(x2[ch] != 0)), y);
    assert(held(b3, c1) && held(b3, ch) && held(b3, r));
    assert(held(b2.talloc().0, c1) && held(b2.talloc().0, ch) && held(b2.talloc().0, r));
    assert(x3[ch] == x[ch] && x3[r] == 0 && x3[c1] == bit(x[ch] != 0));
    let x4 = lemma_differs(o, b3, x0, x3, ch, 10);
    let (b4, c2) = differs(b3, ch, 10);
    assert(held(b4, ch) && held(b4, c1) && held(b4, c2) && held(b4, r));
    let x5 = lemma_differs(o, b4, x0, x4, ch, 32);
    let (b5, c3) = differs(b4, ch, 32);
    assert(x5[c1] == x4[c1] && x4[c1] == x3[c1]);
    assert(x5[c2] == x4[c2]);
    assert(x5[r] == 0);
    lemma_works_bytes(o, b5, x0, x5);
    let y = lemma_all_three(b5, x5, c1, c2, c3, r);
    let b6 = all_three(b5, c1, c2, c3, r);
    lemma_works_then(o, b5, b6, x0, x5, y);
    lemma_freed(b6, c3);
    let b7 = b6.tfree(c3);
    lemma_freed(b7, c2);
    let b8 = b7.tfree(c2);
    lemma_freed(b8, c1);
    let c = b8.tfree(c1);
    assert(works(o, c, x0, y));
    assert(bf.is_digit(ch) == (c, r));
    assert forall|k: int| #[trigger] held(c, k) <==> held(bf, k) || k == r by {
        assert(held(b1, k) <==> held(bf, k) || k == r);
        assert(held(b2, k) == held(b1, k));
        assert(held(b3, k) <==> held(b2, k) || k == c1);
        assert(held(b4, k) <==> held(b3, k) || k == c2);
        assert(held(b5, k) <==> held(b4, k) || k == c3);
        assert(held(b6, k) == held(b5, k));
        assert(held(b7, k) <==> held(b6, k) && k != c3);
        assert(held(b8, k) <==> held(b7, k) && k != c2);
    }
    assert forall|k: int| held(bf, k) implies #[trigger] y[k] == x[k] by {
        assert(held(b1, k) && k != r);
        assert(held(b2, k));
        assert(held(b3, k) && k != c1);
        assert(held(b2.talloc().0, k));
        assert(x3[k] == x2[k]);
        assert(held(b4, k) && k != c2);
        assert(x4[k] == x3[k]);
        assert(held(b5, k) && k != c3);
        assert(x5[k] == x4[k]);
    }
    y
}

/// One round of the multiplication by 10.
spec fn tenth(bf: Bf, cell: int, tc: int, n: int) -> Bf {
    if n == 1 {
        let (bf, t2) = bf.talloc();
        bf.copy(tc, t2).add_to(t2, cell).tfree(t2)
    } else {
        let (bf, t2) = bf.talloc_n(n);
        bf.copy_n(tc, t2, n).add_n(cell, t2, n)
    }
}

/// The rounds of the multiplication by 10.
spec fn tenths(bf: Bf, cell: int, tc: int, n: int, i: int) -> Bf {
    if n == 1 {
        bf.mul10_rounds(cell, tc, i)
    } else {
        bf.mul10_wide_rounds(cell, n, tc, i)
    }
}

/// Two blocks in use that lie apart.
spec fn beside(b: Bf, p: int, q: int, n: int) -> bool {
    &&& word(n)
    &&& roomy(b)
    &&& held_n(b, p, n)
    &&& held_n(b, q, n)
    &&& apart(p, n, q, n)
}

proof fn lemma_tenth(o: Bf, bf: Bf, x0: Cells, x: Cells, cell: int, tc: int, n: int) -> (y: Cells)
    requires
        works(o, bf, x0, x),
        beside(bf, cell, tc, n),
    ensures
        works(o, tenth(bf, cell, tc, n), x0, y),
        grown(bf, tenth(bf, cell, tc, n)),
        val(y, cell, n) == (val(x, cell, n) + val(x, tc, n)) % size(n),
        forall|k: int| held(bf, k) && !(cell <= k < cell + n) ==> #[trigger] y[k] == x[k],
{
    broadcast use {works_talloc, works_talloc_n, works_tfree, works_copy, works_add_to, lemma_took};

    lemma_works_bytes(o, bf, x0, x);
    assert(held(bf, cell) && held(bf, tc));
    if n == 1 {
        assert(took(bf, bf.talloc().0, bf.talloc().1));
        let (b1, t2) = bf.talloc();
        assert(works(o, b1, x0, x));
        assert(held(b1, tc) && held(b1, t2) && held(b1, cell));
        let b2 = b1.copy(tc, t2);
        let x2 = choose|y: Cells| #[trigger]
            works(o, b2, x0, y) && agree(b1, x.insert(t2, x[tc]), y);
        let b3 = b2.add_to(t2, cell);
        let y = plus(x2, cell, x2[t2]).insert(t2, 0);
        assert(works(o, b3, x0, y));
        lemma_freed(b3, t2);
        let c = b3.tfree(t2);
        assert(works(o, c, x0, y));
        assert forall|k: int| #[trigger] held(bf, k) implies held(c, k) by {
            assert(held(b1, k) && k != t2);
            assert(held(b3, k));
        }
        assert forall|k: int| held(bf, k) && !(cell <= k < cell + n) implies #[trigger] y[k]
            == x[k] by {
            assert(held(b1, k) && k != t2);
            assert(x2[k] == x.insert(t2, x[tc])[k]);
        }
        y
    } else {
        lemma_took_n(bf, n);
        let (b1, t2) = bf.talloc_n(n);
        assert(works(o, b1, x0, x));
        assert forall|k: int| #[trigger] held(bf, k) implies held(b1, k) && !(t2 <= k < t2 + n) by {
        }
        lemma_beside(bf, b1, tc, n, t2, n);
        lemma_beside(bf, b1, cell, n, t2, n);
        assert(held_n(b1, tc, n)) by {
            assert forall|k: int| tc <= k < tc + n implies #[trigger] held(b1, k) by {
                assert(held(bf, k));
            }
        }
        let x2 = lemma_copy_n(o, b1, x0, x, tc, t2, n);
        let b2 = b1.copy_n(tc, t2, n);
        assert forall|k: int| cell <= k < cell + n implies #[trigger] held(b1, k) by {
            assert(held(bf, k));
        }
        lemma_copied_val(b1, x, x2, tc, t2, n);
        lemma_held_val(b1, x, x2, cell, n);
        assert(held_n(b2, cell, n)) by {
            assert forall|k: int| cell <= k < cell + n implies #[trigger] held(b2, k) by {
                assert(held(bf, k));
                assert(held(b1, k));
            }
        }
        assert(held_n(b2, t2, n)) by {
            assert forall|k: int| t2 <= k < t2 + n implies #[trigger] held(b2, k) by {
                assert(held(b1, k));
            }
        }
        let y = lemma_add_n(o, b2, x0, x2, cell, t2, n);
        let c = b2.add_n(cell, t2, n);
        assert forall|k: int| #[trigger] held(bf, k) implies held(c, k) by {
            assert(held(b1, k) && !blk(t2, n).contains(k));
            assert(held(b2, k));
        }
        assert forall|k: int| held(bf, k) && !(cell <= k < cell + n) implies #[trigger] y[k]
            == x[k] by {
            assert(held(b1, k) && !(t2 <= k < t2 + n));
            assert(x2[k] == x[k]);
            assert(held(b2, k));
        }
        y
    }
}

proof fn lemma_tenths(
    o: Bf,
    bf: Bf,
    x0: Cells,
    x: Cells,
    cell: int,
    tc: int,
    n: int,
    i: int,
) -> (y: Cells)
    requires
        works(o, bf, x0, x),
        beside(bf, cell, tc, n),
        0 <= i <= 10,
    ensures
        works(o, tenths(bf, cell, tc, n, i), x0, y),
        grown(bf, tenths(bf, cell, tc, n, i)),
        val(y, cell, n) == (val(x, cell, n) + (10 - i) * val(x, tc, n)) % size(n),
        forall|k: int| held(bf, k) && !(cell <= k < cell + n) ==> #[trigger] y[k] == x[k],
    decreases 10 - i,
{
    reveal(Bf::mul10_rounds);
    reveal(Bf::mul10_wide_rounds);
    lemma_works_bytes(o, bf, x0, x);
    let a = val(x, cell, n);
    let v = val(x, tc, n);
    if i == 10 {
        lemma_bytes_val(x, cell, n);
        vstd::arithmetic::div_mod::lemma_small_mod(a as nat, size(n) as nat);
        assert((10 - i) * v == 0) by (nonlinear_arith)
            requires
                i == 10,
        ;
        x
    } else {
        let x1 = lemma_tenth(o, bf, x0, x, cell, tc, n);
        let b1 = tenth(bf, cell, tc, n);
        assert(held_n(b1, cell, n)) by {
            assert forall|k: int| cell <= k < cell + n implies #[trigger] held(b1, k) by {
                assert(held(bf, k));
            }
        }
        assert(held_n(b1, tc, n)) by {
            assert forall|k: int| tc <= k < tc + n implies #[trigger] held(b1, k) by {
                assert(held(bf, k));
            }
        }
        lemma_held_val(bf, x, x1, tc, n);
        let y = lemma_tenths(o, b1, x0, x1, cell, tc, n, i + 1);
        assert(tenths(bf, cell, tc, n, i) == tenths(b1, cell, tc, n, i + 1));
        let r = (9 - i) * v;
        assert((10 - i) * v == v + r) by (nonlinear_arith)
            requires
                r == (9 - i) * v,
        ;
        assert((10 - (i + 1)) * v == r) by (nonlinear_arith)
            requires
                r == (9 - i) * v,
        ;
        vstd::arithmetic::div_mod::lemma_add_mod_noop_right(r, a + v, size(n));
        assert forall|k: int| #[trigger] held(bf, k) implies held(
            tenths(bf, cell, tc, n, i),
            k,
        ) by {
            assert(held(b1, k));
        }
        assert forall|k: int| held(bf, k) && !(cell <= k < cell + n) implies #[trigger] y[k]
            == x[k] by {
            assert(x1[k] == x[k]);
            assert(held(b1, k));
        }
        y
    }
}

/// `mul10_n` multiplies a number by 10, wrapping.
proof fn lemma_mul10(o: Bf, bf: Bf, x0: Cells, x: Cells, cell: int, n: int) -> (y: Cells)
    requires
        works(o, bf, x0, x),
        roomy(bf),
        word(n),
        held_n(bf, cell, n),
    ensures
        works(o, bf.mul10_n(cell, n), x0, y),
        grown(bf, bf.mul10_n(cell, n)),
        val(y, cell, n) == 10 * val(x, cell, n) % size(n),
        forall|k: int| held(bf, k) && !(cell <= k < cell + n) ==> #[trigger] y[k] == x[k],
{
    broadcast use {
        works_talloc,
        works_talloc_n,
        works_tfree,
        works_tfree_n,
        works_copy,
        works_clear,
        lemma_took,
    };

    reveal(Bf::mul10_n);
    reveal(Bf::mul10);
    reveal(Bf::mul10_wide);
    lemma_works_bytes(o, bf, x0, x);
    assert(held(bf, cell));
    if n == 1 {
        assert(took(bf, bf.talloc().0, bf.talloc().1));
        let (b1, tc) = bf.talloc();
        assert(works(o, b1, x0, x));
        assert(held(b1, tc) && held(b1, cell));
        let b2 = b1.copy(cell, tc);
        let x2 = choose|y: Cells| #[trigger]
            works(o, b2, x0, y) && agree(b1, x.insert(tc, x[cell]), y);
        let b3 = b2.clear(cell);
        let x3 = x2.insert(cell, 0);
        assert(works(o, b3, x0, x3));
        assert(held(b3, tc) && held(b3, cell));
        let y = lemma_tenths(o, b3, x0, x3, cell, tc, 1, 0);
        let b4 = b3.mul10_rounds(cell, tc, 0);
        assert(tenths(b3, cell, tc, 1, 0) == b4);
        lemma_freed(b4, tc);
        let c = b4.tfree(tc);
        assert(works(o, c, x0, y));
        assert forall|k: int| #[trigger] held(bf, k) implies held(c, k) by {
            assert(held(b1, k) && k != tc);
            assert(held(b3, k));
            assert(held(b4, k));
        }
        assert forall|k: int| held(bf, k) && !(cell <= k < cell + n) implies #[trigger] y[k]
            == x[k] by {
            assert(held(b1, k) && k != tc);
            assert(x2[k] == x.insert(tc, x[cell])[k]);
            assert(held(b3, k));
        }
        y
    } else {
        lemma_took_n(bf, n);
        let (b1, tc) = bf.talloc_n(n);
        assert(works(o, b1, x0, x));
        lemma_beside(bf, b1, cell, n, tc, n);
        assert(held_n(b1, cell, n)) by {
            assert forall|k: int| cell <= k < cell + n implies #[trigger] held(b1, k) by {
                assert(held(bf, k));
            }
        }
        let x2 = lemma_copy_n(o, b1, x0, x, cell, tc, n);
        let b2 = b1.copy_n(cell, tc, n);
        lemma_copied_val(b1, x, x2, cell, tc, n);
        let x3 = lemma_clear_range(o, b2, x0, x2, cell, 0, n);
        let b3 = b2.clear_range(cell, 0, n);
        lemma_same_val(x2, x3, tc, n);
        lemma_zero_val(x3, cell, n);
        assert(held_n(b3, cell, n)) by {
            assert forall|k: int| cell <= k < cell + n implies #[trigger] held(b3, k) by {
                assert(held(b1, k));
            }
        }
        assert(held_n(b3, tc, n)) by {
            assert forall|k: int| tc <= k < tc + n implies #[trigger] held(b3, k) by {
                assert(held(b1, k));
            }
        }
        let y = lemma_tenths(o, b3, x0, x3, cell, tc, n, 0);
        let b4 = b3.mul10_wide_rounds(cell, n, tc, 0);
        assert(tenths(b3, cell, tc, n, 0) == b4);
        lemma_freed_n(b4, tc, n);
        let c = b4.tfree_n(tc, n);
        assert(works(o, c, x0, y));
        assert forall|k: int| #[trigger] held(bf, k) implies held(c, k) by {
            assert(held(b1, k) && !(tc <= k < tc + n));
            assert(held(b3, k));
            assert(held(b4, k));
        }
        assert forall|k: int| held(bf, k) && !(cell <= k < cell + n) implies #[trigger] y[k]
            == x[k] by {
            assert(held(b1, k) && !(tc <= k < tc + n));
            assert(x2[k] == x[k]);
            assert(held(b3, k));
        }
        y
    }
}

/// A digit is added to a number.
spec fn digit_added(bf: Bf, target: int, n: int, ch: int) -> Bf {
    let (bf, dg) = bf.talloc();
    let bf = bf.copy(ch, dg).dec(dg, 48);
    if n == 1 {
        bf.add_to(dg, target).tfree(dg)
    } else {
        let (bf, wide) = bf.widen(dg, 1, n);
        bf.add_n(target, wide, n)
    }
}

proof fn lemma_digit_added(o: Bf, bf: Bf, x0: Cells, x: Cells, target: int, n: int, ch: int) -> (y:
    Cells)
    requires
        works(o, bf, x0, x),
        roomy(bf),
        word(n),
        held_n(bf, target, n),
        held(bf, ch),
        apart(target, n, ch, 1),
    ensures
        works(o, digit_added(bf, target, n, ch), x0, y),
        grown(bf, digit_added(bf, target, n, ch)),
        val(y, target, n) == (val(x, target, n) + (x[ch] - 48) % 256) % size(n),
        forall|k: int| held(bf, k) && !(target <= k < target + n) ==> #[trigger] y[k] == x[k],
{
    broadcast use {works_talloc, works_tfree, works_copy, works_dec, works_add_to, lemma_took};

    lemma_works_bytes(o, bf, x0, x);
    assert(held(bf, target));
    assert(took(bf, bf.talloc().0, bf.talloc().1));
    let (b1, dg) = bf.talloc();
    assert(works(o, b1, x0, x));
    assert(held(b1, ch) && held(b1, dg));
    let b2 = b1.copy(ch, dg);
    let x2 = choose|y: Cells| #[trigger] works(o, b2, x0, y) && agree(b1, x.insert(dg, x[ch]), y);
    let b3 = b2.dec(dg, 48);
    let x3 = plus(x2, dg, -48);
    assert(works(o, b3, x0, x3));
    assert(x3[dg] == (x[ch] - 48) % 256);
    assert forall|k: int| held(bf, k) implies #[trigger] x3[k] == x[k] && held(b3, k) && k
        != dg by {
        assert(held(b1, k));
        assert(x2[k] == x.insert(dg, x[ch])[k]);
    }
    assert(x3[target] == x[target]);
    assert(held(b3, dg));
    if n == 1 {
        let b4 = b3.add_to(dg, target);
        let y = plus(x3, target, x3[dg]).insert(dg, 0);
        assert(works(o, b4, x0, y));
        lemma_freed(b4, dg);
        let c = b4.tfree(dg);
        assert(works(o, c, x0, y));
        assert forall|k: int| #[trigger] held(bf, k) implies held(c, k) by {
            assert(x3[k] == x[k]);
            assert(held(b4, k));
        }
        assert forall|k: int| held(bf, k) && !(target <= k < target + n) implies #[trigger] y[k]
            == x[k] by {
            assert(x3[k] == x[k]);
        }
        y
    } else {
        reveal(Bf::widened);
        let x4 = lemma_widened(o, b3, x0, x3, dg, 1, n);
        let (b4, wide) = b3.widen(dg, 1, n);
        assert(b3.widened(dg, 1, n) == (b4, wide));
        assert forall|k: int| held(bf, k) implies #[trigger] x4[k] == x[k] && held(b4, k) && !(wide
            <= k < wide + n) by {
            assert(x3[k] == x[k]);
            assert(held(b3, k) && !blk(dg, 1).contains(k));
        }
        lemma_held_val(bf, x, x4, target, n);
        assert(held_n(b4, target, n)) by {
            assert forall|k: int| target <= k < target + n implies #[trigger] held(b4, k) by {
                assert(held(bf, k));
                assert(x4[k] == x[k]);
            }
        }
        assert(apart(target, n, wide, n)) by {
            if !apart(target, n, wide, n) {
                let k = if target >= wide {
                    target
                } else {
                    wide
                };
                assert(held(bf, k));
                assert(x4[k] == x[k]);
            }
        }
        let y = lemma_add_n(o, b4, x0, x4, target, wide, n);
        let c = b4.add_n(target, wide, n);
        assert forall|k: int| #[trigger] held(bf, k) implies held(c, k) by {
            assert(x4[k] == x[k]);
            assert(held(b4, k) && !blk(wide, n).contains(k));
        }
        assert forall|k: int| held(bf, k) && !(target <= k < target + n) implies #[trigger] y[k]
            == x[k] by {
            assert(x4[k] == x[k]);
            assert(held(b4, k) && !(wide <= k < wide + n));
        }
        y
    }
}

/// `next_char` reads a character.
proof fn lemma_next_char(bf: Bf, ch: int, lf: int, s: St, source: Source) -> (t: St)
    requires
        roomy(bf),
        held(bf, ch),
        held(bf, lf),
        ch != lf,
        s.ptr == bf.ptr,
        bytes(s.cells),
        gives_bytes(source),
    ensures
        goes(bf, bf.next_char(ch, lf), s, t, source),
        grown(bf, bf.next_char(ch, lf)),
        t.reads == s.reads + 1,
        written_bytes(t.trace) == written_bytes(s.trace),
        t.cells[ch] == source(s.reads),
        t.cells[lf] == bit(goes_on(source(s.reads))),
        forall|k: int| held(bf, k) && k != ch && k != lf ==> #[trigger] t.cells[k] == s.cells[k],
{
    broadcast use {works_clear, works_bfmove, works_tfree};

    reveal(Bf::next_char);
    lemma_works_start(bf, s.cells);
    let b1 = bf.clear(ch);
    let x1 = s.cells.insert(ch, 0);
    assert(works(bf, b1, s.cells, x1));
    lemma_goes_works(bf, b1, s, x1, source);
    let s1 = with(s, x1, b1.ptr);
    let s2 = lemma_get(bf, b1, ch, s, s1, source);
    let b2 = b1.inp(ch);
    lemma_goes_ends(bf, b2, s, s2, source);
    lemma_works_start(b2, s2.cells);
    let b3 = b2.clear(lf);
    let x3 = s2.cells.insert(lf, 0);
    assert(works(b2, b3, s2.cells, x3));
    assert(settled(bf, b3));
    assert(held(b3, ch) && held(b3, lf));
    let x4 = lemma_is_digit(b2, b3, s2.cells, x3, ch);
    let (b4, lf2) = b3.is_digit(ch);
    assert(lf2 != lf && lf2 != ch);
    let b5 = b4.bfmove(lf2, lf);
    let y = x4.insert(lf, x4[lf2]).insert(lf2, 0);
    assert(works(b2, b5, s2.cells, y));
    lemma_freed(b5, lf2);
    let c = b5.tfree(lf2);
    assert(works(b2, c, s2.cells, y));
    lemma_goes_works(b2, c, s2, y, source);
    let t = with(s2, y, c.ptr);
    lemma_goes_then(bf, b2, c, s, s2, t, source);
    assert(x4[ch] == x3[ch]);
    assert forall|k: int| #[trigger] held(bf, k) implies held(c, k) by {
        assert(held(b3, k) && k != lf2);
        assert(held(b4, k));
        assert(held(b5, k));
    }
    assert forall|k: int| held(bf, k) && k != ch && k != lf implies #[trigger] t.cells[k]
        == s.cells[k] by {
        assert(held(b3, k) && k != lf2);
        assert(x4[k] == x3[k]);
    }
    t
}

/// One round of reading a number.
spec fn scan_round(a: Bf, target: int, n: int, ch: int, lf: int) -> Bf {
    digit_added(a.mul10_n(target, n), target, n, ch).next_char(ch, lf).goto(lf)
}

/// The cells that a number is read with.
spec fn reading(b: Bf, target: int, n: int, ch: int, lf: int) -> bool {
    &&& word(n)
    &&& roomy(b)
    &&& held_n(b, target, n)
    &&& lent(b, ch)
    &&& lent(b, lf)
    &&& ch != lf
    &&& apart(target, n, ch, 1)
    &&& apart(target, n, lf, 1)
}

proof fn lemma_reading_grown(b: Bf, c: Bf, target: int, n: int, ch: int, lf: int)
    requires
        grown(b, c),
        reading(b, target, n, ch, lf),
    ensures
        reading(c, target, n, ch, lf),
{
    assert forall|k: int| target <= k < target + n implies #[trigger] held(c, k) by {
        assert(held(b, k));
    }
    assert(held(b, ch) && held(b, lf));
}

proof fn lemma_scan_round(
    a: Bf,
    target: int,
    n: int,
    ch: int,
    lf: int,
    s: St,
    source: Source,
) -> (t: St)
    requires
        reading(a, target, n, ch, lf),
        s.ptr == a.ptr,
        bytes(s.cells),
        gives_bytes(source),
    ensures
        goes(a, scan_round(a, target, n, ch, lf), s, t, source),
        grown(a, scan_round(a, target, n, ch, lf)),
        t.ptr == lf,
        t.reads == s.reads + 1,
        written_bytes(t.trace) == written_bytes(s.trace),
        t.cells[ch] == source(s.reads),
        t.cells[lf] == bit(goes_on(source(s.reads))),
        val(t.cells, target, n) == (10 * val(s.cells, target, n) + (s.cells[ch] - 48) % 256)
            % size(n),
        forall|k: int|
            held(a, k) && k != ch && k != lf && !(target <= k < target + n)
                ==> #[trigger] t.cells[k] == s.cells[k],
{
    lemma_works_start(a, s.cells);
    assert(held(a, ch) && held(a, lf));
    let x1 = lemma_mul10(a, a, s.cells, s.cells, target, n);
    let b1 = a.mul10_n(target, n);
    lemma_reading_grown(a, b1, target, n, ch, lf);
    let y = lemma_digit_added(a, b1, s.cells, x1, target, n, ch);
    let b2 = digit_added(b1, target, n, ch);
    lemma_reading_grown(b1, b2, target, n, ch, lf);
    lemma_goes_works(a, b2, s, y, source);
    let m = with(s, y, b2.ptr);
    lemma_goes_ends(a, b2, s, m, source);
    let u = lemma_next_char(b2, ch, lf, m, source);
    let b3 = b2.next_char(ch, lf);
    lemma_goes_then(a, b2, b3, s, m, u, source);
    lemma_goes_goto(a, b3, s, u, source, lf);
    let t = with(u, u.cells, lf);
    let v = val(s.cells, target, n);
    let d = (s.cells[ch] - 48) % 256;
    assert(x1[ch] == s.cells[ch]);
    vstd::arithmetic::div_mod::lemma_add_mod_noop_right(d, 10 * v, size(n));
    assert(same_in(y, t.cells, target, n)) by {
        assert forall|k: int| target <= k < target + n implies #[trigger] t.cells[k] == y[k] by {
            assert(held(b2, k));
        }
    }
    lemma_same_val(y, t.cells, target, n);
    let c = scan_round(a, target, n, ch, lf);
    assert forall|k: int| #[trigger] held(a, k) implies held(c, k) by {
        assert(held(b1, k));
        assert(held(b2, k));
        assert(held(b3, k));
    }
    assert forall|k: int|
        held(a, k) && k != ch && k != lf && !(target <= k < target + n) implies #[trigger] t.cells[k]
        == s.cells[k] by {
        assert(x1[k] == s.cells[k]);
        assert(held(b1, k));
        assert(y[k] == x1[k]);
        assert(held(b2, k));
    }
    t
}

/// The cells in use behind a round.
proof fn lemma_scan_shape(a: Bf, target: int, n: int, ch: int, lf: int)
    requires
        reading(a, target, n, ch, lf),
    ensures
        grown(a, scan_round(a.raw("["@), target, n, ch, lf).raw("]"@)),
{
    let a1 = a.raw("["@);
    assert(grown(a, a1));
    lemma_reading_grown(a, a1, target, n, ch, lf);
    let s = St { cells: ones(), ptr: a1.ptr, trace: Seq::empty(), reads: 0 };
    let source: Source = |i: nat| 0;
    let _ = lemma_scan_round(a1, target, n, ch, lf, s, source);
    let z = scan_round(a1, target, n, ch, lf);
    assert forall|k: int| #[trigger] held(a, k) implies held(z.raw("]"@), k) by {
        assert(held(a1, k));
        assert(held(z, k));
    }
}

/// The rounds of reading a number.
proof fn lemma_scan_rounds(
    a: Bf,
    target: int,
    n: int,
    ch: int,
    lf: int,
    s: St,
    source: Source,
    fuel: nat,
) -> (t: St)
    requires
        reading(a, target, n, ch, lf),
        a.ptr == lf,
        s.ptr == lf,
        bytes(s.cells),
        gives_bytes(source),
        s.reads > 0,
        s.cells[ch] == source((s.reads - 1) as nat),
        s.cells[lf] == bit(goes_on(s.cells[ch])),
        scanned(source, (s.reads - 1) as nat, val(s.cells, target, n), size(n), fuel) is Some,
    ensures
        goes(a, scan_round(a.raw("["@), target, n, ch, lf).raw("]"@), s, t, source),
        written_bytes(t.trace) == written_bytes(s.trace),
        ({
            let (v, r) = scanned(
                source,
                (s.reads - 1) as nat,
                val(s.cells, target, n),
                size(n),
                fuel,
            )->Some_0;
            &&& val(t.cells, target, n) == v
            &&& t.reads == r
        }),
        forall|k: int|
            held(a, k) && k != ch && k != lf && !(target <= k < target + n)
                ==> #[trigger] t.cells[k] == s.cells[k],
    decreases fuel,
{
    broadcast use {
        sound_mul10_n,
        sound_talloc,
        sound_copy,
        sound_dec,
        sound_add_to,
        sound_tfree,
        sound_widen,
        sound_add_n,
        sound_next_char,
        sound_goto,
    };

    let a1 = a.raw("["@);
    let z = scan_round(a1, target, n, ch, lf);
    assert(sound(a1.out, a1.out, 0)) by {
        reveal(sound);
    }
    assert(sound(a1.out, z.out, 0));
    if goes_on(s.cells[ch]) {
        assert(grown(a, a1));
        lemma_reading_grown(a, a1, target, n, ch, lf);
        let m = lemma_scan_round(a1, target, n, ch, lf, s, source);
        lemma_goes_ends(a1, z, s, m, source);
        let t = lemma_scan_rounds(a, target, n, ch, lf, m, source, (fuel - 1) as nat);
        lemma_goes_loop(a, z, s, m, t, source);
        assert forall|k: int|
            held(a, k) && k != ch && k != lf && !(target <= k < target
                + n) implies #[trigger] t.cells[k] == s.cells[k] by {
            assert(held(a1, k));
            assert(m.cells[k] == s.cells[k]);
        }
        t
    } else {
        lemma_goes_loop(a, z, s, s, s, source);
        s
    }
}

/// `scan_num_n` reads a number.
pub proof fn lemma_scan_num(
    bf: Bf,
    target: int,
    n: int,
    s: St,
    source: Source,
    fuel: nat,
) -> (t: St)
    requires
        roomy(bf),
        word(n),
        held_n(bf, target, n),
        s.ptr == bf.ptr,
        bytes(s.cells),
        gives_bytes(source),
        scanned(source, s.reads, 0, size(n), fuel) is Some,
    ensures
        goes(bf, bf.scan_num_n(target, n), s, t, source),
        grown(bf, bf.scan_num_n(target, n)),
        written_bytes(t.trace) == written_bytes(s.trace),
        val(t.cells, target, n) == scanned(source, s.reads, 0, size(n), fuel)->Some_0.0,
        t.reads == scanned(source, s.reads, 0, size(n), fuel)->Some_0.1,
        forall|k: int|
            held(bf, k) && !(target <= k < target + n) ==> #[trigger] t.cells[k] == s.cells[k],
{
    broadcast use {works_talloc, works_clear, works_goto, lemma_took};

    reveal(Bf::scan_num_n);
    reveal(Bf::scan_num);
    reveal(Bf::scan_wide);
    reveal(Bf::mul10_n);
    lemma_works_start(bf, s.cells);
    assert(held(bf, target));
    let x1 = if n == 1 {
        s.cells.insert(target, 0)
    } else {
        lemma_clear_range(bf, bf, s.cells, s.cells, target, 0, n)
    };
    let b1 = if n == 1 {
        bf.clear(target)
    } else {
        bf.clear_range(target, 0, n)
    };
    assert(works(bf, b1, s.cells, x1));
    assert(settled(bf, b1));
    assert(took(b1, b1.talloc().0, b1.talloc().1));
    let (b2, ch) = b1.talloc();
    let b3 = b2.clear(ch);
    let x3 = x1.insert(ch, 0);
    assert(works(bf, b3, s.cells, x3));
    lemma_goes_works(bf, b3, s, x3, source);
    let s1 = with(s, x3, b3.ptr);
    let s2 = lemma_get(bf, b3, ch, s, s1, source);
    let b4 = b3.inp(ch);
    lemma_goes_ends(bf, b4, s, s2, source);
    lemma_works_start(b4, s2.cells);
    assert(settled(b2, b4));
    assert(held(b2, ch));
    assert(held(b4, ch));
    let x5 = lemma_is_digit(b4, b4, s2.cells, s2.cells, ch);
    let (b5, lf) = b4.is_digit(ch);
    let a = b5.goto(lf);
    assert(works(b4, a, s2.cells, x5));
    lemma_goes_works(b4, a, s2, x5, source);
    let s3 = with(s2, x5, lf);
    lemma_goes_then(bf, b4, a, s, s2, s3, source);
    lemma_goes_ends(bf, a, s, s3, source);
    assert forall|k: int| #[trigger] held(bf, k) implies held(a, k) && k != ch && k != lf by {
        assert(held(b1, k));
        assert(held(b2, k) && k != ch);
        assert(held(b4, k));
        assert(held(b5, k) && k != lf);
    }
    assert(held_n(a, target, n)) by {
        assert forall|k: int| target <= k < target + n implies #[trigger] held(a, k) by {
            assert(held(bf, k));
        }
    }
    assert(held(b5, ch) && held(b5, lf));
    assert(apart(target, n, ch, 1) && apart(target, n, lf, 1)) by {
        assert(target <= ch < target + n ==> held(bf, ch));
        assert(target <= lf < target + n ==> held(bf, lf));
    }
    assert(x5[ch] == s2.cells[ch]);
    assert forall|k: int| target <= k < target + n implies #[trigger] x5[k] == 0 by {
        assert(held(bf, k));
        assert(held(b1, k));
        assert(held(b2, k) && k != ch);
        assert(held(b4, k));
        assert(x5[k] == s2.cells[k]);
    }
    lemma_zero_val(x5, target, n);
    let t = lemma_scan_rounds(a, target, n, ch, lf, s3, source, fuel);
    let z = scan_round(a.raw("["@), target, n, ch, lf);
    let e = z.raw("]"@);
    lemma_goes_then(bf, a, e, s, s3, t, source);
    lemma_scan_shape(a, target, n, ch, lf);
    lemma_freed(e, lf);
    lemma_freed(e.tfree(lf), ch);
    let c = e.tfree(lf).tfree(ch);
    lemma_goes_quiet(bf, e, c, s, t, source);
    assert(c == bf.scan_num_n(target, n));
    assert forall|k: int| #[trigger] held(bf, k) implies held(c, k) by {
        assert(held(a, k) && k != ch && k != lf);
        assert(held(e, k));
        assert(held(e.tfree(lf), k));
    }
    assert forall|k: int|
        held(bf, k) && !(target <= k < target + n) implies #[trigger] t.cells[k] == s.cells[k] by {
        assert(held(a, k) && k != ch && k != lf);
        assert(held(b1, k));
        assert(x1[k] == s.cells[k]);
        assert(held(b2, k));
        assert(held(b4, k));
        assert(x5[k] == s2.cells[k]);
    }
    t
}

} // verus!
