//! What products, quotients and remainders of one and two cells do.

use vstd::prelude::*;

use crate::bfsc::effect::arith::{
    blk, grown_but, leaves, lemma_add_n, lemma_bytes_val, lemma_copied_val, lemma_held_val,
    lemma_same_val, lemma_sub_n, lemma_zero_val, operands, size, val, word,
};
use crate::bfsc::effect::blocks::{
    apart, held_n, lemma_clear_range, lemma_copy_n, lemma_freed_n, lemma_set_const_n, lemma_took_n,
    lent_n, took_n,
};
use crate::bfsc::effect::cells::{
    agree, bit, held, roomy, settled, took, works_add_to, works_bfmove, works_copy,
};
use crate::bfsc::effect::compare::{grown, lemma_freed, lemma_took, lent};
use crate::bfsc::effect::steps::{
    bytes, lemma_works_bytes, lemma_works_loop, lemma_works_start, lemma_works_then, plus, works,
    works_clear, works_dec, works_goto, works_talloc, works_talloc_n, works_tfree, works_tfree_n,
    Cells,
};
use crate::bfsc::effect::truth::lemma_is_nz_n;
use crate::bfsc::emitter::Bf;
use crate::bfsc::sound::arith::{
    sound_add_n, sound_add_to, sound_bfmove, sound_copy, sound_copy_n, sound_dec_n,
    sound_is_nz_n,
};
use crate::bfsc::sound::steps::{
    sound, sound_clear, sound_dec, sound_goto, sound_talloc_n, sound_tfree,
};

verus! {

/// The cells in use but a block hold the same.
pub open spec fn same_but(b: Bf, x: Cells, y: Cells, base: int, n: int) -> bool {
    forall|k: int| held(b, k) && !(base <= k < base + n) ==> #[trigger] y[k] == x[k]
}

/// `inc_n` adds 1 to a number, wrapping.
pub proof fn lemma_inc_n(o: Bf, bf: Bf, x0: Cells, x: Cells, t: int, n: int) -> (y: Cells)
    requires
        works(o, bf, x0, x),
        word(n),
        roomy(bf),
        lent_n(bf, t, n),
    ensures
        works(o, bf.inc_n(t, n), x0, y),
        grown(bf, bf.inc_n(t, n)),
        val(y, t, n) == (val(x, t, n) + 1) % size(n),
        same_but(bf, x, y, t, n),
{
    broadcast use works_talloc_n;

    reveal(Bf::inc_n);
    lemma_took_n(bf, n);
    let (b1, one) = bf.talloc_n(n);
    let x1 = lemma_set_const_n(o, b1, x0, x, one, 1, n);
    let b2 = b1.set_const_n(one, 1, n);
    lemma_one(bf, b1, b2, x, x1, t, one, n);
    let y = lemma_add_n(o, b2, x0, x1, t, one, n);
    let c = b2.add_n(t, one, n);
    lemma_one_back(bf, b1, b2, c, t, one, n);
    assert forall|k: int| held(bf, k) && !(t <= k < t + n) implies #[trigger] y[k] == x[k] by {
        assert(held(b1, k) && !(one <= k < one + n));
        assert(held(b2, k));
        assert(x1[k] == x[k]);
    }
    y
}

/// `dec_n` subtracts 1 from a number, wrapping.
pub proof fn lemma_dec_n(o: Bf, bf: Bf, x0: Cells, x: Cells, t: int, n: int) -> (y: Cells)
    requires
        works(o, bf, x0, x),
        word(n),
        roomy(bf),
        lent_n(bf, t, n),
    ensures
        works(o, bf.dec_n(t, n), x0, y),
        grown(bf, bf.dec_n(t, n)),
        val(y, t, n) == (val(x, t, n) - 1) % size(n),
        same_but(bf, x, y, t, n),
{
    broadcast use works_talloc_n;

    reveal(Bf::dec_n);
    lemma_took_n(bf, n);
    let (b1, one) = bf.talloc_n(n);
    let x1 = lemma_set_const_n(o, b1, x0, x, one, 1, n);
    let b2 = b1.set_const_n(one, 1, n);
    lemma_one(bf, b1, b2, x, x1, t, one, n);
    let y = lemma_sub_n(o, b2, x0, x1, t, one, n);
    let c = b2.sub_n(t, one, n);
    lemma_one_back(bf, b1, b2, c, t, one, n);
    assert forall|k: int| held(bf, k) && !(t <= k < t + n) implies #[trigger] y[k] == x[k] by {
        assert(held(b1, k) && !(one <= k < one + n));
        assert(held(b2, k));
        assert(x1[k] == x[k]);
    }
    y
}

/// A new block that holds 1 beside a block in use.
proof fn lemma_one(bf: Bf, b1: Bf, b2: Bf, x: Cells, x1: Cells, t: int, one: int, n: int)
    requires
        word(n),
        took_n(bf, b1, one, n),
        settled(b1, b2),
        lent_n(bf, t, n),
        crate::bfsc::effect::blocks::holds_bytes(x, x1, one, 1, n, 0),
    ensures
        operands(b2, t, one, n),
        val(x1, one, n) == 1,
        val(x1, t, n) == val(x, t, n),
{
    lemma_beside(bf, b1, t, n, one, n);
    assert forall|k: int| t <= k < t + n implies #[trigger] held(b2, k) by {
        assert(held(bf, k));
        assert(held(b1, k));
    }
    assert forall|k: int| one <= k < one + n implies #[trigger] held(b2, k) by {
        assert(held(b1, k));
    }
    assert(crate::bfsc::emitter::nth_byte_of(1, 0) == 1);
    assert(crate::bfsc::emitter::nth_byte_of(1, 1) == 0);
    assert(crate::bfsc::emitter::nth_byte_of(1, 2) == 0);
    assert(crate::bfsc::emitter::nth_byte_of(1, 3) == 0);
    assert(x1[one] == 1);
    if n >= 2 {
        assert(x1[one + 1] == 0);
    }
    if n == 4 {
        assert(x1[one + 2] == 0 && x1[one + 3] == 0);
    }
    lemma_same_val(x, x1, t, n);
}

/// The new block is given back.
proof fn lemma_one_back(bf: Bf, b1: Bf, b2: Bf, c: Bf, t: int, one: int, n: int)
    requires
        took_n(bf, b1, one, n),
        settled(b1, b2),
        grown_but(b2, c, blk(one, n)),
    ensures
        grown(bf, c),
{
    assert forall|k: int| #[trigger] held(bf, k) implies held(c, k) by {
        assert(held(b1, k) && !(one <= k < one + n));
        assert(held(b2, k));
        assert(!blk(one, n).contains(k));
    }
}

/// A new block lies beside a block in use.
pub proof fn lemma_beside(b: Bf, c: Bf, p: int, m: int, q: int, n: int)
    requires
        took_n(b, c, q, n),
        held_n(b, p, m),
        m > 0,
        n > 0,
    ensures
        apart(p, m, q, n),
{
    if !apart(p, m, q, n) {
        let k = if p >= q {
            p
        } else {
            q
        };
        assert(held(b, k));
    }
}

/// A product, one summand more.
proof fn lemma_product_step(r: int, a: int, b: int, m: int)
    requires
        m > 0,
        a > 0,
    ensures
        ((r + b) % m + (a - 1) * b) % m == (r + a * b) % m,
{
    assert((a - 1) * b == a * b - b) by (nonlinear_arith);
    vstd::arithmetic::div_mod::lemma_add_mod_noop_right((a - 1) * b, r + b, m);
    assert((a - 1) * b + (r + b) == r + a * b);
}

/// The rounds of a product of cells.
proof fn lemma_mul_loop(h: Bf, x: Cells, a: int, b: int, r: int, tc: int) -> (y: Cells)
    requires
        bytes(x),
        roomy(h),
        h.ptr == a,
        held(h, a),
        held(h, b),
        held(h, r),
        held(h, tc),
        a != b,
        a != r,
        b != r,
        tc != a,
        tc != b,
        tc != r,
    ensures
        ({
            let z = h.raw("["@).dec(a, 1).copy(b, tc).add_to(tc, r).goto(a);
            works(h, z.raw("]"@), x, y) && settled(h, z)
        }),
        y[r] == (x[r] + x[a] * x[b]) % 256,
        forall|k: int| held(h, k) && k != a && k != r && k != tc ==> #[trigger] y[k] == x[k],
    decreases x[a],
{
    broadcast use {
        works_dec,
        works_copy,
        works_add_to,
        works_goto,
        sound_dec,
        sound_copy,
        sound_add_to,
        sound_goto,
    };

    let h1 = h.raw("["@);
    assert(sound(h1.out, h1.out, 0)) by {
        reveal(sound);
    }
    assert(x.dom().contains(a) && x.dom().contains(b) && x.dom().contains(r));
    let c1 = h1.dec(a, 1);
    let x1 = plus(x, a, -1);
    lemma_works_start(h1, x);
    assert(works(h1, c1, x, x1));
    assert(held(c1, b) && held(c1, tc));
    let c2 = c1.copy(b, tc);
    let x2 = choose|y: Cells| #[trigger]
        works(h1, c2, x, y) && agree(c1, x1.insert(tc, x1[b]), y);
    let c3 = c2.add_to(tc, r);
    let x3 = plus(x2, r, x2[tc]).insert(tc, 0);
    assert(works(h1, c3, x, x3));
    let z = c3.goto(a);
    assert(works(h1, z, x, x3));
    assert(held(c1, a) && held(c1, r));
    assert(x2[a] == x1[a] && x2[tc] == x[b] && x2[r] == x[r] && x2[b] == x[b]);
    if x[a] == 0 {
        assert(x[a] * x[b] == 0) by (nonlinear_arith)
            requires
                x[a] == 0,
        ;
        lemma_works_loop(h, z, x, x3, x);
        x
    } else {
        lemma_works_bytes(h1, z, x, x3);
        let y = lemma_mul_loop(h, x3, a, b, r, tc);
        lemma_works_loop(h, z, x, x3, y);
        lemma_product_step(x[r], x[a], x[b], 256);
        assert(x3[a] == x[a] - 1 && x3[r] == (x[r] + x[b]) % 256);
        assert forall|k: int|
            held(h, k) && k != a && k != r && k != tc implies #[trigger] y[k] == x[k] by {
            assert(held(c1, k));
            assert(x2[k] == x1.insert(tc, x1[b])[k]);
        }
        y
    }
}

/// `arith_mul` gives a new cell with the product of two cells.
proof fn lemma_arith_mul(o: Bf, bf: Bf, x0: Cells, x: Cells, a: int, b: int) -> (y: Cells)
    requires
        works(o, bf, x0, x),
        operands(bf, a, b, 1),
    ensures
        works(o, bf.arith_mul(a, b).0, x0, y),
        leaves(
            bf,
            bf.arith_mul(a, b).0,
            x,
            y,
            bf.arith_mul(a, b).1,
            1,
            (x[a] * x[b]) % 256,
            blk(a, 1).union(blk(b, 1)),
        ),
{
    broadcast use {works_clear, works_goto, works_talloc, works_tfree, lemma_took};

    reveal(Bf::arith_mul);
    lemma_works_bytes(o, bf, x0, x);
    assert(held(bf, a) && held(bf, b));
    assert(took(bf, bf.talloc().0, bf.talloc().1));
    let (b1, r) = bf.talloc();
    let b2 = b1.clear(r);
    let x2 = x.insert(r, 0);
    assert(works(o, b2, x0, x2));
    assert(took(b2, b2.talloc().0, b2.talloc().1));
    let (b3, tc) = b2.talloc();
    assert(held(b2, a) && held(b2, b) && held(b2, r));
    assert(held(b3, a) && held(b3, b) && held(b3, r) && held(b3, tc));
    let h = b3.goto(a);
    assert(works(o, h, x0, x2));
    lemma_works_bytes(o, h, x0, x2);
    let y = lemma_mul_loop(h, x2, a, b, r, tc);
    let z = h.raw("["@).dec(a, 1).copy(b, tc).add_to(tc, r).goto(a);
    let e = z.raw("]"@);
    lemma_works_then(o, h, e, x0, x2, y);
    lemma_freed(e, tc);
    let f = e.tfree(tc);
    assert(works(o, f, x0, y));
    lemma_freed(f, a);
    let g = f.tfree(a);
    assert(works(o, g, x0, y));
    lemma_freed(g, b);
    let c = g.tfree(b);
    assert(works(o, c, x0, y));
    assert(c == bf.arith_mul(a, b).0);
    let d = blk(a, 1).union(blk(b, 1));
    assert forall|k: int| #[trigger] held(bf, k) && !d.contains(k) implies held(c, k) && !(r <= k
        < r + 1) by {
        assert(!blk(a, 1).contains(k) && !blk(b, 1).contains(k));
        assert(held(b2, k) && k != r);
        assert(held(b3, k) && k != tc);
        assert(held(e, k));
        assert(held(f, k));
        assert(held(g, k));
    }
    assert forall|k: int| held(bf, k) && !d.contains(k) implies #[trigger] y[k] == x[k] by {
        assert(!blk(a, 1).contains(k) && !blk(b, 1).contains(k));
        assert(held(b2, k) && k != r);
        assert(held(b3, k) && k != tc);
        assert(held(h, k));
    }
    assert(held(e, r) && held(f, r) && held(g, r) && held(c, r));
    y
}

/// The cells that a product of blocks works on.
spec fn factors(h: Bf, a: int, b: int, r: int, flag: int, n: int) -> bool {
    &&& word(n)
    &&& n > 1
    &&& roomy(h)
    &&& lent_n(h, a, n)
    &&& lent_n(h, b, n)
    &&& lent_n(h, r, n)
    &&& lent(h, flag)
    &&& apart(a, n, b, n)
    &&& apart(a, n, r, n)
    &&& apart(b, n, r, n)
    &&& apart(a, n, flag, 1)
    &&& apart(b, n, flag, 1)
    &&& apart(r, n, flag, 1)
}

/// The cells in use but the product's hold the same.
spec fn beside_product(h: Bf, x: Cells, y: Cells, a: int, r: int, flag: int, n: int) -> bool {
    forall|k: int|
        held(h, k) && !(a <= k < a + n) && !(r <= k < r + n) && k != flag ==> #[trigger] y[k]
            == x[k]
}

/// Cells in use stay so.
proof fn lemma_factors_grown(b: Bf, c: Bf, p: int, q: int, r: int, flag: int, n: int)
    requires
        grown(b, c),
        factors(b, p, q, r, flag, n),
    ensures
        factors(c, p, q, r, flag, n),
{
    assert forall|k: int| p <= k < p + n implies #[trigger] held(c, k) by {
        assert(held(b, k));
    }
    assert forall|k: int| q <= k < q + n implies #[trigger] held(c, k) by {
        assert(held(b, k));
    }
    assert forall|k: int| r <= k < r + n implies #[trigger] held(c, k) by {
        assert(held(b, k));
    }
    assert(held(b, flag));
}

/// One round of a product of blocks.
proof fn lemma_mul_body(h1: Bf, x: Cells, a: int, b: int, r: int, flag: int, n: int) -> (y: Cells)
    requires
        bytes(x),
        factors(h1, a, b, r, flag, n),
        val(x, a, n) > 0,
    ensures
        ({
            let c2 = h1.clear(flag).dec_n(a, n);
            let (c3, bc) = c2.talloc_n(n);
            let c5 = c3.copy_n(b, bc, n).add_n(r, bc, n);
            let (c6, flag2) = c5.is_nz_n(a, n);
            let z = c6.bfmove(flag2, flag).tfree(flag2).goto(flag);
            &&& works(h1, z, x, y)
            &&& grown(h1, z)
        }),
        val(y, a, n) == val(x, a, n) - 1,
        val(y, b, n) == val(x, b, n),
        val(y, r, n) == (val(x, r, n) + val(x, b, n)) % size(n),
        y[flag] == bit(val(y, a, n) != 0),
        beside_product(h1, x, y, a, r, flag, n),
{
    broadcast use {works_clear, works_goto, works_talloc_n, works_tfree, works_bfmove};

    lemma_works_start(h1, x);
    assert(held(h1, flag));
    lemma_bytes_val(x, a, n);
    let c1 = h1.clear(flag);
    let x1 = x.insert(flag, 0);
    assert(works(h1, c1, x, x1));
    assert(grown(h1, c1));
    lemma_factors_grown(h1, c1, a, b, r, flag, n);
    let x2 = lemma_dec_n(h1, c1, x, x1, a, n);
    let c2 = c1.dec_n(a, n);
    lemma_factors_grown(c1, c2, a, b, r, flag, n);
    lemma_held_val(c1, x, x1, a, n);
    assert(val(x2, a, n) == val(x, a, n) - 1);
    lemma_held_val(c1, x, x2, b, n);
    lemma_held_val(c1, x, x2, r, n);
    lemma_took_n(c2, n);
    let (c3, bc) = c2.talloc_n(n);
    assert(works(h1, c3, x, x2));
    lemma_beside(c2, c3, a, n, bc, n);
    lemma_beside(c2, c3, b, n, bc, n);
    lemma_beside(c2, c3, r, n, bc, n);
    assert(grown(c2, c3));
    lemma_factors_grown(c2, c3, a, b, r, flag, n);
    assert forall|k: int| bc <= k < bc + n implies #[trigger] held(c3, k) by {}
    let x4 = lemma_copy_n(h1, c3, x, x2, b, bc, n);
    let c4 = c3.copy_n(b, bc, n);
    assert(grown(c3, c4));
    lemma_factors_grown(c3, c4, a, b, r, flag, n);
    assert forall|k: int| bc <= k < bc + n implies #[trigger] held(c4, k) by {
        assert(held(c3, k));
    }
    lemma_copied_val(c3, x2, x4, b, bc, n);
    lemma_held_val(c3, x2, x4, r, n);
    lemma_held_val(c3, x2, x4, a, n);
    lemma_held_val(c3, x2, x4, b, n);
    let x5 = lemma_add_n(h1, c4, x, x4, r, bc, n);
    let c5 = c4.add_n(r, bc, n);
    lemma_held_val(c4, x4, x5, a, n);
    lemma_held_val(c4, x4, x5, b, n);
    assert forall|k: int| #[trigger] held(c2, k) implies held(c5, k) by {
        assert(held(c3, k) && !(bc <= k < bc + n));
        assert(held(c4, k));
        assert(!blk(bc, n).contains(k));
    }
    assert(grown(c2, c5));
    lemma_factors_grown(c2, c5, a, b, r, flag, n);
    let x6 = lemma_is_nz_n(h1, c5, x, x5, a, n);
    let (c6, flag2) = c5.is_nz_n(a, n);
    assert forall|k: int| #[trigger] held(c5, k) implies held(c6, k) && k != flag2 by {
        assert(!Set::<int>::empty().contains(k));
    }
    assert forall|k: int| held(c5, k) implies #[trigger] x6[k] == x5[k] by {
        assert(!Set::<int>::empty().contains(k));
    }
    assert(grown(c5, c6));
    assert(held(c5, flag));
    let c7 = c6.bfmove(flag2, flag);
    let y = x6.insert(flag, x6[flag2]).insert(flag2, 0);
    assert(works(h1, c7, x, y));
    lemma_freed(c7, flag2);
    let c8 = c7.tfree(flag2);
    assert(works(h1, c8, x, y));
    let z = c8.goto(flag);
    assert(works(h1, z, x, y));
    lemma_held_val(c5, x5, y, a, n);
    lemma_held_val(c5, x5, y, b, n);
    lemma_held_val(c5, x5, y, r, n);
    assert forall|k: int| #[trigger] held(h1, k) implies held(z, k) by {
        assert(held(c1, k));
        assert(held(c2, k));
        assert(held(c5, k));
        assert(held(c6, k) && k != flag2);
        assert(held(c7, k));
        assert(held(c8, k));
    }
    assert forall|k: int|
        held(h1, k) && !(a <= k < a + n) && !(r <= k < r + n) && k != flag implies #[trigger] y[k]
        == x[k] by {
        assert(held(c1, k));
        assert(x2[k] == x1[k]);
        assert(held(c2, k));
        assert(held(c3, k) && !(bc <= k < bc + n));
        assert(x4[k] == x2[k]);
        assert(held(c4, k));
        assert(x5[k] == x4[k]);
        assert(held(c5, k));
        assert(x6[k] == x5[k] && k != flag2);
    }
    y
}

/// The rounds of a product of blocks.
proof fn lemma_mul_loop_n(h: Bf, x: Cells, a: int, b: int, r: int, flag: int, n: int) -> (y: Cells)
    requires
        bytes(x),
        h.ptr == flag,
        factors(h, a, b, r, flag, n),
        x[flag] == bit(val(x, a, n) != 0),
    ensures
        ({
            let c2 = h.raw("["@).clear(flag).dec_n(a, n);
            let (c3, bc) = c2.talloc_n(n);
            let c5 = c3.copy_n(b, bc, n).add_n(r, bc, n);
            let (c6, flag2) = c5.is_nz_n(a, n);
            let z = c6.bfmove(flag2, flag).tfree(flag2).goto(flag);
            &&& works(h, z.raw("]"@), x, y)
            &&& grown(h, z)
        }),
        val(y, r, n) == (val(x, r, n) + val(x, a, n) * val(x, b, n)) % size(n),
        beside_product(h, x, y, a, r, flag, n),
    decreases val(x, a, n),
{
    broadcast use {
        sound_clear,
        sound_dec_n,
        sound_talloc_n,
        sound_copy_n,
        sound_add_n,
        sound_is_nz_n,
        sound_bfmove,
        sound_tfree,
        sound_goto,
    };

    let h1 = h.raw("["@);
    assert(sound(h1.out, h1.out, 0)) by {
        reveal(sound);
    }
    assert(grown(h, h1));
    lemma_factors_grown(h, h1, a, b, r, flag, n);
    let c2 = h1.clear(flag).dec_n(a, n);
    let (c3, bc) = c2.talloc_n(n);
    let c5 = c3.copy_n(b, bc, n).add_n(r, bc, n);
    let (c6, flag2) = c5.is_nz_n(a, n);
    let z = c6.bfmove(flag2, flag).tfree(flag2).goto(flag);
    assert(sound(h1.out, z.out, 0));
    lemma_bytes_val(x, a, n);
    lemma_bytes_val(x, r, n);
    if val(x, a, n) == 0 {
        let one = x.insert(a, 1);
        assert forall|k: int| #[trigger] one.dom().contains(k) && 0 <= one[k] < 256 by {
            assert(x.dom().contains(k));
        }
        lemma_bytes_val(one, a, n);
        let _ = lemma_mul_body(h1, one, a, b, r, flag, n);
        assert(val(x, a, n) * val(x, b, n) == 0) by (nonlinear_arith)
            requires
                val(x, a, n) == 0,
        ;
        lemma_works_loop(h, z, x, x, x);
        x
    } else {
        let m = lemma_mul_body(h1, x, a, b, r, flag, n);
        lemma_works_bytes(h1, z, x, m);
        let y = lemma_mul_loop_n(h, m, a, b, r, flag, n);
        lemma_works_loop(h, z, x, m, y);
        lemma_product_step(val(x, r, n), val(x, a, n), val(x, b, n), size(n));
        assert forall|k: int|
            held(h, k) && !(a <= k < a + n) && !(r <= k < r + n) && k != flag implies #[trigger] y[k]
            == x[k] by {
            assert(held(h1, k));
            assert(m[k] == x[k]);
        }
        y
    }
}

/// The product of two numbers of several cells.
proof fn lemma_mul_wide(o: Bf, bf: Bf, x0: Cells, x: Cells, a: int, b: int, n: int) -> (y: Cells)
    requires
        works(o, bf, x0, x),
        operands(bf, a, b, n),
        n > 1,
    ensures
        works(o, bf.arith_mul_n(a, b, n).0, x0, y),
        leaves(
            bf,
            bf.arith_mul_n(a, b, n).0,
            x,
            y,
            bf.arith_mul_n(a, b, n).1,
            n,
            (val(x, a, n) * val(x, b, n)) % size(n),
            blk(a, n).union(blk(b, n)),
        ),
{
    broadcast use {works_goto, works_talloc_n, works_tfree, works_tfree_n};

    reveal(Bf::arith_mul_n);
    lemma_works_bytes(o, bf, x0, x);
    lemma_took_n(bf, n);
    let (b1, r) = bf.talloc_n(n);
    lemma_beside(bf, b1, a, n, r, n);
    lemma_beside(bf, b1, b, n, r, n);
    assert(works(o, b1, x0, x));
    let x2 = lemma_clear_range(o, b1, x0, x, r, 0, n);
    let b2 = b1.clear_range(r, 0, n);
    assert forall|k: int| a <= k < a + n implies #[trigger] held(b2, k) by {
        assert(held(bf, k));
        assert(held(b1, k));
    }
    assert forall|k: int| b <= k < b + n implies #[trigger] held(b2, k) by {
        assert(held(bf, k));
        assert(held(b1, k));
    }
    assert forall|k: int| r <= k < r + n implies #[trigger] held(b2, k) by {
        assert(held(b1, k));
    }
    lemma_zero_val(x2, r, n);
    lemma_held_val(b2, x, x2, a, n);
    lemma_held_val(b2, x, x2, b, n);
    let x3 = lemma_is_nz_n(o, b2, x0, x2, a, n);
    let (b3, flag) = b2.is_nz_n(a, n);
    assert forall|k: int| #[trigger] held(b2, k) implies held(b3, k) && k != flag by {
        assert(!Set::<int>::empty().contains(k));
    }
    assert forall|k: int| held(b2, k) implies #[trigger] x3[k] == x2[k] by {
        assert(!Set::<int>::empty().contains(k));
    }
    lemma_held_val(b2, x2, x3, a, n);
    lemma_held_val(b2, x2, x3, b, n);
    lemma_held_val(b2, x2, x3, r, n);
    assert(held(b3, flag));
    let h = b3.goto(flag);
    assert(works(o, h, x0, x3));
    lemma_works_bytes(o, h, x0, x3);
    assert forall|k: int| a <= k < a + n implies #[trigger] held(h, k) by {
        assert(held(b2, k));
        assert(held(b3, k));
    }
    assert forall|k: int| b <= k < b + n implies #[trigger] held(h, k) by {
        assert(held(b2, k));
        assert(held(b3, k));
    }
    assert forall|k: int| r <= k < r + n implies #[trigger] held(h, k) by {
        assert(held(b2, k));
        assert(held(b3, k));
    }
    assert(apart(a, n, flag, 1) && apart(b, n, flag, 1) && apart(r, n, flag, 1)) by {
        if !(apart(a, n, flag, 1) && apart(b, n, flag, 1) && apart(r, n, flag, 1)) {
            assert(held(b2, flag));
        }
    }
    let y = lemma_mul_loop_n(h, x3, a, b, r, flag, n);
    let c2 = h.raw("["@).clear(flag).dec_n(a, n);
    let (c3, bc) = c2.talloc_n(n);
    let c5 = c3.copy_n(b, bc, n).add_n(r, bc, n);
    let (c6, flag2) = c5.is_nz_n(a, n);
    let z = c6.bfmove(flag2, flag).tfree(flag2).goto(flag);
    let e = z.raw("]"@);
    lemma_works_then(o, h, e, x0, x3, y);
    lemma_freed(e, flag);
    let f = e.tfree(flag);
    assert(works(o, f, x0, y));
    lemma_freed_n(f, a, n);
    let g = f.tfree_n(a, n);
    assert(works(o, g, x0, y));
    lemma_freed_n(g, b, n);
    let c = g.tfree_n(b, n);
    assert(works(o, c, x0, y));
    assert(c == bf.arith_mul_n(a, b, n).0);
    let d = blk(a, n).union(blk(b, n));
    assert forall|k: int| r <= k < r + n implies #[trigger] held(c, k) by {
        assert(held(h, k));
        assert(held(z, k));
        assert(held(b2, k));
        assert(held(e, k) && k != flag);
        assert(held(f, k));
        assert(held(g, k));
    }
    assert forall|k: int| #[trigger] held(bf, k) && !d.contains(k) implies held(c, k) && !(r <= k
        < r + n) by {
        assert(!blk(a, n).contains(k) && !blk(b, n).contains(k));
        assert(held(b1, k));
        assert(held(b2, k));
        assert(held(b3, k) && k != flag);
        assert(held(h, k));
        assert(held(z, k));
        assert(held(e, k));
        assert(held(f, k));
        assert(held(g, k));
    }
    assert forall|k: int| held(bf, k) && !d.contains(k) implies #[trigger] y[k] == x[k] by {
        assert(!blk(a, n).contains(k) && !blk(b, n).contains(k));
        assert(!(r <= k < r + n));
        assert(held(b1, k));
        assert(held(b2, k));
        assert(x2[k] == x[k] && x3[k] == x2[k]);
        assert(held(b3, k) && k != flag);
        assert(held(h, k));
    }
    y
}

/// `arith_mul_n` gives a new block with the product of two numbers.
pub proof fn lemma_mul_n(o: Bf, bf: Bf, x0: Cells, x: Cells, a: int, b: int, n: int) -> (y: Cells)
    requires
        works(o, bf, x0, x),
        operands(bf, a, b, n),
    ensures
        works(o, bf.arith_mul_n(a, b, n).0, x0, y),
        leaves(
            bf,
            bf.arith_mul_n(a, b, n).0,
            x,
            y,
            bf.arith_mul_n(a, b, n).1,
            n,
            (val(x, a, n) * val(x, b, n)) % size(n),
            blk(a, n).union(blk(b, n)),
        ),
{
    if n == 1 {
        reveal(Bf::arith_mul_n);
        lemma_arith_mul(o, bf, x0, x, a, b)
    } else {
        lemma_mul_wide(o, bf, x0, x, a, b, n)
    }
}

} // verus!
