//! What the comparisons and the logical operators on blocks of cells do.

use vstd::prelude::*;

use crate::bfsc::effect::arith::{blk, leaves, lemma_held_val, operands, same_in, val, word};
use crate::bfsc::effect::blocks::{apart, held_n, lemma_freed_n, lent_n};
use crate::bfsc::effect::cells::{
    agree, bit, flagged, flagged_both, held, lemma_give_back, roomy, settled, took, works_bfmove,
    works_copy, works_flag_if, works_flag_if_both, works_is_nz, works_negate, works_sub_from,
};
use crate::bfsc::effect::compare::{grown, lemma_byte_gt, lemma_freed, lemma_took, lent};
use crate::bfsc::effect::steps::{
    lemma_works_bytes, plus, works, works_clear, works_setv, works_talloc, works_tfree,
    works_tfree_n, Cells,
};
use crate::bfsc::emitter::Bf;

verus! {

/// Taking a byte into account of whether a block is not 0.
proof fn lemma_nz_byte(o: Bf, bf: Bf, x0: Cells, x: Cells, base: int, n: int, r: int, i: int)
    -> (y: Cells)
    requires
        works(o, bf, x0, x),
        roomy(bf),
        held(bf, base + i),
        held(bf, r),
        r != base + i,
    ensures
        works(o, bf.nz_byte(base, n, r, i), x0, y),
        settled(bf, bf.nz_byte(base, n, r, i)),
        agree(
            bf,
            if x[base + i] != 0 {
                x.insert(r, 1)
            } else {
                x
            },
            y,
        ),
{
    broadcast use {works_copy, works_flag_if, works_talloc, works_tfree, lemma_took};

    reveal(Bf::nz_byte);
    assert(took(bf, bf.talloc().0, bf.talloc().1));
    let (b1, bc) = bf.talloc();
    assert(held(b1, base + i) && held(b1, bc) && held(b1, r));
    let b2 = b1.copy(base + i, bc);
    let x2 = choose|y: Cells| #[trigger]
        works(o, b2, x0, y) && agree(b1, x.insert(bc, x[base + i]), y);
    let b3 = b2.flag_if(bc, r);
    let y = flagged(x2, bc, r);
    assert(works(o, b3, x0, y));
    assert(works(o, b3.tfree(bc), x0, y));
    lemma_give_back(bf, b3);
    assert(x2[bc] == x[base + i]);
    let ideal = if x[base + i] != 0 {
        x.insert(r, 1)
    } else {
        x
    };
    assert forall|k: int| held(bf, k) implies #[trigger] y[k] == ideal[k] by {
        assert(held(b1, k) && k != bc);
        assert(x2[k] == x.insert(bc, x[base + i])[k]);
    }
    y
}

/// Whether one of the lowest bytes of a block is not 0.
spec fn some_nz(x: Cells, base: int, i: int) -> bool
    decreases i,
{
    i > 0 && (x[base + i - 1] != 0 || some_nz(x, base, i - 1))
}

proof fn lemma_some_nz(o: Bf, b: Bf, x0: Cells, x: Cells, base: int, n: int)
    requires
        works(o, b, x0, x),
        n == 2 || n == 4,
        held_n(b, base, n),
    ensures
        some_nz(x, base, n) <==> val(x, base, n) != 0,
{
    reveal_with_fuel(some_nz, 5);
    lemma_works_bytes(o, b, x0, x);
    assert(held(b, base) && held(b, base + 1));
    assert(x.dom().contains(base) && x.dom().contains(base + 1));
    if n == 4 {
        assert(held(b, base + 2) && held(b, base + 3));
        assert(x.dom().contains(base + 2) && x.dom().contains(base + 3));
    }
}

proof fn lemma_some_nz_same(x: Cells, y: Cells, base: int, i: int)
    requires
        same_in(x, y, base, i),
    ensures
        some_nz(x, base, i) == some_nz(y, base, i),
    decreases i,
{
    if i > 0 {
        assert(y[base + i - 1] == x[base + i - 1]);
        lemma_some_nz_same(x, y, base, i - 1);
    }
}

/// The rounds of `is_nz_n`.
proof fn lemma_nz_rounds(o: Bf, bf: Bf, x0: Cells, x: Cells, base: int, n: int, r: int, i: int)
    -> (y: Cells)
    requires
        works(o, bf, x0, x),
        roomy(bf),
        held_n(bf, base, n),
        held(bf, r),
        !(base <= r < base + n),
        0 <= i <= n,
        x[r] == bit(some_nz(x, base, i)),
    ensures
        works(o, bf.is_nz_n_rounds(base, n, r, i), x0, y),
        settled(bf, bf.is_nz_n_rounds(base, n, r, i)),
        agree(bf, x.insert(r, bit(some_nz(x, base, n))), y),
    decreases n - i,
{
    reveal_with_fuel(Bf::is_nz_n_rounds, 2);
    if i < n {
        assert(held(bf, base + i));
        let x1 = lemma_nz_byte(o, bf, x0, x, base, n, r, i);
        let b1 = bf.nz_byte(base, n, r, i);
        assert forall|k: int| held(bf, k) && k != r implies #[trigger] x1[k] == x[k] by {}
        assert forall|k: int| base <= k < base + n implies #[trigger] held(b1, k) && x1[k]
            == x[k] by {
            assert(held(bf, k));
        }
        lemma_some_nz_same(x, x1, base, i + 1);
        lemma_some_nz_same(x, x1, base, n);
        let y = lemma_nz_rounds(o, b1, x0, x1, base, n, r, i + 1);
        assert forall|k: int| held(bf, k) implies #[trigger] y[k] == x.insert(
            r,
            bit(some_nz(x, base, n)),
        )[k] by {
            assert(held(b1, k));
        }
        y
    } else {
        x
    }
}

/// `is_nz_n` gives a new cell with whether a number is not 0.
pub proof fn lemma_is_nz_n(o: Bf, bf: Bf, x0: Cells, x: Cells, base: int, n: int) -> (y: Cells)
    requires
        works(o, bf, x0, x),
        roomy(bf),
        word(n),
        held_n(bf, base, n),
    ensures
        works(o, bf.is_nz_n(base, n).0, x0, y),
        leaves(
            bf,
            bf.is_nz_n(base, n).0,
            x,
            y,
            bf.is_nz_n(base, n).1,
            1,
            bit(val(x, base, n) != 0),
            Set::empty(),
        ),
{
    broadcast use {works_is_nz, works_clear, works_talloc, lemma_took};

    reveal(Bf::is_nz_n);
    lemma_works_bytes(o, bf, x0, x);
    assert(held(bf, base));
    if n == 1 {
        let (c, r) = bf.is_nz(base);
        let y = choose|y: Cells| #[trigger]
            works(o, c, x0, y) && agree(
                bf.talloc().0,
                x.insert(bf.talloc().1, bit(x[base] != 0)),
                y,
            );
        assert(took(bf, c, r));
        assert(took(bf, bf.talloc().0, r));
        assert(held(bf.talloc().0, r));
        assert forall|k: int| held(bf, k) implies #[trigger] y[k] == x[k] by {
            assert(held(bf.talloc().0, k) && k != r);
        }
        assert(held(c, r));
        y
    } else {
        assert(took(bf, bf.talloc().0, bf.talloc().1));
        let (b1, r) = bf.talloc();
        let b2 = b1.clear(r);
        let x2 = x.insert(r, 0);
        assert(works(o, b2, x0, x2));
        assert forall|k: int| base <= k < base + n implies #[trigger] held(b2, k) && k != r by {
            assert(held(bf, k));
        }
        assert(held(b2, r));
        let y = lemma_nz_rounds(o, b2, x0, x2, base, n, r, 0);
        let c = b2.is_nz_n_rounds(base, n, r, 0);
        assert(c == bf.is_nz_n(base, n).0);
        lemma_some_nz(o, b2, x0, x2, base, n);
        lemma_held_val(b2, x, x2, base, n);
        assert forall|k: int| held(bf, k) implies #[trigger] y[k] == x[k] by {
            assert(held(b2, k) && k != r);
        }
        assert(held(c, r));
        y
    }
}

/// `byte_eq` gives whether two cells hold the same, in the first one.
proof fn lemma_byte_eq(o: Bf, bf: Bf, x0: Cells, x: Cells, a: int, b: int) -> (y: Cells)
    requires
        works(o, bf, x0, x),
        roomy(bf),
        lent(bf, a),
        lent(bf, b),
        a != b,
    ensures
        works(o, bf.byte_eq(a, b).0, x0, y),
        bf.byte_eq(a, b).1 == a,
        settled(bf.tfree(b), bf.byte_eq(a, b).0),
        y[a] == bit(x[a] == x[b]),
        forall|k: int| held(bf, k) && k != a && k != b ==> #[trigger] y[k] == x[k],
{
    broadcast use {works_sub_from, works_negate, works_tfree};

    reveal(Bf::byte_eq);
    lemma_works_bytes(o, bf, x0, x);
    assert(x.dom().contains(a) && x.dom().contains(b));
    let b1 = bf.sub_from(b, a);
    let x1 = plus(x, a, -x[b]).insert(b, 0);
    assert(works(o, b1, x0, x1));
    lemma_freed(b1, b);
    let b2 = b1.tfree(b);
    assert(works(o, b2, x0, x1));
    assert(held(b1, a));
    assert(held(b2, a));
    let c = b2.negate(a).0;
    let y = choose|y: Cells| #[trigger]
        works(o, c, x0, y) && agree(b2, x1.insert(a, bit(x1[a] == 0)), y);
    assert((x[a] - x[b]) % 256 == 0 <==> x[a] == x[b]);
    assert forall|k: int| held(bf, k) && k != a && k != b implies #[trigger] y[k] == x[k] by {
        assert(held(b1, k));
        assert(held(b2, k));
    }
    y
}

/// Taking a byte into account of whether two blocks are equal.
proof fn lemma_eq_byte(
    o: Bf,
    bf: Bf,
    x0: Cells,
    x: Cells,
    a: int,
    b: int,
    n: int,
    r: int,
    i: int,
) -> (y: Cells)
    requires
        works(o, bf, x0, x),
        roomy(bf),
        held(bf, a + i),
        held(bf, b + i),
        held(bf, r),
        r != a + i,
        r != b + i,
        a != b,
    ensures
        works(o, bf.eq_byte(a, b, n, r, i), x0, y),
        settled(bf, bf.eq_byte(a, b, n, r, i)),
        agree(bf, x.insert(r, bit(x[r] != 0 && x[a + i] == x[b + i])), y),
{
    broadcast use {
        works_copy,
        works_bfmove,
        works_clear,
        works_flag_if_both,
        works_talloc,
        works_tfree,
        lemma_took,
    };

    reveal(Bf::eq_byte);
    lemma_works_bytes(o, bf, x0, x);
    assert(took(bf, bf.talloc().0, bf.talloc().1));
    let (b1, ai) = bf.talloc();
    assert(held(b1, a + i) && held(b1, ai) && held(b1, b + i) && held(b1, r));
    let b2 = b1.copy(a + i, ai);
    let x2 = choose|y: Cells| #[trigger]
        works(o, b2, x0, y) && agree(b1, x.insert(ai, x[a + i]), y);
    assert(took(b2, b2.talloc().0, b2.talloc().1));
    let (b3, bi) = b2.talloc();
    assert(held(b3, b + i) && held(b3, ai) && held(b3, bi) && held(b3, r));
    let b4 = b3.copy(b + i, bi);
    let x4 = choose|y: Cells| #[trigger]
        works(o, b4, x0, y) && agree(b3, x2.insert(bi, x2[b + i]), y);
    assert(held(b4, ai) && held(b4, bi));
    assert(x2[ai] == x[a + i] && x2[b + i] == x[b + i] && x2[r] == x[r]);
    assert(x4[ai] == x[a + i] && x4[bi] == x[b + i] && x4[r] == x[r]);
    let x5 = lemma_byte_eq(o, b4, x0, x4, ai, bi);
    let (b5, same) = b4.byte_eq(ai, bi);
    lemma_freed(b4, bi);
    lemma_give_back(b2, b4);
    assert(b4.tfree(bi).used == b2.used);
    assert(settled(b2, b5));
    assert(held(b4, r) && r != ai && r != bi);
    assert(x5[r] == x[r] && x5[ai] == bit(x[a + i] == x[b + i]));
    assert(took(b5, b5.talloc().0, b5.talloc().1));
    let (b6, before) = b5.talloc();
    assert(held(b5, ai) && held(b5, r));
    assert(before != ai && before != r);
    let b7 = b6.bfmove(r, before);
    let x7 = x5.insert(before, x5[r]).insert(r, 0);
    assert(works(o, b7, x0, x7));
    let b8 = b7.clear(r);
    let x8 = x7.insert(r, 0);
    assert(works(o, b8, x0, x8));
    let b9 = b8.flag_if_both(before, ai, r);
    let y = flagged_both(x8, before, ai, r);
    assert(works(o, b9, x0, y));
    let b10 = b9.tfree(before);
    lemma_give_back(b5, b9);
    let c = b10.tfree(ai);
    assert(works(o, c, x0, y));
    assert(c == bf.eq_byte(a, b, n, r, i));
    assert(settled(b1, b10));
    lemma_give_back(bf, b10);
    let ideal = x.insert(r, bit(x[r] != 0 && x[a + i] == x[b + i]));
    assert forall|k: int| held(bf, k) implies #[trigger] y[k] == ideal[k] by {
        assert(held(b1, k) && k != ai);
        assert(x2[k] == x.insert(ai, x[a + i])[k]);
        assert(held(b3, k) && k != bi);
        assert(x4[k] == x2.insert(bi, x2[b + i])[k]);
        assert(held(b4, k));
        assert(x5[k] == x4[k]);
        assert(held(b5, k) && k != before);
    }
    y
}

/// Whether the lowest bytes of two blocks are equal.
spec fn eq_below(x: Cells, a: int, b: int, i: int) -> bool
    decreases i,
{
    i <= 0 || (x[a + i - 1] == x[b + i - 1] && eq_below(x, a, b, i - 1))
}

proof fn lemma_eq_below(o: Bf, bf: Bf, x0: Cells, x: Cells, a: int, b: int, n: int)
    requires
        works(o, bf, x0, x),
        n == 2 || n == 4,
        held_n(bf, a, n),
        held_n(bf, b, n),
    ensures
        eq_below(x, a, b, n) <==> val(x, a, n) == val(x, b, n),
{
    reveal_with_fuel(eq_below, 5);
    lemma_works_bytes(o, bf, x0, x);
    assert(held(bf, a) && held(bf, a + 1) && held(bf, b) && held(bf, b + 1));
    assert(x.dom().contains(a) && x.dom().contains(a + 1));
    assert(x.dom().contains(b) && x.dom().contains(b + 1));
    if n == 4 {
        assert(held(bf, a + 2) && held(bf, a + 3) && held(bf, b + 2) && held(bf, b + 3));
        assert(x.dom().contains(a + 2) && x.dom().contains(a + 3));
        assert(x.dom().contains(b + 2) && x.dom().contains(b + 3));
    }
}

proof fn lemma_eq_same(x: Cells, y: Cells, a: int, b: int, i: int)
    requires
        same_in(x, y, a, i),
        same_in(x, y, b, i),
    ensures
        eq_below(x, a, b, i) == eq_below(y, a, b, i),
    decreases i,
{
    if i > 0 {
        assert(y[a + i - 1] == x[a + i - 1] && y[b + i - 1] == x[b + i - 1]);
        lemma_eq_same(x, y, a, b, i - 1);
    }
}

/// The rounds of `eq_n`.
proof fn lemma_eq_rounds(
    o: Bf,
    bf: Bf,
    x0: Cells,
    x: Cells,
    a: int,
    b: int,
    n: int,
    r: int,
    i: int,
) -> (y: Cells)
    requires
        works(o, bf, x0, x),
        roomy(bf),
        held_n(bf, a, n),
        held_n(bf, b, n),
        apart(a, n, b, n),
        held(bf, r),
        !(a <= r < a + n),
        !(b <= r < b + n),
        0 <= i <= n,
        x[r] == bit(eq_below(x, a, b, i)),
    ensures
        works(o, bf.eq_n_rounds(a, b, n, r, i), x0, y),
        grown(bf, bf.eq_n_rounds(a, b, n, r, i)),
        agree(bf, x.insert(r, bit(eq_below(x, a, b, n))), y),
    decreases n - i,
{
    reveal_with_fuel(Bf::eq_n_rounds, 2);
    if i < n {
        assert(held(bf, a + i) && held(bf, b + i));
        let x1 = lemma_eq_byte(o, bf, x0, x, a, b, n, r, i);
        let b1 = bf.eq_byte(a, b, n, r, i);
        assert forall|k: int| held(bf, k) && k != r implies #[trigger] x1[k] == x[k] by {}
        assert forall|k: int| a <= k < a + n || b <= k < b + n implies #[trigger] held(b1, k) && x1[k]
            == x[k] by {
            assert(held(bf, k));
        }
        lemma_eq_same(x, x1, a, b, i + 1);
        lemma_eq_same(x, x1, a, b, n);
        assert(held(b1, r));
        let y = lemma_eq_rounds(o, b1, x0, x1, a, b, n, r, i + 1);
        let c = bf.eq_n_rounds(a, b, n, r, i);
        assert forall|k: int| #[trigger] held(bf, k) implies held(c, k) by {
            assert(held(b1, k));
        }
        assert forall|k: int| held(bf, k) implies #[trigger] y[k] == x.insert(
            r,
            bit(eq_below(x, a, b, n)),
        )[k] by {
            assert(held(b1, k));
        }
        y
    } else {
        x
    }
}

/// `eq_n` gives a cell with whether two numbers are equal.
pub proof fn lemma_eq_n(o: Bf, bf: Bf, x0: Cells, x: Cells, a: int, b: int, n: int) -> (y: Cells)
    requires
        works(o, bf, x0, x),
        operands(bf, a, b, n),
    ensures
        works(o, bf.eq_n(a, b, n).0, x0, y),
        leaves(
            bf,
            bf.eq_n(a, b, n).0,
            x,
            y,
            bf.eq_n(a, b, n).1,
            1,
            bit(val(x, a, n) == val(x, b, n)),
            blk(a, n).union(blk(b, n)),
        ),
{
    broadcast use {works_setv, works_talloc, works_tfree_n, lemma_took};

    reveal(Bf::eq_n);
    lemma_works_bytes(o, bf, x0, x);
    assert(held(bf, a) && held(bf, b));
    if n == 1 {
        let y = lemma_byte_eq(o, bf, x0, x, a, b);
        lemma_freed(bf, b);
        let c = bf.byte_eq(a, b).0;
        assert forall|k: int| #[trigger] held(bf, k) && !blk(b, 1).contains(k) implies held(
            c,
            k,
        ) by {
            assert(held(bf.tfree(b), k));
        }
        assert(held(c, a));
        y
    } else {
        assert(took(bf, bf.talloc().0, bf.talloc().1));
        let (b1, r) = bf.talloc();
        let b2 = b1.setv(r, 1);
        let x2 = x.insert(r, 1);
        assert(works(o, b2, x0, x2));
        assert forall|k: int| a <= k < a + n || b <= k < b + n implies #[trigger] held(b2, k) && k
            != r by {
            assert(held(bf, k));
        }
        assert(held(b2, r));
        let y = lemma_eq_rounds(o, b2, x0, x2, a, b, n, r, 0);
        let b4 = b2.eq_n_rounds(a, b, n, r, 0);
        lemma_eq_below(o, b2, x0, x2, a, b, n);
        lemma_held_val(b2, x, x2, a, n);
        lemma_held_val(b2, x, x2, b, n);
        lemma_freed_n(b4, a, n);
        lemma_freed_n(b4.tfree_n(a, n), b, n);
        let c = b4.tfree_n(a, n).tfree_n(b, n);
        assert(c == bf.eq_n(a, b, n).0);
        assert(works(o, c, x0, y));
        lemma_tail(bf, b2, b4, c, x, y, r, a, b, n);
        assert forall|k: int| held(bf, k) implies #[trigger] y[k] == x[k] by {
            assert(held(b2, k) && k != r);
        }
        y
    }
}

/// The cells in use after a comparison of blocks.
proof fn lemma_tail(
    bf: Bf,
    b2: Bf,
    b4: Bf,
    c: Bf,
    x: Cells,
    y: Cells,
    r: int,
    a: int,
    b: int,
    n: int,
)
    requires
        roomy(bf),
        took(bf, b2, r),
        grown(b2, b4),
        lent_n(bf, a, n),
        lent_n(bf, b, n),
        roomy(c),
        c.temp_base == b4.temp_base,
        forall|k: int| #[trigger]
            held(b4.tfree_n(a, n), k) <==> held(b4, k) && !(a <= k < a + n),
        forall|k: int| #[trigger]
            held(c, k) <==> held(b4.tfree_n(a, n), k) && !(b <= k < b + n),
    ensures
        held(c, r),
        !held(bf, r),
        r >= bf.temp_base,
        forall|k: int| #[trigger]
            held(bf, k) && !blk(a, n).union(blk(b, n)).contains(k) ==> held(c, k) && k != r,
{
    broadcast use lemma_took;

    assert(held(b2, r));
    assert(held(b4, r));
    assert(!(a <= r < a + n)) by {
        if a <= r < a + n {
            assert(held(bf, r));
        }
    }
    assert(!(b <= r < b + n)) by {
        if b <= r < b + n {
            assert(held(bf, r));
        }
    }
    assert(held(b4.tfree_n(a, n), r));
    assert forall|k: int| #[trigger]
        held(bf, k) && !blk(a, n).union(blk(b, n)).contains(k) implies held(c, k) && k != r by {
        assert(!blk(a, n).contains(k) && !blk(b, n).contains(k));
        assert(held(b2, k) && k != r);
        assert(held(b4, k));
        assert(held(b4.tfree_n(a, n), k));
    }
}

/// Taking a byte into account of whether one block is less than another.
proof fn lemma_lt_byte(
    o: Bf,
    bf: Bf,
    x0: Cells,
    x: Cells,
    a: int,
    b: int,
    n: int,
    r: int,
    i: int,
) -> (y: Cells)
    requires
        works(o, bf, x0, x),
        roomy(bf),
        held(bf, a + i),
        held(bf, b + i),
        held(bf, r),
        r != a + i,
        r != b + i,
        a != b,
    ensures
        works(o, bf.lt_byte(a, b, n, r, i), x0, y),
        grown(bf, bf.lt_byte(a, b, n, r, i)),
        agree(
            bf,
            x.insert(
                r,
                bit(x[a + i] < x[b + i] || (x[a + i] == x[b + i] && x[r] != 0)),
            ),
            y,
        ),
{
    broadcast use {
        works_copy,
        works_bfmove,
        works_clear,
        works_flag_if,
        works_flag_if_both,
        works_talloc,
        works_tfree,
        lemma_took,
    };

    reveal(Bf::lt_byte);
    reveal(Bf::byte_lt);
    lemma_works_bytes(o, bf, x0, x);
    let p = a + i;
    let q = b + i;
    assert(took(bf, bf.talloc().0, bf.talloc().1));
    let (c1, a1) = bf.talloc();
    assert(held(c1, p) && held(c1, a1) && held(c1, q) && held(c1, r));
    let c2 = c1.copy(p, a1);
    let x2 = choose|y: Cells| #[trigger]
        works(o, c2, x0, y) && agree(c1, x.insert(a1, x[p]), y);
    assert(x2[p] == x[p] && x2[q] == x[q] && x2[r] == x[r] && x2[a1] == x[p]);
    assert(took(c2, c2.talloc().0, c2.talloc().1));
    let (c3, b1) = c2.talloc();
    assert(held(c3, p) && held(c3, a1) && held(c3, q) && held(c3, r) && held(c3, b1));
    let c4 = c3.copy(q, b1);
    let x4 = choose|y: Cells| #[trigger]
        works(o, c4, x0, y) && agree(c3, x2.insert(b1, x2[q]), y);
    assert(x4[p] == x[p] && x4[q] == x[q] && x4[r] == x[r] && x4[a1] == x[p] && x4[b1] == x[q]);
    assert(took(c4, c4.talloc().0, c4.talloc().1));
    let (c5, a2) = c4.talloc();
    assert(held(c5, p) && held(c5, a1) && held(c5, q) && held(c5, r) && held(c5, b1) && held(
        c5,
        a2,
    ));
    let c6 = c5.copy(p, a2);
    let x6 = choose|y: Cells| #[trigger]
        works(o, c6, x0, y) && agree(c5, x4.insert(a2, x4[p]), y);
    assert(x6[q] == x[q] && x6[r] == x[r] && x6[a1] == x[p] && x6[b1] == x[q] && x6[a2] == x[p]);
    assert(took(c6, c6.talloc().0, c6.talloc().1));
    let (c7, b2) = c6.talloc();
    assert(held(c7, a1) && held(c7, q) && held(c7, r) && held(c7, b1) && held(c7, a2) && held(
        c7,
        b2,
    ));
    let c8 = c7.copy(q, b2);
    let x8 = choose|y: Cells| #[trigger]
        works(o, c8, x0, y) && agree(c7, x6.insert(b2, x6[q]), y);
    assert(x8[r] == x[r] && x8[a1] == x[p] && x8[b1] == x[q] && x8[a2] == x[p] && x8[b2] == x[q]);
    assert(held(c8, a1) && held(c8, r) && held(c8, b1) && held(c8, a2) && held(c8, b2));
    let x9 = lemma_byte_gt(o, c8, x0, x8, b1, a1);
    let (c9, lt) = c8.byte_lt(a1, b1);
    assert(x9[lt] == bit(x[p] < x[q]) && x9[a2] == x[p] && x9[b2] == x[q] && x9[r] == x[r]);
    assert(held(c9, a2) && held(c9, b2) && held(c9, r) && held(c9, lt));
    assert(lt != a2 && lt != b2 && lt != r);
    let x10 = lemma_byte_eq(o, c9, x0, x9, a2, b2);
    let (c10, eq) = c9.byte_eq(a2, b2);
    lemma_freed(c9, b2);
    assert(x10[eq] == bit(x[p] == x[q]) && x10[lt] == x9[lt] && x10[r] == x[r]);
    assert(held(c9.tfree(b2), lt) && held(c9.tfree(b2), eq) && held(c9.tfree(b2), r));
    assert(held(c10, lt) && held(c10, eq) && held(c10, r));
    assert(took(c10, c10.talloc().0, c10.talloc().1));
    let (c11, nr) = c10.talloc();
    let c12 = c11.clear(nr);
    let x12 = x10.insert(nr, 0);
    assert(works(o, c12, x0, x12));
    assert(took(c12, c12.talloc().0, c12.talloc().1));
    let (c13, pc) = c12.talloc();
    assert(held(c12, r) && held(c12, lt) && held(c12, eq) && held(c12, nr));
    assert(held(c13, r) && held(c13, pc) && held(c13, lt) && held(c13, eq) && held(c13, nr));
    let c14 = c13.copy(r, pc);
    let x14 = choose|y: Cells| #[trigger]
        works(o, c14, x0, y) && agree(c13, x12.insert(pc, x12[r]), y);
    assert(x14[pc] == x[r] && x14[lt] == x9[lt] && x14[eq] == x10[eq] && x14[nr] == 0);
    let c15 = c14.clear(r);
    let x15 = x14.insert(r, 0);
    assert(works(o, c15, x0, x15));
    let c16 = c15.flag_if(lt, nr);
    let x16 = flagged(x15, lt, nr);
    assert(works(o, c16, x0, x16));
    lemma_freed(c16, lt);
    let c17 = c16.tfree(lt);
    assert(works(o, c17, x0, x16));
    let c18 = c17.flag_if_both(eq, pc, nr);
    let x18 = flagged_both(x16, eq, pc, nr);
    assert(works(o, c18, x0, x18));
    lemma_freed(c18, eq);
    let c19 = c18.tfree(eq);
    assert(works(o, c19, x0, x18));
    lemma_freed(c19, pc);
    let c20 = c19.tfree(pc);
    assert(works(o, c20, x0, x18));
    let c21 = c20.bfmove(nr, r);
    let y = x18.insert(r, x18[nr]).insert(nr, 0);
    assert(works(o, c21, x0, y));
    lemma_freed(c21, nr);
    let c = c21.tfree(nr);
    assert(works(o, c, x0, y));
    assert(c == bf.lt_byte(a, b, n, r, i));
    let ideal = x.insert(r, bit(x[p] < x[q] || (x[p] == x[q] && x[r] != 0)));
    assert(y[r] == ideal[r]);
    assert forall|k: int| held(bf, k) && k != r implies #[trigger] y[k] == x[k] by {
        assert(held(c1, k) && k != a1);
        assert(x2[k] == x.insert(a1, x[p])[k]);
        assert(held(c3, k) && k != b1);
        assert(x4[k] == x2.insert(b1, x2[q])[k]);
        assert(held(c5, k) && k != a2);
        assert(x6[k] == x4.insert(a2, x4[p])[k]);
        assert(held(c7, k) && k != b2);
        assert(x8[k] == x6.insert(b2, x6[q])[k]);
        assert(held(c8, k));
        assert(x9[k] == x8[k]);
        assert(held(c9, k) && k != lt);
        assert(x10[k] == x9[k]);
        assert(held(c9.tfree(b2), k));
        assert(held(c10, k) && k != nr);
        assert(held(c12, k) && k != pc);
        assert(held(c13, k));
        assert(x14[k] == x12.insert(pc, x12[r])[k]);
    }
    assert forall|k: int| #[trigger] held(bf, k) implies held(c, k) by {
        assert(held(c1, k) && k != a1);
        assert(held(c2, k));
        assert(held(c3, k) && k != b1);
        assert(held(c4, k));
        assert(held(c5, k) && k != a2);
        assert(held(c6, k));
        assert(held(c7, k) && k != b2);
        assert(held(c8, k));
        assert(held(c9, k) && k != lt);
        assert(held(c9.tfree(b2), k));
        assert(held(c10, k) && k != nr);
        assert(held(c12, k) && k != pc);
        assert(held(c13, k));
        assert(held(c16, k));
        assert(held(c17, k) && k != eq);
        assert(held(c18, k));
        assert(held(c19, k));
        assert(held(c20, k));
        assert(held(c21, k));
    }
    y
}

/// Whether the lowest bytes of a block are a smaller number than those of another.
spec fn lt_below(x: Cells, a: int, b: int, i: int) -> bool
    decreases i,
{
    i > 0 && (x[a + i - 1] < x[b + i - 1] || (x[a + i - 1] == x[b + i - 1] && lt_below(x, a, b, i - 1)))
}

proof fn lemma_lt_below(o: Bf, bf: Bf, x0: Cells, x: Cells, a: int, b: int, n: int)
    requires
        works(o, bf, x0, x),
        n == 2 || n == 4,
        held_n(bf, a, n),
        held_n(bf, b, n),
    ensures
        lt_below(x, a, b, n) <==> val(x, a, n) < val(x, b, n),
{
    reveal_with_fuel(lt_below, 5);
    lemma_works_bytes(o, bf, x0, x);
    assert(held(bf, a) && held(bf, a + 1) && held(bf, b) && held(bf, b + 1));
    assert(x.dom().contains(a) && x.dom().contains(a + 1));
    assert(x.dom().contains(b) && x.dom().contains(b + 1));
    if n == 4 {
        assert(held(bf, a + 2) && held(bf, a + 3) && held(bf, b + 2) && held(bf, b + 3));
        assert(x.dom().contains(a + 2) && x.dom().contains(a + 3));
        assert(x.dom().contains(b + 2) && x.dom().contains(b + 3));
    }
}

proof fn lemma_lt_same(x: Cells, y: Cells, a: int, b: int, i: int)
    requires
        same_in(x, y, a, i),
        same_in(x, y, b, i),
    ensures
        lt_below(x, a, b, i) == lt_below(y, a, b, i),
    decreases i,
{
    if i > 0 {
        assert(y[a + i - 1] == x[a + i - 1] && y[b + i - 1] == x[b + i - 1]);
        lemma_lt_same(x, y, a, b, i - 1);
    }
}

/// The rounds of `lt_n`.
proof fn lemma_lt_rounds(
    o: Bf,
    bf: Bf,
    x0: Cells,
    x: Cells,
    a: int,
    b: int,
    n: int,
    r: int,
    i: int,
) -> (y: Cells)
    requires
        works(o, bf, x0, x),
        roomy(bf),
        held_n(bf, a, n),
        held_n(bf, b, n),
        apart(a, n, b, n),
        held(bf, r),
        !(a <= r < a + n),
        !(b <= r < b + n),
        0 <= i <= n,
        x[r] == bit(lt_below(x, a, b, i)),
    ensures
        works(o, bf.lt_n_rounds(a, b, n, r, i), x0, y),
        grown(bf, bf.lt_n_rounds(a, b, n, r, i)),
        agree(bf, x.insert(r, bit(lt_below(x, a, b, n))), y),
    decreases n - i,
{
    reveal_with_fuel(Bf::lt_n_rounds, 2);
    if i < n {
        assert(held(bf, a + i) && held(bf, b + i));
        let x1 = lemma_lt_byte(o, bf, x0, x, a, b, n, r, i);
        let b1 = bf.lt_byte(a, b, n, r, i);
        assert forall|k: int| held(bf, k) && k != r implies #[trigger] x1[k] == x[k] by {}
        assert forall|k: int| a <= k < a + n || b <= k < b + n implies #[trigger] held(b1, k) && x1[k]
            == x[k] by {
            assert(held(bf, k));
        }
        lemma_lt_same(x, x1, a, b, i + 1);
        lemma_lt_same(x, x1, a, b, n);
        assert(held(b1, r));
        let y = lemma_lt_rounds(o, b1, x0, x1, a, b, n, r, i + 1);
        let c = bf.lt_n_rounds(a, b, n, r, i);
        assert forall|k: int| #[trigger] held(bf, k) implies held(c, k) by {
            assert(held(b1, k));
        }
        assert forall|k: int| held(bf, k) implies #[trigger] y[k] == x.insert(
            r,
            bit(lt_below(x, a, b, n)),
        )[k] by {
            assert(held(b1, k));
        }
        y
    } else {
        x
    }
}

/// `lt_n` gives a new cell with whether one number is less than another.
pub proof fn lemma_lt_n(o: Bf, bf: Bf, x0: Cells, x: Cells, a: int, b: int, n: int) -> (y: Cells)
    requires
        works(o, bf, x0, x),
        operands(bf, a, b, n),
    ensures
        works(o, bf.lt_n(a, b, n).0, x0, y),
        leaves(
            bf,
            bf.lt_n(a, b, n).0,
            x,
            y,
            bf.lt_n(a, b, n).1,
            1,
            bit(val(x, a, n) < val(x, b, n)),
            blk(a, n).union(blk(b, n)),
        ),
{
    broadcast use {works_clear, works_talloc, works_tfree_n, lemma_took};

    reveal(Bf::lt_n);
    lemma_works_bytes(o, bf, x0, x);
    assert(held(bf, a) && held(bf, b));
    if n == 1 {
        reveal(Bf::byte_lt);
        let y = lemma_byte_gt(o, bf, x0, x, b, a);
        let (c, r) = bf.byte_gt(b, a);
        assert forall|k: int| #[trigger]
            held(bf, k) && !blk(a, n).union(blk(b, n)).contains(k) implies held(c, k) && k != r by {
            assert(!blk(a, n).contains(k) && !blk(b, n).contains(k));
        }
        assert forall|k: int|
            held(bf, k) && !blk(a, n).union(blk(b, n)).contains(k) implies #[trigger] y[k]
            == x[k] by {
            assert(!blk(a, n).contains(k) && !blk(b, n).contains(k));
        }
        assert(held(c, r));
        y
    } else {
        assert(took(bf, bf.talloc().0, bf.talloc().1));
        let (b1, r) = bf.talloc();
        let b2 = b1.clear(r);
        let x2 = x.insert(r, 0);
        assert(works(o, b2, x0, x2));
        assert forall|k: int| a <= k < a + n || b <= k < b + n implies #[trigger] held(b2, k) && k
            != r by {
            assert(held(bf, k));
        }
        assert(held(b2, r));
        let y = lemma_lt_rounds(o, b2, x0, x2, a, b, n, r, 0);
        let b4 = b2.lt_n_rounds(a, b, n, r, 0);
        lemma_lt_below(o, b2, x0, x2, a, b, n);
        lemma_held_val(b2, x, x2, a, n);
        lemma_held_val(b2, x, x2, b, n);
        lemma_freed_n(b4, a, n);
        lemma_freed_n(b4.tfree_n(a, n), b, n);
        let c = b4.tfree_n(a, n).tfree_n(b, n);
        assert(c == bf.lt_n(a, b, n).0);
        assert(works(o, c, x0, y));
        lemma_tail(bf, b2, b4, c, x, y, r, a, b, n);
        assert forall|k: int| held(bf, k) implies #[trigger] y[k] == x[k] by {
            assert(held(b2, k) && k != r);
        }
        y
    }
}

/// Negating the result of a comparison.
proof fn lemma_negated(
    o: Bf,
    bf: Bf,
    c: Bf,
    x0: Cells,
    x: Cells,
    y: Cells,
    r: int,
    p: bool,
    d: Set<int>,
) -> (z: Cells)
    requires
        works(o, c, x0, y),
        leaves(bf, c, x, y, r, 1, bit(p), d),
    ensures
        works(o, c.negate(r).0, x0, z),
        c.negate(r).1 == r,
        leaves(bf, c.negate(r).0, x, z, r, 1, bit(!p), d),
{
    broadcast use works_negate;

    assert(held(c, r));
    let e = c.negate(r).0;
    let z = choose|z: Cells| #[trigger]
        works(o, e, x0, z) && agree(c, y.insert(r, bit(y[r] == 0)), z);
    assert(settled(c, e));
    assert forall|k: int| held(bf, k) && !d.contains(k) implies #[trigger] z[k] == x[k] by {
        assert(held(c, k) && k != r);
        assert(y[k] == x[k]);
    }
    assert forall|k: int| #[trigger] held(bf, k) && !d.contains(k) implies held(e, k) && !(r <= k
        < r + 1) by {
        assert(held(c, k) && k != r);
    }
    assert(held(e, r));
    z
}

/// The comparisons that go back to `lt_n` and `eq_n`.
pub proof fn lemma_le_n(o: Bf, bf: Bf, x0: Cells, x: Cells, a: int, b: int, n: int) -> (y: Cells)
    requires
        works(o, bf, x0, x),
        operands(bf, a, b, n),
    ensures
        works(o, bf.le_n(a, b, n).0, x0, y),
        leaves(
            bf,
            bf.le_n(a, b, n).0,
            x,
            y,
            bf.le_n(a, b, n).1,
            1,
            bit(val(x, a, n) <= val(x, b, n)),
            blk(a, n).union(blk(b, n)),
        ),
{
    reveal(Bf::le_n);
    reveal(Bf::gt_n);
    let m = lemma_lt_n(o, bf, x0, x, b, a, n);
    let (c, g) = bf.lt_n(b, a, n);
    assert(blk(b, n).union(blk(a, n)) =~= blk(a, n).union(blk(b, n)));
    lemma_negated(
        o,
        bf,
        c,
        x0,
        x,
        m,
        g,
        val(x, b, n) < val(x, a, n),
        blk(a, n).union(blk(b, n)),
    )
}

/// `gt_n` gives a new cell with whether one number is greater than another.
pub proof fn lemma_gt_n(o: Bf, bf: Bf, x0: Cells, x: Cells, a: int, b: int, n: int) -> (y: Cells)
    requires
        works(o, bf, x0, x),
        operands(bf, a, b, n),
    ensures
        works(o, bf.gt_n(a, b, n).0, x0, y),
        leaves(
            bf,
            bf.gt_n(a, b, n).0,
            x,
            y,
            bf.gt_n(a, b, n).1,
            1,
            bit(val(x, a, n) > val(x, b, n)),
            blk(a, n).union(blk(b, n)),
        ),
{
    reveal(Bf::gt_n);
    assert(blk(b, n).union(blk(a, n)) =~= blk(a, n).union(blk(b, n)));
    lemma_lt_n(o, bf, x0, x, b, a, n)
}

/// `ge_n` gives a new cell with whether one number is at least another.
pub proof fn lemma_ge_n(o: Bf, bf: Bf, x0: Cells, x: Cells, a: int, b: int, n: int) -> (y: Cells)
    requires
        works(o, bf, x0, x),
        operands(bf, a, b, n),
    ensures
        works(o, bf.ge_n(a, b, n).0, x0, y),
        leaves(
            bf,
            bf.ge_n(a, b, n).0,
            x,
            y,
            bf.ge_n(a, b, n).1,
            1,
            bit(val(x, a, n) >= val(x, b, n)),
            blk(a, n).union(blk(b, n)),
        ),
{
    reveal(Bf::ge_n);
    let m = lemma_lt_n(o, bf, x0, x, a, b, n);
    let (c, l) = bf.lt_n(a, b, n);
    lemma_negated(
        o,
        bf,
        c,
        x0,
        x,
        m,
        l,
        val(x, a, n) < val(x, b, n),
        blk(a, n).union(blk(b, n)),
    )
}

/// `ne_n` gives a cell with whether two numbers differ.
pub proof fn lemma_ne_n(o: Bf, bf: Bf, x0: Cells, x: Cells, a: int, b: int, n: int) -> (y: Cells)
    requires
        works(o, bf, x0, x),
        operands(bf, a, b, n),
    ensures
        works(o, bf.ne_n(a, b, n).0, x0, y),
        leaves(
            bf,
            bf.ne_n(a, b, n).0,
            x,
            y,
            bf.ne_n(a, b, n).1,
            1,
            bit(val(x, a, n) != val(x, b, n)),
            blk(a, n).union(blk(b, n)),
        ),
{
    reveal(Bf::ne_n);
    let m = lemma_eq_n(o, bf, x0, x, a, b, n);
    let (c, e) = bf.eq_n(a, b, n);
    lemma_negated(
        o,
        bf,
        c,
        x0,
        x,
        m,
        e,
        val(x, a, n) == val(x, b, n),
        blk(a, n).union(blk(b, n)),
    )
}

/// `both_n` and `either_n` give a new cell with whether both numbers, or one of
/// them, are not 0.
pub proof fn lemma_logic_n(
    o: Bf,
    bf: Bf,
    x0: Cells,
    x: Cells,
    a: int,
    b: int,
    n: int,
    both: bool,
) -> (y: Cells)
    requires
        works(o, bf, x0, x),
        operands(bf, a, b, n),
    ensures
        ({
            let (c, r) = if both {
                bf.both_n(a, b, n)
            } else {
                bf.either_n(a, b, n)
            };
            let v = if both {
                bit(val(x, a, n) != 0 && val(x, b, n) != 0)
            } else {
                bit(val(x, a, n) != 0 || val(x, b, n) != 0)
            };
            &&& works(o, c, x0, y)
            &&& leaves(bf, c, x, y, r, 1, v, blk(a, n).union(blk(b, n)))
        }),
{
    broadcast use {
        works_clear,
        works_flag_if,
        works_flag_if_both,
        works_talloc,
        works_tfree,
        works_tfree_n,
        lemma_took,
    };

    reveal(Bf::both_n);
    reveal(Bf::either_n);
    lemma_works_bytes(o, bf, x0, x);
    assert(took(bf, bf.talloc().0, bf.talloc().1));
    let (b1, r) = bf.talloc();
    let b2 = b1.clear(r);
    let x2 = x.insert(r, 0);
    assert(works(o, b2, x0, x2));
    assert forall|k: int| a <= k < a + n implies #[trigger] held(b2, k) && k != r by {
        assert(held(bf, k));
    }
    assert forall|k: int| b <= k < b + n implies #[trigger] held(b2, k) && k != r by {
        assert(held(bf, k));
    }
    assert(held(b2, r) && held(b2, a) && held(b2, b));
    lemma_held_val(b2, x, x2, a, n);
    lemma_held_val(b2, x, x2, b, n);
    let x3 = lemma_is_nz_n(o, b2, x0, x2, a, n);
    let (b3, anz) = b2.is_nz_n(a, n);
    assert(!Set::<int>::empty().contains(r));
    assert forall|k: int| #[trigger] held(b2, k) implies held(b3, k) && k != anz by {
        assert(!Set::<int>::empty().contains(k));
    }
    assert forall|k: int| held(b2, k) implies #[trigger] x3[k] == x2[k] by {
        assert(!Set::<int>::empty().contains(k));
    }
    lemma_held_val(b2, x2, x3, b, n);
    assert forall|k: int| b <= k < b + n implies #[trigger] held(b3, k) by {
        assert(held(b2, k));
    }
    let x4 = lemma_is_nz_n(o, b3, x0, x3, b, n);
    let (b4, bnz) = b3.is_nz_n(b, n);
    assert forall|k: int| #[trigger] held(b3, k) implies held(b4, k) && k != bnz by {
        assert(!Set::<int>::empty().contains(k));
    }
    assert forall|k: int| held(b3, k) implies #[trigger] x4[k] == x3[k] by {
        assert(!Set::<int>::empty().contains(k));
    }
    assert(held(b3, anz) && held(b3, r));
    assert(held(b4, anz) && held(b4, r) && held(b4, bnz));
    assert(anz != r && bnz != r && anz != bnz);
    let (b5, y) = if both {
        (b4.flag_if_both(anz, bnz, r), flagged_both(x4, anz, bnz, r))
    } else {
        (b4.flag_if(anz, r).flag_if(bnz, r), flagged(flagged(x4, anz, r), bnz, r))
    };
    assert(works(o, b5, x0, y));
    assert(settled(b4, b5));
    lemma_freed(b5, anz);
    let b6 = b5.tfree(anz);
    assert(works(o, b6, x0, y));
    lemma_freed(b6, bnz);
    let b7 = b6.tfree(bnz);
    assert(works(o, b7, x0, y));
    lemma_freed_n(b7, a, n);
    lemma_freed_n(b7.tfree_n(a, n), b, n);
    let c = b7.tfree_n(a, n).tfree_n(b, n);
    assert(works(o, c, x0, y));
    assert(grown(b2, b7)) by {
        assert forall|k: int| #[trigger] held(b2, k) implies held(b7, k) by {
            assert(held(b3, k) && k != anz);
            assert(held(b4, k) && k != bnz);
            assert(held(b5, k));
            assert(held(b6, k));
        }
    }
    lemma_tail(bf, b2, b7, c, x, y, r, a, b, n);
    assert forall|k: int| held(bf, k) implies #[trigger] y[k] == x[k] by {
        assert(held(b2, k) && k != r);
        assert(held(b3, k) && k != anz);
        assert(held(b4, k) && k != bnz);
        assert(x4[k] == x3[k]);
        assert(x3[k] == x2[k]);
    }
    assert(x4[anz] == bit(val(x, a, n) != 0) && x4[bnz] == bit(val(x, b, n) != 0) && x4[r] == 0);
    y
}

} // verus!
