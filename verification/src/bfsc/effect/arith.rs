//! What the arithmetic on one, two and four cells does.

use vstd::prelude::*;

use crate::bfsc::effect::blocks::{apart, held_n, holds_bytes, lemma_freed_n, lent_n};
use crate::bfsc::effect::cells::{
    agree, bit, held, roomy, settled, took, works_add_to, works_copy, works_sub_from,
};
use crate::bfsc::effect::compare::{grown, lemma_byte_gt, lemma_dec_if, lemma_freed, lemma_took};
use crate::bfsc::effect::wide::{four, lemma_wide_sum};
use crate::bfsc::effect::steps::{
    bytes, lemma_works_bytes, lemma_works_then, plus, works, works_talloc, works_tfree, works_tfree_n,
    Cells,
};
use crate::bfsc::emitter::{nth_byte_of, Bf};

verus! {

/// Whether a number can take so many cells.
pub open spec fn word(n: int) -> bool {
    n == 1 || n == 2 || n == 4
}

/// The number that one, two or four cells hold, low byte first.
pub open spec fn val(x: Cells, base: int, n: int) -> int {
    if n == 1 {
        x[base]
    } else if n == 2 {
        x[base] + 256 * x[base + 1]
    } else {
        four(x[base], x[base + 1], x[base + 2], x[base + 3])
    }
}

/// How many numbers one, two or four cells can hold.
pub open spec fn size(n: int) -> int {
    if n == 1 {
        256
    } else if n == 2 {
        65536
    } else {
        0x1_0000_0000
    }
}

/// Whether the cells of a block hold the same.
pub open spec fn same_in(x: Cells, y: Cells, base: int, n: int) -> bool {
    forall|k: int| base <= k < base + n ==> #[trigger] y[k] == x[k]
}

/// The same cells hold the same number.
pub proof fn lemma_same_val(x: Cells, y: Cells, base: int, n: int)
    requires
        word(n),
        same_in(x, y, base, n),
    ensures
        val(y, base, n) == val(x, base, n),
{
    assert(y[base] == x[base]);
    if n >= 2 {
        assert(y[base + 1] == x[base + 1]);
    }
    if n == 4 {
        assert(y[base + 2] == x[base + 2]);
        assert(y[base + 3] == x[base + 3]);
    }
}

/// The number in a block that is in use does not change where the cells in use
/// do not.
pub proof fn lemma_held_val(b: Bf, x: Cells, y: Cells, base: int, n: int)
    requires
        word(n),
        held_n(b, base, n),
        forall|k: int| base <= k < base + n && held(b, k) ==> #[trigger] y[k] == x[k],
    ensures
        val(y, base, n) == val(x, base, n),
{
    assert forall|k: int| base <= k < base + n implies #[trigger] y[k] == x[k] by {
        assert(held(b, k));
    }
    lemma_same_val(x, y, base, n);
}

/// A copy of a block holds its number.
pub proof fn lemma_copied_val(b: Bf, x: Cells, y: Cells, src: int, dst: int, n: int)
    requires
        word(n),
        held_n(b, dst, n),
        forall|k: int|
            dst <= k < dst + n && held(b, k) ==> #[trigger] y[k] == x[src + (k - dst)],
    ensures
        val(y, dst, n) == val(x, src, n),
{
    assert(held(b, dst));
    assert(y[dst] == x[src + (dst - dst)]);
    if n >= 2 {
        assert(held(b, dst + 1));
        assert(y[dst + 1] == x[src + (dst + 1 - dst)]);
    }
    if n == 4 {
        assert(held(b, dst + 2) && held(b, dst + 3));
        assert(y[dst + 2] == x[src + (dst + 2 - dst)]);
        assert(y[dst + 3] == x[src + (dst + 3 - dst)]);
    }
}

/// A block of the bytes of a number holds it.
pub proof fn lemma_const_val(x: Cells, y: Cells, base: int, v: int, n: int)
    requires
        word(n),
        0 <= v < size(n),
        holds_bytes(x, y, base, v, n, 0),
    ensures
        val(y, base, n) == v,
{
    assert(y[base] == nth_byte_of(v, base - base));
    if n >= 2 {
        assert(y[base + 1] == nth_byte_of(v, base + 1 - base));
    }
    if n == 4 {
        assert(y[base + 2] == nth_byte_of(v, base + 2 - base));
        assert(y[base + 3] == nth_byte_of(v, base + 3 - base));
        let a = v / 0x100;
        let b = v / 0x1_0000;
        let c = v / 0x100_0000;
        assert(b == a / 256 && c == b / 256 && c < 256);
        assert(v == v % 256 + 256 * a);
        assert(a == a % 256 + 256 * b);
        assert(b == b % 256 + 256 * c);
    }
}

/// A block of zeros holds 0.
pub proof fn lemma_zero_val(x: Cells, base: int, n: int)
    requires
        word(n),
        forall|k: int| base <= k < base + n ==> #[trigger] x[k] == 0,
    ensures
        val(x, base, n) == 0,
{
    assert(x[base] == 0);
    if n >= 2 {
        assert(x[base + 1] == 0);
    }
    if n == 4 {
        assert(x[base + 2] == 0 && x[base + 3] == 0);
    }
}

/// The number in a block is not negative and below [`size`], and 0 only where all
/// its bytes are.
pub proof fn lemma_bytes_val(x: Cells, base: int, n: int)
    requires
        word(n),
        bytes(x),
    ensures
        0 <= val(x, base, n) < size(n),
        x[base] > 0 ==> val(x, base, n) > 0,
{
    assert(x.dom().contains(base) && x.dom().contains(base + 1));
    assert(x.dom().contains(base + 2) && x.dom().contains(base + 3));
}

/// The low bytes of a block hold the remainder of its number.
pub proof fn lemma_low_val(x: Cells, base: int, n: int, w: int)
    requires
        word(n),
        word(w),
        w <= n,
        bytes(x),
    ensures
        val(x, base, w) == val(x, base, n) % size(w),
{
    lemma_bytes_val(x, base, w);
    assert(x.dom().contains(base) && x.dom().contains(base + 1));
    assert(x.dom().contains(base + 2) && x.dom().contains(base + 3));
    if w == n {
        vstd::arithmetic::div_mod::lemma_small_mod(val(x, base, n) as nat, size(w) as nat);
    } else if n == 4 {
        assert(val(x, base, 4) == x[base] + 256 * x[base + 1] + 65536 * (x[base + 2] + 256 * x[base
            + 3]));
        assert(val(x, base, 4) == x[base] + 256 * (x[base + 1] + 256 * x[base + 2] + 65536 * x[base
            + 3]));
    }
}

/// The cells of a block.
pub open spec fn blk(base: int, n: int) -> Set<int> {
    Set::new(|k: int| base <= k < base + n)
}

/// A step that consumes the cells `d` leaves the number `v` in the block at `r`;
/// every other cell that was in use still is, and holds what it held.
pub open spec fn leaves(
    b: Bf,
    c: Bf,
    x: Cells,
    y: Cells,
    r: int,
    w: int,
    v: int,
    d: Set<int>,
) -> bool {
    &&& c.temp_base == b.temp_base
    &&& roomy(c)
    &&& lent_n(c, r, w)
    &&& val(y, r, w) == v
    &&& forall|k: int| #[trigger]
        held(b, k) && !d.contains(k) ==> held(c, k) && !(r <= k < r + w)
    &&& forall|k: int| held(b, k) && !d.contains(k) ==> #[trigger] y[k] == x[k]
}

/// Whether two operands can be combined: blocks of as many temporary cells
/// each.
pub open spec fn operands(b: Bf, p: int, q: int, n: int) -> bool {
    &&& word(n)
    &&& roomy(b)
    &&& lent_n(b, p, n)
    &&& lent_n(b, q, n)
    &&& apart(p, n, q, n)
}

/// Whether a number can be added to another one: blocks of as many cells in
/// use each, those of the second temporary cells.
pub open spec fn addends(b: Bf, p: int, q: int, n: int) -> bool {
    &&& word(n)
    &&& roomy(b)
    &&& held_n(b, p, n)
    &&& lent_n(b, q, n)
    &&& apart(p, n, q, n)
}

/// Adding a byte at the low end of a block of two, with its carry.
proof fn lemma_add_low(o: Bf, bf: Bf, x0: Cells, x: Cells, dst: int, src: int) -> (y: Cells)
    requires
        works(o, bf, x0, x),
        addends(bf, dst, src, 2),
    ensures
        works(o, bf.add_byte(dst, src, 2, 0), x0, y),
        grown(bf, bf.add_byte(dst, src, 2, 0)),
        y[dst] == (x[dst] + x[src]) % 256,
        y[dst + 1] == (x[dst + 1] + bit(x[dst] + x[src] >= 256)) % 256,
        forall|k: int|
            held(bf, k) && k != dst && k != dst + 1 && k != src ==> #[trigger] y[k] == x[k],
{
    broadcast use {works_copy, works_add_to, works_talloc, works_tfree, lemma_took};

    reveal(Bf::add_byte);
    lemma_works_bytes(o, bf, x0, x);
    assert(x.dom().contains(dst) && x.dom().contains(src) && x.dom().contains(dst + 1));
    assert(held(bf, dst) && held(bf, src) && held(bf, dst + 1) && held(bf, src + 1));
    assert(took(bf, bf.talloc().0, bf.talloc().1));
    let (b1, orig) = bf.talloc();
    let b2 = b1.copy(dst + 0, orig);
    let x2 = choose|y: Cells| #[trigger]
        works(o, b2, x0, y) && agree(b1, x.insert(orig, x[dst]), y);
    assert(held(b1, dst) && held(b1, orig) && held(b1, src) && held(b1, dst + 1));
    assert(x2[dst] == x[dst] && x2[orig] == x[dst] && x2[src] == x[src] && x2[dst + 1] == x[dst
        + 1]);
    let b3 = b2.add_to(src + 0, dst + 0);
    let x3 = plus(x2, dst, x2[src]).insert(src, 0);
    assert(works(o, b3, x0, x3));
    assert(took(b3, b3.talloc().0, b3.talloc().1));
    let (b4, rc) = b3.talloc();
    assert(held(b4, dst) && held(b4, rc) && held(b4, orig) && held(b4, dst + 1));
    let b5 = b4.copy(dst + 0, rc);
    let x5 = choose|y: Cells| #[trigger]
        works(o, b5, x0, y) && agree(b4, x3.insert(rc, x3[dst]), y);
    assert(x5[orig] == x[dst] && x5[rc] == x3[dst] && x5[dst + 1] == x[dst + 1]);
    assert(x5[dst] == x3[dst]);
    let x6 = lemma_byte_gt(o, b5, x0, x5, orig, rc);
    let (b6, carry) = b5.byte_gt(orig, rc);
    assert(x6[carry] == bit(x[dst] + x[src] >= 256));
    assert(held(b5, dst + 1) && held(b5, dst) && carry != dst + 1 && carry != dst);
    assert(x6[dst] == x5[dst] && x6[dst + 1] == x5[dst + 1]);
    let b7 = b6.add_to(carry, dst + 0 + 1);
    let y = plus(x6, dst + 1, x6[carry]).insert(carry, 0);
    assert(works(o, b7, x0, y));
    lemma_freed(b7, carry);
    let c = b7.tfree(carry);
    assert(c == bf.add_byte(dst, src, 2, 0));
    assert(works(o, c, x0, y));
    assert forall|k: int|
        held(bf, k) && k != dst && k != dst + 1 && k != src implies #[trigger] y[k] == x[k] by {
        assert(held(b1, k) && k != orig);
        assert(x2[k] == x.insert(orig, x[dst])[k]);
        assert(held(b4, k) && k != rc);
        assert(x5[k] == x3.insert(rc, x3[dst])[k]);
        assert(held(b5, k));
        assert(x6[k] == x5[k]);
        assert(k != carry);
    }
    assert forall|k: int| #[trigger] held(bf, k) implies held(c, k) by {
        assert(held(b1, k) && k != orig);
        assert(held(b3, k));
        assert(held(b4, k) && k != rc);
        assert(held(b5, k));
        assert(held(b6, k) && k != carry);
        assert(held(b7, k));
    }
    y
}

/// Adding a byte at the high end of a block.
proof fn lemma_add_high(o: Bf, bf: Bf, x0: Cells, x: Cells, dst: int, src: int) -> (y: Cells)
    requires
        works(o, bf, x0, x),
        addends(bf, dst, src, 2),
    ensures
        works(o, bf.add_byte(dst, src, 2, 1), x0, y),
        settled(bf, bf.add_byte(dst, src, 2, 1)),
        y[dst + 1] == (x[dst + 1] + x[src + 1]) % 256,
        forall|k: int|
            held(bf, k) && k != dst + 1 && k != src + 1 ==> #[trigger] y[k] == x[k],
{
    broadcast use {works_copy, works_add_to, works_talloc, works_tfree, lemma_took};

    reveal(Bf::add_byte);
    lemma_works_bytes(o, bf, x0, x);
    assert(x.dom().contains(dst + 1) && x.dom().contains(src + 1));
    assert(held(bf, dst + 1) && held(bf, src + 1));
    assert(took(bf, bf.talloc().0, bf.talloc().1));
    let (b1, orig) = bf.talloc();
    assert(held(b1, dst + 1) && held(b1, orig) && held(b1, src + 1));
    let b2 = b1.copy(dst + 1, orig);
    let x2 = choose|y: Cells| #[trigger]
        works(o, b2, x0, y) && agree(b1, x.insert(orig, x[dst + 1]), y);
    assert(x2[dst + 1] == x[dst + 1] && x2[src + 1] == x[src + 1]);
    let b3 = b2.add_to(src + 1, dst + 1);
    let y = plus(x2, dst + 1, x2[src + 1]).insert(src + 1, 0);
    assert(works(o, b3, x0, y));
    let c = b3.tfree(orig);
    assert(c == bf.add_byte(dst, src, 2, 1));
    assert(works(o, c, x0, y));
    crate::bfsc::effect::cells::lemma_give_back(bf, b3);
    assert forall|k: int|
        held(bf, k) && k != dst + 1 && k != src + 1 implies #[trigger] y[k] == x[k] by {
        assert(held(b1, k) && k != orig);
        assert(x2[k] == x.insert(orig, x[dst + 1])[k]);
    }
    y
}

/// Two bytes of a sum.
proof fn lemma_sum(a0: int, a1: int, b0: int, b1: int)
    requires
        0 <= a0 < 256,
        0 <= a1 < 256,
        0 <= b0 < 256,
        0 <= b1 < 256,
    ensures
        (a0 + b0) % 256 + 256 * (((a1 + bit(a0 + b0 >= 256)) % 256 + b1) % 256) == (a0 + 256 * a1
            + (b0 + 256 * b1)) % 65536,
{
    let c = bit(a0 + b0 >= 256);
    let low = (a0 + b0) % 256;
    assert(a0 + b0 == low + 256 * c);
    let h = a1 + c + b1;
    assert(((a1 + c) % 256 + b1) % 256 == h % 256) by {
        vstd::arithmetic::div_mod::lemma_add_mod_noop_right(b1, a1 + c, 256);
    }
    let t = a0 + 256 * a1 + (b0 + 256 * b1);
    assert(t == low + 256 * h);
    assert(h == 256 * (h / 256) + h % 256);
    assert(t == 65536 * (h / 256) + (low + 256 * (h % 256)));
    assert(0 <= low + 256 * (h % 256) < 65536);
    vstd::arithmetic::div_mod::lemma_fundamental_div_mod_converse(
        t,
        65536,
        h / 256,
        low + 256 * (h % 256),
    );
}

/// `add_n` adds one number to another, wrapping.
pub proof fn lemma_add_n(o: Bf, bf: Bf, x0: Cells, x: Cells, dst: int, src: int, n: int) -> (y:
    Cells)
    requires
        works(o, bf, x0, x),
        addends(bf, dst, src, n),
    ensures
        works(o, bf.add_n(dst, src, n), x0, y),
        grown_but(bf, bf.add_n(dst, src, n), blk(src, n)),
        val(y, dst, n) == (val(x, dst, n) + val(x, src, n)) % size(n),
        0 <= val(y, dst, n) < size(n),
        forall|k: int|
            held(bf, k) && !(dst <= k < dst + n) && !(src <= k < src + n) ==> #[trigger] y[k]
                == x[k],
{
    broadcast use {works_add_to, works_tfree, works_tfree_n};

    reveal(Bf::add_n);
    lemma_works_bytes(o, bf, x0, x);
    if n == 1 {
        assert(held(bf, dst) && held(bf, src));
        let y = plus(x, dst, x[src]).insert(src, 0);
        let b1 = bf.add_to(src, dst);
        assert(works(o, b1, x0, y));
        lemma_freed(b1, src);
        assert(works(o, b1.tfree(src), x0, y));
        y
    } else if n == 4 {
        let y = lemma_wide_sum(o, bf, x0, x, dst, src, false);
        let c = bf.add_n(dst, src, 4);
        assert forall|k: int| #[trigger] held(bf, k) && !blk(src, n).contains(k) implies held(
            c,
            k,
        ) by {
            assert(!(src <= k < src + 4));
        }
        y
    } else {
        reveal(Bf::addb);
        reveal_with_fuel(Bf::addb_rounds, 3);
        let x1 = lemma_add_low(o, bf, x0, x, dst, src);
        let b1 = bf.add_byte(dst, src, 2, 0);
        assert(held(bf, dst) && held(bf, src) && held(bf, dst + 1) && held(bf, src + 1));
        assert forall|k: int| dst <= k < dst + 2 implies #[trigger] held(b1, k) by {
            assert(held(bf, k));
        }
        assert forall|k: int| src <= k < src + 2 implies #[trigger] held(b1, k) by {
            assert(held(bf, k));
        }
        let y = lemma_add_high(o, b1, x0, x1, dst, src);
        let b2 = b1.add_byte(dst, src, 2, 1);
        assert(x1[src + 1] == x[src + 1]);
        assert(y[dst] == x1[dst]);
        assert(x.dom().contains(dst) && x.dom().contains(src) && x.dom().contains(dst + 1)
            && x.dom().contains(src + 1));
        lemma_sum(x[dst], x[dst + 1], x[src], x[src + 1]);
        lemma_freed_n(b2, src, 2);
        let c = b2.tfree_n(src, 2);
        assert(c == bf.add_n(dst, src, 2));
        assert(works(o, c, x0, y));
        assert forall|k: int|
            held(bf, k) && !(dst <= k < dst + n) && !(src <= k < src + n) implies #[trigger] y[k]
            == x[k] by {
            assert(held(b1, k));
            assert(x1[k] == x[k]);
        }
        assert forall|k: int| #[trigger] held(bf, k) && !blk(src, n).contains(k) implies held(
            c,
            k,
        ) by {
            assert(held(b1, k));
            assert(held(b2, k));
        }
        y
    }
}

/// Subtracting a byte at the low end of a block of two, with its borrow.
proof fn lemma_sub_low(o: Bf, bf: Bf, x0: Cells, x: Cells, dst: int, src: int) -> (y: Cells)
    requires
        works(o, bf, x0, x),
        operands(bf, dst, src, 2),
    ensures
        works(o, bf.sub_byte(dst, src, 2, 0), x0, y),
        grown(bf, bf.sub_byte(dst, src, 2, 0)),
        y[dst] == (x[dst] - x[src]) % 256,
        y[dst + 1] == (x[dst + 1] - bit(x[dst] < x[src])) % 256,
        forall|k: int|
            held(bf, k) && k != dst && k != dst + 1 && k != src ==> #[trigger] y[k] == x[k],
{
    broadcast use {works_copy, works_sub_from, works_talloc, works_tfree, lemma_took};

    reveal(Bf::sub_byte);
    lemma_works_bytes(o, bf, x0, x);
    assert(x.dom().contains(dst) && x.dom().contains(src) && x.dom().contains(dst + 1));
    assert(held(bf, dst) && held(bf, src) && held(bf, dst + 1) && held(bf, src + 1));
    assert(took(bf, bf.talloc().0, bf.talloc().1));
    let (b1, orig) = bf.talloc();
    let b2 = b1.copy(dst + 0, orig);
    let x2 = choose|y: Cells| #[trigger]
        works(o, b2, x0, y) && agree(b1, x.insert(orig, x[dst]), y);
    assert(held(b1, dst) && held(b1, orig) && held(b1, src) && held(b1, dst + 1));
    assert(x2[dst] == x[dst] && x2[orig] == x[dst] && x2[src] == x[src] && x2[dst + 1] == x[dst
        + 1]);
    let b3 = b2.sub_from(src + 0, dst + 0);
    let x3 = plus(x2, dst, -x2[src]).insert(src, 0);
    assert(works(o, b3, x0, x3));
    assert(took(b3, b3.talloc().0, b3.talloc().1));
    let (b4, rc) = b3.talloc();
    assert(held(b4, dst) && held(b4, rc) && held(b4, orig) && held(b4, dst + 1));
    let b5 = b4.copy(dst + 0, rc);
    let x5 = choose|y: Cells| #[trigger]
        works(o, b5, x0, y) && agree(b4, x3.insert(rc, x3[dst]), y);
    assert(x5[orig] == x[dst] && x5[rc] == x3[dst] && x5[dst + 1] == x[dst + 1]);
    assert(x5[dst] == x3[dst]);
    let x6 = lemma_byte_gt(o, b5, x0, x5, rc, orig);
    let (b6, borrow) = b5.byte_gt(rc, orig);
    assert(x6[borrow] == bit(x[dst] < x[src]));
    assert(held(b5, dst + 1) && held(b5, dst) && borrow != dst + 1 && borrow != dst);
    assert(x6[dst] == x5[dst] && x6[dst + 1] == x5[dst + 1]);
    lemma_works_bytes(o, b6, x0, x6);
    lemma_dec_if(b6, x6, borrow, dst + 1);
    let c = b6.goto(borrow).raw("["@).dec(dst + 0 + 1, 1).clear(borrow).goto(borrow).raw("]"@);
    let y = if x6[borrow] != 0 {
        plus(x6, dst + 1, -1).insert(borrow, 0)
    } else {
        x6
    };
    assert(c == bf.sub_byte(dst, src, 2, 0));
    lemma_works_then(o, b6, c, x0, x6, y);
    assert(x6.dom().contains(dst + 1));
    assert forall|k: int|
        held(bf, k) && k != dst && k != dst + 1 && k != src implies #[trigger] y[k] == x[k] by {
        assert(held(b1, k) && k != orig);
        assert(x2[k] == x.insert(orig, x[dst])[k]);
        assert(held(b4, k) && k != rc);
        assert(x5[k] == x3.insert(rc, x3[dst])[k]);
        assert(held(b5, k));
        assert(x6[k] == x5[k]);
        assert(k != borrow);
    }
    assert forall|k: int| #[trigger] held(bf, k) implies held(c, k) by {
        assert(held(b1, k) && k != orig);
        assert(held(b3, k));
        assert(held(b4, k) && k != rc);
        assert(held(b5, k));
        assert(held(b6, k));
    }
    y
}

/// Subtracting a byte at the high end of a block.
proof fn lemma_sub_high(o: Bf, bf: Bf, x0: Cells, x: Cells, dst: int, src: int) -> (y: Cells)
    requires
        works(o, bf, x0, x),
        operands(bf, dst, src, 2),
    ensures
        works(o, bf.sub_byte(dst, src, 2, 1), x0, y),
        settled(bf, bf.sub_byte(dst, src, 2, 1)),
        y[dst + 1] == (x[dst + 1] - x[src + 1]) % 256,
        forall|k: int|
            held(bf, k) && k != dst + 1 && k != src + 1 ==> #[trigger] y[k] == x[k],
{
    broadcast use {works_copy, works_sub_from, works_talloc, works_tfree, lemma_took};

    reveal(Bf::sub_byte);
    lemma_works_bytes(o, bf, x0, x);
    assert(x.dom().contains(dst + 1) && x.dom().contains(src + 1));
    assert(held(bf, dst + 1) && held(bf, src + 1));
    assert(took(bf, bf.talloc().0, bf.talloc().1));
    let (b1, orig) = bf.talloc();
    assert(held(b1, dst + 1) && held(b1, orig) && held(b1, src + 1));
    let b2 = b1.copy(dst + 1, orig);
    let x2 = choose|y: Cells| #[trigger]
        works(o, b2, x0, y) && agree(b1, x.insert(orig, x[dst + 1]), y);
    assert(x2[dst + 1] == x[dst + 1] && x2[src + 1] == x[src + 1]);
    let b3 = b2.sub_from(src + 1, dst + 1);
    let y = plus(x2, dst + 1, -x2[src + 1]).insert(src + 1, 0);
    assert(works(o, b3, x0, y));
    let c = b3.tfree(orig);
    assert(c == bf.sub_byte(dst, src, 2, 1));
    assert(works(o, c, x0, y));
    crate::bfsc::effect::cells::lemma_give_back(bf, b3);
    assert forall|k: int|
        held(bf, k) && k != dst + 1 && k != src + 1 implies #[trigger] y[k] == x[k] by {
        assert(held(b1, k) && k != orig);
        assert(x2[k] == x.insert(orig, x[dst + 1])[k]);
    }
    y
}

/// Two bytes of a difference.
proof fn lemma_difference(a0: int, a1: int, b0: int, b1: int)
    requires
        0 <= a0 < 256,
        0 <= a1 < 256,
        0 <= b0 < 256,
        0 <= b1 < 256,
    ensures
        (a0 - b0) % 256 + 256 * (((a1 - bit(a0 < b0)) % 256 - b1) % 256) == (a0 + 256 * a1 - (b0
            + 256 * b1)) % 65536,
{
    let c = bit(a0 < b0);
    let low = (a0 - b0) % 256;
    assert(a0 - b0 == low - 256 * c);
    let h = a1 - c - b1;
    assert(((a1 - c) % 256 - b1) % 256 == h % 256) by {
        vstd::arithmetic::div_mod::lemma_add_mod_noop_right(-b1, a1 - c, 256);
    }
    let t = a0 + 256 * a1 - (b0 + 256 * b1);
    assert(t == low + 256 * h);
    assert(h == 256 * (h / 256) + h % 256);
    assert(t == 65536 * (h / 256) + (low + 256 * (h % 256)));
    assert(0 <= low + 256 * (h % 256) < 65536);
    vstd::arithmetic::div_mod::lemma_fundamental_div_mod_converse(
        t,
        65536,
        h / 256,
        low + 256 * (h % 256),
    );
}

/// `sub_n` subtracts one number from another, wrapping.
pub proof fn lemma_sub_n(o: Bf, bf: Bf, x0: Cells, x: Cells, dst: int, src: int, n: int) -> (y:
    Cells)
    requires
        works(o, bf, x0, x),
        operands(bf, dst, src, n),
    ensures
        works(o, bf.sub_n(dst, src, n), x0, y),
        grown_but(bf, bf.sub_n(dst, src, n), blk(src, n)),
        val(y, dst, n) == (val(x, dst, n) - val(x, src, n)) % size(n),
        0 <= val(y, dst, n) < size(n),
        forall|k: int|
            held(bf, k) && !(dst <= k < dst + n) && !(src <= k < src + n) ==> #[trigger] y[k]
                == x[k],
{
    broadcast use {works_sub_from, works_tfree, works_tfree_n};

    reveal(Bf::sub_n);
    lemma_works_bytes(o, bf, x0, x);
    if n == 1 {
        assert(held(bf, dst) && held(bf, src));
        let y = plus(x, dst, -x[src]).insert(src, 0);
        let b1 = bf.sub_from(src, dst);
        assert(works(o, b1, x0, y));
        lemma_freed(b1, src);
        assert(works(o, b1.tfree(src), x0, y));
        y
    } else if n == 4 {
        let y = lemma_wide_sum(o, bf, x0, x, dst, src, true);
        let c = bf.sub_n(dst, src, 4);
        assert forall|k: int| #[trigger] held(bf, k) && !blk(src, n).contains(k) implies held(
            c,
            k,
        ) by {
            assert(!(src <= k < src + 4));
        }
        y
    } else {
        reveal(Bf::subb);
        reveal_with_fuel(Bf::subb_rounds, 3);
        let x1 = lemma_sub_low(o, bf, x0, x, dst, src);
        let b1 = bf.sub_byte(dst, src, 2, 0);
        assert(held(bf, dst) && held(bf, src) && held(bf, dst + 1) && held(bf, src + 1));
        assert forall|k: int| dst <= k < dst + 2 implies #[trigger] held(b1, k) by {
            assert(held(bf, k));
        }
        assert forall|k: int| src <= k < src + 2 implies #[trigger] held(b1, k) by {
            assert(held(bf, k));
        }
        let y = lemma_sub_high(o, b1, x0, x1, dst, src);
        let b2 = b1.sub_byte(dst, src, 2, 1);
        assert(x1[src + 1] == x[src + 1]);
        assert(y[dst] == x1[dst]);
        assert(x.dom().contains(dst) && x.dom().contains(src) && x.dom().contains(dst + 1)
            && x.dom().contains(src + 1));
        lemma_difference(x[dst], x[dst + 1], x[src], x[src + 1]);
        lemma_freed_n(b2, src, 2);
        let c = b2.tfree_n(src, 2);
        assert(c == bf.sub_n(dst, src, 2));
        assert(works(o, c, x0, y));
        assert forall|k: int|
            held(bf, k) && !(dst <= k < dst + n) && !(src <= k < src + n) implies #[trigger] y[k]
            == x[k] by {
            assert(held(b1, k));
            assert(x1[k] == x[k]);
        }
        assert forall|k: int| #[trigger] held(bf, k) && !blk(src, n).contains(k) implies held(
            c,
            k,
        ) by {
            assert(held(b1, k));
            assert(held(b2, k));
        }
        y
    }
}

/// Every cell in use but those of `d` stays in use.
pub open spec fn grown_but(b: Bf, c: Bf, d: Set<int>) -> bool {
    &&& c.temp_base == b.temp_base
    &&& roomy(c)
    &&& forall|k: int| #[trigger] held(b, k) && !d.contains(k) ==> held(c, k)
}

} // verus!
