//! What the steps on blocks of cells do.

use vstd::prelude::*;

use crate::bfsc::effect::cells::{
    agree, all_free, held, lemma_fresh, roomy, settled, works_bfmove, works_copy,
};
use crate::bfsc::effect::steps::{works, works_clear, works_setv, Cells};
use crate::bfsc::emitter::{nth_byte_of, Bf};

verus! {

/// All cells of a block are in use.
pub open spec fn held_n(b: Bf, base: int, n: int) -> bool {
    forall|k: int| base <= k < base + n ==> #[trigger] held(b, k)
}

/// All cells of a block are temporary cells in use.
pub open spec fn lent_n(b: Bf, base: int, n: int) -> bool {
    base >= b.temp_base && held_n(b, base, n)
}

/// Two blocks have no cell in common.
pub open spec fn apart(p: int, m: int, q: int, n: int) -> bool {
    p + m <= q || q + n <= p
}

/// The cells in use grow by a block.
pub open spec fn took_n(b: Bf, c: Bf, r: int, n: int) -> bool {
    &&& c.temp_base == b.temp_base
    &&& roomy(c)
    &&& r >= b.temp_base
    &&& forall|k: int| #[trigger] held(c, k) <==> held(b, k) || r <= k < r + n
    &&& forall|k: int| r <= k < r + n ==> !#[trigger] held(b, k)
}

/// Taking a block.
pub proof fn lemma_took_n(b: Bf, n: int)
    requires
        roomy(b),
        n >= 0,
    ensures
        took_n(b, b.talloc_n(n).0, b.talloc_n(n).1, n),
{
    lemma_fresh(b, n);
    let (c, r) = b.talloc_n(n);
    assert forall|k: int| #[trigger] held(c, k) <==> held(b, k) || r <= k < r + n by {
        if r <= k < r + n {
            assert(!held(b, k) && held(c, k));
        }
    }
}

/// What stays in use when a block is given back.
pub proof fn lemma_freed_n(b: Bf, base: int, n: int)
    requires
        roomy(b),
        base >= b.temp_base,
    ensures
        roomy(b.tfree_n(base, n)),
        b.tfree_n(base, n).temp_base == b.temp_base,
        forall|k: int| #[trigger]
            held(b.tfree_n(base, n), k) <==> held(b, k) && !(base <= k < base + n),
{
    let d = b.tfree_n(base, n);
    let m = choose|m: int| all_free(b.used, m);
    assert(all_free(d.used, m));
}

/// The rounds of `copy_n`.
proof fn lemma_copy_rounds(o: Bf, b: Bf, x0: Cells, x: Cells, src: int, dst: int, n: int, i: int)
    -> (y: Cells)
    requires
        works(o, b, x0, x),
        roomy(b),
        0 <= i <= n,
        held_n(b, src, n),
        held_n(b, dst, n),
        apart(src, n, dst, n),
    ensures
        works(o, b.copy_n_rounds(src, dst, n, i), x0, y),
        settled(b, b.copy_n_rounds(src, dst, n, i)),
        forall|k: int|
            held(b, k) ==> #[trigger] y[k] == if dst + i <= k < dst + n {
                x[src + (k - dst)]
            } else {
                x[k]
            },
    decreases n - i,
{
    broadcast use works_copy;

    reveal(Bf::copy_n_rounds);
    if i < n {
        assert(held(b, src + i) && held(b, dst + i));
        let c = b.copy(src + i, dst + i);
        let m = choose|y: Cells| #[trigger]
            works(o, c, x0, y) && agree(b, x.insert(dst + i, x[src + i]), y);
        assert(settled(b, c));
        assert forall|k: int| src <= k < src + n implies #[trigger] held(c, k) by {
            assert(held(b, k));
        }
        assert forall|k: int| dst <= k < dst + n implies #[trigger] held(c, k) by {
            assert(held(b, k));
        }
        let y = lemma_copy_rounds(o, c, x0, m, src, dst, n, i + 1);
        assert forall|k: int| held(b, k) implies #[trigger] y[k] == if dst + i <= k < dst + n {
            x[src + (k - dst)]
        } else {
            x[k]
        } by {
            assert(held(c, k));
            assert(m[k] == x.insert(dst + i, x[src + i])[k]);
            if dst + i < k < dst + n {
                let p = src + (k - dst);
                assert(held(b, p));
                assert(m[p] == x.insert(dst + i, x[src + i])[p]);
            }
        }
        y
    } else {
        x
    }
}

/// `copy_n` copies a block.
pub proof fn lemma_copy_n(o: Bf, b: Bf, x0: Cells, x: Cells, src: int, dst: int, n: int) -> (y:
    Cells)
    requires
        works(o, b, x0, x),
        roomy(b),
        0 <= n,
        held_n(b, src, n),
        held_n(b, dst, n),
        apart(src, n, dst, n),
    ensures
        works(o, b.copy_n(src, dst, n), x0, y),
        settled(b, b.copy_n(src, dst, n)),
        forall|k: int|
            held(b, k) ==> #[trigger] y[k] == if dst <= k < dst + n {
                x[src + (k - dst)]
            } else {
                x[k]
            },
{
    reveal(Bf::copy_n);
    lemma_copy_rounds(o, b, x0, x, src, dst, n, 0)
}

/// The cells after a block has been moved, from its cell `i` on.
pub open spec fn moved(x: Cells, y: Cells, src: int, dst: int, n: int, i: int) -> bool {
    forall|k: int| #[trigger]
        y[k] == if dst + i <= k < dst + n {
            x[src + (k - dst)]
        } else if src + i <= k < src + n {
            0
        } else {
            x[k]
        }
}

/// The rounds of `bfmove_n`.
proof fn lemma_move_rounds(o: Bf, b: Bf, x0: Cells, x: Cells, src: int, dst: int, n: int, i: int)
    -> (y: Cells)
    requires
        works(o, b, x0, x),
        0 <= i <= n,
        apart(src, n, dst, n),
    ensures
        works(o, b.bfmove_n_rounds(src, dst, n, i), x0, y),
        settled(b, b.bfmove_n_rounds(src, dst, n, i)),
        moved(x, y, src, dst, n, i),
    decreases n - i,
{
    broadcast use works_bfmove;

    reveal(Bf::bfmove_n_rounds);
    if i < n {
        let c = b.bfmove(src + i, dst + i);
        let m = x.insert(dst + i, x[src + i]).insert(src + i, 0);
        assert(works(o, c, x0, m));
        let y = lemma_move_rounds(o, c, x0, m, src, dst, n, i + 1);
        assert forall|k: int| #[trigger]
            y[k] == if dst + i <= k < dst + n {
                x[src + (k - dst)]
            } else if src + i <= k < src + n {
                0
            } else {
                x[k]
            } by {}
        y
    } else {
        x
    }
}

/// `bfmove_n` moves a block.
pub proof fn lemma_bfmove_n(o: Bf, b: Bf, x0: Cells, x: Cells, src: int, dst: int, n: int) -> (y:
    Cells)
    requires
        works(o, b, x0, x),
        0 <= n,
        apart(src, n, dst, n),
    ensures
        works(o, b.bfmove_n(src, dst, n), x0, y),
        settled(b, b.bfmove_n(src, dst, n)),
        moved(x, y, src, dst, n, 0),
{
    reveal(Bf::bfmove_n);
    lemma_move_rounds(o, b, x0, x, src, dst, n, 0)
}

/// The cells after part of a block has been cleared.
pub open spec fn wiped(x: Cells, y: Cells, base: int, lo: int, hi: int) -> bool {
    forall|k: int| #[trigger]
        y[k] == if base + lo <= k < base + hi {
            0
        } else {
            x[k]
        }
}

/// `clear_range` clears part of a block.
pub proof fn lemma_clear_range(o: Bf, b: Bf, x0: Cells, x: Cells, base: int, lo: int, hi: int)
    -> (y: Cells)
    requires
        works(o, b, x0, x),
    ensures
        works(o, b.clear_range(base, lo, hi), x0, y),
        settled(b, b.clear_range(base, lo, hi)),
        wiped(x, y, base, lo, hi),
{
    reveal(Bf::clear_range);
    lemma_clear_rounds(o, b, x0, x, base, hi, lo)
}

/// The rounds of `clear_range`.
proof fn lemma_clear_rounds(o: Bf, b: Bf, x0: Cells, x: Cells, base: int, hi: int, i: int) -> (y:
    Cells)
    requires
        works(o, b, x0, x),
    ensures
        works(o, b.clear_range_rounds(base, hi, i), x0, y),
        settled(b, b.clear_range_rounds(base, hi, i)),
        wiped(x, y, base, i, hi),
    decreases hi - i,
{
    broadcast use works_clear;

    reveal(Bf::clear_range_rounds);
    if i < hi {
        let c = b.clear(base + i);
        let m = x.insert(base + i, 0);
        assert(works(o, c, x0, m));
        let y = lemma_clear_rounds(o, c, x0, m, base, hi, i + 1);
        assert forall|k: int| #[trigger]
            y[k] == if base + i <= k < base + hi {
                0
            } else {
                x[k]
            } by {}
        y
    } else {
        x
    }
}

/// The cells after a block has been set to the bytes of a number, from byte `i`
/// on.
pub open spec fn holds_bytes(x: Cells, y: Cells, base: int, v: int, n: int, i: int) -> bool {
    forall|k: int| #[trigger]
        y[k] == if base + i <= k < base + n {
            nth_byte_of(v, k - base)
        } else {
            x[k]
        }
}

/// `set_const_n` sets a block to the bytes of a number.
pub proof fn lemma_set_const_n(o: Bf, b: Bf, x0: Cells, x: Cells, base: int, v: int, n: int) -> (y:
    Cells)
    requires
        works(o, b, x0, x),
        n >= 0,
    ensures
        works(o, b.set_const_n(base, v, n), x0, y),
        settled(b, b.set_const_n(base, v, n)),
        holds_bytes(x, y, base, v, n, 0),
{
    lemma_set_rounds(o, b, x0, x, base, v, n, 0)
}

/// The rounds of `set_const_n`.
proof fn lemma_set_rounds(o: Bf, b: Bf, x0: Cells, x: Cells, base: int, v: int, n: int, i: int)
    -> (y: Cells)
    requires
        works(o, b, x0, x),
        i >= 0,
    ensures
        works(o, b.set_bytes(base, v, n, i), x0, y),
        settled(b, b.set_bytes(base, v, n, i)),
        holds_bytes(x, y, base, v, n, i),
    decreases n - i,
{
    broadcast use works_setv;

    if i < n {
        let c = b.setv(base + i, nth_byte_of(v, i));
        let m = x.insert(base + i, nth_byte_of(v, i));
        assert(works(o, c, x0, m));
        let y = lemma_set_rounds(o, c, x0, m, base, v, n, i + 1);
        assert forall|k: int| #[trigger]
            y[k] == if base + i <= k < base + n {
                nth_byte_of(v, k - base)
            } else {
                x[k]
            } by {}
        y
    } else {
        x
    }
}

} // verus!
