//! Arrays in chunks as variables.

use vstd::prelude::*;

use crate::bfsc::effect::arith::{blk, leaves, val, word};
use crate::bfsc::effect::blocks::{held_n, lemma_clear_range, lemma_freed_n, lent_n, took_n};
use crate::bfsc::effect::cells::{agree, held, roomy, settled, took, works_bfmove};
use crate::bfsc::effect::chunks::{
    all_tidy, chunk, element, holds_element, idle, lemma_read_chunks, lemma_write_chunks, outside, spot,
    tidy,
};
use crate::bfsc::effect::compare::{grown, lemma_freed, lemma_took};
use crate::bfsc::effect::elements::place;
use crate::bfsc::effect::expr::lemma_leaves_agree;
use crate::bfsc::effect::steps::{
    lemma_works_bytes, works, works_talloc, works_tfree_n, Cells,
};
use crate::bfsc::emitter::Bf;

verus! {

/// Number of chunks for `n` elements.
pub open spec fn chunks(n: int) -> int {
    (n + 255) / 256
}

/// Number of cells of an array.
pub open spec fn room(far: bool, w: int, n: int) -> int {
    if far {
        1029 * chunks(n)
    } else {
        place(0, w, n)
    }
}

/// The first cell of an element.
pub open spec fn slot(far: bool, base: int, w: int, i: int) -> int {
    if far {
        element(base, i / 256, i % 256)
    } else {
        place(base, w, i)
    }
}

/// An element lies inside its array.
pub proof fn lemma_slot_inside(far: bool, base: int, w: int, n: int, i: int)
    requires
        word(w),
        far ==> w == 1,
        0 <= i < n,
    ensures
        base <= slot(far, base, w, i),
        slot(far, base, w, i) + w <= base + room(far, w, n),
        far ==> 0 <= i / 256 < chunks(n) && 0 <= i % 256 < 256,
{
}

/// Elements lie apart.
pub proof fn lemma_slots_apart(far: bool, base: int, w: int, i: int, j: int)
    requires
        word(w),
        far ==> w == 1,
        0 <= i,
        0 <= j,
        i != j,
    ensures
        slot(far, base, w, i) + w <= slot(far, base, w, j) || slot(far, base, w, j) + w <= slot(
            far,
            base,
            w,
            i,
        ),
{
    if far {
        let (a, b) = (i / 256, i % 256);
        let (c, d) = (j / 256, j % 256);
        assert(i == 256 * a + b && j == 256 * c + d);
        assert(0 <= b < 256 && 0 <= d < 256);
        assert(element(base, a, b) != element(base, c, d)) by {
            if a == c {
                assert(b != d);
            }
        }
    }
}

/// Chunks stay tidy where nothing but an element changes in them.
pub proof fn lemma_tidy_kept(x: Cells, y: Cells, base: int, m: int, h: int, l: int)
    requires
        all_tidy(x, base, m),
        0 <= l < 256,
        forall|k: int|
            base <= k < base + 1029 * m && k != element(base, h, l) ==> #[trigger] y[k] == x[k],
    ensures
        all_tidy(y, base, m),
{
    assert forall|j: int| 0 <= j < m implies tidy(y, #[trigger] chunk(base, j)) by {
        let c = chunk(base, j);
        assert(tidy(x, c));
        assert forall|r: int| 0 <= r < 1029 && idle(r) implies y[#[trigger] spot(c, r)]
            == 0 by {
            assert(x[spot(c, r)] == 0);
            assert(holds_element(4 * l + 3));
            if spot(c, r) == element(base, h, l) {
                assert(1029 * (j - h) == 4 * l + 3 - r);
                assert(j == h);
            }
        }
    }
}

/// The cells in use behind a read over chunks.
proof fn lemma_read_chunks_used(b: Bf, base: int, idx: int, result: int)
    ensures
        settled(b.tfree_n(idx, 2), b.read_chunks(base, idx, 256, result)),
{
    reveal(Bf::read_chunks);
    reveal(Bf::seed_outer_prefix);
    reveal(Bf::pour);
    reveal(Bf::emit_outer_walk_read_body);
    reveal(Bf::forward_three);
    reveal(Bf::backward_three);
    reveal(Bf::restore_chunk_id);
    reveal(Bf::shift_right);
    reveal(Bf::shift_left);
    reveal(Bf::extract_outer_walk_result);
}

/// The cells in use behind a write over chunks.
proof fn lemma_write_chunks_used(b: Bf, base: int, idx: int, v: int)
    ensures
        settled(b.tfree_n(idx, 2).tfree(v), b.write_chunks(base, idx, 256, v)),
{
    reveal(Bf::write_chunks);
    reveal(Bf::seed_outer_prefix);
    reveal(Bf::pour);
    reveal(Bf::emit_outer_walk_write_body);
    reveal(Bf::backward_three);
    reveal(Bf::restore_chunk_id);
    reveal(Bf::shift_right);
    reveal(Bf::shift_left);
}

/// The cells in use behind the read of an element.
pub proof fn lemma_fetched_shape(
    bf: Bf,
    b2: Bf,
    b4: Bf,
    x2: Cells,
    x4: Cells,
    base: int,
    result: int,
    p: int,
    i: int,
)
    requires
        took_n(bf, b2, result, 1),
        leaves(b2, b4, x2, x4, p, 2, i, Set::empty()),
    ensures
        ({
            let c = b4.read_chunks(base, p, 256, result);
            &&& c.temp_base == bf.temp_base
            &&& roomy(c)
            &&& lent_n(c, result, 1)
            &&& forall|k: int| #[trigger]
                held(bf, k) ==> held(c, k) && !(result <= k < result + 1)
        }),
{
    lemma_leaves_agree(b2, b4, x2, x4, p, 2, i);
    lemma_read_chunks_used(b4, base, p, result);
    let f = b4.tfree_n(p, 2);
    let c = b4.read_chunks(base, p, 256, result);
    lemma_freed_n(b4, p, 2);
    assert(held(b2, result));
    assert(held(b4, result));
    assert(held(f, result));
    assert(held(c, result));
    assert forall|k: int| #[trigger] held(bf, k) implies held(c, k) && !(result <= k < result
        + 1) by {
        assert(held(b2, k));
        assert(held(b4, k));
        assert(held(f, k));
    }
    assert(held_n(c, result, 1));
}

/// The read of an element gives it in the result.
pub proof fn lemma_fetched(
    o: Bf,
    bf: Bf,
    b2: Bf,
    b4: Bf,
    x0: Cells,
    x: Cells,
    x2: Cells,
    x4: Cells,
    base: int,
    n: int,
    result: int,
    p: int,
    i: int,
) -> (y: Cells)
    requires
        works(o, b4, x0, x4),
        took_n(bf, b2, result, 1),
        agree(bf, x, x2),
        x2[result] == 0,
        leaves(b2, b4, x2, x4, p, 2, i, Set::empty()),
        0 <= i < n,
        n <= 65536,
        all_tidy(x, base, chunks(n)),
        held_n(bf, base, 1029 * chunks(n)),
    ensures
        ({
            let c = b4.read_chunks(base, p, 256, result);
            &&& works(o, c, x0, y)
            &&& leaves(bf, c, x, y, result, 1, x[slot(true, base, 1, i)], Set::empty())
        }),
{
    let m = chunks(n);
    lemma_works_bytes(o, b4, x0, x4);
    assert(x4.dom().contains(p) && x4.dom().contains(p + 1));
    lemma_leaves_agree(b2, b4, x2, x4, p, 2, i);
    lemma_fetched_shape(bf, b2, b4, x2, x4, base, result, p, i);
    assert(held(b2, result));
    assert(x4[result] == 0);
    assert forall|k: int| held(bf, k) implies #[trigger] x4[k] == x[k] && !(p <= k < p + 2) by {
        assert(held(b2, k));
        assert(x2[k] == x[k]);
    }
    assert forall|k: int| base <= k < base + 1029 * m implies #[trigger] x4[k] == x[k] by {
        assert(held(bf, k));
    }
    lemma_tidy_kept(x, x4, base, m, 0, 0);
    assert(val(x4, p, 2) == i);
    assert(x4[p] + 256 * x4[p + 1] == i);
    assert(x4[p + 1] == i / 256 && x4[p] == i % 256);
    assert(held_n(bf, base, 1029 * m));
    assert(!held(bf, p) && !held(bf, p + 1) && !held(bf, result));
    assert(outside(p, base, m) && outside(p + 1, base, m) && outside(result, base, m));
    lemma_read_chunks(o, b4, x0, x4, base, m, p, result);
    let e = slot(true, base, 1, i);
    lemma_slot_inside(true, base, 1, n, i);
    assert(x4[e] == x[e]);
    assert(x4.dom().contains(e));
    let y = x4.insert(p, 0).insert(p + 1, 0).insert(result, (x4[result] + x4[e]) % 256);
    let c = b4.read_chunks(base, p, 256, result);
    assert(y[result] == x[e]);
    assert forall|k: int| held(bf, k) implies #[trigger] y[k] == x[k] by {
        assert(held(c, k) && k != result);
        assert(x4[k] == x[k]);
    }
    y
}

/// The cells in use behind the write of an element.
pub proof fn lemma_delivered_shape(
    bf: Bf,
    b2: Bf,
    b4: Bf,
    x2: Cells,
    x4: Cells,
    base: int,
    v: int,
    p: int,
    i: int,
)
    requires
        b2.temp_base == bf.temp_base,
        lent_n(b2, v, 1),
        forall|k: int| #[trigger] held(bf, k) ==> held(b2, k) && k != v,
        leaves(b2, b4, x2, x4, p, 2, i, Set::empty()),
    ensures
        grown(bf, b4.write_chunks(base, p, 256, v)),
{
    lemma_leaves_agree(b2, b4, x2, x4, p, 2, i);
    lemma_write_chunks_used(b4, base, p, v);
    let f = b4.tfree_n(p, 2);
    lemma_freed_n(b4, p, 2);
    lemma_freed(f, v);
    let g = f.tfree(v);
    let c = b4.write_chunks(base, p, 256, v);
    assert forall|k: int| #[trigger] held(bf, k) implies held(c, k) by {
        assert(held(b2, k));
        assert(held(b4, k));
        assert(held(f, k));
        assert(held(g, k));
    }
}

/// The write of an element changes it to the value.
pub proof fn lemma_delivered(
    o: Bf,
    bf: Bf,
    b2: Bf,
    b4: Bf,
    x0: Cells,
    x: Cells,
    x2: Cells,
    x4: Cells,
    base: int,
    n: int,
    v: int,
    p: int,
    i: int,
) -> (y: Cells)
    requires
        works(o, b4, x0, x4),
        b2.temp_base == bf.temp_base,
        lent_n(b2, v, 1),
        forall|k: int| #[trigger] held(bf, k) ==> held(b2, k) && k != v,
        agree(bf, x, x2),
        leaves(b2, b4, x2, x4, p, 2, i, Set::empty()),
        0 <= i < n,
        n <= 65536,
        all_tidy(x, base, chunks(n)),
        held_n(bf, base, 1029 * chunks(n)),
    ensures
        works(o, b4.write_chunks(base, p, 256, v), x0, y),
        grown(bf, b4.write_chunks(base, p, 256, v)),
        y[slot(true, base, 1, i)] == x2[v],
        forall|k: int| held(bf, k) && k != slot(true, base, 1, i) ==> #[trigger] y[k] == x[k],
{
    let m = chunks(n);
    lemma_works_bytes(o, b4, x0, x4);
    assert(x4.dom().contains(p) && x4.dom().contains(p + 1));
    lemma_leaves_agree(b2, b4, x2, x4, p, 2, i);
    lemma_delivered_shape(bf, b2, b4, x2, x4, base, v, p, i);
    assert(held(b2, v));
    assert(x4[v] == x2[v]);
    assert forall|k: int| held(bf, k) implies #[trigger] x4[k] == x[k] && !(p <= k < p + 2) by {
        assert(held(b2, k));
        assert(x2[k] == x[k]);
    }
    assert forall|k: int| base <= k < base + 1029 * m implies #[trigger] x4[k] == x[k] by {
        assert(held(bf, k));
    }
    lemma_tidy_kept(x, x4, base, m, 0, 0);
    assert(val(x4, p, 2) == i);
    assert(x4[p] + 256 * x4[p + 1] == i);
    assert(x4[p + 1] == i / 256 && x4[p] == i % 256);
    assert(held_n(bf, base, 1029 * m));
    assert(!held(bf, p) && !held(bf, p + 1) && !held(bf, v));
    assert(outside(p, base, m) && outside(p + 1, base, m) && outside(v, base, m));
    lemma_write_chunks(o, b4, x0, x4, base, m, p, v);
    let e = slot(true, base, 1, i);
    let y = x4.insert(p, 0).insert(p + 1, 0).insert(v, 0).insert(e, x4[v]);
    assert forall|k: int| held(bf, k) && k != e implies #[trigger] y[k] == x[k] by {
        assert(held(b2, k) && k != v);
        assert(x4[k] == x[k]);
    }
    y
}

/// `store_byte` gives the low byte of a value.
pub proof fn lemma_store_byte(o: Bf, bf: Bf, x0: Cells, x: Cells, v: int, vw: int) -> (y: Cells)
    requires
        works(o, bf, x0, x),
        roomy(bf),
        word(vw),
        lent_n(bf, v, vw),
    ensures
        ({
            let (c, lo) = bf.store_byte(v, vw);
            &&& works(o, c, x0, y)
            &&& c.temp_base == bf.temp_base
            &&& roomy(c)
            &&& lent_n(c, lo, 1)
            &&& y[lo] == x[v]
            &&& forall|k: int| #[trigger]
                held(bf, k) && !blk(v, vw).contains(k) ==> held(c, k) && k != lo
            &&& forall|k: int| held(bf, k) && !blk(v, vw).contains(k) ==> #[trigger] y[k] == x[k]
        }),
{
    broadcast use {works_bfmove, works_talloc, works_tfree_n, lemma_took};

    reveal(Bf::store_byte);
    lemma_works_bytes(o, bf, x0, x);
    assert(held(bf, v));
    if vw > 1 {
        assert(took(bf, bf.talloc().0, bf.talloc().1));
        let (b2, lo) = bf.talloc();
        let b3 = b2.bfmove(v, lo);
        let x3 = x.insert(lo, x[v]).insert(v, 0);
        assert(works(o, b3, x0, x3));
        let y = lemma_clear_range(o, b3, x0, x3, v, 1, vw);
        let b4 = b3.clear_range(v, 1, vw);
        lemma_freed_n(b4, v, vw);
        let c = b4.tfree_n(v, vw);
        assert(works(o, c, x0, y));
        assert(!held(bf, lo));
        assert(!(v <= lo < v + vw)) by {
            if v <= lo < v + vw {
                assert(held(bf, lo));
            }
        }
        assert(y[lo] == x[v]);
        assert forall|k: int| #[trigger] held(bf, k) && !blk(v, vw).contains(k) implies held(c, k)
            && k != lo by {
            assert(held(b2, k));
            assert(held(b3, k));
            assert(held(b4, k));
        }
        assert forall|k: int| held(bf, k) && !blk(v, vw).contains(k) implies #[trigger] y[k]
            == x[k] by {
            assert(!(v <= k < v + vw) && k != lo);
        }
        assert(held(b2, lo) && held(b3, lo) && held(b4, lo) && held(c, lo));
        assert(held_n(c, lo, 1));
        y
    } else {
        assert(held_n(bf, v, 1));
        x
    }
}

} // verus!
