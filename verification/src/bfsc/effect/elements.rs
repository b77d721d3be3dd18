//! What the search for an array element does.

use vstd::prelude::*;

use crate::bfsc::effect::arith::{lemma_copied_val, lemma_held_val, lemma_zero_val, val, word};
use crate::bfsc::effect::blocks::{apart, held_n, lemma_clear_range, lemma_copy_n, lent_n};
use crate::bfsc::effect::cells::{
    agree, bit, held, lemma_works_once, roomy, settled, took, unflagged, works_copy, works_negate,
    works_unflag_if,
};
use crate::bfsc::effect::compare::{grown, lemma_freed, lemma_took, lent};
use crate::bfsc::effect::expr::lemma_leaves_agree;
use crate::bfsc::effect::product::{lemma_dec_n, same_but};
use crate::bfsc::effect::steps::{
    lemma_works_bytes, lemma_works_start, lemma_works_then, plus, works, works_clear, works_dec,
    works_goto, works_setv, works_talloc, works_tfree, Cells,
};
use crate::bfsc::effect::truth::lemma_is_nz_n;
use crate::bfsc::emitter::Bf;
use crate::bfsc::sound::arith::sound_copy_n;
use crate::bfsc::sound::arrays::sound_store_n;
use crate::bfsc::sound::steps::{sound, sound_clear, sound_goto};

verus! {

/// The same cells are in use.
pub open spec fn kept(b: Bf, c: Bf) -> bool {
    &&& c.temp_base == b.temp_base
    &&& roomy(c)
    &&& forall|k: int| #[trigger] held(c, k) <==> held(b, k)
}

/// The first cell of the element `d` places on.
pub open spec fn place(at: int, w: int, d: int) -> int {
    if w == 1 {
        at + d
    } else if w == 2 {
        at + 2 * d
    } else {
        at + 4 * d
    }
}

/// `index_is` gives a new cell with whether the index is `i`.
proof fn lemma_index_is(o: Bf, bf: Bf, x0: Cells, x: Cells, idx: int, i: int) -> (y: Cells)
    requires
        works(o, bf, x0, x),
        roomy(bf),
        held(bf, idx),
        0 <= i < 256,
    ensures
        ({
            let (c, eq, ti) = bf.index_is(idx, i);
            &&& works(o, c, x0, y)
            &&& roomy(c)
            &&& c.temp_base == bf.temp_base
            &&& eq >= bf.temp_base && ti >= bf.temp_base
            &&& !held(bf, eq) && !held(bf, ti) && eq != ti
            &&& forall|k: int| #[trigger] held(c, k) <==> held(bf, k) || k == eq || k == ti
            &&& y[eq] == bit(x[idx] == i)
        }),
        agree(bf, x, y),
{
    broadcast use {
        works_talloc,
        works_tfree,
        works_copy,
        works_dec,
        works_setv,
        works_unflag_if,
        lemma_took,
    };

    reveal(Bf::index_is);
    lemma_works_bytes(o, bf, x0, x);
    assert(took(bf, bf.talloc().0, bf.talloc().1));
    let (b1, ti) = bf.talloc();
    assert(works(o, b1, x0, x));
    assert(held(b1, idx) && held(b1, ti));
    let b2 = b1.copy(idx, ti);
    let x2 = choose|y: Cells| #[trigger] works(o, b2, x0, y) && agree(b1, x.insert(ti, x[idx]), y);
    lemma_works_bytes(o, b2, x0, x2);
    assert(x2[ti] == x[idx]);
    assert(x.dom().contains(idx));
    let b3 = if i > 0 {
        b2.dec(ti, i)
    } else {
        b2
    };
    let x3 = if i > 0 {
        plus(x2, ti, -i)
    } else {
        x2
    };
    assert(works(o, b3, x0, x3));
    assert(settled(b1, b3));
    assert((x3[ti] == 0) == (x[idx] == i));
    assert(took(b3, b3.talloc().0, b3.talloc().1));
    let (b4, eq) = b3.talloc();
    let b5 = b4.setv(eq, 1);
    let x5 = x3.insert(eq, 1);
    assert(works(o, b5, x0, x5));
    assert(held(b3, ti));
    assert(held(b4, eq) && held(b4, ti));
    assert(settled(b4, b5));
    assert(held(b5, eq) && held(b5, ti));
    assert(took(b5, b5.talloc().0, b5.talloc().1));
    let (b6, tc) = b5.talloc();
    assert(works(o, b6, x0, x5));
    assert(held(b6, eq) && held(b6, ti) && held(b6, tc));
    let b7 = b6.copy(ti, tc);
    let x7 = choose|y: Cells| #[trigger] works(o, b7, x0, y) && agree(b6, x5.insert(tc, x5[ti]), y);
    assert(x7[eq] == 1 && x7[tc] == x3[ti]);
    let b8 = b7.unflag_if(tc, eq);
    let y = unflagged(x7, tc, eq);
    assert(works(o, b8, x0, y));
    lemma_freed(b8, tc);
    let c = b8.tfree(tc);
    assert(works(o, c, x0, y));
    assert(bf.index_is(idx, i) == (c, eq, ti));
    assert forall|k: int| #[trigger] held(c, k) <==> held(bf, k) || k == eq || k == ti by {
        assert(held(b1, k) <==> held(bf, k) || k == ti);
        assert(held(b3, k) == held(b1, k));
        assert(held(b4, k) <==> held(b3, k) || k == eq);
        assert(held(b5, k) == held(b4, k));
        assert(held(b6, k) <==> held(b5, k) || k == tc);
        assert(held(b8, k) == held(b6, k));
    }
    assert(!held(bf, eq)) by {
        if held(bf, eq) {
            assert(held(b1, eq));
            assert(held(b3, eq));
        }
    }
    assert forall|k: int| held(bf, k) implies #[trigger] y[k] == x[k] by {
        assert(held(b1, k) && k != ti);
        assert(x2[k] == x.insert(ti, x[idx])[k]);
        assert(held(b3, k));
        assert(held(b4, k) && k != eq);
        assert(held(b5, k));
        assert(held(b6, k) && k != tc);
        assert(x7[k] == x5.insert(tc, x5[ti])[k]);
    }
    y
}

/// A block is copied, in one of two ways.
pub open spec fn copied(bf: Bf, src: int, dst: int, w: int, write: bool) -> Bf {
    if write {
        bf.store_n(src, dst, w)
    } else {
        bf.copy_n(src, dst, w)
    }
}

/// The rounds of `store_n`.
proof fn lemma_store_rounds(
    o: Bf,
    bf: Bf,
    x0: Cells,
    x: Cells,
    src: int,
    dst: int,
    n: int,
    i: int,
) -> (y: Cells)
    requires
        works(o, bf, x0, x),
        roomy(bf),
        0 <= i <= n,
        held_n(bf, src, n),
        held_n(bf, dst, n),
        apart(src, n, dst, n),
    ensures
        works(o, bf.store_n_rounds(src, dst, n, i), x0, y),
        settled(bf, bf.store_n_rounds(src, dst, n, i)),
        forall|k: int|
            held(bf, k) ==> #[trigger] y[k] == if dst + i <= k < dst + n {
                x[src + (k - dst)]
            } else {
                x[k]
            },
    decreases n - i,
{
    broadcast use {works_clear, works_copy};

    reveal_with_fuel(Bf::store_n_rounds, 2);
    if i < n {
        assert(held(bf, src + i) && held(bf, dst + i));
        let b1 = bf.clear(dst + i);
        let x1 = x.insert(dst + i, 0);
        assert(works(o, b1, x0, x1));
        assert(held(b1, src + i) && held(b1, dst + i));
        let b2 = b1.copy(src + i, dst + i);
        let x2 = choose|y: Cells| #[trigger]
            works(o, b2, x0, y) && agree(b1, x1.insert(dst + i, x1[src + i]), y);
        assert forall|k: int| held(bf, k) implies #[trigger] x2[k] == if k == dst + i {
            x[src + i]
        } else {
            x[k]
        } by {
            assert(held(b1, k));
        }
        assert forall|k: int|
            src <= k < src + n || dst <= k < dst + n implies #[trigger] held(b2, k) by {
            assert(held(bf, k));
        }
        let y = lemma_store_rounds(o, b2, x0, x2, src, dst, n, i + 1);
        assert forall|k: int| held(bf, k) implies #[trigger] y[k] == if dst + i <= k < dst + n {
            x[src + (k - dst)]
        } else {
            x[k]
        } by {
            assert(held(b2, k));
            if dst + i < k < dst + n {
                assert(held(bf, src + (k - dst)));
                assert(x2[src + (k - dst)] == x[src + (k - dst)]);
            }
            assert(x2[k] == x2[k]);
        }
        y
    } else {
        x
    }
}

proof fn lemma_copied(o: Bf, bf: Bf, x0: Cells, x: Cells, src: int, dst: int, w: int, write: bool)
    -> (y: Cells)
    requires
        works(o, bf, x0, x),
        roomy(bf),
        word(w),
        held_n(bf, src, w),
        held_n(bf, dst, w),
        apart(src, w, dst, w),
    ensures
        works(o, copied(bf, src, dst, w, write), x0, y),
        settled(bf, copied(bf, src, dst, w, write)),
        forall|k: int|
            held(bf, k) ==> #[trigger] y[k] == if dst <= k < dst + w {
                x[src + (k - dst)]
            } else {
                x[k]
            },
{
    broadcast use {works_clear, works_copy};

    if write {
        reveal(Bf::store_n);
        lemma_store_rounds(o, bf, x0, x, src, dst, w, 0)
    } else {
        lemma_copy_n(o, bf, x0, x, src, dst, w)
    }
}

/// A block is copied where the index is `i`.
spec fn picked(bf: Bf, idx: int, i: int, src: int, dst: int, w: int, write: bool) -> Bf {
    let (bf, eq, ti) = bf.index_is(idx, i);
    let e1 = bf.goto(eq).raw("["@);
    copied(e1, src, dst, w, write).clear(eq).goto(eq).raw("]"@).tfree(eq).tfree(ti)
}

/// The blocks that are copied.
spec fn blocks_of(b: Bf, idx: int, src: int, dst: int, w: int) -> bool {
    &&& roomy(b)
    &&& word(w)
    &&& held(b, idx)
    &&& held_n(b, src, w)
    &&& held_n(b, dst, w)
    &&& apart(src, w, dst, w)
    &&& apart(idx, 1, dst, w)
}

proof fn lemma_picked(
    o: Bf,
    bf: Bf,
    x0: Cells,
    x: Cells,
    idx: int,
    i: int,
    src: int,
    dst: int,
    w: int,
    write: bool,
) -> (y: Cells)
    requires
        works(o, bf, x0, x),
        blocks_of(bf, idx, src, dst, w),
        0 <= i < 256,
    ensures
        works(o, picked(bf, idx, i, src, dst, w, write), x0, y),
        kept(bf, picked(bf, idx, i, src, dst, w, write)),
        forall|k: int|
            held(bf, k) ==> #[trigger] y[k] == if x[idx] == i && dst <= k < dst + w {
                x[src + (k - dst)]
            } else {
                x[k]
            },
{
    broadcast use {
        works_goto,
        works_clear,
        works_tfree,
        sound_copy_n,
        sound_store_n,
        sound_clear,
        sound_goto,
    };

    let x1 = lemma_index_is(o, bf, x0, x, idx, i);
    let (b1, eq, ti) = bf.index_is(idx, i);
    lemma_works_bytes(o, b1, x0, x1);
    let a = b1.goto(eq);
    assert(works(o, a, x0, x1));
    let e1 = a.raw("["@);
    assert(sound(e1.out, e1.out, 0)) by {
        reveal(sound);
    }
    lemma_works_start(e1, x1);
    assert forall|k: int| #[trigger] held(bf, k) implies held(e1, k) && k != eq && k != ti by {
        assert(held(b1, k));
    }
    assert(held_n(e1, src, w)) by {
        assert forall|k: int| src <= k < src + w implies #[trigger] held(e1, k) by {
            assert(held(bf, k));
        }
    }
    assert(held_n(e1, dst, w)) by {
        assert forall|k: int| dst <= k < dst + w implies #[trigger] held(e1, k) by {
            assert(held(bf, k));
        }
    }
    let x2 = lemma_copied(e1, e1, x1, x1, src, dst, w, write);
    let b2 = copied(e1, src, dst, w, write);
    let z = b2.clear(eq).goto(eq);
    let x3 = x2.insert(eq, 0);
    assert(works(e1, z, x1, x3));
    assert(sound(e1.out, z.out, 0));
    let y = if x1[eq] != 0 {
        x3
    } else {
        x1
    };
    lemma_works_once(a, z, x1, y);
    let e2 = z.raw("]"@);
    lemma_works_then(o, a, e2, x0, x1, y);
    assert(settled(b1, e2));
    lemma_freed(e2, eq);
    lemma_freed(e2.tfree(eq), ti);
    let c = e2.tfree(eq).tfree(ti);
    assert(works(o, c, x0, y));
    assert forall|k: int| #[trigger] held(c, k) <==> held(bf, k) by {
        assert(held(b1, k) <==> held(bf, k) || k == eq || k == ti);
        assert(held(e2, k) == held(b1, k));
        assert(held(e2.tfree(eq), k) <==> held(e2, k) && k != eq);
    }
    assert forall|k: int| held(bf, k) implies #[trigger] y[k] == if x[idx] == i && dst <= k < dst
        + w {
        x[src + (k - dst)]
    } else {
        x[k]
    } by {
        assert(held(e1, k) && k != eq);
        assert(x1[k] == x[k]);
        if dst <= k < dst + w {
            assert(held(bf, src + (k - dst)));
            assert(x1[src + (k - dst)] == x[src + (k - dst)]);
        }
    }
    y
}

/// The search of a read goes through the elements from the one at `at` on.
pub proof fn lemma_read_all(
    o: Bf,
    bf: Bf,
    x0: Cells,
    x: Cells,
    idx: int,
    at: int,
    i: int,
    n: int,
    w: int,
    result: int,
) -> (y: Cells)
    requires
        works(o, bf, x0, x),
        roomy(bf),
        word(w),
        0 <= i <= n <= 256,
        held(bf, idx),
        held_n(bf, at, place(0, w, n - i)),
        held_n(bf, result, w),
        apart(at, place(0, w, n - i), result, w),
        apart(idx, 1, result, w),
    ensures
        works(o, bf.read_all(idx, at, i, n, w, result), x0, y),
        kept(bf, bf.read_all(idx, at, i, n, w, result)),
        i <= x[idx] < n ==> val(y, result, w) == val(x, place(at, w, x[idx] - i), w),
        forall|k: int| held(bf, k) && !(result <= k < result + w) ==> #[trigger] y[k] == x[k],
        !(i <= x[idx] < n) ==> agree(bf, x, y),
    decreases n - i,
{
    reveal(Bf::read_all);
    if i >= n {
        x
    } else {
        reveal(Bf::read_element);
        assert(held_n(bf, at, w)) by {
            assert forall|k: int| at <= k < at + w implies #[trigger] held(bf, k) by {
                assert(at <= k < at + place(0, w, n - i));
            }
        }
        let x1 = lemma_picked(o, bf, x0, x, idx, i, at, result, w, false);
        let b1 = bf.read_element(idx, i, at, w, result);
        assert(b1 == picked(bf, idx, i, at, result, w, false));
        assert(x1[idx] == x[idx]);
        assert(held_n(b1, at + w, place(0, w, n - i - 1))) by {
            assert forall|k: int|
                at + w <= k < at + w + place(0, w, n - i - 1) implies #[trigger] held(b1, k) by {
                assert(held(bf, k));
            }
        }
        assert(held_n(b1, result, w)) by {
            assert forall|k: int| result <= k < result + w implies #[trigger] held(b1, k) by {
                assert(held(bf, k));
            }
        }
        assert(held(b1, idx));
        let y = lemma_read_all(o, b1, x0, x1, idx, at + w, i + 1, n, w, result);
        let c = bf.read_all(idx, at, i, n, w, result);
        assert forall|k: int| #[trigger] held(c, k) <==> held(bf, k) by {
            assert(held(b1, k) == held(bf, k));
        }
        assert forall|k: int| held(bf, k) && !(result <= k < result + w) implies #[trigger] y[k]
            == x[k] by {
            assert(held(b1, k));
            assert(x1[k] == x[k]);
        }
        if x[idx] == i {
            lemma_copied_val(bf, x, x1, at, result, w);
            lemma_held_val(b1, x1, y, result, w);
        } else if i < x[idx] < n {
            let p = place(at, w, x[idx] - i);
            assert(p == place(at + w, w, x[idx] - (i + 1)));
            assert(held_n(bf, p, w)) by {
                assert forall|k: int| p <= k < p + w implies #[trigger] held(bf, k) by {
                    assert(at <= k < at + place(0, w, n - i));
                }
            }
            lemma_held_val(bf, x, x1, p, w);
        } else {
            assert forall|k: int| held(bf, k) implies #[trigger] y[k] == x[k] by {
                assert(held(b1, k));
                assert(x1[k] == x[k]);
            }
        }
        y
    }
}

/// The search of a write goes through the elements from the one at `at` on.
pub proof fn lemma_write_all(
    o: Bf,
    bf: Bf,
    x0: Cells,
    x: Cells,
    idx: int,
    at: int,
    i: int,
    n: int,
    w: int,
    v: int,
) -> (y: Cells)
    requires
        works(o, bf, x0, x),
        roomy(bf),
        word(w),
        0 <= i <= n <= 256,
        held(bf, idx),
        held_n(bf, at, place(0, w, n - i)),
        held_n(bf, v, w),
        apart(at, place(0, w, n - i), v, w),
        apart(at, place(0, w, n - i), idx, 1),
    ensures
        works(o, bf.write_all(idx, at, i, n, w, v), x0, y),
        kept(bf, bf.write_all(idx, at, i, n, w, v)),
        i <= x[idx] < n ==> {
            let p = place(at, w, x[idx] - i);
            &&& val(y, p, w) == val(x, v, w)
            &&& forall|k: int| held(bf, k) && !(p <= k < p + w) ==> #[trigger] y[k] == x[k]
        },
        !(i <= x[idx] < n) ==> agree(bf, x, y),
    decreases n - i,
{
    reveal(Bf::write_all);
    if i >= n {
        x
    } else {
        reveal(Bf::write_element);
        assert(held_n(bf, at, w)) by {
            assert forall|k: int| at <= k < at + w implies #[trigger] held(bf, k) by {
                assert(at <= k < at + place(0, w, n - i));
            }
        }
        let x1 = lemma_picked(o, bf, x0, x, idx, i, v, at, w, true);
        let b1 = bf.write_element(idx, i, at, w, v);
        assert(b1 == picked(bf, idx, i, v, at, w, true));
        assert(x1[idx] == x[idx]);
        assert(held_n(b1, at + w, place(0, w, n - i - 1))) by {
            assert forall|k: int|
                at + w <= k < at + w + place(0, w, n - i - 1) implies #[trigger] held(b1, k) by {
                assert(held(bf, k));
            }
        }
        assert(held_n(b1, v, w)) by {
            assert forall|k: int| v <= k < v + w implies #[trigger] held(b1, k) by {
                assert(held(bf, k));
            }
        }
        assert(held(b1, idx));
        let y = lemma_write_all(o, b1, x0, x1, idx, at + w, i + 1, n, w, v);
        let c = bf.write_all(idx, at, i, n, w, v);
        assert forall|k: int| #[trigger] held(c, k) <==> held(bf, k) by {
            assert(held(b1, k) == held(bf, k));
        }
        lemma_held_val(bf, x, x1, v, w);
        if i <= x[idx] < n {
            let p = place(at, w, x[idx] - i);
            if x[idx] == i {
                lemma_copied_val(bf, x, x1, v, at, w);
                assert forall|k: int| at <= k < at + w implies #[trigger] held(b1, k) by {
                    assert(held(bf, k));
                }
                lemma_held_val(b1, x1, y, at, w);
            } else {
                assert(p == place(at + w, w, x[idx] - (i + 1)));
            }
            assert forall|k: int| held(bf, k) && !(p <= k < p + w) implies #[trigger] y[k]
                == x[k] by {
                assert(held(b1, k));
                assert(x1[k] == x[k]);
            }
        } else {
            assert forall|k: int| held(bf, k) implies #[trigger] y[k] == x[k] by {
                assert(held(b1, k));
                assert(x1[k] == x[k]);
            }
        }
        y
    }
}

/// `counted_down` counts a counter down and gives a new cell with whether it has
/// come to 0.
proof fn lemma_counted_down(o: Bf, bf: Bf, x0: Cells, x: Cells, ti: int, i: int) -> (y: Cells)
    requires
        works(o, bf, x0, x),
        roomy(bf),
        lent_n(bf, ti, 2),
        i >= 0,
    ensures
        ({
            let (c, eq) = bf.counted_down(ti, i);
            let v = if i > 0 {
                (val(x, ti, 2) - 1) % 65536
            } else {
                val(x, ti, 2)
            };
            &&& works(o, c, x0, y)
            &&& grown(bf, c)
            &&& lent(c, eq)
            &&& !held(bf, eq)
            &&& val(y, ti, 2) == v
            &&& y[eq] == bit(v == 0)
        }),
        same_but(bf, x, y, ti, 2),
{
    broadcast use works_negate;

    reveal(Bf::counted_down);
    let x1 = if i > 0 {
        lemma_dec_n(o, bf, x0, x, ti, 2)
    } else {
        x
    };
    let b1 = if i > 0 {
        bf.dec_n(ti, 2)
    } else {
        bf
    };
    assert(grown(bf, b1));
    assert(held_n(b1, ti, 2)) by {
        assert forall|k: int| ti <= k < ti + 2 implies #[trigger] held(b1, k) by {
            assert(held(bf, k));
        }
    }
    let x2 = lemma_is_nz_n(o, b1, x0, x1, ti, 2);
    let (b2, nz) = b1.is_nz_n(ti, 2);
    lemma_leaves_agree(b1, b2, x1, x2, nz, 1, bit(val(x1, ti, 2) != 0));
    assert(held(b2, nz));
    let (c, eq) = b2.negate(nz);
    let y = choose|y: Cells| #[trigger]
        works(o, c, x0, y) && agree(b2, x2.insert(nz, bit(x2[nz] == 0)), y);
    assert(held(c, eq));
    assert(!held(bf, eq)) by {
        if held(bf, eq) {
            assert(held(b1, eq));
        }
    }
    assert forall|k: int| held(b1, k) implies #[trigger] y[k] == x1[k] by {
        assert(held(b2, k) && k != nz);
        assert(x2[k] == x1[k]);
    }
    assert(held(b1, ti) && held(b1, ti + 1));
    assert(y[ti] == x1[ti] && y[ti + 1] == x1[ti + 1]);
    assert forall|k: int| #[trigger] held(bf, k) implies held(c, k) by {
        assert(held(b1, k));
        assert(held(b2, k));
    }
    assert forall|k: int| held(bf, k) && !(ti <= k < ti + 2) implies #[trigger] y[k] == x[k] by {
        assert(x1[k] == x[k]);
        assert(held(b1, k));
    }
    y
}

/// A block is copied where the counter has come to 0.
spec fn reached(bf: Bf, ti: int, i: int, src: int, dst: int, w: int, write: bool) -> Bf {
    let (bf, eq) = bf.counted_down(ti, i);
    let e1 = bf.goto(eq).raw("["@);
    copied(e1, src, dst, w, write).clear(eq).goto(eq).raw("]"@).tfree(eq)
}

/// The blocks that are copied.
spec fn counting(b: Bf, ti: int, src: int, dst: int, w: int) -> bool {
    &&& roomy(b)
    &&& word(w)
    &&& lent_n(b, ti, 2)
    &&& held_n(b, src, w)
    &&& held_n(b, dst, w)
    &&& apart(src, w, dst, w)
    &&& apart(ti, 2, dst, w)
    &&& apart(ti, 2, src, w)
}

proof fn lemma_reached(
    o: Bf,
    bf: Bf,
    x0: Cells,
    x: Cells,
    ti: int,
    i: int,
    src: int,
    dst: int,
    w: int,
    write: bool,
) -> (y: Cells)
    requires
        works(o, bf, x0, x),
        counting(bf, ti, src, dst, w),
        i >= 0,
    ensures
        works(o, reached(bf, ti, i, src, dst, w, write), x0, y),
        grown(bf, reached(bf, ti, i, src, dst, w, write)),
        ({
            let v = if i > 0 {
                (val(x, ti, 2) - 1) % 65536
            } else {
                val(x, ti, 2)
            };
            &&& val(y, ti, 2) == v
            &&& forall|k: int|
                held(bf, k) && !(ti <= k < ti + 2) ==> #[trigger] y[k] == if v == 0 && dst <= k
                    < dst + w {
                    x[src + (k - dst)]
                } else {
                    x[k]
                }
        }),
{
    broadcast use {
        works_goto,
        works_clear,
        works_tfree,
        sound_copy_n,
        sound_store_n,
        sound_clear,
        sound_goto,
    };

    let v = if i > 0 {
        (val(x, ti, 2) - 1) % 65536
    } else {
        val(x, ti, 2)
    };
    let x1 = lemma_counted_down(o, bf, x0, x, ti, i);
    let (b1, eq) = bf.counted_down(ti, i);
    lemma_works_bytes(o, b1, x0, x1);
    let a = b1.goto(eq);
    assert(works(o, a, x0, x1));
    let e1 = a.raw("["@);
    assert(sound(e1.out, e1.out, 0)) by {
        reveal(sound);
    }
    lemma_works_start(e1, x1);
    assert forall|k: int| #[trigger] held(bf, k) implies held(e1, k) && k != eq by {
        assert(held(b1, k));
    }
    assert(held_n(e1, src, w)) by {
        assert forall|k: int| src <= k < src + w implies #[trigger] held(e1, k) by {
            assert(held(bf, k));
        }
    }
    assert(held_n(e1, dst, w)) by {
        assert forall|k: int| dst <= k < dst + w implies #[trigger] held(e1, k) by {
            assert(held(bf, k));
        }
    }
    let x2 = lemma_copied(e1, e1, x1, x1, src, dst, w, write);
    let b2 = copied(e1, src, dst, w, write);
    let z = b2.clear(eq).goto(eq);
    let x3 = x2.insert(eq, 0);
    assert(works(e1, z, x1, x3));
    assert(sound(e1.out, z.out, 0));
    let y = if x1[eq] != 0 {
        x3
    } else {
        x1
    };
    lemma_works_once(a, z, x1, y);
    let e2 = z.raw("]"@);
    lemma_works_then(o, a, e2, x0, x1, y);
    assert(settled(b1, e2));
    lemma_freed(e2, eq);
    let c = e2.tfree(eq);
    assert(works(o, c, x0, y));
    assert forall|k: int| #[trigger] held(bf, k) implies held(c, k) by {
        assert(held(b1, k) && k != eq);
        assert(held(e2, k));
    }
    assert forall|k: int| held(bf, k) implies #[trigger] y[k] == if v == 0 && dst <= k < dst + w {
        x1[src + (k - dst)]
    } else {
        x1[k]
    } by {
        assert(held(e1, k) && k != eq);
    }
    assert(held(bf, ti) && held(bf, ti + 1));
    assert(y[ti] == x1[ti] && y[ti + 1] == x1[ti + 1]);
    assert forall|k: int| held(bf, k) && !(ti <= k < ti + 2) implies #[trigger] y[k] == if v == 0
        && dst <= k < dst + w {
        x[src + (k - dst)]
    } else {
        x[k]
    } by {
        assert(x1[k] == x[k]);
        if dst <= k < dst + w {
            let m = src + (k - dst);
            assert(held(bf, m) && !(ti <= m < ti + 2));
            assert(x1[m] == x[m]);
        }
    }
    y
}

/// How often a counter is counted down before the element `i` and at it.
pub open spec fn counts(i: int) -> int {
    if i > 0 {
        1
    } else {
        0
    }
}

/// The counting search of a read goes through the elements from the one at `at`
/// on; `d` is how many elements the addressed one is away, or negative.
pub proof fn lemma_read_counted(
    o: Bf,
    bf: Bf,
    x0: Cells,
    x: Cells,
    ti: int,
    at: int,
    i: int,
    n: int,
    w: int,
    result: int,
    d: int,
) -> (y: Cells)
    requires
        works(o, bf, x0, x),
        roomy(bf),
        word(w),
        0 <= i <= n <= 65536,
        i + d < 65536,
        0 <= i + d,
        val(x, ti, 2) == (d + counts(i)) % 65536,
        lent_n(bf, ti, 2),
        held_n(bf, at, place(0, w, n - i)),
        held_n(bf, result, w),
        apart(at, place(0, w, n - i), result, w),
        apart(ti, 2, result, w),
        apart(at, place(0, w, n - i), ti, 2),
    ensures
        works(o, bf.read_all_counted(ti, at, i, n, w, result), x0, y),
        grown(bf, bf.read_all_counted(ti, at, i, n, w, result)),
        0 <= d < n - i ==> val(y, result, w) == val(x, place(at, w, d), w),
        !(0 <= d < n - i) ==> val(y, result, w) == val(x, result, w),
        forall|k: int|
            held(bf, k) && !(result <= k < result + w) && !(ti <= k < ti + 2) ==> #[trigger] y[k]
                == x[k],
    decreases n - i,
{
    reveal(Bf::read_all_counted);
    if i >= n {
        x
    } else {
        reveal(Bf::read_counted);
        assert(held_n(bf, at, w)) by {
            assert forall|k: int| at <= k < at + w implies #[trigger] held(bf, k) by {
                assert(at <= k < at + place(0, w, n - i));
            }
        }
        lemma_works_bytes(o, bf, x0, x);
        assert(x.dom().contains(ti) && x.dom().contains(ti + 1));
        let x1 = lemma_reached(o, bf, x0, x, ti, i, at, result, w, false);
        let b1 = bf.read_counted(ti, i, at, w, result);
        assert(b1 == reached(bf, ti, i, at, result, w, false));
        assert(val(x1, ti, 2) == d % 65536);
        assert((d % 65536 == 0) == (d == 0));
        lemma_block_grown(bf, b1, at + w, place(0, w, n - i - 1));
        lemma_block_grown(bf, b1, result, w);
        lemma_block_grown(bf, b1, ti, 2);
        let y = lemma_read_counted(o, b1, x0, x1, ti, at + w, i + 1, n, w, result, d - 1);
        let c = bf.read_all_counted(ti, at, i, n, w, result);
        assert forall|k: int| #[trigger] held(bf, k) implies held(c, k) by {
            assert(held(b1, k));
        }
        assert forall|k: int|
            held(bf, k) && !(result <= k < result + w) && !(ti <= k < ti + 2) implies #[trigger] y[k]
            == x[k] by {
            assert(held(b1, k));
            assert(x1[k] == x[k]);
        }
        if d == 0 {
            lemma_copied_val(bf, x, x1, at, result, w);
        } else {
            lemma_held_val(bf, x, x1, result, w);
            if 0 < d < n - i {
                let p = place(at, w, d);
                assert(p == place(at + w, w, d - 1));
                assert(held_n(bf, p, w)) by {
                    assert forall|k: int| p <= k < p + w implies #[trigger] held(bf, k) by {
                        assert(at <= k < at + place(0, w, n - i));
                    }
                }
                lemma_held_val(bf, x, x1, p, w);
            }
        }
        y
    }
}

/// A block in use stays so.
proof fn lemma_block_grown(b: Bf, c: Bf, base: int, n: int)
    requires
        grown(b, c),
        held_n(b, base, n),
    ensures
        held_n(c, base, n),
{
    assert forall|k: int| base <= k < base + n implies #[trigger] held(c, k) by {
        assert(held(b, k));
    }
}

/// The counting search of a write goes through the elements from the one at `at`
/// on.
pub proof fn lemma_write_counted(
    o: Bf,
    bf: Bf,
    x0: Cells,
    x: Cells,
    ti: int,
    at: int,
    i: int,
    n: int,
    w: int,
    v: int,
    d: int,
) -> (y: Cells)
    requires
        works(o, bf, x0, x),
        roomy(bf),
        word(w),
        0 <= i <= n <= 65536,
        i + d < 65536,
        0 <= i + d,
        val(x, ti, 2) == (d + counts(i)) % 65536,
        lent_n(bf, ti, 2),
        held_n(bf, at, place(0, w, n - i)),
        held_n(bf, v, w),
        apart(at, place(0, w, n - i), v, w),
        apart(ti, 2, v, w),
        apart(at, place(0, w, n - i), ti, 2),
    ensures
        works(o, bf.write_all_counted(ti, at, i, n, w, v), x0, y),
        grown(bf, bf.write_all_counted(ti, at, i, n, w, v)),
        0 <= d < n - i ==> {
            let p = place(at, w, d);
            &&& val(y, p, w) == val(x, v, w)
            &&& forall|k: int|
                held(bf, k) && !(p <= k < p + w) && !(ti <= k < ti + 2) ==> #[trigger] y[k]
                    == x[k]
        },
        !(0 <= d < n - i) ==> same_but(bf, x, y, ti, 2),
    decreases n - i,
{
    reveal(Bf::write_all_counted);
    if i >= n {
        x
    } else {
        reveal(Bf::write_counted);
        assert(held_n(bf, at, w)) by {
            assert forall|k: int| at <= k < at + w implies #[trigger] held(bf, k) by {
                assert(at <= k < at + place(0, w, n - i));
            }
        }
        lemma_works_bytes(o, bf, x0, x);
        assert(x.dom().contains(ti) && x.dom().contains(ti + 1));
        let x1 = lemma_reached(o, bf, x0, x, ti, i, v, at, w, true);
        let b1 = bf.write_counted(ti, i, at, w, v);
        assert(b1 == reached(bf, ti, i, v, at, w, true));
        assert(val(x1, ti, 2) == d % 65536);
        assert((d % 65536 == 0) == (d == 0));
        lemma_block_grown(bf, b1, at + w, place(0, w, n - i - 1));
        lemma_block_grown(bf, b1, v, w);
        lemma_block_grown(bf, b1, ti, 2);
        let y = lemma_write_counted(o, b1, x0, x1, ti, at + w, i + 1, n, w, v, d - 1);
        let c = bf.write_all_counted(ti, at, i, n, w, v);
        assert forall|k: int| #[trigger] held(bf, k) implies held(c, k) by {
            assert(held(b1, k));
        }
        lemma_held_val(bf, x, x1, v, w);
        if 0 <= d < n - i {
            let p = place(at, w, d);
            if d == 0 {
                lemma_copied_val(bf, x, x1, v, at, w);
                assert forall|k: int| at <= k < at + w implies #[trigger] held(b1, k) by {
                    assert(held(bf, k));
                }
                lemma_held_val(b1, x1, y, at, w);
            } else {
                assert(p == place(at + w, w, d - 1));
            }
            assert forall|k: int|
                held(bf, k) && !(p <= k < p + w) && !(ti <= k < ti + 2) implies #[trigger] y[k]
                == x[k] by {
                assert(held(b1, k));
                assert(x1[k] == x[k]);
            }
        } else {
            assert forall|k: int| held(bf, k) && !(ti <= k < ti + 2) implies #[trigger] y[k]
                == x[k] by {
                assert(held(b1, k));
                assert(x1[k] == x[k]);
            }
        }
        y
    }
}

/// The cells that an element is stored and read with: those of the array, two
/// indices, the value and the result.
pub open spec fn array_and_operands(
    b: Bf,
    base: int,
    n: int,
    w: int,
    p: int,
    q: int,
    v: int,
    result: int,
) -> bool {
    let all = place(0, w, n);
    &&& roomy(b)
    &&& word(w)
    &&& 0 <= n <= 256
    &&& held_n(b, base, all)
    &&& held(b, p)
    &&& held(b, q)
    &&& held_n(b, v, w)
    &&& held_n(b, result, w)
    &&& apart(base, all, p, 1)
    &&& apart(base, all, q, 1)
    &&& apart(base, all, v, w)
    &&& apart(base, all, result, w)
    &&& apart(q, 1, result, w)
}

/// An array gives back what was stored in it: the code that stores the value at
/// `v` under the index in `p`, clears the result and reads the element under the
/// index in `q` leaves in the result the value, where the indices are equal and
/// inside the array, the element as it was, where they differ, and 0 where the
/// second one is outside. An index outside stores nothing.
pub proof fn law_stored_elements_are_read_back(
    o: Bf,
    bf: Bf,
    x0: Cells,
    x: Cells,
    base: int,
    n: int,
    w: int,
    p: int,
    q: int,
    v: int,
    result: int,
) -> (z: Cells)
    requires
        works(o, bf, x0, x),
        array_and_operands(bf, base, n, w, p, q, v, result),
    ensures
        works(
            o,
            bf.write_all(p, base, 0, n, w, v).clear_range(result, 0, w).read_all(
                q,
                base,
                0,
                n,
                w,
                result,
            ),
            x0,
            z,
        ),
        x[q] < n ==> val(z, result, w) == if x[p] == x[q] {
            val(x, v, w)
        } else {
            val(x, place(base, w, x[q]), w)
        },
        x[q] >= n ==> val(z, result, w) == 0,
        forall|j: int|
            0 <= j < n ==> #[trigger] val(z, place(base, w, j), w) == if j == x[p] {
                val(x, v, w)
            } else {
                val(x, place(base, w, j), w)
            },
{
    let all = place(0, w, n);
    lemma_works_bytes(o, bf, x0, x);
    assert(x.dom().contains(p) && x.dom().contains(q));
    let x1 = lemma_write_all(o, bf, x0, x, p, base, 0, n, w, v);
    let b1 = bf.write_all(p, base, 0, n, w, v);
    assert forall|k: int| held(bf, k) && !(base <= k < base + all) implies #[trigger] x1[k]
        == x[k] by {}
    let x2 = lemma_clear_range(o, b1, x0, x1, result, 0, w);
    let b2 = b1.clear_range(result, 0, w);
    assert forall|k: int| #[trigger] held(bf, k) implies held(b2, k) by {
        assert(held(b1, k));
    }
    assert forall|k: int| base <= k < base + all implies #[trigger] held(b2, k) by {
        assert(held(bf, k));
    }
    assert forall|k: int| result <= k < result + w implies #[trigger] held(b2, k) by {
        assert(held(bf, k));
    }
    assert(x2[q] == x[q]);
    lemma_zero_val(x2, result, w);
    let z = lemma_read_all(o, b2, x0, x2, q, base, 0, n, w, result);
    assert forall|j: int| 0 <= j < n implies #[trigger] val(z, place(base, w, j), w) == val(
        x2,
        place(base, w, j),
        w,
    ) && val(x2, place(base, w, j), w) == if j == x[p] {
        val(x, v, w)
    } else {
        val(x, place(base, w, j), w)
    } by {
        let at = place(base, w, j);
        assert forall|k: int| at <= k < at + w implies #[trigger] held(b2, k) && held(bf, k) by {
            assert(base <= k < base + all);
        }
        lemma_held_val(b2, x2, z, at, w);
        lemma_held_val(b2, x1, x2, at, w);
        if j != x[p] {
            lemma_held_val(bf, x, x1, at, w);
        }
    }
    if x[q] < n {
        assert(val(z, place(base, w, x[q]), w) == val(x2, place(base, w, x[q]), w));
    } else {
        lemma_held_val(b2, x2, z, result, w);
    }
    z
}

} // verus!
