//! What emitted code does with the elements of an array under computed indices.

use vstd::prelude::*;

use crate::bfsc::ast::{Ex, TypeAnn};
use crate::bfsc::codegen::{Cg, Env};
use crate::bfsc::effect::arith::{leaves, lemma_held_val, lemma_zero_val, val, word};
use crate::bfsc::effect::blocks::{
    apart, held_n, lemma_clear_range, lemma_freed_n, lemma_took_n, lent_n,
};
use crate::bfsc::effect::cells::{agree, held, roomy};
use crate::bfsc::effect::compare::lemma_freed;
use crate::bfsc::effect::elements::{lemma_read_all, lemma_write_all, place};
use crate::bfsc::effect::expr::{
    laid, lemma_as_byte, lemma_expr, lemma_laid, lemma_leaves_agree, lemma_shows, owned, resolves,
    shows,
};
use crate::bfsc::effect::steps::{works, works_talloc_n, works_tfree, works_tfree_n, Cells};
use crate::bfsc::emitter::Bf;
use crate::bfsc::layout::CellLayout;
use crate::bfsc::meaning::{eval, Store};

verus! {

/// An array below `limit` whose elements stand one behind the other, at most as
/// many as a byte can tell apart.
pub open spec fn compact(l: CellLayout, limit: int) -> bool {
    &&& l.layout is Linear
    &&& word(l.ty.cells())
    &&& 0 <= l.elements() <= 256
    &&& l.base + place(0, l.ty.cells(), l.elements()) <= limit
}

/// Element `j` of an array.
pub open spec fn element_at(x: Cells, l: CellLayout, j: int) -> int {
    val(x, place(l.base as int, l.ty.cells(), j), l.ty.cells())
}

/// An emitter whose cells hold its variables.
pub open spec fn at_work(
    o: Bf,
    cg: Cg,
    x0: Cells,
    x: Cells,
    env: Env,
    types: Seq<(Seq<char>, TypeAnn)>,
    values: Store,
) -> bool {
    &&& works(o, cg.bf, x0, x)
    &&& roomy(cg.bf)
    &&& resolves(cg.scopes, env.vars, types, env.vars)
    &&& laid(types, env.vars, cg.bf)
    &&& forall|k: int| #[trigger] owned(types, env.vars, k) ==> k < cg.bf.temp_base
    &&& shows(types, env.vars, values, x)
}

/// An index that is a byte, in a cell of its own.
proof fn lemma_index(
    o: Bf,
    cg: Cg,
    x0: Cells,
    x: Cells,
    env: Env,
    fuel: nat,
    types: Seq<(Seq<char>, TypeAnn)>,
    values: Store,
    e: Ex,
) -> (y: Cells)
    requires
        at_work(o, cg, x0, x, env, types, values),
        eval(types, values, e) is Some,
    ensures
        ({
            let (c, p) = cg.expr_1(env, fuel, e);
            &&& works(o, c.bf, x0, y)
            &&& c == cg.with(c.bf)
            &&& leaves(
                cg.bf,
                c.bf,
                x,
                y,
                p,
                1,
                eval(types, values, e)->Some_0.0 % 256,
                Set::empty(),
            )
        }),
{
    let x3 = lemma_expr(o, cg, x0, x, env, fuel, types, env.vars, values, e);
    let (c3, r, rw) = cg.expr(env, fuel, e);
    let (v, _) = eval(types, values, e)->Some_0;
    let x4 = lemma_as_byte(o, cg.bf, c3.bf, x0, x, x3, r, rw, v);
    let (b4, p) = c3.bf.as_byte(r, rw);
    assert(cg.expr_1(env, fuel, e) == (c3.with(b4), p));
    x4
}

/// Storing under an index.
proof fn lemma_stored(
    o: Bf,
    cg: Cg,
    x0: Cells,
    x: Cells,
    env: Env,
    fuel: nat,
    types: Seq<(Seq<char>, TypeAnn)>,
    values: Store,
    l: CellLayout,
    e: Ex,
    v: int,
) -> (y: Cells)
    requires
        at_work(o, cg, x0, x, env, types, values),
        compact(l, cg.bf.temp_base),
        eval(types, values, e) is Some,
        lent_n(cg.bf, v, l.ty.cells()),
    ensures
        ({
            let i = eval(types, values, e)->Some_0.0 % 256;
            let w = l.ty.cells();
            let n = l.elements();
            let c = cg.set_element(env, fuel, l, e, v, w);
            let at = place(l.base as int, w, i);
            &&& works(o, c.bf, x0, y)
            &&& c == cg.with(c.bf)
            &&& roomy(c.bf)
            &&& c.bf.temp_base == cg.bf.temp_base
            &&& forall|k: int| #[trigger]
                held(cg.bf, k) && !(v <= k < v + w) ==> held(c.bf, k)
            &&& i < n ==> val(y, at, w) == val(x, v, w)
            &&& forall|k: int|
                held(cg.bf, k) && !(v <= k < v + w) && !(i < n && at <= k < at + w)
                    ==> #[trigger] y[k] == x[k]
        }),
{
    broadcast use {works_tfree, works_tfree_n};

    let bf = cg.bf;
    let w = l.ty.cells();
    let n = l.elements();
    let base = l.base as int;
    let i = eval(types, values, e)->Some_0.0 % 256;
    reveal(Bf::widened);
    assert(bf.widened(v, w, w) == (bf, v));
    assert(cg.with(bf) == cg);
    let x4 = lemma_index(o, cg, x0, x, env, fuel, types, values, e);
    let (c4, p) = cg.expr_1(env, fuel, e);
    let b4 = c4.bf;
    lemma_leaves_agree(bf, b4, x, x4, p, 1, i);
    assert(held(b4, p));
    assert(x4[p] == i);
    assert forall|k: int| v <= k < v + w implies #[trigger] held(b4, k) && k != p by {
        assert(held(bf, k));
    }
    assert(held_n(b4, v, w));
    assert(held_n(b4, base, place(0, w, n))) by {
        assert forall|k: int| base <= k < base + place(0, w, n) implies #[trigger] held(b4, k) by {
            assert(held(bf, k));
        }
    }
    let y = lemma_write_all(o, b4, x0, x4, p, base, 0, n, w, v);
    let b5 = b4.write_all(p, base, 0, n, w, v);
    lemma_freed(b5, p);
    let b6 = b5.tfree(p);
    assert(works(o, b6, x0, y));
    lemma_freed_n(b6, v, w);
    let b7 = b6.tfree_n(v, w);
    assert(works(o, b7, x0, y));
    let c = cg.set_element(env, fuel, l, e, v, w);
    assert(c == c4.with(b7));
    assert forall|k: int| #[trigger] held(bf, k) && !(v <= k < v + w) implies held(b7, k) by {
        assert(held(b4, k) && k != p);
        assert(held(b5, k));
        assert(held(b6, k));
    }
    let at = place(base, w, i);
    lemma_held_val(bf, x, x4, v, w);
    assert forall|k: int|
        held(bf, k) && !(v <= k < v + w) && !(i < n && at <= k < at
            + w) implies #[trigger] y[k] == x[k] by {
        assert(held(b4, k));
        assert(x4[k] == x[k]);
        assert(y[k] == x4[k]);
    }
    y
}

/// Reading under an index.
proof fn lemma_fetched_element(
    o: Bf,
    cg: Cg,
    x0: Cells,
    x: Cells,
    env: Env,
    fuel: nat,
    types: Seq<(Seq<char>, TypeAnn)>,
    values: Store,
    l: CellLayout,
    e: Ex,
) -> (y: Cells)
    requires
        at_work(o, cg, x0, x, env, types, values),
        compact(l, cg.bf.temp_base),
        eval(types, values, e) is Some,
    ensures
        ({
            let j = eval(types, values, e)->Some_0.0 % 256;
            let w = l.ty.cells();
            let (c, r, rw) = cg.element(env, fuel, l, e);
            &&& works(o, c.bf, x0, y)
            &&& rw == w
            &&& lent_n(c.bf, r, w)
            &&& val(y, r, w) == if j < l.elements() {
                element_at(x, l, j)
            } else {
                0
            }
            &&& agree(cg.bf, x, y)
        }),
{
    broadcast use {works_talloc_n, works_tfree};

    let bf = cg.bf;
    let w = l.ty.cells();
    let n = l.elements();
    let base = l.base as int;
    let j = eval(types, values, e)->Some_0.0 % 256;
    lemma_took_n(bf, w);
    let (b1, t) = bf.talloc_n(w);
    assert(works(o, b1, x0, x));
    let x2 = lemma_clear_range(o, b1, x0, x, t, 0, w);
    let b2 = b1.clear_range(t, 0, w);
    lemma_zero_val(x2, t, w);
    assert forall|k: int| #[trigger] held(b2, k) <==> held(bf, k) || t <= k < t + w by {
        assert(held(b2, k) == held(b1, k));
    }
    assert forall|k: int| held(bf, k) implies #[trigger] x2[k] == x[k] by {
        assert(!(t <= k < t + w));
    }
    lemma_shows(types, env.vars, values, bf, x, x2);
    let c2 = cg.with(b2);
    lemma_laid(types, env.vars, bf, b2);
    let x4 = lemma_index(o, c2, x0, x2, env, fuel, types, values, e);
    let (c4, p) = c2.expr_1(env, fuel, e);
    let b4 = c4.bf;
    lemma_leaves_agree(b2, b4, x2, x4, p, 1, j);
    assert(held(b4, p));
    assert(x4[p] == j);
    assert forall|k: int| t <= k < t + w implies #[trigger] held(b4, k) && k != p by {
        assert(held(b2, k));
    }
    assert(held_n(b4, t, w));
    assert(held_n(b4, base, place(0, w, n))) by {
        assert forall|k: int| base <= k < base + place(0, w, n) implies #[trigger] held(b4, k) by {
            assert(held(bf, k));
            assert(held(b2, k));
        }
    }
    assert(apart(p, 1, t, w)) by {
        if !apart(p, 1, t, w) {
            assert(t <= p < t + w);
            assert(held(b4, p));
        }
    }
    let y = lemma_read_all(o, b4, x0, x4, p, base, 0, n, w, t);
    let b5 = b4.read_all(p, base, 0, n, w, t);
    lemma_freed(b5, p);
    let b6 = b5.tfree(p);
    assert(works(o, b6, x0, y));
    assert(cg.element(env, fuel, l, e) == (c4.with(b6), t, w));
    assert forall|k: int| t <= k < t + w implies #[trigger] held(b6, k) by {
        assert(held(b4, k) && k != p);
        assert(held(b5, k));
    }
    assert forall|k: int| held(bf, k) implies #[trigger] y[k] == x[k] by {
        assert(held(b2, k));
        assert(held(b4, k) && !(t <= k < t + w));
        assert(x4[k] == x2[k]);
    }
    if j < n {
        let at = place(base, w, j);
        assert forall|k: int| at <= k < at + w implies #[trigger] held(bf, k) by {
            assert(base <= k < base + place(0, w, n));
        }
        lemma_held_val(bf, x, x2, at, w);
        assert forall|k: int| at <= k < at + w implies #[trigger] held(b2, k) by {
            assert(held(bf, k));
        }
        lemma_held_val(b2, x2, x4, at, w);
    } else {
        lemma_held_val(b4, x4, y, t, w);
        assert(held_n(b2, t, w));
        lemma_held_val(b2, x2, x4, t, w);
    }
    y
}

/// Reading gives back what was written. One emitter writes the value at `v` into an
/// array of at most 256 elements under the index `ie`, then reads under the index `je`;
/// an index is the low byte `i` or `j` of its expression. The write changes element `i`
/// alone, and none where `i` is outside the array. The read leaves in new cells, as
/// many as an element takes, the value, where `j` is `i` and inside the array, the
/// element as it was, where they differ, and 0 where `j` is outside. The second index
/// is evaluated behind the write, with the variables as the cells `x1` hold them then.
pub proof fn law_elements_are_read_back(
    o: Bf,
    cg: Cg,
    x0: Cells,
    x: Cells,
    env: Env,
    fuel: nat,
    types: Seq<(Seq<char>, TypeAnn)>,
    values: Store,
    after: Store,
    l: CellLayout,
    ie: Ex,
    v: int,
    je: Ex,
) -> (r: (Cells, Cells))
    requires
        at_work(o, cg, x0, x, env, types, values),
        compact(l, cg.bf.temp_base),
        eval(types, values, ie) is Some,
        lent_n(cg.bf, v, l.ty.cells()),
    ensures
        ({
            let (x1, y) = r;
            let w = l.ty.cells();
            let n = l.elements();
            let i = eval(types, values, ie)->Some_0.0 % 256;
            let c1 = cg.set_element(env, fuel, l, ie, v, w);
            &&& works(o, c1.bf, x0, x1)
            &&& forall|k: int|
                0 <= k < n ==> #[trigger] element_at(x1, l, k) == if k == i {
                    val(x, v, w)
                } else {
                    element_at(x, l, k)
                }
            &&& shows(types, env.vars, after, x1) && eval(types, after, je) is Some ==> {
                let j = eval(types, after, je)->Some_0.0 % 256;
                let (c2, result, rw) = c1.element(env, fuel, l, je);
                &&& works(o, c2.bf, x0, y)
                &&& rw == w
                &&& j < n ==> val(y, result, w) == if i == j {
                    val(x, v, w)
                } else {
                    element_at(x, l, j)
                }
                &&& j >= n ==> val(y, result, w) == 0
                &&& forall|k: int|
                    0 <= k < n ==> #[trigger] element_at(y, l, k) == element_at(x1, l, k)
            }
        }),
{
    let w = l.ty.cells();
    let n = l.elements();
    let base = l.base as int;
    let i = eval(types, values, ie)->Some_0.0 % 256;
    let x1 = lemma_stored(o, cg, x0, x, env, fuel, types, values, l, ie, v);
    let c1 = cg.set_element(env, fuel, l, ie, v, w);
    assert forall|k: int| 0 <= k < n implies #[trigger] element_at(x1, l, k) == if k == i {
        val(x, v, w)
    } else {
        element_at(x, l, k)
    } by {
        if k != i {
            let at = place(base, w, k);
            assert forall|m: int| at <= m < at + w implies #[trigger] held(cg.bf, m) by {}
            lemma_held_val(cg.bf, x, x1, at, w);
        }
    }
    if shows(types, env.vars, after, x1) && eval(types, after, je) is Some {
        lemma_laid(types, env.vars, cg.bf, c1.bf);
        let y = lemma_fetched_element(o, c1, x0, x1, env, fuel, types, after, l, je);
        assert forall|k: int| 0 <= k < n implies #[trigger] element_at(y, l, k) == element_at(
            x1,
            l,
            k,
        ) by {
            let at = place(base, w, k);
            assert forall|m: int| at <= m < at + w implies #[trigger] held(c1.bf, m) by {}
            lemma_held_val(c1.bf, x1, y, at, w);
        }
        let j = eval(types, after, je)->Some_0.0 % 256;
        if j < n {
            assert(element_at(x1, l, j) == if j == i {
                val(x, v, w)
            } else {
                element_at(x, l, j)
            });
        }
        (x1, y)
    } else {
        (x1, x1)
    }
}

} // verus!
