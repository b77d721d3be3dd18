//! What emitted expressions do.

use vstd::prelude::*;

use crate::bfsc::ast::{BinOp, Ex, TypeAnn, UnOp};
use crate::bfsc::codegen::{in_scopes, Cg, Env};
use crate::bfsc::effect::arith::{
    blk, grown_but, leaves, lemma_add_n, lemma_bytes_val, lemma_const_val, lemma_held_val,
    lemma_same_val, lemma_sub_n, operands, val, word,
};
use crate::bfsc::effect::blocks::{
    apart, held_n, lemma_bfmove_n, lemma_clear_range, lemma_copy_n, lemma_freed_n,
    lemma_set_const_n, lemma_took_n, lent_n, took_n,
};
use crate::bfsc::effect::cells::{
    agree, bit, held, roomy, settled, took, works_bfmove, works_negate,
};
use crate::bfsc::effect::compare::{lemma_freed, lemma_took};
use crate::bfsc::effect::chunks::all_tidy;
use crate::bfsc::effect::division::{lemma_div_n, lemma_mod_n};
use crate::bfsc::effect::elements::{lemma_read_all, lemma_read_counted, place};
use crate::bfsc::effect::far::{
    chunks, lemma_fetched, lemma_slot_inside, lemma_slots_apart, lemma_tidy_kept, room, slot,
};
use crate::bfsc::effect::product::{lemma_beside, lemma_mul_n};
use crate::bfsc::effect::steps::{
    lemma_works_bytes, works, works_talloc, works_talloc_n, works_tfree, works_tfree_n, Cells,
};
use crate::bfsc::effect::truth::{
    lemma_eq_n, lemma_ge_n, lemma_gt_n, lemma_is_nz_n, lemma_le_n, lemma_logic_n, lemma_lt_n,
    lemma_ne_n,
};
use crate::bfsc::emitter::Bf;
use crate::bfsc::layout::{binding, ArrayLayout, CellLayout};
use crate::bfsc::typeck::type_of;
use crate::bfsc::meaning::{apply, eval, far, modulus, row_of, width_of, Store};

verus! {

/// `widened` gives a number in at least `w` cells.
pub proof fn lemma_widened(o: Bf, bf: Bf, x0: Cells, x: Cells, src: int, n: int, w: int) -> (y:
    Cells)
    requires
        works(o, bf, x0, x),
        roomy(bf),
        word(n),
        word(w),
        lent_n(bf, src, n),
    ensures
        works(o, bf.widened(src, n, w).0, x0, y),
        leaves(
            bf,
            bf.widened(src, n, w).0,
            x,
            y,
            bf.widened(src, n, w).1,
            if n < w {
                w
            } else {
                n
            },
            val(x, src, n),
            blk(src, n),
        ),
        forall|k: int| #[trigger] held(bf, k) ==> k >= bf.widened(src, n, w).1 + (if n < w {
            w
        } else {
            n
        }) || k < bf.widened(src, n, w).1 || src <= k < src + n,
{
    broadcast use {works_talloc_n, works_tfree_n};

    reveal(Bf::widened);
    reveal(Bf::widen);
    lemma_works_bytes(o, bf, x0, x);
    if n < w {
        lemma_took_n(bf, w);
        let (b1, t) = bf.talloc_n(w);
        assert(works(o, b1, x0, x));
        lemma_beside(bf, b1, src, n, t, w);
        let x2 = lemma_bfmove_n(o, b1, x0, x, src, t, n);
        let b2 = b1.bfmove_n(src, t, n);
        let x3 = lemma_clear_range(o, b2, x0, x2, t, n, w);
        let b3 = b2.clear_range(t, n, w);
        lemma_freed_n(b3, src, n);
        let c = b3.tfree_n(src, n);
        assert(works(o, c, x0, x3));
        assert(x3[t] == x2[t] && x2[t] == x[src + (t - t)]);
        if n == 2 {
            assert(x3[t + 1] == x2[t + 1] && x2[t + 1] == x[src + (t + 1 - t)]);
        } else {
            assert(x3[t + 1] == 0);
        }
        if w == 4 {
            assert(x3[t + 2] == 0 && x3[t + 3] == 0);
        }
        assert forall|k: int| t <= k < t + w implies #[trigger] held(c, k) by {
            assert(held(b1, k));
            assert(held(b3, k));
        }
        assert forall|k: int| #[trigger] held(bf, k) && !blk(src, n).contains(k) implies held(c, k)
            && !(t <= k < t + w) by {
            assert(held(b1, k));
            assert(held(b3, k));
        }
        assert forall|k: int| held(bf, k) && !blk(src, n).contains(k) implies #[trigger] x3[k]
            == x[k] by {
            assert(!(t <= k < t + w));
            assert(x2[k] == x[k]);
        }
        x3
    } else {
        x
    }
}

/// A step in place, seen as one that gives its result.
proof fn lemma_in_place(bf: Bf, c: Bf, x: Cells, y: Cells, a: int, b: int, n: int, v: int)
    requires
        operands(bf, a, b, n),
        grown_but(bf, c, blk(b, n)),
        val(y, a, n) == v,
        forall|k: int|
            held(bf, k) && !(a <= k < a + n) && !(b <= k < b + n) ==> #[trigger] y[k] == x[k],
    ensures
        leaves(bf, c, x, y, a, n, v, blk(a, n).union(blk(b, n))),
{
    let d = blk(a, n).union(blk(b, n));
    assert forall|k: int| a <= k < a + n implies #[trigger] held(c, k) by {
        assert(held(bf, k) && !blk(b, n).contains(k));
    }
    assert forall|k: int| #[trigger] held(bf, k) && !d.contains(k) implies held(c, k) && !(a <= k
        < a + n) by {
        assert(!blk(a, n).contains(k) && !blk(b, n).contains(k));
    }
    assert forall|k: int| held(bf, k) && !d.contains(k) implies #[trigger] y[k] == x[k] by {
        assert(!blk(a, n).contains(k) && !blk(b, n).contains(k));
    }
}

/// What a binary operator does with operands of the same width.
proof fn lemma_operator(
    o: Bf,
    bf: Bf,
    x0: Cells,
    x: Cells,
    op: BinOp,
    a: int,
    b: int,
    w: int,
) -> (y: Cells)
    requires
        works(o, bf, x0, x),
        operands(bf, a, b, w),
        apply(op, val(x, a, w), val(x, b, w), w) is Some,
    ensures
        ({
            let (v, rw) = apply(op, val(x, a, w), val(x, b, w), w)->Some_0;
            let (c, r, cw) = bf.binop_w(op, a, w, b, w);
            &&& works(o, c, x0, y)
            &&& cw == rw
            &&& leaves(bf, c, x, y, r, rw, v, blk(a, w).union(blk(b, w)))
        }),
{
    reveal(Bf::binop_w);
    reveal(Bf::widened);
    lemma_works_bytes(o, bf, x0, x);
    lemma_bytes_val(x, b, w);
    match op {
        BinOp::Add => {
            let y = lemma_add_n(o, bf, x0, x, a, b, w);
            lemma_in_place(
                bf,
                bf.add_n(a, b, w),
                x,
                y,
                a,
                b,
                w,
                (val(x, a, w) + val(x, b, w)) % modulus(w),
            );
            y
        },
        BinOp::Sub => {
            let y = lemma_sub_n(o, bf, x0, x, a, b, w);
            lemma_in_place(
                bf,
                bf.sub_n(a, b, w),
                x,
                y,
                a,
                b,
                w,
                (val(x, a, w) - val(x, b, w)) % modulus(w),
            );
            y
        },
        BinOp::Mul => lemma_mul_n(o, bf, x0, x, a, b, w),
        BinOp::Div => lemma_div_n(o, bf, x0, x, a, b, w),
        BinOp::Rem => lemma_mod_n(o, bf, x0, x, a, b, w),
        BinOp::Lt => lemma_lt_n(o, bf, x0, x, a, b, w),
        BinOp::Gt => lemma_gt_n(o, bf, x0, x, a, b, w),
        BinOp::Le => lemma_le_n(o, bf, x0, x, a, b, w),
        BinOp::Ge => lemma_ge_n(o, bf, x0, x, a, b, w),
        BinOp::EqEq => lemma_eq_n(o, bf, x0, x, a, b, w),
        BinOp::Ne => lemma_ne_n(o, bf, x0, x, a, b, w),
        BinOp::And => lemma_logic_n(o, bf, x0, x, a, b, w, true),
        BinOp::Or => lemma_logic_n(o, bf, x0, x, a, b, w, false),
    }
}

/// What a binary operator does.
proof fn lemma_binop(
    o: Bf,
    bf: Bf,
    x0: Cells,
    x: Cells,
    op: BinOp,
    a: int,
    aw: int,
    b: int,
    bw: int,
) -> (y: Cells)
    requires
        works(o, bf, x0, x),
        roomy(bf),
        word(aw),
        word(bw),
        lent_n(bf, a, aw),
        lent_n(bf, b, bw),
        apart(a, aw, b, bw),
        apply(
            op,
            val(x, a, aw),
            val(x, b, bw),
            if aw < bw {
                bw
            } else {
                aw
            },
        ) is Some,
    ensures
        ({
            let w = if aw < bw {
                bw
            } else {
                aw
            };
            let (v, rw) = apply(op, val(x, a, aw), val(x, b, bw), w)->Some_0;
            let (c, r, cw) = bf.binop_w(op, a, aw, b, bw);
            &&& works(o, c, x0, y)
            &&& cw == rw
            &&& leaves(bf, c, x, y, r, rw, v, blk(a, aw).union(blk(b, bw)))
        }),
{
    let w = if aw < bw {
        bw
    } else {
        aw
    };
    let x1 = lemma_widened(o, bf, x0, x, a, aw, w);
    let (b1, p) = bf.widened(a, aw, w);
    assert forall|k: int| b <= k < b + bw implies #[trigger] held(b1, k) && x1[k] == x[k] by {
        assert(held(bf, k) && !blk(a, aw).contains(k));
    }
    lemma_held_val(b1, x, x1, b, bw);
    assert(apart(p, w, b, bw)) by {
        if !apart(p, w, b, bw) {
            let k = if p >= b {
                p
            } else {
                b
            };
            assert(held(bf, k) && !blk(a, aw).contains(k));
        }
    }
    let x2 = lemma_widened(o, b1, x0, x1, b, bw, w);
    let (b2, q) = b1.widened(b, bw, w);
    assert forall|k: int| p <= k < p + w implies #[trigger] held(b2, k) && x2[k] == x1[k] by {
        assert(held(b1, k) && !blk(b, bw).contains(k));
    }
    lemma_held_val(b2, x1, x2, p, w);
    assert(apart(p, w, q, w)) by {
        if !apart(p, w, q, w) {
            let k = if p >= q {
                p
            } else {
                q
            };
            assert(held(b1, k) && !blk(b, bw).contains(k));
        }
    }
    let y = lemma_operator(o, b2, x0, x2, op, p, q, w);
    let (c, r, cw) = b2.binop_w(op, p, w, q, w);
    assert((c, r, cw) == bf.binop_w(op, a, aw, b, bw)) by {
        reveal(Bf::binop_w);
        reveal(Bf::widened);
    }
    let d = blk(a, aw).union(blk(b, bw));
    assert forall|k: int| #[trigger] held(bf, k) && !d.contains(k) implies held(c, k) && !(r <= k
        < r + cw) by {
        assert(!blk(a, aw).contains(k) && !blk(b, bw).contains(k));
        assert(held(b1, k) && !(p <= k < p + w));
        assert(held(b2, k) && !(q <= k < q + w));
        assert(!blk(p, w).union(blk(q, w)).contains(k));
    }
    assert forall|k: int| held(bf, k) && !d.contains(k) implies #[trigger] y[k] == x[k] by {
        assert(!blk(a, aw).contains(k) && !blk(b, bw).contains(k));
        assert(held(b1, k) && !(p <= k < p + w));
        assert(x1[k] == x[k]);
        assert(held(b2, k) && !(q <= k < q + w));
        assert(x2[k] == x1[k]);
        assert(!blk(p, w).union(blk(q, w)).contains(k));
    }
    y
}

/// The variables lie apart, in cells that are in use.
pub open spec fn laid(
    types: Seq<(Seq<char>, TypeAnn)>,
    vars: Seq<(Seq<char>, CellLayout)>,
    b: Bf,
) -> bool {
    &&& forall|name: Seq<char>| #[trigger]
        width_of(types, name) matches Some(w) ==> {
            &&& binding(vars, name) is Some
            &&& binding(vars, name)->Some_0.width == w
            &&& held_n(b, binding(vars, name)->Some_0.base as int, w)
        }
    &&& forall|p: Seq<char>, q: Seq<char>|
        #![trigger width_of(types, p), width_of(types, q)]
        p != q && width_of(types, p) is Some && width_of(types, q) is Some ==> beside(vars, p, q)
    &&& forall|name: Seq<char>| #[trigger]
        row_of(types, name) matches Some((w, n)) ==> {
            &&& binding(vars, name) is Some
            &&& binding(vars, name)->Some_0.width == room(far(types, name), w, n)
            &&& held_n(
                b,
                binding(vars, name)->Some_0.base as int,
                binding(vars, name)->Some_0.width as int,
            )
            &&& n == 0 ==> binding(vars, name)->Some_0.base <= b.temp_base
            &&& far(types, name) ==> in_chunks(binding(vars, name)->Some_0, n)
            &&& !far(types, name) ==> in_a_row(binding(vars, name)->Some_0, w, n)
        }
    &&& forall|p: Seq<char>, q: Seq<char>|
        #![trigger width_of(types, p), row_of(types, q)]
        width_of(types, p) is Some && row_of(types, q) is Some ==> beside(vars, p, q)
    &&& forall|p: Seq<char>, q: Seq<char>|
        #![trigger row_of(types, p), row_of(types, q)]
        p != q && row_of(types, p) is Some && row_of(types, q) is Some ==> beside(vars, p, q)
}

/// The names that have a type are resolved to their cells.
pub open spec fn resolves(
    scopes: Seq<Seq<(Seq<char>, CellLayout)>>,
    program: Seq<(Seq<char>, CellLayout)>,
    types: Seq<(Seq<char>, TypeAnn)>,
    vars: Seq<(Seq<char>, CellLayout)>,
) -> bool {
    forall|name: Seq<char>| #[trigger]
        type_of(types, name) is Some ==> in_scopes(scopes, program, name, scopes.len() as int)
            == binding(vars, name)
}

/// A cell of the variable with this name.
pub open spec fn cell_of(
    types: Seq<(Seq<char>, TypeAnn)>,
    vars: Seq<(Seq<char>, CellLayout)>,
    name: Seq<char>,
    k: int,
) -> bool {
    let l = binding(vars, name)->Some_0;
    &&& width_of(types, name) is Some || row_of(types, name) is Some
    &&& l.base <= k < l.base + l.width
}

/// A cell of a variable.
pub open spec fn owned(
    types: Seq<(Seq<char>, TypeAnn)>,
    vars: Seq<(Seq<char>, CellLayout)>,
    k: int,
) -> bool {
    exists|name: Seq<char>| #[trigger] cell_of(types, vars, name, k)
}

/// A cell that is not in use is no variable's.
pub proof fn lemma_not_owned(
    types: Seq<(Seq<char>, TypeAnn)>,
    vars: Seq<(Seq<char>, CellLayout)>,
    b: Bf,
    k: int,
)
    requires
        laid(types, vars, b),
        !held(b, k),
    ensures
        !owned(types, vars, k),
{
    if owned(types, vars, k) {
        let name = choose|name: Seq<char>| #[trigger] cell_of(types, vars, name, k);
        let l = binding(vars, name)->Some_0;
        assert(held_n(b, l.base as int, l.width as int));
    }
}

/// Cells in use lie apart from cells that are not.
pub proof fn lemma_apart(b: Bf, base: int, m: int, r: int, w: int)
    requires
        held_n(b, base, m),
        m > 0 || base <= r,
        w > 0,
        forall|k: int| r <= k < r + w ==> !#[trigger] held(b, k),
    ensures
        apart(base, m, r, w),
        apart(r, w, base, m),
{
    if !apart(base, m, r, w) {
        let k = if base >= r {
            base
        } else {
            r
        };
        assert(held(b, k));
    }
}

/// Variables stay laid out where cells stay in use.
pub proof fn lemma_laid(
    types: Seq<(Seq<char>, TypeAnn)>,
    vars: Seq<(Seq<char>, CellLayout)>,
    b: Bf,
    c: Bf,
)
    requires
        laid(types, vars, b),
        c.temp_base == b.temp_base,
        forall|k: int| #[trigger] held(b, k) && owned(types, vars, k) ==> held(c, k),
    ensures
        laid(types, vars, c),
{
    assert forall|name: Seq<char>| #[trigger] width_of(types, name) is Some implies held_n(
        c,
        binding(vars, name)->Some_0.base as int,
        width_of(types, name)->Some_0,
    ) by {
        let base = binding(vars, name)->Some_0.base as int;
        assert(held_n(b, base, width_of(types, name)->Some_0));
        assert forall|k: int| base <= k < base + width_of(types, name)->Some_0 implies
            #[trigger] held(c, k) by {
            assert(held(b, k));
            assert(cell_of(types, vars, name, k));
        }
    }
    assert forall|name: Seq<char>| #[trigger] row_of(types, name) is Some implies held_n(
        c,
        binding(vars, name)->Some_0.base as int,
        binding(vars, name)->Some_0.width as int,
    ) by {
        let l = binding(vars, name)->Some_0;
        assert(held_n(b, l.base as int, l.width as int));
        assert forall|k: int| l.base <= k < l.base + l.width implies #[trigger] held(c, k) by {
            assert(held(b, k));
            assert(cell_of(types, vars, name, k));
        }
    }
}

/// An array of `n` bytes lies in chunks.
pub open spec fn in_chunks(l: CellLayout, n: int) -> bool {
    &&& n > 256
    &&& l.ty.cells() == 1
    &&& l.layout matches ArrayLayout::Walk { chunk_size, num_chunks } && chunk_size == 256
        && num_chunks == chunks(n)
}

/// An array of `n` numbers lies one behind the other.
pub open spec fn in_a_row(l: CellLayout, w: int, n: int) -> bool {
    &&& l.layout == ArrayLayout::Linear
    &&& l.elements() == n
    &&& l.ty.cells() == w
}

/// The cells of two variables lie apart.
pub open spec fn beside(
    vars: Seq<(Seq<char>, CellLayout)>,
    p: Seq<char>,
    q: Seq<char>,
) -> bool {
    apart(
        binding(vars, p)->Some_0.base as int,
        binding(vars, p)->Some_0.width as int,
        binding(vars, q)->Some_0.base as int,
        binding(vars, q)->Some_0.width as int,
    )
}

/// The cells hold the variables.
pub open spec fn shows(
    types: Seq<(Seq<char>, TypeAnn)>,
    vars: Seq<(Seq<char>, CellLayout)>,
    values: Store,
    x: Cells,
) -> bool {
    &&& forall|name: Seq<char>| #[trigger]
        width_of(types, name) matches Some(w) ==> val(
            x,
            binding(vars, name)->Some_0.base as int,
            w,
        ) == values.nums[name]
    &&& forall|name: Seq<char>| #[trigger]
        row_of(types, name) matches Some((w, n)) ==> shows_row(
            x,
            binding(vars, name)->Some_0.base as int,
            w,
            n,
            values.rows[name],
            far(types, name),
        )
}

/// The cells hold an array.
#[verifier::opaque]
pub open spec fn shows_row(
    x: Cells,
    base: int,
    w: int,
    n: int,
    row: Seq<int>,
    far: bool,
) -> bool {
    &&& row.len() == n
    &&& forall|j: int| 0 <= j < n ==> val(x, slot(far, base, w, j), w) == #[trigger] row[j]
    &&& far ==> all_tidy(x, base, chunks(n))
}

/// An array keeps what it holds where its cells do.
pub proof fn lemma_row_kept(
    x: Cells,
    y: Cells,
    base: int,
    w: int,
    n: int,
    row: Seq<int>,
    far: bool,
)
    requires
        word(w),
        far ==> w == 1,
        shows_row(x, base, w, n, row, far),
        forall|k: int| base <= k < base + room(far, w, n) ==> #[trigger] y[k] == x[k],
    ensures
        shows_row(y, base, w, n, row, far),
{
    reveal(shows_row);
    assert forall|j: int| 0 <= j < n implies val(y, slot(far, base, w, j), w)
        == #[trigger] row[j] by {
        let p = slot(far, base, w, j);
        lemma_slot_inside(far, base, w, n, j);
        assert(y[p] == x[p]);
        if w == 2 {
            assert(y[p + 1] == x[p + 1]);
        }
    }
    if far {
        lemma_tidy_kept(x, y, base, chunks(n), 0, 0);
    }
}

/// Cells in use that hold the same hold the variables.
pub proof fn lemma_shows(
    types: Seq<(Seq<char>, TypeAnn)>,
    vars: Seq<(Seq<char>, CellLayout)>,
    values: Store,
    b: Bf,
    x: Cells,
    y: Cells,
)
    requires
        laid(types, vars, b),
        shows(types, vars, values, x),
        agree(b, x, y),
    ensures
        shows(types, vars, values, y),
{
    assert forall|name: Seq<char>| #[trigger] width_of(types, name) is Some implies val(
        y,
        binding(vars, name)->Some_0.base as int,
        width_of(types, name)->Some_0,
    ) == values.nums[name] by {
        let base = binding(vars, name)->Some_0.base as int;
        let w = width_of(types, name)->Some_0;
        assert(held(b, base));
        assert(y[base] == x[base]);
        if w == 2 {
            assert(held(b, base + 1));
            assert(y[base + 1] == x[base + 1]);
        }
    }
    assert forall|name: Seq<char>| #[trigger] row_of(types, name) is Some implies shows_row(
        y,
        binding(vars, name)->Some_0.base as int,
        row_of(types, name)->Some_0.0,
        row_of(types, name)->Some_0.1,
        values.rows[name],
        far(types, name),
    ) by {
        let base = binding(vars, name)->Some_0.base as int;
        let (w, n) = row_of(types, name)->Some_0;
        let f = far(types, name);
        assert forall|k: int| base <= k < base + room(f, w, n) implies #[trigger] y[k] == x[k] by {
            assert(held(b, k));
        }
        lemma_row_kept(x, y, base, w, n, values.rows[name], f);
    }
}

/// A number has been stored in a variable.
pub proof fn lemma_shows_set(
    types: Seq<(Seq<char>, TypeAnn)>,
    vars: Seq<(Seq<char>, CellLayout)>,
    values: Store,
    b: Bf,
    x: Cells,
    y: Cells,
    name: Seq<char>,
    v: int,
)
    requires
        laid(types, vars, b),
        shows(types, vars, values, x),
        width_of(types, name) is Some,
        ({
            let base = binding(vars, name)->Some_0.base as int;
            let w = width_of(types, name)->Some_0;
            &&& val(y, base, w) == v
            &&& forall|k: int|
                held(b, k) && !(base <= k < base + w) ==> #[trigger] y[k] == x[k]
        }),
    ensures
        shows(types, vars, values.set(name, v), y),
{
    let now = values.set(name, v);
    assert forall|q: Seq<char>| #[trigger] width_of(types, q) is Some implies val(
        y,
        binding(vars, q)->Some_0.base as int,
        width_of(types, q)->Some_0,
    ) == now.nums[q] by {
        if q != name {
            let base = binding(vars, q)->Some_0.base as int;
            assert(beside(vars, q, name));
            assert(held(b, base) && y[base] == x[base]);
            if width_of(types, q)->Some_0 == 2 {
                assert(held(b, base + 1) && y[base + 1] == x[base + 1]);
            }
        }
    }
    assert forall|q: Seq<char>| #[trigger] row_of(types, q) is Some implies shows_row(
        y,
        binding(vars, q)->Some_0.base as int,
        row_of(types, q)->Some_0.0,
        row_of(types, q)->Some_0.1,
        now.rows[q],
        far(types, q),
    ) by {
        let base = binding(vars, q)->Some_0.base as int;
        let (w, n) = row_of(types, q)->Some_0;
        let f = far(types, q);
        assert(beside(vars, name, q));
        assert forall|k: int| base <= k < base + room(f, w, n) implies #[trigger] y[k] == x[k] by {
            assert(held(b, k));
        }
        lemma_row_kept(x, y, base, w, n, now.rows[q], f);
    }
}

/// A number has been stored in an array.
pub proof fn lemma_shows_set_at(
    types: Seq<(Seq<char>, TypeAnn)>,
    vars: Seq<(Seq<char>, CellLayout)>,
    values: Store,
    b: Bf,
    x: Cells,
    y: Cells,
    name: Seq<char>,
    i: int,
    v: int,
)
    requires
        laid(types, vars, b),
        shows(types, vars, values, x),
        row_of(types, name) is Some,
        0 <= i < row_of(types, name)->Some_0.1,
        ({
            let w = row_of(types, name)->Some_0.0;
            let p = slot(far(types, name), binding(vars, name)->Some_0.base as int, w, i);
            &&& val(y, p, w) == v
            &&& forall|k: int| held(b, k) && !(p <= k < p + w) ==> #[trigger] y[k] == x[k]
        }),
    ensures
        shows(types, vars, values.set_at(name, i, v), y),
{
    reveal(shows_row);
    let now = values.set_at(name, i, v);
    let at = binding(vars, name)->Some_0.base as int;
    let (rw, rn) = row_of(types, name)->Some_0;
    let p = slot(far(types, name), at, rw, i);
    lemma_slot_inside(far(types, name), at, rw, rn, i);
    assert forall|q: Seq<char>| #[trigger] width_of(types, q) is Some implies val(
        y,
        binding(vars, q)->Some_0.base as int,
        width_of(types, q)->Some_0,
    ) == now.nums[q] by {
        let base = binding(vars, q)->Some_0.base as int;
        assert(beside(vars, q, name));
        assert(held(b, base) && y[base] == x[base]);
        if width_of(types, q)->Some_0 == 2 {
            assert(held(b, base + 1) && y[base + 1] == x[base + 1]);
        }
    }
    assert forall|q: Seq<char>| #[trigger] row_of(types, q) is Some implies shows_row(
        y,
        binding(vars, q)->Some_0.base as int,
        row_of(types, q)->Some_0.0,
        row_of(types, q)->Some_0.1,
        now.rows[q],
        far(types, q),
    ) by {
        let base = binding(vars, q)->Some_0.base as int;
        let (w, n) = row_of(types, q)->Some_0;
        let f = far(types, q);
        if q == name {
            let row = values.rows[name];
            assert(shows_row(x, at, rw, rn, row, f));
            if f {
                assert forall|k: int|
                    base <= k < base + 1029 * chunks(n) && k != p implies #[trigger] y[k]
                    == x[k] by {
                    assert(held(b, k));
                }
                lemma_tidy_kept(x, y, base, chunks(n), i / 256, i % 256);
            }
            assert forall|j: int| 0 <= j < n implies val(y, slot(f, base, w, j), w)
                == #[trigger] now.rows[q][j] by {
                if j != i {
                    let r = slot(f, base, w, j);
                    lemma_slot_inside(f, base, w, n, j);
                    lemma_slots_apart(f, base, w, i, j);
                    assert(val(x, r, w) == row[j]);
                    assert(held(b, r) && y[r] == x[r]);
                    if w == 2 {
                        assert(held(b, r + 1) && y[r + 1] == x[r + 1]);
                    }
                }
            }
        } else {
            assert(beside(vars, name, q));
            assert forall|k: int| base <= k < base + room(f, w, n) implies #[trigger] y[k]
                == x[k] by {
                assert(held(b, k));
            }
            lemma_row_kept(x, y, base, w, n, now.rows[q], f);
        }
    }
}

/// A step that consumes nothing keeps every cell in use.
pub proof fn lemma_leaves_agree(b: Bf, c: Bf, x: Cells, y: Cells, r: int, w: int, v: int)
    requires
        leaves(b, c, x, y, r, w, v, Set::empty()),
    ensures
        agree(b, x, y),
        forall|k: int| #[trigger] held(b, k) ==> held(c, k) && !(r <= k < r + w),
{
    assert forall|k: int| held(b, k) implies #[trigger] y[k] == x[k] by {
        assert(!Set::<int>::empty().contains(k));
    }
    assert forall|k: int| #[trigger] held(b, k) implies held(c, k) && !(r <= k < r + w) by {
        assert(!Set::<int>::empty().contains(k));
    }
}

/// A number in a new block.
pub proof fn lemma_literal(o: Bf, bf: Bf, x0: Cells, x: Cells, n: int, w: int) -> (y: Cells)
    requires
        works(o, bf, x0, x),
        roomy(bf),
        0 <= n < modulus(w),
        word(w),
    ensures
        ({
            let (b1, t) = bf.talloc_n(w);
            let c = b1.set_const_n(t, n % 0x1_0000_0000, w);
            works(o, c, x0, y) && leaves(bf, c, x, y, t, w, n, Set::empty())
        }),
{
    broadcast use works_talloc_n;

    lemma_took_n(bf, w);
    let (b1, t) = bf.talloc_n(w);
    assert(works(o, b1, x0, x));
    let y = lemma_set_const_n(o, b1, x0, x, t, n % 0x1_0000_0000, w);
    let c = b1.set_const_n(t, n % 0x1_0000_0000, w);
    assert(n % 0x1_0000_0000 == n);
    lemma_const_val(x, y, t, n, w);
    lemma_new_block(bf, b1, c, x, y, t, w, n);
    y
}

/// A copy of a number in a new block.
pub proof fn lemma_read(o: Bf, bf: Bf, x0: Cells, x: Cells, base: int, w: int) -> (y: Cells)
    requires
        works(o, bf, x0, x),
        roomy(bf),
        word(w),
        held_n(bf, base, w),
    ensures
        ({
            let (b1, t) = bf.talloc_n(w);
            let c = b1.copy_n(base, t, w);
            works(o, c, x0, y) && leaves(bf, c, x, y, t, w, val(x, base, w), Set::empty())
        }),
{
    broadcast use works_talloc_n;

    lemma_took_n(bf, w);
    let (b1, t) = bf.talloc_n(w);
    assert(works(o, b1, x0, x));
    lemma_beside(bf, b1, base, w, t, w);
    assert forall|k: int| base <= k < base + w implies #[trigger] held(b1, k) by {
        assert(held(bf, k));
    }
    assert forall|k: int| t <= k < t + w implies #[trigger] held(b1, k) by {}
    let y = lemma_copy_n(o, b1, x0, x, base, t, w);
    let c = b1.copy_n(base, t, w);
    assert(held(b1, t));
    assert(w == 2 ==> held(b1, t + 1));
    assert(y[t] == x[base]);
    assert(w == 2 ==> y[t + 1] == x[base + 1]);
    assert forall|k: int| held(bf, k) implies #[trigger] y[k] == x[k] by {
        assert(held(b1, k) && !(t <= k < t + w));
    }
    lemma_new_block(bf, b1, c, x, y, t, w, val(x, base, w));
    y
}

/// A binary operator behind its operands.
pub proof fn lemma_operate(
    o: Bf,
    bf: Bf,
    c1: Bf,
    c2: Bf,
    x0: Cells,
    x: Cells,
    x1: Cells,
    x2: Cells,
    op: BinOp,
    a: int,
    aw: int,
    va: int,
    b: int,
    bw: int,
    vb: int,
) -> (y: Cells)
    requires
        works(o, c2, x0, x2),
        word(aw),
        word(bw),
        leaves(bf, c1, x, x1, a, aw, va, Set::empty()),
        leaves(c1, c2, x1, x2, b, bw, vb, Set::empty()),
        apply(
            op,
            va,
            vb,
            if aw < bw {
                bw
            } else {
                aw
            },
        ) is Some,
    ensures
        ({
            let w = if aw < bw {
                bw
            } else {
                aw
            };
            let (v, rw) = apply(op, va, vb, w)->Some_0;
            let (c, r, cw) = c2.binop_w(op, a, aw, b, bw);
            &&& works(o, c, x0, y)
            &&& cw == rw
            &&& leaves(bf, c, x, y, r, rw, v, Set::empty())
        }),
{
    lemma_leaves_agree(bf, c1, x, x1, a, aw, va);
    lemma_leaves_agree(c1, c2, x1, x2, b, bw, vb);
    assert forall|k: int| a <= k < a + aw implies #[trigger] held(c2, k) by {
        assert(held(c1, k));
    }
    assert(held(c1, a));
    assert(aw == 2 ==> held(c1, a + 1));
    assert(val(x2, a, aw) == va);
    assert(apart(a, aw, b, bw)) by {
        if !apart(a, aw, b, bw) {
            let k = if a >= b {
                a
            } else {
                b
            };
            assert(held(c1, k));
        }
    }
    let y = lemma_binop(o, c2, x0, x2, op, a, aw, b, bw);
    let (c3, r, w) = c2.binop_w(op, a, aw, b, bw);
    let d = blk(a, aw).union(blk(b, bw));
    assert forall|k: int| #[trigger] held(bf, k) implies held(c3, k) && !(r <= k < r + w) by {
        assert(held(c1, k) && !blk(a, aw).contains(k));
        assert(held(c2, k) && !blk(b, bw).contains(k));
        assert(!d.contains(k));
    }
    assert forall|k: int| held(bf, k) implies #[trigger] y[k] == x[k] by {
        assert(held(c1, k) && !blk(a, aw).contains(k));
        assert(x1[k] == x[k]);
        assert(held(c2, k) && !blk(b, bw).contains(k));
        assert(x2[k] == x1[k]);
        assert(!d.contains(k));
    }
    y
}

/// A sign behind its operand.
pub proof fn lemma_neg(
    o: Bf,
    bf: Bf,
    c1: Bf,
    x0: Cells,
    x: Cells,
    x1: Cells,
    t: int,
    w: int,
    v: int,
) -> (y: Cells)
    requires
        works(o, c1, x0, x1),
        word(w),
        leaves(bf, c1, x, x1, t, w, v, Set::empty()),
    ensures
        ({
            let (b2, zero) = c1.talloc_n(w);
            let c = b2.clear_range(zero, 0, w).sub_n(zero, t, w);
            &&& works(o, c, x0, y)
            &&& leaves(bf, c, x, y, zero, w, (0 - v) % modulus(w), Set::empty())
        }),
{
    broadcast use works_talloc_n;

    lemma_leaves_agree(bf, c1, x, x1, t, w, v);
    lemma_took_n(c1, w);
    let (b2, zero) = c1.talloc_n(w);
    assert(works(o, b2, x0, x1));
    lemma_beside(c1, b2, t, w, zero, w);
    let x3 = lemma_clear_range(o, b2, x0, x1, zero, 0, w);
    let b3 = b2.clear_range(zero, 0, w);
    assert forall|k: int| t <= k < t + w implies #[trigger] held(b3, k) by {
        assert(held(c1, k));
        assert(held(b2, k));
    }
    assert forall|k: int| zero <= k < zero + w implies #[trigger] held(b3, k) by {
        assert(held(b2, k));
    }
    assert(x3[zero] == 0 && x3[t] == x1[t]);
    assert(w == 2 ==> x3[zero + 1] == 0 && x3[t + 1] == x1[t + 1]);
    let y = lemma_sub_n(o, b3, x0, x3, zero, t, w);
    let c = b3.sub_n(zero, t, w);
    assert forall|k: int| zero <= k < zero + w implies #[trigger] held(c, k) by {
        assert(held(b3, k) && !blk(t, w).contains(k));
    }
    assert forall|k: int| #[trigger] held(bf, k) implies held(c, k) && !(zero <= k < zero + w) by {
        assert(held(c1, k) && !(t <= k < t + w));
        assert(held(b2, k));
        assert(held(b3, k) && !blk(t, w).contains(k));
    }
    assert forall|k: int| held(bf, k) implies #[trigger] y[k] == x[k] by {
        assert(held(c1, k) && !(t <= k < t + w));
        assert(x1[k] == x[k]);
        assert(held(b2, k) && !(zero <= k < zero + w));
        assert(x3[k] == x1[k]);
        assert(held(b3, k));
    }
    y
}

/// A negation behind its operand.
pub proof fn lemma_not(
    o: Bf,
    bf: Bf,
    c1: Bf,
    x0: Cells,
    x: Cells,
    x1: Cells,
    t: int,
    w: int,
    v: int,
) -> (y: Cells)
    requires
        works(o, c1, x0, x1),
        word(w),
        leaves(bf, c1, x, x1, t, w, v, Set::empty()),
    ensures
        ({
            let (b2, nz) = c1.is_nz_n(t, w);
            let (c, r) = b2.tfree_n(t, w).negate(nz);
            works(o, c, x0, y) && leaves(bf, c, x, y, r, 1, bit(v == 0), Set::empty())
        }),
{
    broadcast use {works_tfree_n, works_negate};

    lemma_leaves_agree(bf, c1, x, x1, t, w, v);
    let x2 = lemma_is_nz_n(o, c1, x0, x1, t, w);
    let (b2, nz) = c1.is_nz_n(t, w);
    lemma_leaves_agree(c1, b2, x1, x2, nz, 1, bit(v != 0));
    lemma_freed_n(b2, t, w);
    let b3 = b2.tfree_n(t, w);
    assert(works(o, b3, x0, x2));
    assert(held(b2, nz));
    assert(!(t <= nz < t + w)) by {
        if t <= nz < t + w {
            assert(held(c1, nz));
        }
    }
    assert(held(b3, nz));
    let (c, r) = b3.negate(nz);
    let y = choose|y: Cells| #[trigger]
        works(o, c, x0, y) && agree(b3, x2.insert(nz, bit(x2[nz] == 0)), y);
    assert(settled(b3, c));
    assert forall|k: int| #[trigger] held(bf, k) implies held(c, k) && k != nz by {
        assert(held(c1, k) && !(t <= k < t + w));
        assert(held(b2, k));
        assert(held(b3, k));
    }
    assert forall|k: int| held(bf, k) implies #[trigger] y[k] == x[k] by {
        assert(held(c1, k) && !(t <= k < t + w));
        assert(x1[k] == x[k]);
        assert(held(b2, k) && k != nz);
        assert(x2[k] == x1[k]);
        assert(held(b3, k));
    }
    assert(held(c, nz));
    y
}

/// `as_byte` gives the low byte of a value in a cell.
pub proof fn lemma_as_byte(
    o: Bf,
    bf: Bf,
    c1: Bf,
    x0: Cells,
    x: Cells,
    x1: Cells,
    r: int,
    w: int,
    v: int,
) -> (y: Cells)
    requires
        works(o, c1, x0, x1),
        word(w),
        leaves(bf, c1, x, x1, r, w, v, Set::empty()),
    ensures
        works(o, c1.as_byte(r, w).0, x0, y),
        leaves(
            bf,
            c1.as_byte(r, w).0,
            x,
            y,
            c1.as_byte(r, w).1,
            1,
            v % 256,
            Set::empty(),
        ),
{
    broadcast use {works_bfmove, works_talloc, works_tfree_n, lemma_took};

    reveal(Bf::as_byte);
    reveal(Bf::low_byte);
    lemma_works_bytes(o, c1, x0, x1);
    lemma_leaves_agree(bf, c1, x, x1, r, w, v);
    assert(x1.dom().contains(r) && x1.dom().contains(r + 1));
    assert(held(c1, r));
    if w > 1 {
        assert(took(c1, c1.talloc().0, c1.talloc().1));
        let (b2, lo) = c1.talloc();
        assert(held(c1, r + 1));
        let b3 = b2.bfmove(r, lo);
        let x3 = x1.insert(lo, x1[r]).insert(r, 0);
        assert(works(o, b3, x0, x3));
        lemma_freed_n(b3, r, w);
        let b4 = b3.tfree_n(r, w);
        assert(works(o, b4, x0, x3));
        let y = lemma_clear_range(o, b4, x0, x3, r, 1, w);
        let b5 = b4.clear_range(r, 1, w);
        lemma_freed_n(b5, r + 1, w - 1);
        let c = b5.tfree_n(r + 1, w - 1);
        assert(works(o, c, x0, y));
        assert(y[lo] == x1[r]);
        assert forall|k: int| #[trigger] held(bf, k) implies held(c, k) && k != lo by {
            assert(held(c1, k) && !(r <= k < r + w));
            assert(held(b2, k));
            assert(held(b3, k));
            assert(held(b4, k));
            assert(held(b5, k));
        }
        assert forall|k: int| held(bf, k) implies #[trigger] y[k] == x[k] by {
            assert(held(c1, k) && !(r <= k < r + w));
            assert(x1[k] == x[k]);
        }
        assert(held(b2, lo) && held(b3, lo) && held(b4, lo) && held(b5, lo) && held(c, lo));
        y
    } else {
        x1
    }
}

/// A search behind its index.
pub proof fn lemma_looked_up(
    o: Bf,
    bf: Bf,
    b2: Bf,
    c3: Bf,
    x0: Cells,
    x: Cells,
    x2: Cells,
    x3: Cells,
    base: int,
    n: int,
    w: int,
    result: int,
    r: int,
    i: int,
) -> (y: Cells)
    requires
        works(o, c3, x0, x3),
        word(w),
        0 <= n <= 256,
        0 <= i < 256,
        roomy(bf),
        took_n(bf, b2, result, w),
        agree(bf, x, x2),
        leaves(b2, c3, x2, x3, r, 1, i, Set::empty()),
        held_n(bf, base, place(0, w, n)),
        n > 0 || base <= bf.temp_base,
    ensures
        ({
            let c = c3.read_all(r, base, 0, n, w, result).tfree(r);
            &&& works(o, c, x0, y)
            &&& leaves(bf, c, x, y, result, w, val(y, result, w), Set::empty())
            &&& i < n ==> val(y, result, w) == val(x, place(base, w, i), w)
        }),
{
    broadcast use works_tfree;

    lemma_leaves_agree(b2, c3, x2, x3, r, 1, i);
    assert(held(c3, r));
    assert forall|k: int| #[trigger] held(bf, k) implies held(b2, k) && held(c3, k) && k != r && !(
    result <= k < result + w) by {
        assert(held(b2, k));
    }
    assert forall|k: int| result <= k < result + w implies #[trigger] held(c3, k) && k != r by {
        assert(held(b2, k));
    }
    assert(held_n(c3, result, w));
    assert(held_n(c3, base, place(0, w, n))) by {
        assert forall|k: int| base <= k < base + place(0, w, n) implies #[trigger] held(c3, k) by {
            assert(held(bf, k));
        }
    }
    assert(apart(r, 1, result, w)) by {
        if !apart(r, 1, result, w) {
            assert(held(c3, r));
            assert(held(b2, r));
        }
    }
    lemma_apart(bf, base, place(0, w, n), result, w);
    let y = lemma_read_all(o, c3, x0, x3, r, base, 0, n, w, result);
    let b4 = c3.read_all(r, base, 0, n, w, result);
    lemma_freed(b4, r);
    let c = b4.tfree(r);
    assert(works(o, c, x0, y));
    assert forall|k: int| result <= k < result + w implies #[trigger] held(c, k) by {
        assert(held(c3, k) && k != r);
        assert(held(b4, k));
    }
    assert forall|k: int| #[trigger] held(bf, k) implies held(c, k) && !(result <= k < result
        + w) by {
        assert(held(c3, k) && k != r);
        assert(held(b4, k));
    }
    assert forall|k: int| held(bf, k) implies #[trigger] y[k] == x[k] by {
        assert(held(c3, k) && k != r);
        assert(held(b2, k));
        assert(x3[k] == x2[k] && x2[k] == x[k]);
    }
    if i < n {
        let p = place(base, w, i);
        assert(held(bf, p) && held(b2, p));
        assert(x3[p] == x[p]);
        if w == 2 {
            assert(held(bf, p + 1) && held(b2, p + 1));
            assert(x3[p + 1] == x[p + 1]);
        }
    }
    y
}

/// `truncated` gives the low two bytes of a value of four.
proof fn lemma_truncated(o: Bf, bf: Bf, x0: Cells, x: Cells, r: int) -> (y: Cells)
    requires
        works(o, bf, x0, x),
        roomy(bf),
        lent_n(bf, r, 4),
    ensures
        works(o, bf.truncated(r, 4, 2).0, x0, y),
        leaves(
            bf,
            bf.truncated(r, 4, 2).0,
            x,
            y,
            bf.truncated(r, 4, 2).1,
            2,
            val(x, r, 4) % 65536,
            blk(r, 4),
        ),
{
    broadcast use {works_talloc_n, works_tfree_n};

    reveal(Bf::truncated);
    lemma_works_bytes(o, bf, x0, x);
    lemma_took_n(bf, 2);
    let (b1, lo) = bf.talloc_n(2);
    assert(works(o, b1, x0, x));
    lemma_beside(bf, b1, r, 4, lo, 2);
    let x2 = lemma_bfmove_n(o, b1, x0, x, r, lo, 2);
    let b2 = b1.bfmove_n(r, lo, 2);
    let y = lemma_clear_range(o, b2, x0, x2, r, 2, 4);
    let b3 = b2.clear_range(r, 2, 4);
    lemma_freed_n(b3, r, 4);
    let c = b3.tfree_n(r, 4);
    assert(works(o, c, x0, y));
    assert(x.dom().contains(r) && x.dom().contains(r + 1));
    assert(y[lo] == x2[lo] && x2[lo] == x[r + (lo - lo)]);
    assert(y[lo + 1] == x2[lo + 1] && x2[lo + 1] == x[r + (lo + 1 - lo)]);
    assert(val(x, r, 4) == x[r] + 256 * x[r + 1] + 65536 * (x[r + 2] + 256 * x[r + 3]));
    assert forall|k: int| lo <= k < lo + 2 implies #[trigger] held(c, k) by {
        assert(held(b1, k));
        assert(held(b3, k));
    }
    assert forall|k: int| #[trigger] held(bf, k) && !blk(r, 4).contains(k) implies held(c, k) && !(
    lo <= k < lo + 2) by {
        assert(held(b1, k));
        assert(held(b3, k));
    }
    assert forall|k: int| held(bf, k) && !blk(r, 4).contains(k) implies #[trigger] y[k]
        == x[k] by {
        assert(!(lo <= k < lo + 2));
        assert(x2[k] == x[k]);
    }
    y
}

/// A value in two cells.
pub proof fn lemma_resized(
    o: Bf,
    bf: Bf,
    c1: Bf,
    x0: Cells,
    x: Cells,
    x1: Cells,
    r: int,
    w: int,
    v: int,
) -> (y: Cells)
    requires
        works(o, c1, x0, x1),
        word(w),
        leaves(bf, c1, x, x1, r, w, v, Set::empty()),
    ensures
        works(o, c1.resized(r, w, 2).0, x0, y),
        leaves(bf, c1.resized(r, w, 2).0, x, y, c1.resized(r, w, 2).1, 2, v % 65536, Set::empty()),
{
    reveal(Bf::resized);
    reveal(Bf::widened);
    lemma_leaves_agree(bf, c1, x, x1, r, w, v);
    lemma_works_bytes(o, c1, x0, x1);
    lemma_bytes_val(x1, r, w);
    let y = if w == 4 {
        lemma_truncated(o, c1, x0, x1, r)
    } else {
        lemma_widened(o, c1, x0, x1, r, w, 2)
    };
    let (c, t) = c1.resized(r, w, 2);
    assert(leaves(c1, c, x1, y, t, 2, v % 65536, blk(r, w)));
    assert forall|k: int| #[trigger] held(bf, k) implies held(c, k) && !(t <= k < t + 2) by {
        assert(held(c1, k) && !blk(r, w).contains(k));
    }
    assert forall|k: int| held(bf, k) implies #[trigger] y[k] == x[k] by {
        assert(held(c1, k) && !blk(r, w).contains(k));
        assert(x1[k] == x[k]);
    }
    y
}

/// A counter that starts at a value.
pub open spec fn counter(bf: Bf, r: int) -> (Bf, int) {
    let (bf, ti) = bf.talloc_n(2);
    (bf.copy_n(r, ti, 2), ti)
}

pub proof fn lemma_counter(o: Bf, bf: Bf, x0: Cells, x: Cells, r: int) -> (y: Cells)
    requires
        works(o, bf, x0, x),
        roomy(bf),
        held_n(bf, r, 2),
    ensures
        works(o, counter(bf, r).0, x0, y),
        leaves(bf, counter(bf, r).0, x, y, counter(bf, r).1, 2, val(x, r, 2), Set::empty()),
        agree(bf, x, y),
        forall|k: int| #[trigger]
            held(bf, k) ==> held(counter(bf, r).0, k) && !(counter(bf, r).1 <= k < counter(
                bf,
                r,
            ).1 + 2),
{
    let y = lemma_read(o, bf, x0, x, r, 2);
    let (c, ti) = counter(bf, r);
    lemma_leaves_agree(bf, c, x, y, ti, 2, val(x, r, 2));
    y
}

/// A counting search behind its index.
pub open spec fn counted_up(c3: Bf, r: int, base: int, n: int, w: int, result: int) -> Bf {
    let (bf, ti) = counter(c3, r);
    let bf = bf.read_all_counted(ti, base, 0, n, w, result);
    bf.clear_range(ti, 0, 2).tfree_n(ti, 2).tfree_n(r, 2)
}

pub proof fn lemma_counted_up(
    o: Bf,
    bf: Bf,
    b2: Bf,
    c3: Bf,
    x0: Cells,
    x: Cells,
    x2: Cells,
    x3: Cells,
    base: int,
    n: int,
    w: int,
    result: int,
    r: int,
    i: int,
) -> (y: Cells)
    requires
        works(o, c3, x0, x3),
        word(w),
        0 <= n <= 65536,
        0 <= i < 65536,
        roomy(bf),
        took_n(bf, b2, result, w),
        agree(bf, x, x2),
        leaves(b2, c3, x2, x3, r, 2, i, Set::empty()),
        held_n(bf, base, place(0, w, n)),
        n > 0 || base <= bf.temp_base,
    ensures
        ({
            let c = counted_up(c3, r, base, n, w, result);
            &&& works(o, c, x0, y)
            &&& leaves(bf, c, x, y, result, w, val(y, result, w), Set::empty())
            &&& i < n ==> val(y, result, w) == val(x, place(base, w, i), w)
        }),
{
    broadcast use works_tfree_n;

    lemma_leaves_agree(b2, c3, x2, x3, r, 2, i);
    let x4 = lemma_counter(o, c3, x0, x3, r);
    let (b4, ti) = counter(c3, r);
    assert forall|k: int| #[trigger] held(bf, k) implies held(b2, k) && held(c3, k) && held(b4, k)
        && !(r <= k < r + 2) && !(result <= k < result + w) && !(ti <= k < ti + 2) by {
        assert(held(b2, k));
        assert(held(c3, k));
    }
    assert forall|k: int| result <= k < result + w implies #[trigger] held(b4, k) && !(r <= k < r
        + 2) && !(ti <= k < ti + 2) by {
        assert(held(b2, k));
        assert(held(c3, k));
    }
    assert(held_n(b4, result, w));
    assert(held_n(b4, base, place(0, w, n))) by {
        assert forall|k: int| base <= k < base + place(0, w, n) implies #[trigger] held(b4, k) by {
            assert(held(bf, k));
        }
    }
    assert(apart(ti, 2, result, w)) by {
        if !apart(ti, 2, result, w) {
            let k = if ti >= result {
                ti
            } else {
                result
            };
            assert(held(b4, k));
        }
    }
    lemma_apart(bf, base, place(0, w, n), result, w);
    lemma_apart(bf, base, place(0, w, n), ti, 2);
    let x5 = lemma_read_counted(o, b4, x0, x4, ti, base, 0, n, w, result, i);
    let b5 = b4.read_all_counted(ti, base, 0, n, w, result);
    let y = lemma_clear_range(o, b5, x0, x5, ti, 0, 2);
    let b6 = b5.clear_range(ti, 0, 2);
    lemma_freed_n(b6, ti, 2);
    let b7 = b6.tfree_n(ti, 2);
    assert(works(o, b7, x0, y));
    lemma_freed_n(b7, r, 2);
    let c = b7.tfree_n(r, 2);
    assert(works(o, c, x0, y));
    assert forall|k: int| result <= k < result + w implies #[trigger] held(c, k) by {
        assert(held(b4, k));
        assert(held(b5, k));
        assert(held(b6, k));
        assert(held(b7, k));
    }
    assert forall|k: int| #[trigger] held(bf, k) implies held(c, k) && !(result <= k < result
        + w) by {
        assert(held(b4, k));
        assert(held(b5, k));
        assert(held(b6, k));
        assert(held(b7, k));
    }
    assert forall|k: int| held(bf, k) implies #[trigger] y[k] == x[k] by {
        assert(held(b4, k));
        assert(x5[k] == x4[k]);
        assert(held(c3, k));
        assert(x4[k] == x3[k]);
        assert(held(b2, k));
        assert(x3[k] == x2[k] && x2[k] == x[k]);
    }
    assert(held(b4, result) && y[result] == x5[result]);
    if w == 2 {
        assert(held(b4, result + 1) && y[result + 1] == x5[result + 1]);
    }
    if i < n {
        let p = place(base, w, i);
        assert forall|k: int| p <= k < p + w implies #[trigger] held(bf, k) by {
            assert(base <= k < base + place(0, w, n));
        }
        assert forall|k: int| p <= k < p + w implies #[trigger] x4[k] == x[k] by {
            assert(held(bf, k));
            assert(held(b2, k));
            assert(held(c3, k));
            assert(x3[k] == x2[k] && x2[k] == x[k]);
        }
        lemma_same_val(x, x4, p, w);
    }
    y
}

/// A new block of zeros.
pub proof fn lemma_zeros(o: Bf, bf: Bf, x0: Cells, x: Cells, w: int) -> (y: Cells)
    requires
        works(o, bf, x0, x),
        roomy(bf),
        word(w),
    ensures
        ({
            let (b1, t) = bf.talloc_n(w);
            let c = b1.clear_range(t, 0, w);
            works(o, c, x0, y) && took_n(bf, c, t, w) && y[t] == 0
        }),
        agree(bf, x, y),
{
    broadcast use works_talloc_n;

    lemma_took_n(bf, w);
    let (b1, t) = bf.talloc_n(w);
    assert(works(o, b1, x0, x));
    let y = lemma_clear_range(o, b1, x0, x, t, 0, w);
    let c = b1.clear_range(t, 0, w);
    assert forall|k: int| #[trigger] held(c, k) <==> held(bf, k) || t <= k < t + w by {
        assert(held(c, k) == held(b1, k));
    }
    assert forall|k: int| held(bf, k) implies #[trigger] y[k] == x[k] by {
        assert(!(t <= k < t + w));
    }
    y
}

/// An emitted expression gives its value in new cells and keeps all others.
#[verifier::rlimit(100)]
#[verifier::spinoff_prover]
pub proof fn lemma_expr(
    o: Bf,
    cg: Cg,
    x0: Cells,
    x: Cells,
    env: Env,
    fuel: nat,
    types: Seq<(Seq<char>, TypeAnn)>,
    vars: Seq<(Seq<char>, CellLayout)>,
    values: Store,
    e: Ex,
) -> (y: Cells)
    requires
        works(o, cg.bf, x0, x),
        roomy(cg.bf),
        resolves(cg.scopes, env.vars, types, vars),
        laid(types, vars, cg.bf),
        shows(types, vars, values, x),
        eval(types, values, e) is Some,
    ensures
        ({
            let (v, w) = eval(types, values, e)->Some_0;
            let (c, r, cw) = cg.expr(env, fuel, e);
            &&& works(o, c.bf, x0, y)
            &&& cw == w
            &&& word(w)
            &&& leaves(cg.bf, c.bf, x, y, r, w, v, Set::empty())
            &&& c == cg.with(c.bf)
        }),
    decreases e, 0int,
{
    let bf = cg.bf;
    match e {
        Ex::Int(n) => lemma_literal(
            o,
            bf,
            x0,
            x,
            n % 0x1_0000_0000,
            if n < 256 {
                1
            } else if n < 65536 {
                2
            } else {
                4
            },
        ),
        Ex::Var(name) => {
            let w = width_of(types, name)->Some_0;
            let l = binding(vars, name)->Some_0;
            assert(in_scopes(cg.scopes, env.vars, name, cg.scopes.len() as int) == binding(
                vars,
                name,
            ));
            lemma_read(o, bf, x0, x, l.base as int, w)
        },
        Ex::Index(name, idx) => {
            let l = binding(vars, name)->Some_0;
            assert(in_scopes(cg.scopes, env.vars, name, cg.scopes.len() as int) == binding(
                vars,
                name,
            ));
            assert(cg.expr(env, fuel, e) == cg.element(env, fuel, l, *idx));
            lemma_element(o, cg, x0, x, env, fuel, types, vars, values, name, *idx)
        },
        Ex::BinOp(op, left, right) => {
            let x1 = lemma_expr(o, cg, x0, x, env, fuel, types, vars, values, *left);
            let (c1, a, aw) = cg.expr(env, fuel, *left);
            let (va, _) = eval(types, values, *left)->Some_0;
            lemma_leaves_agree(bf, c1.bf, x, x1, a, aw, va);
            lemma_shows(types, vars, values, bf, x, x1);
            lemma_laid(types, vars, bf, c1.bf);
            let x2 = lemma_expr(o, c1, x0, x1, env, fuel, types, vars, values, *right);
            let (c2, b, bw) = c1.expr(env, fuel, *right);
            let (vb, _) = eval(types, values, *right)->Some_0;
            lemma_operate(o, bf, c1.bf, c2.bf, x0, x, x1, x2, op, a, aw, va, b, bw, vb)
        },
        Ex::UnOp(op, inner) => {
            let x1 = lemma_expr(o, cg, x0, x, env, fuel, types, vars, values, *inner);
            let (c1, t, w) = cg.expr(env, fuel, *inner);
            let (v, _) = eval(types, values, *inner)->Some_0;
            match op {
                UnOp::Neg => lemma_neg(o, bf, c1.bf, x0, x, x1, t, w, v),
                UnOp::Not => lemma_not(o, bf, c1.bf, x0, x, x1, t, w, v),
            }
        },
        _ => x,
    }
}

/// An emitted array element.
proof fn lemma_element(
    o: Bf,
    cg: Cg,
    x0: Cells,
    x: Cells,
    env: Env,
    fuel: nat,
    types: Seq<(Seq<char>, TypeAnn)>,
    vars: Seq<(Seq<char>, CellLayout)>,
    values: Store,
    name: Seq<char>,
    idx: Ex,
) -> (y: Cells)
    requires
        works(o, cg.bf, x0, x),
        roomy(cg.bf),
        resolves(cg.scopes, env.vars, types, vars),
        laid(types, vars, cg.bf),
        shows(types, vars, values, x),
        row_of(types, name) is Some,
        eval(types, values, idx) is Some,
        0 <= eval(types, values, idx)->Some_0.0 < row_of(types, name)->Some_0.1,
    ensures
        ({
            let w = row_of(types, name)->Some_0.0;
            let v = values.rows[name][eval(types, values, idx)->Some_0.0];
            let (c, r, cw) = cg.element(env, fuel, binding(vars, name)->Some_0, idx);
            &&& works(o, c.bf, x0, y)
            &&& cw == w
            &&& leaves(cg.bf, c.bf, x, y, r, w, v, Set::empty())
            &&& c == cg.with(c.bf)
        }),
    decreases idx, 1int,
{
    let bf = cg.bf;
    let (w, n) = row_of(types, name)->Some_0;
    let l = binding(vars, name)->Some_0;
    let base = l.base as int;
    let x2 = lemma_zeros(o, bf, x0, x, w);
    let (b1, result) = bf.talloc_n(w);
    let b2 = b1.clear_range(result, 0, w);
    let c2 = cg.with(b2);
    lemma_shows(types, vars, values, bf, x, x2);
    lemma_laid(types, vars, bf, b2);
    let x3 = lemma_expr(o, c2, x0, x2, env, fuel, types, vars, values, idx);
    let (c3, r, rw) = c2.expr(env, fuel, idx);
    let (i, _) = eval(types, values, idx)->Some_0;
    let f = far(types, name);
    assert(shows_row(x, base, w, n, values.rows[name], f));
    reveal(shows_row);
    assert(val(x, slot(f, base, w, i), w) == values.rows[name][i]);
    if f {
        lemma_clear_one(b1, result);
        lemma_works_bytes(o, c3.bf, x0, x3);
        assert(x3.dom().contains(r) && x3.dom().contains(r + 1));
        let x4 = lemma_resized(o, b2, c3.bf, x0, x2, x3, r, rw, i);
        let (b4, p) = c3.bf.resized(r, rw, 2);
        assert(c2.expr_w(env, fuel, idx, 2) == (c3.with(b4), p));
        lemma_fetched(o, bf, b2, b4, x0, x, x2, x4, base, n, result, p, i)
    } else if n > 256 {
        lemma_works_bytes(o, c3.bf, x0, x3);
        assert(x3.dom().contains(r) && x3.dom().contains(r + 1));
        let x4 = lemma_resized(o, b2, c3.bf, x0, x2, x3, r, rw, i);
        let (b4, p) = c3.bf.resized(r, rw, 2);
        assert(c2.expr_w(env, fuel, idx, 2) == (c3.with(b4), p));
        lemma_counted_up(o, bf, b2, b4, x0, x, x2, x4, base, n, w, result, p, i)
    } else {
        let x4 = lemma_as_byte(o, b2, c3.bf, x0, x2, x3, r, rw, i);
        let (b4, p) = c3.bf.as_byte(r, rw);
        assert(c2.expr_1(env, fuel, idx) == (c3.with(b4), p));
        lemma_looked_up(o, bf, b2, b4, x0, x, x2, x4, base, n, w, result, p, i)
    }
}

/// A range of one cell.
pub proof fn lemma_clear_one(b: Bf, c: int)
    ensures
        b.clear_range(c, 0, 1) == b.clear(c),
{
    reveal(Bf::clear_range);
    reveal_with_fuel(Bf::clear_range_rounds, 2);
}

/// A new block that holds a number.
pub proof fn lemma_new_block(bf: Bf, b1: Bf, c: Bf, x: Cells, y: Cells, t: int, w: int, v: int)
    requires
        took_n(bf, b1, t, w),
        settled(b1, c),
        val(y, t, w) == v,
        forall|k: int| held(bf, k) ==> #[trigger] y[k] == x[k],
    ensures
        leaves(bf, c, x, y, t, w, v, Set::empty()),
{
    assert forall|k: int| t <= k < t + w implies #[trigger] held(c, k) by {
        assert(held(b1, k));
    }
    assert forall|k: int| #[trigger] held(bf, k) implies held(c, k) && !(t <= k < t + w) by {
        assert(held(b1, k));
    }
}

} // verus!
