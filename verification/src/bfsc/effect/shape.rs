//! Which cells emitted code leaves in use, whatever the cells hold.

use vstd::prelude::*;

use crate::bfsc::ast::{BinOp, Ex, TypeAnn, UnOp};
use crate::bfsc::codegen::{in_scopes, Cg, Env};
use crate::bfsc::effect::arith::{blk, grown_but, leaves, lemma_low_val, val, word};
use crate::bfsc::effect::blocks::{apart, held_n, lemma_bfmove_n, lemma_freed_n, lent_n};
use crate::bfsc::effect::cells::{agree, bit, held, roomy, works_bfmove};
use crate::bfsc::effect::compare::{grown, lemma_freed};
use crate::bfsc::effect::expr::{
    counted_up, laid, lemma_as_byte, lemma_clear_one, lemma_counted_up, lemma_laid,
    lemma_leaves_agree, lemma_literal, lemma_looked_up, lemma_neg, lemma_not, lemma_operate,
    lemma_read, lemma_resized, lemma_widened, lemma_zeros, resolves,
};
use crate::bfsc::effect::far::lemma_fetched_shape;
use crate::bfsc::effect::steps::{
    bytes, lemma_works_bytes, lemma_works_start, works, works_clear, works_tfree, works_tfree_n,
    Cells,
};
use crate::bfsc::effect::truth::lemma_is_nz_n;
use crate::bfsc::emitter::Bf;
use crate::bfsc::layout::{binding, CellLayout};
use crate::bfsc::meaning::{apply, eval, far, modulus, row_of, width_of, Store};

verus! {

/// Whether an expression is made of numbers and arrays of them alone.
pub open spec fn plain_expr(types: Seq<(Seq<char>, TypeAnn)>, e: Ex) -> bool
    decreases e,
{
    match e {
        Ex::Int(n) => 0 <= n,
        Ex::Var(name) => width_of(types, name) is Some,
        Ex::Index(name, idx) => row_of(types, name) is Some && plain_expr(types, *idx),
        Ex::BinOp(_, left, right) => plain_expr(types, *left) && plain_expr(types, *right),
        Ex::UnOp(_, inner) => plain_expr(types, *inner),
        _ => false,
    }
}

/// An expression with a value is plain.
pub proof fn lemma_eval_plain(
    types: Seq<(Seq<char>, TypeAnn)>,
    vars: Store,
    e: Ex,
)
    requires
        eval(types, vars, e) is Some,
    ensures
        plain_expr(types, e),
    decreases e,
{
    match e {
        Ex::Index(_, idx) => {
            lemma_eval_plain(types, vars, *idx);
        },
        Ex::BinOp(_, left, right) => {
            lemma_eval_plain(types, vars, *left);
            lemma_eval_plain(types, vars, *right);
        },
        Ex::UnOp(_, inner) => {
            lemma_eval_plain(types, vars, *inner);
        },
        _ => {},
    }
}

/// Every cell holds 1.
pub open spec fn ones() -> Cells {
    Map::new(|i: int| true, |i: int| 1)
}

/// A step that takes a new block and keeps all cells in use.
pub open spec fn shaped(b: Bf, c: Bf, r: int, w: int) -> bool {
    &&& word(w)
    &&& leaves(b, c, ones(), ones(), r, w, val(ones(), r, w), Set::empty())
}

/// What a step does to the cells in use does not depend on what they hold.
pub proof fn lemma_shaped(b: Bf, c: Bf, x: Cells, y: Cells, r: int, w: int, v: int)
    requires
        word(w),
        leaves(b, c, x, y, r, w, v, Set::empty()),
    ensures
        shaped(b, c, r, w),
{
}

/// The cells in use behind an emitted expression.
pub proof fn lemma_expr_shape(
    cg: Cg,
    env: Env,
    fuel: nat,
    types: Seq<(Seq<char>, TypeAnn)>,
    vars: Seq<(Seq<char>, CellLayout)>,
    e: Ex,
)
    requires
        roomy(cg.bf),
        resolves(cg.scopes, env.vars, types, vars),
        laid(types, vars, cg.bf),
        plain_expr(types, e),
    ensures
        shaped(cg.bf, cg.expr(env, fuel, e).0.bf, cg.expr(env, fuel, e).1, cg.expr(env, fuel, e).2),
        cg.expr(env, fuel, e).0 == cg.with(cg.expr(env, fuel, e).0.bf),
    decreases e,
{
    let bf = cg.bf;
    let x = ones();
    assert(bytes(x));
    match e {
        Ex::Int(n) => {
            lemma_works_start(bf, x);
            let w: int = if n < 256 {
                1
            } else if n < 65536 {
                2
            } else {
                4
            };
            let m = n % 0x1_0000_0000;
            assert(m % 0x1_0000_0000 == m);
            let y = lemma_literal(bf, bf, x, x, m, w);
            let (b1, t) = bf.talloc_n(w);
            lemma_shaped(bf, b1.set_const_n(t, m, w), x, y, t, w, m);
        },
        Ex::Var(name) => {
            lemma_works_start(bf, x);
            let w = width_of(types, name)->Some_0;
            let l = binding(vars, name)->Some_0;
            assert(in_scopes(cg.scopes, env.vars, name, cg.scopes.len() as int) == binding(
                vars,
                name,
            ));
            let base = l.base as int;
            let y = lemma_read(bf, bf, x, x, base, w);
            let (b1, t) = bf.talloc_n(w);
            lemma_shaped(bf, b1.copy_n(base, t, w), x, y, t, w, val(x, base, w));
        },
        Ex::Index(name, idx) => {
            lemma_works_start(bf, x);
            let (w, n) = row_of(types, name)->Some_0;
            let l = binding(vars, name)->Some_0;
            let base = l.base as int;
            assert(in_scopes(cg.scopes, env.vars, name, cg.scopes.len() as int) == binding(
                vars,
                name,
            ));
            let _ = lemma_zeros(bf, bf, x, x, w);
            let (b1, result) = bf.talloc_n(w);
            let b2 = b1.clear_range(result, 0, w);
            let c2 = cg.with(b2);
            lemma_laid(types, vars, bf, b2);
            lemma_expr_shape(c2, env, fuel, types, vars, *idx);
            let (c3, r, rw) = c2.expr(env, fuel, *idx);
            lemma_works_start(c3.bf, x);
            assert(cg.expr(env, fuel, e) == cg.element(env, fuel, l, *idx));
            if far(types, name) {
                lemma_clear_one(b1, result);
                let i = val(x, r, rw);
                let y = lemma_resized(c3.bf, b2, c3.bf, x, x, x, r, rw, i);
                let (b4, p) = c3.bf.resized(r, rw, 2);
                assert(c2.expr_w(env, fuel, *idx, 2) == (c3.with(b4), p));
                lemma_fetched_shape(bf, b2, b4, x, y, base, result, p, i % 65536);
                let c = b4.read_chunks(base, p, 256, result);
                lemma_shaped(bf, c, x, x, result, 1, val(x, result, 1));
            } else if n > 256 {
                let i = val(x, r, rw);
                let y = lemma_resized(c3.bf, b2, c3.bf, x, x, x, r, rw, i);
                let (b4, p) = c3.bf.resized(r, rw, 2);
                assert(c2.expr_w(env, fuel, *idx, 2) == (c3.with(b4), p));
                let z = lemma_counted_up(
                    c3.bf,
                    bf,
                    b2,
                    b4,
                    x,
                    x,
                    x,
                    y,
                    base,
                    n,
                    w,
                    result,
                    p,
                    i % 65536,
                );
                let c = counted_up(b4, p, base, n, w, result);
                lemma_shaped(bf, c, x, z, result, w, val(z, result, w));
            } else {
                let y = lemma_as_byte(c3.bf, b2, c3.bf, x, x, x, r, rw, val(x, r, rw));
                let (b4, p) = c3.bf.as_byte(r, rw);
                let i = val(x, r, rw) % 256;
                assert(c2.expr_1(env, fuel, *idx) == (c3.with(b4), p));
                let z = lemma_looked_up(c3.bf, bf, b2, b4, x, x, x, y, base, n, w, result, p, i);
                let c = b4.read_all(p, base, 0, n, w, result).tfree(p);
                lemma_shaped(bf, c, x, z, result, w, val(z, result, w));
            }
        },
        Ex::BinOp(op, left, right) => {
            lemma_expr_shape(cg, env, fuel, types, vars, *left);
            let (c1, a, aw) = cg.expr(env, fuel, *left);
            lemma_laid(types, vars, bf, c1.bf);
            lemma_expr_shape(c1, env, fuel, types, vars, *right);
            let (c2, b, bw) = c1.expr(env, fuel, *right);
            lemma_works_start(c2.bf, x);
            let va = val(x, a, aw);
            let vb = val(x, b, bw);
            let w = if aw < bw {
                bw
            } else {
                aw
            };
            assert(apply(op, va, vb, w) is Some);
            let y = lemma_operate(
                c2.bf,
                bf,
                c1.bf,
                c2.bf,
                x,
                x,
                x,
                x,
                op,
                a,
                aw,
                va,
                b,
                bw,
                vb,
            );
            let (v, rw) = apply(op, va, vb, w)->Some_0;
            let (c3, r, cw) = c2.bf.binop_w(op, a, aw, b, bw);
            lemma_shaped(bf, c3, x, y, r, rw, v);
        },
        Ex::UnOp(op, inner) => {
            lemma_expr_shape(cg, env, fuel, types, vars, *inner);
            let (c1, t, w) = cg.expr(env, fuel, *inner);
            lemma_works_start(c1.bf, x);
            let v = val(x, t, w);
            match op {
                UnOp::Neg => {
                    let y = lemma_neg(c1.bf, bf, c1.bf, x, x, x, t, w, v);
                    let (b2, zero) = c1.bf.talloc_n(w);
                    let c = b2.clear_range(zero, 0, w).sub_n(zero, t, w);
                    lemma_shaped(bf, c, x, y, zero, w, (0 - v) % modulus(w));
                },
                UnOp::Not => {
                    let y = lemma_not(c1.bf, bf, c1.bf, x, x, x, t, w, v);
                    let (b2, nz) = c1.bf.is_nz_n(t, w);
                    let (c, r) = b2.tfree_n(t, w).negate(nz);
                    lemma_shaped(bf, c, x, y, r, 1, bit(v == 0));
                },
            }
        },
        _ => {},
    }
}

/// `store` moves a number into a variable, cut to its width.
pub proof fn lemma_store(o: Bf, bf: Bf, x0: Cells, x: Cells, v: int, vw: int, l: CellLayout) -> (y:
    Cells)
    requires
        works(o, bf, x0, x),
        roomy(bf),
        word(vw),
        lent_n(bf, v, vw),
        word(l.width as int),
        held_n(bf, l.base as int, l.width as int),
        apart(l.base as int, l.width as int, v, vw),
    ensures
        works(o, bf.store(v, vw, l), x0, y),
        grown_but(bf, bf.store(v, vw, l), blk(v, vw)),
        val(y, l.base as int, l.width as int) == val(x, v, vw) % modulus(l.width as int),
        forall|k: int|
            held(bf, k) && !blk(v, vw).contains(k) && !(l.base <= k < l.base + l.width)
                ==> #[trigger] y[k] == x[k],
{
    broadcast use works_tfree_n;

    let base = l.base as int;
    let w = l.width as int;
    lemma_works_bytes(o, bf, x0, x);
    let x1 = lemma_widened(o, bf, x0, x, v, vw, w);
    let (b1, p) = bf.widened(v, vw, w);
    let pw = if vw < w {
        w
    } else {
        vw
    };
    assert(lent_n(b1, p, pw));
    assert forall|k: int| base <= k < base + w implies #[trigger] held(b1, k) && !(p <= k < p
        + pw) by {
        assert(held(bf, k) && !blk(v, vw).contains(k));
    }
    assert(apart(base, w, p, w)) by {
        if !apart(base, w, p, w) {
            let k = if base >= p {
                base
            } else {
                p
            };
            assert(base <= k < base + w && p <= k < p + pw);
            assert(held(b1, k));
        }
    }
    lemma_works_bytes(o, b1, x0, x1);
    let y = lemma_bfmove_n(o, b1, x0, x1, p, base, w);
    let b2 = b1.bfmove_n(p, base, w);
    lemma_freed_n(b2, p, w);
    let c = b2.tfree_n(p, w);
    assert(works(o, c, x0, y));
    assert(val(y, base, w) == val(x1, p, w)) by {
        assert(y[base] == x1[p + (base - base)]);
        assert(w >= 2 ==> y[base + 1] == x1[p + (base + 1 - base)]);
        assert(w == 4 ==> y[base + 2] == x1[p + (base + 2 - base)]);
        assert(w == 4 ==> y[base + 3] == x1[p + (base + 3 - base)]);
    }
    lemma_low_val(x1, p, pw, w);
    assert forall|k: int| #[trigger] held(bf, k) && !blk(v, vw).contains(k) implies held(c, k) by {
        assert(held(b1, k) && !(p <= k < p + pw));
        assert(held(b2, k));
    }
    assert forall|k: int|
        held(bf, k) && !blk(v, vw).contains(k) && !(base <= k < base + w) implies #[trigger] y[k]
        == x[k] by {
        assert(held(b1, k) && !(p <= k < p + pw));
        assert(x1[k] == x[k]);
    }
    y
}

/// What the code of a condition leaves in its cell.
pub open spec fn signal(v: int, w: int) -> int {
    if w == 1 {
        v
    } else {
        bit(v != 0)
    }
}

/// The end of a condition: its value is moved into the cell `cc`.
pub open spec fn settle(c1: Bf, r: int, w: int, cc: int, again: bool) -> Bf {
    let (bf, v) = c1.truth(r, w);
    let bf = if again {
        bf.clear(cc)
    } else {
        bf
    };
    bf.bfmove(v, cc).tfree(v)
}

/// `settle` signals in `cc` whether a value is not 0.
pub proof fn lemma_settle(
    o: Bf,
    bf: Bf,
    c1: Bf,
    x0: Cells,
    x: Cells,
    x1: Cells,
    r: int,
    w: int,
    v: int,
    cc: int,
    again: bool,
) -> (y: Cells)
    requires
        works(o, c1, x0, x1),
        word(w),
        leaves(bf, c1, x, x1, r, w, v, Set::empty()),
        held(bf, cc),
    ensures
        works(o, settle(c1, r, w, cc, again), x0, y),
        grown(bf, settle(c1, r, w, cc, again)),
        agree(bf, x.insert(cc, signal(v, w)), y),
{
    broadcast use {works_bfmove, works_clear, works_tfree, works_tfree_n};

    lemma_leaves_agree(bf, c1, x, x1, r, w, v);
    assert(held(c1, r));
    assert(held(c1, cc) && !(r <= cc < r + w));
    let (b3, p, x3) = if w > 1 {
        let x2 = lemma_is_nz_n(o, c1, x0, x1, r, w);
        let (b2, nz) = c1.is_nz_n(r, w);
        lemma_leaves_agree(c1, b2, x1, x2, nz, 1, bit(v != 0));
        lemma_freed_n(b2, r, w);
        let b3 = b2.tfree_n(r, w);
        assert(works(o, b3, x0, x2));
        assert(held(b2, nz));
        assert(!(r <= nz < r + w)) by {
            if r <= nz < r + w {
                assert(held(c1, nz));
            }
        }
        assert(held(b3, nz));
        assert forall|k: int| #[trigger] held(bf, k) implies held(b3, k) && k != nz && x2[k]
            == x[k] by {
            assert(held(c1, k) && !(r <= k < r + w));
            assert(x1[k] == x[k]);
            assert(held(b2, k));
            assert(x2[k] == x1[k]);
        }
        (b3, nz, x2)
    } else {
        assert forall|k: int| #[trigger] held(bf, k) implies held(c1, k) && k != r && x1[k]
            == x[k] by {}
        (c1, r, x1)
    };
    assert(c1.truth(r, w) == (b3, p));
    assert(held(b3, p) && p >= bf.temp_base && p != cc);
    lemma_works_bytes(o, b3, x0, x3);
    let b4 = if again {
        b3.clear(cc)
    } else {
        b3
    };
    let x4 = if again {
        x3.insert(cc, 0)
    } else {
        x3
    };
    assert(works(o, b4, x0, x4));
    let b5 = b4.bfmove(p, cc);
    let y = x4.insert(cc, x4[p]).insert(p, 0);
    assert(works(o, b5, x0, y));
    lemma_freed(b5, p);
    let c = b5.tfree(p);
    assert(works(o, c, x0, y));
    assert(c == settle(c1, r, w, cc, again));
    assert forall|k: int| held(bf, k) implies #[trigger] y[k] == x.insert(cc, signal(v, w))[k] by {
        assert(held(b3, k) && k != p && x3[k] == x[k]);
    }
    assert forall|k: int| #[trigger] held(bf, k) implies held(c, k) by {
        assert(held(b3, k) && k != p);
        assert(held(b5, k));
    }
    y
}

} // verus!
