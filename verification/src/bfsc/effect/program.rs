//! Emitted programs do what BFS programs mean.

use vstd::prelude::*;

use crate::bfsc::ast::{Ex, Lv, Sm, TypeAnn};
use crate::bfsc::codegen::{in_scopes, Cg, Env};
use crate::bfsc::effect::arith::{blk, leaves, lemma_same_val, val, word};
use crate::bfsc::effect::blocks::{
    apart, held_n, lemma_clear_range, lemma_freed_n, lemma_took_n, lent_n,
};
use crate::bfsc::effect::calls::{entered, lemma_entered, lemma_expanded, vars_inside};
use crate::bfsc::effect::cells::{agree, held, roomy, settled, took};
use crate::bfsc::effect::compare::{grown, lemma_freed, lemma_took, lent};
use crate::bfsc::effect::elements::{lemma_write_all, lemma_write_counted, place};
use crate::bfsc::effect::expr::{
    counter, laid, lemma_apart, lemma_as_byte, lemma_counter, lemma_laid, lemma_leaves_agree,
    lemma_new_block, lemma_resized, lemma_widened, owned, resolves, shows,
};
use crate::bfsc::effect::far::{lemma_delivered_shape, lemma_store_byte};
use crate::bfsc::effect::flow::{
    goes, lemma_get, lemma_goes_ends, lemma_goes_quiet, lemma_goes_then, lemma_goes_works,
    lemma_put,
};
use crate::bfsc::effect::print::{lemma_print_num, lemma_print_wide};
use crate::bfsc::effect::scan::lemma_scan_num;
use crate::bfsc::effect::shape::{
    lemma_expr_shape, lemma_settle, lemma_shaped, lemma_store, ones, plain_expr, settle, shaped,
};
use crate::bfsc::effect::steps::{
    bytes, lemma_works_start, with, works, works_setv, works_talloc, works_talloc_n, works_tfree,
    works_tfree_n, Cells,
};
use crate::bfsc::emitter::Bf;
use crate::bfsc::layout::{binding, CellLayout};
use crate::bfsc::meaning::{
    decimal, far, modulus, passes, procedure, row_of, scanned, types_inside, width_of, BfsState,
    Calls,
};
use crate::interp::machine::{written_bytes, Source, St};
use crate::interp::preserve::gives_bytes;

verus! {

/// Whether a statement is made of numbers, and arrays of them that two bytes can
/// index, alone. Functions that are called have arrays for parameters, no result and no
/// variables of their own.
pub open spec fn plain(k: Calls, types: Seq<(Seq<char>, TypeAnn)>, s: Sm) -> bool
    decreases k.depth, s, 0int,
{
    match s {
        Sm::Let(name, TypeAnn::Scalar(_), Some(e)) => !k.inside && width_of(types, name) is Some
            && plain_expr(types, e),
        Sm::Let(_, TypeAnn::Scalar(_), None) => !k.inside,
        Sm::Assign(Lv::Var(name), e) => width_of(types, name) is Some && plain_expr(types, e),
        Sm::Let(_, TypeAnn::Array(_, _), None) => !k.inside,
        Sm::Assign(Lv::Index(name, idx), e) => {
            &&& row_of(types, name) is Some
            &&& plain_expr(types, idx)
            &&& plain_expr(types, e)
        },
        Sm::While(cond, body) => plain_expr(types, cond) && all_plain(k, types, body, 0),
        Sm::If(cond, then_, else_) => {
            &&& plain_expr(types, cond)
            &&& all_plain(k, types, then_, 0)
            &&& match else_ {
                Some(block) => all_plain(k, types, block, 0),
                None => true,
            }
        },
        Sm::Print(e) => plain_expr(types, e),
        Sm::Putchar(e) => plain_expr(types, e),
        Sm::Setpixel(x, y, color) => plain_expr(types, x) && plain_expr(types, y) && plain_expr(
            types,
            color,
        ),
        Sm::Scan(Lv::Var(name)) => width_of(types, name) is Some,
        Sm::Scan(Lv::Index(name, idx)) => row_of(types, name) is Some && plain_expr(types, idx),
        Sm::Getchar(Lv::Var(name)) => width_of(types, name) is Some,
        Sm::Getchar(Lv::Index(name, idx)) => row_of(types, name) is Some && plain_expr(types, idx),
        Sm::Call(name, args) => match procedure(k.fns, name) {
            Some(f) => k.depth > 0 && passes(types, f.params, args) && all_plain(
                k.inner(),
                types_inside(types, f.params, args),
                f.body,
                0,
            ),
            None => false,
        },
        _ => false,
    }
}

/// Whether the statements from `i` on are plain.
pub open spec fn all_plain(
    k: Calls,
    types: Seq<(Seq<char>, TypeAnn)>,
    ss: Seq<Sm>,
    i: int,
) -> bool
    decreases k.depth, ss, ss.len() - i,
{
    if i < 0 || i >= ss.len() {
        true
    } else {
        plain(k, types, ss[i]) && all_plain(k, types, ss, i + 1)
    }
}

/// The calls are those of the place that the code generator is at.
pub open spec fn at_depth(k: Calls, cg: Cg, env: Env, fuel: nat) -> bool {
    &&& k.fns == env.fns
    &&& k.depth == fuel
    &&& k.inside == (cg.scopes.len() > 0)
}

/// The code generator works on variables in cells that are in use.
pub open spec fn ready(
    cg: Cg,
    env: Env,
    types: Seq<(Seq<char>, TypeAnn)>,
    vars: Seq<(Seq<char>, CellLayout)>,
) -> bool {
    &&& roomy(cg.bf)
    &&& resolves(cg.scopes, env.vars, types, vars)
    &&& laid(types, vars, cg.bf)
}

/// The code generator stays ready where cells stay in use.
pub proof fn lemma_ready(
    cg: Cg,
    c: Cg,
    env: Env,
    types: Seq<(Seq<char>, TypeAnn)>,
    vars: Seq<(Seq<char>, CellLayout)>,
)
    requires
        ready(cg, env, types, vars),
        roomy(c.bf),
        c.bf.temp_base == cg.bf.temp_base,
        c.scopes == cg.scopes,
        forall|k: int| #[trigger] held(cg.bf, k) ==> held(c.bf, k),
    ensures
        ready(c, env, types, vars),
{
    lemma_laid(types, vars, cg.bf, c.bf);
}

/// A state of the tape mirrors a state of the program.
pub open spec fn mirrors(
    types: Seq<(Seq<char>, TypeAnn)>,
    vars: Seq<(Seq<char>, CellLayout)>,
    p: BfsState,
    s: St,
) -> bool {
    &&& shows(types, vars, p.vars, s.cells)
    &&& written_bytes(s.trace) == p.out
    &&& s.reads == p.reads
}

/// The cells in use that are no variable's hold the same.
pub open spec fn temps_kept(
    types: Seq<(Seq<char>, TypeAnn)>,
    vars: Seq<(Seq<char>, CellLayout)>,
    b: Bf,
    x: Cells,
    y: Cells,
) -> bool {
    forall|k: int| !owned(types, vars, k) && held(b, k) ==> #[trigger] y[k] == x[k]
}

/// The cells in use behind `expr_1`.
pub proof fn lemma_expr_1_shape(
    cg: Cg,
    env: Env,
    fuel: nat,
    types: Seq<(Seq<char>, TypeAnn)>,
    vars: Seq<(Seq<char>, CellLayout)>,
    e: Ex,
)
    requires
        ready(cg, env, types, vars),
        plain_expr(types, e),
    ensures
        shaped(cg.bf, cg.expr_1(env, fuel, e).0.bf, cg.expr_1(env, fuel, e).1, 1),
        cg.expr_1(env, fuel, e).0 == cg.with(cg.expr_1(env, fuel, e).0.bf),
{
    lemma_expr_shape(cg, env, fuel, types, vars, e);
    let (c1, r, w) = cg.expr(env, fuel, e);
    let x = ones();
    assert(bytes(x));
    lemma_works_start(c1.bf, x);
    let y = lemma_as_byte(c1.bf, cg.bf, c1.bf, x, x, x, r, w, val(x, r, w));
    let (b, p) = c1.bf.as_byte(r, w);
    lemma_shaped(cg.bf, b, x, y, p, 1, val(x, r, w) % 256);
}

/// The cells in use behind a condition.
pub proof fn lemma_condition_shape(
    cg: Cg,
    env: Env,
    fuel: nat,
    types: Seq<(Seq<char>, TypeAnn)>,
    vars: Seq<(Seq<char>, CellLayout)>,
    cond: Ex,
    cc: int,
    again: bool,
)
    requires
        ready(cg, env, types, vars),
        plain_expr(types, cond),
        held(cg.bf, cc),
    ensures
        grown(cg.bf, cg.condition(env, fuel, cond, cc, again).bf),
        cg.condition(env, fuel, cond, cc, again).scopes == cg.scopes,
{
    lemma_expr_shape(cg, env, fuel, types, vars, cond);
    let (c1, r, w) = cg.expr(env, fuel, cond);
    let x = ones();
    assert(bytes(x));
    lemma_works_start(c1.bf, x);
    let _ = lemma_settle(c1.bf, cg.bf, c1.bf, x, x, x, r, w, val(x, r, w), cc, again);
    assert(cg.condition(env, fuel, cond, cc, again) == c1.with(settle(c1.bf, r, w, cc, again)));
}

/// The cells in use behind an assignment.
pub proof fn lemma_assign_shape(
    cg: Cg,
    env: Env,
    fuel: nat,
    types: Seq<(Seq<char>, TypeAnn)>,
    vars: Seq<(Seq<char>, CellLayout)>,
    name: Seq<char>,
    e: Ex,
)
    requires
        ready(cg, env, types, vars),
        width_of(types, name) is Some,
        plain_expr(types, e),
    ensures
        grown(cg.bf, cg.assign(env, fuel, binding(vars, name)->Some_0, e).bf),
        cg.assign(env, fuel, binding(vars, name)->Some_0, e).scopes == cg.scopes,
{
    let l = binding(vars, name)->Some_0;
    lemma_expr_shape(cg, env, fuel, types, vars, e);
    let (c1, v, vw) = cg.expr(env, fuel, e);
    let x = ones();
    assert(bytes(x));
    lemma_works_start(c1.bf, x);
    lemma_leaves_agree(cg.bf, c1.bf, x, x, v, vw, val(x, v, vw));
    lemma_apart(cg.bf, l.base as int, l.width as int, v, vw);
    lemma_laid(types, vars, cg.bf, c1.bf);
    let _ = lemma_store(c1.bf, c1.bf, x, x, v, vw, l);
    let c = c1.bf.store(v, vw, l);
    assert forall|k: int| #[trigger] held(cg.bf, k) implies held(c, k) by {
        assert(held(c1.bf, k) && !blk(v, vw).contains(k));
    }
}

/// A value is written into an array behind its index.
pub open spec fn written(b4: Bf, p: int, base: int, n: int, w: int, v: int) -> Bf {
    b4.write_all(p, base, 0, n, w, v).tfree(p).tfree_n(v, w)
}

pub proof fn lemma_written(
    o: Bf,
    bf: Bf,
    b2: Bf,
    b4: Bf,
    x0: Cells,
    x: Cells,
    x2: Cells,
    x4: Cells,
    base: int,
    n: int,
    w: int,
    v: int,
    p: int,
    i: int,
) -> (y: Cells)
    requires
        works(o, b4, x0, x4),
        word(w),
        0 <= n <= 256,
        0 <= i < 256,
        b2.temp_base == bf.temp_base,
        lent_n(b2, v, w),
        forall|k: int| #[trigger] held(bf, k) ==> held(b2, k) && !(v <= k < v + w),
        agree(bf, x, x2),
        leaves(b2, b4, x2, x4, p, 1, i, Set::empty()),
        held_n(bf, base, place(0, w, n)),
        n > 0 || base <= bf.temp_base,
    ensures
        works(o, written(b4, p, base, n, w, v), x0, y),
        grown(bf, written(b4, p, base, n, w, v)),
        i < n ==> {
            let at = place(base, w, i);
            &&& val(y, at, w) == val(x2, v, w)
            &&& forall|k: int| held(bf, k) && !(at <= k < at + w) ==> #[trigger] y[k] == x[k]
        },
{
    broadcast use {works_tfree, works_tfree_n};

    lemma_leaves_agree(b2, b4, x2, x4, p, 1, i);
    assert(held(b4, p));
    assert forall|k: int| v <= k < v + w implies #[trigger] held(b4, k) && k != p by {
        assert(held(b2, k));
    }
    assert(held_n(b4, v, w));
    assert forall|k: int| #[trigger] held(bf, k) implies held(b4, k) && k != p && !(v <= k < v
        + w) by {
        assert(held(b2, k));
    }
    assert(held_n(b4, base, place(0, w, n))) by {
        assert forall|k: int| base <= k < base + place(0, w, n) implies #[trigger] held(b4, k) by {
            assert(held(bf, k));
        }
    }
    lemma_apart(bf, base, place(0, w, n), v, w);
    lemma_apart(bf, base, place(0, w, n), p, 1);
    let y = lemma_write_all(o, b4, x0, x4, p, base, 0, n, w, v);
    let b5 = b4.write_all(p, base, 0, n, w, v);
    lemma_freed(b5, p);
    let b6 = b5.tfree(p);
    assert(works(o, b6, x0, y));
    lemma_freed_n(b6, v, w);
    let c = b6.tfree_n(v, w);
    assert(works(o, c, x0, y));
    assert forall|k: int| #[trigger] held(bf, k) implies held(c, k) by {
        assert(held(b4, k) && k != p);
        assert(held(b5, k));
        assert(held(b6, k));
    }
    if i < n {
        let at = place(base, w, i);
        assert(held(b2, v) && x4[v] == x2[v]);
        assert(w == 2 ==> held(b2, v + 1) && x4[v + 1] == x2[v + 1]);
        assert forall|k: int| held(bf, k) && !(at <= k < at + w) implies #[trigger] y[k] == x[k] by {
            assert(held(b4, k));
            assert(held(b2, k));
            assert(x4[k] == x2[k] && x2[k] == x[k]);
        }
    }
    y
}

/// A value is written into a long array behind its index.
pub open spec fn written_far(b4: Bf, p: int, base: int, n: int, w: int, v: int) -> Bf {
    let (bf, ti) = counter(b4, p);
    let bf = bf.write_all_counted(ti, base, 0, n, w, v);
    bf.clear_range(ti, 0, 2).tfree_n(ti, 2).tfree_n(p, 2).tfree_n(v, w)
}

pub proof fn lemma_written_far(
    o: Bf,
    bf: Bf,
    b2: Bf,
    b4: Bf,
    x0: Cells,
    x: Cells,
    x2: Cells,
    x4: Cells,
    base: int,
    n: int,
    w: int,
    v: int,
    p: int,
    i: int,
) -> (y: Cells)
    requires
        works(o, b4, x0, x4),
        word(w),
        0 <= n <= 65536,
        0 <= i < 65536,
        b2.temp_base == bf.temp_base,
        lent_n(b2, v, w),
        forall|k: int| #[trigger] held(bf, k) ==> held(b2, k) && !(v <= k < v + w),
        agree(bf, x, x2),
        leaves(b2, b4, x2, x4, p, 2, i, Set::empty()),
        held_n(bf, base, place(0, w, n)),
        n > 0 || base <= bf.temp_base,
    ensures
        works(o, written_far(b4, p, base, n, w, v), x0, y),
        grown(bf, written_far(b4, p, base, n, w, v)),
        i < n ==> {
            let at = place(base, w, i);
            &&& val(y, at, w) == val(x2, v, w)
            &&& forall|k: int| held(bf, k) && !(at <= k < at + w) ==> #[trigger] y[k] == x[k]
        },
{
    broadcast use works_tfree_n;

    lemma_leaves_agree(b2, b4, x2, x4, p, 2, i);
    let x5 = lemma_counter(o, b4, x0, x4, p);
    let (b5, ti) = counter(b4, p);
    assert forall|k: int| v <= k < v + w implies #[trigger] held(b5, k) && !(ti <= k < ti + 2) by {
        assert(held(b2, k));
        assert(held(b4, k));
    }
    assert(held_n(b5, v, w));
    assert forall|k: int| #[trigger] held(bf, k) implies held(b4, k) && held(b5, k) && !(p <= k < p
        + 2) && !(ti <= k < ti + 2) && !(v <= k < v + w) by {
        assert(held(b2, k));
        assert(held(b4, k));
    }
    assert(held_n(b5, base, place(0, w, n))) by {
        assert forall|k: int| base <= k < base + place(0, w, n) implies #[trigger] held(b5, k) by {
            assert(held(bf, k));
        }
    }
    assert(apart(ti, 2, v, w)) by {
        if !apart(ti, 2, v, w) {
            let k = if ti >= v {
                ti
            } else {
                v
            };
            assert(held(b5, k));
        }
    }
    lemma_apart(bf, base, place(0, w, n), v, w);
    lemma_apart(bf, base, place(0, w, n), ti, 2);
    let x6 = lemma_write_counted(o, b5, x0, x5, ti, base, 0, n, w, v, i);
    let b6 = b5.write_all_counted(ti, base, 0, n, w, v);
    let y = lemma_clear_range(o, b6, x0, x6, ti, 0, 2);
    let b7 = b6.clear_range(ti, 0, 2);
    lemma_freed_n(b7, ti, 2);
    let b8 = b7.tfree_n(ti, 2);
    assert(works(o, b8, x0, y));
    lemma_freed_n(b8, p, 2);
    let b9 = b8.tfree_n(p, 2);
    assert(works(o, b9, x0, y));
    lemma_freed_n(b9, v, w);
    let c = b9.tfree_n(v, w);
    assert(works(o, c, x0, y));
    assert forall|k: int| #[trigger] held(bf, k) implies held(c, k) by {
        assert(held(b5, k));
        assert(held(b6, k));
        assert(held(b7, k));
        assert(held(b8, k));
        assert(held(b9, k));
    }
    if i < n {
        let at = place(base, w, i);
        assert forall|k: int| v <= k < v + w implies #[trigger] x5[k] == x2[k] by {
            assert(held(b2, k));
            assert(held(b4, k));
            assert(x4[k] == x2[k]);
        }
        lemma_same_val(x2, x5, v, w);
        assert forall|k: int| at <= k < at + w implies #[trigger] y[k] == x6[k] by {
            assert(held(bf, k));
        }
        lemma_same_val(x6, y, at, w);
        assert forall|k: int| held(bf, k) && !(at <= k < at + w) implies #[trigger] y[k] == x[k] by {
            assert(held(b5, k));
            assert(x6[k] == x5[k]);
            assert(held(b4, k));
            assert(x5[k] == x4[k]);
            assert(held(b2, k));
            assert(x4[k] == x2[k] && x2[k] == x[k]);
        }
    }
    y
}

/// The cells in use behind a value that goes into an array.
pub proof fn lemma_set_element_shape(
    bf: Bf,
    c1: Cg,
    env: Env,
    fuel: nat,
    types: Seq<(Seq<char>, TypeAnn)>,
    vars: Seq<(Seq<char>, CellLayout)>,
    name: Seq<char>,
    idx: Ex,
    v: int,
    vw: int,
)
    requires
        ready(c1, env, types, vars),
        laid(types, vars, bf),
        shaped(bf, c1.bf, v, vw),
        row_of(types, name) is Some,
        plain_expr(types, idx),
    ensures
        grown(bf, c1.set_element(env, fuel, binding(vars, name)->Some_0, idx, v, vw).bf),
        c1.set_element(env, fuel, binding(vars, name)->Some_0, idx, v, vw).scopes == c1.scopes,
{
    let (w, n) = row_of(types, name)->Some_0;
    let l = binding(vars, name)->Some_0;
    let base = l.base as int;
    let x = ones();
    assert(bytes(x));
    lemma_works_start(c1.bf, x);
    lemma_leaves_agree(bf, c1.bf, x, x, v, vw, val(x, v, vw));
    let _ = lemma_widened(c1.bf, c1.bf, x, x, v, vw, w);
    let (b2, v2) = c1.bf.widened(v, vw, w);
    let w2 = if vw < w {
        w
    } else {
        vw
    };
    let c2 = c1.with(b2);
    assert(lent_n(b2, v2, w)) by {
        assert forall|k: int| v2 <= k < v2 + w implies #[trigger] held(b2, k) by {
            assert(v2 <= k < v2 + w2);
        }
    }
    assert forall|k: int| #[trigger] held(bf, k) implies held(b2, k) && !(v2 <= k < v2 + w) by {
        assert(held(c1.bf, k) && !blk(v, vw).contains(k));
    }
    lemma_laid(types, vars, bf, b2);
    let c = c1.set_element(env, fuel, l, idx, v, vw);
    if far(types, name) {
        let _ = lemma_store_byte(c1.bf, c1.bf, x, x, v, vw);
        let (b2, v2) = c1.bf.store_byte(v, vw);
        let c2 = c1.with(b2);
        assert forall|k: int| #[trigger] held(bf, k) implies held(b2, k) && k != v2 by {
            assert(held(c1.bf, k) && !blk(v, vw).contains(k));
        }
        lemma_laid(types, vars, bf, b2);
        lemma_expr_shape(c2, env, fuel, types, vars, idx);
        let (c3, r, rw) = c2.expr(env, fuel, idx);
        lemma_works_start(c3.bf, x);
        let i = val(x, r, rw);
        let x4 = lemma_resized(c3.bf, b2, c3.bf, x, x, x, r, rw, i);
        let (b4, p) = c3.bf.resized(r, rw, 2);
        assert(c2.expr_w(env, fuel, idx, 2) == (c3.with(b4), p));
        lemma_delivered_shape(bf, b2, b4, x, x4, base, v2, p, i % 65536);
        assert(c.bf == b4.write_chunks(base, p, 256, v2));
    } else if n > 256 {
        lemma_expr_shape(c2, env, fuel, types, vars, idx);
        let (c3, r, rw) = c2.expr(env, fuel, idx);
        lemma_works_start(c3.bf, x);
        let i = val(x, r, rw);
        let x4 = lemma_resized(c3.bf, b2, c3.bf, x, x, x, r, rw, i);
        let (b4, p) = c3.bf.resized(r, rw, 2);
        assert(c2.expr_w(env, fuel, idx, 2) == (c3.with(b4), p));
        let _ = lemma_written_far(
            c3.bf,
            bf,
            b2,
            b4,
            x,
            x,
            x,
            x4,
            base,
            n,
            w,
            v2,
            p,
            i % 65536,
        );
        assert(c.bf == written_far(b4, p, base, n, w, v2));
    } else {
        lemma_expr_1_shape(c2, env, fuel, types, vars, idx);
        let (c4, p) = c2.expr_1(env, fuel, idx);
        lemma_works_start(c4.bf, x);
        let i = val(x, p, 1);
        let _ = lemma_written(c4.bf, bf, b2, c4.bf, x, x, x, x, base, n, w, v2, p, i);
        assert(c.bf == written(c4.bf, p, base, n, w, v2));
    }
}

/// The cells in use behind an assignment to an array.
proof fn lemma_assign_at_shape(
    cg: Cg,
    env: Env,
    fuel: nat,
    types: Seq<(Seq<char>, TypeAnn)>,
    vars: Seq<(Seq<char>, CellLayout)>,
    name: Seq<char>,
    idx: Ex,
    e: Ex,
)
    requires
        ready(cg, env, types, vars),
        row_of(types, name) is Some,
        plain_expr(types, idx),
        plain_expr(types, e),
    ensures
        grown(cg.bf, cg.stmt(env, fuel, Sm::Assign(Lv::Index(name, idx), e)).bf),
        cg.stmt(env, fuel, Sm::Assign(Lv::Index(name, idx), e)).scopes == cg.scopes,
{
    let l = binding(vars, name)->Some_0;
    assert(in_scopes(cg.scopes, env.vars, name, cg.scopes.len() as int) == binding(vars, name));
    lemma_expr_shape(cg, env, fuel, types, vars, e);
    let (c1, v, vw) = cg.expr(env, fuel, e);
    lemma_ready(cg, c1, env, types, vars);
    lemma_set_element_shape(cg.bf, c1, env, fuel, types, vars, name, idx, v, vw);
    assert(cg.stmt(env, fuel, Sm::Assign(Lv::Index(name, idx), e)) == c1.set_element(
        env,
        fuel,
        l,
        idx,
        v,
        vw,
    ));
}

/// The cells that a byte for an array is read into.
pub open spec fn byte_in(bf: Bf, w: int) -> (Bf, int) {
    let (bf, t) = bf.talloc_n(w);
    (bf.inp(t).clear_range(t, 1, w), t)
}

/// A byte for an array is read.
pub proof fn lemma_byte_in(bf: Bf, w: int, s: St, source: Source) -> (m: St)
    requires
        roomy(bf),
        word(w),
        s.ptr == bf.ptr,
        bytes(s.cells),
        gives_bytes(source),
    ensures
        ({
            let (c, t) = byte_in(bf, w);
            &&& goes(bf, c, s, m, source)
            &&& leaves(bf, c, s.cells, m.cells, t, w, source(s.reads), Set::empty())
        }),
        m.reads == s.reads + 1,
        written_bytes(m.trace) == written_bytes(s.trace),
{
    broadcast use works_talloc_n;

    lemma_took_n(bf, w);
    let (b1, t) = bf.talloc_n(w);
    lemma_works_start(bf, s.cells);
    assert(works(bf, b1, s.cells, s.cells));
    lemma_goes_works(bf, b1, s, s.cells, source);
    let s1 = with(s, s.cells, b1.ptr);
    let s2 = lemma_get(bf, b1, t, s, s1, source);
    let b2 = b1.inp(t);
    lemma_goes_ends(bf, b2, s, s2, source);
    lemma_works_start(b2, s2.cells);
    let y = lemma_clear_range(b2, b2, s2.cells, s2.cells, t, 1, w);
    let c = b2.clear_range(t, 1, w);
    lemma_goes_works(b2, c, s2, y, source);
    let m = with(s2, y, c.ptr);
    lemma_goes_then(bf, b2, c, s, s2, m, source);
    lemma_new_block(bf, b1, c, s.cells, y, t, w, source(s.reads));
    m
}

/// The cells that a number for an array is read into.
pub open spec fn number_in(bf: Bf, w: int) -> (Bf, int) {
    let (bf, t) = bf.talloc_n(w);
    (bf.scan_num_n(t, w), t)
}

/// A number for an array is read.
pub proof fn lemma_number_in(bf: Bf, w: int, s: St, source: Source, fuel: nat) -> (m: St)
    requires
        roomy(bf),
        word(w),
        s.ptr == bf.ptr,
        bytes(s.cells),
        gives_bytes(source),
        scanned(source, s.reads, 0, modulus(w), fuel) is Some,
    ensures
        ({
            let (c, t) = number_in(bf, w);
            let (v, reads) = scanned(source, s.reads, 0, modulus(w), fuel)->Some_0;
            &&& goes(bf, c, s, m, source)
            &&& leaves(bf, c, s.cells, m.cells, t, w, v, Set::empty())
            &&& m.reads == reads
        }),
        written_bytes(m.trace) == written_bytes(s.trace),
{
    broadcast use works_talloc_n;

    lemma_took_n(bf, w);
    let (b1, t) = bf.talloc_n(w);
    lemma_works_start(bf, s.cells);
    assert(works(bf, b1, s.cells, s.cells));
    lemma_goes_works(bf, b1, s, s.cells, source);
    let s1 = with(s, s.cells, b1.ptr);
    assert(held_n(b1, t, w)) by {
        assert forall|k: int| t <= k < t + w implies #[trigger] held(b1, k) by {}
    }
    let m = lemma_scan_num(b1, t, w, s1, source, fuel);
    let c = b1.scan_num_n(t, w);
    lemma_goes_then(bf, b1, c, s, s1, m, source);
    assert forall|k: int| t <= k < t + w implies #[trigger] held(c, k) by {
        assert(held(b1, k));
    }
    assert forall|k: int| #[trigger] held(bf, k) implies held(c, k) && !(t <= k < t + w) by {
        assert(held(b1, k));
    }
    assert forall|k: int| held(bf, k) implies #[trigger] m.cells[k] == s.cells[k] by {
        assert(held(b1, k) && !(t <= k < t + w));
    }
    m
}

/// The cells in use behind a byte or a number that is read into an array.
proof fn lemma_read_at_shape(
    cg: Cg,
    env: Env,
    fuel: nat,
    types: Seq<(Seq<char>, TypeAnn)>,
    vars: Seq<(Seq<char>, CellLayout)>,
    stmt: Sm,
    name: Seq<char>,
    idx: Ex,
)
    requires
        ready(cg, env, types, vars),
        row_of(types, name) is Some,
        plain_expr(types, idx),
        stmt == Sm::Getchar(Lv::Index(name, idx)) || stmt == Sm::Scan(Lv::Index(name, idx)),
    ensures
        grown(cg.bf, cg.stmt(env, fuel, stmt).bf),
        cg.stmt(env, fuel, stmt).scopes == cg.scopes,
{
    let bf = cg.bf;
    let (w, _) = row_of(types, name)->Some_0;
    let l = binding(vars, name)->Some_0;
    assert(in_scopes(cg.scopes, env.vars, name, cg.scopes.len() as int) == binding(vars, name));
    let x = ones();
    assert(bytes(x));
    let s = St { cells: x, ptr: bf.ptr, trace: Seq::empty(), reads: 0 };
    let source: Source = |n: nat| 0;
    if stmt is Getchar {
        let m = lemma_byte_in(bf, w, s, source);
        let (c, t) = byte_in(bf, w);
        lemma_shaped(bf, c, x, m.cells, t, w, 0);
        lemma_ready(cg, cg.with(c), env, types, vars);
        lemma_set_element_shape(bf, cg.with(c), env, fuel, types, vars, name, idx, t, w);
    } else {
        let m = lemma_number_in(bf, w, s, source, 0);
        let (c, t) = number_in(bf, w);
        lemma_shaped(bf, c, x, m.cells, t, w, 0);
        lemma_ready(cg, cg.with(c), env, types, vars);
        lemma_set_element_shape(bf, cg.with(c), env, fuel, types, vars, name, idx, t, w);
    }
}

/// Growth behind growth.
pub proof fn lemma_grown_then(a: Bf, b: Bf, c: Bf)
    requires
        grown(a, b),
        grown(b, c),
    ensures
        grown(a, c),
{
    assert forall|k: int| #[trigger] held(a, k) implies held(c, k) by {
        assert(held(b, k));
    }
}

/// Going back to an earlier set of cells in use, with one of them.
pub proof fn lemma_restored(early: Bf, late: Bf, cc: int)
    requires
        roomy(early),
        late.temp_base == early.temp_base,
        lent(early, cc),
    ensures
        late.trestore(early.used).reserve(cc).used == early.used,
{
    let d = late.trestore(early.used).reserve(cc);
    assert(d.used =~= early.used);
}

/// A cell taken and given back.
pub proof fn lemma_taken_back(bf: Bf, b1: Bf, c: Bf, cc: int)
    requires
        roomy(bf),
        took(bf, b1, cc),
        grown(b1, c),
    ensures
        grown(bf, c.tfree(cc)),
{
    broadcast use lemma_took;

    lemma_freed(c, cc);
    assert forall|k: int| #[trigger] held(bf, k) implies held(c.tfree(cc), k) by {
        assert(held(b1, k) && k != cc);
        assert(held(c, k));
    }
}

/// The cells in use behind a loop.
pub proof fn lemma_while_shape(
    k: Calls,
    cg: Cg,
    env: Env,
    fuel: nat,
    types: Seq<(Seq<char>, TypeAnn)>,
    vars: Seq<(Seq<char>, CellLayout)>,
    cond: Ex,
    body: Seq<Sm>,
)
    requires
        ready(cg, env, types, vars),
        at_depth(k, cg, env, fuel),
        plain_expr(types, cond),
        all_plain(k, types, body, 0),
    ensures
        grown(cg.bf, cg.while_loop(env, fuel, cond, body).bf),
        cg.while_loop(env, fuel, cond, body).scopes == cg.scopes,
    decreases k.depth, body, body.len() + 1,
{
    broadcast use lemma_took;

    assert(took(cg.bf, cg.bf.talloc().0, cg.bf.talloc().1));
    let (b1, cc) = cg.bf.talloc();
    let b2 = b1.clear(cc);
    assert(took(cg.bf, b2, cc));
    assert(held(b2, cc));
    let g1 = cg.with(b2);
    lemma_ready(cg, g1, env, types, vars);
    lemma_condition_shape(g1, env, fuel, types, vars, cond, cc, false);
    let g2 = g1.condition(env, fuel, cond, cc, false);
    lemma_restored(b2, g2.bf, cc);
    let b3 = g2.bf.trestore(b2.used).reserve(cc).goto(cc).raw("["@);
    let g3 = g2.with(b3);
    assert(b3.used == b2.used);
    assert(grown(b2, b3));
    lemma_ready(g1, g3, env, types, vars);
    lemma_stmts_shape(k, g3, env, fuel, types, vars, body, 0);
    let g4 = g3.stmts(env, fuel, body, 0);
    assert(held(b3, cc));
    assert(held(g4.bf, cc));
    lemma_ready(g3, g4, env, types, vars);
    lemma_condition_shape(g4, env, fuel, types, vars, cond, cc, true);
    let g5 = g4.condition(env, fuel, cond, cc, true);
    lemma_restored(g4.bf, g5.bf, cc);
    let b6 = g5.bf.trestore(g4.bf.used).reserve(cc).goto(cc).raw("]"@);
    assert(b6.used == g4.bf.used);
    assert(grown(g4.bf, b6));
    lemma_grown_then(b2, b3, g4.bf);
    lemma_grown_then(b2, g4.bf, b6);
    lemma_taken_back(cg.bf, b2, b6, cc);
}

/// The cells in use behind statements.
pub proof fn lemma_stmts_shape(
    k: Calls,
    cg: Cg,
    env: Env,
    fuel: nat,
    types: Seq<(Seq<char>, TypeAnn)>,
    vars: Seq<(Seq<char>, CellLayout)>,
    ss: Seq<Sm>,
    i: int,
)
    requires
        ready(cg, env, types, vars),
        at_depth(k, cg, env, fuel),
        all_plain(k, types, ss, i),
    ensures
        grown(cg.bf, cg.stmts(env, fuel, ss, i).bf),
        cg.stmts(env, fuel, ss, i).scopes == cg.scopes,
    decreases k.depth, ss, ss.len() - i,
{
    if 0 <= i < ss.len() {
        lemma_stmt_shape(k, cg, env, fuel, types, vars, ss[i]);
        let c = cg.stmt(env, fuel, ss[i]);
        lemma_ready(cg, c, env, types, vars);
        lemma_stmts_shape(k, c, env, fuel, types, vars, ss, i + 1);
        lemma_grown_then(cg.bf, c.bf, c.stmts(env, fuel, ss, i + 1).bf);
    }
}

/// The two cells of a choice, the first one cleared.
pub open spec fn choice_cells(bf: Bf) -> (Bf, int, int) {
    let (b1, cc) = bf.talloc();
    let (b2, ef) = b1.talloc();
    (b2.clear(cc), cc, ef)
}

/// What stands between the condition of a choice and its first block.
pub open spec fn choice_open(g: Cg, saved: Set<int>, cc: int, ef: int) -> Cg {
    g.with(g.bf.trestore(saved).reserve(cc).reserve(ef).setv(ef, 1).goto(cc).raw("["@).clear(ef))
}

/// What stands behind the first block of a choice.
pub open spec fn choice_shut(g: Cg, cc: int) -> Cg {
    g.with(g.bf.clear(cc).goto(cc).raw("]"@))
}

/// The second block of a choice.
pub open spec fn choice_else(g: Cg, env: Env, fuel: nat, ef: int, else_: Option<Seq<Sm>>) -> Cg {
    match else_ {
        Some(block) => {
            let h = g.with(g.bf.goto(ef).raw("["@)).stmts(env, fuel, block, 0);
            h.with(h.bf.clear(ef).goto(ef).raw("]"@))
        },
        None => g,
    }
}

/// A choice is its parts.
pub proof fn lemma_choice_parts(cg: Cg, env: Env, fuel: nat, s: Sm)
    requires
        s is If,
    ensures
        ({
            let (b3, cc, ef) = choice_cells(cg.bf);
            let g2 = cg.with(b3).condition(env, fuel, s->If_0, cc, false);
            let g3 = choice_open(g2, cg.bf.used, cc, ef);
            let g5 = choice_shut(g3.stmts(env, fuel, s->If_1, 0), cc);
            let g6 = choice_else(g5, env, fuel, ef, s->If_2);
            cg.choice(env, fuel, s) == g6.with(g6.bf.tfree(ef).tfree(cc))
        }),
{
}

/// The two cells of a choice.
pub proof fn lemma_choice_cells(bf: Bf)
    requires
        roomy(bf),
    ensures
        ({
            let (b3, cc, ef) = choice_cells(bf);
            let b1 = bf.talloc().0;
            &&& took(bf, b1, cc)
            &&& took(b1, b3, ef)
            &&& roomy(b1)
            &&& roomy(b3)
            &&& lent(b3, cc)
            &&& lent(b3, ef)
            &&& cc != ef
            &&& grown(bf, b3)
            &&& !held(bf, cc)
            &&& !held(bf, ef)
        }),
{
    broadcast use lemma_took;

    assert(took(bf, bf.talloc().0, bf.talloc().1));
    let (b1, cc) = bf.talloc();
    assert(took(b1, b1.talloc().0, b1.talloc().1));
    let (b2, ef) = b1.talloc();
    let b3 = b2.clear(cc);
    assert(took(b1, b3, ef));
    assert(held(b1, cc));
    assert(held(b3, cc) && held(b3, ef));
    assert(!held(bf, ef)) by {
        if held(bf, ef) {
            assert(held(b1, ef));
        }
    }
    assert forall|k: int| #[trigger] held(bf, k) implies held(b3, k) by {
        assert(held(b1, k));
    }
}

/// The cells in use behind the condition of a choice.
pub proof fn lemma_choice_open(bf: Bf, g: Cg)
    requires
        roomy(bf),
        g.bf.temp_base == bf.temp_base,
    ensures
        ({
            let (b3, cc, ef) = choice_cells(bf);
            settled(b3, choice_open(g, bf.used, cc, ef).bf)
        }),
{
    lemma_choice_cells(bf);
    let (b3, cc, ef) = choice_cells(bf);
    let d = choice_open(g, bf.used, cc, ef).bf;
    assert(d.used =~= b3.used);
}

/// The cells in use behind the second block of a choice.
pub proof fn lemma_else_shape(
    k: Calls,
    g: Cg,
    env: Env,
    fuel: nat,
    types: Seq<(Seq<char>, TypeAnn)>,
    vars: Seq<(Seq<char>, CellLayout)>,
    ef: int,
    else_: Option<Seq<Sm>>,
)
    requires
        ready(g, env, types, vars),
        at_depth(k, g, env, fuel),
        else_ matches Some(block) ==> all_plain(k, types, block, 0),
    ensures
        grown(g.bf, choice_else(g, env, fuel, ef, else_).bf),
        choice_else(g, env, fuel, ef, else_).scopes == g.scopes,
    decreases k.depth, else_, 0int,
{
    match else_ {
        Some(block) => {
            let h = g.with(g.bf.goto(ef).raw("["@));
            lemma_ready(g, h, env, types, vars);
            lemma_stmts_shape(k, h, env, fuel, types, vars, block, 0);
            let c = h.stmts(env, fuel, block, 0).bf;
            assert forall|k: int| #[trigger] held(g.bf, k) implies held(
                c.clear(ef).goto(ef).raw("]"@),
                k,
            ) by {
                assert(held(h.bf, k));
                assert(held(c, k));
            }
        },
        None => {},
    }
}

/// The cells in use behind a choice.
proof fn lemma_choice_shape(
    k: Calls,
    cg: Cg,
    env: Env,
    fuel: nat,
    types: Seq<(Seq<char>, TypeAnn)>,
    vars: Seq<(Seq<char>, CellLayout)>,
    s: Sm,
)
    requires
        ready(cg, env, types, vars),
        at_depth(k, cg, env, fuel),
        plain(k, types, s),
        s is If,
    ensures
        grown(cg.bf, cg.choice(env, fuel, s).bf),
        cg.choice(env, fuel, s).scopes == cg.scopes,
    decreases k.depth, s, 0int,
{
    let (b3, cc, ef) = choice_cells(cg.bf);
    let b1 = cg.bf.talloc().0;
    lemma_choice_parts(cg, env, fuel, s);
    lemma_choice_cells(cg.bf);
    let g1 = cg.with(b3);
    lemma_ready(cg, g1, env, types, vars);
    lemma_condition_shape(g1, env, fuel, types, vars, s->If_0, cc, false);
    let g2 = g1.condition(env, fuel, s->If_0, cc, false);
    lemma_choice_open(cg.bf, g2);
    let g3 = choice_open(g2, cg.bf.used, cc, ef);
    assert(grown(b3, g3.bf));
    lemma_ready(g1, g3, env, types, vars);
    lemma_stmts_shape(k, g3, env, fuel, types, vars, s->If_1, 0);
    let g4 = g3.stmts(env, fuel, s->If_1, 0);
    let g5 = choice_shut(g4, cc);
    assert(settled(g4.bf, g5.bf));
    assert(grown(g4.bf, g5.bf));
    lemma_ready(g3, g5, env, types, vars);
    lemma_else_shape(k, g5, env, fuel, types, vars, ef, s->If_2);
    let g6 = choice_else(g5, env, fuel, ef, s->If_2);
    lemma_grown_then(b3, g3.bf, g4.bf);
    lemma_grown_then(b3, g4.bf, g5.bf);
    lemma_grown_then(b3, g5.bf, g6.bf);
    lemma_taken_back(b1, b3, g6.bf, ef);
    lemma_taken_back(cg.bf, b1, g6.bf.tfree(ef), cc);
}

/// The cells in use behind a statement.
pub proof fn lemma_stmt_shape(
    k: Calls,
    cg: Cg,
    env: Env,
    fuel: nat,
    types: Seq<(Seq<char>, TypeAnn)>,
    vars: Seq<(Seq<char>, CellLayout)>,
    s: Sm,
)
    requires
        ready(cg, env, types, vars),
        at_depth(k, cg, env, fuel),
        plain(k, types, s),
    ensures
        grown(cg.bf, cg.stmt(env, fuel, s).bf),
        cg.stmt(env, fuel, s).scopes == cg.scopes,
    decreases k.depth, s, 1int,
{
    match s {
        Sm::Let(name, TypeAnn::Scalar(_), Some(e)) => {
            assert(in_scopes(cg.scopes, env.vars, name, cg.scopes.len() as int) == binding(
                vars,
                name,
            ));
            lemma_assign_shape(cg, env, fuel, types, vars, name, e);
        },
        Sm::Let(name, TypeAnn::Scalar(_), None) => {},
        Sm::Assign(Lv::Var(name), e) => {
            assert(in_scopes(cg.scopes, env.vars, name, cg.scopes.len() as int) == binding(
                vars,
                name,
            ));
            lemma_assign_shape(cg, env, fuel, types, vars, name, e);
        },
        Sm::Let(_, TypeAnn::Array(_, _), None) => {},
        Sm::Assign(Lv::Index(name, idx), e) => {
            lemma_assign_at_shape(cg, env, fuel, types, vars, name, idx, e);
        },
        Sm::While(cond, body) => {
            lemma_while_shape(k, cg, env, fuel, types, vars, cond, body);
        },
        Sm::If(_, _, _) => {
            lemma_choice_shape(k, cg, env, fuel, types, vars, s);
        },
        Sm::Print(e) => {
            lemma_print_shape(cg, env, fuel, types, vars, e);
        },
        Sm::Putchar(e) => {
            lemma_expr_1_shape(cg, env, fuel, types, vars, e);
            let (c1, v) = cg.expr_1(env, fuel, e);
            lemma_used_up(cg.bf, c1.bf, c1.bf.out_cell(v), v);
        },
        Sm::Setpixel(x, y, color) => {
            lemma_expr_1_shape(cg, env, fuel, types, vars, x);
            let (c1, xc) = cg.expr_1(env, fuel, x);
            lemma_ready(cg, c1, env, types, vars);
            lemma_expr_1_shape(c1, env, fuel, types, vars, y);
            let (c2, yc) = c1.expr_1(env, fuel, y);
            lemma_ready(c1, c2, env, types, vars);
            lemma_expr_1_shape(c2, env, fuel, types, vars, color);
            let (c3, cc) = c2.expr_1(env, fuel, color);
            lemma_pixel_shape(cg.bf, c1.bf, c2.bf, c3.bf, xc, yc, cc);
        },
        Sm::Scan(Lv::Index(name, idx)) | Sm::Getchar(Lv::Index(name, idx)) => {
            lemma_read_at_shape(cg, env, fuel, types, vars, s, name, idx);
        },
        Sm::Scan(Lv::Var(name)) => {
            assert(in_scopes(cg.scopes, env.vars, name, cg.scopes.len() as int) == binding(
                vars,
                name,
            ));
            let l = binding(vars, name)->Some_0;
            let x = ones();
            assert(bytes(x));
            let s = St { cells: x, ptr: cg.bf.ptr, trace: Seq::empty(), reads: 0 };
            let source: Source = |n: nat| 0;
            let _ = lemma_scan_num(cg.bf, l.base as int, l.width as int, s, source, 0);
        },
        Sm::Getchar(Lv::Var(name)) => {
            assert(in_scopes(cg.scopes, env.vars, name, cg.scopes.len() as int) == binding(
                vars,
                name,
            ));
            let l = binding(vars, name)->Some_0;
            let b1 = cg.bf.inp(l.base as int);
            let x = ones();
            assert(bytes(x));
            lemma_works_start(b1, x);
            let _ = lemma_clear_range(b1, b1, x, x, l.base as int, 1, l.width as int);
        },
        Sm::Call(name, args) => {
            let f = procedure(k.fns, name)->Some_0;
            let less = (fuel - 1) as nat;
            lemma_entered(k, cg, env, fuel, types, vars, f, args);
            let g = entered(cg, vars, f.params, args);
            let inner = vars_inside(vars, f.params, args);
            lemma_stmts_shape(
                k.inner(),
                g,
                env,
                less,
                types_inside(types, f.params, args),
                inner,
                f.body,
                0,
            );
            lemma_expanded(cg, env, fuel, types, vars, name, args, f);
        },
        _ => {},
    }
}

/// A printed number, with a space behind it.
pub open spec fn printed(bf: Bf, v: int, w: int) -> Bf {
    let bf = if w == 1 {
        bf.print_num(v).tfree(v)
    } else {
        bf.print_num_n(v, w).tfree_n(v, w)
    };
    let (bf, sp) = bf.talloc();
    bf.setv(sp, 32).out_cell(sp).tfree(sp)
}

/// A result is printed and given back.
pub proof fn lemma_printed(c1: Bf, v: int, w: int, m: St, source: Source) -> (t: St)
    requires
        word(w),
        roomy(c1),
        lent_n(c1, v, w),
        m.ptr == c1.ptr,
        bytes(m.cells),
    ensures
        goes(c1, printed(c1, v, w), m, t, source),
        roomy(printed(c1, v, w)),
        printed(c1, v, w).temp_base == c1.temp_base,
        forall|k: int| #[trigger]
            held(c1, k) && !(v <= k < v + w) ==> held(printed(c1, v, w), k),
        forall|k: int| held(c1, k) && !(v <= k < v + w) ==> #[trigger] t.cells[k] == m.cells[k],
        t.reads == m.reads,
        written_bytes(t.trace) == written_bytes(m.trace) + decimal(val(m.cells, v, w)) + seq![32],
{
    broadcast use {works_talloc, works_setv, lemma_took};

    reveal(Bf::print_num_n);
    assert(held(c1, v));
    let u = if w == 1 {
        lemma_print_num(c1, v, m, source)
    } else {
        lemma_print_wide(c1, v, w, m, source)
    };
    let c2 = if w == 1 {
        c1.print_num(v)
    } else {
        c1.print_num_n(v, w)
    };
    let c3 = if w == 1 {
        c2.tfree(v)
    } else {
        c2.tfree_n(v, w)
    };
    if w == 1 {
        lemma_freed(c2, v);
    } else {
        lemma_freed_n(c2, v, w);
    }
    lemma_goes_quiet(c1, c2, c3, m, u, source);
    lemma_goes_ends(c1, c3, m, u, source);
    assert(took(c3, c3.talloc().0, c3.talloc().1));
    let (c4, sp) = c3.talloc();
    let c5 = c4.setv(sp, 32);
    lemma_works_start(c3, u.cells);
    let y = u.cells.insert(sp, 32);
    assert(works(c3, c5, u.cells, y));
    lemma_goes_works(c3, c5, u, y, source);
    let n = with(u, y, c5.ptr);
    lemma_goes_then(c1, c3, c5, m, u, n, source);
    let t = lemma_put(c1, c5, sp, m, n, source);
    lemma_freed(c5.out_cell(sp), sp);
    assert forall|k: int| #[trigger] held(c1, k) && !(v <= k < v + w) implies held(
        printed(c1, v, w),
        k,
    ) by {
        assert(held(c2, k));
        assert(held(c3, k));
        assert(held(c4, k) && k != sp);
        assert(held(c5.out_cell(sp), k));
    }
    assert forall|k: int| held(c1, k) && !(v <= k < v + w) implies #[trigger] t.cells[k]
        == m.cells[k] by {
        assert(u.cells[k] == m.cells[k]);
        assert(held(c2, k));
        assert(held(c3, k) && k != sp);
    }
    assert(written_bytes(t.trace) =~= written_bytes(m.trace) + decimal(val(m.cells, v, w))
        + seq![32]);
    t
}

/// The cells in use behind a printed number.
proof fn lemma_print_shape(
    cg: Cg,
    env: Env,
    fuel: nat,
    types: Seq<(Seq<char>, TypeAnn)>,
    vars: Seq<(Seq<char>, CellLayout)>,
    e: Ex,
)
    requires
        ready(cg, env, types, vars),
        plain_expr(types, e),
    ensures
        grown(cg.bf, cg.stmt(env, fuel, Sm::Print(e)).bf),
        cg.stmt(env, fuel, Sm::Print(e)).scopes == cg.scopes,
{
    lemma_expr_shape(cg, env, fuel, types, vars, e);
    let (c1, v, w) = cg.expr(env, fuel, e);
    let x = ones();
    assert(bytes(x));
    lemma_leaves_agree(cg.bf, c1.bf, x, x, v, w, val(x, v, w));
    let s = St { cells: x, ptr: c1.bf.ptr, trace: Seq::empty(), reads: 0 };
    let source: Source = |n: nat| 0;
    let _ = lemma_printed(c1.bf, v, w, s, source);
    assert(cg.stmt(env, fuel, Sm::Print(e)).bf == printed(c1.bf, v, w));
    assert forall|k: int| #[trigger] held(cg.bf, k) implies held(printed(c1.bf, v, w), k) by {
        assert(held(c1.bf, k) && !(v <= k < v + w));
    }
}

/// A result that has been used up.
pub proof fn lemma_used_up(bf: Bf, c1: Bf, c2: Bf, v: int)
    requires
        shaped(bf, c1, v, 1),
        settled(c1, c2),
    ensures
        grown(bf, c2.tfree(v)),
{
    let x = ones();
    lemma_leaves_agree(bf, c1, x, x, v, 1, val(x, v, 1));
    lemma_freed(c2, v);
    assert forall|k: int| #[trigger] held(bf, k) implies held(c2.tfree(v), k) by {
        assert(held(c1, k) && k != v);
        assert(held(c2, k));
    }
}

/// The pixel command behind its operands.
pub open spec fn pixel(c3: Bf, xc: int, yc: int, cc: int) -> Bf {
    let (bf, cmd) = c3.talloc();
    let bf = bf.setv(cmd, 0xFE).out_cell(cmd).tfree(cmd);
    let bf = bf.out_cell(xc).tfree(xc);
    let bf = bf.out_cell(yc).tfree(yc);
    bf.out_cell(cc).tfree(cc)
}

pub proof fn lemma_pixel_shape(bf: Bf, c1: Bf, c2: Bf, c3: Bf, xc: int, yc: int, cc: int)
    requires
        shaped(bf, c1, xc, 1),
        shaped(c1, c2, yc, 1),
        shaped(c2, c3, cc, 1),
    ensures
        grown(bf, pixel(c3, xc, yc, cc)),
{
    broadcast use lemma_took;

    let x = ones();
    lemma_leaves_agree(bf, c1, x, x, xc, 1, val(x, xc, 1));
    lemma_leaves_agree(c1, c2, x, x, yc, 1, val(x, yc, 1));
    lemma_leaves_agree(c2, c3, x, x, cc, 1, val(x, cc, 1));
    assert(took(c3, c3.talloc().0, c3.talloc().1));
    let (d1, cmd) = c3.talloc();
    let d2 = d1.setv(cmd, 0xFE).out_cell(cmd);
    lemma_freed(d2, cmd);
    let d3 = d2.tfree(cmd).out_cell(xc);
    lemma_freed(d3, xc);
    let d4 = d3.tfree(xc).out_cell(yc);
    lemma_freed(d4, yc);
    let d5 = d4.tfree(yc).out_cell(cc);
    lemma_freed(d5, cc);
    let c = d5.tfree(cc);
    assert forall|k: int| #[trigger] held(bf, k) implies held(c, k) by {
        assert(held(c1, k) && k != xc);
        assert(held(c2, k) && k != yc);
        assert(held(c3, k) && k != cc);
        assert(held(d1, k) && k != cmd);
        assert(held(d2, k));
        assert(held(d2.tfree(cmd), k));
        assert(held(d3, k));
        assert(held(d3.tfree(xc), k));
        assert(held(d4, k));
        assert(held(d4.tfree(yc), k));
        assert(held(d5, k));
    }
}

} // verus!
