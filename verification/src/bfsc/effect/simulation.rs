//! Emitted programs do what BFS programs mean.

use vstd::prelude::*;

use crate::bfsc::ast::{Ex, Lv, Sm, TypeAnn};
use crate::bfsc::codegen::{in_scopes, Cg, Env};
use crate::bfsc::effect::arith::{
    blk, leaves, lemma_bytes_val, lemma_low_val, lemma_same_val, val, word,
};
use crate::bfsc::effect::blocks::{lemma_clear_range, lent_n};
use crate::bfsc::effect::calls::{
    entered, lemma_entered, lemma_expanded, lemma_shows_behind, lemma_shows_inside, vars_inside,
};
use crate::bfsc::effect::cells::{agree, held, roomy, settled, took};
use crate::bfsc::effect::chunks::all_tidy;
use crate::bfsc::effect::compare::{lemma_took, lent};
use crate::bfsc::effect::expr::{
    cell_of, laid, lemma_apart, lemma_as_byte, lemma_expr, lemma_laid, lemma_leaves_agree,
    lemma_not_owned, lemma_resized, lemma_row_kept, lemma_shows, lemma_shows_set,
    lemma_shows_set_at, lemma_widened, owned, resolves, shows, shows_row,
};
use crate::bfsc::effect::far::{
    chunks, lemma_delivered, lemma_slot_inside, lemma_store_byte, room, slot,
};
use crate::bfsc::effect::flow::{
    goes, lemma_goes_ends, lemma_goes_goto, lemma_goes_in, lemma_goes_loop, lemma_goes_once,
    lemma_goes_quiet, lemma_goes_then, lemma_goes_works, lemma_put,
};
use crate::bfsc::effect::program::{
    all_plain, at_depth, byte_in, choice_cells, choice_else, choice_open, choice_shut,
    lemma_byte_in, lemma_choice_cells, lemma_choice_open, lemma_choice_parts, lemma_condition_shape,
    lemma_number_in, lemma_printed, lemma_ready, lemma_restored, lemma_stmt_shape,
    lemma_stmts_shape, lemma_written, lemma_written_far, mirrors, number_in, plain, printed, ready,
    temps_kept, written, written_far,
};
use crate::bfsc::effect::scan::lemma_scan_num;
use crate::bfsc::effect::shape::{lemma_settle, lemma_store, settle, signal};
use crate::bfsc::effect::steps::{
    bytes, lemma_works_bytes, lemma_works_start, with, works, works_clear, works_goto, works_setv,
    works_talloc, Cells,
};
use crate::bfsc::emitter::Bf;
use crate::bfsc::layout::{binding, CellLayout};
use crate::bfsc::meaning::{
    decimal, eval, exec, exec_all, far, modulus, procedure, row_of, scanned, store_inside, stored,
    stored_at, types_inside, width_of, BfsState, Calls, Store,
};
use crate::bfsc::sound::codegen as sound_codegen;
use crate::bfsc::sound::steps::{sound, sound_clear, sound_goto, sound_reserve, sound_trestore};
use crate::interp::machine::{written_bytes, Source, St};
use crate::interp::preserve::gives_bytes;

verus! {

/// An assignment.
proof fn lemma_assign(
    cg: Cg,
    env: Env,
    fuel: nat,
    types: Seq<(Seq<char>, TypeAnn)>,
    vars: Seq<(Seq<char>, CellLayout)>,
    p: BfsState,
    name: Seq<char>,
    e: Ex,
    s: St,
    source: Source,
) -> (t: St)
    requires
        ready(cg, env, types, vars),
        mirrors(types, vars, p, s),
        bytes(s.cells),
        s.ptr == cg.bf.ptr,
        stored(types, p, name, e) is Some,
    ensures
        goes(cg.bf, cg.assign(env, fuel, binding(vars, name)->Some_0, e).bf, s, t, source),
        mirrors(types, vars, stored(types, p, name, e)->Some_0, t),
        temps_kept(types, vars, cg.bf, s.cells, t.cells),
{
    let l = binding(vars, name)->Some_0;
    let base = l.base as int;
    let w = width_of(types, name)->Some_0;
    let bf = cg.bf;
    let x = s.cells;
    lemma_works_start(bf, x);
    let x1 = lemma_expr(bf, cg, x, x, env, fuel, types, vars, p.vars, e);
    let (c1, v, vw) = cg.expr(env, fuel, e);
    let (n, _) = eval(types, p.vars, e)->Some_0;
    lemma_leaves_agree(bf, c1.bf, x, x1, v, vw, n);
    lemma_apart(bf, base, w, v, vw);
    lemma_laid(types, vars, bf, c1.bf);
    let y = lemma_store(bf, c1.bf, x, x1, v, vw, l);
    let c = c1.bf.store(v, vw, l);
    lemma_goes_works(bf, c, s, y, source);
    let t = with(s, y, c.ptr);
    assert forall|k: int|
        held(bf, k) && !(base <= k < base + w) implies #[trigger] y[k] == x[k] by {
        assert(held(c1.bf, k) && !blk(v, vw).contains(k));
        assert(x1[k] == x[k]);
    }
    lemma_shows_set(types, vars, p.vars, bf, x, y, name, n % modulus(w));
    assert forall|k: int| !owned(types, vars, k) && held(bf, k) implies #[trigger] y[k] == x[k] by {
        assert(!cell_of(types, vars, name, k));
    }
    t
}

/// The cells of an element are its array's.
proof fn lemma_slot_owned(
    types: Seq<(Seq<char>, TypeAnn)>,
    vars: Seq<(Seq<char>, CellLayout)>,
    b: Bf,
    name: Seq<char>,
    i: int,
)
    requires
        laid(types, vars, b),
        row_of(types, name) is Some,
        0 <= i < row_of(types, name)->Some_0.1,
    ensures
        ({
            let (w, n) = row_of(types, name)->Some_0;
            let p = slot(far(types, name), binding(vars, name)->Some_0.base as int, w, i);
            forall|k: int| p <= k < p + w ==> #[trigger] owned(types, vars, k)
        }),
{
    let (w, n) = row_of(types, name)->Some_0;
    let base = binding(vars, name)->Some_0.base as int;
    let p = slot(far(types, name), base, w, i);
    lemma_slot_inside(far(types, name), base, w, n, i);
    assert forall|k: int| p <= k < p + w implies #[trigger] owned(types, vars, k) by {
        assert(cell_of(types, vars, name, k));
    }
}

/// A value goes into an array that lies in a row.
proof fn lemma_set_near_element(
    bf: Bf,
    c1: Cg,
    env: Env,
    fuel: nat,
    types: Seq<(Seq<char>, TypeAnn)>,
    vars: Seq<(Seq<char>, CellLayout)>,
    values: Store,
    name: Seq<char>,
    idx: Ex,
    r: int,
    rw: int,
    v: int,
    x: Cells,
    x1: Cells,
) -> (y: Cells)
    requires
        !far(types, name),
        ready(c1, env, types, vars),
        laid(types, vars, bf),
        c1.bf.temp_base == bf.temp_base,
        bytes(x1),
        shows(types, vars, values, x),
        word(rw),
        leaves(bf, c1.bf, x, x1, r, rw, v, Set::empty()),
        row_of(types, name) is Some,
        eval(types, values, idx) is Some,
        0 <= eval(types, values, idx)->Some_0.0 < row_of(types, name)->Some_0.1,
    ensures
        ({
            let w = row_of(types, name)->Some_0.0;
            let i = eval(types, values, idx)->Some_0.0;
            let l = binding(vars, name)->Some_0;
            &&& works(c1.bf, c1.set_element(env, fuel, l, idx, r, rw).bf, x1, y)
            &&& shows(types, vars, values.set_at(name, i, v % modulus(w)), y)
        }),
        temps_kept(types, vars, bf, x, y),
{
    let (w, n) = row_of(types, name)->Some_0;
    let (i, _) = eval(types, values, idx)->Some_0;
    let l = binding(vars, name)->Some_0;
    let base = l.base as int;
    let o = c1.bf;
    lemma_works_start(o, x1);
    lemma_leaves_agree(bf, o, x, x1, r, rw, v);
    let x2 = lemma_widened(o, o, x1, x1, r, rw, w);
    let (b2, r2) = o.widened(r, rw, w);
    let w2 = if rw < w {
        w
    } else {
        rw
    };
    assert forall|k: int| #[trigger] held(bf, k) implies held(b2, k) && !(r2 <= k < r2 + w) by {
        assert(held(o, k) && !blk(r, rw).contains(k));
    }
    assert(agree(bf, x, x2)) by {
        assert forall|k: int| held(bf, k) implies #[trigger] x2[k] == x[k] by {
            assert(held(o, k) && !blk(r, rw).contains(k));
            assert(x1[k] == x[k]);
        }
    }
    assert(lent_n(b2, r2, w)) by {
        assert forall|k: int| r2 <= k < r2 + w implies #[trigger] held(b2, k) by {
            assert(r2 <= k < r2 + w2);
        }
    }
    lemma_works_bytes(o, b2, x1, x2);
    lemma_low_val(x2, r2, w2, w);
    lemma_shows(types, vars, values, bf, x, x2);
    let c2 = c1.with(b2);
    lemma_laid(types, vars, bf, b2);
    let x3 = lemma_expr(o, c2, x1, x2, env, fuel, types, vars, values, idx);
    let (c3, q, qw) = c2.expr(env, fuel, idx);
    let c = c1.set_element(env, fuel, l, idx, r, rw).bf;
    let y = if n > 256 {
        lemma_works_bytes(o, c3.bf, x1, x3);
        assert(x3.dom().contains(q) && x3.dom().contains(q + 1));
        let x4 = lemma_resized(o, b2, c3.bf, x1, x2, x3, q, qw, i);
        let (b4, at) = c3.bf.resized(q, qw, 2);
        assert(c2.expr_w(env, fuel, idx, 2) == (c3.with(b4), at));
        assert(c == written_far(b4, at, base, n, w, r2));
        lemma_written_far(o, bf, b2, b4, x1, x, x2, x4, base, n, w, r2, at, i)
    } else {
        let x4 = lemma_as_byte(o, b2, c3.bf, x1, x2, x3, q, qw, i);
        let (b4, at) = c3.bf.as_byte(q, qw);
        assert(c2.expr_1(env, fuel, idx) == (c3.with(b4), at));
        assert(c == written(b4, at, base, n, w, r2));
        lemma_written(o, bf, b2, b4, x1, x, x2, x4, base, n, w, r2, at, i)
    };
    lemma_slot_owned(types, vars, bf, name, i);
    lemma_shows_set_at(types, vars, values, bf, x, y, name, i, v % modulus(w));
    y
}

/// A value goes into an array that lies in chunks.
proof fn lemma_set_far_element(
    bf: Bf,
    c1: Cg,
    env: Env,
    fuel: nat,
    types: Seq<(Seq<char>, TypeAnn)>,
    vars: Seq<(Seq<char>, CellLayout)>,
    values: Store,
    name: Seq<char>,
    idx: Ex,
    r: int,
    rw: int,
    v: int,
    x: Cells,
    x1: Cells,
) -> (y: Cells)
    requires
        far(types, name),
        ready(c1, env, types, vars),
        laid(types, vars, bf),
        c1.bf.temp_base == bf.temp_base,
        bytes(x1),
        shows(types, vars, values, x),
        word(rw),
        leaves(bf, c1.bf, x, x1, r, rw, v, Set::empty()),
        row_of(types, name) is Some,
        eval(types, values, idx) is Some,
        0 <= eval(types, values, idx)->Some_0.0 < row_of(types, name)->Some_0.1,
    ensures
        ({
            let w = row_of(types, name)->Some_0.0;
            let i = eval(types, values, idx)->Some_0.0;
            let l = binding(vars, name)->Some_0;
            &&& works(c1.bf, c1.set_element(env, fuel, l, idx, r, rw).bf, x1, y)
            &&& shows(types, vars, values.set_at(name, i, v % modulus(w)), y)
        }),
        temps_kept(types, vars, bf, x, y),
{
    let (w, n) = row_of(types, name)->Some_0;
    let (i, _) = eval(types, values, idx)->Some_0;
    let l = binding(vars, name)->Some_0;
    let base = l.base as int;
    let o = c1.bf;
    lemma_works_start(o, x1);
    lemma_leaves_agree(bf, o, x, x1, r, rw, v);
    let x2 = lemma_store_byte(o, o, x1, x1, r, rw);
    let (b2, r2) = o.store_byte(r, rw);
    lemma_low_val(x1, r, rw, 1);
    assert forall|k: int| #[trigger] held(bf, k) implies held(b2, k) && k != r2 by {
        assert(held(o, k) && !blk(r, rw).contains(k));
    }
    assert(agree(bf, x, x2)) by {
        assert forall|k: int| held(bf, k) implies #[trigger] x2[k] == x[k] by {
            assert(held(o, k) && !blk(r, rw).contains(k));
            assert(x1[k] == x[k]);
        }
    }
    lemma_works_bytes(o, b2, x1, x2);
    lemma_shows(types, vars, values, bf, x, x2);
    let c2 = c1.with(b2);
    lemma_laid(types, vars, bf, b2);
    let x3 = lemma_expr(o, c2, x1, x2, env, fuel, types, vars, values, idx);
    let (c3, q, qw) = c2.expr(env, fuel, idx);
    let c = c1.set_element(env, fuel, l, idx, r, rw).bf;
    lemma_works_bytes(o, c3.bf, x1, x3);
    assert(x3.dom().contains(q) && x3.dom().contains(q + 1));
    let x4 = lemma_resized(o, b2, c3.bf, x1, x2, x3, q, qw, i);
    let (b4, at) = c3.bf.resized(q, qw, 2);
    assert(c2.expr_w(env, fuel, idx, 2) == (c3.with(b4), at));
    assert(c == b4.write_chunks(base, at, 256, r2));
    assert(all_tidy(x, base, chunks(n))) by {
        assert(shows_row(x, base, w, n, values.rows[name], true));
        reveal(shows_row);
    }
    let y = lemma_delivered(o, bf, b2, b4, x1, x, x2, x4, base, n, r2, at, i);
    lemma_slot_owned(types, vars, bf, name, i);
    lemma_shows_set_at(types, vars, values, bf, x, y, name, i, v % modulus(w));
    y
}

/// A value goes into an array.
proof fn lemma_set_element(
    bf: Bf,
    c1: Cg,
    env: Env,
    fuel: nat,
    types: Seq<(Seq<char>, TypeAnn)>,
    vars: Seq<(Seq<char>, CellLayout)>,
    values: Store,
    name: Seq<char>,
    idx: Ex,
    r: int,
    rw: int,
    v: int,
    x: Cells,
    x1: Cells,
) -> (y: Cells)
    requires
        ready(c1, env, types, vars),
        laid(types, vars, bf),
        c1.bf.temp_base == bf.temp_base,
        bytes(x1),
        shows(types, vars, values, x),
        word(rw),
        leaves(bf, c1.bf, x, x1, r, rw, v, Set::empty()),
        row_of(types, name) is Some,
        eval(types, values, idx) is Some,
        0 <= eval(types, values, idx)->Some_0.0 < row_of(types, name)->Some_0.1,
    ensures
        ({
            let w = row_of(types, name)->Some_0.0;
            let i = eval(types, values, idx)->Some_0.0;
            let l = binding(vars, name)->Some_0;
            &&& works(c1.bf, c1.set_element(env, fuel, l, idx, r, rw).bf, x1, y)
            &&& shows(types, vars, values.set_at(name, i, v % modulus(w)), y)
        }),
        temps_kept(types, vars, bf, x, y),
{
    if far(types, name) {
        lemma_set_far_element(bf, c1, env, fuel, types, vars, values, name, idx, r, rw, v, x, x1)
    } else {
        lemma_set_near_element(bf, c1, env, fuel, types, vars, values, name, idx, r, rw, v, x, x1)
    }
}

/// A value goes into an array behind what gave it.
proof fn lemma_goes_into(
    bf: Bf,
    c1: Cg,
    env: Env,
    fuel: nat,
    types: Seq<(Seq<char>, TypeAnn)>,
    vars: Seq<(Seq<char>, CellLayout)>,
    values: Store,
    name: Seq<char>,
    idx: Ex,
    r: int,
    rw: int,
    v: int,
    s: St,
    m: St,
    source: Source,
) -> (t: St)
    requires
        ready(c1, env, types, vars),
        laid(types, vars, bf),
        goes(bf, c1.bf, s, m, source),
        shows(types, vars, values, s.cells),
        word(rw),
        leaves(bf, c1.bf, s.cells, m.cells, r, rw, v, Set::empty()),
        row_of(types, name) is Some,
        eval(types, values, idx) is Some,
        0 <= eval(types, values, idx)->Some_0.0 < row_of(types, name)->Some_0.1,
    ensures
        ({
            let w = row_of(types, name)->Some_0.0;
            let i = eval(types, values, idx)->Some_0.0;
            let l = binding(vars, name)->Some_0;
            &&& goes(bf, c1.set_element(env, fuel, l, idx, r, rw).bf, s, t, source)
            &&& shows(types, vars, values.set_at(name, i, v % modulus(w)), t.cells)
        }),
        t.trace == m.trace,
        t.reads == m.reads,
        temps_kept(types, vars, bf, s.cells, t.cells),
{
    lemma_goes_ends(bf, c1.bf, s, m, source);
    let y = lemma_set_element(
        bf,
        c1,
        env,
        fuel,
        types,
        vars,
        values,
        name,
        idx,
        r,
        rw,
        v,
        s.cells,
        m.cells,
    );
    let c = c1.set_element(env, fuel, binding(vars, name)->Some_0, idx, r, rw).bf;
    lemma_goes_works(c1.bf, c, m, y, source);
    let t = with(m, y, c.ptr);
    lemma_goes_then(bf, c1.bf, c, s, m, t, source);
    t
}

/// An assignment to an array.
proof fn lemma_assign_at(
    cg: Cg,
    env: Env,
    fuel: nat,
    types: Seq<(Seq<char>, TypeAnn)>,
    vars: Seq<(Seq<char>, CellLayout)>,
    p: BfsState,
    name: Seq<char>,
    idx: Ex,
    e: Ex,
    s: St,
    source: Source,
) -> (t: St)
    requires
        ready(cg, env, types, vars),
        mirrors(types, vars, p, s),
        bytes(s.cells),
        s.ptr == cg.bf.ptr,
        stored_at(types, p, name, idx, e) is Some,
    ensures
        goes(cg.bf, cg.stmt(env, fuel, Sm::Assign(Lv::Index(name, idx), e)).bf, s, t, source),
        mirrors(types, vars, stored_at(types, p, name, idx, e)->Some_0, t),
        temps_kept(types, vars, cg.bf, s.cells, t.cells),
{
    let bf = cg.bf;
    let x = s.cells;
    let (v, _) = eval(types, p.vars, e)->Some_0;
    let l = binding(vars, name)->Some_0;
    assert(in_scopes(cg.scopes, env.vars, name, cg.scopes.len() as int) == binding(vars, name));
    lemma_works_start(bf, x);
    let x1 = lemma_expr(bf, cg, x, x, env, fuel, types, vars, p.vars, e);
    let (c1, r, rw) = cg.expr(env, fuel, e);
    lemma_goes_works(bf, c1.bf, s, x1, source);
    let m = with(s, x1, c1.bf.ptr);
    let stmt = Sm::Assign(Lv::Index(name, idx), e);
    assert(cg.stmt(env, fuel, stmt) == c1.set_element(env, fuel, l, idx, r, rw));
    lemma_leaves_agree(bf, c1.bf, x, x1, r, rw, v);
    lemma_ready(cg, c1, env, types, vars);
    lemma_goes_into(bf, c1, env, fuel, types, vars, p.vars, name, idx, r, rw, v, s, m, source)
}

/// A byte is read into an array.
proof fn lemma_getchar_at(
    cg: Cg,
    env: Env,
    codegen_fuel: nat,
    types: Seq<(Seq<char>, TypeAnn)>,
    vars: Seq<(Seq<char>, CellLayout)>,
    p: BfsState,
    name: Seq<char>,
    idx: Ex,
    s: St,
    source: Source,
) -> (t: St)
    requires
        ready(cg, env, types, vars),
        s.ptr == cg.bf.ptr,
        bytes(s.cells),
        gives_bytes(source),
        mirrors(types, vars, p, s),
        row_of(types, name) is Some,
        eval(types, p.vars, idx) is Some,
        0 <= eval(types, p.vars, idx)->Some_0.0 < row_of(types, name)->Some_0.1,
    ensures
        goes(
            cg.bf,
            cg.stmt(env, codegen_fuel, Sm::Getchar(Lv::Index(name, idx))).bf,
            s,
            t,
            source,
        ),
        ({
            let i = eval(types, p.vars, idx)->Some_0.0;
            mirrors(
                types,
                vars,
                (BfsState {
                    vars: p.vars.set_at(name, i, source(p.reads)),
                    reads: p.reads + 1,
                    ..p
                }),
                t,
            )
        }),
        temps_kept(types, vars, cg.bf, s.cells, t.cells),
{
    let bf = cg.bf;
    let (w, _) = row_of(types, name)->Some_0;
    let l = binding(vars, name)->Some_0;
    assert(in_scopes(cg.scopes, env.vars, name, cg.scopes.len() as int) == binding(vars, name));
    let m = lemma_byte_in(bf, w, s, source);
    let (c, r) = byte_in(bf, w);
    let v = source(s.reads);
    assert(v % modulus(w) == v);
    let stmt = Sm::Getchar(Lv::Index(name, idx));
    assert(cg.stmt(env, codegen_fuel, stmt) == cg.with(c).set_element(
        env,
        codegen_fuel,
        l,
        idx,
        r,
        w,
    ));
    lemma_leaves_agree(bf, c, s.cells, m.cells, r, w, v);
    lemma_ready(cg, cg.with(c), env, types, vars);
    lemma_goes_into(
        bf,
        cg.with(c),
        env,
        codegen_fuel,
        types,
        vars,
        p.vars,
        name,
        idx,
        r,
        w,
        v,
        s,
        m,
        source,
    )
}

/// A number is read into an array.
proof fn lemma_scan_at(
    cg: Cg,
    env: Env,
    codegen_fuel: nat,
    types: Seq<(Seq<char>, TypeAnn)>,
    vars: Seq<(Seq<char>, CellLayout)>,
    p: BfsState,
    name: Seq<char>,
    idx: Ex,
    s: St,
    source: Source,
    fuel: nat,
) -> (t: St)
    requires
        ready(cg, env, types, vars),
        s.ptr == cg.bf.ptr,
        bytes(s.cells),
        gives_bytes(source),
        mirrors(types, vars, p, s),
        row_of(types, name) is Some,
        eval(types, p.vars, idx) is Some,
        0 <= eval(types, p.vars, idx)->Some_0.0 < row_of(types, name)->Some_0.1,
        scanned(source, p.reads, 0, modulus(row_of(types, name)->Some_0.0), fuel) is Some,
    ensures
        goes(
            cg.bf,
            cg.stmt(env, codegen_fuel, Sm::Scan(Lv::Index(name, idx))).bf,
            s,
            t,
            source,
        ),
        ({
            let i = eval(types, p.vars, idx)->Some_0.0;
            let w = row_of(types, name)->Some_0.0;
            let (v, reads) = scanned(source, p.reads, 0, modulus(w), fuel)->Some_0;
            mirrors(types, vars, (BfsState { vars: p.vars.set_at(name, i, v), reads, ..p }), t)
        }),
        temps_kept(types, vars, cg.bf, s.cells, t.cells),
{
    let bf = cg.bf;
    let (w, _) = row_of(types, name)->Some_0;
    let l = binding(vars, name)->Some_0;
    assert(in_scopes(cg.scopes, env.vars, name, cg.scopes.len() as int) == binding(vars, name));
    let m = lemma_number_in(bf, w, s, source, fuel);
    let (c, r) = number_in(bf, w);
    let (v, _) = scanned(source, s.reads, 0, modulus(w), fuel)->Some_0;
    lemma_goes_ends(bf, c, s, m, source);
    lemma_bytes_val(m.cells, r, w);
    vstd::arithmetic::div_mod::lemma_small_mod(v as nat, modulus(w) as nat);
    let stmt = Sm::Scan(Lv::Index(name, idx));
    assert(cg.stmt(env, codegen_fuel, stmt) == cg.with(c).set_element(
        env,
        codegen_fuel,
        l,
        idx,
        r,
        w,
    ));
    lemma_leaves_agree(bf, c, s.cells, m.cells, r, w, v);
    lemma_ready(cg, cg.with(c), env, types, vars);
    lemma_goes_into(
        bf,
        cg.with(c),
        env,
        codegen_fuel,
        types,
        vars,
        p.vars,
        name,
        idx,
        r,
        w,
        v,
        s,
        m,
        source,
    )
}

/// A condition signals in its cell whether it holds.
proof fn lemma_condition(
    cg: Cg,
    env: Env,
    fuel: nat,
    types: Seq<(Seq<char>, TypeAnn)>,
    vars: Seq<(Seq<char>, CellLayout)>,
    values: Store,
    cond: Ex,
    cc: int,
    again: bool,
    x: Cells,
) -> (y: Cells)
    requires
        ready(cg, env, types, vars),
        bytes(x),
        shows(types, vars, values, x),
        eval(types, values, cond) is Some,
        held(cg.bf, cc),
    ensures
        works(cg.bf, cg.condition(env, fuel, cond, cc, again).bf, x, y),
        agree(
            cg.bf,
            x.insert(
                cc,
                signal(eval(types, values, cond)->Some_0.0, eval(types, values, cond)->Some_0.1),
            ),
            y,
        ),
{
    let bf = cg.bf;
    lemma_works_start(bf, x);
    let x1 = lemma_expr(bf, cg, x, x, env, fuel, types, vars, values, cond);
    let (c1, r, w) = cg.expr(env, fuel, cond);
    let (v, _) = eval(types, values, cond)->Some_0;
    let y = lemma_settle(bf, bf, c1.bf, x, x, x1, r, w, v, cc, again);
    assert(cg.condition(env, fuel, cond, cc, again).bf == settle(c1.bf, r, w, cc, again));
    y
}

/// A temporary cell holds no variable.
proof fn lemma_shows_beside(
    types: Seq<(Seq<char>, TypeAnn)>,
    vars: Seq<(Seq<char>, CellLayout)>,
    values: Store,
    b: Bf,
    x: Cells,
    cc: int,
    v: int,
)
    requires
        laid(types, vars, b),
        shows(types, vars, values, x),
        !owned(types, vars, cc),
    ensures
        shows(types, vars, values, x.insert(cc, v)),
{
    let y = x.insert(cc, v);
    assert forall|name: Seq<char>| #[trigger] width_of(types, name) is Some implies val(
        y,
        binding(vars, name)->Some_0.base as int,
        width_of(types, name)->Some_0,
    ) == values.nums[name] by {
        let base = binding(vars, name)->Some_0.base as int;
        let w = width_of(types, name)->Some_0;
        assert forall|k: int| base <= k < base + w implies #[trigger] y[k] == x[k] by {
            assert(cell_of(types, vars, name, k));
        }
        lemma_same_val(x, y, base, w);
    }
    assert forall|name: Seq<char>| #[trigger] row_of(types, name) is Some implies shows_row(
        y,
        binding(vars, name)->Some_0.base as int,
        row_of(types, name)->Some_0.0,
        row_of(types, name)->Some_0.1,
        values.rows[name],
        far(types, name),
    ) by {
        let base = binding(vars, name)->Some_0.base as int;
        let (w, n) = row_of(types, name)->Some_0;
        let f = far(types, name);
        assert forall|k: int| base <= k < base + room(f, w, n) implies #[trigger] y[k] == x[k] by {
            assert(cell_of(types, vars, name, k));
        }
        lemma_row_kept(x, y, base, w, n, values.rows[name], f);
    }
}

/// A condition, up to its cell.
spec fn signalled(g: Cg, env: Env, fuel: nat, cond: Ex, cc: int, again: bool) -> Bf {
    g.condition(env, fuel, cond, cc, again).bf.trestore(g.bf.used).reserve(cc).goto(cc)
}

/// A condition signals in its cell whether it holds, and keeps the other cells.
proof fn lemma_signal(
    g: Cg,
    env: Env,
    fuel: nat,
    types: Seq<(Seq<char>, TypeAnn)>,
    vars: Seq<(Seq<char>, CellLayout)>,
    values: Store,
    cond: Ex,
    cc: int,
    again: bool,
    m: St,
    source: Source,
) -> (u: St)
    requires
        ready(g, env, types, vars),
        lent(g.bf, cc),
        !owned(types, vars, cc),
        m.ptr == g.bf.ptr,
        bytes(m.cells),
        shows(types, vars, values, m.cells),
        eval(types, values, cond) is Some,
    ensures
        goes(g.bf, signalled(g, env, fuel, cond, cc, again), m, u, source),
        settled(g.bf, signalled(g, env, fuel, cond, cc, again)),
        g.condition(env, fuel, cond, cc, again).scopes == g.scopes,
        u == with(m, u.cells, cc),
        bytes(u.cells),
        shows(types, vars, values, u.cells),
        u.cells[cc] == signal(
            eval(types, values, cond)->Some_0.0,
            eval(types, values, cond)->Some_0.1,
        ),
        forall|k: int| held(g.bf, k) && k != cc ==> #[trigger] u.cells[k] == m.cells[k],
{
    let (v, w) = eval(types, values, cond)->Some_0;
    crate::bfsc::effect::shape::lemma_eval_plain(types, values, cond);
    lemma_condition_shape(g, env, fuel, types, vars, cond, cc, again);
    let y = lemma_condition(g, env, fuel, types, vars, values, cond, cc, again, m.cells);
    let c = g.condition(env, fuel, cond, cc, again).bf;
    lemma_goes_works(g.bf, c, m, y, source);
    let n = with(m, y, c.ptr);
    lemma_restored(g.bf, c, cc);
    let d = c.trestore(g.bf.used).reserve(cc);
    lemma_goes_quiet(g.bf, c, d, m, n, source);
    lemma_goes_goto(g.bf, d, m, n, source, cc);
    let u = with(n, y, cc);
    lemma_goes_ends(g.bf, d.goto(cc), m, u, source);
    lemma_shows_beside(types, vars, values, g.bf, m.cells, cc, signal(v, w));
    lemma_shows(types, vars, values, g.bf, m.cells.insert(cc, signal(v, w)), y);
    u
}

/// What has been emitted of a loop between its brackets.
spec fn round(a: Bf, g2: Cg, env: Env, fuel: nat, cond: Ex, body: Seq<Sm>, cc: int) -> Bf {
    signalled(g2.with(a.raw("["@)).stmts(env, fuel, body, 0), env, fuel, cond, cc, true)
}

/// A loop whose condition holds is its body and then the loop.
proof fn lemma_exec_round(
    k: Calls,
    types: Seq<(Seq<char>, TypeAnn)>,
    p: BfsState,
    cond: Ex,
    body: Seq<Sm>,
    source: Source,
    fuel: nat,
)
    requires
        exec(k, types, p, Sm::While(cond, body), source, fuel) is Some,
        eval(types, p.vars, cond) is Some,
        eval(types, p.vars, cond)->Some_0.0 != 0,
    ensures
        fuel > 0,
        exec_all(k, types, p, body, 0, source, fuel) is Some,
        ({
            let q = exec_all(k, types, p, body, 0, source, fuel)->Some_0;
            &&& exec(k, types, q, Sm::While(cond, body), source, (fuel - 1) as nat) == exec(
                k,
                types,
                p,
                Sm::While(cond, body),
                source,
                fuel,
            )
            &&& eval(types, q.vars, cond) is Some
        }),
{
    let q = exec_all(k, types, p, body, 0, source, fuel)->Some_0;
    assert(exec(k, types, q, Sm::While(cond, body), source, (fuel - 1) as nat) is Some);
}

/// The rounds of a loop.
proof fn lemma_rounds(
    k: Calls,
    a: Bf,
    g2: Cg,
    env: Env,
    codegen_fuel: nat,
    types: Seq<(Seq<char>, TypeAnn)>,
    vars: Seq<(Seq<char>, CellLayout)>,
    p: BfsState,
    stmt: Sm,
    cc: int,
    s: St,
    source: Source,
    fuel: nat,
) -> (t: St)
    requires
        stmt is While,
        plain(k, types, stmt),
        ready(g2.with(a), env, types, vars),
        at_depth(k, g2.with(a), env, codegen_fuel),
        lent(a, cc),
        !owned(types, vars, cc),
        a.ptr == cc,
        s.ptr == cc,
        bytes(s.cells),
        gives_bytes(source),
        mirrors(types, vars, p, s),
        eval(types, p.vars, stmt->While_0) is Some,
        s.cells[cc] == signal(
            eval(types, p.vars, stmt->While_0)->Some_0.0,
            eval(types, p.vars, stmt->While_0)->Some_0.1,
        ),
        exec(k, types, p, stmt, source, fuel) is Some,
    ensures
        goes(
            a,
            round(a, g2, env, codegen_fuel, stmt->While_0, stmt->While_1, cc).raw("]"@),
            s,
            t,
            source,
        ),
        mirrors(types, vars, exec(k, types, p, stmt, source, fuel)->Some_0, t),
        forall|k: int|
            !owned(types, vars, k) && held(a, k) && k != cc ==> #[trigger] t.cells[k] == s.cells[k],
    decreases k.depth, fuel, stmt, 0int,
{
    broadcast use {sound_goto, sound_trestore, sound_reserve};

    let cond = stmt->While_0;
    let body = stmt->While_1;
    let (v, w) = eval(types, p.vars, cond)->Some_0;
    let a1 = a.raw("["@);
    let g3 = g2.with(a1);
    let g4 = g3.stmts(env, codegen_fuel, body, 0);
    let g5 = g4.condition(env, codegen_fuel, cond, cc, true);
    let z = round(a, g2, env, codegen_fuel, cond, body, cc);
    assert(sound(a1.out, a1.out, 0)) by {
        reveal(sound);
    }
    sound_codegen::lemma_stmts(g3, env, codegen_fuel, body, 0, a1.out, 0);
    sound_codegen::lemma_condition(g4, env, codegen_fuel, cond, cc, true, a1.out, 0);
    assert(sound(a1.out, z.out, 0));
    if v == 0 {
        lemma_goes_loop(a, z, s, s, s, source);
        s
    } else {
        assert(stmt == Sm::While(cond, body));
        lemma_exec_round(k, types, p, cond, body, source, fuel);
        lemma_ready(g2.with(a), g3, env, types, vars);
        assert(all_plain(k, types, body, 0));
        lemma_stmts_shape(k, g3, env, codegen_fuel, types, vars, body, 0);
        let m = lemma_stmts(k, g3, env, codegen_fuel, types, vars, p, body, 0, s, source, fuel);
        let q = exec_all(k, types, p, body, 0, source, fuel)->Some_0;
        lemma_goes_ends(a1, g4.bf, s, m, source);
        assert(held(a, cc));
        assert(held(a1, cc));
        assert(held(g4.bf, cc));
        lemma_ready(g3, g4, env, types, vars);
        let u = lemma_signal(
            g4,
            env,
            codegen_fuel,
            types,
            vars,
            q.vars,
            cond,
            cc,
            true,
            m,
            source,
        );
        lemma_goes_then(a1, g4.bf, z, s, m, u, source);
        let t = lemma_rounds(
            k,
            a,
            g2,
            env,
            codegen_fuel,
            types,
            vars,
            q,
            stmt,
            cc,
            u,
            source,
            (fuel - 1) as nat,
        );
        lemma_goes_loop(a, z, s, u, t, source);
        assert forall|k: int|
            !owned(types, vars, k) && held(a, k) && k != cc implies #[trigger] t.cells[k]
            == s.cells[k] by {
            assert(held(a1, k));
            assert(m.cells[k] == s.cells[k]);
            assert(held(g4.bf, k));
            assert(u.cells[k] == m.cells[k]);
        }
        t
    }
}

/// Statements.
pub proof fn lemma_stmts(
    k: Calls,
    cg: Cg,
    env: Env,
    codegen_fuel: nat,
    types: Seq<(Seq<char>, TypeAnn)>,
    vars: Seq<(Seq<char>, CellLayout)>,
    p: BfsState,
    ss: Seq<Sm>,
    i: int,
    s: St,
    source: Source,
    fuel: nat,
) -> (t: St)
    requires
        ready(cg, env, types, vars),
        at_depth(k, cg, env, codegen_fuel),
        all_plain(k, types, ss, i),
        s.ptr == cg.bf.ptr,
        bytes(s.cells),
        gives_bytes(source),
        mirrors(types, vars, p, s),
        exec_all(k, types, p, ss, i, source, fuel) is Some,
    ensures
        goes(cg.bf, cg.stmts(env, codegen_fuel, ss, i).bf, s, t, source),
        mirrors(types, vars, exec_all(k, types, p, ss, i, source, fuel)->Some_0, t),
        temps_kept(types, vars, cg.bf, s.cells, t.cells),
    decreases k.depth, fuel, ss, ss.len() - i,
{
    if 0 <= i < ss.len() {
        let m = lemma_stmt(k, cg, env, codegen_fuel, types, vars, p, ss[i], s, source, fuel);
        let q = exec(k, types, p, ss[i], source, fuel)->Some_0;
        let c = cg.stmt(env, codegen_fuel, ss[i]);
        lemma_stmt_shape(k, cg, env, codegen_fuel, types, vars, ss[i]);
        lemma_goes_ends(cg.bf, c.bf, s, m, source);
        lemma_ready(cg, c, env, types, vars);
        let t = lemma_stmts(k, c, env, codegen_fuel, types, vars, q, ss, i + 1, m, source, fuel);
        lemma_goes_then(cg.bf, c.bf, c.stmts(env, codegen_fuel, ss, i + 1).bf, s, m, t, source);
        assert forall|k: int| !owned(types, vars, k) && held(cg.bf, k) implies #[trigger] t.cells[k]
            == s.cells[k] by {
            assert(held(c.bf, k));
            assert(m.cells[k] == s.cells[k]);
        }
        t
    } else {
        lemma_works_start(cg.bf, s.cells);
        lemma_goes_works(cg.bf, cg.bf, s, s.cells, source);
        assert(with(s, s.cells, cg.bf.ptr) == s);
        s
    }
}

/// A loop.
proof fn lemma_while(
    k: Calls,
    cg: Cg,
    env: Env,
    codegen_fuel: nat,
    types: Seq<(Seq<char>, TypeAnn)>,
    vars: Seq<(Seq<char>, CellLayout)>,
    p: BfsState,
    stmt: Sm,
    s: St,
    source: Source,
    fuel: nat,
) -> (t: St)
    requires
        stmt is While,
        ready(cg, env, types, vars),
        at_depth(k, cg, env, codegen_fuel),
        plain(k, types, stmt),
        s.ptr == cg.bf.ptr,
        bytes(s.cells),
        gives_bytes(source),
        mirrors(types, vars, p, s),
        exec(k, types, p, stmt, source, fuel) is Some,
    ensures
        goes(
            cg.bf,
            cg.while_loop(env, codegen_fuel, stmt->While_0, stmt->While_1).bf,
            s,
            t,
            source,
        ),
        mirrors(types, vars, exec(k, types, p, stmt, source, fuel)->Some_0, t),
        temps_kept(types, vars, cg.bf, s.cells, t.cells),
    decreases k.depth, fuel, stmt, 1int,
{
    broadcast use {lemma_took, works_clear, works_goto, works_talloc};

    let cond = stmt->While_0;
    let body = stmt->While_1;
    let bf = cg.bf;
    let x = s.cells;
    assert(took(bf, bf.talloc().0, bf.talloc().1));
    let (b1, cc) = bf.talloc();
    let b2 = b1.clear(cc);
    assert(took(bf, b2, cc));
    assert(held(b2, cc));
    lemma_works_start(bf, x);
    let x2 = x.insert(cc, 0);
    assert(works(bf, b2, x, x2));
    lemma_works_bytes(bf, b2, x, x2);
    lemma_goes_works(bf, b2, s, x2, source);
    let s2 = with(s, x2, b2.ptr);
    lemma_not_owned(types, vars, bf, cc);
    lemma_shows_beside(types, vars, p.vars, bf, x, cc, 0);
    let g1 = cg.with(b2);
    lemma_ready(cg, g1, env, types, vars);
    let s4 = lemma_signal(
        g1,
        env,
        codegen_fuel,
        types,
        vars,
        p.vars,
        cond,
        cc,
        false,
        s2,
        source,
    );
    let g2 = g1.condition(env, codegen_fuel, cond, cc, false);
    let a = signalled(g1, env, codegen_fuel, cond, cc, false);
    lemma_goes_then(bf, b2, a, s, s2, s4, source);
    assert(held(a, cc));
    lemma_ready(g1, g2.with(a), env, types, vars);
    let t = lemma_rounds(k, a, g2, env, codegen_fuel, types, vars, p, stmt, cc, s4, source, fuel);
    let z = round(a, g2, env, codegen_fuel, cond, body, cc);
    let e = z.raw("]"@);
    lemma_goes_then(bf, a, e, s, s4, t, source);
    let c = e.tfree(cc);
    lemma_goes_quiet(bf, e, c, s, t, source);
    assert(cg.while_loop(env, codegen_fuel, cond, body).bf == c);
    assert forall|k: int| !owned(types, vars, k) && held(bf, k) implies #[trigger] t.cells[k]
        == s.cells[k] by {
        assert(held(b2, k) && k != cc);
        assert(held(a, k));
        assert(s4.cells[k] == x2[k]);
    }
    t
}

/// The second block of a choice is run where its cell is 1.
proof fn lemma_else(
    k: Calls,
    g: Cg,
    env: Env,
    codegen_fuel: nat,
    types: Seq<(Seq<char>, TypeAnn)>,
    vars: Seq<(Seq<char>, CellLayout)>,
    p: BfsState,
    ef: int,
    else_: Option<Seq<Sm>>,
    s: St,
    source: Source,
    fuel: nat,
) -> (t: St)
    requires
        ready(g, env, types, vars),
        at_depth(k, g, env, codegen_fuel),
        lent(g.bf, ef),
        !owned(types, vars, ef),
        s.ptr == g.bf.ptr,
        bytes(s.cells),
        gives_bytes(source),
        mirrors(types, vars, p, s),
        else_ matches Some(block) ==> all_plain(k, types, block, 0) && (s.cells[ef] != 0 ==> exec_all(
            k,
            types,
            p,
            block,
            0,
            source,
            fuel,
        ) is Some),
    ensures
        goes(g.bf, choice_else(g, env, codegen_fuel, ef, else_).bf, s, t, source),
        mirrors(
            types,
            vars,
            match else_ {
                Some(block) if s.cells[ef] != 0 => exec_all(
                    k,
                    types,
                    p,
                    block,
                    0,
                    source,
                    fuel,
                )->Some_0,
                _ => p,
            },
            t,
        ),
        forall|k: int|
            !owned(types, vars, k) && held(g.bf, k) && k != ef ==> #[trigger] t.cells[k]
                == s.cells[k],
    decreases k.depth, fuel, else_, 0int,
{
    broadcast use {works_clear, works_goto, sound_clear, sound_goto};

    lemma_works_start(g.bf, s.cells);
    lemma_goes_works(g.bf, g.bf, s, s.cells, source);
    assert(with(s, s.cells, g.bf.ptr) == s);
    match else_ {
        Some(block) => {
            lemma_goes_goto(g.bf, g.bf, s, s, source, ef);
            let a = g.bf.goto(ef);
            let s1 = with(s, s.cells, ef);
            let a1 = a.raw("["@);
            let h = g.with(a1);
            let c = h.stmts(env, codegen_fuel, block, 0).bf;
            let z = c.clear(ef).goto(ef);
            assert(sound(a1.out, a1.out, 0)) by {
                reveal(sound);
            }
            sound_codegen::lemma_stmts(h, env, codegen_fuel, block, 0, a1.out, 0);
            assert(sound(a1.out, z.out, 0));
            let t = if s1.cell() != 0 {
                lemma_ready(g, h, env, types, vars);
                let m = lemma_stmts(k, h, env, codegen_fuel, types, vars, p, block, 0, s1, source, fuel);
                lemma_goes_ends(a1, c, s1, m, source);
                lemma_works_start(c, m.cells);
                let y = m.cells.insert(ef, 0);
                assert(works(c, z, m.cells, y));
                lemma_goes_works(c, z, m, y, source);
                let n = with(m, y, z.ptr);
                lemma_goes_then(a1, c, z, s1, m, n, source);
                let q = exec_all(k, types, p, block, 0, source, fuel)->Some_0;
                lemma_shows_beside(types, vars, q.vars, g.bf, m.cells, ef, 0);
                assert forall|k: int|
                    !owned(types, vars, k) && held(g.bf, k) && k != ef implies #[trigger] n.cells[k]
                    == s.cells[k] by {
                    assert(held(h.bf, k));
                    assert(m.cells[k] == s1.cells[k]);
                }
                n
            } else {
                s1
            };
            lemma_goes_once(a, z, s1, t, source);
            lemma_goes_then(g.bf, a, z.raw("]"@), s, s1, t, source);
            t
        },
        None => s,
    }
}

/// The first block of a choice is run where its condition holds; the cell `ef`
/// then is 0, else 1.
proof fn lemma_then(
    k: Calls,
    bf: Bf,
    g2: Cg,
    env: Env,
    codegen_fuel: nat,
    types: Seq<(Seq<char>, TypeAnn)>,
    vars: Seq<(Seq<char>, CellLayout)>,
    p: BfsState,
    then_: Seq<Sm>,
    s: St,
    source: Source,
    fuel: nat,
) -> (t: St)
    requires
        roomy(bf),
        g2.bf.temp_base == bf.temp_base,
        resolves(g2.scopes, env.vars, types, vars),
        !owned(types, vars, choice_cells(bf).1),
        !owned(types, vars, choice_cells(bf).2),
        at_depth(k, g2, env, codegen_fuel),
        laid(types, vars, bf),
        all_plain(k, types, then_, 0),
        s.ptr == g2.bf.ptr,
        bytes(s.cells),
        gives_bytes(source),
        mirrors(types, vars, p, s),
        s.cells[choice_cells(bf).1] != 0 ==> exec_all(k, types, p, then_, 0, source, fuel) is Some,
    ensures
        ({
            let (b3, cc, ef) = choice_cells(bf);
            let g3 = choice_open(g2, bf.used, cc, ef);
            let g5 = choice_shut(g3.stmts(env, codegen_fuel, then_, 0), cc);
            &&& goes(g2.bf, g5.bf, s, t, source)
            &&& mirrors(
                types,
                vars,
                if s.cells[cc] != 0 {
                    exec_all(k, types, p, then_, 0, source, fuel)->Some_0
                } else {
                    p
                },
                t,
            )
            &&& t.cells[ef] == if s.cells[cc] != 0 {
                0int
            } else {
                1int
            }
            &&& forall|k: int|
                !owned(types, vars, k) && held(b3, k) && k != cc && k != ef ==> #[trigger] t.cells[k]
                    == s.cells[k]
        }),
    decreases k.depth, fuel, then_, then_.len() + 1,
{
    broadcast use {works_clear, works_goto, works_setv, sound_clear, sound_goto};

    let (b3, cc, ef) = choice_cells(bf);
    lemma_choice_cells(bf);
    lemma_choice_open(bf, g2);
    let g3 = choice_open(g2, bf.used, cc, ef);
    let d = g2.bf.trestore(bf.used).reserve(cc).reserve(ef);
    let x = s.cells;
    lemma_works_start(d, x);
    let a = d.setv(ef, 1).goto(cc);
    let x1 = x.insert(ef, 1);
    assert(works(d, a, x, x1));
    lemma_goes_works(d, a, s, x1, source);
    let s1 = with(s, x1, cc);
    assert(goes(g2.bf, g2.bf, s, s, source)) by {
        lemma_works_start(g2.bf, x);
        lemma_goes_works(g2.bf, g2.bf, s, x, source);
        assert(with(s, x, g2.bf.ptr) == s);
    }
    lemma_goes_quiet(g2.bf, g2.bf, d, s, s, source);
    lemma_goes_then(g2.bf, d, a, s, s, s1, source);
    lemma_goes_ends(g2.bf, a, s, s1, source);
    lemma_shows_beside(types, vars, p.vars, bf, x, ef, 1);
    let a1 = a.raw("["@);
    assert(g3.bf == a1.clear(ef));
    let c = g3.stmts(env, codegen_fuel, then_, 0).bf;
    let z = c.clear(cc).goto(cc);
    assert(sound(a1.out, a1.out, 0)) by {
        reveal(sound);
    }
    sound_codegen::lemma_stmts(g3, env, codegen_fuel, then_, 0, a1.out, 0);
    assert(sound(a1.out, z.out, 0));
    let t = if s1.cell() != 0 {
        lemma_works_start(a1, x1);
        let x2 = x1.insert(ef, 0);
        assert(works(a1, g3.bf, x1, x2));
        lemma_works_bytes(a1, g3.bf, x1, x2);
        lemma_goes_works(a1, g3.bf, s1, x2, source);
        let s2 = with(s1, x2, g3.bf.ptr);
        lemma_shows_beside(types, vars, p.vars, bf, x1, ef, 0);
        lemma_laid(types, vars, bf, g3.bf);
        let m = lemma_stmts(k, g3, env, codegen_fuel, types, vars, p, then_, 0, s2, source, fuel);
        lemma_goes_then(a1, g3.bf, c, s1, s2, m, source);
        lemma_goes_ends(a1, c, s1, m, source);
        lemma_works_start(c, m.cells);
        let y = m.cells.insert(cc, 0);
        assert(works(c, z, m.cells, y));
        lemma_goes_works(c, z, m, y, source);
        let n = with(m, y, z.ptr);
        lemma_goes_then(a1, c, z, s1, m, n, source);
        let q = exec_all(k, types, p, then_, 0, source, fuel)->Some_0;
        lemma_shows_beside(types, vars, q.vars, bf, m.cells, cc, 0);
        assert(held(g3.bf, ef));
        assert(m.cells[ef] == 0);
        assert forall|k: int|
            !owned(types, vars, k) && held(b3, k) && k != cc && k != ef implies #[trigger] n.cells[k]
            == s.cells[k] by {
            assert(held(g3.bf, k));
            assert(m.cells[k] == s2.cells[k]);
        }
        n
    } else {
        s1
    };
    lemma_goes_once(a, z, s1, t, source);
    lemma_goes_then(g2.bf, a, z.raw("]"@), s, s1, t, source);
    t
}

/// The condition of a choice.
proof fn lemma_choice_head(
    cg: Cg,
    env: Env,
    codegen_fuel: nat,
    types: Seq<(Seq<char>, TypeAnn)>,
    vars: Seq<(Seq<char>, CellLayout)>,
    p: BfsState,
    cond: Ex,
    s: St,
    source: Source,
) -> (t: St)
    requires
        ready(cg, env, types, vars),
        s.ptr == cg.bf.ptr,
        bytes(s.cells),
        mirrors(types, vars, p, s),
        eval(types, p.vars, cond) is Some,
    ensures
        ({
            let (b3, cc, ef) = choice_cells(cg.bf);
            let g2 = cg.with(b3).condition(env, codegen_fuel, cond, cc, false);
            let (v, w) = eval(types, p.vars, cond)->Some_0;
            &&& goes(cg.bf, g2.bf, s, t, source)
            &&& mirrors(types, vars, p, t)
            &&& t.cells[cc] == signal(v, w)
            &&& g2.scopes == cg.scopes
            &&& g2.bf.temp_base == cg.bf.temp_base
        }),
        agree(cg.bf, s.cells, t.cells),
{
    broadcast use {works_clear, works_talloc};

    let bf = cg.bf;
    let x = s.cells;
    let (b3, cc, ef) = choice_cells(bf);
    lemma_choice_cells(bf);
    lemma_works_start(bf, x);
    let x3 = x.insert(cc, 0);
    assert(works(bf, b3, x, x3));
    lemma_works_bytes(bf, b3, x, x3);
    lemma_goes_works(bf, b3, s, x3, source);
    let s3 = with(s, x3, b3.ptr);
    lemma_not_owned(types, vars, bf, cc);
    lemma_shows_beside(types, vars, p.vars, bf, x, cc, 0);
    let g1 = cg.with(b3);
    lemma_ready(cg, g1, env, types, vars);
    let y = lemma_condition(g1, env, codegen_fuel, types, vars, p.vars, cond, cc, false, x3);
    let g2 = g1.condition(env, codegen_fuel, cond, cc, false);
    crate::bfsc::effect::shape::lemma_eval_plain(types, p.vars, cond);
    lemma_condition_shape(g1, env, codegen_fuel, types, vars, cond, cc, false);
    lemma_goes_works(b3, g2.bf, s3, y, source);
    let s4 = with(s3, y, g2.bf.ptr);
    lemma_goes_then(bf, b3, g2.bf, s, s3, s4, source);
    let (v, w) = eval(types, p.vars, cond)->Some_0;
    lemma_shows_beside(types, vars, p.vars, bf, x3, cc, signal(v, w));
    lemma_shows(types, vars, p.vars, b3, x3.insert(cc, signal(v, w)), y);
    assert forall|k: int| held(bf, k) implies #[trigger] y[k] == x[k] by {
        assert(held(b3, k) && k != cc);
        assert(y[k] == x3.insert(cc, signal(v, w))[k]);
    }
    s4
}

/// A choice.
proof fn lemma_choice(
    k: Calls,
    cg: Cg,
    env: Env,
    codegen_fuel: nat,
    types: Seq<(Seq<char>, TypeAnn)>,
    vars: Seq<(Seq<char>, CellLayout)>,
    p: BfsState,
    stmt: Sm,
    s: St,
    source: Source,
    fuel: nat,
) -> (t: St)
    requires
        stmt is If,
        ready(cg, env, types, vars),
        at_depth(k, cg, env, codegen_fuel),
        plain(k, types, stmt),
        s.ptr == cg.bf.ptr,
        bytes(s.cells),
        gives_bytes(source),
        mirrors(types, vars, p, s),
        exec(k, types, p, stmt, source, fuel) is Some,
    ensures
        goes(cg.bf, cg.choice(env, codegen_fuel, stmt).bf, s, t, source),
        mirrors(types, vars, exec(k, types, p, stmt, source, fuel)->Some_0, t),
        temps_kept(types, vars, cg.bf, s.cells, t.cells),
    decreases k.depth, fuel, stmt, 0int,
{
    let cond = stmt->If_0;
    let then_ = stmt->If_1;
    let else_ = stmt->If_2;
    let bf = cg.bf;
    let (b3, cc, ef) = choice_cells(bf);
    lemma_choice_cells(bf);
    lemma_choice_parts(cg, env, codegen_fuel, stmt);
    let s4 = lemma_choice_head(cg, env, codegen_fuel, types, vars, p, cond, s, source);
    let g2 = cg.with(b3).condition(env, codegen_fuel, cond, cc, false);
    lemma_goes_ends(bf, g2.bf, s, s4, source);
    let (v, w) = eval(types, p.vars, cond)->Some_0;
    lemma_not_owned(types, vars, bf, cc);
    lemma_not_owned(types, vars, bf, ef);
    let s5 = lemma_then(k, bf, g2, env, codegen_fuel, types, vars, p, then_, s4, source, fuel);
    let g3 = choice_open(g2, bf.used, cc, ef);
    lemma_choice_open(bf, g2);
    let g4 = g3.stmts(env, codegen_fuel, then_, 0);
    lemma_ready(cg, g3, env, types, vars);
    lemma_stmts_shape(k, g3, env, codegen_fuel, types, vars, then_, 0);
    let g5 = choice_shut(g4, cc);
    lemma_goes_then(bf, g2.bf, g5.bf, s, s4, s5, source);
    lemma_goes_ends(bf, g5.bf, s, s5, source);
    assert(held(b3, ef));
    assert(held(g3.bf, ef));
    assert(held(g4.bf, ef));
    assert(held(g5.bf, ef));
    let q = if v != 0 {
        exec_all(k, types, p, then_, 0, source, fuel)->Some_0
    } else {
        p
    };
    lemma_ready(g3, g5, env, types, vars);
    let t = lemma_else(k, g5, env, codegen_fuel, types, vars, q, ef, else_, s5, source, fuel);
    let g6 = choice_else(g5, env, codegen_fuel, ef, else_);
    lemma_goes_then(bf, g5.bf, g6.bf, s, s5, t, source);
    let c = g6.bf.tfree(ef).tfree(cc);
    lemma_goes_quiet(bf, g6.bf, c, s, t, source);
    assert forall|k: int| !owned(types, vars, k) && held(bf, k) implies #[trigger] t.cells[k]
        == s.cells[k] by {
        assert(held(b3, k) && k != cc && k != ef);
        assert(s4.cells[k] == s.cells[k]);
        assert(s5.cells[k] == s4.cells[k]);
        assert(held(g3.bf, k));
        assert(held(g4.bf, k));
        assert(held(g5.bf, k));
    }
    t
}

/// An expression as a byte.
proof fn lemma_byte(
    cg: Cg,
    env: Env,
    fuel: nat,
    types: Seq<(Seq<char>, TypeAnn)>,
    vars: Seq<(Seq<char>, CellLayout)>,
    values: Store,
    e: Ex,
    s: St,
    source: Source,
) -> (t: St)
    requires
        ready(cg, env, types, vars),
        s.ptr == cg.bf.ptr,
        bytes(s.cells),
        shows(types, vars, values, s.cells),
        eval(types, values, e) is Some,
    ensures
        ({
            let (c, r) = cg.expr_1(env, fuel, e);
            let v = eval(types, values, e)->Some_0.0;
            &&& goes(cg.bf, c.bf, s, t, source)
            &&& leaves(cg.bf, c.bf, s.cells, t.cells, r, 1, v % 256, Set::empty())
            &&& t == with(s, t.cells, c.bf.ptr)
            &&& ready(c, env, types, vars)
            &&& shows(types, vars, values, t.cells)
        }),
{
    let bf = cg.bf;
    let x = s.cells;
    lemma_works_start(bf, x);
    let x1 = lemma_expr(bf, cg, x, x, env, fuel, types, vars, values, e);
    let (c1, r, w) = cg.expr(env, fuel, e);
    let (v, _) = eval(types, values, e)->Some_0;
    let y = lemma_as_byte(bf, bf, c1.bf, x, x, x1, r, w, v);
    let (c, p) = c1.bf.as_byte(r, w);
    lemma_goes_works(bf, c, s, y, source);
    lemma_leaves_agree(bf, c, x, y, p, 1, v % 256);
    lemma_shows(types, vars, values, bf, x, y);
    lemma_ready(cg, cg.with(c), env, types, vars);
    with(s, y, c.ptr)
}

/// A pixel command.
proof fn lemma_pixel(
    cg: Cg,
    env: Env,
    fuel: nat,
    types: Seq<(Seq<char>, TypeAnn)>,
    vars: Seq<(Seq<char>, CellLayout)>,
    p: BfsState,
    x: Ex,
    y: Ex,
    color: Ex,
    s: St,
    source: Source,
) -> (t: St)
    requires
        ready(cg, env, types, vars),
        s.ptr == cg.bf.ptr,
        bytes(s.cells),
        mirrors(types, vars, p, s),
        eval(types, p.vars, x) is Some,
        eval(types, p.vars, y) is Some,
        eval(types, p.vars, color) is Some,
    ensures
        ({
            let a = eval(types, p.vars, x)->Some_0.0;
            let b = eval(types, p.vars, y)->Some_0.0;
            let c = eval(types, p.vars, color)->Some_0.0;
            let q = BfsState { out: p.out + seq![0xFE, a % 256, b % 256, c % 256], ..p };
            &&& goes(cg.bf, cg.stmt(env, fuel, Sm::Setpixel(x, y, color)).bf, s, t, source)
            &&& mirrors(types, vars, q, t)
        }),
        temps_kept(types, vars, cg.bf, s.cells, t.cells),
{
    broadcast use {lemma_took, works_setv, works_talloc};

    let bf = cg.bf;
    let a = eval(types, p.vars, x)->Some_0.0;
    let b = eval(types, p.vars, y)->Some_0.0;
    let c = eval(types, p.vars, color)->Some_0.0;
    let s1 = lemma_byte(cg, env, fuel, types, vars, p.vars, x, s, source);
    let (c1, xc) = cg.expr_1(env, fuel, x);
    lemma_leaves_agree(bf, c1.bf, s.cells, s1.cells, xc, 1, a % 256);
    lemma_goes_ends(bf, c1.bf, s, s1, source);
    let s2 = lemma_byte(c1, env, fuel, types, vars, p.vars, y, s1, source);
    let (c2, yc) = c1.expr_1(env, fuel, y);
    lemma_leaves_agree(c1.bf, c2.bf, s1.cells, s2.cells, yc, 1, b % 256);
    lemma_goes_ends(c1.bf, c2.bf, s1, s2, source);
    let s3 = lemma_byte(c2, env, fuel, types, vars, p.vars, color, s2, source);
    let (c3, cc) = c2.expr_1(env, fuel, color);
    lemma_leaves_agree(c2.bf, c3.bf, s2.cells, s3.cells, cc, 1, c % 256);
    lemma_goes_ends(c2.bf, c3.bf, s2, s3, source);
    lemma_goes_then(bf, c1.bf, c2.bf, s, s1, s2, source);
    lemma_goes_then(bf, c2.bf, c3.bf, s, s2, s3, source);
    assert(held(c1.bf, xc));
    assert(held(c2.bf, xc) && held(c2.bf, yc));
    assert(held(c3.bf, xc) && held(c3.bf, yc) && held(c3.bf, cc));
    assert(s3.cells[xc] == a % 256 && s3.cells[yc] == b % 256 && s3.cells[cc] == c % 256);
    assert(took(c3.bf, c3.bf.talloc().0, c3.bf.talloc().1));
    let (d1, cmd) = c3.bf.talloc();
    let d2 = d1.setv(cmd, 0xFE);
    lemma_works_start(c3.bf, s3.cells);
    let z = s3.cells.insert(cmd, 0xFE);
    assert(works(c3.bf, d2, s3.cells, z));
    lemma_works_bytes(c3.bf, d2, s3.cells, z);
    lemma_goes_works(c3.bf, d2, s3, z, source);
    let s4 = with(s3, z, d2.ptr);
    lemma_goes_then(bf, c3.bf, d2, s, s3, s4, source);
    let s5 = lemma_put(bf, d2, cmd, s, s4, source);
    let d5 = d2.out_cell(cmd).tfree(cmd);
    let s6 = lemma_put(bf, d5, xc, s, s5, source);
    let d6 = d5.out_cell(xc).tfree(xc);
    let s7 = lemma_put(bf, d6, yc, s, s6, source);
    let d7 = d6.out_cell(yc).tfree(yc);
    let t = lemma_put(bf, d7, cc, s, s7, source);
    assert(d7.out_cell(cc).tfree(cc) == cg.stmt(env, fuel, Sm::Setpixel(x, y, color)).bf);
    assert(written_bytes(t.trace) =~= p.out + seq![0xFE, a % 256, b % 256, c % 256]);
    lemma_shows_beside(types, vars, p.vars, c3.bf, s3.cells, cmd, 0xFE);
    assert forall|k: int| !owned(types, vars, k) && held(bf, k) implies #[trigger] t.cells[k]
        == s.cells[k] by {
        assert(held(c1.bf, k) && held(c2.bf, k) && held(c3.bf, k) && k != cmd);
        assert(s1.cells[k] == s.cells[k] && s2.cells[k] == s1.cells[k] && s3.cells[k]
            == s2.cells[k]);
    }
    t
}

/// A number is printed.
proof fn lemma_print(
    cg: Cg,
    env: Env,
    fuel: nat,
    types: Seq<(Seq<char>, TypeAnn)>,
    vars: Seq<(Seq<char>, CellLayout)>,
    p: BfsState,
    e: Ex,
    s: St,
    source: Source,
) -> (t: St)
    requires
        ready(cg, env, types, vars),
        s.ptr == cg.bf.ptr,
        bytes(s.cells),
        mirrors(types, vars, p, s),
        eval(types, p.vars, e) is Some,
    ensures
        goes(cg.bf, cg.stmt(env, fuel, Sm::Print(e)).bf, s, t, source),
        shows(types, vars, p.vars, t.cells),
        t.reads == p.reads,
        written_bytes(t.trace) == p.out + decimal(eval(types, p.vars, e)->Some_0.0) + seq![32],
        temps_kept(types, vars, cg.bf, s.cells, t.cells),
{
    let bf = cg.bf;
    let x = s.cells;
    lemma_works_start(bf, x);
    let y = lemma_expr(bf, cg, x, x, env, fuel, types, vars, p.vars, e);
    let (c1, v, w) = cg.expr(env, fuel, e);
    let (n, _) = eval(types, p.vars, e)->Some_0;
    lemma_leaves_agree(bf, c1.bf, x, y, v, w, n);
    lemma_goes_works(bf, c1.bf, s, y, source);
    let m = with(s, y, c1.bf.ptr);
    lemma_goes_ends(bf, c1.bf, s, m, source);
    let t = lemma_printed(c1.bf, v, w, m, source);
    lemma_goes_then(bf, c1.bf, printed(c1.bf, v, w), s, m, t, source);
    assert(cg.stmt(env, fuel, Sm::Print(e)).bf == printed(c1.bf, v, w));
    assert forall|k: int| held(bf, k) implies #[trigger] t.cells[k] == x[k] by {
        assert(held(c1.bf, k) && !(v <= k < v + w));
        assert(y[k] == x[k]);
    }
    lemma_shows(types, vars, p.vars, bf, x, t.cells);
    t
}

/// A number is read into a variable.
proof fn lemma_scan(
    cg: Cg,
    env: Env,
    codegen_fuel: nat,
    types: Seq<(Seq<char>, TypeAnn)>,
    vars: Seq<(Seq<char>, CellLayout)>,
    p: BfsState,
    name: Seq<char>,
    s: St,
    source: Source,
    fuel: nat,
) -> (t: St)
    requires
        ready(cg, env, types, vars),
        s.ptr == cg.bf.ptr,
        bytes(s.cells),
        gives_bytes(source),
        mirrors(types, vars, p, s),
        width_of(types, name) is Some,
        scanned(source, p.reads, 0, modulus(width_of(types, name)->Some_0), fuel) is Some,
    ensures
        goes(cg.bf, cg.stmt(env, codegen_fuel, Sm::Scan(Lv::Var(name))).bf, s, t, source),
        ({
            let w = width_of(types, name)->Some_0;
            let (v, reads) = scanned(source, p.reads, 0, modulus(w), fuel)->Some_0;
            mirrors(types, vars, (BfsState { vars: p.vars.set(name, v), reads, ..p }), t)
        }),
        temps_kept(types, vars, cg.bf, s.cells, t.cells),
{
    let l = binding(vars, name)->Some_0;
    let base = l.base as int;
    let w = width_of(types, name)->Some_0;
    let bf = cg.bf;
    assert(in_scopes(cg.scopes, env.vars, name, cg.scopes.len() as int) == binding(vars, name));
    let t = lemma_scan_num(bf, base, w, s, source, fuel);
    let (v, _) = scanned(source, p.reads, 0, modulus(w), fuel)->Some_0;
    lemma_shows_set(types, vars, p.vars, bf, s.cells, t.cells, name, v);
    assert forall|k: int| !owned(types, vars, k) && held(bf, k) implies #[trigger] t.cells[k]
        == s.cells[k] by {
        assert(!cell_of(types, vars, name, k));
    }
    t
}

/// A byte is read into a variable.
proof fn lemma_getchar(
    cg: Cg,
    env: Env,
    fuel: nat,
    types: Seq<(Seq<char>, TypeAnn)>,
    vars: Seq<(Seq<char>, CellLayout)>,
    p: BfsState,
    name: Seq<char>,
    s: St,
    source: Source,
) -> (t: St)
    requires
        ready(cg, env, types, vars),
        s.ptr == cg.bf.ptr,
        bytes(s.cells),
        gives_bytes(source),
        mirrors(types, vars, p, s),
        width_of(types, name) is Some,
    ensures
        goes(cg.bf, cg.stmt(env, fuel, Sm::Getchar(Lv::Var(name))).bf, s, t, source),
        mirrors(
            types,
            vars,
            (BfsState { vars: p.vars.set(name, source(p.reads)), reads: p.reads + 1, ..p }),
            t,
        ),
        temps_kept(types, vars, cg.bf, s.cells, t.cells),
{
    let l = binding(vars, name)->Some_0;
    let base = l.base as int;
    let w = width_of(types, name)->Some_0;
    let bf = cg.bf;
    assert(in_scopes(cg.scopes, env.vars, name, cg.scopes.len() as int) == binding(vars, name));
    lemma_goes_in(bf, base, s, source);
    let b1 = bf.inp(base);
    let m = with(s, s.cells, base).read(source(s.reads));
    lemma_goes_ends(bf, b1, s, m, source);
    lemma_works_start(b1, m.cells);
    let y = lemma_clear_range(b1, b1, m.cells, m.cells, base, 1, w);
    let c = b1.clear_range(base, 1, w);
    lemma_goes_works(b1, c, m, y, source);
    let t = with(m, y, c.ptr);
    lemma_goes_then(bf, b1, c, s, m, t, source);
    assert(y[base] == source(s.reads));
    assert(w == 2 ==> y[base + 1] == 0);
    lemma_shows_set(types, vars, p.vars, bf, s.cells, y, name, source(p.reads));
    assert(written_bytes(t.trace) == written_bytes(s.trace)) by {
        assert(t.trace.drop_last() =~= s.trace);
    }
    assert forall|k: int| !owned(types, vars, k) && held(bf, k) implies #[trigger] t.cells[k]
        == s.cells[k] by {
        assert(!cell_of(types, vars, name, k));
    }
    t
}

/// A statement.
proof fn lemma_stmt(
    k: Calls,
    cg: Cg,
    env: Env,
    codegen_fuel: nat,
    types: Seq<(Seq<char>, TypeAnn)>,
    vars: Seq<(Seq<char>, CellLayout)>,
    p: BfsState,
    stmt: Sm,
    s: St,
    source: Source,
    fuel: nat,
) -> (t: St)
    requires
        ready(cg, env, types, vars),
        at_depth(k, cg, env, codegen_fuel),
        plain(k, types, stmt),
        s.ptr == cg.bf.ptr,
        bytes(s.cells),
        gives_bytes(source),
        mirrors(types, vars, p, s),
        exec(k, types, p, stmt, source, fuel) is Some,
    ensures
        goes(cg.bf, cg.stmt(env, codegen_fuel, stmt).bf, s, t, source),
        mirrors(types, vars, exec(k, types, p, stmt, source, fuel)->Some_0, t),
        temps_kept(types, vars, cg.bf, s.cells, t.cells),
    decreases k.depth, fuel, stmt, 2int,
{
    match stmt {
        Sm::Let(name, TypeAnn::Scalar(_), Some(e)) => {
            assert(in_scopes(cg.scopes, env.vars, name, cg.scopes.len() as int) == binding(
                vars,
                name,
            ));
            lemma_assign(cg, env, codegen_fuel, types, vars, p, name, e, s, source)
        },
        Sm::Let(_, TypeAnn::Scalar(_), None) => {
            lemma_works_start(cg.bf, s.cells);
            lemma_goes_works(cg.bf, cg.bf, s, s.cells, source);
            assert(with(s, s.cells, cg.bf.ptr) == s);
            s
        },
        Sm::Assign(Lv::Var(name), e) => {
            assert(in_scopes(cg.scopes, env.vars, name, cg.scopes.len() as int) == binding(
                vars,
                name,
            ));
            lemma_assign(cg, env, codegen_fuel, types, vars, p, name, e, s, source)
        },
        Sm::Let(_, TypeAnn::Array(_, _), None) => {
            lemma_works_start(cg.bf, s.cells);
            lemma_goes_works(cg.bf, cg.bf, s, s.cells, source);
            assert(with(s, s.cells, cg.bf.ptr) == s);
            s
        },
        Sm::Assign(Lv::Index(name, idx), e) => lemma_assign_at(
            cg,
            env,
            codegen_fuel,
            types,
            vars,
            p,
            name,
            idx,
            e,
            s,
            source,
        ),
        Sm::While(_, _) => lemma_while(k, cg, env, codegen_fuel, types, vars, p, stmt, s, source, fuel),
        Sm::If(_, _, _) => lemma_choice(k, cg, env, codegen_fuel, types, vars, p, stmt, s, source, fuel),
        Sm::Print(e) => lemma_print(cg, env, codegen_fuel, types, vars, p, e, s, source),
        Sm::Putchar(e) => {
            let m = lemma_byte(cg, env, codegen_fuel, types, vars, p.vars, e, s, source);
            let (c1, v) = cg.expr_1(env, codegen_fuel, e);
            let n = eval(types, p.vars, e)->Some_0.0;
            lemma_leaves_agree(cg.bf, c1.bf, s.cells, m.cells, v, 1, n % 256);
            lemma_put(cg.bf, c1.bf, v, s, m, source)
        },
        Sm::Setpixel(x, y, color) => lemma_pixel(
            cg,
            env,
            codegen_fuel,
            types,
            vars,
            p,
            x,
            y,
            color,
            s,
            source,
        ),
        Sm::Getchar(Lv::Index(name, idx)) => lemma_getchar_at(
            cg,
            env,
            codegen_fuel,
            types,
            vars,
            p,
            name,
            idx,
            s,
            source,
        ),
        Sm::Scan(Lv::Index(name, idx)) => lemma_scan_at(
            cg,
            env,
            codegen_fuel,
            types,
            vars,
            p,
            name,
            idx,
            s,
            source,
            fuel,
        ),
        Sm::Scan(Lv::Var(name)) => lemma_scan(
            cg,
            env,
            codegen_fuel,
            types,
            vars,
            p,
            name,
            s,
            source,
            fuel,
        ),
        Sm::Getchar(Lv::Var(name)) => lemma_getchar(
            cg,
            env,
            codegen_fuel,
            types,
            vars,
            p,
            name,
            s,
            source,
        ),
        Sm::Call(name, args) => {
            let f = procedure(k.fns, name)->Some_0;
            let less = (codegen_fuel - 1) as nat;
            let now = types_inside(types, f.params, args);
            let g = entered(cg, vars, f.params, args);
            let inner = vars_inside(vars, f.params, args);
            lemma_entered(k, cg, env, codegen_fuel, types, vars, f, args);
            lemma_stmts_shape(k.inner(), g, env, less, now, inner, f.body, 0);
            lemma_expanded(cg, env, codegen_fuel, types, vars, name, args, f);
            lemma_shows_inside(types, vars, cg.bf, f.params, args, p.vars, s.cells);
            let q = BfsState { vars: store_inside(p.vars, f.params, args), ..p };
            let t = lemma_stmts(k.inner(), g, env, less, now, inner, q, f.body, 0, s, source, fuel);
            let u = exec_all(k.inner(), now, q, f.body, 0, source, fuel)->Some_0;
            lemma_shows_behind(
                types,
                vars,
                cg.bf,
                f.params,
                args,
                p.vars,
                u.vars,
                s.cells,
                t.cells,
            );
            t
        },
        _ => s,
    }
}

} // verus!
