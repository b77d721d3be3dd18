//! Laws of the BFS compiler as a whole.

use vstd::prelude::*;

use crate::bfsc::ast::{Ex, Lv, Sm, TypeAnn};
use crate::bfsc::codegen::{emitted, groups_of, Cg, Env};
use crate::bfsc::emitter::Bf;
use crate::bfsc::layout::{binding, index_of_name, lemma_index_of_name, ArrayLayout, CellLayout};
use crate::bfsc::typeck::{
    checked, declared, decls_from, decls_of, expr_fault, stmt_fault, stmts_fault, type_of,
    Checked, Decls,
};

verus! {

/// Every name with a type has cells.
spec fn all_bound(types: Seq<(Seq<char>, TypeAnn)>, vars: Seq<(Seq<char>, CellLayout)>) -> bool {
    forall|name: Seq<char>| #[trigger]
        type_of(types, name) is Some ==> binding(vars, name) is Some
}

/// Every array can be accessed.
pub open spec fn arrays_in_reach(vars: Seq<(Seq<char>, CellLayout)>) -> bool {
    forall|i: int|
        0 <= i < vars.len() ==> ((#[trigger] vars[i]).1.layout matches ArrayLayout::Walk {
            chunk_size,
            num_chunks,
        } ==> groups_of(num_chunks as int) <= 256)
}

spec fn in_reach(l: CellLayout) -> bool {
    l.layout matches ArrayLayout::Walk { chunk_size, num_chunks } ==> groups_of(num_chunks as int)
        <= 256
}

proof fn lemma_index_push(
    vars: Seq<(Seq<char>, CellLayout)>,
    item: (Seq<char>, CellLayout),
    name: Seq<char>,
    from: int,
)
    requires
        0 <= from <= vars.len(),
        index_of_name(vars, name, from) < vars.len(),
    ensures
        index_of_name(vars.push(item), name, from) == index_of_name(vars, name, from),
    decreases vars.len() - from,
{
    if from < vars.len() && vars[from].0 != name {
        lemma_index_push(vars, item, name, from + 1);
    }
}

proof fn lemma_index_last(
    vars: Seq<(Seq<char>, CellLayout)>,
    item: (Seq<char>, CellLayout),
    from: int,
)
    requires
        0 <= from <= vars.len(),
    ensures
        index_of_name(vars.push(item), item.0, from) <= vars.len(),
    decreases vars.len() - from,
{
    if from < vars.len() {
        lemma_index_last(vars, item, from + 1);
    }
}

proof fn lemma_declared_bound(d: Decls, name: Seq<char>, ty: TypeAnn)
    requires
        all_bound(d.types, d.vars),
    ensures
        all_bound(declared(d, name, ty).types, declared(d, name, ty).vars),
        type_of(declared(d, name, ty).types, name) is Some,
        forall|n: Seq<char>| #[trigger]
            type_of(d.types, n) is Some ==> type_of(declared(d, name, ty).types, n) is Some,
{
    let next = declared(d, name, ty);
    let item = next.vars.last();
    assert(next.vars == d.vars.push(item));
    assert(next.types.drop_last() =~= d.types);
    assert forall|n: Seq<char>| #[trigger] type_of(next.types, n) is Some implies binding(
        next.vars,
        n,
    ) is Some by {
        if n == name {
            lemma_index_last(d.vars, item, 0);
        } else {
            assert(type_of(d.types, n) is Some);
            lemma_index_push(d.vars, item, n, 0);
        }
    }
    assert forall|n: Seq<char>| #[trigger] type_of(d.types, n) is Some implies type_of(
        next.types,
        n,
    ) is Some by {
        assert(next.types.drop_last() =~= d.types);
    }
}

/// Every declaration of the statement has a type.
spec fn lets_typed(types: Seq<(Seq<char>, TypeAnn)>, s: Sm) -> bool
    decreases s, 0int,
{
    match s {
        Sm::Let(name, _, _) => type_of(types, name) is Some,
        Sm::While(_, body) => all_lets_typed(types, body, 0),
        Sm::If(_, then_, else_) => all_lets_typed(types, then_, 0) && match else_ {
            Some(block) => all_lets_typed(types, block, 0),
            None => true,
        },
        _ => true,
    }
}

spec fn all_lets_typed(types: Seq<(Seq<char>, TypeAnn)>, ss: Seq<Sm>, i: int) -> bool
    decreases ss, ss.len() - i,
{
    if i < 0 || i >= ss.len() {
        true
    } else {
        lets_typed(types, ss[i]) && all_lets_typed(types, ss, i + 1)
    }
}

spec fn more_types(a: Seq<(Seq<char>, TypeAnn)>, b: Seq<(Seq<char>, TypeAnn)>) -> bool {
    forall|n: Seq<char>| #[trigger] type_of(a, n) is Some ==> type_of(b, n) is Some
}

proof fn lemma_lets_mono(a: Seq<(Seq<char>, TypeAnn)>, b: Seq<(Seq<char>, TypeAnn)>, s: Sm)
    requires
        more_types(a, b),
        lets_typed(a, s),
    ensures
        lets_typed(b, s),
    decreases s, 0int,
{
    match s {
        Sm::While(_, body) => lemma_all_lets_mono(a, b, body, 0),
        Sm::If(_, then_, else_) => {
            lemma_all_lets_mono(a, b, then_, 0);
            match else_ {
                Some(block) => lemma_all_lets_mono(a, b, block, 0),
                None => {},
            }
        },
        _ => {},
    }
}

proof fn lemma_all_lets_mono(
    a: Seq<(Seq<char>, TypeAnn)>,
    b: Seq<(Seq<char>, TypeAnn)>,
    ss: Seq<Sm>,
    i: int,
)
    requires
        more_types(a, b),
        all_lets_typed(a, ss, i),
    ensures
        all_lets_typed(b, ss, i),
    decreases ss, ss.len() - i,
{
    if 0 <= i < ss.len() {
        lemma_lets_mono(a, b, ss[i]);
        lemma_all_lets_mono(a, b, ss, i + 1);
    }
}

proof fn lemma_decls_of(d: Decls, s: Sm)
    requires
        all_bound(d.types, d.vars),
    ensures
        decls_of(d, s) matches Checked::Pass(e) ==> all_bound(e.types, e.vars) && more_types(
            d.types,
            e.types,
        ) && lets_typed(e.types, s),
    decreases s, 0int,
{
    match s {
        Sm::Let(name, ty, _) => {
            lemma_declared_bound(d, name, ty);
        },
        Sm::While(_, body) => {
            lemma_decls_from(d, body, 0);
        },
        Sm::If(_, then_, else_) => {
            lemma_decls_from(d, then_, 0);
            if let Checked::Pass(e) = decls_from(d, then_, 0) {
                if let Some(block) = else_ {
                    lemma_decls_from(e, block, 0);
                    if let Checked::Pass(g) = decls_from(e, block, 0) {
                        lemma_all_lets_mono(e.types, g.types, then_, 0);
                    }
                }
            }
        },
        _ => {},
    }
}

proof fn lemma_decls_from(d: Decls, ss: Seq<Sm>, i: int)
    requires
        all_bound(d.types, d.vars),
    ensures
        decls_from(d, ss, i) matches Checked::Pass(e) ==> all_bound(e.types, e.vars) && more_types(
            d.types,
            e.types,
        ) && all_lets_typed(e.types, ss, i),
    decreases ss, ss.len() - i,
{
    if 0 <= i < ss.len() {
        lemma_decls_of(d, ss[i]);
        if let Checked::Pass(e) = decls_of(d, ss[i]) {
            lemma_decls_from(e, ss, i + 1);
            if let Checked::Pass(g) = decls_from(e, ss, i + 1) {
                lemma_lets_mono(e.types, g.types, ss[i]);
            }
        }
    }
}

/// The state in a program without functions.
spec fn plain_state(cg: Cg, env: Env, types: Seq<(Seq<char>, TypeAnn)>) -> bool {
    &&& cg.scopes.len() == 0
    &&& !cg.fault
    &&& env.fns.len() == 0
    &&& all_bound(types, env.vars)
    &&& arrays_in_reach(env.vars)
}

proof fn lemma_resolved(cg: Cg, env: Env, types: Seq<(Seq<char>, TypeAnn)>, name: Seq<char>)
    requires
        plain_state(cg, env, types),
        type_of(types, name) is Some,
    ensures
        cg.resolved(env, name).0 == cg,
        in_reach(cg.resolved(env, name).1),
{
    assert(binding(env.vars, name) is Some);
    lemma_index_of_name(env.vars, name, 0);
    let i = index_of_name(env.vars, name, 0);
    assert(env.vars[i].1 == cg.resolved(env, name).1);
}

proof fn lemma_expr(cg: Cg, env: Env, fuel: nat, types: Seq<(Seq<char>, TypeAnn)>, e: Ex)
    requires
        plain_state(cg, env, types),
        expr_fault(types, env.fns, e) is None,
    ensures
        plain_state(cg.expr(env, fuel, e).0, env, types),
    decreases e, 0int,
{
    match e {
        Ex::Int(_) => {},
        Ex::Var(name) => {
            lemma_resolved(cg, env, types, name);
        },
        Ex::Index(name, idx) => {
            lemma_resolved(cg, env, types, name);
            let l = cg.resolved(env, name).1;
            lemma_element(cg, env, fuel, types, l, *idx);
        },
        Ex::Call(_, _) => {},
        Ex::BinOp(_, left, right) => {
            lemma_expr(cg, env, fuel, types, *left);
            lemma_expr(cg.expr(env, fuel, *left).0, env, fuel, types, *right);
        },
        Ex::UnOp(_, inner) => {
            lemma_expr(cg, env, fuel, types, *inner);
        },
    }
}

proof fn lemma_element(
    cg: Cg,
    env: Env,
    fuel: nat,
    types: Seq<(Seq<char>, TypeAnn)>,
    l: CellLayout,
    idx: Ex,
)
    requires
        plain_state(cg, env, types),
        expr_fault(types, env.fns, idx) is None,
        in_reach(l),
    ensures
        plain_state(cg.element(env, fuel, l, idx).0, env, types),
    decreases idx, 1int,
{
    match l.layout {
        ArrayLayout::Walk { chunk_size, num_chunks } => {
            let (bf, result) = cg.bf.talloc();
            lemma_expr(cg.with(bf.clear(result)), env, fuel, types, idx);
        },
        ArrayLayout::Linear => {
            let ew = l.ty.cells();
            let (bf, result) = cg.bf.talloc_n(ew);
            lemma_expr(cg.with(bf.clear_range(result, 0, ew)), env, fuel, types, idx);
        },
    }
}

proof fn lemma_set_element(
    cg: Cg,
    env: Env,
    fuel: nat,
    types: Seq<(Seq<char>, TypeAnn)>,
    l: CellLayout,
    idx: Ex,
    val: int,
    val_w: int,
)
    requires
        plain_state(cg, env, types),
        expr_fault(types, env.fns, idx) is None,
        in_reach(l),
    ensures
        plain_state(cg.set_element(env, fuel, l, idx, val, val_w), env, types),
{
    match l.layout {
        ArrayLayout::Walk { chunk_size, num_chunks } => {
            let (bf, v) = cg.bf.store_byte(val, val_w);
            lemma_expr(cg.with(bf), env, fuel, types, idx);
        },
        ArrayLayout::Linear => {
            let (bf, v) = cg.bf.widened(val, val_w, l.ty.cells());
            lemma_expr(cg.with(bf), env, fuel, types, idx);
        },
    }
}

proof fn lemma_stmts(
    cg: Cg,
    env: Env,
    fuel: nat,
    types: Seq<(Seq<char>, TypeAnn)>,
    ss: Seq<Sm>,
    i: int,
)
    requires
        plain_state(cg, env, types),
        stmts_fault(types, env.fns, None, ss, i) is None,
        all_lets_typed(types, ss, i),
    ensures
        plain_state(cg.stmts(env, fuel, ss, i), env, types),
    decreases ss, ss.len() - i,
{
    if 0 <= i < ss.len() {
        lemma_stmt(cg, env, fuel, types, ss[i]);
        lemma_stmts(cg.stmt(env, fuel, ss[i]), env, fuel, types, ss, i + 1);
    }
}

proof fn lemma_while(
    cg: Cg,
    env: Env,
    fuel: nat,
    types: Seq<(Seq<char>, TypeAnn)>,
    cond: Ex,
    body: Seq<Sm>,
)
    requires
        plain_state(cg, env, types),
        expr_fault(types, env.fns, cond) is None,
        stmts_fault(types, env.fns, None, body, 0) is None,
        all_lets_typed(types, body, 0),
    ensures
        plain_state(cg.while_loop(env, fuel, cond, body), env, types),
    decreases body, body.len() + 1,
{
    let (bf, cc) = cg.bf.talloc();
    let bf = bf.clear(cc);
    let saved = bf.used;
    lemma_expr(cg.with(bf), env, fuel, types, cond);
    let cg = cg.with(bf).condition(env, fuel, cond, cc, false);
    let bf = cg.bf.trestore(saved).reserve(cc);
    let bf = bf.goto(cc).raw("["@);
    lemma_stmts(cg.with(bf), env, fuel, types, body, 0);
    let cg = cg.with(bf).stmts(env, fuel, body, 0);
    lemma_expr(cg, env, fuel, types, cond);
}

proof fn lemma_choice(cg: Cg, env: Env, fuel: nat, types: Seq<(Seq<char>, TypeAnn)>, s: Sm)
    requires
        s is If,
        plain_state(cg, env, types),
        stmt_fault(types, env.fns, None, s) is None,
        lets_typed(types, s),
    ensures
        plain_state(cg.choice(env, fuel, s), env, types),
    decreases s, 0int,
{
    if let Sm::If(cond, then_, else_) = s {
        let saved = cg.bf.used;
        let (bf, cc) = cg.bf.talloc();
        let (bf, ef) = bf.talloc();
        let bf = bf.clear(cc);
        lemma_expr(cg.with(bf), env, fuel, types, cond);
        let cg = cg.with(bf).condition(env, fuel, cond, cc, false);
        let bf = cg.bf.trestore(saved).reserve(cc).reserve(ef);
        let bf = bf.setv(ef, 1);
        let bf = bf.goto(cc).raw("["@);
        let bf = bf.clear(ef);
        lemma_stmts(cg.with(bf), env, fuel, types, then_, 0);
        let cg = cg.with(bf).stmts(env, fuel, then_, 0);
        let bf = cg.bf.clear(cc).goto(cc).raw("]"@);
        let cg = cg.with(bf);
        if let Some(block) = else_ {
            let bf = cg.bf.goto(ef).raw("["@);
            lemma_stmts(cg.with(bf), env, fuel, types, block, 0);
        }
    }
}

proof fn lemma_stmt(cg: Cg, env: Env, fuel: nat, types: Seq<(Seq<char>, TypeAnn)>, s: Sm)
    requires
        plain_state(cg, env, types),
        stmt_fault(types, env.fns, None, s) is None,
        lets_typed(types, s),
    ensures
        plain_state(cg.stmt(env, fuel, s), env, types),
    decreases s, 1int,
{
    match s {
        Sm::Let(name, _, init) => {
            lemma_resolved(cg, env, types, name);
            if let Some(e) = init {
                lemma_expr(cg, env, fuel, types, e);
            }
        },
        Sm::Assign(lval, e) => {
            match lval {
                Lv::Var(name) => {
                    lemma_resolved(cg, env, types, name);
                    lemma_expr(cg, env, fuel, types, e);
                },
                Lv::Index(name, idx) => {
                    lemma_resolved(cg, env, types, name);
                    lemma_expr(cg, env, fuel, types, e);
                    let l = cg.resolved(env, name).1;
                    let (next, v, vw) = cg.expr(env, fuel, e);
                    lemma_set_element(next, env, fuel, types, l, idx, v, vw);
                },
            }
        },
        Sm::While(cond, body) => {
            lemma_while(cg, env, fuel, types, cond, body);
        },
        Sm::If(_, _, _) => {
            lemma_choice(cg, env, fuel, types, s);
        },
        Sm::Print(e) => {
            lemma_expr(cg, env, fuel, types, e);
        },
        Sm::Putchar(e) => {
            lemma_expr(cg, env, fuel, types, e);
        },
        Sm::Setpixel(x, y, color) => {
            lemma_expr(cg, env, fuel, types, x);
            let cg = cg.expr_1(env, fuel, x).0;
            lemma_expr(cg, env, fuel, types, y);
            let cg = cg.expr_1(env, fuel, y).0;
            lemma_expr(cg, env, fuel, types, color);
        },
        Sm::Getchar(lval) => {
            match lval {
                Lv::Var(name) => {
                    lemma_resolved(cg, env, types, name);
                },
                Lv::Index(name, idx) => {
                    lemma_resolved(cg, env, types, name);
                    let l = cg.resolved(env, name).1;
                    let ew = l.ty.cells();
                    let (bf, t) = cg.bf.talloc_n(ew);
                    lemma_set_element(
                        cg.with(bf.inp(t).clear_range(t, 1, ew)),
                        env,
                        fuel,
                        types,
                        l,
                        idx,
                        t,
                        ew,
                    );
                },
            }
        },
        Sm::Call(_, _) => {},
        Sm::Return(_) => {},
        Sm::Scan(lval) => {
            match lval {
                Lv::Var(name) => {
                    lemma_resolved(cg, env, types, name);
                },
                Lv::Index(name, idx) => {
                    lemma_resolved(cg, env, types, name);
                    let l = cg.resolved(env, name).1;
                    let ew = l.ty.cells();
                    let (bf, t) = cg.bf.talloc_n(ew);
                    lemma_set_element(
                        cg.with(bf.scan_num_n(t, ew)),
                        env,
                        fuel,
                        types,
                        l,
                        idx,
                        t,
                        ew,
                    );
                },
            }
        },
    }
}

/// Every program without functions that passes the type check is emitted,
/// unless it declares a byte array of more than 65536 chunks of 256 elements.
pub proof fn law_checked_programs_are_emitted(top: Seq<Sm>)
    requires
        checked(top, Seq::empty()) is Pass,
        arrays_in_reach(checked(top, Seq::empty())->Pass_0.vars),
    ensures
        ({
            let d = checked(top, Seq::empty())->Pass_0;
            emitted(top, Seq::empty(), d.vars, d.next) is Some
        }),
{
    let none = Decls { types: Seq::empty(), vars: Seq::empty(), next: 0 };
    let d = checked(top, Seq::empty())->Pass_0;
    lemma_decls_from(none, top, 0);
    let env = Env { vars: d.vars, fns: Seq::empty() };
    let start = Cg { bf: Bf::start(d.next), scopes: Seq::empty(), fault: false };
    lemma_stmts(start, env, 0, d.types, top, 0);
}

} // verus!
