//! What a call does: a function has the arrays that are passed under names of its own.

use vstd::prelude::*;

use crate::bfsc::ast::{Ex, Fun, Sm, TypeAnn};
use crate::bfsc::codegen::{in_scopes, is_passed, Arg, Cg, Env};
use crate::bfsc::effect::arith::{lemma_same_val, val};
use crate::bfsc::effect::cells::held;
use crate::bfsc::effect::expr::{
    beside, cell_of, laid, lemma_row_kept, owned, shows, shows_row,
};
use crate::bfsc::effect::far::room;
use crate::bfsc::effect::program::{at_depth, ready, temps_kept};
use crate::bfsc::effect::steps::Cells;
use crate::bfsc::emitter::Bf;
use crate::bfsc::layout::{binding, bound, index_of_name, lemma_index_of_name, CellLayout};
use crate::bfsc::meaning::{
    arg_names, far, out_of_sight, param_names, passes, procedure, row_of, store_behind,
    store_inside, types_inside, width_of, Calls, Store,
};
use crate::bfsc::typeck::type_of;

verus! {

/// The bindings of the parameters: the arrays that are passed.
pub open spec fn frame_of(
    vars: Seq<(Seq<char>, CellLayout)>,
    params: Seq<(Seq<char>, TypeAnn)>,
    args: Seq<Ex>,
) -> Seq<(Seq<char>, CellLayout)> {
    Seq::new(params.len(), |i: int| (params[i].0, binding(vars, args[i]->Var_0)->Some_0))
}

/// The bindings that a function sees.
pub open spec fn vars_inside(
    vars: Seq<(Seq<char>, CellLayout)>,
    params: Seq<(Seq<char>, TypeAnn)>,
    args: Seq<Ex>,
) -> Seq<(Seq<char>, CellLayout)> {
    frame_of(vars, params, args) + vars
}

/// The code generator inside a function.
pub open spec fn entered(
    cg: Cg,
    vars: Seq<(Seq<char>, CellLayout)>,
    params: Seq<(Seq<char>, TypeAnn)>,
    args: Seq<Ex>,
) -> Cg {
    Cg { scopes: cg.scopes.push(frame_of(vars, params, args)), ..cg }
}

/// The name outside of what a name means inside.
pub open spec fn meant(
    params: Seq<(Seq<char>, TypeAnn)>,
    args: Seq<Ex>,
    name: Seq<char>,
) -> Seq<char> {
    let ps = param_names(params);
    if ps.contains(name) {
        arg_names(args)[ps.index_of(name)]
    } else {
        name
    }
}

/// A list in front of another hides its names.
proof fn lemma_in_front(
    frame: Seq<(Seq<char>, CellLayout)>,
    vars: Seq<(Seq<char>, CellLayout)>,
    name: Seq<char>,
)
    ensures
        binding(frame + vars, name) == match binding(frame, name) {
            Some(l) => Some(l),
            None => binding(vars, name),
        },
{
    let all = frame + vars;
    let n = frame.len() as int;
    lemma_index_of_name(frame, name, 0);
    lemma_index_of_name(vars, name, 0);
    lemma_index_of_name(all, name, 0);
    let i = index_of_name(frame, name, 0);
    let j = index_of_name(vars, name, 0);
    let k = index_of_name(all, name, 0);
    if i < n {
        assert(all[i] == frame[i]);
        if k < i {
            assert(all[k] == frame[k]);
        }
    } else {
        if k < n {
            assert(all[k] == frame[k]);
        }
        if j < vars.len() {
            assert(all[n + j] == vars[j]);
        }
        if k < all.len() {
            assert(all[k] == vars[k - n]);
        }
    }
}

/// The binding of a parameter is the array's.
proof fn lemma_frame(
    vars: Seq<(Seq<char>, CellLayout)>,
    params: Seq<(Seq<char>, TypeAnn)>,
    args: Seq<Ex>,
    name: Seq<char>,
)
    requires
        args.len() == params.len(),
        param_names(params).no_duplicates(),
    ensures
        binding(frame_of(vars, params, args), name) == if param_names(params).contains(name) {
            Some(binding(vars, meant(params, args, name))->Some_0)
        } else {
            None
        },
{
    let frame = frame_of(vars, params, args);
    let ps = param_names(params);
    lemma_index_of_name(frame, name, 0);
    let i = index_of_name(frame, name, 0);
    if ps.contains(name) {
        let j = ps.index_of(name);
        assert(frame[j].0 == name);
        assert(i <= j);
        assert(ps[i] == frame[i].0);
        assert(i == j);
    } else if i < frame.len() {
        assert(ps[i] == frame[i].0);
    }
}

/// The types of a list behind another.
proof fn lemma_type_concat(
    a: Seq<(Seq<char>, TypeAnn)>,
    b: Seq<(Seq<char>, TypeAnn)>,
    name: Seq<char>,
)
    ensures
        type_of(a + b, name) == if type_of(b, name) is Some {
            type_of(b, name)
        } else {
            type_of(a, name)
        },
    decreases b.len(),
{
    if b.len() == 0 {
        assert(a + b =~= a);
    } else {
        lemma_type_concat(a, b.drop_last(), name);
        assert((a + b).drop_last() =~= a + b.drop_last());
        assert((a + b).last() == b.last());
    }
}

/// A name has a type where it stands in the list.
proof fn lemma_type_listed(b: Seq<(Seq<char>, TypeAnn)>, name: Seq<char>) -> (i: int)
    ensures
        type_of(b, name) is Some ==> 0 <= i < b.len() && b[i].0 == name && type_of(b, name) == Some(
            b[i].1,
        ),
        type_of(b, name) is None ==> forall|j: int|
            0 <= j < b.len() ==> (#[trigger] b[j]).0 != name,
    decreases b.len(),
{
    if b.len() == 0 {
        0
    } else if b.last().0 == name {
        b.len() - 1
    } else {
        let i = lemma_type_listed(b.drop_last(), name);
        if type_of(b, name) is Some {
            assert(b.drop_last()[i] == b[i]);
        } else {
            assert forall|j: int| 0 <= j < b.len() implies (#[trigger] b[j]).0 != name by {
                if j < b.len() - 1 {
                    assert(b.drop_last()[j] == b[j]);
                }
            }
        }
        i
    }
}

/// The types inside.
proof fn lemma_types_inside(
    types: Seq<(Seq<char>, TypeAnn)>,
    params: Seq<(Seq<char>, TypeAnn)>,
    args: Seq<Ex>,
    name: Seq<char>,
)
    requires
        passes(types, params, args),
    ensures
        type_of(types_inside(types, params, args), name) == if param_names(params).contains(name) {
            type_of(types, meant(params, args, name))
        } else if arg_names(args).contains(name) {
            Some(out_of_sight())
        } else {
            type_of(types, name)
        },
{
    let ps = param_names(params);
    let xs = arg_names(args);
    let hides = Seq::new(xs.len(), |i: int| (xs[i], out_of_sight()));
    let news = Seq::new(ps.len(), |i: int| (ps[i], type_of(types, xs[i])->Some_0));
    lemma_type_concat(types, hides, name);
    lemma_type_concat(types + hides, news, name);
    let i = lemma_type_listed(news, name);
    let j = lemma_type_listed(hides, name);
    if ps.contains(name) {
        let m = ps.index_of(name);
        assert(news[m].0 == name);
        assert(news[i].0 == ps[i]);
        assert(i == m);
        assert(args[m] is Var && row_of(types, args[m]->Var_0) is Some);
        assert(xs[m] == args[m]->Var_0);
    } else {
        if type_of(news, name) is Some {
            assert(news[i].0 == ps[i]);
        }
        if xs.contains(name) {
            let m = xs.index_of(name);
            assert(hides[m].0 == name);
        } else if type_of(hides, name) is Some {
            assert(hides[j].0 == xs[j]);
        }
    }
}

/// A name that can be used inside has the type and the cells of what it means.
proof fn lemma_in_sight(
    types: Seq<(Seq<char>, TypeAnn)>,
    vars: Seq<(Seq<char>, CellLayout)>,
    params: Seq<(Seq<char>, TypeAnn)>,
    args: Seq<Ex>,
    name: Seq<char>,
)
    requires
        passes(types, params, args),
        forall|n: Seq<char>| #[trigger] row_of(types, n) is Some ==> binding(vars, n) is Some,
        ({
            let now = types_inside(types, params, args);
            width_of(now, name) is Some || row_of(now, name) is Some
        }),
    ensures
        ({
            let now = types_inside(types, params, args);
            let other = meant(params, args, name);
            &&& width_of(now, name) == width_of(types, other)
            &&& row_of(now, name) == row_of(types, other)
            &&& far(now, name) == far(types, other)
            &&& binding(vars_inside(vars, params, args), name) == binding(vars, other)
            &&& !param_names(params).contains(name) ==> !arg_names(args).contains(name)
        }),
{
    lemma_types_inside(types, params, args, name);
    lemma_frame(vars, params, args, name);
    lemma_in_front(frame_of(vars, params, args), vars, name);
    let ps = param_names(params);
    if ps.contains(name) {
        let m = ps.index_of(name);
        assert(args[m] is Var && row_of(types, args[m]->Var_0) is Some);
        assert(arg_names(args)[m] == args[m]->Var_0);
    }
}

/// Different names mean different variables.
proof fn lemma_meant_apart(
    params: Seq<(Seq<char>, TypeAnn)>,
    args: Seq<Ex>,
    p: Seq<char>,
    q: Seq<char>,
)
    requires
        args.len() == params.len(),
        param_names(params).no_duplicates(),
        arg_names(args).no_duplicates(),
        p != q,
        !param_names(params).contains(p) ==> !arg_names(args).contains(p),
        !param_names(params).contains(q) ==> !arg_names(args).contains(q),
    ensures
        meant(params, args, p) != meant(params, args, q),
{
    let ps = param_names(params);
    let xs = arg_names(args);
    if ps.contains(p) {
        let i = ps.index_of(p);
        assert(ps[i] == p);
        assert(xs.contains(xs[i]));
        if ps.contains(q) {
            let j = ps.index_of(q);
            assert(ps[j] == q);
            assert(i != j);
        }
    } else if ps.contains(q) {
        let j = ps.index_of(q);
        assert(ps[j] == q);
        assert(xs.contains(xs[j]));
    }
}

/// The variables that a function sees lie apart.
proof fn lemma_laid_inside(
    types: Seq<(Seq<char>, TypeAnn)>,
    vars: Seq<(Seq<char>, CellLayout)>,
    b: Bf,
    params: Seq<(Seq<char>, TypeAnn)>,
    args: Seq<Ex>,
)
    requires
        passes(types, params, args),
        laid(types, vars, b),
    ensures
        laid(types_inside(types, params, args), vars_inside(vars, params, args), b),
{
    let now = types_inside(types, params, args);
    let inner = vars_inside(vars, params, args);
    assert forall|p: Seq<char>, q: Seq<char>|
        p != q && (width_of(now, p) is Some || row_of(now, p) is Some) && (width_of(now, q) is Some
            || row_of(now, q) is Some) implies #[trigger] beside(inner, p, q) by {
        lemma_in_sight(types, vars, params, args, p);
        lemma_in_sight(types, vars, params, args, q);
        lemma_meant_apart(params, args, p, q);
        let a = meant(params, args, p);
        let c = meant(params, args, q);
        if width_of(types, a) is Some && width_of(types, c) is Some {
            assert(beside(vars, a, c));
        } else if width_of(types, a) is Some {
            assert(row_of(types, c) is Some);
            assert(beside(vars, a, c));
        } else if width_of(types, c) is Some {
            assert(row_of(types, a) is Some);
            assert(beside(vars, c, a));
        } else {
            assert(row_of(types, a) is Some && row_of(types, c) is Some);
            assert(beside(vars, a, c));
        }
    }
    assert forall|name: Seq<char>| #[trigger] width_of(now, name) is Some implies binding(
        inner,
        name,
    ) == binding(vars, meant(params, args, name)) && width_of(now, name) == width_of(
        types,
        meant(params, args, name),
    ) by {
        lemma_in_sight(types, vars, params, args, name);
    }
    assert forall|name: Seq<char>| #[trigger] row_of(now, name) is Some implies binding(inner, name)
        == binding(vars, meant(params, args, name)) && row_of(now, name) == row_of(
        types,
        meant(params, args, name),
    ) && far(now, name) == far(types, meant(params, args, name)) by {
        lemma_in_sight(types, vars, params, args, name);
    }
    assert forall|p: Seq<char>, q: Seq<char>|
        #![trigger width_of(now, p), row_of(now, q)]
        width_of(now, p) is Some && row_of(now, q) is Some implies beside(inner, p, q) by {
        assert(p != q);
    }
}

/// A cell that a function's variables have is a variable's outside.
proof fn lemma_owned_inside(
    types: Seq<(Seq<char>, TypeAnn)>,
    vars: Seq<(Seq<char>, CellLayout)>,
    b: Bf,
    params: Seq<(Seq<char>, TypeAnn)>,
    args: Seq<Ex>,
    k: int,
) -> (name: Seq<char>)
    requires
        passes(types, params, args),
        laid(types, vars, b),
        owned(types_inside(types, params, args), vars_inside(vars, params, args), k),
    ensures
        cell_of(types, vars, meant(params, args, name), k),
        !param_names(params).contains(name) ==> !arg_names(args).contains(name),
{
    let now = types_inside(types, params, args);
    let inner = vars_inside(vars, params, args);
    let name = choose|name: Seq<char>| #[trigger] cell_of(now, inner, name, k);
    lemma_in_sight(types, vars, params, args, name);
    name
}

/// The outer scopes do not depend on the innermost one.
proof fn lemma_same_scopes(
    a: Seq<Seq<(Seq<char>, CellLayout)>>,
    b: Seq<Seq<(Seq<char>, CellLayout)>>,
    vars: Seq<(Seq<char>, CellLayout)>,
    name: Seq<char>,
    n: int,
)
    requires
        n <= a.len(),
        n <= b.len(),
        forall|i: int| 0 <= i < n ==> #[trigger] a[i] == b[i],
    ensures
        in_scopes(a, vars, name, n) == in_scopes(b, vars, name, n),
    decreases n,
{
    if n > 0 {
        assert(a[n - 1] == b[n - 1]);
        lemma_same_scopes(a, b, vars, name, n - 1);
    }
}

/// The code generator is ready for the statements of a function.
pub proof fn lemma_entered(
    k: Calls,
    cg: Cg,
    env: Env,
    fuel: nat,
    types: Seq<(Seq<char>, TypeAnn)>,
    vars: Seq<(Seq<char>, CellLayout)>,
    f: Fun,
    args: Seq<Ex>,
)
    requires
        ready(cg, env, types, vars),
        at_depth(k, cg, env, fuel),
        fuel > 0,
        passes(types, f.params, args),
    ensures
        ready(
            entered(cg, vars, f.params, args),
            env,
            types_inside(types, f.params, args),
            vars_inside(vars, f.params, args),
        ),
        at_depth(k.inner(), entered(cg, vars, f.params, args), env, (fuel - 1) as nat),
{
    let now = types_inside(types, f.params, args);
    let inner = vars_inside(vars, f.params, args);
    let frame = frame_of(vars, f.params, args);
    let scopes = entered(cg, vars, f.params, args).scopes;
    let n = cg.scopes.len() as int;
    lemma_laid_inside(types, vars, cg.bf, f.params, args);
    assert forall|name: Seq<char>| #[trigger] type_of(now, name) is Some implies in_scopes(
        scopes,
        env.vars,
        name,
        scopes.len() as int,
    ) == binding(inner, name) by {
        lemma_types_inside(types, f.params, args, name);
        lemma_frame(vars, f.params, args, name);
        lemma_in_front(frame, vars, name);
        assert(scopes[n] == frame);
        lemma_same_scopes(scopes, cg.scopes, env.vars, name, n);
        if !param_names(f.params).contains(name) {
            if arg_names(args).contains(name) {
                let m = arg_names(args).index_of(name);
                assert(args[m] is Var && row_of(types, args[m]->Var_0) is Some);
            }
            assert(type_of(types, name) is Some);
        }
    }
}

/// Arrays are passed without code.
proof fn lemma_aliases(
    cg: Cg,
    env: Env,
    fuel: nat,
    types: Seq<(Seq<char>, TypeAnn)>,
    vars: Seq<(Seq<char>, CellLayout)>,
    params: Seq<(Seq<char>, TypeAnn)>,
    args: Seq<Ex>,
    i: int,
    done: Seq<Arg>,
)
    requires
        ready(cg, env, types, vars),
        passes(types, params, args),
        0 <= i <= args.len(),
        done == Seq::new(i as nat, |j: int| Arg::Alias(binding(vars, args[j]->Var_0)->Some_0)),
    ensures
        cg.args(env, fuel, params, args, i, done) == (
            cg,
            Seq::new(
                args.len(),
                |j: int| Arg::Alias(binding(vars, args[j]->Var_0)->Some_0),
            ),
        ),
    decreases args.len() - i,
{
    if i < args.len() {
        assert(args[i] is Var && row_of(types, args[i]->Var_0) is Some);
        let name = args[i]->Var_0;
        let l = binding(vars, name)->Some_0;
        assert(type_of(types, name) is Some);
        assert(cg.resolved(env, name) == (cg, l));
        let next = done.push(Arg::Alias(l));
        assert(next =~= Seq::new(
            (i + 1) as nat,
            |j: int| Arg::Alias(binding(vars, args[j]->Var_0)->Some_0),
        ));
        lemma_aliases(cg, env, fuel, types, vars, params, args, i + 1, next);
        assert(params[i].1 is Array);
        assert(args[i] == Ex::Var(name));
    }
}

/// Parameters are bound to arrays without code.
proof fn lemma_bindings(
    cg: Cg,
    vars: Seq<(Seq<char>, CellLayout)>,
    params: Seq<(Seq<char>, TypeAnn)>,
    args: Seq<Ex>,
    i: int,
    scope: Seq<(Seq<char>, CellLayout)>,
    cells: Seq<(int, int)>,
)
    requires
        args.len() == params.len(),
        param_names(params).no_duplicates(),
        0 <= i <= params.len(),
        scope == frame_of(vars, params, args).take(i),
    ensures
        cg.params(
            params,
            Seq::new(
                args.len(),
                |j: int| Arg::Alias(binding(vars, args[j]->Var_0)->Some_0),
            ),
            i,
            scope,
            cells,
        ) == (cg, frame_of(vars, params, args), cells),
    decreases params.len() - i,
{
    let frame = frame_of(vars, params, args);
    let vals = Seq::new(
        args.len(),
        |j: int| Arg::Alias(binding(vars, args[j]->Var_0)->Some_0),
    );
    if i < params.len() {
        let name = params[i].0;
        let l = binding(vars, args[i]->Var_0)->Some_0;
        lemma_index_of_name(scope, name, 0);
        let j = index_of_name(scope, name, 0);
        if j < scope.len() {
            assert(scope[j] == frame[j]);
            assert(param_names(params)[j] == param_names(params)[i]);
        }
        assert(bound(scope, name, l) =~= frame.take(i + 1));
        assert(vals[i] == Arg::Alias(l));
        lemma_bindings(cg, vars, params, args, i + 1, frame.take(i + 1), cells);
    } else {
        assert(frame.take(i) =~= frame);
    }
}

/// A function without variables of its own has no cells to give back.
proof fn lemma_nothing_freed(
    bf: Bf,
    vars: Seq<(Seq<char>, CellLayout)>,
    params: Seq<(Seq<char>, TypeAnn)>,
    args: Seq<Ex>,
    i: int,
)
    requires
        0 <= i <= params.len(),
    ensures
        bf.free_locals(frame_of(vars, params, args), params, i) == bf,
    decreases params.len() - i,
{
    if i < params.len() {
        let frame = frame_of(vars, params, args);
        assert(frame[i].0 == params[i].0);
        assert(is_passed(params, frame[i].0));
        lemma_nothing_freed(bf, vars, params, args, i + 1);
    }
}

/// A call is emitted as the function's statements.
pub proof fn lemma_expanded(
    cg: Cg,
    env: Env,
    fuel: nat,
    types: Seq<(Seq<char>, TypeAnn)>,
    vars: Seq<(Seq<char>, CellLayout)>,
    name: Seq<char>,
    args: Seq<Ex>,
    f: Fun,
)
    requires
        ready(cg, env, types, vars),
        procedure(env.fns, name) == Some(f),
        passes(types, f.params, args),
        fuel > 0,
        entered(cg, vars, f.params, args).stmts(env, (fuel - 1) as nat, f.body, 0).scopes
            == entered(cg, vars, f.params, args).scopes,
    ensures
        cg.stmt(env, fuel, Sm::Call(name, args)) == (Cg {
            scopes: cg.scopes,
            ..entered(cg, vars, f.params, args).stmts(env, (fuel - 1) as nat, f.body, 0)
        }),
{
    let g = entered(cg, vars, f.params, args);
    let frame = frame_of(vars, f.params, args);
    let end = g.stmts(env, (fuel - 1) as nat, f.body, 0);
    assert(end.scopes.last() == frame);
    assert(end.scopes.drop_last() =~= cg.scopes);
    let none = Seq::<(int, int)>::empty();
    let start = Seq::<Arg>::empty();
    assert(start =~= Seq::new(0, |j: int| Arg::Alias(binding(vars, args[j]->Var_0)->Some_0)));
    lemma_aliases(cg, env, fuel, types, vars, f.params, args, 0, start);
    let empty = Seq::<(Seq<char>, CellLayout)>::empty();
    assert(empty =~= frame.take(0));
    lemma_bindings(cg, vars, f.params, args, 0, empty, none);
    assert(end.bf.free_values(none, 0) == end.bf);
    lemma_nothing_freed(end.bf, vars, f.params, args, 0);
    let (c, r) = cg.call(env, fuel, name, args);
    assert(r is None);
    assert(c.bf == end.bf && c.scopes == cg.scopes && c.fault == end.fault);
}

/// Inside a function the cells hold its variables.
pub proof fn lemma_shows_inside(
    types: Seq<(Seq<char>, TypeAnn)>,
    vars: Seq<(Seq<char>, CellLayout)>,
    b: Bf,
    params: Seq<(Seq<char>, TypeAnn)>,
    args: Seq<Ex>,
    s: Store,
    x: Cells,
)
    requires
        passes(types, params, args),
        laid(types, vars, b),
        shows(types, vars, s, x),
    ensures
        shows(
            types_inside(types, params, args),
            vars_inside(vars, params, args),
            store_inside(s, params, args),
            x,
        ),
{
    let now = types_inside(types, params, args);
    let inner = vars_inside(vars, params, args);
    let q = store_inside(s, params, args);
    assert forall|name: Seq<char>| #[trigger] width_of(now, name) is Some implies val(
        x,
        binding(inner, name)->Some_0.base as int,
        width_of(now, name)->Some_0,
    ) == q.nums[name] by {
        lemma_in_sight(types, vars, params, args, name);
        let other = meant(params, args, name);
        assert(width_of(types, other) is Some);
        if param_names(params).contains(name) {
            let m = param_names(params).index_of(name);
            assert(args[m] is Var && row_of(types, args[m]->Var_0) is Some);
            assert(other == args[m]->Var_0);
        }
    }
    assert forall|name: Seq<char>| #[trigger] row_of(now, name) is Some implies shows_row(
        x,
        binding(inner, name)->Some_0.base as int,
        row_of(now, name)->Some_0.0,
        row_of(now, name)->Some_0.1,
        q.rows[name],
        far(now, name),
    ) by {
        lemma_in_sight(types, vars, params, args, name);
        assert(row_of(types, meant(params, args, name)) is Some);
        assert(q.rows[name] == s.rows[meant(params, args, name)]);
    }
}

/// A variable that a function does not see keeps its cells.
proof fn lemma_unseen_kept(
    types: Seq<(Seq<char>, TypeAnn)>,
    vars: Seq<(Seq<char>, CellLayout)>,
    b: Bf,
    params: Seq<(Seq<char>, TypeAnn)>,
    args: Seq<Ex>,
    x: Cells,
    y: Cells,
    name: Seq<char>,
)
    requires
        passes(types, params, args),
        laid(types, vars, b),
        temps_kept(
            types_inside(types, params, args),
            vars_inside(vars, params, args),
            b,
            x,
            y,
        ),
        width_of(types, name) is Some || row_of(types, name) is Some,
        param_names(params).contains(name),
        !arg_names(args).contains(name),
    ensures
        ({
            let l = binding(vars, name)->Some_0;
            forall|k: int| l.base <= k < l.base + l.width ==> #[trigger] y[k] == x[k]
        }),
{
    let now = types_inside(types, params, args);
    let inner = vars_inside(vars, params, args);
    let l = binding(vars, name)->Some_0;
    assert forall|k: int| l.base <= k < l.base + l.width implies #[trigger] y[k] == x[k] by {
        assert(held(b, k)) by {
            if width_of(types, name) is Some {
                assert(width_of(types, name) is Some);
            } else {
                assert(row_of(types, name) is Some);
            }
        }
        if owned(now, inner, k) {
            let m = lemma_owned_inside(types, vars, b, params, args, k);
            let other = meant(params, args, m);
            let ps = param_names(params);
            if ps.contains(m) {
                let j = ps.index_of(m);
                assert(arg_names(args).contains(arg_names(args)[j]));
            }
            assert(other != name);
            assert(beside(vars, other, name) || beside(vars, name, other)) by {
                if width_of(types, other) is Some && width_of(types, name) is Some {
                    assert(beside(vars, other, name));
                } else if width_of(types, other) is Some {
                    assert(row_of(types, name) is Some);
                    assert(beside(vars, other, name));
                } else if width_of(types, name) is Some {
                    assert(row_of(types, other) is Some);
                    assert(beside(vars, name, other));
                } else {
                    assert(row_of(types, other) is Some && row_of(types, name) is Some);
                    assert(beside(vars, other, name));
                }
            }
        }
    }
}

/// Behind a call the cells hold the variables again.
pub proof fn lemma_shows_behind(
    types: Seq<(Seq<char>, TypeAnn)>,
    vars: Seq<(Seq<char>, CellLayout)>,
    b: Bf,
    params: Seq<(Seq<char>, TypeAnn)>,
    args: Seq<Ex>,
    s: Store,
    u: Store,
    x: Cells,
    y: Cells,
)
    requires
        passes(types, params, args),
        laid(types, vars, b),
        shows(types, vars, s, x),
        shows(types_inside(types, params, args), vars_inside(vars, params, args), u, y),
        temps_kept(
            types_inside(types, params, args),
            vars_inside(vars, params, args),
            b,
            x,
            y,
        ),
    ensures
        shows(types, vars, store_behind(u, s, params, args), y),
        temps_kept(types, vars, b, x, y),
{
    let now = types_inside(types, params, args);
    let inner = vars_inside(vars, params, args);
    let ps = param_names(params);
    let xs = arg_names(args);
    let q = store_behind(u, s, params, args);
    assert forall|name: Seq<char>| #[trigger] width_of(types, name) is Some implies val(
        y,
        binding(vars, name)->Some_0.base as int,
        width_of(types, name)->Some_0,
    ) == q.nums[name] by {
        if xs.contains(name) {
            let m = xs.index_of(name);
            assert(args[m] is Var && row_of(types, args[m]->Var_0) is Some);
        }
        if ps.contains(name) {
            lemma_unseen_kept(types, vars, b, params, args, x, y, name);
            lemma_same_val(
                x,
                y,
                binding(vars, name)->Some_0.base as int,
                width_of(types, name)->Some_0,
            );
        } else {
            lemma_types_inside(types, params, args, name);
            assert(width_of(now, name) is Some);
            lemma_in_sight(types, vars, params, args, name);
        }
    }
    assert forall|name: Seq<char>| #[trigger] row_of(types, name) is Some implies shows_row(
        y,
        binding(vars, name)->Some_0.base as int,
        row_of(types, name)->Some_0.0,
        row_of(types, name)->Some_0.1,
        q.rows[name],
        far(types, name),
    ) by {
        if xs.contains(name) {
            let m = xs.index_of(name);
            let p = ps[m];
            assert(ps.contains(p));
            assert(ps.index_of(p) == m);
            assert(meant(params, args, p) == name);
            lemma_types_inside(types, params, args, p);
            assert(row_of(now, p) is Some);
            lemma_in_sight(types, vars, params, args, p);
        } else if ps.contains(name) {
            let base = binding(vars, name)->Some_0.base as int;
            let (w, n) = row_of(types, name)->Some_0;
            lemma_unseen_kept(types, vars, b, params, args, x, y, name);
            assert(binding(vars, name)->Some_0.width == room(far(types, name), w, n));
            lemma_row_kept(x, y, base, w, n, s.rows[name], far(types, name));
        } else {
            lemma_types_inside(types, params, args, name);
            assert(row_of(now, name) is Some);
            lemma_in_sight(types, vars, params, args, name);
        }
    }
    assert forall|k: int| !owned(types, vars, k) && held(b, k) implies #[trigger] y[k] == x[k] by {
        if owned(now, inner, k) {
            let m = lemma_owned_inside(types, vars, b, params, args, k);
        }
    }
}

} // verus!
