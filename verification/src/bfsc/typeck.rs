//! BFS type checker and layout.
//!
//! First the top-level declarations get their cells. Then the function
//! signatures are checked, then the function bodies, each with its parameters
//! and local variables in scope, then the top-level statements. At last
//! recursion is rejected, because calls are expanded in place.

use vstd::prelude::*;

use crate::bfsc::ast::{
    expr_view, exprs_view, fn_view, fns_view, lemma_exprs_index, lemma_stmts_index, lvalue_view,
    opt_expr_view, params_view, stmt_view, stmts_view, Ex, Fun, Lv, Sm,
};
use crate::bfsc::ast::{Expr, FnDef, LValue, Param, Program, ScalarType, Stmt, TypeAnn};
use crate::bfsc::codegen::fn_named;
use crate::bfsc::error::BfscError;
use crate::bfsc::error::Failure;
use crate::bfsc::layout::{array_cells, array_layout, scalar_cells, CellLayout};
use crate::bfsc::layout::{
    bound, index_of_name, lemma_index_of_name, lemma_span, Declared, DECL_CELLS,
};
use crate::bfsc::layout::{MemMap, MemMapBuilder};
use crate::text::dec;
use crate::text::{owned, push_dec, same_text};

verus! {

/// What a check gives, or what is wrong.
pub enum Checked<T> {
    /// What the check gives.
    Pass(T),
    /// What is wrong.
    Fault(Seq<char>),
}

/// The type of a name; a later declaration hides an earlier one.
pub open spec fn type_of(types: Seq<(Seq<char>, TypeAnn)>, name: Seq<char>) -> Option<TypeAnn>
    decreases types.len(),
{
    if types.len() == 0 {
        None
    } else if types.last().0 == name {
        Some(types.last().1)
    } else {
        type_of(types.drop_last(), name)
    }
}

/// The declarations so far.
pub struct Decls {
    /// Names and types.
    pub types: Seq<(Seq<char>, TypeAnn)>,
    /// Names and cells.
    pub vars: Seq<(Seq<char>, CellLayout)>,
    /// The first free cell.
    pub next: int,
}

/// The declarations with one more.
pub open spec fn declared(d: Decls, name: Seq<char>, ty: TypeAnn) -> Decls {
    match ty {
        TypeAnn::Scalar(st) => Decls {
            types: d.types.push((name, ty)),
            vars: d.vars.push((name, scalar_cells(d.next, st))),
            next: d.next + st.cells(),
        },
        TypeAnn::Array(st, len) => Decls {
            types: d.types.push((name, ty)),
            vars: d.vars.push((name, array_cells(d.next, st, len as int))),
            next: d.next + array_layout(st, len as int).size(len as int, st.cells()),
        },
    }
}

/// The message that a name is declared twice.
pub open spec fn duplicate_variable(name: Seq<char>) -> Seq<char> {
    "duplicate variable '"@ + name + "'"@
}

/// The message that a name is not declared.
pub open spec fn undeclared(name: Seq<char>) -> Seq<char> {
    "undeclared variable '"@ + name + "'"@
}

/// The declarations after those of a statement.
pub open spec fn decls_of(d: Decls, s: Sm) -> Checked<Decls>
    decreases s, 0int,
{
    match s {
        Sm::Let(name, ty, _) => if type_of(d.types, name) is Some {
            Checked::Fault(duplicate_variable(name))
        } else {
            Checked::Pass(declared(d, name, ty))
        },
        Sm::While(_, body) => decls_from(d, body, 0),
        Sm::If(_, then_, else_) => match decls_from(d, then_, 0) {
            Checked::Fault(m) => Checked::Fault(m),
            Checked::Pass(d) => match else_ {
                Some(block) => decls_from(d, block, 0),
                None => Checked::Pass(d),
            },
        },
        _ => Checked::Pass(d),
    }
}

/// The declarations after those of the statements from `i` on.
pub open spec fn decls_from(d: Decls, ss: Seq<Sm>, i: int) -> Checked<Decls>
    decreases ss, ss.len() - i,
{
    if i < 0 || i >= ss.len() {
        Checked::Pass(d)
    } else {
        match decls_of(d, ss[i]) {
            Checked::Fault(m) => Checked::Fault(m),
            Checked::Pass(d) => decls_from(d, ss, i + 1),
        }
    }
}

/// What is wrong with an array's name, if anything.
pub open spec fn array_fault(types: Seq<(Seq<char>, TypeAnn)>, name: Seq<char>) -> Option<
    Seq<char>,
> {
    match type_of(types, name) {
        None => Some(undeclared(name)),
        Some(TypeAnn::Scalar(_)) => Some("'"@ + name + "' is not an array"@),
        Some(TypeAnn::Array(_, _)) => None,
    }
}

/// The message that a function is not defined.
pub open spec fn undefined(name: Seq<char>) -> Seq<char> {
    "call to undefined function '"@ + name + "'"@
}

/// The beginning of a message on argument `i` of a call.
pub open spec fn on_argument(name: Seq<char>, i: int) -> Seq<char> {
    "argument "@ + dec((i + 1) as nat) + " of call to '"@ + name + "'"@
}

/// What is wrong with an argument for an array parameter, if anything.
pub open spec fn array_arg_fault(
    types: Seq<(Seq<char>, TypeAnn)>,
    name: Seq<char>,
    i: int,
    elem: ScalarType,
    len: u32,
    arg: Ex,
) -> Option<Seq<char>> {
    match arg {
        Ex::Var(arr) => match type_of(types, arr) {
            None => Some(undeclared(arr)),
            Some(TypeAnn::Scalar(_)) => Some(
                on_argument(name, i) + " must be an array, but '"@ + arr + "' is a scalar"@,
            ),
            Some(TypeAnn::Array(at, al)) => if at != elem || al != len {
                Some(
                    on_argument(name, i) + ": expected ["@ + elem.spelling() + "; "@ + dec(
                        len as nat,
                    ) + "] but got ["@ + at.spelling() + "; "@ + dec(al as nat) + "]"@,
                )
            } else {
                None
            },
        },
        _ => Some(
            on_argument(name, i)
                + " must be an array name (array parameters are passed by reference)"@,
        ),
    }
}

/// What is wrong with an expression, if anything.
pub open spec fn expr_fault(types: Seq<(Seq<char>, TypeAnn)>, fns: Seq<Fun>, e: Ex) -> Option<
    Seq<char>,
>
    decreases e, 0int,
{
    match e {
        Ex::Int(_) => None,
        Ex::Var(name) => if type_of(types, name) is Some {
            None
        } else {
            Some(undeclared(name))
        },
        Ex::Index(name, idx) => match array_fault(types, name) {
            Some(m) => Some(m),
            None => expr_fault(types, fns, *idx),
        },
        Ex::BinOp(_, l, r) => match expr_fault(types, fns, *l) {
            Some(m) => Some(m),
            None => expr_fault(types, fns, *r),
        },
        Ex::UnOp(_, inner) => expr_fault(types, fns, *inner),
        Ex::Call(name, args) => match fn_named(fns, name, fns.len() as int) {
            None => Some(undefined(name)),
            Some(k) => if fns[k].ret_ty is None {
                Some("void function '"@ + name + "' cannot be used in an expression"@)
            } else {
                call_fault(types, fns, name, args)
            },
        },
    }
}

/// What is wrong with a call, if anything.
pub open spec fn call_fault(
    types: Seq<(Seq<char>, TypeAnn)>,
    fns: Seq<Fun>,
    name: Seq<char>,
    args: Seq<Ex>,
) -> Option<Seq<char>>
    decreases args, args.len() + 1,
{
    match fn_named(fns, name, fns.len() as int) {
        None => Some(undefined(name)),
        Some(k) => {
            let params = fns[k].params;
            if params.len() != args.len() {
                Some(
                    "function '"@ + name + "' expects "@ + dec(params.len())
                        + " argument(s), got "@ + dec(args.len()),
                )
            } else {
                args_fault(types, fns, name, params, args, 0)
            }
        },
    }
}

/// What is wrong with the arguments from `i` on, if anything.
pub open spec fn args_fault(
    types: Seq<(Seq<char>, TypeAnn)>,
    fns: Seq<Fun>,
    name: Seq<char>,
    params: Seq<(Seq<char>, TypeAnn)>,
    args: Seq<Ex>,
    i: int,
) -> Option<Seq<char>>
    decreases args, args.len() - i,
{
    if i < 0 || i >= args.len() {
        None
    } else {
        let fault = match params[i].1 {
            TypeAnn::Scalar(_) => expr_fault(types, fns, args[i]),
            TypeAnn::Array(elem, len) => array_arg_fault(types, name, i, elem, len, args[i]),
        };
        match fault {
            Some(m) => Some(m),
            None => args_fault(types, fns, name, params, args, i + 1),
        }
    }
}

/// What is wrong with what is assigned to, if anything.
pub open spec fn lvalue_fault(types: Seq<(Seq<char>, TypeAnn)>, fns: Seq<Fun>, l: Lv) -> Option<
    Seq<char>,
> {
    match l {
        Lv::Var(name) => if type_of(types, name) is Some {
            None
        } else {
            Some(undeclared(name))
        },
        Lv::Index(name, idx) => match array_fault(types, name) {
            Some(m) => Some(m),
            None => expr_fault(types, fns, idx),
        },
    }
}

/// What is wrong with a return statement, if anything; `ret` is what the
/// function returns, where there is a function.
pub open spec fn return_fault(
    types: Seq<(Seq<char>, TypeAnn)>,
    fns: Seq<Fun>,
    ret: Option<Option<ScalarType>>,
    e: Option<Ex>,
) -> Option<Seq<char>> {
    match ret {
        None => Some("`return` not allowed at the top level"@),
        Some(rt) => match (rt, e) {
            (Some(_), Some(e)) => expr_fault(types, fns, e),
            (None, None) => None,
            (Some(_), None) => Some(
                "function declares a return type but `return;` has no value"@,
            ),
            (None, Some(_)) => Some("void function cannot return a value"@),
        },
    }
}

/// The first of two faults.
pub open spec fn first_fault(a: Option<Seq<char>>, b: Option<Seq<char>>) -> Option<Seq<char>> {
    match a {
        Some(m) => Some(m),
        None => b,
    }
}

/// What is wrong with a statement, if anything.
pub open spec fn stmt_fault(
    types: Seq<(Seq<char>, TypeAnn)>,
    fns: Seq<Fun>,
    ret: Option<Option<ScalarType>>,
    s: Sm,
) -> Option<Seq<char>>
    decreases s, 0int,
{
    match s {
        Sm::Let(_, _, init) => match init {
            Some(e) => expr_fault(types, fns, e),
            None => None,
        },
        Sm::Assign(lval, e) => first_fault(
            lvalue_fault(types, fns, lval),
            expr_fault(types, fns, e),
        ),
        Sm::While(cond, body) => first_fault(
            expr_fault(types, fns, cond),
            stmts_fault(types, fns, ret, body, 0),
        ),
        Sm::If(cond, then_, else_) => first_fault(
            expr_fault(types, fns, cond),
            first_fault(
                stmts_fault(types, fns, ret, then_, 0),
                match else_ {
                    Some(block) => stmts_fault(types, fns, ret, block, 0),
                    None => None,
                },
            ),
        ),
        Sm::Scan(lval) => lvalue_fault(types, fns, lval),
        Sm::Print(e) => expr_fault(types, fns, e),
        Sm::Putchar(e) => expr_fault(types, fns, e),
        Sm::Setpixel(x, y, color) => first_fault(
            expr_fault(types, fns, x),
            first_fault(expr_fault(types, fns, y), expr_fault(types, fns, color)),
        ),
        Sm::Getchar(lval) => lvalue_fault(types, fns, lval),
        Sm::Call(name, args) => call_fault(types, fns, name, args),
        Sm::Return(e) => return_fault(types, fns, ret, e),
    }
}

/// What is wrong with the statements from `i` on, if anything.
pub open spec fn stmts_fault(
    types: Seq<(Seq<char>, TypeAnn)>,
    fns: Seq<Fun>,
    ret: Option<Option<ScalarType>>,
    ss: Seq<Sm>,
    i: int,
) -> Option<Seq<char>>
    decreases ss, ss.len() - i,
{
    if i < 0 || i >= ss.len() {
        None
    } else {
        match stmt_fault(types, fns, ret, ss[i]) {
            Some(m) => Some(m),
            None => stmts_fault(types, fns, ret, ss, i + 1),
        }
    }
}

/// Whether a return statement stands in a block of the statement.
pub open spec fn nests_return(s: Sm) -> bool
    decreases s, 0int,
{
    match s {
        Sm::While(_, body) => returns_from(body, 0),
        Sm::If(_, then_, else_) => returns_from(then_, 0) || match else_ {
            Some(block) => returns_from(block, 0),
            None => false,
        },
        _ => false,
    }
}

/// Whether a return statement stands among the statements from `i` on, or in
/// their blocks.
pub open spec fn returns_from(ss: Seq<Sm>, i: int) -> bool
    decreases ss, ss.len() - i,
{
    if i < 0 || i >= ss.len() {
        false
    } else {
        ss[i] is Return || nests_return(ss[i]) || returns_from(ss, i + 1)
    }
}

/// The names and types in a function, and the names that are its own.
pub struct Locals {
    /// Names and types.
    pub types: Seq<(Seq<char>, TypeAnn)>,
    /// The function's own names.
    pub own: Seq<Seq<char>>,
}

/// The names after those that a statement declares.
pub open spec fn locals_of(l: Locals, s: Sm) -> Checked<Locals>
    decreases s, 0int,
{
    match s {
        Sm::Let(name, ty, _) => if l.own.contains(name) {
            Checked::Fault(duplicate_variable(name))
        } else {
            Checked::Pass(Locals { types: l.types.push((name, ty)), own: l.own.push(name) })
        },
        Sm::While(_, body) => locals_from(l, body, 0),
        Sm::If(_, then_, else_) => match locals_from(l, then_, 0) {
            Checked::Fault(m) => Checked::Fault(m),
            Checked::Pass(l) => match else_ {
                Some(block) => locals_from(l, block, 0),
                None => Checked::Pass(l),
            },
        },
        _ => Checked::Pass(l),
    }
}

/// The names after those that the statements from `i` on declare.
pub open spec fn locals_from(l: Locals, ss: Seq<Sm>, i: int) -> Checked<Locals>
    decreases ss, ss.len() - i,
{
    if i < 0 || i >= ss.len() {
        Checked::Pass(l)
    } else {
        match locals_of(l, ss[i]) {
            Checked::Fault(m) => Checked::Fault(m),
            Checked::Pass(l) => locals_from(l, ss, i + 1),
        }
    }
}

/// What is wrong with where the return statements of a body stand from `i` on,
/// if anything.
pub open spec fn placement_fault(name: Seq<char>, body: Seq<Sm>, i: int) -> Option<Seq<char>>
    decreases body.len() - i,
{
    if i < 0 || i >= body.len() {
        None
    } else if body[i] is Return && i + 1 != body.len() {
        Some("in function '"@ + name + "': `return` must be the last statement of the body"@)
    } else if nests_return(body[i]) {
        Some(
            "in function '"@ + name
                + "': `return` must be the last statement of the body (found inside a nested block)"@,
        )
    } else {
        placement_fault(name, body, i + 1)
    }
}

/// What is wrong with how a body ends, if anything.
pub open spec fn ending_fault(name: Seq<char>, ret: Option<ScalarType>, body: Seq<Sm>) -> Option<
    Seq<char>,
> {
    if ret is None || (body.len() > 0 && (body.last() matches Sm::Return(Some(_)))) {
        None
    } else if body.len() > 0 && (body.last() matches Sm::Return(None)) {
        Some("function '"@ + name + "' declares a return type but returns no value"@)
    } else {
        Some("function '"@ + name + "' must end with `return <expr>;`"@)
    }
}

/// The names and types in a function before its own declarations.
pub open spec fn param_locals(
    types: Seq<(Seq<char>, TypeAnn)>,
    params: Seq<(Seq<char>, TypeAnn)>,
) -> Locals {
    Locals { types: types + params, own: Seq::new(params.len(), |i: int| params[i].0) }
}

/// What is wrong with a function's body, if anything.
pub open spec fn body_fault(types: Seq<(Seq<char>, TypeAnn)>, fns: Seq<Fun>, f: Fun) -> Option<
    Seq<char>,
> {
    match placement_fault(f.name, f.body, 0) {
        Some(m) => Some(m),
        None => match locals_from(param_locals(types, f.params), f.body, 0) {
            Checked::Fault(m) => Some(m),
            Checked::Pass(l) => match stmts_fault(l.types, fns, Some(f.ret_ty), f.body, 0) {
                Some(m) => Some(m),
                None => ending_fault(f.name, f.ret_ty, f.body),
            },
        },
    }
}

/// What is wrong with the bodies of the functions from `i` on, if anything.
pub open spec fn bodies_fault(types: Seq<(Seq<char>, TypeAnn)>, fns: Seq<Fun>, i: int) -> Option<
    Seq<char>,
>
    decreases fns.len() - i,
{
    if i < 0 || i >= fns.len() {
        None
    } else {
        match body_fault(types, fns, fns[i]) {
            Some(m) => Some(m),
            None => bodies_fault(types, fns, i + 1),
        }
    }
}

/// Whether parameter `i` or a later one has the name of an earlier one; gives
/// the first such name.
pub open spec fn repeated_param(params: Seq<(Seq<char>, TypeAnn)>, i: int) -> Option<Seq<char>>
    decreases params.len() - i,
{
    if i < 0 || i >= params.len() {
        None
    } else if exists|k: int| 0 <= k < i && (#[trigger] params[k]).0 == params[i].0 {
        Some(params[i].0)
    } else {
        repeated_param(params, i + 1)
    }
}

/// What is wrong with the signatures of the functions from `i` on, if
/// anything.
pub open spec fn sigs_fault(types: Seq<(Seq<char>, TypeAnn)>, fns: Seq<Fun>, i: int) -> Option<
    Seq<char>,
>
    decreases fns.len() - i,
{
    if i < 0 || i >= fns.len() {
        None
    } else {
        let f = fns[i];
        if fn_named(fns, f.name, i) is Some {
            Some("duplicate function '"@ + f.name + "'"@)
        } else if type_of(types, f.name) is Some {
            Some("function '"@ + f.name + "' shadows a top-level variable"@)
        } else {
            match repeated_param(f.params, 0) {
                Some(p) => Some(
                    "duplicate parameter '"@ + p + "' in function '"@ + f.name + "'"@,
                ),
                None => sigs_fault(types, fns, i + 1),
            }
        }
    }
}

/// The declarations of a program, or the first thing that is wrong with it,
/// recursion left aside.
pub open spec fn checked(top: Seq<Sm>, fns: Seq<Fun>) -> Checked<Decls> {
    match decls_from(Decls { types: Seq::empty(), vars: Seq::empty(), next: 0 }, top, 0) {
        Checked::Fault(m) => Checked::Fault(m),
        Checked::Pass(d) => match sigs_fault(d.types, fns, 0) {
            Some(m) => Checked::Fault(m),
            None => match bodies_fault(d.types, fns, 0) {
                Some(m) => Checked::Fault(m),
                None => match stmts_fault(d.types, fns, None, top, 0) {
                    Some(m) => Checked::Fault(m),
                    None => Checked::Pass(d),
                },
            },
        },
    }
}

/// A list of names and types as mathematical values.
pub open spec fn types_view(types: Seq<(String, TypeAnn)>) -> Seq<(Seq<char>, TypeAnn)> {
    Seq::new(types.len(), |i: int| (types[i].0@, types[i].1))
}

/// Whether the result is what a check says.
spec fn same_fault(r: Result<(), BfscError>, fault: Option<Seq<char>>) -> bool {
    match fault {
        Some(m) => r is Err && r->Err_0@ == Failure::Type(m),
        None => r is Ok,
    }
}

fn find_type(types: &Vec<(String, TypeAnn)>, name: &str) -> (r: Option<TypeAnn>)
    ensures
        r == type_of(types_view(types@), name@),
{
    let ghost tv = types_view(types@);
    let mut n: usize = types.len();
    assert(tv.take(n as int) =~= tv);
    while n > 0
        invariant
            n <= types@.len(),
            tv == types_view(types@),
            type_of(tv, name@) == type_of(tv.take(n as int), name@),
        decreases n,
    {
        assert(tv.take(n as int).last() == (types@[n - 1].0@, types@[n - 1].1));
        if same_text(types[n - 1].0.as_str(), name) {
            return Some(types[n - 1].1);
        }
        assert(tv.take(n as int).drop_last() =~= tv.take(n - 1));
        n -= 1;
    }
    assert(tv.take(0) =~= Seq::<(Seq<char>, TypeAnn)>::empty());
    None
}

fn find_fn(fns: &Vec<FnDef>, name: &str, limit: usize) -> (r: Option<usize>)
    requires
        limit <= fns@.len(),
    ensures
        match fn_named(fns_view(fns@), name@, limit as int) {
            Some(k) => r == Some(k as usize) && 0 <= k < limit <= usize::MAX,
            None => r is None,
        },
{
    let ghost fv = fns_view(fns@);
    let mut n: usize = limit;
    while n > 0
        invariant
            n <= limit <= fns@.len(),
            fv == fns_view(fns@),
            fn_named(fv, name@, limit as int) == fn_named(fv, name@, n as int),
        decreases n,
    {
        assert(fv[n - 1] == fn_view(fns@[n - 1]));
        if same_text(fns[n - 1].name.as_str(), name) {
            return Some(n - 1);
        }
        n -= 1;
    }
    None
}

/// Three texts, one after the other.
fn joined(a: &str, b: &str, c: &str) -> (s: String)
    ensures
        s@ == a@ + b@ + c@,
{
    let mut s = String::new();
    s.append(a);
    s.append(b);
    s.append(c);
    assert(s@ =~= a@ + b@ + c@);
    s
}

/// The error that a name is not declared.
fn undeclared_error(name: &str) -> (e: BfscError)
    ensures
        e@ == Failure::Type(undeclared(name@)),
{
    BfscError::Type(joined("undeclared variable '", name, "'"))
}

/// The error that a name is declared twice.
fn duplicate_error(name: &str) -> (e: BfscError)
    ensures
        e@ == Failure::Type(duplicate_variable(name@)),
{
    BfscError::Type(joined("duplicate variable '", name, "'"))
}

/// The error that a function is not defined.
fn undefined_error(name: &str) -> (e: BfscError)
    ensures
        e@ == Failure::Type(undefined(name@)),
{
    BfscError::Type(joined("call to undefined function '", name, "'"))
}

/// The same names stand in both lists.
spec fn same_names(types: Seq<(Seq<char>, TypeAnn)>, vars: Seq<(Seq<char>, CellLayout)>) -> bool {
    &&& types.len() == vars.len()
    &&& forall|i: int| 0 <= i < types.len() ==> (#[trigger] types[i]).0 == vars[i].0
}

/// A name without a type is new.
proof fn lemma_no_type(types: Seq<(Seq<char>, TypeAnn)>, name: Seq<char>, i: int)
    requires
        type_of(types, name) is None,
        0 <= i < types.len(),
    ensures
        types[i].0 != name,
    decreases types.len(),
{
    if i < types.len() - 1 {
        lemma_no_type(types.drop_last(), name, i);
    }
}

/// A name without a type has no cells yet.
proof fn lemma_new_name(
    types: Seq<(Seq<char>, TypeAnn)>,
    vars: Seq<(Seq<char>, CellLayout)>,
    name: Seq<char>,
)
    requires
        same_names(types, vars),
        type_of(types, name) is None,
    ensures
        forall|cells: CellLayout| #[trigger]
            bound(vars, name, cells) == vars.push((name, cells)),
{
    lemma_index_of_name(vars, name, 0);
    let i = index_of_name(vars, name, 0);
    if i < vars.len() {
        lemma_no_type(types, name, i);
        assert(types[i].0 == vars[i].0);
    }
}

/// A declaration takes at most [`DECL_CELLS`] cells.
proof fn lemma_span_bound(ty: TypeAnn)
    ensures
        match ty {
            TypeAnn::Scalar(st) => st.cells() <= DECL_CELLS,
            TypeAnn::Array(st, len) => array_layout(st, len as int).size(len as int, st.cells())
                <= DECL_CELLS,
        },
{
    match ty {
        TypeAnn::Scalar(st) => {},
        TypeAnn::Array(st, len) => {
            lemma_span(Declared { name: Seq::empty(), ty: st, len: Some(len) });
        },
    }
}

/// The declarations while they are collected.
struct Collector {
    types: Vec<(String, TypeAnn)>,
    builder: MemMapBuilder,
}

impl Collector {
    spec fn decls(self) -> Decls {
        Decls {
            types: types_view(self.types@),
            vars: self.builder.bindings(),
            next: self.builder.next(),
        }
    }

    /// The same names have types and cells, and there are not too many of them.
    spec fn ok(self) -> bool {
        &&& self.builder.wf()
        &&& same_names(self.decls().types, self.decls().vars)
        &&& self.builder.next() <= DECL_CELLS * self.types@.len()
    }

    /// Collect the declarations of a statement.
    fn collect_decls(&mut self, stmt: &Stmt) -> (r: Result<(), BfscError>)
        requires
            old(self).ok(),
        ensures
            final(self).ok(),
            match decls_of(old(self).decls(), stmt_view(*stmt)) {
                Checked::Pass(d) => r is Ok && final(self).decls() == d,
                Checked::Fault(m) => r is Err && r->Err_0@ == Failure::Type(m),
            },
        decreases stmt, 0int,
    {
        match stmt {
            Stmt::Let { name, ty, init: _ } => {
                if find_type(&self.types, name.as_str()).is_some() {
                    return Err(duplicate_error(name.as_str()));
                }
                let ghost before = self.decls();
                let ghost count = self.types@.len();
                let ghost text = name@;
                assert(self.types.len() <= usize::MAX);
                proof {
                    lemma_new_name(before.types, before.vars, text);
                    assert(DECL_CELLS * count + DECL_CELLS <= u128::MAX) by (nonlinear_arith)
                        requires
                            0 <= count <= usize::MAX,
                            DECL_CELLS == 0x8_0000_0000,
                    ;
                    lemma_span_bound(*ty);
                }
                match ty {
                    TypeAnn::Scalar(st) => self.builder.alloc_scalar(owned(name.as_str()), *st),
                    TypeAnn::Array(st, len) => self.builder.alloc_array(
                        owned(name.as_str()),
                        *st,
                        *len,
                    ),
                }
                self.types.push((owned(name.as_str()), *ty));
                assert(types_view(self.types@) =~= before.types.push((name@, *ty)));
                proof {
                    assert(DECL_CELLS * (count + 1) == DECL_CELLS * count + DECL_CELLS)
                        by (nonlinear_arith);
                    assert(self.decls() == declared(before, text, *ty));
                    assert(same_names(self.decls().types, self.decls().vars));
                }
                Ok(())
            },
            Stmt::While { cond: _, body } => self.collect_block(body),
            Stmt::If { cond: _, then_, else_ } => {
                match self.collect_block(then_) {
                    Ok(()) => {},
                    Err(e) => {
                        return Err(e);
                    },
                }
                match else_ {
                    Some(block) => self.collect_block(block),
                    None => Ok(()),
                }
            },
            _ => Ok(()),
        }
    }

    /// Collect the declarations of a list of statements.
    fn collect_block(&mut self, stmts: &Vec<Stmt>) -> (r: Result<(), BfscError>)
        requires
            old(self).ok(),
        ensures
            final(self).ok(),
            match decls_from(old(self).decls(), stmts_view(stmts@), 0) {
                Checked::Pass(d) => r is Ok && final(self).decls() == d,
                Checked::Fault(m) => r is Err && r->Err_0@ == Failure::Type(m),
            },
        decreases stmts, stmts@.len(),
    {
        let ghost sv = stmts_view(stmts@);
        let ghost goal = decls_from(self.decls(), sv, 0);
        proof {
            lemma_stmts_index(stmts@);
        }
        let mut i: usize = 0;
        while i < stmts.len()
            invariant
                self.ok(),
                i <= stmts@.len(),
                sv == stmts_view(stmts@),
                sv.len() == stmts@.len(),
                forall|k: int| 0 <= k < stmts@.len() ==> #[trigger] sv[k] == stmt_view(stmts@[k]),
                goal == decls_from(old(self).decls(), sv, 0),
                goal == decls_from(self.decls(), sv, i as int),
            decreases stmts@.len() - i,
        {
            assert(sv[i as int] == stmt_view(stmts@[i as int]));
            match self.collect_decls(&stmts[i]) {
                Ok(()) => {},
                Err(e) => {
                    return Err(e);
                },
            }
            i += 1;
        }
        Ok(())
    }
}

/// What expressions and statements are checked against.
struct Checker<'a> {
    types: &'a Vec<(String, TypeAnn)>,
    fns: &'a Vec<FnDef>,
}

impl<'a> Checker<'a> {
    spec fn tv(self) -> Seq<(Seq<char>, TypeAnn)> {
        types_view(self.types@)
    }

    spec fn fv(self) -> Seq<Fun> {
        fns_view(self.fns@)
    }

    fn check_name(&self, name: &str) -> (r: Result<(), BfscError>)
        ensures
            same_fault(
                r,
                if type_of(self.tv(), name@) is Some {
                    None
                } else {
                    Some(undeclared(name@))
                },
            ),
    {
        if find_type(self.types, name).is_some() {
            Ok(())
        } else {
            Err(undeclared_error(name))
        }
    }

    fn check_array(&self, name: &str) -> (r: Result<(), BfscError>)
        ensures
            same_fault(r, array_fault(self.tv(), name@)),
    {
        match find_type(self.types, name) {
            None => Err(undeclared_error(name)),
            Some(TypeAnn::Scalar(_)) => Err(
                BfscError::Type(joined("'", name, "' is not an array")),
            ),
            Some(TypeAnn::Array(_, _)) => Ok(()),
        }
    }

    fn check_expr(&self, expr: &Expr) -> (r: Result<(), BfscError>)
        ensures
            same_fault(r, expr_fault(self.tv(), self.fv(), expr_view(*expr))),
        decreases expr, 0int,
    {
        match expr {
            Expr::Int(_) => Ok(()),
            Expr::Var(name) => self.check_name(name.as_str()),
            Expr::Index(name, idx) => {
                match self.check_array(name.as_str()) {
                    Ok(()) => self.check_expr(idx),
                    Err(e) => Err(e),
                }
            },
            Expr::BinOp(_, l, r) => {
                match self.check_expr(l) {
                    Ok(()) => self.check_expr(r),
                    Err(e) => Err(e),
                }
            },
            Expr::UnOp(_, inner) => self.check_expr(inner),
            Expr::Call(name, args) => {
                match find_fn(self.fns, name.as_str(), self.fns.len()) {
                    None => Err(undefined_error(name.as_str())),
                    Some(k) => {
                        assert(self.fv()[k as int] == fn_view(self.fns@[k as int]));
                        if self.fns[k].ret_ty.is_none() {
                            Err(
                                BfscError::Type(
                                    joined(
                                        "void function '",
                                        name.as_str(),
                                        "' cannot be used in an expression",
                                    ),
                                ),
                            )
                        } else {
                            self.check_call(name.as_str(), args)
                        }
                    },
                }
            },
        }
    }

    /// Check an argument for an array parameter.
    fn check_array_arg(
        &self,
        name: &str,
        i: usize,
        elem: ScalarType,
        len: u32,
        arg: &Expr,
    ) -> (r: Result<(), BfscError>)
        requires
            i < usize::MAX,
        ensures
            same_fault(
                r,
                array_arg_fault(self.tv(), name@, i as int, elem, len, expr_view(*arg)),
            ),
    {
        let mut m = String::new();
        m.append("argument ");
        push_dec(&mut m, (i + 1) as u64);
        m.append(" of call to '");
        m.append(name);
        m.append("'");
        assert(m@ =~= on_argument(name@, i as int));
        let ghost start = m@;
        match arg {
            Expr::Var(arr) => {
                match find_type(self.types, arr.as_str()) {
                    None => Err(undeclared_error(arr.as_str())),
                    Some(TypeAnn::Scalar(_)) => {
                        m.append(" must be an array, but '");
                        m.append(arr.as_str());
                        m.append("' is a scalar");
                        assert(m@ =~= start + " must be an array, but '"@ + arr@
                            + "' is a scalar"@);
                        Err(BfscError::Type(m))
                    },
                    Some(TypeAnn::Array(at, al)) => {
                        if at != elem || al != len {
                            m.append(": expected [");
                            m.append(elem.name());
                            m.append("; ");
                            push_dec(&mut m, len as u64);
                            m.append("] but got [");
                            m.append(at.name());
                            m.append("; ");
                            push_dec(&mut m, al as u64);
                            m.append("]");
                            assert(m@ =~= start + ": expected ["@ + elem.spelling() + "; "@ + dec(
                                len as nat,
                            ) + "] but got ["@ + at.spelling() + "; "@ + dec(al as nat) + "]"@);
                            Err(BfscError::Type(m))
                        } else {
                            Ok(())
                        }
                    },
                }
            },
            _ => {
                m.append(" must be an array name (array parameters are passed by reference)");
                Err(BfscError::Type(m))
            },
        }
    }

    fn check_call(&self, name: &str, args: &Vec<Expr>) -> (r: Result<(), BfscError>)
        ensures
            same_fault(r, call_fault(self.tv(), self.fv(), name@, exprs_view(args@))),
        decreases args, args@.len() + 1,
    {
        let k = match find_fn(self.fns, name, self.fns.len()) {
            None => {
                return Err(undefined_error(name));
            },
            Some(k) => k,
        };
        let ghost av = exprs_view(args@);
        proof {
            lemma_exprs_index(args@);
        }
        let params = &self.fns[k].params;
        let ghost pv = params_view(params@);
        assert(self.fv()[k as int] == fn_view(self.fns@[k as int]));
        if params.len() != args.len() {
            let mut m = String::new();
            m.append("function '");
            m.append(name);
            m.append("' expects ");
            push_dec(&mut m, params.len() as u64);
            m.append(" argument(s), got ");
            push_dec(&mut m, args.len() as u64);
            assert(m@ =~= "function '"@ + name@ + "' expects "@ + dec(pv.len())
                + " argument(s), got "@ + dec(av.len()));
            return Err(BfscError::Type(m));
        }
        let ghost goal = args_fault(self.tv(), self.fv(), name@, pv, av, 0);
        let mut i: usize = 0;
        while i < args.len()
            invariant
                i <= args@.len(),
                params@.len() == args@.len(),
                pv == params_view(params@),
                av == exprs_view(args@),
                av.len() == args@.len(),
                forall|j: int| 0 <= j < args@.len() ==> #[trigger] av[j] == expr_view(args@[j]),
                goal == args_fault(self.tv(), self.fv(), name@, pv, av, i as int),
                goal == call_fault(self.tv(), self.fv(), name@, av),
            decreases args@.len() - i,
        {
            assert(pv[i as int].1 == params@[i as int].ty);
            assert(av[i as int] == expr_view(args@[i as int]));
            let checked = match params[i].ty {
                TypeAnn::Scalar(_) => self.check_expr(&args[i]),
                TypeAnn::Array(elem, len) => self.check_array_arg(name, i, elem, len, &args[i]),
            };
            match checked {
                Ok(()) => {},
                Err(e) => {
                    return Err(e);
                },
            }
            i += 1;
        }
        Ok(())
    }

    fn check_lval(&self, lval: &LValue) -> (r: Result<(), BfscError>)
        ensures
            same_fault(r, lvalue_fault(self.tv(), self.fv(), lvalue_view(*lval))),
    {
        match lval {
            LValue::Var(name) => self.check_name(name.as_str()),
            LValue::Index(name, idx) => {
                match self.check_array(name.as_str()) {
                    Ok(()) => self.check_expr(idx),
                    Err(e) => Err(e),
                }
            },
        }
    }

    fn check_return(&self, ret: Option<Option<ScalarType>>, expr: &Option<Expr>) -> (r: Result<
        (),
        BfscError,
    >)
        ensures
            same_fault(r, return_fault(self.tv(), self.fv(), ret, opt_expr_view(*expr))),
    {
        match ret {
            None => Err(BfscError::Type(owned("`return` not allowed at the top level"))),
            Some(rt) => match (rt, expr) {
                (Some(_), Some(e)) => self.check_expr(e),
                (None, None) => Ok(()),
                (Some(_), None) => Err(
                    BfscError::Type(
                        owned("function declares a return type but `return;` has no value"),
                    ),
                ),
                (None, Some(_)) => Err(
                    BfscError::Type(owned("void function cannot return a value")),
                ),
            },
        }
    }

    /// Check a statement; `ret` is what the function returns, where there is a
    /// function.
    fn check_stmt(&self, stmt: &Stmt, ret: Option<Option<ScalarType>>) -> (r: Result<(), BfscError>)
        ensures
            same_fault(r, stmt_fault(self.tv(), self.fv(), ret, stmt_view(*stmt))),
        decreases stmt, 0int,
    {
        match stmt {
            Stmt::Let { name: _, ty: _, init } => {
                match init {
                    Some(e) => self.check_expr(e),
                    None => Ok(()),
                }
            },
            Stmt::Assign { lval, expr } => {
                match self.check_lval(lval) {
                    Ok(()) => self.check_expr(expr),
                    Err(e) => Err(e),
                }
            },
            Stmt::While { cond, body } => {
                match self.check_expr(cond) {
                    Ok(()) => self.check_block(body, ret),
                    Err(e) => Err(e),
                }
            },
            Stmt::If { cond, then_, else_ } => {
                match self.check_expr(cond) {
                    Ok(()) => {},
                    Err(e) => {
                        return Err(e);
                    },
                }
                match self.check_block(then_, ret) {
                    Ok(()) => {},
                    Err(e) => {
                        return Err(e);
                    },
                }
                match else_ {
                    Some(block) => self.check_block(block, ret),
                    None => Ok(()),
                }
            },
            Stmt::Scan(lval) => self.check_lval(lval),
            Stmt::Print(expr) => self.check_expr(expr),
            Stmt::Putchar(expr) => self.check_expr(expr),
            Stmt::Setpixel { x, y, color } => {
                match self.check_expr(x) {
                    Ok(()) => {},
                    Err(e) => {
                        return Err(e);
                    },
                }
                match self.check_expr(y) {
                    Ok(()) => self.check_expr(color),
                    Err(e) => Err(e),
                }
            },
            Stmt::Getchar(lval) => self.check_lval(lval),
            Stmt::Call(name, args) => self.check_call(name.as_str(), args),
            Stmt::Return(expr) => self.check_return(ret, expr),
        }
    }

    /// Check a list of statements.
    fn check_block(&self, stmts: &Vec<Stmt>, ret: Option<Option<ScalarType>>) -> (r: Result<
        (),
        BfscError,
    >)
        ensures
            same_fault(r, stmts_fault(self.tv(), self.fv(), ret, stmts_view(stmts@), 0)),
        decreases stmts, stmts@.len(),
    {
        let ghost sv = stmts_view(stmts@);
        let ghost goal = stmts_fault(self.tv(), self.fv(), ret, sv, 0);
        proof {
            lemma_stmts_index(stmts@);
        }
        let mut i: usize = 0;
        while i < stmts.len()
            invariant
                i <= stmts@.len(),
                sv == stmts_view(stmts@),
                sv.len() == stmts@.len(),
                forall|k: int| 0 <= k < stmts@.len() ==> #[trigger] sv[k] == stmt_view(stmts@[k]),
                goal == stmts_fault(self.tv(), self.fv(), ret, sv, 0),
                goal == stmts_fault(self.tv(), self.fv(), ret, sv, i as int),
            decreases stmts@.len() - i,
        {
            assert(sv[i as int] == stmt_view(stmts@[i as int]));
            match self.check_stmt(&stmts[i], ret) {
                Ok(()) => {},
                Err(e) => {
                    return Err(e);
                },
            }
            i += 1;
        }
        Ok(())
    }
}

/// Whether a return statement stands in a block of the statement.
fn has_nested_return(stmt: &Stmt) -> (b: bool)
    ensures
        b == nests_return(stmt_view(*stmt)),
    decreases stmt, 0int,
{
    match stmt {
        Stmt::While { cond: _, body } => has_return(body),
        Stmt::If { cond: _, then_, else_ } => {
            if has_return(then_) {
                return true;
            }
            match else_ {
                Some(block) => has_return(block),
                None => false,
            }
        },
        _ => false,
    }
}

/// Whether a return statement stands among the statements or in their blocks.
fn has_return(stmts: &Vec<Stmt>) -> (b: bool)
    ensures
        b == returns_from(stmts_view(stmts@), 0),
    decreases stmts, stmts@.len(),
{
    let ghost sv = stmts_view(stmts@);
    proof {
        lemma_stmts_index(stmts@);
    }
    let mut i: usize = 0;
    while i < stmts.len()
        invariant
            i <= stmts@.len(),
            sv == stmts_view(stmts@),
            sv.len() == stmts@.len(),
            forall|k: int| 0 <= k < stmts@.len() ==> #[trigger] sv[k] == stmt_view(stmts@[k]),
            returns_from(sv, 0) == returns_from(sv, i as int),
        decreases stmts@.len() - i,
    {
        assert(sv[i as int] == stmt_view(stmts@[i as int]));
        let found = match &stmts[i] {
            Stmt::Return(_) => true,
            other => has_nested_return(other),
        };
        if found {
            return true;
        }
        i += 1;
    }
    false
}

/// The names in a function while its declarations are collected.
struct Scope {
    types: Vec<(String, TypeAnn)>,
    own: Vec<String>,
}

spec fn names_view(names: Seq<String>) -> Seq<Seq<char>> {
    Seq::new(names.len(), |i: int| names[i]@)
}

impl Scope {
    spec fn locals(self) -> Locals {
        Locals { types: types_view(self.types@), own: names_view(self.own@) }
    }

    fn owns(&self, name: &str) -> (b: bool)
        ensures
            b == self.locals().own.contains(name@),
    {
        let ghost own = names_view(self.own@);
        let mut i: usize = 0;
        while i < self.own.len()
            invariant
                i <= self.own@.len(),
                own == names_view(self.own@),
                forall|k: int| 0 <= k < i ==> #[trigger] own[k] != name@,
            decreases self.own@.len() - i,
        {
            assert(own[i as int] == self.own@[i as int]@);
            if same_text(self.own[i].as_str(), name) {
                return true;
            }
            i += 1;
        }
        false
    }

    /// Collect the declarations of a statement.
    fn collect_fn_locals(&mut self, stmt: &Stmt) -> (r: Result<(), BfscError>)
        ensures
            match locals_of(old(self).locals(), stmt_view(*stmt)) {
                Checked::Pass(l) => r is Ok && final(self).locals() == l,
                Checked::Fault(m) => r is Err && r->Err_0@ == Failure::Type(m),
            },
        decreases stmt, 0int,
    {
        match stmt {
            Stmt::Let { name, ty, init: _ } => {
                if self.owns(name.as_str()) {
                    return Err(duplicate_error(name.as_str()));
                }
                let ghost before = self.locals();
                self.types.push((owned(name.as_str()), *ty));
                self.own.push(owned(name.as_str()));
                assert(types_view(self.types@) =~= before.types.push((name@, *ty)));
                assert(names_view(self.own@) =~= before.own.push(name@));
                Ok(())
            },
            Stmt::While { cond: _, body } => self.collect_block(body),
            Stmt::If { cond: _, then_, else_ } => {
                match self.collect_block(then_) {
                    Ok(()) => {},
                    Err(e) => {
                        return Err(e);
                    },
                }
                match else_ {
                    Some(block) => self.collect_block(block),
                    None => Ok(()),
                }
            },
            _ => Ok(()),
        }
    }

    /// Collect the declarations of a list of statements.
    fn collect_block(&mut self, stmts: &Vec<Stmt>) -> (r: Result<(), BfscError>)
        ensures
            match locals_from(old(self).locals(), stmts_view(stmts@), 0) {
                Checked::Pass(l) => r is Ok && final(self).locals() == l,
                Checked::Fault(m) => r is Err && r->Err_0@ == Failure::Type(m),
            },
        decreases stmts, stmts@.len(),
    {
        let ghost sv = stmts_view(stmts@);
        let ghost goal = locals_from(self.locals(), sv, 0);
        proof {
            lemma_stmts_index(stmts@);
        }
        let mut i: usize = 0;
        while i < stmts.len()
            invariant
                i <= stmts@.len(),
                sv == stmts_view(stmts@),
                sv.len() == stmts@.len(),
                forall|k: int| 0 <= k < stmts@.len() ==> #[trigger] sv[k] == stmt_view(stmts@[k]),
                goal == locals_from(old(self).locals(), sv, 0),
                goal == locals_from(self.locals(), sv, i as int),
            decreases stmts@.len() - i,
        {
            assert(sv[i as int] == stmt_view(stmts@[i as int]));
            match self.collect_fn_locals(&stmts[i]) {
                Ok(()) => {},
                Err(e) => {
                    return Err(e);
                },
            }
            i += 1;
        }
        Ok(())
    }
}

/// Check where the return statements of a body stand.
fn check_placement(name: &str, body: &Vec<Stmt>) -> (r: Result<(), BfscError>)
    ensures
        same_fault(r, placement_fault(name@, stmts_view(body@), 0)),
{
    let ghost sv = stmts_view(body@);
    let ghost goal = placement_fault(name@, sv, 0);
    proof {
        lemma_stmts_index(body@);
    }
    let mut i: usize = 0;
    while i < body.len()
        invariant
            i <= body@.len(),
            sv == stmts_view(body@),
            sv.len() == body@.len(),
            forall|k: int| 0 <= k < body@.len() ==> #[trigger] sv[k] == stmt_view(body@[k]),
            goal == placement_fault(name@, sv, 0),
            goal == placement_fault(name@, sv, i as int),
        decreases body@.len() - i,
    {
        assert(sv[i as int] == stmt_view(body@[i as int]));
        let is_return = match &body[i] {
            Stmt::Return(_) => true,
            _ => false,
        };
        if is_return && i + 1 != body.len() {
            return Err(
                BfscError::Type(
                    joined(
                        "in function '",
                        name,
                        "': `return` must be the last statement of the body",
                    ),
                ),
            );
        }
        if has_nested_return(&body[i]) {
            return Err(
                BfscError::Type(
                    joined(
                        "in function '",
                        name,
                        "': `return` must be the last statement of the body (found inside a nested block)",
                    ),
                ),
            );
        }
        i += 1;
    }
    Ok(())
}

/// Check how a body ends.
fn check_ending(name: &str, ret: Option<ScalarType>, body: &Vec<Stmt>) -> (r: Result<(), BfscError>)
    ensures
        same_fault(r, ending_fault(name@, ret, stmts_view(body@))),
{
    proof {
        lemma_stmts_index(body@);
    }
    if ret.is_none() {
        return Ok(());
    }
    if body.len() > 0 {
        assert(stmts_view(body@).last() == stmt_view(body@[body@.len() - 1]));
        match &body[body.len() - 1] {
            Stmt::Return(Some(_)) => {
                return Ok(());
            },
            Stmt::Return(None) => {
                return Err(
                    BfscError::Type(
                        joined(
                            "function '",
                            name,
                            "' declares a return type but returns no value",
                        ),
                    ),
                );
            },
            _ => {},
        }
    }
    Err(BfscError::Type(joined("function '", name, "' must end with `return <expr>;`")))
}

/// Check a function's body.
fn check_fn_body(types: &Vec<(String, TypeAnn)>, fns: &Vec<FnDef>, k: usize) -> (r: Result<
    (),
    BfscError,
>)
    requires
        k < fns@.len(),
    ensures
        same_fault(r, body_fault(types_view(types@), fns_view(fns@), fns_view(fns@)[k as int])),
{
    let f = &fns[k];
    match check_placement(f.name.as_str(), &f.body) {
        Ok(()) => {},
        Err(e) => {
            return Err(e);
        },
    }
    let mut scope = Scope { types: Vec::new(), own: Vec::new() };
    let ghost tv = types_view(types@);
    let ghost pv = params_view(f.params@);
    let mut i: usize = 0;
    while i < types.len()
        invariant
            i <= types@.len(),
            tv == types_view(types@),
            types_view(scope.types@) == tv.take(i as int),
            scope.own@.len() == 0,
        decreases types@.len() - i,
    {
        let ghost before = types_view(scope.types@);
        scope.types.push((owned(types[i].0.as_str()), types[i].1));
        assert(types_view(scope.types@) =~= before.push(tv[i as int]));
        i += 1;
        assert(types_view(scope.types@) =~= tv.take(i as int));
    }
    assert(tv.take(tv.len() as int) =~= tv);
    let mut i: usize = 0;
    assert(types_view(scope.types@) =~= tv + pv.take(0));
    while i < f.params.len()
        invariant
            i <= f.params@.len(),
            pv == params_view(f.params@),
            types_view(scope.types@) == tv + pv.take(i as int),
            scope.own@.len() == i,
            forall|j: int| 0 <= j < i ==> (#[trigger] scope.own@[j])@ == pv[j].0,
        decreases f.params@.len() - i,
    {
        let p = &f.params[i];
        let ghost before = types_view(scope.types@);
        scope.types.push((owned(p.name.as_str()), p.ty));
        assert(types_view(scope.types@) =~= before.push(pv[i as int]));
        scope.own.push(owned(p.name.as_str()));
        i += 1;
        assert(types_view(scope.types@) =~= tv + pv.take(i as int));
    }
    assert(scope.locals() == param_locals(tv, pv)) by {
        assert(pv.take(pv.len() as int) =~= pv);
        assert(names_view(scope.own@) =~= param_locals(tv, pv).own);
    }
    match scope.collect_block(&f.body) {
        Ok(()) => {},
        Err(e) => {
            return Err(e);
        },
    }
    let checker = Checker { types: &scope.types, fns };
    match checker.check_block(&f.body, Some(f.ret_ty)) {
        Ok(()) => {},
        Err(e) => {
            return Err(e);
        },
    }
    check_ending(f.name.as_str(), f.ret_ty, &f.body)
}

/// The name of the first parameter that has the name of an earlier one.
fn find_repeated_param(params: &Vec<Param>) -> (r: Option<String>)
    ensures
        match repeated_param(params_view(params@), 0) {
            Some(p) => r is Some && r->Some_0@ == p,
            None => r is None,
        },
{
    let ghost pv = params_view(params@);
    let mut i: usize = 0;
    while i < params.len()
        invariant
            i <= params@.len(),
            pv == params_view(params@),
            repeated_param(pv, 0) == repeated_param(pv, i as int),
        decreases params@.len() - i,
    {
        let mut k: usize = 0;
        while k < i
            invariant
                k <= i < params@.len(),
                pv == params_view(params@),
                repeated_param(pv, 0) == repeated_param(pv, i as int),
                forall|j: int| 0 <= j < k ==> (#[trigger] pv[j]).0 != pv[i as int].0,
            decreases i - k,
        {
            assert(pv[k as int].0 == params@[k as int].name@);
            if same_text(params[k].name.as_str(), params[i].name.as_str()) {
                return Some(owned(params[i].name.as_str()));
            }
            k += 1;
        }
        i += 1;
    }
    None
}

/// Check the signatures of the functions.
fn check_sigs(types: &Vec<(String, TypeAnn)>, fns: &Vec<FnDef>) -> (r: Result<(), BfscError>)
    ensures
        same_fault(r, sigs_fault(types_view(types@), fns_view(fns@), 0)),
{
    let ghost tv = types_view(types@);
    let ghost fv = fns_view(fns@);
    let mut i: usize = 0;
    while i < fns.len()
        invariant
            i <= fns@.len(),
            tv == types_view(types@),
            fv == fns_view(fns@),
            sigs_fault(tv, fv, 0) == sigs_fault(tv, fv, i as int),
        decreases fns@.len() - i,
    {
        let f = &fns[i];
        assert(fv[i as int] == fn_view(fns@[i as int]));
        if find_fn(fns, f.name.as_str(), i).is_some() {
            return Err(BfscError::Type(joined("duplicate function '", f.name.as_str(), "'")));
        }
        if find_type(types, f.name.as_str()).is_some() {
            return Err(
                BfscError::Type(
                    joined("function '", f.name.as_str(), "' shadows a top-level variable"),
                ),
            );
        }
        match find_repeated_param(&f.params) {
            Some(p) => {
                let mut m = String::new();
                m.append("duplicate parameter '");
                m.append(p.as_str());
                m.append("' in function '");
                m.append(f.name.as_str());
                m.append("'");
                assert(m@ =~= "duplicate parameter '"@ + p@ + "' in function '"@ + f.name@ + "'"@);
                return Err(BfscError::Type(m));
            },
            None => {},
        }
        i += 1;
    }
    Ok(())
}

/// Check the bodies of the functions.
fn check_bodies(types: &Vec<(String, TypeAnn)>, fns: &Vec<FnDef>) -> (r: Result<(), BfscError>)
    ensures
        same_fault(r, bodies_fault(types_view(types@), fns_view(fns@), 0)),
{
    let ghost tv = types_view(types@);
    let ghost fv = fns_view(fns@);
    let mut i: usize = 0;
    while i < fns.len()
        invariant
            i <= fns@.len(),
            tv == types_view(types@),
            fv == fns_view(fns@),
            bodies_fault(tv, fv, 0) == bodies_fault(tv, fv, i as int),
        decreases fns@.len() - i,
    {
        match check_fn_body(types, fns, i) {
            Ok(()) => {},
            Err(e) => {
                return Err(e);
            },
        }
        i += 1;
    }
    Ok(())
}

/// The functions that an expression calls, by name.
pub open spec fn calls_in_expr(e: Ex) -> Seq<Seq<char>>
    decreases e, 0int,
{
    match e {
        Ex::Int(_) => Seq::empty(),
        Ex::Var(_) => Seq::empty(),
        Ex::Index(_, idx) => calls_in_expr(*idx),
        Ex::BinOp(_, l, r) => calls_in_expr(*l) + calls_in_expr(*r),
        Ex::UnOp(_, inner) => calls_in_expr(*inner),
        Ex::Call(name, args) => seq![name] + calls_in_exprs(args, 0),
    }
}

/// The functions that the expressions from `i` on call, by name.
pub open spec fn calls_in_exprs(es: Seq<Ex>, i: int) -> Seq<Seq<char>>
    decreases es, es.len() - i,
{
    if i < 0 || i >= es.len() {
        Seq::empty()
    } else {
        calls_in_expr(es[i]) + calls_in_exprs(es, i + 1)
    }
}

/// The functions that are called to find what is assigned to, by name.
pub open spec fn calls_in_lvalue(l: Lv) -> Seq<Seq<char>> {
    match l {
        Lv::Var(_) => Seq::empty(),
        Lv::Index(_, idx) => calls_in_expr(idx),
    }
}

/// The functions that a statement calls, by name.
pub open spec fn calls_in_stmt(s: Sm) -> Seq<Seq<char>>
    decreases s, 0int,
{
    match s {
        Sm::Let(_, _, init) => match init {
            Some(e) => calls_in_expr(e),
            None => Seq::empty(),
        },
        Sm::Assign(lval, e) => calls_in_lvalue(lval) + calls_in_expr(e),
        Sm::While(cond, body) => calls_in_expr(cond) + calls_in_stmts(body, 0),
        Sm::If(cond, then_, else_) => calls_in_expr(cond) + calls_in_stmts(then_, 0) + match else_ {
            Some(block) => calls_in_stmts(block, 0),
            None => Seq::empty(),
        },
        Sm::Scan(lval) => calls_in_lvalue(lval),
        Sm::Print(e) => calls_in_expr(e),
        Sm::Putchar(e) => calls_in_expr(e),
        Sm::Setpixel(x, y, color) => calls_in_expr(x) + calls_in_expr(y) + calls_in_expr(color),
        Sm::Getchar(lval) => calls_in_lvalue(lval),
        Sm::Call(name, args) => seq![name] + calls_in_exprs(args, 0),
        Sm::Return(e) => match e {
            Some(e) => calls_in_expr(e),
            None => Seq::empty(),
        },
    }
}

/// The functions that the statements from `i` on call, by name.
pub open spec fn calls_in_stmts(ss: Seq<Sm>, i: int) -> Seq<Seq<char>>
    decreases ss, ss.len() - i,
{
    if i < 0 || i >= ss.len() {
        Seq::empty()
    } else {
        calls_in_stmt(ss[i]) + calls_in_stmts(ss, i + 1)
    }
}

/// Function `a` calls function `b`.
pub open spec fn calls(fns: Seq<Fun>, a: int, b: int) -> bool {
    0 <= a < fns.len() && exists|k: int|
        0 <= k < calls_in_stmts(fns[a].body, 0).len() && fn_named(
            fns,
            #[trigger] calls_in_stmts(fns[a].body, 0)[k],
            fns.len() as int,
        ) == Some(b)
}

/// Each function of the list calls the next one.
pub open spec fn call_chain(fns: Seq<Fun>, chain: Seq<int>) -> bool {
    forall|k: int| 0 <= k < chain.len() - 1 ==> calls(fns, #[trigger] chain[k], chain[k + 1])
}

/// A function calls itself, directly or through others.
pub open spec fn recursive(fns: Seq<Fun>, f: int) -> bool {
    exists|chain: Seq<int>|
        #![trigger call_chain(fns, chain)]
        chain.len() >= 2 && chain.first() == f && chain.last() == f && call_chain(fns, chain)
}

/// The message that a function calls itself.
pub open spec fn recursion_message(name: Seq<char>) -> Seq<char> {
    "recursive call detected involving '"@ + name + "' — not supported"@
}

fn collect_calls_in_expr(expr: &Expr, out: &mut Vec<String>)
    ensures
        names_view(final(out)@) == names_view(old(out)@) + calls_in_expr(expr_view(*expr)),
    decreases expr, 0int,
{
    let ghost before = names_view(out@);
    match expr {
        Expr::Int(_) => {},
        Expr::Var(_) => {},
        Expr::Index(_, idx) => collect_calls_in_expr(idx, out),
        Expr::BinOp(_, l, r) => {
            collect_calls_in_expr(l, out);
            collect_calls_in_expr(r, out);
        },
        Expr::UnOp(_, inner) => collect_calls_in_expr(inner, out),
        Expr::Call(name, args) => {
            out.push(owned(name.as_str()));
            assert(names_view(out@) =~= before + seq![name@]);
            collect_calls_in_exprs(args, out);
        },
    }
    assert(names_view(out@) =~= before + calls_in_expr(expr_view(*expr)));
}

fn collect_calls_in_exprs(exprs: &Vec<Expr>, out: &mut Vec<String>)
    ensures
        names_view(final(out)@) == names_view(old(out)@) + calls_in_exprs(exprs_view(exprs@), 0),
    decreases exprs, exprs@.len(),
{
    let ghost ev = exprs_view(exprs@);
    let ghost goal = names_view(out@) + calls_in_exprs(ev, 0);
    proof {
        lemma_exprs_index(exprs@);
    }
    let mut i: usize = 0;
    while i < exprs.len()
        invariant
            i <= exprs@.len(),
            ev == exprs_view(exprs@),
            ev.len() == exprs@.len(),
            forall|k: int| 0 <= k < exprs@.len() ==> #[trigger] ev[k] == expr_view(exprs@[k]),
            goal == names_view(out@) + calls_in_exprs(ev, i as int),
        decreases exprs@.len() - i,
    {
        assert(ev[i as int] == expr_view(exprs@[i as int]));
        let ghost before = names_view(out@);
        collect_calls_in_expr(&exprs[i], out);
        i += 1;
        assert(names_view(out@) + calls_in_exprs(ev, i as int) =~= before + (calls_in_expr(
            ev[i - 1],
        ) + calls_in_exprs(ev, i as int)));
    }
    assert(goal =~= names_view(out@));
}

fn collect_calls_in_lvalue(lval: &LValue, out: &mut Vec<String>)
    ensures
        names_view(final(out)@) == names_view(old(out)@) + calls_in_lvalue(lvalue_view(*lval)),
{
    match lval {
        LValue::Var(_) => {},
        LValue::Index(_, idx) => collect_calls_in_expr(idx, out),
    }
    assert(names_view(out@) =~= names_view(old(out)@) + calls_in_lvalue(lvalue_view(*lval)));
}

fn collect_calls_in_stmt(stmt: &Stmt, out: &mut Vec<String>)
    ensures
        names_view(final(out)@) == names_view(old(out)@) + calls_in_stmt(stmt_view(*stmt)),
    decreases stmt, 0int,
{
    let ghost before = names_view(out@);
    match stmt {
        Stmt::Let { name: _, ty: _, init } => {
            match init {
                Some(e) => collect_calls_in_expr(e, out),
                None => {},
            }
        },
        Stmt::Assign { lval, expr } => {
            collect_calls_in_lvalue(lval, out);
            collect_calls_in_expr(expr, out);
        },
        Stmt::While { cond, body } => {
            collect_calls_in_expr(cond, out);
            collect_calls_in_body(body, out);
        },
        Stmt::If { cond, then_, else_ } => {
            collect_calls_in_expr(cond, out);
            collect_calls_in_body(then_, out);
            match else_ {
                Some(block) => collect_calls_in_body(block, out),
                None => {},
            }
        },
        Stmt::Scan(lval) => collect_calls_in_lvalue(lval, out),
        Stmt::Print(e) => collect_calls_in_expr(e, out),
        Stmt::Putchar(e) => collect_calls_in_expr(e, out),
        Stmt::Setpixel { x, y, color } => {
            collect_calls_in_expr(x, out);
            collect_calls_in_expr(y, out);
            collect_calls_in_expr(color, out);
        },
        Stmt::Getchar(lval) => collect_calls_in_lvalue(lval, out),
        Stmt::Call(name, args) => {
            out.push(owned(name.as_str()));
            assert(names_view(out@) =~= before + seq![name@]);
            collect_calls_in_exprs(args, out);
        },
        Stmt::Return(e) => {
            match e {
                Some(e) => collect_calls_in_expr(e, out),
                None => {},
            }
        },
    }
    assert(names_view(out@) =~= before + calls_in_stmt(stmt_view(*stmt)));
}

fn collect_calls_in_body(stmts: &Vec<Stmt>, out: &mut Vec<String>)
    ensures
        names_view(final(out)@) == names_view(old(out)@) + calls_in_stmts(stmts_view(stmts@), 0),
    decreases stmts, stmts@.len(),
{
    let ghost sv = stmts_view(stmts@);
    let ghost goal = names_view(out@) + calls_in_stmts(sv, 0);
    proof {
        lemma_stmts_index(stmts@);
    }
    let mut i: usize = 0;
    while i < stmts.len()
        invariant
            i <= stmts@.len(),
            sv == stmts_view(stmts@),
            sv.len() == stmts@.len(),
            forall|k: int| 0 <= k < stmts@.len() ==> #[trigger] sv[k] == stmt_view(stmts@[k]),
            goal == names_view(out@) + calls_in_stmts(sv, i as int),
        decreases stmts@.len() - i,
    {
        assert(sv[i as int] == stmt_view(stmts@[i as int]));
        let ghost before = names_view(out@);
        collect_calls_in_stmt(&stmts[i], out);
        i += 1;
        assert(names_view(out@) + calls_in_stmts(sv, i as int) =~= before + (calls_in_stmt(
            sv[i - 1],
        ) + calls_in_stmts(sv, i as int)));
    }
    assert(goal =~= names_view(out@));
}

/// The functions that a function calls.
fn callees(fns: &Vec<FnDef>, a: usize) -> (r: Vec<usize>)
    requires
        a < fns@.len(),
    ensures
        forall|i: int| 0 <= i < r@.len() ==> calls(fns_view(fns@), a as int, #[trigger] r@[i] as int)
            && r@[i] < fns@.len(),
        forall|b: int| #[trigger] calls(fns_view(fns@), a as int, b) ==> exists|i: int|
            0 <= i < r@.len() && #[trigger] r@[i] == b,
{
    let ghost fv = fns_view(fns@);
    let mut names: Vec<String> = Vec::new();
    assert(names_view(names@) =~= Seq::<Seq<char>>::empty());
    collect_calls_in_body(&fns[a].body, &mut names);
    let ghost called = calls_in_stmts(fv[a as int].body, 0);
    assert(names_view(names@) =~= called);
    let mut r: Vec<usize> = Vec::new();
    let mut i: usize = 0;
    while i < names.len()
        invariant
            a < fns@.len(),
            i <= names@.len(),
            fv == fns_view(fns@),
            called == calls_in_stmts(fv[a as int].body, 0),
            called == names_view(names@),
            forall|j: int| 0 <= j < r@.len() ==> calls(fv, a as int, #[trigger] r@[j] as int)
                && r@[j] < fns@.len(),
            forall|k: int|
                0 <= k < i ==> (fn_named(fv, #[trigger] called[k], fv.len() as int) matches Some(b)
                    ==> exists|j: int| 0 <= j < r@.len() && #[trigger] r@[j] == b),
        decreases names@.len() - i,
    {
        assert(called[i as int] == names@[i as int]@);
        let ghost before = r@;
        match find_fn(fns, names[i].as_str(), fns.len()) {
            Some(b) => {
                assert(calls(fv, a as int, b as int));
                r.push(b);
                assert(r@[before.len() as int] == b);
            },
            None => {},
        }
        assert forall|k: int| 0 <= k < i + 1 implies (fn_named(
            fv,
            #[trigger] called[k],
            fv.len() as int,
        ) matches Some(b) ==> exists|j: int| 0 <= j < r@.len() && #[trigger] r@[j] == b) by {
            if k < i {
                if let Some(b) = fn_named(fv, called[k], fv.len() as int) {
                    let j = choose|j: int| 0 <= j < before.len() && #[trigger] before[j] == b;
                    assert(r@[j] == b);
                }
            }
        }
        i += 1;
    }
    assert forall|b: int| #[trigger] calls(fv, a as int, b) implies exists|j: int|
        0 <= j < r@.len() && #[trigger] r@[j] == b by {
        let k = choose|k: int|
            0 <= k < called.len() && fn_named(fv, #[trigger] called[k], fv.len() as int) == Some(b);
        assert(fn_named(fv, called[k], fv.len() as int) == Some(b));
    }
    r
}

/// How far the search has come with a function.
#[derive(Clone, Copy, PartialEq, Eq, Structural)]
enum Color {
    White,
    Gray,
    Black,
}

spec fn whites(color: Seq<Color>) -> nat
    decreases color.len(),
{
    if color.len() == 0 {
        0
    } else {
        whites(color.drop_last()) + if color.last() == Color::White {
            1nat
        } else {
            0nat
        }
    }
}

proof fn lemma_whites_mono(a: Seq<Color>, b: Seq<Color>)
    requires
        a.len() == b.len(),
        forall|i: int| 0 <= i < a.len() && #[trigger] b[i] == Color::White ==> a[i] == Color::White,
    ensures
        whites(b) <= whites(a),
        (exists|i: int| 0 <= i < a.len() && #[trigger] a[i] == Color::White && b[i] != Color::White)
            ==> whites(b) < whites(a),
    decreases a.len(),
{
    if a.len() > 0 {
        let n = a.len() - 1;
        assert forall|i: int| 0 <= i < n && #[trigger] b.drop_last()[i] == Color::White implies a.drop_last()[i]
            == Color::White by {
            assert(b[i] == Color::White);
        }
        lemma_whites_mono(a.drop_last(), b.drop_last());
        if exists|i: int| 0 <= i < a.len() && #[trigger] a[i] == Color::White && b[i]
            != Color::White {
            let i = choose|i: int|
                0 <= i < a.len() && #[trigger] a[i] == Color::White && b[i] != Color::White;
            if i < n {
                assert(a.drop_last()[i] == Color::White && b.drop_last()[i] != Color::White);
            }
        }
        assert(b[n] == Color::White ==> a[n] == Color::White);
    }
}

/// A depth-first search over the calls.
struct Search<'a> {
    fns: &'a Vec<FnDef>,
    color: Vec<Color>,
    /// The functions on the way to the current one.
    path: Ghost<Seq<int>>,
    /// The finished functions, in the order in which they were finished.
    done: Ghost<Seq<int>>,
}

/// Every call of a finished function goes to one that was finished before.
spec fn ordered(fns: Seq<Fun>, done: Seq<int>) -> bool {
    forall|i: int, b: int|
        0 <= i < done.len() && #[trigger] calls(fns, done[i], b) ==> exists|j: int|
            0 <= j < i && #[trigger] done[j] == b
}

/// In such an order no call leads back.
proof fn lemma_ordered_is_acyclic(
    fns: Seq<Fun>,
    done: Seq<int>,
    i: int,
    chain: Seq<int>,
) -> (j: int)
    requires
        ordered(fns, done),
        0 <= i < done.len(),
        chain.len() >= 1,
        call_chain(fns, chain),
        chain.first() == done[i],
    ensures
        0 <= j <= i,
        done[j] == chain.last(),
        chain.len() >= 2 ==> j < i,
    decreases chain.len(),
{
    if chain.len() == 1 {
        i
    } else {
        let front = chain.drop_last();
        assert(call_chain(fns, front)) by {
            assert forall|k: int| 0 <= k < front.len() - 1 implies calls(
                fns,
                #[trigger] front[k],
                front[k + 1],
            ) by {
                assert(calls(fns, chain[k], chain[k + 1]));
            }
        }
        let m = lemma_ordered_is_acyclic(fns, done, i, front);
        let k = chain.len() - 2;
        assert(calls(fns, chain[k], chain[k + 1]));
        assert(done[m] == chain[k]);
        let j = choose|j: int| 0 <= j < m && #[trigger] done[j] == chain[k + 1];
        j
    }
}

proof fn lemma_no_way_back(fns: Seq<Fun>, done: Seq<int>, i: int, f: int)
    requires
        ordered(fns, done),
        0 <= i < done.len(),
        done[i] == f,
    ensures
        !recursive(fns, f),
    decreases i,
{
    if recursive(fns, f) {
        let chain = choose|chain: Seq<int>|
            #![trigger call_chain(fns, chain)]
            chain.len() >= 2 && chain.first() == f && chain.last() == f && call_chain(fns, chain);
        let j = lemma_ordered_is_acyclic(fns, done, i, chain);
        lemma_no_way_back(fns, done, j, f);
    }
}

/// The path is one of calls, and the functions done with are in order.
#[verifier::opaque]
spec fn traced(fns: Seq<Fun>, path: Seq<int>, done: Seq<int>) -> bool {
    call_chain(fns, path) && ordered(fns, done)
}

/// A call back into the path makes a cycle.
proof fn lemma_cycle(fns: Seq<Fun>, path: Seq<int>, done: Seq<int>, f: int)
    requires
        traced(fns, path, done),
        path.contains(f),
        calls(fns, path.last(), f),
    ensures
        recursive(fns, f),
{
    reveal(traced);
    let k = choose|k: int| 0 <= k < path.len() && path[k] == f;
    let chain = path.subrange(k, path.len() as int).push(f);
    assert forall|j: int| 0 <= j < chain.len() - 1 implies calls(
        fns,
        #[trigger] chain[j],
        chain[j + 1],
    ) by {
        if j < chain.len() - 2 {
            assert(calls(fns, path[k + j], path[k + j + 1]));
        }
    }
    assert(call_chain(fns, chain));
}

/// A call extends the path.
proof fn lemma_traced_entered(fns: Seq<Fun>, path: Seq<int>, done: Seq<int>, f: int)
    requires
        traced(fns, path, done),
        path.len() > 0 ==> calls(fns, path.last(), f),
    ensures
        traced(fns, path.push(f), done),
{
    reveal(traced);
    let longer = path.push(f);
    assert forall|k: int| 0 <= k < longer.len() - 1 implies calls(
        fns,
        #[trigger] longer[k],
        longer[k + 1],
    ) by {
        if k < path.len() - 1 {
            assert(calls(fns, path[k], path[k + 1]));
        }
    }
}

/// A function is done with once those that it calls are.
proof fn lemma_traced_left(
    fns: Seq<Fun>,
    path: Seq<int>,
    before: Seq<int>,
    longer: Seq<int>,
    done: Seq<int>,
    f: int,
)
    requires
        traced(fns, path, before),
        traced(fns, longer, done),
        forall|b: int| #[trigger] calls(fns, f, b) ==> done.contains(b),
    ensures
        traced(fns, path, done.push(f)),
{
    reveal(traced);
    let more = done.push(f);
    assert forall|i: int, b: int|
        0 <= i < more.len() && #[trigger] calls(fns, more[i], b) implies exists|j: int|
        0 <= j < i && #[trigger] more[j] == b by {
        if i < done.len() {
            assert(calls(fns, done[i], b));
            let j = choose|j: int| 0 <= j < i && #[trigger] done[j] == b;
            assert(more[j] == b);
        } else {
            assert(done.contains(b));
            let j = choose|j: int| 0 <= j < done.len() && done[j] == b;
            assert(more[j] == b);
        }
    }
}

impl<'a> Search<'a> {
    spec fn fv(self) -> Seq<Fun> {
        fns_view(self.fns@)
    }

    spec fn wf(self) -> bool {
        let n = self.fns@.len();
        &&& self.color@.len() == n
        &&& forall|i: int| 0 <= i < n ==> (#[trigger] self.color@[i] == Color::Gray
            <==> self.path@.contains(i))
        &&& forall|i: int| 0 <= i < n ==> (#[trigger] self.color@[i] == Color::Black
            <==> self.done@.contains(i))
        &&& forall|k: int| 0 <= k < self.path@.len() ==> 0 <= #[trigger] self.path@[k] < n
        &&& traced(self.fv(), self.path@, self.done@)
    }

    /// Colors only change from white to black.
    spec fn further(self, before: Self) -> bool {
        &&& self.fns == before.fns
        &&& self.path@ == before.path@
        &&& self.color@.len() == before.color@.len()
        &&& forall|i: int|
            0 <= i < self.color@.len() ==> #[trigger] self.color@[i] == before.color@[i] || (
            before.color@[i] == Color::White && self.color@[i] == Color::Black)
    }

    /// Search from a function; gives one that calls itself, if one is found.
    fn dfs(&mut self, node: usize) -> (r: Result<(), usize>)
        requires
            old(self).wf(),
            node < old(self).fns@.len(),
            old(self).color@[node as int] == Color::White,
            old(self).path@.len() > 0 ==> calls(
                old(self).fv(),
                old(self).path@.last(),
                node as int,
            ),
        ensures
            final(self).fns == old(self).fns,
            match r {
                Ok(()) => {
                    &&& final(self).wf()
                    &&& final(self).further(*old(self))
                    &&& final(self).color@[node as int] == Color::Black
                },
                Err(f) => f < old(self).fns@.len() && recursive(old(self).fv(), f as int),
            },
        decreases whites(old(self).color@),
    {
        let ghost fv = self.fv();
        let ghost start = *self;
        let fns = self.fns;
        self.color.set(node, Color::Gray);
        self.path = Ghost(self.path@.push(node as int));
        let ghost path = self.path@;
        proof {
            lemma_whites_mono(start.color@, self.color@);
            assert(start.color@[node as int] == Color::White && self.color@[node as int]
                != Color::White);
            assert forall|i: int| 0 <= i < self.fns@.len() implies (
            #[trigger] self.color@[i] == Color::Gray <==> self.path@.contains(i)) by {
                if i == node {
                    assert(path[path.len() - 1] == i);
                } else if start.path@.contains(i) {
                    let k = choose|k: int| 0 <= k < start.path@.len() && start.path@[k] == i;
                    assert(path[k] == i);
                } else if path.contains(i) {
                    let k = choose|k: int| 0 <= k < path.len() && path[k] == i;
                    assert(start.path@[k] == i);
                }
                assert(start.color@[i] == Color::Gray <==> start.path@.contains(i));
            }
            assert forall|i: int| 0 <= i < self.fns@.len() implies (
            #[trigger] self.color@[i] == Color::Black <==> self.done@.contains(i)) by {
                assert(start.color@[i] == Color::Black <==> start.done@.contains(i));
            }
            lemma_traced_entered(fv, start.path@, start.done@, node as int);
        }
        let ghost entered = *self;
        let succs = callees(fns, node);
        let mut i: usize = 0;
        while i < succs.len()
            invariant
                fns == self.fns,
                self.fns == start.fns,
                fv == fns_view(fns@),
                fv == self.fv(),
                node < fns@.len(),
                self.wf(),
                self.further(entered),
                entered.path@ == path,
                path == start.path@.push(node as int),
                entered.color@.len() == fns@.len(),
                whites(entered.color@) < whites(start.color@),
                start == *old(self),
                entered.color@ == start.color@.update(node as int, Color::Gray),
                i <= succs@.len(),
                forall|k: int| 0 <= k < succs@.len() ==> calls(
                    fv,
                    node as int,
                    #[trigger] succs@[k] as int,
                ) && succs@[k] < fns@.len(),
                forall|k: int|
                    0 <= k < i ==> self.color@[#[trigger] succs@[k] as int] == Color::Black,
            decreases succs@.len() - i,
        {
            let succ = succs[i];
            assert(calls(fv, node as int, succs@[i as int] as int));
            match self.color[succ] {
                Color::Gray => {
                    proof {
                        assert(self.path@.contains(succ as int));
                        lemma_cycle(fv, path, self.done@, succ as int);
                    }
                    return Err(succ);
                },
                Color::White => {
                    let ghost here = *self;
                    proof {
                        lemma_whites_mono(entered.color@, self.color@);
                    }
                    match self.dfs(succ) {
                        Ok(()) => {},
                        Err(f) => {
                            return Err(f);
                        },
                    }
                    assert forall|k: int| 0 <= k < i implies self.color@[#[trigger] succs@[k] as int]
                        == Color::Black by {
                        assert(here.color@[succs@[k] as int] == Color::Black);
                    }
                },
                Color::Black => {},
            }
            i += 1;
        }
        let ghost ended = *self;
        self.color.set(node, Color::Black);
        self.path = Ghost(start.path@);
        self.done = Ghost(self.done@.push(node as int));
        proof {
            let done = self.done@;
            assert forall|i: int| 0 <= i < fns@.len() implies (
            #[trigger] self.color@[i] == Color::Black <==> done.contains(i)) by {
                assert(ended.color@[i] == Color::Black <==> ended.done@.contains(i));
                if i == node {
                    assert(done[done.len() - 1] == i);
                } else if ended.done@.contains(i) {
                    let k = choose|k: int| 0 <= k < ended.done@.len() && ended.done@[k] == i;
                    assert(done[k] == i);
                } else if done.contains(i) {
                    let k = choose|k: int| 0 <= k < done.len() && done[k] == i;
                    assert(ended.done@[k] == i);
                }
            }
            assert forall|i: int| 0 <= i < fns@.len() implies (
            #[trigger] self.color@[i] == Color::Gray <==> self.path@.contains(i)) by {
                assert(ended.color@[i] == Color::Gray <==> path.contains(i));
                assert(start.color@[i] == Color::Gray <==> start.path@.contains(i));
                if i != node {
                    if start.path@.contains(i) {
                        let k = choose|k: int| 0 <= k < start.path@.len() && start.path@[k] == i;
                        assert(path[k] == i);
                    }
                    if path.contains(i) {
                        let k = choose|k: int| 0 <= k < path.len() && path[k] == i;
                        assert(start.path@[k] == i);
                    }
                }
            }
            assert forall|b: int| #[trigger] calls(fv, node as int, b) implies ended.done@.contains(
                b,
            ) by {
                let k = choose|k: int| 0 <= k < succs@.len() && #[trigger] succs@[k] == b;
                assert(ended.color@[succs@[k] as int] == Color::Black);
            }
            lemma_traced_left(fv, start.path@, start.done@, path, ended.done@, node as int);
        }
        Ok(())
    }
}

/// Reject functions that call themselves, directly or through others.
fn detect_recursion(fns: &Vec<FnDef>) -> (r: Result<(), BfscError>)
    ensures
        r is Ok <==> forall|f: int| !#[trigger] recursive(fns_view(fns@), f),
        r matches Err(e) ==> exists|f: int|
            0 <= f < fns@.len() && #[trigger] recursive(fns_view(fns@), f) && e@ == Failure::Type(
                recursion_message(fns_view(fns@)[f].name),
            ),
{
    let ghost fv = fns_view(fns@);
    let mut color: Vec<Color> = Vec::new();
    let mut i: usize = 0;
    while i < fns.len()
        invariant
            i <= fns@.len(),
            color@.len() == i,
            forall|k: int| 0 <= k < i ==> #[trigger] color@[k] == Color::White,
        decreases fns@.len() - i,
    {
        color.push(Color::White);
        i += 1;
    }
    let mut search = Search { fns, color, path: Ghost(Seq::empty()), done: Ghost(Seq::empty()) };
    assert(traced(fv, search.path@, search.done@)) by {
        reveal(traced);
    }
    let mut i: usize = 0;
    while i < fns.len()
        invariant
            i <= fns@.len(),
            fv == fns_view(fns@),
            search.fns == fns,
            search.wf(),
            search.path@.len() == 0,
            forall|k: int| 0 <= k < i ==> #[trigger] search.color@[k] == Color::Black,
        decreases fns@.len() - i,
    {
        if search.color[i] == Color::White {
            let ghost before = search;
            match search.dfs(i) {
                Ok(()) => {},
                Err(f) => {
                    assert(fv[f as int].name == fns@[f as int].name@);
                    return Err(
                        BfscError::Type(
                            joined(
                                "recursive call detected involving '",
                                fns[f].name.as_str(),
                                "' — not supported",
                            ),
                        ),
                    );
                },
            }
            assert forall|k: int| 0 <= k < i implies #[trigger] search.color@[k] == Color::Black by {
                assert(before.color@[k] == Color::Black);
            }
        }
        assert(search.color@[i as int] == Color::Black) by {
            assert(search.color@[i as int] == Color::Gray <==> search.path@.contains(i as int));
        }
        i += 1;
    }
    assert forall|f: int| !#[trigger] recursive(fv, f) by {
        if recursive(fv, f) {
            let chain = choose|chain: Seq<int>|
                #![trigger call_chain(fv, chain)]
                chain.len() >= 2 && chain.first() == f && chain.last() == f && call_chain(
                    fv,
                    chain,
                );
            assert(calls(fv, chain[0], chain[1]));
            assert(0 <= f < fns@.len());
            assert(search.color@[f] == Color::Black);
            assert(search.done@.contains(f));
            let k = choose|k: int| 0 <= k < search.done@.len() && search.done@[k] == f;
            assert(ordered(fv, search.done@)) by {
                reveal(traced);
            }
            lemma_no_way_back(fv, search.done@, k, f);
        }
    }
    Ok(())
}

/// Check a program and lay out its variables.
pub fn check(program: Program) -> (r: Result<(Program, MemMap), BfscError>)
    ensures
        match checked(stmts_view(program.top@), fns_view(program.fns@)) {
            Checked::Fault(m) => r is Err && r->Err_0@ == Failure::Type(m),
            Checked::Pass(d) => match r {
                Ok((p, map)) => {
                    &&& forall|f: int| !#[trigger] recursive(fns_view(program.fns@), f)
                    &&& p == program
                    &&& map.wf()
                    &&& map.bindings() == d.vars
                    &&& map.temp_base == d.next
                },
                Err(e) => exists|f: int|
                    0 <= f < program.fns@.len() && #[trigger] recursive(
                        fns_view(program.fns@),
                        f,
                    ) && e@ == Failure::Type(
                        recursion_message(fns_view(program.fns@)[f].name),
                    ),
            },
        },
{
    let mut collector = Collector { types: Vec::new(), builder: MemMapBuilder::new() };
    assert(types_view(collector.types@) =~= Seq::<(Seq<char>, TypeAnn)>::empty());
    match collector.collect_block(&program.top) {
        Ok(()) => {},
        Err(e) => {
            return Err(e);
        },
    }
    match check_sigs(&collector.types, &program.fns) {
        Ok(()) => {},
        Err(e) => {
            return Err(e);
        },
    }
    match check_bodies(&collector.types, &program.fns) {
        Ok(()) => {},
        Err(e) => {
            return Err(e);
        },
    }
    let checker = Checker { types: &collector.types, fns: &program.fns };
    match checker.check_block(&program.top, None) {
        Ok(()) => {},
        Err(e) => {
            return Err(e);
        },
    }
    match detect_recursion(&program.fns) {
        Ok(()) => {},
        Err(e) => {
            return Err(e);
        },
    }
    proof {
        assert(collector.types.len() <= usize::MAX);
        assert(DECL_CELLS * collector.types@.len() <= DECL_CELLS * usize::MAX) by (nonlinear_arith)
            requires
                collector.types@.len() <= usize::MAX,
        ;
    }
    Ok((program, collector.builder.finalize()))
}

} // verus!
