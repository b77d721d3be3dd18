//! What the code generator emits is sound, so that the Brainfuck front end
//! accepts it.

use vstd::prelude::*;

use crate::bfsc::ast::{Ex, Fun, Lv, ScalarType, Sm, TypeAnn, UnOp};
use crate::bfsc::codegen::{emitted, fn_named, is_passed, ret_slot, Arg, Cg, Env};
use crate::bfsc::emitter::Bf;
use crate::bfsc::layout::{bound, scalar_cells, ArrayLayout, CellLayout};
use crate::bfsc::lexer::{lexed, Lexed};
use crate::bfsc::parser::{program_at, Got};
use crate::bfsc::sound::arith::{
    sound_bfmove, sound_bfmove_n, sound_binop_w, sound_clear_range, sound_copy_n, sound_is_nz_n,
    sound_negate, sound_sub_n, sound_widened,
};
use crate::bfsc::sound::arrays::{
    sound_as_byte, sound_read_all, sound_read_all_counted, sound_read_chunks, sound_read_groups,
    sound_resized, sound_store_byte, sound_walk_read_chunk, sound_walk_write_chunk,
    sound_write_all, sound_write_all_counted, sound_write_chunks, sound_write_groups,
};
use crate::bfsc::sound::numbers::{sound_print_num, sound_print_num_n, sound_scan_num_n};
use crate::bfsc::sound::steps::{lemma_sound_depth, lemma_sound_tokens, sound};
use crate::bfsc::sound::steps::{
    sound_clear, sound_close, sound_goto, sound_inp, sound_open, sound_out_cell, sound_reserve,
    sound_set_const_n, sound_setv, sound_talloc, sound_talloc_n, sound_tfree, sound_tfree_n,
    sound_trestore,
};
use crate::bfsc::typeck::{checked, Checked};
use crate::bfsc::{compiled, Compiled};
use crate::frontend::lexer::tokens_of;
use crate::frontend::parser::balanced;

verus! {

pub broadcast proof fn sound_free_values(
    bf: Bf,
    cells: Seq<(int, int)>,
    i: int,
    from: Seq<char>,
    nest: int,
)
    requires
        #[trigger] sound(from, bf.out, nest),
    ensures
        sound(from, (#[trigger] bf.free_values(cells, i)).out, nest),
    decreases cells.len() - i,
{
    broadcast use sound_tfree_n;

    if !(i < 0 || i >= cells.len()) {
        sound_free_values(bf.tfree_n(cells[i].0, cells[i].1), cells, i + 1, from, nest);
    }
}

pub broadcast proof fn sound_free_locals(
    bf: Bf,
    frame: Seq<(Seq<char>, CellLayout)>,
    params: Seq<(Seq<char>, TypeAnn)>,
    i: int,
    from: Seq<char>,
    nest: int,
)
    requires
        #[trigger] sound(from, bf.out, nest),
    ensures
        sound(from, (#[trigger] bf.free_locals(frame, params, i)).out, nest),
    decreases frame.len() - i,
{
    broadcast use sound_tfree_n;

    if i < 0 || i >= frame.len() {
    } else if is_passed(params, frame[i].0) {
        sound_free_locals(bf, frame, params, i + 1, from, nest);
    } else {
        sound_free_locals(
            bf.tfree_n(frame[i].1.base as int, frame[i].1.width as int),
            frame,
            params,
            i + 1,
            from,
            nest,
        );
    }
}

pub broadcast proof fn sound_truth(bf: Bf, r: int, w: int, from: Seq<char>, nest: int)
    requires
        #[trigger] sound(from, bf.out, nest),
    ensures
        sound(from, (#[trigger] bf.truth(r, w)).0.out, nest),
{
    broadcast use {sound_is_nz_n, sound_tfree_n};
}

pub broadcast proof fn sound_store(
    bf: Bf,
    v: int,
    vw: int,
    l: CellLayout,
    from: Seq<char>,
    nest: int,
)
    requires
        #[trigger] sound(from, bf.out, nest),
    ensures
        sound(from, (#[trigger] bf.store(v, vw, l)).out, nest),
{
    broadcast use {sound_widened, sound_bfmove_n, sound_tfree_n};
}

/// An expression.
proof fn lemma_expr(cg: Cg, env: Env, fuel: nat, e: Ex, from: Seq<char>, nest: int)
    requires
        sound(from, cg.bf.out, nest),
    ensures
        sound(from, cg.expr(env, fuel, e).0.bf.out, nest),
    decreases fuel, 0int, e, 0int,
{
    broadcast use {
        sound_talloc_n,
        sound_set_const_n,
        sound_copy_n,
        sound_binop_w,
        sound_clear_range,
        sound_sub_n,
        sound_is_nz_n,
        sound_tfree_n,
        sound_negate,
    };

    match e {
        Ex::Int(n) => {},
        Ex::Var(name) => {},
        Ex::Index(name, idx) => {
            let (cg, l) = cg.resolved(env, name);
            lemma_element(cg, env, fuel, l, *idx, from, nest);
        },
        Ex::Call(name, args) => {
            lemma_call(cg, env, fuel, name, args, from, nest);
        },
        Ex::BinOp(op, left, right) => {
            lemma_expr(cg, env, fuel, *left, from, nest);
            let (cg, a, aw) = cg.expr(env, fuel, *left);
            lemma_expr(cg, env, fuel, *right, from, nest);
        },
        Ex::UnOp(UnOp::Neg, inner) => {
            lemma_expr(cg, env, fuel, *inner, from, nest);
        },
        Ex::UnOp(UnOp::Not, inner) => {
            lemma_expr(cg, env, fuel, *inner, from, nest);
        },
    }
}

/// An expression in a number of cells.
proof fn lemma_expr_w(cg: Cg, env: Env, fuel: nat, e: Ex, w: int, from: Seq<char>, nest: int)
    requires
        sound(from, cg.bf.out, nest),
    ensures
        sound(from, cg.expr_w(env, fuel, e, w).0.bf.out, nest),
    decreases fuel, 0int, e, 1int,
{
    broadcast use sound_resized;

    lemma_expr(cg, env, fuel, e, from, nest);
}

/// An expression as a byte.
proof fn lemma_expr_1(cg: Cg, env: Env, fuel: nat, e: Ex, from: Seq<char>, nest: int)
    requires
        sound(from, cg.bf.out, nest),
    ensures
        sound(from, cg.expr_1(env, fuel, e).0.bf.out, nest),
    decreases fuel, 0int, e, 1int,
{
    broadcast use sound_as_byte;

    lemma_expr(cg, env, fuel, e, from, nest);
}

/// An array element.
proof fn lemma_element(
    cg: Cg,
    env: Env,
    fuel: nat,
    l: CellLayout,
    idx: Ex,
    from: Seq<char>,
    nest: int,
)
    requires
        sound(from, cg.bf.out, nest),
    ensures
        sound(from, cg.element(env, fuel, l, idx).0.bf.out, nest),
    decreases fuel, 0int, idx, 2int,
{
    broadcast use {
        sound_talloc,
        sound_talloc_n,
        sound_tfree,
        sound_tfree_n,
        sound_clear,
        sound_clear_range,
        sound_copy_n,
        sound_walk_read_chunk,
        sound_read_chunks,
        sound_read_groups,
        sound_read_all,
        sound_read_all_counted,
    };

    match l.layout {
        ArrayLayout::Walk { chunk_size, num_chunks } => {
            let (bf, result) = cg.bf.talloc();
            let cg = cg.with(bf.clear(result));
            lemma_expr_w(cg, env, fuel, idx, 1, from, nest);
            lemma_expr_w(cg, env, fuel, idx, 2, from, nest);
            lemma_expr_w(cg, env, fuel, idx, 3, from, nest);
        },
        ArrayLayout::Linear => {
            let ew = l.ty.cells();
            let (bf, result) = cg.bf.talloc_n(ew);
            let cg = cg.with(bf.clear_range(result, 0, ew));
            lemma_expr_w(cg, env, fuel, idx, 2, from, nest);
            lemma_expr_1(cg, env, fuel, idx, from, nest);
        },
    }
}

/// A store to an array element.
proof fn lemma_set_element(
    cg: Cg,
    env: Env,
    fuel: nat,
    l: CellLayout,
    idx: Ex,
    val: int,
    val_w: int,
    from: Seq<char>,
    nest: int,
)
    requires
        sound(from, cg.bf.out, nest),
    ensures
        sound(from, cg.set_element(env, fuel, l, idx, val, val_w).bf.out, nest),
    decreases fuel, 0int, idx, 2int,
{
    broadcast use {
        sound_talloc_n,
        sound_tfree,
        sound_tfree_n,
        sound_clear_range,
        sound_copy_n,
        sound_store_byte,
        sound_widened,
        sound_walk_write_chunk,
        sound_write_chunks,
        sound_write_groups,
        sound_write_all,
        sound_write_all_counted,
    };

    match l.layout {
        ArrayLayout::Walk { chunk_size, num_chunks } => {
            let (bf, v) = cg.bf.store_byte(val, val_w);
            let cg = cg.with(bf);
            lemma_expr_w(cg, env, fuel, idx, 1, from, nest);
            lemma_expr_w(cg, env, fuel, idx, 2, from, nest);
            lemma_expr_w(cg, env, fuel, idx, 3, from, nest);
        },
        ArrayLayout::Linear => {
            let (bf, v) = cg.bf.widened(val, val_w, l.ty.cells());
            let cg = cg.with(bf);
            lemma_expr_w(cg, env, fuel, idx, 2, from, nest);
            lemma_expr_1(cg, env, fuel, idx, from, nest);
        },
    }
}

/// The arguments of a call.
proof fn lemma_args(
    cg: Cg,
    env: Env,
    fuel: nat,
    params: Seq<(Seq<char>, TypeAnn)>,
    args: Seq<Ex>,
    i: int,
    done: Seq<Arg>,
    from: Seq<char>,
    nest: int,
)
    requires
        sound(from, cg.bf.out, nest),
    ensures
        sound(from, cg.args(env, fuel, params, args, i, done).0.bf.out, nest),
    decreases fuel, 0int, args, args.len() - i,
{
    if !(i < 0 || i >= args.len() || i >= params.len()) {
        match params[i].1 {
            TypeAnn::Scalar(_) => {
                lemma_expr(cg, env, fuel, args[i], from, nest);
                let (cg, v, vw) = cg.expr(env, fuel, args[i]);
                lemma_args(
                    cg,
                    env,
                    fuel,
                    params,
                    args,
                    i + 1,
                    done.push(Arg::Value(v, vw)),
                    from,
                    nest,
                );
            },
            TypeAnn::Array(_, _) => {
                let (cg, l) = match args[i] {
                    Ex::Var(name) => cg.resolved(env, name),
                    _ => (cg.failed(), scalar_cells(0, ScalarType::U8)),
                };
                lemma_args(
                    cg,
                    env,
                    fuel,
                    params,
                    args,
                    i + 1,
                    done.push(Arg::Alias(l)),
                    from,
                    nest,
                );
            },
        }
    }
}

/// The parameters of a call.
proof fn lemma_params(
    cg: Cg,
    params: Seq<(Seq<char>, TypeAnn)>,
    args: Seq<Arg>,
    i: int,
    scope: Seq<(Seq<char>, CellLayout)>,
    cells: Seq<(int, int)>,
    from: Seq<char>,
    nest: int,
)
    requires
        sound(from, cg.bf.out, nest),
    ensures
        sound(from, cg.params(params, args, i, scope, cells).0.bf.out, nest),
    decreases params.len() - i,
{
    broadcast use {sound_talloc_n, sound_clear_range, sound_store};

    if !(i < 0 || i >= params.len()) && i < args.len() {
        let name = params[i].0;
        match args[i] {
            Arg::Value(v, vw) => {
                let st = match params[i].1 {
                    TypeAnn::Scalar(st) => st,
                    TypeAnn::Array(st, _) => st,
                };
                let w = st.cells();
                let (bf, base) = cg.bf.talloc_n(w);
                let bf = bf.clear_range(base, 0, w);
                let l = scalar_cells(base, st);
                lemma_params(
                    cg.with(bf.store(v, vw, l)),
                    params,
                    args,
                    i + 1,
                    bound(scope, name, l),
                    cells.push((base, w)),
                    from,
                    nest,
                );
            },
            Arg::Alias(l) => {
                lemma_params(cg, params, args, i + 1, bound(scope, name, l), cells, from, nest);
            },
        }
    }
}

/// A call.
proof fn lemma_call(
    cg: Cg,
    env: Env,
    fuel: nat,
    name: Seq<char>,
    args: Seq<Ex>,
    from: Seq<char>,
    nest: int,
)
    requires
        sound(from, cg.bf.out, nest),
    ensures
        sound(from, cg.call(env, fuel, name, args).0.bf.out, nest),
    decreases fuel, 0int, args, args.len() + 1,
{
    broadcast use {sound_talloc_n, sound_clear_range, sound_free_values, sound_free_locals};

    match fn_named(env.fns, name, env.fns.len() as int) {
        None => {},
        Some(k) => {
            let f = env.fns[k];
            if fuel > 0 {
                lemma_args(cg, env, fuel, f.params, args, 0, Seq::empty(), from, nest);
                let (cg, vals) = cg.args(env, fuel, f.params, args, 0, Seq::empty());
                lemma_params(cg, f.params, vals, 0, Seq::empty(), Seq::empty(), from, nest);
                let (cg, scope, cells) = cg.params(f.params, vals, 0, Seq::empty(), Seq::empty());
                let (cg, scope) = match f.ret_ty {
                    None => (cg, scope),
                    Some(rt) => {
                        let w = rt.cells();
                        let (bf, base) = cg.bf.talloc_n(w);
                        (
                            cg.with(bf.clear_range(base, 0, w)),
                            bound(scope, ret_slot(), scalar_cells(base, rt)),
                        )
                    },
                };
                let cg = Cg { scopes: cg.scopes.push(scope), ..cg };
                lemma_stmts(cg, env, (fuel - 1) as nat, f.body, 0, from, nest);
            }
        },
    }
}

/// An assignment to a variable.
proof fn lemma_assign(cg: Cg, env: Env, fuel: nat, l: CellLayout, e: Ex, from: Seq<char>, nest: int)
    requires
        sound(from, cg.bf.out, nest),
    ensures
        sound(from, cg.assign(env, fuel, l, e).bf.out, nest),
    decreases fuel, 0int, e, 1int,
{
    broadcast use sound_store;

    lemma_expr(cg, env, fuel, e, from, nest);
}

/// A condition.
pub proof fn lemma_condition(
    cg: Cg,
    env: Env,
    fuel: nat,
    cond: Ex,
    cc: int,
    again: bool,
    from: Seq<char>,
    nest: int,
)
    requires
        sound(from, cg.bf.out, nest),
    ensures
        sound(from, cg.condition(env, fuel, cond, cc, again).bf.out, nest),
    decreases fuel, 0int, cond, 1int,
{
    broadcast use {sound_truth, sound_clear, sound_bfmove, sound_tfree};

    lemma_expr(cg, env, fuel, cond, from, nest);
}

/// Statements.
pub proof fn lemma_stmts(
    cg: Cg,
    env: Env,
    fuel: nat,
    ss: Seq<Sm>,
    i: int,
    from: Seq<char>,
    nest: int,
)
    requires
        sound(from, cg.bf.out, nest),
    ensures
        sound(from, cg.stmts(env, fuel, ss, i).bf.out, nest),
    decreases fuel, 1int, ss, ss.len() - i,
{
    if !(i < 0 || i >= ss.len()) {
        lemma_stmt(cg, env, fuel, ss[i], from, nest);
        lemma_stmts(cg.stmt(env, fuel, ss[i]), env, fuel, ss, i + 1, from, nest);
    }
}

/// A loop.
proof fn lemma_while_loop(
    cg: Cg,
    env: Env,
    fuel: nat,
    cond: Ex,
    body: Seq<Sm>,
    from: Seq<char>,
    nest: int,
)
    requires
        sound(from, cg.bf.out, nest),
    ensures
        sound(from, cg.while_loop(env, fuel, cond, body).bf.out, nest),
    decreases fuel, 1int, body, body.len() + 1,
{
    broadcast use {
        sound_talloc,
        sound_tfree,
        sound_clear,
        sound_trestore,
        sound_reserve,
        sound_goto,
        sound_open,
        sound_close,
    };

    lemma_sound_depth(from, cg.bf.out, nest);
    let (bf, cc) = cg.bf.talloc();
    let bf = bf.clear(cc);
    let saved = bf.used;
    lemma_condition(cg.with(bf), env, fuel, cond, cc, false, from, nest);
    let cg = cg.with(bf).condition(env, fuel, cond, cc, false);
    let bf = cg.bf.trestore(saved).reserve(cc);
    let bf = bf.goto(cc).raw("["@);
    lemma_stmts(cg.with(bf), env, fuel, body, 0, from, nest + 1);
    let cg = cg.with(bf).stmts(env, fuel, body, 0);
    lemma_condition(cg, env, fuel, cond, cc, true, from, nest + 1);
}

/// A choice.
proof fn lemma_choice(cg: Cg, env: Env, fuel: nat, s: Sm, from: Seq<char>, nest: int)
    requires
        sound(from, cg.bf.out, nest),
    ensures
        sound(from, cg.choice(env, fuel, s).bf.out, nest),
    decreases fuel, 1int, s, 0int,
{
    broadcast use {
        sound_talloc,
        sound_tfree,
        sound_clear,
        sound_setv,
        sound_trestore,
        sound_reserve,
        sound_goto,
        sound_open,
        sound_close,
    };

    lemma_sound_depth(from, cg.bf.out, nest);
    match s {
        Sm::If(cond, then_, else_) => {
            let saved = cg.bf.used;
            let (bf, cc) = cg.bf.talloc();
            let (bf, ef) = bf.talloc();
            let bf = bf.clear(cc);
            lemma_condition(cg.with(bf), env, fuel, cond, cc, false, from, nest);
            let cg = cg.with(bf).condition(env, fuel, cond, cc, false);
            let bf = cg.bf.trestore(saved).reserve(cc).reserve(ef);
            let bf = bf.setv(ef, 1);
            let bf = bf.goto(cc).raw("["@);
            let bf = bf.clear(ef);
            lemma_stmts(cg.with(bf), env, fuel, then_, 0, from, nest + 1);
            let cg = cg.with(bf).stmts(env, fuel, then_, 0);
            let bf = cg.bf.clear(cc).goto(cc).raw("]"@);
            let cg = cg.with(bf);
            match else_ {
                Some(block) => {
                    let bf = cg.bf.goto(ef).raw("["@);
                    lemma_stmts(cg.with(bf), env, fuel, block, 0, from, nest + 1);
                },
                None => {},
            }
        },
        _ => {},
    }
}

/// A statement.
proof fn lemma_stmt(cg: Cg, env: Env, fuel: nat, s: Sm, from: Seq<char>, nest: int)
    requires
        sound(from, cg.bf.out, nest),
    ensures
        sound(from, cg.stmt(env, fuel, s).bf.out, nest),
    decreases fuel, 1int, s, 1int,
{
    broadcast use {
        sound_talloc,
        sound_talloc_n,
        sound_tfree,
        sound_tfree_n,
        sound_clear_range,
        sound_setv,
        sound_inp,
        sound_out_cell,
        sound_print_num,
        sound_print_num_n,
        sound_scan_num_n,
    };

    match s {
        Sm::Let(name, ty, init) => {
            let (cg, l) = cg.declared(env, name, ty);
            match init {
                Some(e) => {
                    lemma_assign(cg, env, fuel, l, e, from, nest);
                },
                None => {},
            }
        },
        Sm::Assign(Lv::Var(name), e) => {
            let (cg, l) = cg.resolved(env, name);
            lemma_assign(cg, env, fuel, l, e, from, nest);
        },
        Sm::Assign(Lv::Index(name, idx), e) => {
            let (cg, l) = cg.resolved(env, name);
            lemma_expr(cg, env, fuel, e, from, nest);
            let (cg, v, vw) = cg.expr(env, fuel, e);
            lemma_set_element(cg, env, fuel, l, idx, v, vw, from, nest);
        },
        Sm::While(cond, body) => {
            lemma_while_loop(cg, env, fuel, cond, body, from, nest);
        },
        Sm::If(_, _, _) => {
            lemma_choice(cg, env, fuel, s, from, nest);
        },
        Sm::Print(e) => {
            lemma_expr(cg, env, fuel, e, from, nest);
        },
        Sm::Putchar(e) => {
            lemma_expr_1(cg, env, fuel, e, from, nest);
        },
        Sm::Setpixel(x, y, color) => {
            lemma_expr_1(cg, env, fuel, x, from, nest);
            let (cg, xc) = cg.expr_1(env, fuel, x);
            lemma_expr_1(cg, env, fuel, y, from, nest);
            let (cg, yc) = cg.expr_1(env, fuel, y);
            lemma_expr_1(cg, env, fuel, color, from, nest);
        },
        Sm::Getchar(Lv::Var(name)) => {},
        Sm::Getchar(Lv::Index(name, idx)) => {
            let (cg, l) = cg.resolved(env, name);
            let ew = l.ty.cells();
            let (bf, t) = cg.bf.talloc_n(ew);
            let cg = cg.with(bf.inp(t).clear_range(t, 1, ew));
            lemma_set_element(cg, env, fuel, l, idx, t, ew, from, nest);
        },
        Sm::Call(name, args) => {
            lemma_call(cg, env, fuel, name, args, from, nest);
        },
        Sm::Return(Some(e)) => {
            let (cg, l) = cg.resolved(env, ret_slot());
            lemma_assign(cg, env, fuel, l, e, from, nest);
        },
        Sm::Return(None) => {},
        Sm::Scan(Lv::Var(name)) => {},
        Sm::Scan(Lv::Index(name, idx)) => {
            let (cg, l) = cg.resolved(env, name);
            let ew = l.ty.cells();
            let (bf, t) = cg.bf.talloc_n(ew);
            let cg = cg.with(bf.scan_num_n(t, ew));
            lemma_set_element(cg, env, fuel, l, idx, t, ew, from, nest);
        },
    }
}

/// What the code generator emits consists of Brainfuck operators alone, and
/// its brackets match.
pub proof fn law_emitted_text_is_brainfuck(
    top: Seq<Sm>,
    fns: Seq<Fun>,
    vars: Seq<(Seq<char>, CellLayout)>,
    temp_base: int,
)
    ensures
        emitted(top, fns, vars, temp_base) matches Some(text) ==> {
            &&& tokens_of(text).len() == text.len()
            &&& balanced(tokens_of(text))
        },
{
    let start = Cg { bf: Bf::start(temp_base), scopes: Seq::empty(), fault: false };
    let env = Env { vars, fns };
    assert(sound(Seq::empty(), start.bf.out, 0)) by {
        reveal(sound);
    }
    lemma_stmts(start, env, fns.len(), top, 0, Seq::empty(), 0);
    let text = start.stmts(env, fns.len(), top, 0).bf.out;
    lemma_sound_tokens(Seq::empty(), text, 0);
    assert(text.skip(0) =~= text);
}

/// What a BFS source compiles to consists of Brainfuck operators alone, and
/// its brackets match: the Brainfuck front end drops none of it and accepts it.
pub proof fn law_compiled_text_is_brainfuck(source: Seq<char>)
    ensures
        compiled(source) matches Compiled::Text(text) ==> {
            &&& tokens_of(text).len() == text.len()
            &&& balanced(tokens_of(text))
        },
{
    match compiled(source) {
        Compiled::Text(text) => {
            match lexed(vstd::utf8::encode_utf8(source)) {
                Lexed::Tokens(ts) => match program_at(ts) {
                    Got::Done(stmts, _) => match checked(stmts, Seq::empty()) {
                        Checked::Pass(d) => {
                            law_emitted_text_is_brainfuck(stmts, Seq::empty(), d.vars, d.next);
                        },
                        _ => {},
                    },
                    _ => {},
                },
                _ => {},
            }
        },
        _ => {},
    }
}

} // verus!
