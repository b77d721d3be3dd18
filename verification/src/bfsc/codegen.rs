//! BFS to Brainfuck.
//!
//! Walks the syntax tree and emits Brainfuck in one pass. Function calls are
//! expanded in place, with a scope of their own for parameters and local
//! variables. Output is deterministic.

use vstd::prelude::*;

use crate::bfsc::ast::{
    expr_view, exprs_view, fn_view, fns_view, lemma_exprs_index, lemma_stmts_index, params_view,
    stmt_view, stmts_view, Ex, Fun, Lv, Sm,
};
use crate::bfsc::ast::{
    Expr, FnDef, LValue, Param, Program, ScalarType, Stmt, TypeAnn, UnOp,
};
use crate::bfsc::emitter::BfEmitter;
use crate::bfsc::emitter::{block, Bf};
use crate::bfsc::layout::{bind, find_binding, ArrayLayout, CellLayout, MemMap, CELL_LIMIT};
use crate::bfsc::layout::{
    binding, bindings_ok, bindings_view, bound, cells_ok, index_of_name, lemma_index_of_name,
    scalar_cells,
};
use crate::text::{owned, same_text};

verus! {

/// The state of the code generator.
pub struct Cg {
    /// The emitter.
    pub bf: Bf,
    /// The bindings of the calls that are being expanded, innermost last.
    pub scopes: Seq<Seq<(Seq<char>, CellLayout)>>,
    /// Whether the program holds what cannot be emitted.
    pub fault: bool,
}

/// What stays the same throughout a program.
pub struct Env {
    /// The bindings of the program.
    pub vars: Seq<(Seq<char>, CellLayout)>,
    /// The functions of the program.
    pub fns: Seq<Fun>,
}

/// The function with a name, among the first `n`; a later one hides an
/// earlier one.
pub open spec fn fn_named(fns: Seq<Fun>, name: Seq<char>, n: int) -> Option<int>
    decreases n,
{
    if n <= 0 {
        None
    } else if fns[n - 1].name == name {
        Some(n - 1)
    } else {
        fn_named(fns, name, n - 1)
    }
}

/// The binding of a name in the innermost of the first `n` scopes that has
/// it, or else in the program.
pub open spec fn in_scopes(
    scopes: Seq<Seq<(Seq<char>, CellLayout)>>,
    vars: Seq<(Seq<char>, CellLayout)>,
    name: Seq<char>,
    n: int,
) -> Option<CellLayout>
    decreases n,
{
    if n <= 0 {
        binding(vars, name)
    } else {
        match binding(scopes[n - 1], name) {
            Some(l) => Some(l),
            None => in_scopes(scopes, vars, name, n - 1),
        }
    }
}

/// The value that an argument has, or the array that it names.
pub enum Arg {
    /// The cells of a value: first cell and number.
    Value(int, int),
    /// An array.
    Alias(CellLayout),
}

/// Where a value of an array type lies inside a function: one element after
/// the other.
pub open spec fn local_cells(base: int, ty: TypeAnn) -> CellLayout {
    match ty {
        TypeAnn::Scalar(st) => scalar_cells(base, st),
        TypeAnn::Array(st, len) => CellLayout {
            base: base as u128,
            width: (st.cells() * len) as u128,
            ty: st,
            array_len: Some(len as u128),
            layout: ArrayLayout::Linear,
        },
    }
}

/// Number of groups of 256 chunks.
pub open spec fn groups_of(num_chunks: int) -> int {
    (num_chunks + 255) / 256
}

/// The name of a function's return value; no variable can be called so.
pub open spec fn ret_slot() -> Seq<char> {
    "$ret"@
}

/// Whether a name is the return value's or a parameter's.
pub open spec fn is_passed(params: Seq<(Seq<char>, TypeAnn)>, name: Seq<char>) -> bool {
    name == ret_slot() || exists|k: int| 0 <= k < params.len() && (#[trigger] params[k]).0 == name
}

impl Bf {
    /// Give the cells of a list of values back.
    pub open spec fn free_values(self, cells: Seq<(int, int)>, i: int) -> Bf
        decreases cells.len() - i,
    {
        if i < 0 || i >= cells.len() {
            self
        } else {
            self.tfree_n(cells[i].0, cells[i].1).free_values(cells, i + 1)
        }
    }

    /// Give the cells of the local variables of a call back.
    pub open spec fn free_locals(
        self,
        frame: Seq<(Seq<char>, CellLayout)>,
        params: Seq<(Seq<char>, TypeAnn)>,
        i: int,
    ) -> Bf
        decreases frame.len() - i,
    {
        if i < 0 || i >= frame.len() {
            self
        } else if is_passed(params, frame[i].0) {
            self.free_locals(frame, params, i + 1)
        } else {
            self.tfree_n(frame[i].1.base as int, frame[i].1.width as int).free_locals(
                frame,
                params,
                i + 1,
            )
        }
    }

    /// A new byte with whether the value is not 0, in place of the value where
    /// it is wider.
    pub open spec fn truth(self, r: int, w: int) -> (Bf, int) {
        if w > 1 {
            let (bf, nz) = self.is_nz_n(r, w);
            (bf.tfree_n(r, w), nz)
        } else {
            (self, r)
        }
    }

    /// Move a value into a variable; the value's cells are free.
    pub open spec fn store(self, v: int, vw: int, l: CellLayout) -> Bf {
        let (bf, v) = self.widened(v, vw, l.width as int);
        bf.bfmove_n(v, l.base as int, l.width as int).tfree_n(v, l.width as int)
    }
}

impl Cg {
    /// The state with another emitter state.
    pub open spec fn with(self, bf: Bf) -> Cg {
        Cg { bf, ..self }
    }

    /// The state once something cannot be emitted.
    pub open spec fn failed(self) -> Cg {
        Cg { fault: true, ..self }
    }

    /// Where a name lies; a fault where it is not bound.
    pub open spec fn resolved(self, env: Env, name: Seq<char>) -> (Cg, CellLayout) {
        match in_scopes(self.scopes, env.vars, name, self.scopes.len() as int) {
            Some(l) => (self, l),
            None => (self.failed(), scalar_cells(0, ScalarType::U8)),
        }
    }

    /// Bind a name in the innermost scope.
    pub open spec fn bind_local(self, name: Seq<char>, l: CellLayout) -> Cg {
        let n = self.scopes.len() - 1;
        Cg { scopes: self.scopes.update(n, bound(self.scopes[n], name, l)), ..self }
    }

    /// The value of an expression: its first cell and its number of cells.
    pub open spec fn expr(self, env: Env, fuel: nat, e: Ex) -> (Cg, int, int)
        decreases fuel, 0int, e, 0int,
    {
        match e {
            Ex::Int(n) => {
                let w: int = if n < 256 {
                    1
                } else if n < 65536 {
                    2
                } else {
                    4
                };
                let (bf, t) = self.bf.talloc_n(w);
                (self.with(bf.set_const_n(t, n % 0x1_0000_0000, w)), t, w)
            },
            Ex::Var(name) => {
                let (cg, l) = self.resolved(env, name);
                let w = l.width as int;
                let (bf, t) = cg.bf.talloc_n(w);
                (cg.with(bf.copy_n(l.base as int, t, w)), t, w)
            },
            Ex::Index(name, idx) => {
                let (cg, l) = self.resolved(env, name);
                cg.element(env, fuel, l, *idx)
            },
            Ex::Call(name, args) => {
                let (cg, r) = self.call(env, fuel, name, args);
                match r {
                    Some((base, w)) => (cg, base, w),
                    None => (cg.failed(), 0, 1),
                }
            },
            Ex::BinOp(op, left, right) => {
                let (cg, a, aw) = self.expr(env, fuel, *left);
                let (cg, b, bw) = cg.expr(env, fuel, *right);
                let (bf, r, w) = cg.bf.binop_w(op, a, aw, b, bw);
                (cg.with(bf), r, w)
            },
            Ex::UnOp(UnOp::Neg, inner) => {
                let (cg, t, w) = self.expr(env, fuel, *inner);
                let (bf, zero) = cg.bf.talloc_n(w);
                let bf = bf.clear_range(zero, 0, w);
                (cg.with(bf.sub_n(zero, t, w)), zero, w)
            },
            Ex::UnOp(UnOp::Not, inner) => {
                let (cg, t, w) = self.expr(env, fuel, *inner);
                let (bf, nz) = cg.bf.is_nz_n(t, w);
                let bf = bf.tfree_n(t, w);
                let (bf, r) = bf.negate(nz);
                (cg.with(bf), r, 1)
            },
        }
    }

    /// The value of an expression in `w` cells.
    pub open spec fn expr_w(self, env: Env, fuel: nat, e: Ex, w: int) -> (Cg, int)
        decreases fuel, 0int, e, 1int,
    {
        let (cg, base, ew) = self.expr(env, fuel, e);
        let (bf, r) = cg.bf.resized(base, ew, w);
        (cg.with(bf), r)
    }

    /// The value of an expression as a byte.
    pub open spec fn expr_1(self, env: Env, fuel: nat, e: Ex) -> (Cg, int)
        decreases fuel, 0int, e, 1int,
    {
        let (cg, base, w) = self.expr(env, fuel, e);
        let (bf, r) = cg.bf.as_byte(base, w);
        (cg.with(bf), r)
    }

    /// The value of an array element.
    pub open spec fn element(self, env: Env, fuel: nat, l: CellLayout, idx: Ex) -> (Cg, int, int)
        decreases fuel, 0int, idx, 2int,
    {
        let base = l.base as int;
        match l.layout {
            ArrayLayout::Walk { chunk_size, num_chunks } => {
                let (bf, result) = self.bf.talloc();
                let cg = self.with(bf.clear(result));
                let groups = groups_of(num_chunks as int);
                if num_chunks == 1 {
                    let (cg, i) = cg.expr_w(env, fuel, idx, 1);
                    (cg.with(cg.bf.walk_read_chunk(base, i, result)), result, 1)
                } else if groups > 256 {
                    (cg.failed(), result, 1)
                } else if groups == 1 {
                    let (cg, i) = cg.expr_w(env, fuel, idx, 2);
                    (cg.with(cg.bf.read_chunks(base, i, chunk_size as int, result)), result, 1)
                } else {
                    let (cg, i) = cg.expr_w(env, fuel, idx, 3);
                    (cg.with(cg.bf.read_groups(base, i, chunk_size as int, result)), result, 1)
                }
            },
            ArrayLayout::Linear => {
                let n = l.elements();
                let ew = l.ty.cells();
                let (bf, result) = self.bf.talloc_n(ew);
                let cg = self.with(bf.clear_range(result, 0, ew));
                if n > 256 {
                    let (cg, i) = cg.expr_w(env, fuel, idx, 2);
                    let (bf, ti) = cg.bf.talloc_n(2);
                    let bf = bf.copy_n(i, ti, 2);
                    let bf = bf.read_all_counted(ti, base, 0, n, ew, result);
                    let bf = bf.clear_range(ti, 0, 2);
                    let bf = bf.tfree_n(ti, 2);
                    (cg.with(bf.tfree_n(i, 2)), result, ew)
                } else {
                    let (cg, i) = cg.expr_1(env, fuel, idx);
                    let bf = cg.bf.read_all(i, base, 0, n, ew, result);
                    (cg.with(bf.tfree(i)), result, ew)
                }
            },
        }
    }

    /// Move a value into an array element; the value's cells are free.
    pub open spec fn set_element(
        self,
        env: Env,
        fuel: nat,
        l: CellLayout,
        idx: Ex,
        val: int,
        val_w: int,
    ) -> Cg
        decreases fuel, 0int, idx, 2int,
    {
        let base = l.base as int;
        match l.layout {
            ArrayLayout::Walk { chunk_size, num_chunks } => {
                let (bf, v) = self.bf.store_byte(val, val_w);
                let cg = self.with(bf);
                let groups = groups_of(num_chunks as int);
                if num_chunks == 1 {
                    let (cg, i) = cg.expr_w(env, fuel, idx, 1);
                    cg.with(cg.bf.walk_write_chunk(base, i, v))
                } else if groups > 256 {
                    cg.failed()
                } else if groups == 1 {
                    let (cg, i) = cg.expr_w(env, fuel, idx, 2);
                    cg.with(cg.bf.write_chunks(base, i, chunk_size as int, v))
                } else {
                    let (cg, i) = cg.expr_w(env, fuel, idx, 3);
                    cg.with(cg.bf.write_groups(base, i, chunk_size as int, v))
                }
            },
            ArrayLayout::Linear => {
                let n = l.elements();
                let ew = l.ty.cells();
                let (bf, v) = self.bf.widened(val, val_w, ew);
                let cg = self.with(bf);
                if n > 256 {
                    let (cg, i) = cg.expr_w(env, fuel, idx, 2);
                    let (bf, ti) = cg.bf.talloc_n(2);
                    let bf = bf.copy_n(i, ti, 2);
                    let bf = bf.write_all_counted(ti, base, 0, n, ew, v);
                    let bf = bf.clear_range(ti, 0, 2);
                    let bf = bf.tfree_n(ti, 2);
                    let bf = bf.tfree_n(i, 2);
                    cg.with(bf.tfree_n(v, ew))
                } else {
                    let (cg, i) = cg.expr_1(env, fuel, idx);
                    let bf = cg.bf.write_all(i, base, 0, n, ew, v);
                    let bf = bf.tfree(i);
                    cg.with(bf.tfree_n(v, ew))
                }
            },
        }
    }

    /// The arguments of a call from `i` on, behind those before.
    pub open spec fn args(
        self,
        env: Env,
        fuel: nat,
        params: Seq<(Seq<char>, TypeAnn)>,
        args: Seq<Ex>,
        i: int,
        done: Seq<Arg>,
    ) -> (Cg, Seq<Arg>)
        decreases fuel, 0int, args, args.len() - i,
    {
        if i < 0 || i >= args.len() || i >= params.len() {
            (self, done)
        } else {
            match params[i].1 {
                TypeAnn::Scalar(_) => {
                    let (cg, v, vw) = self.expr(env, fuel, args[i]);
                    cg.args(env, fuel, params, args, i + 1, done.push(Arg::Value(v, vw)))
                },
                TypeAnn::Array(_, _) => {
                    let (cg, l) = match args[i] {
                        Ex::Var(name) => self.resolved(env, name),
                        _ => (self.failed(), scalar_cells(0, ScalarType::U8)),
                    };
                    cg.args(env, fuel, params, args, i + 1, done.push(Arg::Alias(l)))
                },
            }
        }
    }

    /// Bind the parameters from `i` on to the arguments: values move into
    /// cells of their own, arrays are shared.
    pub open spec fn params(
        self,
        params: Seq<(Seq<char>, TypeAnn)>,
        args: Seq<Arg>,
        i: int,
        scope: Seq<(Seq<char>, CellLayout)>,
        cells: Seq<(int, int)>,
    ) -> (Cg, Seq<(Seq<char>, CellLayout)>, Seq<(int, int)>)
        decreases params.len() - i,
    {
        if i < 0 || i >= params.len() {
            (self, scope, cells)
        } else if i >= args.len() {
            (self.failed(), scope, cells)
        } else {
            let name = params[i].0;
            match args[i] {
                Arg::Value(v, vw) => {
                    let st = match params[i].1 {
                        TypeAnn::Scalar(st) => st,
                        TypeAnn::Array(st, _) => st,
                    };
                    let w = st.cells();
                    let (bf, base) = self.bf.talloc_n(w);
                    let bf = bf.clear_range(base, 0, w);
                    let l = scalar_cells(base, st);
                    self.with(bf.store(v, vw, l)).params(
                        params,
                        args,
                        i + 1,
                        bound(scope, name, l),
                        cells.push((base, w)),
                    )
                },
                Arg::Alias(l) => self.params(params, args, i + 1, bound(scope, name, l), cells),
            }
        }
    }

    /// Expand a call; gives the cells of the return value, if there is one.
    pub open spec fn call(self, env: Env, fuel: nat, name: Seq<char>, args: Seq<Ex>) -> (
        Cg,
        Option<(int, int)>,
    )
        decreases fuel, 0int, args, args.len() + 1,
    {
        match fn_named(env.fns, name, env.fns.len() as int) {
            None => (self.failed(), None),
            Some(k) => {
                let f = env.fns[k];
                if fuel == 0 {
                    (self.failed(), None)
                } else {
                    let (cg, vals) = self.args(env, fuel, f.params, args, 0, Seq::empty());
                    let (cg, scope, cells) = cg.params(
                        f.params,
                        vals,
                        0,
                        Seq::empty(),
                        Seq::empty(),
                    );
                    let (cg, scope, ret) = match f.ret_ty {
                        None => (cg, scope, None),
                        Some(rt) => {
                            let w = rt.cells();
                            let (bf, base) = cg.bf.talloc_n(w);
                            (
                                cg.with(bf.clear_range(base, 0, w)),
                                bound(scope, ret_slot(), scalar_cells(base, rt)),
                                Some((base, w)),
                            )
                        },
                    };
                    let cg = Cg { scopes: cg.scopes.push(scope), ..cg };
                    let cg = cg.stmts(env, (fuel - 1) as nat, f.body, 0);
                    let frame = if cg.scopes.len() > 0 {
                        cg.scopes.last()
                    } else {
                        Seq::empty()
                    };
                    let scopes = if cg.scopes.len() > 0 {
                        cg.scopes.drop_last()
                    } else {
                        cg.scopes
                    };
                    let bf = cg.bf.free_values(cells, 0).free_locals(frame, f.params, 0);
                    (Cg { bf, scopes, ..cg }, ret)
                }
            },
        }
    }

    /// Store the value of an expression in a variable.
    pub open spec fn assign(self, env: Env, fuel: nat, l: CellLayout, e: Ex) -> Cg
        decreases fuel, 0int, e, 1int,
    {
        let (cg, v, vw) = self.expr(env, fuel, e);
        cg.with(cg.bf.store(v, vw, l))
    }

    /// Declare a variable: inside a function it takes new cells, else its
    /// cells are known.
    pub open spec fn declared(self, env: Env, name: Seq<char>, ty: TypeAnn) -> (Cg, CellLayout) {
        if self.scopes.len() > 0 {
            let width = local_cells(0, ty).width as int;
            let (bf, base) = self.bf.talloc_n(width);
            let l = local_cells(base, ty);
            (self.with(bf.clear_range(base, 0, width)).bind_local(name, l), l)
        } else {
            self.resolved(env, name)
        }
    }

    /// A condition as a byte in the cell `cc`, with the cells in use as they
    /// were.
    pub open spec fn condition(self, env: Env, fuel: nat, cond: Ex, cc: int, again: bool) -> Cg
        decreases fuel, 0int, cond, 1int,
    {
        let (cg, r, w) = self.expr(env, fuel, cond);
        let (bf, v) = cg.bf.truth(r, w);
        let bf = if again {
            bf.clear(cc)
        } else {
            bf
        };
        cg.with(bf.bfmove(v, cc).tfree(v))
    }

    /// The statements from `i` on.
    pub open spec fn stmts(self, env: Env, fuel: nat, ss: Seq<Sm>, i: int) -> Cg
        decreases fuel, 1int, ss, ss.len() - i,
    {
        if i < 0 || i >= ss.len() {
            self
        } else {
            self.stmt(env, fuel, ss[i]).stmts(env, fuel, ss, i + 1)
        }
    }

    /// A loop.
    pub open spec fn while_loop(self, env: Env, fuel: nat, cond: Ex, body: Seq<Sm>) -> Cg
        decreases fuel, 1int, body, body.len() + 1,
    {
        let (bf, cc) = self.bf.talloc();
        let bf = bf.clear(cc);
        let saved = bf.used;
        let cg = self.with(bf).condition(env, fuel, cond, cc, false);
        let bf = cg.bf.trestore(saved).reserve(cc);
        let bf = bf.goto(cc).raw("["@);
        let cg = cg.with(bf).stmts(env, fuel, body, 0);
        let saved = cg.bf.used;
        let cg = cg.condition(env, fuel, cond, cc, true);
        let bf = cg.bf.trestore(saved).reserve(cc);
        let bf = bf.goto(cc).raw("]"@);
        cg.with(bf.tfree(cc))
    }

    /// A choice.
    pub open spec fn choice(self, env: Env, fuel: nat, s: Sm) -> Cg
        decreases fuel, 1int, s, 0int,
    {
        match s {
            Sm::If(cond, then_, else_) => {
                let saved = self.bf.used;
                let (bf, cc) = self.bf.talloc();
                let (bf, ef) = bf.talloc();
                let bf = bf.clear(cc);
                let cg = self.with(bf).condition(env, fuel, cond, cc, false);
                let bf = cg.bf.trestore(saved).reserve(cc).reserve(ef);
                let bf = bf.setv(ef, 1);
                let bf = bf.goto(cc).raw("["@);
                let bf = bf.clear(ef);
                let cg = cg.with(bf).stmts(env, fuel, then_, 0);
                let bf = cg.bf.clear(cc).goto(cc).raw("]"@);
                let cg = cg.with(bf);
                let cg = match else_ {
                    Some(block) => {
                        let bf = cg.bf.goto(ef).raw("["@);
                        let cg = cg.with(bf).stmts(env, fuel, block, 0);
                        cg.with(cg.bf.clear(ef).goto(ef).raw("]"@))
                    },
                    None => cg,
                };
                cg.with(cg.bf.tfree(ef).tfree(cc))
            },
            _ => self,
        }
    }

    /// A statement.
    pub open spec fn stmt(self, env: Env, fuel: nat, s: Sm) -> Cg
        decreases fuel, 1int, s, 1int,
    {
        match s {
            Sm::Let(name, ty, init) => {
                let (cg, l) = self.declared(env, name, ty);
                match init {
                    Some(e) => cg.assign(env, fuel, l, e),
                    None => cg,
                }
            },
            Sm::Assign(Lv::Var(name), e) => {
                let (cg, l) = self.resolved(env, name);
                cg.assign(env, fuel, l, e)
            },
            Sm::Assign(Lv::Index(name, idx), e) => {
                let (cg, l) = self.resolved(env, name);
                let (cg, v, vw) = cg.expr(env, fuel, e);
                cg.set_element(env, fuel, l, idx, v, vw)
            },
            Sm::While(cond, body) => self.while_loop(env, fuel, cond, body),
            Sm::If(_, _, _) => self.choice(env, fuel, s),
            Sm::Print(e) => {
                let (cg, v, vw) = self.expr(env, fuel, e);
                let bf = if vw == 1 {
                    cg.bf.print_num(v).tfree(v)
                } else {
                    cg.bf.print_num_n(v, vw).tfree_n(v, vw)
                };
                let (bf, sp) = bf.talloc();
                cg.with(bf.setv(sp, 32).out_cell(sp).tfree(sp))
            },
            Sm::Putchar(e) => {
                let (cg, v) = self.expr_1(env, fuel, e);
                cg.with(cg.bf.out_cell(v).tfree(v))
            },
            Sm::Setpixel(x, y, color) => {
                let (cg, xc) = self.expr_1(env, fuel, x);
                let (cg, yc) = cg.expr_1(env, fuel, y);
                let (cg, cc) = cg.expr_1(env, fuel, color);
                let (bf, cmd) = cg.bf.talloc();
                let bf = bf.setv(cmd, 0xFE).out_cell(cmd).tfree(cmd);
                let bf = bf.out_cell(xc).tfree(xc);
                let bf = bf.out_cell(yc).tfree(yc);
                cg.with(bf.out_cell(cc).tfree(cc))
            },
            Sm::Getchar(Lv::Var(name)) => {
                let (cg, l) = self.resolved(env, name);
                cg.with(cg.bf.inp(l.base as int).clear_range(l.base as int, 1, l.width as int))
            },
            Sm::Getchar(Lv::Index(name, idx)) => {
                let (cg, l) = self.resolved(env, name);
                let ew = l.ty.cells();
                let (bf, t) = cg.bf.talloc_n(ew);
                cg.with(bf.inp(t).clear_range(t, 1, ew)).set_element(env, fuel, l, idx, t, ew)
            },
            Sm::Call(name, args) => {
                let (cg, r) = self.call(env, fuel, name, args);
                match r {
                    Some((base, w)) => cg.with(cg.bf.tfree_n(base, w)),
                    None => cg,
                }
            },
            Sm::Return(Some(e)) => {
                let (cg, l) = self.resolved(env, ret_slot());
                cg.assign(env, fuel, l, e)
            },
            Sm::Return(None) => self,
            Sm::Scan(Lv::Var(name)) => {
                let (cg, l) = self.resolved(env, name);
                cg.with(cg.bf.scan_num_n(l.base as int, l.width as int))
            },
            Sm::Scan(Lv::Index(name, idx)) => {
                let (cg, l) = self.resolved(env, name);
                let ew = l.ty.cells();
                let (bf, t) = cg.bf.talloc_n(ew);
                cg.with(bf.scan_num_n(t, ew)).set_element(env, fuel, l, idx, t, ew)
            },
        }
    }
}

/// The Brainfuck of a program, or nothing where it cannot be emitted.
pub open spec fn emitted(
    top: Seq<Sm>,
    fns: Seq<Fun>,
    vars: Seq<(Seq<char>, CellLayout)>,
    temp_base: int,
) -> Option<Seq<char>> {
    let start = Cg { bf: Bf::start(temp_base), scopes: Seq::empty(), fault: false };
    let end = start.stmts(Env { vars, fns }, fns.len(), top, 0);
    if end.fault {
        None
    } else {
        Some(end.bf.out)
    }
}

/// The value that an argument has, or the array that it names.
enum ArgCells {
    Value(u128, u128),
    Alias(CellLayout),
}

spec fn arg_view(a: ArgCells) -> Arg {
    match a {
        ArgCells::Value(v, w) => Arg::Value(v as int, w as int),
        ArgCells::Alias(l) => Arg::Alias(l),
    }
}

spec fn args_view(args: Seq<ArgCells>) -> Seq<Arg> {
    Seq::new(args.len(), |i: int| arg_view(args[i]))
}

spec fn args_ok(args: Seq<ArgCells>) -> bool {
    forall|i: int|
        0 <= i < args.len() ==> match #[trigger] args[i] {
            ArgCells::Value(v, w) => block(v as int, w as int),
            ArgCells::Alias(l) => cells_ok(l, CELL_LIMIT as int),
        }
}

spec fn values_view(cells: Seq<(u128, u128)>) -> Seq<(int, int)> {
    Seq::new(cells.len(), |i: int| (cells[i].0 as int, cells[i].1 as int))
}

spec fn values_ok(cells: Seq<(u128, u128)>) -> bool {
    forall|i: int|
        0 <= i < cells.len() ==> block(
            (#[trigger] cells[i]).0 as int,
            cells[i].1 as int,
        )
}

spec fn scopes_view(scopes: Seq<Vec<(String, CellLayout)>>) -> Seq<Seq<(Seq<char>, CellLayout)>> {
    Seq::new(scopes.len(), |i: int| bindings_view(scopes[i]@))
}

/// What a name is bound to lies in range.
proof fn lemma_binding_ok(vars: Seq<(Seq<char>, CellLayout)>, name: Seq<char>, limit: int)
    requires
        bindings_ok(vars, limit),
        binding(vars, name) is Some,
    ensures
        cells_ok(binding(vars, name)->Some_0, limit),
{
    lemma_index_of_name(vars, name, 0);
    let i = index_of_name(vars, name, 0);
    assert(cells_ok(vars[i].1, limit));
}

proof fn lemma_bound_ok(
    vars: Seq<(Seq<char>, CellLayout)>,
    name: Seq<char>,
    l: CellLayout,
    limit: int,
)
    requires
        bindings_ok(vars, limit),
        cells_ok(l, limit),
    ensures
        bindings_ok(bound(vars, name, l), limit),
{
    lemma_index_of_name(vars, name, 0);
    let all = bound(vars, name, l);
    assert forall|i: int| 0 <= i < all.len() implies cells_ok((#[trigger] all[i]).1, limit) by {
        if i < vars.len() {
            assert(cells_ok(vars[i].1, limit));
        }
    }
}

/// Generates the Brainfuck of a program.
struct Codegen<'a> {
    bf: BfEmitter,
    layout: &'a MemMap,
    fns: &'a Vec<FnDef>,
    scopes: Vec<Vec<(String, CellLayout)>>,
    fault: bool,
}

impl<'a> View for Codegen<'a> {
    type V = Cg;

    closed spec fn view(&self) -> Cg {
        Cg { bf: self.bf@, scopes: scopes_view(self.scopes@), fault: self.fault }
    }
}

impl<'a> Codegen<'a> {
    closed spec fn env(self) -> Env {
        Env { vars: self.layout.bindings(), fns: fns_view(self.fns@) }
    }

    closed spec fn wf(self) -> bool {
        &&& self.bf.wf()
        &&& self.layout.wf()
        &&& forall|i: int|
            0 <= i < self.scopes@.len() ==> bindings_ok(
                bindings_view((#[trigger] self.scopes@[i])@),
                CELL_LIMIT as int,
            )
    }

    fn new(layout: &'a MemMap, fns: &'a Vec<FnDef>) -> (g: Self)
        requires
            layout.wf(),
        ensures
            g.wf(),
            g.env() == (Env { vars: layout.bindings(), fns: fns_view(fns@) }),
            g@ == (Cg {
                bf: Bf::start(layout.temp_base as int),
                scopes: Seq::empty(),
                fault: false,
            }),
    {
        let g = Codegen {
            bf: BfEmitter::new(layout.temp_base),
            layout,
            fns,
            scopes: Vec::new(),
            fault: false,
        };
        assert(scopes_view(g.scopes@) =~= Seq::<Seq<(Seq<char>, CellLayout)>>::empty());
        g
    }

    /// Where a name lies.
    fn lookup(&self, name: &str) -> (r: Option<CellLayout>)
        requires
            self.wf(),
        ensures
            r == in_scopes(self@.scopes, self.env().vars, name@, self@.scopes.len() as int),
            r matches Some(l) ==> cells_ok(l, CELL_LIMIT as int),
    {
        let ghost scopes = self@.scopes;
        let ghost vars = self.env().vars;
        let mut n: usize = self.scopes.len();
        while n > 0
            invariant
                self.wf(),
                n <= self.scopes@.len(),
                scopes == scopes_view(self.scopes@),
                vars == self.env().vars,
                in_scopes(scopes, vars, name@, scopes.len() as int) == in_scopes(
                    scopes,
                    vars,
                    name@,
                    n as int,
                ),
            decreases n,
        {
            assert(scopes[n - 1] == bindings_view(self.scopes@[n - 1]@));
            match find_binding(&self.scopes[n - 1], name) {
                Some(l) => {
                    proof {
                        lemma_binding_ok(scopes[n - 1], name@, CELL_LIMIT as int);
                    }
                    return Some(l);
                },
                None => {},
            }
            n -= 1;
        }
        let r = self.layout.get(name);
        proof {
            if r is Some {
                lemma_binding_ok(vars, name@, self.layout.temp_base as int);
            }
        }
        r
    }

    /// Where a name lies; a fault where it is not bound.
    fn resolve(&mut self, name: &str) -> (l: CellLayout)
        requires
            old(self).wf(),
        ensures
            final(self).wf(),
            final(self).env() == old(self).env(),
            (final(self)@, l) == old(self)@.resolved(old(self).env(), name@),
            cells_ok(l, CELL_LIMIT as int),
    {
        match self.lookup(name) {
            Some(l) => l,
            None => {
                self.fault = true;
                CellLayout {
                    base: 0,
                    width: 1,
                    ty: ScalarType::U8,
                    array_len: None,
                    layout: ArrayLayout::Linear,
                }
            },
        }
    }

    fn find_fn(&self, name: &str) -> (r: Option<usize>)
        ensures
            match fn_named(self.env().fns, name@, self.env().fns.len() as int) {
                Some(k) => r == Some(k as usize) && 0 <= k < self.fns@.len() <= usize::MAX,
                None => r is None,
            },
    {
        let ghost fns = self.env().fns;
        assert(self.fns.len() <= usize::MAX);
        let mut n: usize = self.fns.len();
        while n > 0
            invariant
                n <= self.fns@.len() <= usize::MAX,
                fns == fns_view(self.fns@),
                fn_named(fns, name@, fns.len() as int) == fn_named(fns, name@, n as int),
            decreases n,
        {
            assert(fns[n - 1] == fn_view(self.fns@[n - 1]));
            if same_text(self.fns[n - 1].name.as_str(), name) {
                return Some(n - 1);
            }
            n -= 1;
        }
        None
    }

    /// The value of an expression: its first cell and its number of cells.
    fn eval_expr(&mut self, fuel: usize, expr: &Expr) -> (r: (u128, u128))
        requires
            old(self).wf(),
        ensures
            final(self).wf(),
            final(self).env() == old(self).env(),
            (final(self)@, r.0 as int, r.1 as int) == old(self)@.expr(
                old(self).env(),
                fuel as nat,
                expr_view(*expr),
            ),
            block(r.0 as int, r.1 as int),
        decreases fuel, 0int, expr, 0int,
    {
        match expr {
            Expr::Int(n) => {
                let w: u128 = if *n < 256 {
                    1
                } else if *n < 65536 {
                    2
                } else {
                    4
                };
                let t = self.bf.talloc_n(w);
                self.bf.set_const_n(t, (*n % 0x1_0000_0000) as u32, w);
                (t, w)
            },
            Expr::Var(name) => {
                let l = self.resolve(name.as_str());
                let t = self.bf.talloc_n(l.width);
                self.bf.copy_n(l.base, t, l.width);
                (t, l.width)
            },
            Expr::Index(name, idx) => {
                let l = self.resolve(name.as_str());
                self.arr_read(fuel, l, idx)
            },
            Expr::Call(name, args) => {
                match self.inline_call(fuel, name.as_str(), args) {
                    Some((base, w)) => (base, w),
                    None => {
                        self.fault = true;
                        (0, 1)
                    },
                }
            },
            Expr::BinOp(op, left, right) => {
                let (a, aw) = self.eval_expr(fuel, left);
                let (b, bw) = self.eval_expr(fuel, right);
                self.bf.eval_binop_w(*op, a, aw, b, bw)
            },
            Expr::UnOp(UnOp::Neg, inner) => {
                let (t, w) = self.eval_expr(fuel, inner);
                let zero = self.bf.talloc_n(w);
                self.bf.clear_range(zero, 0, w);
                self.bf.sub_n(zero, t, w);
                (zero, w)
            },
            Expr::UnOp(UnOp::Not, inner) => {
                let (t, w) = self.eval_expr(fuel, inner);
                let nz = self.bf.is_nz_n(t, w);
                self.bf.tfree_n(t, w);
                let r = self.bf.negate(nz);
                (r, 1)
            },
        }
    }

    /// The value of an expression in `w` cells.
    fn eval_expr_w(&mut self, fuel: usize, expr: &Expr, w: u128) -> (r: u128)
        requires
            old(self).wf(),
            w <= CELL_LIMIT,
        ensures
            final(self).wf(),
            final(self).env() == old(self).env(),
            (final(self)@, r as int) == old(self)@.expr_w(
                old(self).env(),
                fuel as nat,
                expr_view(*expr),
                w as int,
            ),
            r <= CELL_LIMIT,
        decreases fuel, 0int, expr, 1int,
    {
        let (base, ew) = self.eval_expr(fuel, expr);
        self.bf.resized(base, ew, w)
    }

    /// The value of an expression as a byte.
    fn eval_expr_1(&mut self, fuel: usize, expr: &Expr) -> (r: u128)
        requires
            old(self).wf(),
        ensures
            final(self).wf(),
            final(self).env() == old(self).env(),
            (final(self)@, r as int) == old(self)@.expr_1(
                old(self).env(),
                fuel as nat,
                expr_view(*expr),
            ),
            r <= CELL_LIMIT,
        decreases fuel, 0int, expr, 1int,
    {
        let (base, w) = self.eval_expr(fuel, expr);
        self.bf.as_byte(base, w)
    }

    /// The value of an array element.
    fn arr_read(&mut self, fuel: usize, l: CellLayout, idx: &Expr) -> (r: (u128, u128))
        requires
            old(self).wf(),
            cells_ok(l, CELL_LIMIT as int),
        ensures
            final(self).wf(),
            final(self).env() == old(self).env(),
            (final(self)@, r.0 as int, r.1 as int) == old(self)@.element(
                old(self).env(),
                fuel as nat,
                l,
                expr_view(*idx),
            ),
            block(r.0 as int, r.1 as int),
        decreases fuel, 0int, idx, 2int,
    {
        match l.layout {
            ArrayLayout::Walk { chunk_size, num_chunks } => {
                let result = self.bf.talloc();
                self.bf.clear(result);
                if num_chunks == 1 {
                    let i = self.eval_expr_w(fuel, idx, 1);
                    self.bf.walk_read_chunk(l.base, i, result);
                    return (result, 1);
                }
                assert(num_chunks <= CELL_LIMIT) by (nonlinear_arith)
                    requires
                        num_chunks * (4 * chunk_size + 5) <= CELL_LIMIT,
                        chunk_size >= 0,
                ;
                let groups = (num_chunks + 255) / 256;
                if groups > 256 {
                    self.fault = true;
                } else if groups == 1 {
                    let i = self.eval_expr_w(fuel, idx, 2);
                    self.bf.read_chunks(l.base, i, chunk_size, result);
                } else {
                    let i = self.eval_expr_w(fuel, idx, 3);
                    self.bf.read_groups(l.base, i, chunk_size, result);
                }
                (result, 1)
            },
            ArrayLayout::Linear => {
                let n = l.array_len();
                let ew = l.elem_width();
                let result = self.bf.talloc_n(ew);
                self.bf.clear_range(result, 0, ew);
                if n > 256 {
                    let i = self.eval_expr_w(fuel, idx, 2);
                    let ti = self.bf.talloc_n(2);
                    self.bf.copy_n(i, ti, 2);
                    self.bf.read_all_counted(ti, l.base, n, ew, result);
                    self.bf.clear_range(ti, 0, 2);
                    self.bf.tfree_n(ti, 2);
                    self.bf.tfree_n(i, 2);
                } else {
                    let i = self.eval_expr_1(fuel, idx);
                    self.bf.read_all(i, l.base, n, ew, result);
                    self.bf.tfree(i);
                }
                (result, ew)
            },
        }
    }

    /// Move a value into an array element; the value's cells are free.
    fn arr_write(&mut self, fuel: usize, l: CellLayout, idx: &Expr, val: u128, val_w: u128)
        requires
            old(self).wf(),
            cells_ok(l, CELL_LIMIT as int),
            block(val as int, val_w as int),
        ensures
            final(self).wf(),
            final(self).env() == old(self).env(),
            final(self)@ == old(self)@.set_element(
                old(self).env(),
                fuel as nat,
                l,
                expr_view(*idx),
                val as int,
                val_w as int,
            ),
        decreases fuel, 0int, idx, 2int,
    {
        match l.layout {
            ArrayLayout::Walk { chunk_size, num_chunks } => {
                let v = self.bf.store_byte(val, val_w);
                if num_chunks == 1 {
                    let i = self.eval_expr_w(fuel, idx, 1);
                    self.bf.walk_write_chunk(l.base, i, v);
                    return ;
                }
                assert(num_chunks <= CELL_LIMIT) by (nonlinear_arith)
                    requires
                        num_chunks * (4 * chunk_size + 5) <= CELL_LIMIT,
                        chunk_size >= 0,
                ;
                let groups = (num_chunks + 255) / 256;
                if groups > 256 {
                    self.fault = true;
                } else if groups == 1 {
                    let i = self.eval_expr_w(fuel, idx, 2);
                    self.bf.write_chunks(l.base, i, chunk_size, v);
                } else {
                    let i = self.eval_expr_w(fuel, idx, 3);
                    self.bf.write_groups(l.base, i, chunk_size, v);
                }
            },
            ArrayLayout::Linear => {
                let n = l.array_len();
                let ew = l.elem_width();
                let v = self.bf.widened(val, val_w, ew);
                if n > 256 {
                    let i = self.eval_expr_w(fuel, idx, 2);
                    let ti = self.bf.talloc_n(2);
                    self.bf.copy_n(i, ti, 2);
                    self.bf.write_all_counted(ti, l.base, n, ew, v);
                    self.bf.clear_range(ti, 0, 2);
                    self.bf.tfree_n(ti, 2);
                    self.bf.tfree_n(i, 2);
                } else {
                    let i = self.eval_expr_1(fuel, idx);
                    self.bf.write_all(i, l.base, n, ew, v);
                    self.bf.tfree(i);
                }
                self.bf.tfree_n(v, ew);
            },
        }
    }

    /// The arguments of a call, evaluated in the caller's scope.
    fn eval_args(&mut self, fuel: usize, params: &Vec<Param>, args: &Vec<Expr>) -> (done: Vec<
        ArgCells,
    >)
        requires
            old(self).wf(),
        ensures
            final(self).wf(),
            final(self).env() == old(self).env(),
            (final(self)@, args_view(done@)) == old(self)@.args(
                old(self).env(),
                fuel as nat,
                params_view(params@),
                exprs_view(args@),
                0,
                Seq::empty(),
            ),
            args_ok(done@),
        decreases fuel, 0int, args, args@.len(),
    {
        let ghost env = self.env();
        let ghost pv = params_view(params@);
        let ghost av = exprs_view(args@);
        let ghost goal = self@.args(env, fuel as nat, pv, av, 0, Seq::empty());
        proof {
            lemma_exprs_index(args@);
        }
        let mut done: Vec<ArgCells> = Vec::new();
        assert(args_view(done@) =~= Seq::<Arg>::empty());
        let mut i: usize = 0;
        while i < params.len() && i < args.len()
            invariant
                self.wf(),
                self.env() == env,
                env == old(self).env(),
                i <= params@.len(),
                i <= args@.len(),
                pv == params_view(params@),
                av == exprs_view(args@),
                av.len() == args@.len(),
                forall|k: int| 0 <= k < args@.len() ==> #[trigger] av[k] == expr_view(args@[k]),
                self@.args(env, fuel as nat, pv, av, i as int, args_view(done@)) == goal,
                args_ok(done@),
            decreases args@.len() - i,
        {
            let ghost before = args_view(done@);
            assert(pv[i as int].1 == params@[i as int].ty);
            assert(av[i as int] == expr_view(args@[i as int]));
            let item = match params[i].ty {
                TypeAnn::Scalar(_) => {
                    let (v, vw) = self.eval_expr(fuel, &args[i]);
                    ArgCells::Value(v, vw)
                },
                TypeAnn::Array(_, _) => {
                    let l = match &args[i] {
                        Expr::Var(name) => self.resolve(name.as_str()),
                        _ => {
                            self.fault = true;
                            CellLayout {
                                base: 0,
                                width: 1,
                                ty: ScalarType::U8,
                                array_len: None,
                                layout: ArrayLayout::Linear,
                            }
                        },
                    };
                    ArgCells::Alias(l)
                },
            };
            done.push(item);
            assert(args_view(done@) =~= before.push(arg_view(item)));
            i += 1;
        }
        done
    }

    /// Move a value into a variable; the value's cells are free.
    fn store(&mut self, v: u128, vw: u128, l: CellLayout)
        requires
            old(self).wf(),
            block(v as int, vw as int),
            cells_ok(l, CELL_LIMIT as int),
        ensures
            final(self).wf(),
            final(self).env() == old(self).env(),
            final(self)@ == old(self)@.with(old(self)@.bf.store(v as int, vw as int, l)),
    {
        let v = self.bf.widened(v, vw, l.width);
        self.bf.bfmove_n(v, l.base, l.width);
        self.bf.tfree_n(v, l.width);
    }

    /// Bind the parameters to the arguments: values move into cells of their
    /// own, arrays are shared. Gives the scope and the cells of the values.
    fn bind_params(&mut self, params: &Vec<Param>, args: &Vec<ArgCells>) -> (r: (
        Vec<(String, CellLayout)>,
        Vec<(u128, u128)>,
    ))
        requires
            old(self).wf(),
            args_ok(args@),
        ensures
            final(self).wf(),
            final(self).env() == old(self).env(),
            (final(self)@, bindings_view(r.0@), values_view(r.1@)) == old(self)@.params(
                params_view(params@),
                args_view(args@),
                0,
                Seq::empty(),
                Seq::empty(),
            ),
            bindings_ok(bindings_view(r.0@), CELL_LIMIT as int),
            values_ok(r.1@),
    {
        let ghost pv = params_view(params@);
        let ghost av = args_view(args@);
        let ghost goal = self@.params(pv, av, 0, Seq::empty(), Seq::empty());
        let mut scope: Vec<(String, CellLayout)> = Vec::new();
        let mut cells: Vec<(u128, u128)> = Vec::new();
        assert(bindings_view(scope@) =~= Seq::<(Seq<char>, CellLayout)>::empty());
        assert(values_view(cells@) =~= Seq::<(int, int)>::empty());
        let mut i: usize = 0;
        while i < params.len()
            invariant
                self.wf(),
                self.env() == old(self).env(),
                i <= params@.len(),
                pv == params_view(params@),
                av == args_view(args@),
                args_ok(args@),
                goal == old(self)@.params(pv, av, 0, Seq::empty(), Seq::empty()),
                self@.params(
                    pv,
                    av,
                    i as int,
                    bindings_view(scope@),
                    values_view(cells@),
                ) == goal,
                bindings_ok(bindings_view(scope@), CELL_LIMIT as int),
                values_ok(cells@),
            decreases params@.len() - i,
        {
            assert(pv[i as int] == (params@[i as int].name@, params@[i as int].ty));
            if i >= args.len() {
                self.fault = true;
                return (scope, cells);
            }
            assert(av[i as int] == arg_view(args@[i as int]));
            let name = owned(params[i].name.as_str());
            match &args[i] {
                ArgCells::Value(v, vw) => {
                    let st = match params[i].ty {
                        TypeAnn::Scalar(st) => st,
                        TypeAnn::Array(st, _) => st,
                    };
                    let w = st.cell_width();
                    let base = self.bf.talloc_n(w);
                    self.bf.clear_range(base, 0, w);
                    let l = CellLayout {
                        base,
                        width: w,
                        ty: st,
                        array_len: None,
                        layout: ArrayLayout::Linear,
                    };
                    assert(l == scalar_cells(base as int, st));
                    self.store(*v, *vw, l);
                    let ghost before = values_view(cells@);
                    cells.push((base, w));
                    assert(values_view(cells@) =~= before.push((base as int, w as int)));
                    proof {
                        lemma_bound_ok(
                            bindings_view(scope@),
                            name@,
                            l,
                            CELL_LIMIT as int,
                        );
                    }
                    bind(&mut scope, name, l);
                },
                ArgCells::Alias(l) => {
                    proof {
                        lemma_bound_ok(
                            bindings_view(scope@),
                            name@,
                            *l,
                            CELL_LIMIT as int,
                        );
                    }
                    bind(&mut scope, name, *l);
                },
            }
            i += 1;
        }
        (scope, cells)
    }

    /// Give the cells of a list of values back.
    fn free_values(&mut self, cells: &Vec<(u128, u128)>)
        requires
            old(self).wf(),
            values_ok(cells@),
        ensures
            final(self).wf(),
            final(self).env() == old(self).env(),
            final(self)@ == old(self)@.with(old(self)@.bf.free_values(values_view(cells@), 0)),
    {
        let ghost cv = values_view(cells@);
        let ghost goal = self@.bf.free_values(cv, 0);
        let mut i: usize = 0;
        while i < cells.len()
            invariant
                self.wf(),
                self.env() == old(self).env(),
                self@ == old(self)@.with(self@.bf),
                i <= cells@.len(),
                cv == values_view(cells@),
                values_ok(cells@),
                self@.bf.free_values(cv, i as int) == goal,
            decreases cells@.len() - i,
        {
            let (base, w) = cells[i];
            self.bf.tfree_n(base, w);
            i += 1;
        }
    }

    /// Give the cells of the local variables of a call back.
    fn free_locals(&mut self, frame: &Vec<(String, CellLayout)>, params: &Vec<Param>)
        requires
            old(self).wf(),
            bindings_ok(bindings_view(frame@), CELL_LIMIT as int),
        ensures
            final(self).wf(),
            final(self).env() == old(self).env(),
            final(self)@ == old(self)@.with(
                old(self)@.bf.free_locals(bindings_view(frame@), params_view(params@), 0),
            ),
    {
        let ghost fv = bindings_view(frame@);
        let ghost pv = params_view(params@);
        let ghost goal = self@.bf.free_locals(fv, pv, 0);
        let mut i: usize = 0;
        while i < frame.len()
            invariant
                self.wf(),
                self.env() == old(self).env(),
                self@ == old(self)@.with(self@.bf),
                i <= frame@.len(),
                fv == bindings_view(frame@),
                pv == params_view(params@),
                bindings_ok(fv, CELL_LIMIT as int),
                self@.bf.free_locals(fv, pv, i as int) == goal,
            decreases frame@.len() - i,
        {
            assert(fv[i as int] == (frame@[i as int].0@, frame@[i as int].1));
            assert(cells_ok(fv[i as int].1, CELL_LIMIT as int));
            if !passed(params, frame[i].0.as_str()) {
                let l = frame[i].1;
                self.bf.tfree_n(l.base, l.width);
            }
            i += 1;
        }
    }

    /// Expand a call; gives the cells of the return value, if there is one.
    fn inline_call(
        &mut self,
        fuel: usize,
        name: &str,
        args: &Vec<Expr>,
    ) -> (r: Option<(u128, u128)>)
        requires
            old(self).wf(),
        ensures
            final(self).wf(),
            final(self).env() == old(self).env(),
            match r {
                Some((base, w)) => block(base as int, w as int) && (
                    final(self)@,
                    Some((base as int, w as int)),
                ) == old(self)@.call(old(self).env(), fuel as nat, name@, exprs_view(args@)),
                None => (final(self)@, None::<(int, int)>) == old(self)@.call(
                    old(self).env(),
                    fuel as nat,
                    name@,
                    exprs_view(args@),
                ),
            },
        decreases fuel, 0int, args, args@.len() + 1,
    {
        let ghost env = self.env();
        let fns = self.fns;
        let k = match self.find_fn(name) {
            None => {
                self.fault = true;
                return None;
            },
            Some(k) => k,
        };
        let def = &fns[k];
        let ghost f = fn_view(*def);
        assert(env.fns[k as int] == f);
        if fuel == 0 {
            self.fault = true;
            return None;
        }
        let vals = self.eval_args(fuel, &def.params, args);
        let (mut scope, cells) = self.bind_params(&def.params, &vals);
        let ret = match def.ret_ty {
            None => None,
            Some(rt) => {
                let w = rt.cell_width();
                let base = self.bf.talloc_n(w);
                self.bf.clear_range(base, 0, w);
                let l = CellLayout {
                    base,
                    width: w,
                    ty: rt,
                    array_len: None,
                    layout: ArrayLayout::Linear,
                };
                assert(l == scalar_cells(base as int, rt));
                proof {
                    lemma_bound_ok(bindings_view(scope@), ret_slot(), l, CELL_LIMIT as int);
                }
                bind(&mut scope, owned("$ret"), l);
                Some((base, w))
            },
        };
        let ghost before = self.scopes@;
        let ghost view = self@;
        self.scopes.push(scope);
        assert(scopes_view(self.scopes@) =~= view.scopes.push(bindings_view(scope@)));
        self.gen_stmts(fuel - 1, &def.body);
        let ghost done = self@;
        let ghost before = self.scopes@;
        let frame = match self.scopes.pop() {
            Some(frame) => {
                assert(before[before.len() - 1] == frame);
                assert(scopes_view(self.scopes@) =~= done.scopes.drop_last());
                frame
            },
            None => {
                let frame: Vec<(String, CellLayout)> = Vec::new();
                assert(bindings_view(frame@) =~= Seq::<(Seq<char>, CellLayout)>::empty());
                assert(scopes_view(self.scopes@) =~= done.scopes);
                frame
            },
        };
        self.free_values(&cells);
        self.free_locals(&frame, &def.params);
        ret
    }

    /// Store the value of an expression in a variable.
    fn assign(&mut self, fuel: usize, l: CellLayout, expr: &Expr)
        requires
            old(self).wf(),
            cells_ok(l, CELL_LIMIT as int),
        ensures
            final(self).wf(),
            final(self).env() == old(self).env(),
            final(self)@ == old(self)@.assign(
                old(self).env(),
                fuel as nat,
                l,
                expr_view(*expr),
            ),
        decreases fuel, 0int, expr, 1int,
    {
        let (v, vw) = self.eval_expr(fuel, expr);
        self.store(v, vw, l);
    }

    /// Declare a variable: inside a function it takes new cells, else its
    /// cells are known.
    fn declare(&mut self, name: &str, ty: TypeAnn) -> (l: CellLayout)
        requires
            old(self).wf(),
        ensures
            final(self).wf(),
            final(self).env() == old(self).env(),
            (final(self)@, l) == old(self)@.declared(old(self).env(), name@, ty),
            cells_ok(l, CELL_LIMIT as int),
    {
        if self.scopes.len() == 0 {
            return self.resolve(name);
        }
        let (width, array_len, st) = match ty {
            TypeAnn::Scalar(st) => (st.cell_width(), None, st),
            TypeAnn::Array(st, len) => {
                let n = len as u128;
                let ew = st.cell_width();
                assert(0 <= ew * n <= 4 * n) by (nonlinear_arith)
                    requires
                        1 <= ew <= 4,
                ;
                (ew * n, Some(n), st)
            },
        };
        assert(width == local_cells(0, ty).width);
        let base = self.bf.talloc_n(width);
        let l = CellLayout { base, width, ty: st, array_len, layout: ArrayLayout::Linear };
        assert(l == local_cells(base as int, ty));
        proof {
            if let TypeAnn::Array(t, len) = ty {
                assert(len * t.cells() == t.cells() * len) by (nonlinear_arith);
            }
        }
        self.bf.clear_range(base, 0, width);
        let ghost before = self@;
        let ghost old_scopes = self.scopes@;
        match self.scopes.pop() {
            Some(top) => {
                let mut top = top;
                proof {
                    assert(old_scopes[old_scopes.len() - 1] == top);
                    lemma_bound_ok(bindings_view(top@), name@, l, CELL_LIMIT as int);
                }
                bind(&mut top, owned(name), l);
                self.scopes.push(top);
                assert(scopes_view(self.scopes@) =~= before.bind_local(name@, l).scopes);
            },
            None => {},
        }
        l
    }

    /// A condition as a byte in the cell `cc`.
    fn condition(&mut self, fuel: usize, cond: &Expr, cc: u128, again: bool)
        requires
            old(self).wf(),
        ensures
            final(self).wf(),
            final(self).env() == old(self).env(),
            final(self)@ == old(self)@.condition(
                old(self).env(),
                fuel as nat,
                expr_view(*cond),
                cc as int,
                again,
            ),
        decreases fuel, 0int, cond, 1int,
    {
        let (r, w) = self.eval_expr(fuel, cond);
        let v = if w > 1 {
            let nz = self.bf.is_nz_n(r, w);
            self.bf.tfree_n(r, w);
            nz
        } else {
            r
        };
        if again {
            self.bf.clear(cc);
        }
        self.bf.bfmove(v, cc);
        self.bf.tfree(v);
    }

    /// A list of statements.
    fn gen_stmts(&mut self, fuel: usize, stmts: &Vec<Stmt>)
        requires
            old(self).wf(),
        ensures
            final(self).wf(),
            final(self).env() == old(self).env(),
            final(self)@ == old(self)@.stmts(
                old(self).env(),
                fuel as nat,
                stmts_view(stmts@),
                0,
            ),
        decreases fuel, 1int, stmts, stmts@.len(),
    {
        let ghost env = self.env();
        let ghost sv = stmts_view(stmts@);
        let ghost goal = self@.stmts(env, fuel as nat, sv, 0);
        proof {
            lemma_stmts_index(stmts@);
        }
        let mut i: usize = 0;
        while i < stmts.len()
            invariant
                self.wf(),
                self.env() == env,
                env == old(self).env(),
                i <= stmts@.len(),
                sv == stmts_view(stmts@),
                sv.len() == stmts@.len(),
                forall|k: int| 0 <= k < stmts@.len() ==> #[trigger] sv[k] == stmt_view(stmts@[k]),
                self@.stmts(env, fuel as nat, sv, i as int) == goal,
            decreases stmts@.len() - i,
        {
            assert(sv[i as int] == stmt_view(stmts@[i as int]));
            self.gen_stmt(fuel, &stmts[i]);
            i += 1;
        }
    }

    /// A loop.
    fn gen_while(&mut self, fuel: usize, cond: &Expr, body: &Vec<Stmt>)
        requires
            old(self).wf(),
        ensures
            final(self).wf(),
            final(self).env() == old(self).env(),
            final(self)@ == old(self)@.while_loop(
                old(self).env(),
                fuel as nat,
                expr_view(*cond),
                stmts_view(body@),
            ),
        decreases fuel, 1int, body, body@.len() + 1,
    {
        let cc = self.bf.talloc();
        self.bf.clear(cc);
        let saved = self.bf.tsave();
        self.condition(fuel, cond, cc, false);
        self.bf.trestore(saved);
        self.bf.reserve(cc);
        self.bf.goto(cc);
        self.bf.raw("[");
        self.gen_stmts(fuel, body);
        let saved = self.bf.tsave();
        self.condition(fuel, cond, cc, true);
        self.bf.trestore(saved);
        self.bf.reserve(cc);
        self.bf.goto(cc);
        self.bf.raw("]");
        self.bf.tfree(cc);
    }

    /// A choice.
    #[verifier::rlimit(40)]
    fn gen_if(&mut self, fuel: usize, stmt: &Stmt)
        requires
            old(self).wf(),
        ensures
            final(self).wf(),
            final(self).env() == old(self).env(),
            final(self)@ == old(self)@.choice(old(self).env(), fuel as nat, stmt_view(*stmt)),
        decreases fuel, 1int, stmt, 0int,
    {
        match stmt {
            Stmt::If { cond, then_, else_ } => {
                let saved = self.bf.tsave();
                let cc = self.bf.talloc();
                let ef = self.bf.talloc();
                self.bf.clear(cc);
                self.condition(fuel, cond, cc, false);
                self.bf.trestore(saved);
                self.bf.reserve(cc);
                self.bf.reserve(ef);
                self.bf.setv(ef, 1);
                self.bf.goto(cc);
                self.bf.raw("[");
                self.bf.clear(ef);
                self.gen_stmts(fuel, then_);
                self.bf.clear(cc);
                self.bf.goto(cc);
                self.bf.raw("]");
                match else_ {
                    Some(body) => {
                        self.bf.goto(ef);
                        self.bf.raw("[");
                        self.gen_stmts(fuel, body);
                        self.bf.clear(ef);
                        self.bf.goto(ef);
                        self.bf.raw("]");
                    },
                    None => {},
                }
                self.bf.tfree(ef);
                self.bf.tfree(cc);
            },
            _ => {},
        }
    }

    /// A statement.
    #[verifier::rlimit(60)]
    fn gen_stmt(&mut self, fuel: usize, stmt: &Stmt)
        requires
            old(self).wf(),
        ensures
            final(self).wf(),
            final(self).env() == old(self).env(),
            final(self)@ == old(self)@.stmt(old(self).env(), fuel as nat, stmt_view(*stmt)),
        decreases fuel, 1int, stmt, 1int,
    {
        match stmt {
            Stmt::Let { name, ty, init } => {
                let l = self.declare(name.as_str(), *ty);
                match init {
                    Some(e) => self.assign(fuel, l, e),
                    None => {},
                }
            },
            Stmt::Assign { lval, expr } => {
                match lval {
                    LValue::Var(name) => {
                        let l = self.resolve(name.as_str());
                        self.assign(fuel, l, expr);
                    },
                    LValue::Index(name, idx) => {
                        let l = self.resolve(name.as_str());
                        let (v, vw) = self.eval_expr(fuel, expr);
                        self.arr_write(fuel, l, idx, v, vw);
                    },
                }
            },
            Stmt::While { cond, body } => self.gen_while(fuel, cond, body),
            Stmt::If { cond: _, then_: _, else_: _ } => self.gen_if(fuel, stmt),
            Stmt::Print(expr) => {
                let (v, vw) = self.eval_expr(fuel, expr);
                if vw == 1 {
                    self.bf.print_num(v);
                    self.bf.tfree(v);
                } else {
                    self.bf.print_num_n(v, vw);
                    self.bf.tfree_n(v, vw);
                }
                let sp = self.bf.talloc();
                self.bf.setv(sp, 32);
                self.bf.out_cell(sp);
                self.bf.tfree(sp);
            },
            Stmt::Putchar(expr) => {
                let v = self.eval_expr_1(fuel, expr);
                self.bf.out_cell(v);
                self.bf.tfree(v);
            },
            Stmt::Setpixel { x, y, color } => {
                let xc = self.eval_expr_1(fuel, x);
                let yc = self.eval_expr_1(fuel, y);
                let cc = self.eval_expr_1(fuel, color);
                let cmd = self.bf.talloc();
                self.bf.setv(cmd, 0xFE);
                self.bf.out_cell(cmd);
                self.bf.tfree(cmd);
                self.bf.out_cell(xc);
                self.bf.tfree(xc);
                self.bf.out_cell(yc);
                self.bf.tfree(yc);
                self.bf.out_cell(cc);
                self.bf.tfree(cc);
            },
            Stmt::Getchar(lval) => {
                match lval {
                    LValue::Var(name) => {
                        let l = self.resolve(name.as_str());
                        self.bf.inp(l.base);
                        self.bf.clear_range(l.base, 1, l.width);
                    },
                    LValue::Index(name, idx) => {
                        let l = self.resolve(name.as_str());
                        let ew = l.elem_width();
                        let t = self.bf.talloc_n(ew);
                        self.bf.inp(t);
                        self.bf.clear_range(t, 1, ew);
                        self.arr_write(fuel, l, idx, t, ew);
                    },
                }
            },
            Stmt::Call(name, args) => {
                match self.inline_call(fuel, name.as_str(), args) {
                    Some((r, rw)) => self.bf.tfree_n(r, rw),
                    None => {},
                }
            },
            Stmt::Return(expr) => {
                match expr {
                    Some(e) => {
                        let l = self.resolve("$ret");
                        self.assign(fuel, l, e);
                    },
                    None => {},
                }
            },
            Stmt::Scan(lval) => {
                match lval {
                    LValue::Var(name) => {
                        let l = self.resolve(name.as_str());
                        self.bf.scan_num_n(l.base, l.width);
                    },
                    LValue::Index(name, idx) => {
                        let l = self.resolve(name.as_str());
                        let ew = l.elem_width();
                        let t = self.bf.talloc_n(ew);
                        self.bf.scan_num_n(t, ew);
                        self.arr_write(fuel, l, idx, t, ew);
                    },
                }
            },
        }
    }
}

/// Whether a name is the return value's or a parameter's.
fn passed(params: &Vec<Param>, name: &str) -> (b: bool)
    ensures
        b == is_passed(params_view(params@), name@),
{
    if same_text(name, "$ret") {
        return true;
    }
    let ghost pv = params_view(params@);
    let mut i: usize = 0;
    while i < params.len()
        invariant
            i <= params@.len(),
            pv == params_view(params@),
            forall|k: int| 0 <= k < i ==> (#[trigger] pv[k]).0 != name@,
        decreases params@.len() - i,
    {
        assert(pv[i as int].0 == params@[i as int].name@);
        if same_text(params[i].name.as_str(), name) {
            return true;
        }
        i += 1;
    }
    false
}

/// Emit the Brainfuck of a program with the given layout.
///
/// Gives nothing where the program holds what cannot be emitted: a name that
/// is not bound or a call that cannot be expanded where it stands, or an access
/// to an array of more than 65536 chunks. A program that passes the type check
/// and holds no functions has only the last of these.
pub fn emit(program: &Program, layout: &MemMap) -> (r: Option<String>)
    requires
        layout.wf(),
    ensures
        match emitted(
            stmts_view(program.top@),
            fns_view(program.fns@),
            layout.bindings(),
            layout.temp_base as int,
        ) {
            Some(text) => r is Some && r->Some_0@ == text,
            None => r is None,
        },
{
    let mut g = Codegen::new(layout, &program.fns);
    g.gen_stmts(program.fns.len(), &program.top);
    if g.fault {
        None
    } else {
        Some(g.bf.into_text())
    }
}

} // verus!
