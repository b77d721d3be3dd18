//! What BFS programs mean.

use vstd::prelude::*;

use crate::bfsc::ast::{BinOp, Ex, Fun, Lv, ScalarType, Sm, TypeAnn, UnOp};
use crate::bfsc::codegen::fn_named;
use crate::bfsc::typeck::type_of;
use crate::interp::machine::Source;
use crate::text::dec;

verus! {

/// What the variables of a BFS program hold.
pub struct Store {
    /// The numbers.
    pub nums: Map<Seq<char>, int>,
    /// The arrays.
    pub rows: Map<Seq<char>, Seq<int>>,
}

impl Store {
    /// With another number in a variable.
    pub open spec fn set(self, name: Seq<char>, v: int) -> Store {
        Store { nums: self.nums.insert(name, v), ..self }
    }

    /// With another number in an array.
    pub open spec fn set_at(self, name: Seq<char>, i: int, v: int) -> Store {
        Store { rows: self.rows.insert(name, self.rows[name].update(i, v)), ..self }
    }
}

/// The state of a BFS program.
pub struct BfsState {
    /// The variables.
    pub vars: Store,
    /// The bytes written so far.
    pub out: Seq<int>,
    /// How many bytes have been read.
    pub reads: nat,
}

/// Number of bytes of a variable. The numbers of a signed type are their bytes in
/// two's complement, and are compared, divided and printed as unsigned ones.
pub open spec fn width_of(types: Seq<(Seq<char>, TypeAnn)>, name: Seq<char>) -> Option<int> {
    match type_of(types, name) {
        Some(TypeAnn::Scalar(st)) => Some(st.cells()),
        _ => None,
    }
}

/// Number of bytes of an array's elements and number of elements, for arrays that
/// two bytes can index.
pub open spec fn row_of(types: Seq<(Seq<char>, TypeAnn)>, name: Seq<char>) -> Option<(int, int)> {
    match type_of(types, name) {
        Some(TypeAnn::Array(st, len)) => if len <= 65536 {
            Some((st.cells(), len as int))
        } else {
            None
        },
        _ => None,
    }
}

/// Whether an array lies in chunks: an array of more than 256 elements of type
/// `u8`.
pub open spec fn far(types: Seq<(Seq<char>, TypeAnn)>, name: Seq<char>) -> bool {
    match type_of(types, name) {
        Some(TypeAnn::Array(st, len)) => st == ScalarType::U8 && len > 256,
        _ => false,
    }
}

/// How many numbers a number of bytes can hold.
pub open spec fn modulus(w: int) -> int {
    if w == 1 {
        256
    } else if w == 2 {
        65536
    } else {
        0x1_0000_0000
    }
}

/// A truth value as a number.
pub open spec fn truth(p: bool) -> Option<(int, int)> {
    Some(
        (
            if p {
                1
            } else {
                0
            },
            1,
        ),
    )
}

/// The value and the width of a binary operator, for operands of width `w`.
/// Division by 0 has none.
pub open spec fn apply(op: BinOp, a: int, b: int, w: int) -> Option<(int, int)> {
    match op {
        BinOp::Add => Some(((a + b) % modulus(w), w)),
        BinOp::Sub => Some(((a - b) % modulus(w), w)),
        BinOp::Mul => Some(((a * b) % modulus(w), w)),
        BinOp::Div => if b == 0 {
            None
        } else {
            Some((a / b, w))
        },
        BinOp::Rem => if b == 0 {
            None
        } else {
            Some((a % b, w))
        },
        BinOp::Lt => truth(a < b),
        BinOp::Gt => truth(a > b),
        BinOp::Le => truth(a <= b),
        BinOp::Ge => truth(a >= b),
        BinOp::EqEq => truth(a == b),
        BinOp::Ne => truth(a != b),
        BinOp::And => truth(a != 0 && b != 0),
        BinOp::Or => truth(a != 0 || b != 0),
    }
}

/// The value and the width of an expression. An index outside its array has
/// none. Operands are brought to the same
/// width; both operands of `&&` and `||` are always evaluated.
pub open spec fn eval(
    types: Seq<(Seq<char>, TypeAnn)>,
    vars: Store,
    e: Ex,
) -> Option<(int, int)>
    decreases e,
{
    match e {
        Ex::Int(n) => if 0 <= n < 256 {
            Some((n, 1))
        } else if 256 <= n < 65536 {
            Some((n, 2))
        } else if n >= 65536 {
            Some((n % 0x1_0000_0000, 4))
        } else {
            None
        },
        Ex::Var(name) => match width_of(types, name) {
            Some(w) => Some((vars.nums[name], w)),
            None => None,
        },
        Ex::Index(name, idx) => match (row_of(types, name), eval(types, vars, *idx)) {
            (Some((w, n)), Some((i, _))) => if 0 <= i < n {
                Some((vars.rows[name][i], w))
            } else {
                None
            },
            _ => None,
        },
        Ex::BinOp(op, left, right) => match (eval(types, vars, *left), eval(types, vars, *right)) {
            (Some((a, aw)), Some((b, bw))) => apply(
                op,
                a,
                b,
                if aw < bw {
                    bw
                } else {
                    aw
                },
            ),
            _ => None,
        },
        Ex::UnOp(op, inner) => match eval(types, vars, *inner) {
            Some((a, w)) => match op {
                UnOp::Neg => Some(((0 - a) % modulus(w), w)),
                UnOp::Not => truth(a == 0),
            },
            None => None,
        },
        _ => None,
    }
}

/// The bytes of a number in decimal.
pub open spec fn decimal(v: int) -> Seq<int> {
    dec(v as nat).map_values(|c: char| c as int)
}

/// Whether a character goes on with a number that is read: all but a line feed, a
/// space and 0.
pub open spec fn goes_on(c: int) -> bool {
    c != 0 && c != 10 && c != 32
}

/// The number read from the byte with the given number on, behind the digits
/// that make `acc`, and how many bytes have been read then; with at most `fuel`
/// digits. Every other byte is taken for the digit that it would be.
pub open spec fn scanned(source: Source, reads: nat, acc: int, m: int, fuel: nat) -> Option<
    (int, nat),
>
    decreases fuel,
{
    let c = source(reads);
    if !goes_on(c) {
        Some((acc, reads + 1))
    } else if fuel == 0 {
        None
    } else {
        scanned(source, reads + 1, (10 * acc + (c - 48) % 256) % m, m, (fuel - 1) as nat)
    }
}

/// The state after a value has been stored in a variable.
pub open spec fn stored(
    types: Seq<(Seq<char>, TypeAnn)>,
    s: BfsState,
    name: Seq<char>,
    e: Ex,
) -> Option<BfsState> {
    match (eval(types, s.vars, e), width_of(types, name)) {
        (Some((v, _)), Some(w)) => Some(BfsState { vars: s.vars.set(name, v % modulus(w)), ..s }),
        _ => None,
    }
}

/// The state after a value has been stored in an array.
pub open spec fn stored_at(
    types: Seq<(Seq<char>, TypeAnn)>,
    s: BfsState,
    name: Seq<char>,
    idx: Ex,
    e: Ex,
) -> Option<BfsState> {
    match (eval(types, s.vars, e), eval(types, s.vars, idx), row_of(types, name)) {
        (Some((v, _)), Some((i, _)), Some((w, n))) => if 0 <= i < n {
            Some(BfsState { vars: s.vars.set_at(name, i, v % modulus(w)), ..s })
        } else {
            None
        },
        _ => None,
    }
}

/// The functions that statements may call, and how deep.
pub struct Calls {
    /// The functions of the program.
    pub fns: Seq<Fun>,
    /// How many calls may still nest.
    pub depth: nat,
    /// Whether the statements are those of a function.
    pub inside: bool,
}

impl Calls {
    /// Inside a function that is called.
    pub open spec fn inner(self) -> Calls {
        Calls { depth: (self.depth - 1) as nat, inside: true, ..self }
    }
}

/// The calls of the top level of a program: no more nest than there are functions.
pub open spec fn top_level(fns: Seq<Fun>) -> Calls {
    Calls { fns, depth: fns.len(), inside: false }
}

/// The function with a name, where it has no result.
pub open spec fn procedure(fns: Seq<Fun>, name: Seq<char>) -> Option<Fun> {
    match fn_named(fns, name, fns.len() as int) {
        Some(j) => if fns[j].ret_ty is None {
            Some(fns[j])
        } else {
            None
        },
        None => None,
    }
}

/// The names of the parameters.
pub open spec fn param_names(params: Seq<(Seq<char>, TypeAnn)>) -> Seq<Seq<char>> {
    Seq::new(params.len(), |i: int| params[i].0)
}

/// The names of the arrays that are passed.
pub open spec fn arg_names(args: Seq<Ex>) -> Seq<Seq<char>> {
    Seq::new(args.len(), |i: int| args[i]->Var_0)
}

/// Whether arrays that two bytes can index are passed to array parameters, no two to
/// one name and none twice.
pub open spec fn passes(
    types: Seq<(Seq<char>, TypeAnn)>,
    params: Seq<(Seq<char>, TypeAnn)>,
    args: Seq<Ex>,
) -> bool {
    &&& args.len() == params.len()
    &&& param_names(params).no_duplicates()
    &&& arg_names(args).no_duplicates()
    &&& forall|i: int|
        0 <= i < args.len() ==> params[i].1 is Array && #[trigger] args[i] is Var && row_of(
            types,
            args[i]->Var_0,
        ) is Some
}

/// The type of an array under its own name while a function has it under another: no
/// element of it can be named.
pub open spec fn out_of_sight() -> TypeAnn {
    TypeAnn::Array(ScalarType::U8, 65537)
}

/// The types of the names inside a function: those outside, but for the arrays that
/// are passed, which have the names of the parameters.
pub open spec fn types_inside(
    types: Seq<(Seq<char>, TypeAnn)>,
    params: Seq<(Seq<char>, TypeAnn)>,
    args: Seq<Ex>,
) -> Seq<(Seq<char>, TypeAnn)> {
    let ps = param_names(params);
    let xs = arg_names(args);
    types + Seq::new(xs.len(), |i: int| (xs[i], out_of_sight())) + Seq::new(
        ps.len(),
        |i: int| (ps[i], type_of(types, xs[i])->Some_0),
    )
}

/// What the variables hold inside a function: the parameters are the arrays.
pub open spec fn store_inside(
    s: Store,
    params: Seq<(Seq<char>, TypeAnn)>,
    args: Seq<Ex>,
) -> Store {
    let ps = param_names(params);
    let xs = arg_names(args);
    Store {
        rows: Map::new(
            |n: Seq<char>| true,
            |n: Seq<char>|
                if ps.contains(n) {
                    s.rows[xs[ps.index_of(n)]]
                } else {
                    s.rows[n]
                },
        ),
        ..s
    }
}

/// What the variables hold behind a call, with `t` inside the function at its end and
/// `s` in front of the call.
pub open spec fn store_behind(
    t: Store,
    s: Store,
    params: Seq<(Seq<char>, TypeAnn)>,
    args: Seq<Ex>,
) -> Store {
    let ps = param_names(params);
    let xs = arg_names(args);
    Store {
        nums: Map::new(
            |n: Seq<char>| true,
            |n: Seq<char>|
                if ps.contains(n) {
                    s.nums[n]
                } else {
                    t.nums[n]
                },
        ),
        rows: Map::new(
            |n: Seq<char>| true,
            |n: Seq<char>|
                if xs.contains(n) {
                    t.rows[ps[xs.index_of(n)]]
                } else if ps.contains(n) {
                    s.rows[n]
                } else {
                    t.rows[n]
                },
        ),
    }
}

/// The state after a statement that has ended, with at most `fuel` rounds of a
/// loop. A declaration without a value leaves its variable as it is. A call of a
/// function does what the function's statements do, with arrays passed by reference;
/// a function with numbers for parameters, with a result or with variables of its own
/// has no state here.
pub open spec fn exec(
    k: Calls,
    types: Seq<(Seq<char>, TypeAnn)>,
    s: BfsState,
    stmt: Sm,
    source: Source,
    fuel: nat,
) -> Option<BfsState>
    decreases k.depth, fuel, stmt, 0int,
{
    match stmt {
        Sm::Let(name, TypeAnn::Scalar(_), Some(e)) => if k.inside {
            None
        } else {
            stored(types, s, name, e)
        },
        Sm::Let(_, TypeAnn::Scalar(_), None) => if k.inside {
            None
        } else {
            Some(s)
        },
        Sm::Assign(Lv::Var(name), e) => stored(types, s, name, e),
        Sm::Let(_, TypeAnn::Array(_, _), None) => if k.inside {
            None
        } else {
            Some(s)
        },
        Sm::Call(name, args) => match procedure(k.fns, name) {
            Some(f) => if k.depth > 0 && passes(types, f.params, args) {
                match exec_all(
                    k.inner(),
                    types_inside(types, f.params, args),
                    BfsState { vars: store_inside(s.vars, f.params, args), ..s },
                    f.body,
                    0,
                    source,
                    fuel,
                ) {
                    Some(t) => Some(
                        BfsState { vars: store_behind(t.vars, s.vars, f.params, args), ..t },
                    ),
                    None => None,
                }
            } else {
                None
            },
            None => None,
        },
        Sm::Assign(Lv::Index(name, idx), e) => stored_at(types, s, name, idx, e),
        Sm::While(cond, body) => match eval(types, s.vars, cond) {
            None => None,
            Some((v, _)) => if v == 0 {
                Some(s)
            } else if fuel == 0 {
                None
            } else {
                match exec_all(k, types, s, body, 0, source, fuel) {
                    Some(t) => exec(k, types, t, stmt, source, (fuel - 1) as nat),
                    None => None,
                }
            },
        },
        Sm::If(cond, then_, else_) => match eval(types, s.vars, cond) {
            None => None,
            Some((v, _)) => if v != 0 {
                exec_all(k, types, s, then_, 0, source, fuel)
            } else {
                match else_ {
                    Some(block) => exec_all(k, types, s, block, 0, source, fuel),
                    None => Some(s),
                }
            },
        },
        Sm::Print(e) => match eval(types, s.vars, e) {
            Some((v, _)) => Some(BfsState { out: s.out + decimal(v) + seq![32], ..s }),
            None => None,
        },
        Sm::Putchar(e) => match eval(types, s.vars, e) {
            Some((v, _)) => Some(BfsState { out: s.out.push(v % 256), ..s }),
            None => None,
        },
        Sm::Setpixel(x, y, color) => match (
            eval(types, s.vars, x),
            eval(types, s.vars, y),
            eval(types, s.vars, color),
        ) {
            (Some((a, _)), Some((b, _)), Some((c, _))) => Some(
                BfsState { out: s.out + seq![0xFE, a % 256, b % 256, c % 256], ..s },
            ),
            _ => None,
        },
        Sm::Scan(Lv::Var(name)) => match width_of(types, name) {
            Some(w) => match scanned(source, s.reads, 0, modulus(w), fuel) {
                Some((v, reads)) => Some(BfsState { vars: s.vars.set(name, v), reads, ..s }),
                None => None,
            },
            None => None,
        },
        Sm::Scan(Lv::Index(name, idx)) => match (row_of(types, name), eval(types, s.vars, idx)) {
            (Some((w, n)), Some((i, _))) => match scanned(source, s.reads, 0, modulus(w), fuel) {
                Some((v, reads)) => if 0 <= i < n {
                    Some(BfsState { vars: s.vars.set_at(name, i, v), reads, ..s })
                } else {
                    None
                },
                None => None,
            },
            _ => None,
        },
        Sm::Getchar(Lv::Index(name, idx)) => match (row_of(types, name), eval(types, s.vars, idx)) {
            (Some((_, n)), Some((i, _))) => if 0 <= i < n {
                Some(
                    BfsState {
                        vars: s.vars.set_at(name, i, source(s.reads)),
                        reads: s.reads + 1,
                        ..s
                    },
                )
            } else {
                None
            },
            _ => None,
        },
        Sm::Getchar(Lv::Var(name)) => match width_of(types, name) {
            Some(_) => Some(
                BfsState {
                    vars: s.vars.set(name, source(s.reads)),
                    reads: s.reads + 1,
                    ..s
                },
            ),
            None => None,
        },
        _ => None,
    }
}

/// The state after the statements from `i` on.
pub open spec fn exec_all(
    k: Calls,
    types: Seq<(Seq<char>, TypeAnn)>,
    s: BfsState,
    ss: Seq<Sm>,
    i: int,
    source: Source,
    fuel: nat,
) -> Option<BfsState>
    decreases k.depth, fuel, ss, ss.len() - i,
{
    if i < 0 || i >= ss.len() {
        Some(s)
    } else {
        match exec(k, types, s, ss[i], source, fuel) {
            Some(t) => exec_all(k, types, t, ss, i + 1, source, fuel),
            None => None,
        }
    }
}

} // verus!
