//! Syntax tree of BFS.

use vstd::prelude::*;

verus! {

/// Primitive type.
#[derive(Debug, Clone, Copy, PartialEq, Eq, Structural)]
pub enum ScalarType {
    /// Unsigned 8-bit integer, one tape cell.
    U8,
    /// Signed 8-bit integer, one tape cell.
    I8,
    /// Unsigned 16-bit integer, two cells, low byte first.
    U16,
    /// Signed 16-bit integer, two cells, low byte first.
    I16,
    /// Unsigned 32-bit integer, four cells, low byte first.
    U32,
    /// Signed 32-bit integer, four cells, low byte first.
    I32,
}

impl ScalarType {
    /// Number of tape cells of a value.
    pub open spec fn cells(self) -> int {
        match self {
            ScalarType::U8 | ScalarType::I8 => 1,
            ScalarType::U16 | ScalarType::I16 => 2,
            ScalarType::U32 | ScalarType::I32 => 4,
        }
    }

    /// Number of tape cells of a value.
    pub fn cell_width(self) -> (n: u128)
        ensures
            n == self.cells(),
    {
        match self {
            ScalarType::U8 | ScalarType::I8 => 1,
            ScalarType::U16 | ScalarType::I16 => 2,
            ScalarType::U32 | ScalarType::I32 => 4,
        }
    }

    /// The type as it is written.
    pub open spec fn spelling(self) -> Seq<char> {
        match self {
            ScalarType::U8 => "u8"@,
            ScalarType::I8 => "i8"@,
            ScalarType::U16 => "u16"@,
            ScalarType::I16 => "i16"@,
            ScalarType::U32 => "u32"@,
            ScalarType::I32 => "i32"@,
        }
    }

    /// The type as it is written.
    pub fn name(self) -> (s: &'static str)
        ensures
            s@ == self.spelling(),
    {
        match self {
            ScalarType::U8 => "u8",
            ScalarType::I8 => "i8",
            ScalarType::U16 => "u16",
            ScalarType::I16 => "i16",
            ScalarType::U32 => "u32",
            ScalarType::I32 => "i32",
        }
    }
}

/// Type annotation of a binding.
#[derive(Debug, Clone, Copy, PartialEq, Eq, Structural)]
pub enum TypeAnn {
    /// A value of a primitive type.
    Scalar(ScalarType),
    /// A number of values of a primitive type.
    Array(ScalarType, u32),
}

/// Binary operator.
#[derive(Debug, Clone, Copy, PartialEq, Eq, Structural)]
pub enum BinOp {
    /// `+`, wrapping.
    Add,
    /// `-`, wrapping.
    Sub,
    /// `*`, wrapping.
    Mul,
    /// `/`
    Div,
    /// `%`
    Rem,
    /// `<`, giving 0 or 1.
    Lt,
    /// `>`, giving 0 or 1.
    Gt,
    /// `<=`, giving 0 or 1.
    Le,
    /// `>=`, giving 0 or 1.
    Ge,
    /// `==`, giving 0 or 1.
    EqEq,
    /// `!=`, giving 0 or 1.
    Ne,
    /// `&&`, giving 0 or 1.
    And,
    /// `||`, giving 0 or 1.
    Or,
}

/// Unary operator.
#[derive(Debug, Clone, Copy, PartialEq, Eq, Structural)]
pub enum UnOp {
    /// `-`
    Neg,
    /// `!`, giving 0 or 1.
    Not,
}

/// Expression.
#[derive(Debug)]
pub enum Expr {
    /// Integer literal.
    Int(u64),
    /// Variable.
    Var(String),
    /// Array element `name[index]`.
    Index(String, Box<Expr>),
    /// Binary operation.
    BinOp(BinOp, Box<Expr>, Box<Expr>),
    /// Unary operation.
    UnOp(UnOp, Box<Expr>),
    /// Call `name(args...)` of a function that returns a value.
    Call(String, Vec<Expr>),
}

/// What can be assigned to.
#[derive(Debug)]
pub enum LValue {
    /// Variable.
    Var(String),
    /// Array element `name[index]`.
    Index(String, Box<Expr>),
}

/// Statement.
#[allow(inconsistent_fields)]
#[derive(Debug)]
pub enum Stmt {
    /// `let name: ty = init;`, with or without the initial value.
    Let {
        /// Variable name.
        name: String,
        /// Declared type.
        ty: TypeAnn,
        /// Initial value.
        init: Option<Expr>,
    },
    /// `lval = expr;`
    Assign {
        /// Where the value goes.
        lval: LValue,
        /// The value.
        expr: Expr,
    },
    /// `while cond { body }`
    While {
        /// Condition; not zero means go on.
        cond: Expr,
        /// Body.
        body: Vec<Stmt>,
    },
    /// `if cond { then_ } else { else_ }`, with or without the second block.
    If {
        /// Condition; not zero selects the first block.
        cond: Expr,
        /// First block.
        then_: Vec<Stmt>,
        /// Second block.
        else_: Option<Vec<Stmt>>,
    },
    /// `scan(lval);`: read a decimal number.
    Scan(LValue),
    /// `print(expr);`: write a decimal number.
    Print(Expr),
    /// `putchar(expr);`: write a byte.
    Putchar(Expr),
    /// `setpixel(x, y, color);`: write a pixel command.
    Setpixel {
        /// Column.
        x: Expr,
        /// Row.
        y: Expr,
        /// Colour byte.
        color: Expr,
    },
    /// `getchar(lval);`: read a byte.
    Getchar(LValue),
    /// `name(args...);`: call a function and drop what it returns.
    Call(String, Vec<Expr>),
    /// `return expr;`, with or without a value.
    Return(Option<Expr>),
}

/// Formal parameter.
#[derive(Debug)]
pub struct Param {
    /// Name inside the body.
    pub name: String,
    /// Type; scalars are passed by value, arrays by reference.
    pub ty: TypeAnn,
}

/// Function definition.
#[derive(Debug)]
pub struct FnDef {
    /// Name.
    pub name: String,
    /// Parameters in order.
    pub params: Vec<Param>,
    /// What it returns, if anything.
    pub ret_ty: Option<ScalarType>,
    /// Body.
    pub body: Vec<Stmt>,
}

/// A program: functions, and statements that run in order.
#[derive(Debug)]
pub struct Program {
    /// Function definitions.
    pub fns: Vec<FnDef>,
    /// Statements.
    pub top: Vec<Stmt>,
}

/// An expression as a mathematical value.
pub enum Ex {
    /// Integer literal.
    Int(int),
    /// Variable.
    Var(Seq<char>),
    /// Array element.
    Index(Seq<char>, Box<Ex>),
    /// Binary operation.
    BinOp(BinOp, Box<Ex>, Box<Ex>),
    /// Unary operation.
    UnOp(UnOp, Box<Ex>),
    /// Call.
    Call(Seq<char>, Seq<Ex>),
}

/// What can be assigned to, as a mathematical value.
pub enum Lv {
    /// Variable.
    Var(Seq<char>),
    /// Array element.
    Index(Seq<char>, Ex),
}

/// A statement as a mathematical value.
pub enum Sm {
    /// Declaration.
    Let(Seq<char>, TypeAnn, Option<Ex>),
    /// Assignment.
    Assign(Lv, Ex),
    /// Loop.
    While(Ex, Seq<Sm>),
    /// Choice.
    If(Ex, Seq<Sm>, Option<Seq<Sm>>),
    /// Read a number.
    Scan(Lv),
    /// Write a number.
    Print(Ex),
    /// Write a byte.
    Putchar(Ex),
    /// Write a pixel command.
    Setpixel(Ex, Ex, Ex),
    /// Read a byte.
    Getchar(Lv),
    /// Call.
    Call(Seq<char>, Seq<Ex>),
    /// Return.
    Return(Option<Ex>),
}

/// A function as a mathematical value.
pub struct Fun {
    /// Name.
    pub name: Seq<char>,
    /// Names and types of the parameters.
    pub params: Seq<(Seq<char>, TypeAnn)>,
    /// What it returns, if anything.
    pub ret_ty: Option<ScalarType>,
    /// Body.
    pub body: Seq<Sm>,
}

/// The value of an expression.
pub open spec fn expr_view(e: Expr) -> Ex
    decreases e,
{
    match e {
        Expr::Int(n) => Ex::Int(n as int),
        Expr::Var(name) => Ex::Var(name@),
        Expr::Index(name, idx) => Ex::Index(name@, Box::new(expr_view(*idx))),
        Expr::BinOp(op, l, r) => Ex::BinOp(op, Box::new(expr_view(*l)), Box::new(expr_view(*r))),
        Expr::UnOp(op, inner) => Ex::UnOp(op, Box::new(expr_view(*inner))),
        Expr::Call(name, args) => Ex::Call(name@, exprs_view(args@)),
    }
}

/// The values of a list of expressions.
pub open spec fn exprs_view(es: Seq<Expr>) -> Seq<Ex>
    decreases es,
{
    if es.len() == 0 {
        Seq::empty()
    } else {
        exprs_view(es.drop_last()).push(expr_view(es.last()))
    }
}

/// The value of what can be assigned to.
pub open spec fn lvalue_view(l: LValue) -> Lv {
    match l {
        LValue::Var(name) => Lv::Var(name@),
        LValue::Index(name, idx) => Lv::Index(name@, expr_view(*idx)),
    }
}

/// The value of an optional expression.
pub open spec fn opt_expr_view(e: Option<Expr>) -> Option<Ex> {
    match e {
        Some(e) => Some(expr_view(e)),
        None => None,
    }
}

/// The value of a statement.
pub open spec fn stmt_view(s: Stmt) -> Sm
    decreases s,
{
    match s {
        Stmt::Let { name, ty, init } => Sm::Let(name@, ty, opt_expr_view(init)),
        Stmt::Assign { lval, expr } => Sm::Assign(lvalue_view(lval), expr_view(expr)),
        Stmt::While { cond, body } => Sm::While(expr_view(cond), stmts_view(body@)),
        Stmt::If { cond, then_, else_ } => Sm::If(
            expr_view(cond),
            stmts_view(then_@),
            match else_ {
                Some(b) => Some(stmts_view(b@)),
                None => None,
            },
        ),
        Stmt::Scan(lval) => Sm::Scan(lvalue_view(lval)),
        Stmt::Print(e) => Sm::Print(expr_view(e)),
        Stmt::Putchar(e) => Sm::Putchar(expr_view(e)),
        Stmt::Setpixel { x, y, color } => Sm::Setpixel(
            expr_view(x),
            expr_view(y),
            expr_view(color),
        ),
        Stmt::Getchar(lval) => Sm::Getchar(lvalue_view(lval)),
        Stmt::Call(name, args) => Sm::Call(name@, exprs_view(args@)),
        Stmt::Return(e) => Sm::Return(opt_expr_view(e)),
    }
}

/// The values of a list of statements.
pub open spec fn stmts_view(ss: Seq<Stmt>) -> Seq<Sm>
    decreases ss,
{
    if ss.len() == 0 {
        Seq::empty()
    } else {
        stmts_view(ss.drop_last()).push(stmt_view(ss.last()))
    }
}

/// The values of a list of parameters.
pub open spec fn params_view(ps: Seq<Param>) -> Seq<(Seq<char>, TypeAnn)> {
    Seq::new(ps.len(), |i: int| (ps[i].name@, ps[i].ty))
}

/// The value of a function.
pub open spec fn fn_view(f: FnDef) -> Fun {
    Fun {
        name: f.name@,
        params: params_view(f.params@),
        ret_ty: f.ret_ty,
        body: stmts_view(f.body@),
    }
}

/// The values of a list of functions.
pub open spec fn fns_view(fs: Seq<FnDef>) -> Seq<Fun> {
    Seq::new(fs.len(), |i: int| fn_view(fs[i]))
}

/// The values stand in the order of the expressions.
pub proof fn lemma_exprs_index(es: Seq<Expr>)
    ensures
        exprs_view(es).len() == es.len(),
        forall|i: int| 0 <= i < es.len() ==> #[trigger] exprs_view(es)[i] == expr_view(es[i]),
    decreases es.len(),
{
    if es.len() > 0 {
        lemma_exprs_index(es.drop_last());
        assert forall|i: int| 0 <= i < es.len() implies #[trigger] exprs_view(es)[i] == expr_view(
            es[i],
        ) by {
            if i < es.len() - 1 {
                assert(exprs_view(es.drop_last())[i] == expr_view(es.drop_last()[i]));
            }
        }
    }
}

/// The values stand in the order of the statements.
pub proof fn lemma_stmts_index(ss: Seq<Stmt>)
    ensures
        stmts_view(ss).len() == ss.len(),
        forall|i: int| 0 <= i < ss.len() ==> #[trigger] stmts_view(ss)[i] == stmt_view(ss[i]),
    decreases ss.len(),
{
    if ss.len() > 0 {
        lemma_stmts_index(ss.drop_last());
        assert forall|i: int| 0 <= i < ss.len() implies #[trigger] stmts_view(ss)[i] == stmt_view(
            ss[i],
        ) by {
            if i < ss.len() - 1 {
                assert(stmts_view(ss.drop_last())[i] == stmt_view(ss.drop_last()[i]));
            }
        }
    }
}

/// The value of a list with one more statement.
pub proof fn lemma_stmts_push(ss: Seq<Stmt>, s: Stmt)
    ensures
        stmts_view(ss.push(s)) == stmts_view(ss).push(stmt_view(s)),
{
    assert(ss.push(s).drop_last() =~= ss);
}

} // verus!
