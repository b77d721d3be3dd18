//! BFS parser.

use vstd::prelude::*;

use crate::bfsc::ast::{expr_view, lemma_stmts_push, lvalue_view, stmt_view, stmts_view, Ex, Lv, Sm};
use crate::bfsc::ast::{BinOp, Expr, LValue, ScalarType, Stmt, TypeAnn, UnOp};
use crate::bfsc::error::BfscError;
use crate::bfsc::error::Failure;
use crate::bfsc::lexer::{is_plain, terminated, tok_debug, tok_view, toks_view, Tok};
use crate::bfsc::lexer::{push_token, same_token, SpannedToken, Token};
use crate::text::dec;
use crate::text::{owned, push_dec, same_text};

verus! {

/// What was read and where it ends, or what is wrong.
pub enum Got<T> {
    /// What was read, and the place behind it.
    Done(T, int),
    /// What is wrong.
    Fault(Seq<char>),
}

/// The place behind the token at `pos`; the last token is never passed.
pub open spec fn after(ts: Seq<(Tok, int)>, pos: int) -> int {
    if pos + 1 < ts.len() {
        pos + 1
    } else {
        pos
    }
}

/// The message that another token was expected.
pub open spec fn expected(ts: Seq<(Tok, int)>, pos: int, what: Seq<char>) -> Seq<char> {
    "expected "@ + what + ", got "@ + tok_debug(ts[pos].0) + " at byte "@ + dec(ts[pos].1 as nat)
}

/// Read a certain token.
pub open spec fn wanted(ts: Seq<(Tok, int)>, pos: int, t: Tok) -> Got<()> {
    if ts[pos].0 == t {
        Got::Done((), after(ts, pos))
    } else {
        Got::Fault(expected(ts, pos, tok_debug(t)))
    }
}

/// The primitive type that a token is, if any.
pub open spec fn scalar_of(t: Tok) -> Option<ScalarType> {
    match t {
        Tok::U8 => Some(ScalarType::U8),
        Tok::I8 => Some(ScalarType::I8),
        Tok::U16 => Some(ScalarType::U16),
        Tok::I16 => Some(ScalarType::I16),
        Tok::U32 => Some(ScalarType::U32),
        Tok::I32 => Some(ScalarType::I32),
        _ => None,
    }
}

/// Read a primitive type.
pub open spec fn scalar_at(ts: Seq<(Tok, int)>, pos: int) -> Got<ScalarType> {
    match scalar_of(ts[pos].0) {
        Some(st) => Got::Done(st, after(ts, pos)),
        None => Got::Fault(expected(ts, pos, "scalar type"@)),
    }
}

/// Read an array size.
pub open spec fn size_at(ts: Seq<(Tok, int)>, pos: int) -> Got<u32> {
    match ts[pos].0 {
        Tok::Int(n) => Got::Done((n % 0x1_0000_0000) as u32, after(ts, pos)),
        _ => Got::Fault("expected array size at byte "@ + dec(ts[pos].1 as nat)),
    }
}

/// Read a type.
#[verifier::opaque]
pub open spec fn type_at(ts: Seq<(Tok, int)>, pos: int) -> Got<TypeAnn> {
    match scalar_of(ts[pos].0) {
        Some(st) => Got::Done(TypeAnn::Scalar(st), after(ts, pos)),
        None => if ts[pos].0 == Tok::LBrack {
            match scalar_at(ts, after(ts, pos)) {
                Got::Fault(m) => Got::Fault(m),
                Got::Done(elem, p) => match wanted(ts, p, Tok::Semi) {
                    Got::Fault(m) => Got::Fault(m),
                    Got::Done(_, p) => match size_at(ts, p) {
                        Got::Fault(m) => Got::Fault(m),
                        Got::Done(n, p) => match wanted(ts, p, Tok::RBrack) {
                            Got::Fault(m) => Got::Fault(m),
                            Got::Done(_, p) => Got::Done(TypeAnn::Array(elem, n), p),
                        },
                    },
                },
            }
        } else {
            Got::Fault(expected(ts, pos, "type"@))
        },
    }
}

/// Read an identifier.
pub open spec fn name_at(ts: Seq<(Tok, int)>, pos: int) -> Got<Seq<char>> {
    match ts[pos].0 {
        Tok::Ident(name) => Got::Done(name, after(ts, pos)),
        t => Got::Fault("expected identifier, got "@ + tok_debug(t)),
    }
}

/// The comparison that a token is, if any.
pub open spec fn relation_of(t: Tok) -> Option<BinOp> {
    match t {
        Tok::Lt => Some(BinOp::Lt),
        Tok::Gt => Some(BinOp::Gt),
        Tok::Le => Some(BinOp::Le),
        Tok::Ge => Some(BinOp::Ge),
        Tok::EqEq => Some(BinOp::EqEq),
        Tok::BangEq => Some(BinOp::Ne),
        _ => None,
    }
}

/// The operator between terms that a token is, if any.
pub open spec fn term_op_of(t: Tok) -> Option<BinOp> {
    match t {
        Tok::Plus => Some(BinOp::Add),
        Tok::Minus => Some(BinOp::Sub),
        _ => None,
    }
}

/// The operator between factors that a token is, if any.
pub open spec fn factor_op_of(t: Tok) -> Option<BinOp> {
    match t {
        Tok::Star => Some(BinOp::Mul),
        Tok::Slash => Some(BinOp::Div),
        Tok::Percent => Some(BinOp::Rem),
        _ => None,
    }
}

/// The operator between disjuncts that a token is, if any.
pub open spec fn or_op_of(t: Tok) -> Option<BinOp> {
    match t {
        Tok::PipePipe => Some(BinOp::Or),
        _ => None,
    }
}

/// The operator between conjuncts that a token is, if any.
pub open spec fn and_op_of(t: Tok) -> Option<BinOp> {
    match t {
        Tok::AmpAmp => Some(BinOp::And),
        _ => None,
    }
}

/// Read an expression.
pub open spec fn expr_at(ts: Seq<(Tok, int)>, pos: int) -> Got<Ex>
    decreases ts.len() - pos, 12int,
{
    or_at(ts, pos)
}


/// Read disjuncts.
pub open spec fn or_at(ts: Seq<(Tok, int)>, pos: int) -> Got<Ex>
    decreases ts.len() - pos, 11int,
{
    match and_at(ts, pos) {
        Got::Fault(m) => Got::Fault(m),
        Got::Done(left, p) => if pos < p < ts.len() {
            or_rest(ts, left, p)
        } else {
            Got::Fault(Seq::empty())
        },
    }
}

/// Go on reading disjuncts, behind the left operand.
pub open spec fn or_rest(ts: Seq<(Tok, int)>, left: Ex, pos: int) -> Got<Ex>
    decreases ts.len() - pos, 20int,
{
    match or_op_of(ts[pos].0) {
        None => Got::Done(left, pos),
        Some(op) => match and_at(ts, after(ts, pos)) {
            Got::Fault(m) => Got::Fault(m),
            Got::Done(right, p) => if pos < p < ts.len() {
                or_rest(ts, Ex::BinOp(op, Box::new(left), Box::new(right)), p)
            } else {
                Got::Fault(Seq::empty())
            },
        },
    }
}

/// Read conjuncts.
pub open spec fn and_at(ts: Seq<(Tok, int)>, pos: int) -> Got<Ex>
    decreases ts.len() - pos, 10int,
{
    match relation_at(ts, pos) {
        Got::Fault(m) => Got::Fault(m),
        Got::Done(left, p) => if pos < p < ts.len() {
            and_rest(ts, left, p)
        } else {
            Got::Fault(Seq::empty())
        },
    }
}

/// Go on reading conjuncts, behind the left operand.
pub open spec fn and_rest(ts: Seq<(Tok, int)>, left: Ex, pos: int) -> Got<Ex>
    decreases ts.len() - pos, 20int,
{
    match and_op_of(ts[pos].0) {
        None => Got::Done(left, pos),
        Some(op) => match relation_at(ts, after(ts, pos)) {
            Got::Fault(m) => Got::Fault(m),
            Got::Done(right, p) => if pos < p < ts.len() {
                and_rest(ts, Ex::BinOp(op, Box::new(left), Box::new(right)), p)
            } else {
                Got::Fault(Seq::empty())
            },
        },
    }
}

/// Read a comparison.
pub open spec fn relation_at(ts: Seq<(Tok, int)>, pos: int) -> Got<Ex>
    decreases ts.len() - pos, 9int,
{
    match term_at(ts, pos) {
        Got::Fault(m) => Got::Fault(m),
        Got::Done(left, p) => match relation_of(ts[p].0) {
            None => Got::Done(left, p),
            Some(op) => if pos < after(ts, p) < ts.len() {
                match term_at(ts, after(ts, p)) {
                    Got::Fault(m) => Got::Fault(m),
                    Got::Done(right, q) => Got::Done(
                        Ex::BinOp(op, Box::new(left), Box::new(right)),
                        q,
                    ),
                }
            } else {
                Got::Fault(Seq::empty())
            },
        },
    }
}

/// Read terms.
pub open spec fn term_at(ts: Seq<(Tok, int)>, pos: int) -> Got<Ex>
    decreases ts.len() - pos, 8int,
{
    match factor_at(ts, pos) {
        Got::Fault(m) => Got::Fault(m),
        Got::Done(left, p) => if pos < p < ts.len() {
            term_rest(ts, left, p)
        } else {
            Got::Fault(Seq::empty())
        },
    }
}

/// Go on reading terms, behind the left operand.
pub open spec fn term_rest(ts: Seq<(Tok, int)>, left: Ex, pos: int) -> Got<Ex>
    decreases ts.len() - pos, 20int,
{
    match term_op_of(ts[pos].0) {
        None => Got::Done(left, pos),
        Some(op) => match factor_at(ts, after(ts, pos)) {
            Got::Fault(m) => Got::Fault(m),
            Got::Done(right, p) => if pos < p < ts.len() {
                term_rest(ts, Ex::BinOp(op, Box::new(left), Box::new(right)), p)
            } else {
                Got::Fault(Seq::empty())
            },
        },
    }
}

/// Read factors.
pub open spec fn factor_at(ts: Seq<(Tok, int)>, pos: int) -> Got<Ex>
    decreases ts.len() - pos, 7int,
{
    match unary_at(ts, pos) {
        Got::Fault(m) => Got::Fault(m),
        Got::Done(left, p) => if pos < p < ts.len() {
            factor_rest(ts, left, p)
        } else {
            Got::Fault(Seq::empty())
        },
    }
}

/// Go on reading factors, behind the left operand.
pub open spec fn factor_rest(ts: Seq<(Tok, int)>, left: Ex, pos: int) -> Got<Ex>
    decreases ts.len() - pos, 20int,
{
    match factor_op_of(ts[pos].0) {
        None => Got::Done(left, pos),
        Some(op) => match unary_at(ts, after(ts, pos)) {
            Got::Fault(m) => Got::Fault(m),
            Got::Done(right, p) => if pos < p < ts.len() {
                factor_rest(ts, Ex::BinOp(op, Box::new(left), Box::new(right)), p)
            } else {
                Got::Fault(Seq::empty())
            },
        },
    }
}

/// Read an operand with its unary operators.
pub open spec fn unary_at(ts: Seq<(Tok, int)>, pos: int) -> Got<Ex>
    decreases ts.len() - pos, 6int,
{
    if ts[pos].0 == Tok::Minus || ts[pos].0 == Tok::Bang {
        let op = if ts[pos].0 == Tok::Minus {
            UnOp::Neg
        } else {
            UnOp::Not
        };
        if pos < after(ts, pos) {
            match unary_at(ts, after(ts, pos)) {
                Got::Fault(m) => Got::Fault(m),
                Got::Done(e, p) => Got::Done(Ex::UnOp(op, Box::new(e)), p),
            }
        } else {
            Got::Fault(Seq::empty())
        }
    } else {
        primary_at(ts, pos)
    }
}

/// Read an expression and the bracket behind it.
pub open spec fn enclosed_at(ts: Seq<(Tok, int)>, pos: int, close: Tok) -> Got<Ex>
    decreases ts.len() - pos, 13int,
{
    match expr_at(ts, pos) {
        Got::Fault(m) => Got::Fault(m),
        Got::Done(e, p) => match wanted(ts, p, close) {
            Got::Fault(m) => Got::Fault(m),
            Got::Done(_, p) => Got::Done(e, p),
        },
    }
}

/// Read an operand.
pub open spec fn primary_at(ts: Seq<(Tok, int)>, pos: int) -> Got<Ex>
    decreases ts.len() - pos, 5int,
{
    match ts[pos].0 {
        Tok::Int(n) => Got::Done(Ex::Int(n), after(ts, pos)),
        Tok::Ident(name) => {
            let p = after(ts, pos);
            if ts[p].0 == Tok::LBrack {
                if pos < after(ts, p) {
                    match enclosed_at(ts, after(ts, p), Tok::RBrack) {
                        Got::Fault(m) => Got::Fault(m),
                        Got::Done(idx, q) => Got::Done(Ex::Index(name, Box::new(idx)), q),
                    }
                } else {
                    Got::Fault(Seq::empty())
                }
            } else {
                Got::Done(Ex::Var(name), p)
            }
        },
        Tok::LParen => if pos < after(ts, pos) {
            enclosed_at(ts, after(ts, pos), Tok::RParen)
        } else {
            Got::Fault(Seq::empty())
        },
        _ => Got::Fault(expected(ts, pos, "expression"@)),
    }
}

/// Read what can be assigned to.
#[verifier::opaque]
pub open spec fn lvalue_at(ts: Seq<(Tok, int)>, pos: int) -> Got<Lv> {
    match name_at(ts, pos) {
        Got::Fault(m) => Got::Fault(m),
        Got::Done(name, p) => if ts[p].0 == Tok::LBrack {
            match enclosed_at(ts, after(ts, p), Tok::RBrack) {
                Got::Fault(m) => Got::Fault(m),
                Got::Done(idx, q) => Got::Done(Lv::Index(name, idx), q),
            }
        } else {
            Got::Done(Lv::Var(name), p)
        },
    }
}

/// Read `let`, a name, a type and an initial value, if there is one.
#[verifier::opaque]
pub open spec fn let_at(ts: Seq<(Tok, int)>, pos: int) -> Got<Sm> {
    match name_at(ts, after(ts, pos)) {
        Got::Fault(m) => Got::Fault(m),
        Got::Done(name, p) => match wanted(ts, p, Tok::Colon) {
            Got::Fault(m) => Got::Fault(m),
            Got::Done(_, p) => match type_at(ts, p) {
                Got::Fault(m) => Got::Fault(m),
                Got::Done(ty, p) => if ts[p].0 == Tok::Eq {
                    match enclosed_at(ts, after(ts, p), Tok::Semi) {
                        Got::Fault(m) => Got::Fault(m),
                        Got::Done(e, p) => Got::Done(Sm::Let(name, ty, Some(e)), p),
                    }
                } else {
                    match wanted(ts, p, Tok::Semi) {
                        Got::Fault(m) => Got::Fault(m),
                        Got::Done(_, p) => Got::Done(Sm::Let(name, ty, None), p),
                    }
                },
            },
        },
    }
}

/// Read `(`, an expression, `)` and `;` behind a keyword.
#[verifier::opaque]
pub open spec fn argument_at(ts: Seq<(Tok, int)>, pos: int) -> Got<Ex> {
    match wanted(ts, after(ts, pos), Tok::LParen) {
        Got::Fault(m) => Got::Fault(m),
        Got::Done(_, p) => match enclosed_at(ts, p, Tok::RParen) {
            Got::Fault(m) => Got::Fault(m),
            Got::Done(e, p) => match wanted(ts, p, Tok::Semi) {
                Got::Fault(m) => Got::Fault(m),
                Got::Done(_, p) => Got::Done(e, p),
            },
        },
    }
}

/// Read `(`, what can be assigned to, `)` and `;` behind a word.
#[verifier::opaque]
pub open spec fn target_at(ts: Seq<(Tok, int)>, pos: int) -> Got<Lv> {
    match wanted(ts, after(ts, pos), Tok::LParen) {
        Got::Fault(m) => Got::Fault(m),
        Got::Done(_, p) => match lvalue_at(ts, p) {
            Got::Fault(m) => Got::Fault(m),
            Got::Done(lval, p) => match wanted(ts, p, Tok::RParen) {
                Got::Fault(m) => Got::Fault(m),
                Got::Done(_, p) => match wanted(ts, p, Tok::Semi) {
                    Got::Fault(m) => Got::Fault(m),
                    Got::Done(_, p) => Got::Done(lval, p),
                },
            },
        },
    }
}

/// Read what can be assigned to behind `scan`, in brackets or bare, and `;`.
#[verifier::opaque]
pub open spec fn scan_at(ts: Seq<(Tok, int)>, pos: int) -> Got<Sm> {
    if ts[after(ts, pos)].0 is Ident {
        match lvalue_at(ts, after(ts, pos)) {
            Got::Fault(m) => Got::Fault(m),
            Got::Done(lval, p) => match wanted(ts, p, Tok::Semi) {
                Got::Fault(m) => Got::Fault(m),
                Got::Done(_, p) => Got::Done(Sm::Scan(lval), p),
            },
        }
    } else {
        match target_at(ts, pos) {
            Got::Fault(m) => Got::Fault(m),
            Got::Done(lval, p) => Got::Done(Sm::Scan(lval), p),
        }
    }
}

/// Whether a certain name stands at `pos` with a bracket behind it.
pub open spec fn heads(ts: Seq<(Tok, int)>, pos: int, word: Seq<char>) -> bool {
    ts[pos].0 == Tok::Ident(word) && ts[after(ts, pos)].0 == Tok::LParen
}

/// Read `(` and two expressions with `,` behind each, behind a word.
#[verifier::opaque]
pub open spec fn place_at(ts: Seq<(Tok, int)>, pos: int) -> Got<(Ex, Ex)> {
    match wanted(ts, after(ts, pos), Tok::LParen) {
        Got::Fault(m) => Got::Fault(m),
        Got::Done(_, p) => match enclosed_at(ts, p, Tok::Comma) {
            Got::Fault(m) => Got::Fault(m),
            Got::Done(x, p) => match enclosed_at(ts, p, Tok::Comma) {
                Got::Fault(m) => Got::Fault(m),
                Got::Done(y, p) => Got::Done((x, y), p),
            },
        },
    }
}

/// Read `(`, three expressions with `,` between them, `)` and `;` behind a word.
#[verifier::opaque]
pub open spec fn setpixel_at(ts: Seq<(Tok, int)>, pos: int) -> Got<Sm> {
    match place_at(ts, pos) {
        Got::Fault(m) => Got::Fault(m),
        Got::Done(at, p) => match enclosed_at(ts, p, Tok::RParen) {
            Got::Fault(m) => Got::Fault(m),
            Got::Done(color, p) => match wanted(ts, p, Tok::Semi) {
                Got::Fault(m) => Got::Fault(m),
                Got::Done(_, p) => Got::Done(Sm::Setpixel(at.0, at.1, color), p),
            },
        },
    }
}

/// Read an assignment.
#[verifier::opaque]
pub open spec fn assign_at(ts: Seq<(Tok, int)>, pos: int) -> Got<Sm> {
    match lvalue_at(ts, pos) {
        Got::Fault(m) => Got::Fault(m),
        Got::Done(lval, p) => match wanted(ts, p, Tok::Eq) {
            Got::Fault(m) => Got::Fault(m),
            Got::Done(_, p) => match enclosed_at(ts, p, Tok::Semi) {
                Got::Fault(m) => Got::Fault(m),
                Got::Done(e, p) => Got::Done(Sm::Assign(lval, e), p),
            },
        },
    }
}

/// Read statements up to `}` or the end, behind those before.
pub open spec fn stmts_at(ts: Seq<(Tok, int)>, pos: int, done: Seq<Sm>) -> Got<Seq<Sm>>
    decreases ts.len() - pos, 3int,
{
    if ts[pos].0 == Tok::RBrace || ts[pos].0 == Tok::Eof {
        Got::Done(done, pos)
    } else {
        match stmt_at(ts, pos) {
            Got::Fault(m) => Got::Fault(m),
            Got::Done(s, p) => if pos < p < ts.len() {
                stmts_at(ts, p, done.push(s))
            } else {
                Got::Fault(Seq::empty())
            },
        }
    }
}

/// Read statements in braces.
pub open spec fn block_at(ts: Seq<(Tok, int)>, pos: int) -> Got<Seq<Sm>>
    decreases ts.len() - pos, 4int,
{
    match wanted(ts, pos, Tok::LBrace) {
        Got::Fault(m) => Got::Fault(m),
        Got::Done(_, p) => if pos <= p {
            match stmts_at(ts, p, Seq::empty()) {
                Got::Fault(m) => Got::Fault(m),
                Got::Done(body, p) => match wanted(ts, p, Tok::RBrace) {
                    Got::Fault(m) => Got::Fault(m),
                    Got::Done(_, p) => Got::Done(body, p),
                },
            }
        } else {
            Got::Fault(Seq::empty())
        },
    }
}

/// Read a loop.
pub open spec fn while_at(ts: Seq<(Tok, int)>, pos: int) -> Got<Sm>
    decreases ts.len() - pos, 1int,
{
    match expr_at(ts, after(ts, pos)) {
        Got::Fault(m) => Got::Fault(m),
        Got::Done(cond, p) => if pos < p < ts.len() {
            match block_at(ts, p) {
                Got::Fault(m) => Got::Fault(m),
                Got::Done(body, p) => Got::Done(Sm::While(cond, body), p),
            }
        } else {
            Got::Fault(Seq::empty())
        },
    }
}

/// Read a choice.
pub open spec fn if_at(ts: Seq<(Tok, int)>, pos: int) -> Got<Sm>
    decreases ts.len() - pos, 1int,
{
    match expr_at(ts, after(ts, pos)) {
        Got::Fault(m) => Got::Fault(m),
        Got::Done(cond, p) => if pos < p < ts.len() {
            match block_at(ts, p) {
                Got::Fault(m) => Got::Fault(m),
                Got::Done(then_, q) => if ts[q].0 == Tok::Else {
                    if pos < after(ts, q) < ts.len() {
                        match block_at(ts, after(ts, q)) {
                            Got::Fault(m) => Got::Fault(m),
                            Got::Done(else_, q) => Got::Done(Sm::If(cond, then_, Some(else_)), q),
                        }
                    } else {
                        Got::Fault(Seq::empty())
                    }
                } else {
                    Got::Done(Sm::If(cond, then_, None), q)
                },
            }
        } else {
            Got::Fault(Seq::empty())
        },
    }
}

/// Read a statement. `getchar` and `setpixel` are names like others unless a
/// bracket follows.
pub open spec fn stmt_at(ts: Seq<(Tok, int)>, pos: int) -> Got<Sm>
    decreases ts.len() - pos, 2int,
{
    match ts[pos].0 {
        Tok::Let => let_at(ts, pos),
        Tok::While => while_at(ts, pos),
        Tok::If => if_at(ts, pos),
        Tok::Scan => scan_at(ts, pos),
        Tok::Print => match argument_at(ts, pos) {
            Got::Fault(m) => Got::Fault(m),
            Got::Done(e, p) => Got::Done(Sm::Print(e), p),
        },
        Tok::Putchar => match argument_at(ts, pos) {
            Got::Fault(m) => Got::Fault(m),
            Got::Done(e, p) => Got::Done(Sm::Putchar(e), p),
        },
        Tok::Ident(_) => if heads(ts, pos, "getchar"@) {
            match target_at(ts, pos) {
                Got::Fault(m) => Got::Fault(m),
                Got::Done(lval, p) => Got::Done(Sm::Getchar(lval), p),
            }
        } else if heads(ts, pos, "setpixel"@) {
            setpixel_at(ts, pos)
        } else {
            assign_at(ts, pos)
        },
        t => Got::Fault("unexpected token "@ + tok_debug(t) + " at byte "@ + dec(ts[pos].1 as nat)),
    }
}

/// Read a program.
pub open spec fn program_at(ts: Seq<(Tok, int)>) -> Got<Seq<Sm>> {
    match stmts_at(ts, 0, Seq::empty()) {
        Got::Fault(m) => Got::Fault(m),
        Got::Done(stmts, p) => if ts[p].0 == Tok::Eof {
            Got::Done(stmts, p)
        } else {
            Got::Fault("unexpected token "@ + tok_debug(ts[p].0) + " at byte "@ + dec(ts[p].1 as nat))
        },
    }
}

/// Reads tokens in order.
struct Parser<'a> {
    tokens: &'a [SpannedToken],
    pos: usize,
}

impl<'a> Parser<'a> {
    spec fn ts(self) -> Seq<(Tok, int)> {
        toks_view(self.tokens@)
    }

    spec fn at(self) -> int {
        self.pos as int
    }

    spec fn wf(self) -> bool {
        terminated(self.ts()) && self.pos < self.tokens@.len()
    }

    /// The token list is the same, and the place is not further back.
    spec fn behind(self, before: Self) -> bool {
        self.wf() && self.ts() == before.ts() && self.pos >= before.pos
    }

    /// At least one token was passed.
    spec fn beyond(self, before: Self) -> bool {
        self.behind(before) && self.pos > before.pos
    }

    fn cur(&self) -> (t: &Token)
        requires
            self.wf(),
        ensures
            tok_view(*t) == self.ts()[self.at()].0,
    {
        &self.tokens[self.pos].token
    }

    fn cur_pos(&self) -> (n: usize)
        requires
            self.wf(),
        ensures
            n == self.ts()[self.at()].1,
    {
        self.tokens[self.pos].pos
    }

    fn peek(&self, t: &Token) -> (b: bool)
        requires
            self.wf(),
            is_plain(tok_view(*t)),
        ensures
            b == (self.ts()[self.at()].0 == tok_view(*t)),
    {
        same_token(self.cur(), t)
    }

    fn bump(&mut self)
        requires
            old(self).wf(),
        ensures
            final(self).behind(*old(self)),
            final(self).at() == after(old(self).ts(), old(self).at()),
            old(self).ts()[old(self).at()].0 != Tok::Eof ==> final(self).beyond(*old(self)),
    {
        if self.pos < self.tokens.len() - 1 {
            self.pos += 1;
        }
    }

    /// The error that something else was expected.
    fn unexpected(&self, what: &str) -> (e: BfscError)
        requires
            self.wf(),
        ensures
            e@ == Failure::Parse(expected(self.ts(), self.at(), what@)),
    {
        let mut m = String::new();
        m.append("expected ");
        m.append(what);
        m.append(", got ");
        push_token(&mut m, self.cur());
        m.append(" at byte ");
        push_dec(&mut m, self.cur_pos() as u64);
        assert(m@ =~= expected(self.ts(), self.at(), what@));
        BfscError::Parse(m)
    }

    fn expect(&mut self, t: &Token) -> (r: Result<(), BfscError>)
        requires
            old(self).wf(),
            is_plain(tok_view(*t)),
            tok_view(*t) != Tok::Eof,
        ensures
            final(self).behind(*old(self)),
            match wanted(old(self).ts(), old(self).at(), tok_view(*t)) {
                Got::Done(_, p) => r is Ok && final(self).at() == p && final(self).beyond(
                    *old(self),
                ),
                Got::Fault(m) => r is Err && r->Err_0@ == Failure::Parse(m),
            },
    {
        if self.peek(t) {
            self.bump();
            Ok(())
        } else {
            let mut what = String::new();
            push_token(&mut what, t);
            assert(what@ =~= tok_debug(tok_view(*t)));
            Err(self.unexpected(what.as_str()))
        }
    }

    fn cur_scalar(&self) -> (r: Option<ScalarType>)
        requires
            self.wf(),
        ensures
            r == scalar_of(self.ts()[self.at()].0),
    {
        match self.cur() {
            Token::U8 => Some(ScalarType::U8),
            Token::I8 => Some(ScalarType::I8),
            Token::U16 => Some(ScalarType::U16),
            Token::I16 => Some(ScalarType::I16),
            Token::U32 => Some(ScalarType::U32),
            Token::I32 => Some(ScalarType::I32),
            _ => None,
        }
    }

    /// Read a primitive type.
    fn parse_scalar_type(&mut self) -> (r: Result<ScalarType, BfscError>)
        requires
            old(self).wf(),
        ensures
            final(self).behind(*old(self)),
            match scalar_at(old(self).ts(), old(self).at()) {
                Got::Done(v, p) => r is Ok && r->Ok_0 == v && final(self).at() == p && final(self).beyond(*old(self)),
                Got::Fault(m) => r is Err && r->Err_0@ == Failure::Parse(m),
            },
    {
        match self.cur_scalar() {
            Some(st) => {
                self.bump();
                Ok(st)
            },
            None => Err(self.unexpected("scalar type")),
        }
    }

    /// Read an array size.
    fn parse_size(&mut self) -> (r: Result<u32, BfscError>)
        requires
            old(self).wf(),
        ensures
            final(self).behind(*old(self)),
            match size_at(old(self).ts(), old(self).at()) {
                Got::Done(v, p) => r is Ok && r->Ok_0 == v && final(self).at() == p && final(self).beyond(*old(self)),
                Got::Fault(m) => r is Err && r->Err_0@ == Failure::Parse(m),
            },
    {
        match self.cur() {
            Token::Int(n) => {
                let n = (*n % 0x1_0000_0000) as u32;
                self.bump();
                Ok(n)
            },
            _ => {
                let mut m = String::new();
                m.append("expected array size at byte ");
                push_dec(&mut m, self.cur_pos() as u64);
                assert(m@ =~= "expected array size at byte "@ + dec(
                    self.ts()[self.at()].1 as nat,
                ));
                Err(BfscError::Parse(m))
            },
        }
    }

    /// Read a type.
    fn parse_type(&mut self) -> (r: Result<TypeAnn, BfscError>)
        requires
            old(self).wf(),
        ensures
            final(self).behind(*old(self)),
            match type_at(old(self).ts(), old(self).at()) {
                Got::Done(v, p) => r is Ok && r->Ok_0 == v && final(self).at() == p && final(self).beyond(*old(self)),
                Got::Fault(m) => r is Err && r->Err_0@ == Failure::Parse(m),
            },
    {
        proof {
            reveal(type_at);
        }
        match self.cur_scalar() {
            Some(st) => {
                self.bump();
                return Ok(TypeAnn::Scalar(st));
            },
            None => {},
        }
        if !self.peek(&Token::LBrack) {
            return Err(self.unexpected("type"));
        }
        self.bump();
        let elem = match self.parse_scalar_type() {
            Ok(v) => v,
            Err(e) => {
                return Err(e);
            },
        };
        match self.expect(&Token::Semi) {
            Ok(()) => {},
            Err(e) => {
                return Err(e);
            },
        }
        let n = match self.parse_size() {
            Ok(v) => v,
            Err(e) => {
                return Err(e);
            },
        };
        match self.expect(&Token::RBrack) {
            Ok(()) => {},
            Err(e) => {
                return Err(e);
            },
        }
        Ok(TypeAnn::Array(elem, n))
    }

    /// Read an identifier.
    fn parse_name(&mut self) -> (r: Result<String, BfscError>)
        requires
            old(self).wf(),
        ensures
            final(self).behind(*old(self)),
            match name_at(old(self).ts(), old(self).at()) {
                Got::Done(v, p) => r is Ok && r->Ok_0@ == v && final(self).at() == p && final(self).beyond(*old(self)),
                Got::Fault(m) => r is Err && r->Err_0@ == Failure::Parse(m),
            },
    {
        let found: Option<String> = match self.cur() {
            Token::Ident(name) => Some(owned(name.as_str())),
            _ => None,
        };
        match found {
            Some(name) => {
                self.bump();
                Ok(name)
            },
            None => {
                let mut m = String::new();
                m.append("expected identifier, got ");
                push_token(&mut m, self.cur());
                assert(m@ =~= "expected identifier, got "@ + tok_debug(self.ts()[self.at()].0));
                Err(BfscError::Parse(m))
            },
        }
    }

    /// Read an expression.
    fn parse_expr(&mut self) -> (r: Result<Expr, BfscError>)
        requires
            old(self).wf(),
        ensures
            final(self).behind(*old(self)),
            match expr_at(old(self).ts(), old(self).at()) {
                Got::Done(v, p) => r is Ok && expr_view(r->Ok_0) == v && final(self).at() == p && final(self).beyond(*old(self)),
                Got::Fault(m) => r is Err && r->Err_0@ == Failure::Parse(m),
            },
        decreases old(self).ts().len() - old(self).pos, 12int,
    {
        self.parse_or()
    }

    /// The operator that the current token is, if any.
    fn cur_or_op(&self) -> (r: Option<BinOp>)
        requires
            self.wf(),
        ensures
            r == or_op_of(self.ts()[self.at()].0),
    {
        match self.cur() {
            Token::PipePipe => Some(BinOp::Or),
            _ => None,
        }
    }

    /// Read disjuncts.
    fn parse_or(&mut self) -> (r: Result<Expr, BfscError>)
        requires
            old(self).wf(),
        ensures
            final(self).behind(*old(self)),
            match or_at(old(self).ts(), old(self).at()) {
                Got::Done(v, p) => r is Ok && expr_view(r->Ok_0) == v && final(self).at() == p && final(self).beyond(*old(self)),
                Got::Fault(m) => r is Err && r->Err_0@ == Failure::Parse(m),
            },
        decreases old(self).ts().len() - old(self).pos, 11int,
    {
        let ghost ts = self.ts();
        let ghost start = self.at();
        let left = match self.parse_and() {
            Ok(v) => v,
            Err(e) => {
                return Err(e);
            },
        };
        let mut left = left;
        let ghost goal = or_at(ts, start);
        loop
            invariant
                self.wf(),
                self.ts() == ts,
                ts == old(self).ts(),
                start == old(self).at(),
                start < self.at(),
                goal == or_at(ts, start),
                goal == or_rest(ts, expr_view(left), self.at()),
            ensures
                self.wf(),
                self.ts() == ts,
                start < self.at(),
                goal == Got::Done(expr_view(left), self.at()),
            decreases ts.len() - self.pos,
        {
            match self.cur_or_op() {
                None => {
                    break ;
                },
                Some(op) => {
                    self.bump();
                    match self.parse_and() {
                        Ok(right) => {
                            left = Expr::BinOp(op, Box::new(left), Box::new(right));
                        },
                        Err(e) => {
                            return Err(e);
                        },
                    }
                },
            }
        }
        Ok(left)
    }

    /// The operator that the current token is, if any.
    fn cur_and_op(&self) -> (r: Option<BinOp>)
        requires
            self.wf(),
        ensures
            r == and_op_of(self.ts()[self.at()].0),
    {
        match self.cur() {
            Token::AmpAmp => Some(BinOp::And),
            _ => None,
        }
    }

    /// Read conjuncts.
    fn parse_and(&mut self) -> (r: Result<Expr, BfscError>)
        requires
            old(self).wf(),
        ensures
            final(self).behind(*old(self)),
            match and_at(old(self).ts(), old(self).at()) {
                Got::Done(v, p) => r is Ok && expr_view(r->Ok_0) == v && final(self).at() == p && final(self).beyond(*old(self)),
                Got::Fault(m) => r is Err && r->Err_0@ == Failure::Parse(m),
            },
        decreases old(self).ts().len() - old(self).pos, 10int,
    {
        let ghost ts = self.ts();
        let ghost start = self.at();
        let left = match self.parse_relation() {
            Ok(v) => v,
            Err(e) => {
                return Err(e);
            },
        };
        let mut left = left;
        let ghost goal = and_at(ts, start);
        loop
            invariant
                self.wf(),
                self.ts() == ts,
                ts == old(self).ts(),
                start == old(self).at(),
                start < self.at(),
                goal == and_at(ts, start),
                goal == and_rest(ts, expr_view(left), self.at()),
            ensures
                self.wf(),
                self.ts() == ts,
                start < self.at(),
                goal == Got::Done(expr_view(left), self.at()),
            decreases ts.len() - self.pos,
        {
            match self.cur_and_op() {
                None => {
                    break ;
                },
                Some(op) => {
                    self.bump();
                    match self.parse_relation() {
                        Ok(right) => {
                            left = Expr::BinOp(op, Box::new(left), Box::new(right));
                        },
                        Err(e) => {
                            return Err(e);
                        },
                    }
                },
            }
        }
        Ok(left)
    }

    /// The comparison that the current token is, if any.
    fn cur_relation(&self) -> (r: Option<BinOp>)
        requires
            self.wf(),
        ensures
            r == relation_of(self.ts()[self.at()].0),
    {
        match self.cur() {
            Token::Lt => Some(BinOp::Lt),
            Token::Gt => Some(BinOp::Gt),
            Token::Le => Some(BinOp::Le),
            Token::Ge => Some(BinOp::Ge),
            Token::EqEq => Some(BinOp::EqEq),
            Token::BangEq => Some(BinOp::Ne),
            _ => None,
        }
    }

    /// Read a comparison.
    fn parse_relation(&mut self) -> (r: Result<Expr, BfscError>)
        requires
            old(self).wf(),
        ensures
            final(self).behind(*old(self)),
            match relation_at(old(self).ts(), old(self).at()) {
                Got::Done(v, p) => r is Ok && expr_view(r->Ok_0) == v && final(self).at() == p && final(self).beyond(*old(self)),
                Got::Fault(m) => r is Err && r->Err_0@ == Failure::Parse(m),
            },
        decreases old(self).ts().len() - old(self).pos, 9int,
    {
        let left = match self.parse_add() {
            Ok(v) => v,
            Err(e) => {
                return Err(e);
            },
        };
        match self.cur_relation() {
            None => Ok(left),
            Some(op) => {
                self.bump();
                match self.parse_add() {
                    Ok(right) => Ok(Expr::BinOp(op, Box::new(left), Box::new(right))),
                    Err(e) => Err(e),
                }
            },
        }
    }

    /// The operator that the current token is, if any.
    fn cur_term_op(&self) -> (r: Option<BinOp>)
        requires
            self.wf(),
        ensures
            r == term_op_of(self.ts()[self.at()].0),
    {
        match self.cur() {
            Token::Plus => Some(BinOp::Add),
            Token::Minus => Some(BinOp::Sub),
            _ => None,
        }
    }

    /// Read terms.
    fn parse_add(&mut self) -> (r: Result<Expr, BfscError>)
        requires
            old(self).wf(),
        ensures
            final(self).behind(*old(self)),
            match term_at(old(self).ts(), old(self).at()) {
                Got::Done(v, p) => r is Ok && expr_view(r->Ok_0) == v && final(self).at() == p && final(self).beyond(*old(self)),
                Got::Fault(m) => r is Err && r->Err_0@ == Failure::Parse(m),
            },
        decreases old(self).ts().len() - old(self).pos, 8int,
    {
        let ghost ts = self.ts();
        let ghost start = self.at();
        let left = match self.parse_mul() {
            Ok(v) => v,
            Err(e) => {
                return Err(e);
            },
        };
        let mut left = left;
        let ghost goal = term_at(ts, start);
        loop
            invariant
                self.wf(),
                self.ts() == ts,
                ts == old(self).ts(),
                start == old(self).at(),
                start < self.at(),
                goal == term_at(ts, start),
                goal == term_rest(ts, expr_view(left), self.at()),
            ensures
                self.wf(),
                self.ts() == ts,
                start < self.at(),
                goal == Got::Done(expr_view(left), self.at()),
            decreases ts.len() - self.pos,
        {
            match self.cur_term_op() {
                None => {
                    break ;
                },
                Some(op) => {
                    self.bump();
                    match self.parse_mul() {
                        Ok(right) => {
                            left = Expr::BinOp(op, Box::new(left), Box::new(right));
                        },
                        Err(e) => {
                            return Err(e);
                        },
                    }
                },
            }
        }
        Ok(left)
    }

    /// The operator that the current token is, if any.
    fn cur_factor_op(&self) -> (r: Option<BinOp>)
        requires
            self.wf(),
        ensures
            r == factor_op_of(self.ts()[self.at()].0),
    {
        match self.cur() {
            Token::Star => Some(BinOp::Mul),
            Token::Slash => Some(BinOp::Div),
            Token::Percent => Some(BinOp::Rem),
            _ => None,
        }
    }

    /// Read factors.
    fn parse_mul(&mut self) -> (r: Result<Expr, BfscError>)
        requires
            old(self).wf(),
        ensures
            final(self).behind(*old(self)),
            match factor_at(old(self).ts(), old(self).at()) {
                Got::Done(v, p) => r is Ok && expr_view(r->Ok_0) == v && final(self).at() == p && final(self).beyond(*old(self)),
                Got::Fault(m) => r is Err && r->Err_0@ == Failure::Parse(m),
            },
        decreases old(self).ts().len() - old(self).pos, 7int,
    {
        let ghost ts = self.ts();
        let ghost start = self.at();
        let left = match self.parse_unary() {
            Ok(v) => v,
            Err(e) => {
                return Err(e);
            },
        };
        let mut left = left;
        let ghost goal = factor_at(ts, start);
        loop
            invariant
                self.wf(),
                self.ts() == ts,
                ts == old(self).ts(),
                start == old(self).at(),
                start < self.at(),
                goal == factor_at(ts, start),
                goal == factor_rest(ts, expr_view(left), self.at()),
            ensures
                self.wf(),
                self.ts() == ts,
                start < self.at(),
                goal == Got::Done(expr_view(left), self.at()),
            decreases ts.len() - self.pos,
        {
            match self.cur_factor_op() {
                None => {
                    break ;
                },
                Some(op) => {
                    self.bump();
                    match self.parse_unary() {
                        Ok(right) => {
                            left = Expr::BinOp(op, Box::new(left), Box::new(right));
                        },
                        Err(e) => {
                            return Err(e);
                        },
                    }
                },
            }
        }
        Ok(left)
    }

    /// Read an operand with its unary operators.
    fn parse_unary(&mut self) -> (r: Result<Expr, BfscError>)
        requires
            old(self).wf(),
        ensures
            final(self).behind(*old(self)),
            match unary_at(old(self).ts(), old(self).at()) {
                Got::Done(v, p) => r is Ok && expr_view(r->Ok_0) == v && final(self).at() == p && final(self).beyond(*old(self)),
                Got::Fault(m) => r is Err && r->Err_0@ == Failure::Parse(m),
            },
        decreases old(self).ts().len() - old(self).pos, 6int,
    {
        if self.peek(&Token::Minus) {
            self.bump();
            return match self.parse_unary() {
                Ok(e) => Ok(Expr::UnOp(UnOp::Neg, Box::new(e))),
                Err(e) => Err(e),
            };
        }
        if self.peek(&Token::Bang) {
            self.bump();
            return match self.parse_unary() {
                Ok(e) => Ok(Expr::UnOp(UnOp::Not, Box::new(e))),
                Err(e) => Err(e),
            };
        }
        self.parse_primary()
    }

    /// Read an expression and the token behind it.
    fn parse_enclosed(&mut self, close: &Token) -> (r: Result<Expr, BfscError>)
        requires
            old(self).wf(),
            is_plain(tok_view(*close)),
            tok_view(*close) != Tok::Eof,
        ensures
            final(self).behind(*old(self)),
            match enclosed_at(old(self).ts(), old(self).at(), tok_view(*close)) {
                Got::Done(v, p) => r is Ok && expr_view(r->Ok_0) == v && final(self).at() == p && final(self).beyond(*old(self)),
                Got::Fault(m) => r is Err && r->Err_0@ == Failure::Parse(m),
            },
        decreases old(self).ts().len() - old(self).pos, 13int,
    {
        let e = match self.parse_expr() {
            Ok(v) => v,
            Err(e) => {
                return Err(e);
            },
        };
        match self.expect(close) {
            Ok(()) => {},
            Err(e) => {
                return Err(e);
            },
        }
        Ok(e)
    }

    /// Read an operand.
    fn parse_primary(&mut self) -> (r: Result<Expr, BfscError>)
        requires
            old(self).wf(),
        ensures
            final(self).behind(*old(self)),
            match primary_at(old(self).ts(), old(self).at()) {
                Got::Done(v, p) => r is Ok && expr_view(r->Ok_0) == v && final(self).at() == p && final(self).beyond(*old(self)),
                Got::Fault(m) => r is Err && r->Err_0@ == Failure::Parse(m),
            },
        decreases old(self).ts().len() - old(self).pos, 5int,
    {
        match self.cur() {
            Token::Int(n) => {
                let n = *n;
                self.bump();
                Ok(Expr::Int(n))
            },
            Token::Ident(name) => {
                let name = owned(name.as_str());
                self.bump();
                if self.peek(&Token::LBrack) {
                    self.bump();
                    match self.parse_enclosed(&Token::RBrack) {
                        Ok(idx) => Ok(Expr::Index(name, Box::new(idx))),
                        Err(e) => Err(e),
                    }
                } else {
                    Ok(Expr::Var(name))
                }
            },
            Token::LParen => {
                self.bump();
                self.parse_enclosed(&Token::RParen)
            },
            _ => Err(self.unexpected("expression")),
        }
    }

    /// Read what can be assigned to.
    fn parse_lvalue(&mut self) -> (r: Result<LValue, BfscError>)
        requires
            old(self).wf(),
        ensures
            final(self).behind(*old(self)),
            match lvalue_at(old(self).ts(), old(self).at()) {
                Got::Done(v, p) => r is Ok && lvalue_view(r->Ok_0) == v && final(self).at() == p && final(self).beyond(*old(self)),
                Got::Fault(m) => r is Err && r->Err_0@ == Failure::Parse(m),
            },
    {
        proof {
            reveal(lvalue_at);
        }
        let name = match self.parse_name() {
            Ok(v) => v,
            Err(e) => {
                return Err(e);
            },
        };
        if self.peek(&Token::LBrack) {
            self.bump();
            match self.parse_enclosed(&Token::RBrack) {
                Ok(idx) => Ok(LValue::Index(name, Box::new(idx))),
                Err(e) => Err(e),
            }
        } else {
            Ok(LValue::Var(name))
        }
    }

    /// Read a declaration.
    fn parse_let(&mut self) -> (r: Result<Stmt, BfscError>)
        requires
            old(self).wf(),
            old(self).ts()[old(self).at()].0 == Tok::Let,
        ensures
            final(self).behind(*old(self)),
            match let_at(old(self).ts(), old(self).at()) {
                Got::Done(v, p) => r is Ok && stmt_view(r->Ok_0) == v && final(self).at() == p && final(self).beyond(*old(self)),
                Got::Fault(m) => r is Err && r->Err_0@ == Failure::Parse(m),
            },
    {
        proof {
            reveal(let_at);
        }
        self.bump();
        let name = match self.parse_name() {
            Ok(v) => v,
            Err(e) => {
                return Err(e);
            },
        };
        match self.expect(&Token::Colon) {
            Ok(()) => {},
            Err(e) => {
                return Err(e);
            },
        }
        let ty = match self.parse_type() {
            Ok(v) => v,
            Err(e) => {
                return Err(e);
            },
        };
        let init: Option<Expr> = if self.peek(&Token::Eq) {
            self.bump();
            match self.parse_enclosed(&Token::Semi) {
                Ok(e) => Some(e),
                Err(e) => {
                    return Err(e);
                },
            }
        } else {
            match self.expect(&Token::Semi) {
                Ok(()) => {},
                Err(e) => {
                    return Err(e);
                },
            }
            None
        };
        Ok(Stmt::Let { name, ty, init })
    }

    /// Read what stands in brackets behind a keyword.
    fn parse_argument(&mut self) -> (r: Result<Expr, BfscError>)
        requires
            old(self).wf(),
            old(self).ts()[old(self).at()].0 != Tok::Eof,
        ensures
            final(self).behind(*old(self)),
            match argument_at(old(self).ts(), old(self).at()) {
                Got::Done(v, p) => r is Ok && expr_view(r->Ok_0) == v && final(self).at() == p && final(self).beyond(*old(self)),
                Got::Fault(m) => r is Err && r->Err_0@ == Failure::Parse(m),
            },
    {
        proof {
            reveal(argument_at);
        }
        self.bump();
        match self.expect(&Token::LParen) {
            Ok(()) => {},
            Err(e) => {
                return Err(e);
            },
        }
        let e = match self.parse_enclosed(&Token::RParen) {
            Ok(v) => v,
            Err(e) => {
                return Err(e);
            },
        };
        match self.expect(&Token::Semi) {
            Ok(()) => {},
            Err(e) => {
                return Err(e);
            },
        }
        Ok(e)
    }

    /// Read what stands in brackets behind a word and can be assigned to.
    fn parse_target(&mut self) -> (r: Result<LValue, BfscError>)
        requires
            old(self).wf(),
            old(self).ts()[old(self).at()].0 != Tok::Eof,
        ensures
            final(self).behind(*old(self)),
            match target_at(old(self).ts(), old(self).at()) {
                Got::Done(v, p) => r is Ok && lvalue_view(r->Ok_0) == v && final(self).at() == p && final(self).beyond(*old(self)),
                Got::Fault(m) => r is Err && r->Err_0@ == Failure::Parse(m),
            },
    {
        proof {
            reveal(target_at);
        }
        self.bump();
        match self.expect(&Token::LParen) {
            Ok(()) => {},
            Err(e) => {
                return Err(e);
            },
        }
        let lval = match self.parse_lvalue() {
            Ok(v) => v,
            Err(e) => {
                return Err(e);
            },
        };
        match self.expect(&Token::RParen) {
            Ok(()) => {},
            Err(e) => {
                return Err(e);
            },
        }
        match self.expect(&Token::Semi) {
            Ok(()) => {},
            Err(e) => {
                return Err(e);
            },
        }
        Ok(lval)
    }

    /// The token behind the current one.
    fn ahead(&self) -> (t: &Token)
        requires
            self.wf(),
        ensures
            tok_view(*t) == self.ts()[after(self.ts(), self.at())].0,
    {
        if self.pos < self.tokens.len() - 1 {
            &self.tokens[self.pos + 1].token
        } else {
            &self.tokens[self.pos].token
        }
    }

    /// Whether a certain name stands here with a bracket behind it.
    fn peek_word(&self, word: &str) -> (b: bool)
        requires
            self.wf(),
        ensures
            b == heads(self.ts(), self.at(), word@),
    {
        match self.cur() {
            Token::Ident(name) => same_text(name.as_str(), word) && same_token(
                self.ahead(),
                &Token::LParen,
            ),
            _ => false,
        }
    }

    /// Read a `scan` statement.
    fn parse_scan(&mut self) -> (r: Result<Stmt, BfscError>)
        requires
            old(self).wf(),
            old(self).ts()[old(self).at()].0 == Tok::Scan,
        ensures
            final(self).behind(*old(self)),
            match scan_at(old(self).ts(), old(self).at()) {
                Got::Done(v, p) => r is Ok && stmt_view(r->Ok_0) == v && final(self).at() == p && final(self).beyond(*old(self)),
                Got::Fault(m) => r is Err && r->Err_0@ == Failure::Parse(m),
            },
    {
        proof {
            reveal(scan_at);
        }
        let bare = match self.ahead() {
            Token::Ident(_) => true,
            _ => false,
        };
        if !bare {
            return match self.parse_target() {
                Ok(lval) => Ok(Stmt::Scan(lval)),
                Err(e) => Err(e),
            };
        }
        self.bump();
        let lval = match self.parse_lvalue() {
            Ok(v) => v,
            Err(e) => {
                return Err(e);
            },
        };
        match self.expect(&Token::Semi) {
            Ok(()) => {},
            Err(e) => {
                return Err(e);
            },
        }
        Ok(Stmt::Scan(lval))
    }

    /// Read where a pixel lies.
    fn parse_place(&mut self) -> (r: Result<(Expr, Expr), BfscError>)
        requires
            old(self).wf(),
            old(self).ts()[old(self).at()].0 != Tok::Eof,
        ensures
            final(self).behind(*old(self)),
            match place_at(old(self).ts(), old(self).at()) {
                Got::Done(v, p) => r is Ok && expr_view(r->Ok_0.0) == v.0 && expr_view(r->Ok_0.1)
                    == v.1 && final(self).at() == p && final(self).beyond(*old(self)),
                Got::Fault(m) => r is Err && r->Err_0@ == Failure::Parse(m),
            },
    {
        proof {
            reveal(place_at);
        }
        self.bump();
        match self.expect(&Token::LParen) {
            Ok(()) => {},
            Err(e) => {
                return Err(e);
            },
        }
        let x = match self.parse_enclosed(&Token::Comma) {
            Ok(v) => v,
            Err(e) => {
                return Err(e);
            },
        };
        match self.parse_enclosed(&Token::Comma) {
            Ok(y) => Ok((x, y)),
            Err(e) => Err(e),
        }
    }

    /// Read a `setpixel` statement.
    fn parse_setpixel(&mut self) -> (r: Result<Stmt, BfscError>)
        requires
            old(self).wf(),
            old(self).ts()[old(self).at()].0 != Tok::Eof,
        ensures
            final(self).behind(*old(self)),
            match setpixel_at(old(self).ts(), old(self).at()) {
                Got::Done(v, p) => r is Ok && stmt_view(r->Ok_0) == v && final(self).at() == p && final(self).beyond(*old(self)),
                Got::Fault(m) => r is Err && r->Err_0@ == Failure::Parse(m),
            },
    {
        proof {
            reveal(setpixel_at);
        }
        let (x, y) = match self.parse_place() {
            Ok(v) => v,
            Err(e) => {
                return Err(e);
            },
        };
        let color = match self.parse_enclosed(&Token::RParen) {
            Ok(v) => v,
            Err(e) => {
                return Err(e);
            },
        };
        match self.expect(&Token::Semi) {
            Ok(()) => {},
            Err(e) => {
                return Err(e);
            },
        }
        Ok(Stmt::Setpixel { x, y, color })
    }

    /// Read a `getchar` statement.
    fn parse_getchar(&mut self) -> (r: Result<Stmt, BfscError>)
        requires
            old(self).wf(),
            heads(old(self).ts(), old(self).at(), "getchar"@),
        ensures
            final(self).behind(*old(self)),
            match stmt_at(old(self).ts(), old(self).at()) {
                Got::Done(v, p) => r is Ok && stmt_view(r->Ok_0) == v && final(self).at() == p && final(self).beyond(*old(self)),
                Got::Fault(m) => r is Err && r->Err_0@ == Failure::Parse(m),
            },
    {
        match self.parse_target() {
            Ok(lval) => Ok(Stmt::Getchar(lval)),
            Err(e) => Err(e),
        }
    }

    /// Read a `print` statement.
    fn parse_print(&mut self) -> (r: Result<Stmt, BfscError>)
        requires
            old(self).wf(),
            old(self).ts()[old(self).at()].0 == Tok::Print,
        ensures
            final(self).behind(*old(self)),
            match stmt_at(old(self).ts(), old(self).at()) {
                Got::Done(v, p) => r is Ok && stmt_view(r->Ok_0) == v && final(self).at() == p && final(self).beyond(*old(self)),
                Got::Fault(m) => r is Err && r->Err_0@ == Failure::Parse(m),
            },
    {
        match self.parse_argument() {
            Ok(e) => Ok(Stmt::Print(e)),
            Err(e) => Err(e),
        }
    }

    /// Read a `putchar` statement.
    fn parse_putchar(&mut self) -> (r: Result<Stmt, BfscError>)
        requires
            old(self).wf(),
            old(self).ts()[old(self).at()].0 == Tok::Putchar,
        ensures
            final(self).behind(*old(self)),
            match stmt_at(old(self).ts(), old(self).at()) {
                Got::Done(v, p) => r is Ok && stmt_view(r->Ok_0) == v && final(self).at() == p && final(self).beyond(*old(self)),
                Got::Fault(m) => r is Err && r->Err_0@ == Failure::Parse(m),
            },
    {
        match self.parse_argument() {
            Ok(e) => Ok(Stmt::Putchar(e)),
            Err(e) => Err(e),
        }
    }

    /// Read an assignment.
    fn parse_assign(&mut self) -> (r: Result<Stmt, BfscError>)
        requires
            old(self).wf(),
        ensures
            final(self).behind(*old(self)),
            match assign_at(old(self).ts(), old(self).at()) {
                Got::Done(v, p) => r is Ok && stmt_view(r->Ok_0) == v && final(self).at() == p && final(self).beyond(*old(self)),
                Got::Fault(m) => r is Err && r->Err_0@ == Failure::Parse(m),
            },
    {
        proof {
            reveal(assign_at);
        }
        let lval = match self.parse_lvalue() {
            Ok(v) => v,
            Err(e) => {
                return Err(e);
            },
        };
        match self.expect(&Token::Eq) {
            Ok(()) => {},
            Err(e) => {
                return Err(e);
            },
        }
        let expr = match self.parse_enclosed(&Token::Semi) {
            Ok(v) => v,
            Err(e) => {
                return Err(e);
            },
        };
        Ok(Stmt::Assign { lval, expr })
    }

    /// Read statements up to `}` or the end.
    fn parse_stmts(&mut self) -> (r: Result<Vec<Stmt>, BfscError>)
        requires
            old(self).wf(),
        ensures
            final(self).behind(*old(self)),
            match stmts_at(old(self).ts(), old(self).at(), Seq::empty()) {
                Got::Done(v, p) => r is Ok && stmts_view(r->Ok_0@) == v && final(self).at() == p,
                Got::Fault(m) => r is Err && r->Err_0@ == Failure::Parse(m),
            },
        decreases old(self).ts().len() - old(self).pos, 3int,
    {
        let ghost ts = self.ts();
        let ghost goal = stmts_at(ts, self.at(), Seq::empty());
        let mut stmts: Vec<Stmt> = Vec::new();
        while !self.peek(&Token::RBrace) && !self.peek(&Token::Eof)
            invariant
                self.wf(),
                self.ts() == ts,
                ts == old(self).ts(),
                self.pos >= old(self).pos,
                goal == stmts_at(ts, old(self).at(), Seq::empty()),
                goal == stmts_at(ts, self.at(), stmts_view(stmts@)),
            decreases ts.len() - self.pos,
        {
            match self.parse_stmt() {
                Ok(s) => {
                    proof {
                        lemma_stmts_push(stmts@, s);
                    }
                    stmts.push(s);
                },
                Err(e) => {
                    return Err(e);
                },
            }
        }
        Ok(stmts)
    }

    /// Read statements in braces.
    fn parse_block(&mut self) -> (r: Result<Vec<Stmt>, BfscError>)
        requires
            old(self).wf(),
        ensures
            final(self).behind(*old(self)),
            match block_at(old(self).ts(), old(self).at()) {
                Got::Done(v, p) => r is Ok && stmts_view(r->Ok_0@) == v && final(self).at() == p && final(self).beyond(*old(self)),
                Got::Fault(m) => r is Err && r->Err_0@ == Failure::Parse(m),
            },
        decreases old(self).ts().len() - old(self).pos, 4int,
    {
        match self.expect(&Token::LBrace) {
            Ok(()) => {},
            Err(e) => {
                return Err(e);
            },
        }
        let stmts = match self.parse_stmts() {
            Ok(v) => v,
            Err(e) => {
                return Err(e);
            },
        };
        match self.expect(&Token::RBrace) {
            Ok(()) => {},
            Err(e) => {
                return Err(e);
            },
        }
        Ok(stmts)
    }

    /// Read a loop.
    fn parse_while(&mut self) -> (r: Result<Stmt, BfscError>)
        requires
            old(self).wf(),
            old(self).ts()[old(self).at()].0 == Tok::While,
        ensures
            final(self).behind(*old(self)),
            match while_at(old(self).ts(), old(self).at()) {
                Got::Done(v, p) => r is Ok && stmt_view(r->Ok_0) == v && final(self).at() == p && final(self).beyond(*old(self)),
                Got::Fault(m) => r is Err && r->Err_0@ == Failure::Parse(m),
            },
        decreases old(self).ts().len() - old(self).pos, 1int,
    {
        self.bump();
        let cond = match self.parse_expr() {
            Ok(v) => v,
            Err(e) => {
                return Err(e);
            },
        };
        let body = match self.parse_block() {
            Ok(v) => v,
            Err(e) => {
                return Err(e);
            },
        };
        Ok(Stmt::While { cond, body })
    }

    /// Read a choice.
    fn parse_if(&mut self) -> (r: Result<Stmt, BfscError>)
        requires
            old(self).wf(),
            old(self).ts()[old(self).at()].0 == Tok::If,
        ensures
            final(self).behind(*old(self)),
            match if_at(old(self).ts(), old(self).at()) {
                Got::Done(v, p) => r is Ok && stmt_view(r->Ok_0) == v && final(self).at() == p && final(self).beyond(*old(self)),
                Got::Fault(m) => r is Err && r->Err_0@ == Failure::Parse(m),
            },
        decreases old(self).ts().len() - old(self).pos, 1int,
    {
        self.bump();
        let cond = match self.parse_expr() {
            Ok(v) => v,
            Err(e) => {
                return Err(e);
            },
        };
        let then_ = match self.parse_block() {
            Ok(v) => v,
            Err(e) => {
                return Err(e);
            },
        };
        let else_: Option<Vec<Stmt>> = if self.peek(&Token::Else) {
            self.bump();
            match self.parse_block() {
                Ok(b) => Some(b),
                Err(e) => {
                    return Err(e);
                },
            }
        } else {
            None
        };
        Ok(Stmt::If { cond, then_, else_ })
    }

    /// The error that a token cannot stand here.
    fn stray(&self) -> (e: BfscError)
        requires
            self.wf(),
        ensures
            e@ == Failure::Parse(
                "unexpected token "@ + tok_debug(self.ts()[self.at()].0) + " at byte "@ + dec(
                    self.ts()[self.at()].1 as nat,
                ),
            ),
    {
        let mut m = String::new();
        m.append("unexpected token ");
        push_token(&mut m, self.cur());
        m.append(" at byte ");
        push_dec(&mut m, self.cur_pos() as u64);
        assert(m@ =~= "unexpected token "@ + tok_debug(self.ts()[self.at()].0) + " at byte "@ + dec(
            self.ts()[self.at()].1 as nat,
        ));
        BfscError::Parse(m)
    }

    /// Read a statement.
    fn parse_stmt(&mut self) -> (r: Result<Stmt, BfscError>)
        requires
            old(self).wf(),
        ensures
            final(self).behind(*old(self)),
            match stmt_at(old(self).ts(), old(self).at()) {
                Got::Done(v, p) => r is Ok && stmt_view(r->Ok_0) == v && final(self).at() == p && final(self).beyond(*old(self)),
                Got::Fault(m) => r is Err && r->Err_0@ == Failure::Parse(m),
            },
        decreases old(self).ts().len() - old(self).pos, 2int,
    {
        match self.cur() {
            Token::Let => self.parse_let(),
            Token::While => self.parse_while(),
            Token::If => self.parse_if(),
            Token::Scan => self.parse_scan(),
            Token::Print => self.parse_print(),
            Token::Putchar => self.parse_putchar(),
            Token::Ident(_) => {
                if self.peek_word("getchar") {
                    self.parse_getchar()
                } else if self.peek_word("setpixel") {
                    self.parse_setpixel()
                } else {
                    self.parse_assign()
                }
            },
            _ => Err(self.stray()),
        }
    }
}

/// Parse a token list that ends with the end of the source.
pub fn parse(tokens: &[SpannedToken]) -> (r: Result<Vec<Stmt>, BfscError>)
    requires
        terminated(toks_view(tokens@)),
    ensures
        match program_at(toks_view(tokens@)) {
            Got::Done(stmts, _) => r is Ok && stmts_view(r->Ok_0@) == stmts,
            Got::Fault(m) => r is Err && r->Err_0@ == Failure::Parse(m),
        },
{
    let mut p = Parser { tokens, pos: 0 };
    let stmts = match p.parse_stmts() {
        Ok(v) => v,
        Err(e) => {
            return Err(e);
        },
    };
    if !p.peek(&Token::Eof) {
        return Err(p.stray());
    }
    Ok(stmts)
}

} // verus!
