//! Precedence and associativity: expressions written with the fewest brackets read back
//! as themselves.

use vstd::prelude::*;

use crate::bfsc::ast::{BinOp, Ex, Sm, UnOp};
use crate::bfsc::lexer::Tok;
use crate::bfsc::parser::{
    and_at, and_rest, argument_at, enclosed_at, expr_at, factor_at, factor_rest, or_at, or_rest,
    primary_at, program_at, relation_at, stmt_at, stmts_at, term_at, term_rest, unary_at, Got,
};

verus! {

/// How a binary operator is written.
pub open spec fn symbol(op: BinOp) -> Tok {
    match op {
        BinOp::Add => Tok::Plus,
        BinOp::Sub => Tok::Minus,
        BinOp::Mul => Tok::Star,
        BinOp::Div => Tok::Slash,
        BinOp::Rem => Tok::Percent,
        BinOp::Lt => Tok::Lt,
        BinOp::Gt => Tok::Gt,
        BinOp::Le => Tok::Le,
        BinOp::Ge => Tok::Ge,
        BinOp::EqEq => Tok::EqEq,
        BinOp::Ne => Tok::BangEq,
        BinOp::And => Tok::AmpAmp,
        BinOp::Or => Tok::PipePipe,
    }
}

/// How a unary operator is written.
pub open spec fn sign(op: UnOp) -> Tok {
    match op {
        UnOp::Neg => Tok::Minus,
        UnOp::Not => Tok::Bang,
    }
}

/// How tightly a token binds as a binary operator; zero where it is none.
pub open spec fn tier(t: Tok) -> int {
    match t {
        Tok::PipePipe => 1,
        Tok::AmpAmp => 2,
        Tok::Lt | Tok::Gt | Tok::Le | Tok::Ge | Tok::EqEq | Tok::BangEq => 3,
        Tok::Plus | Tok::Minus => 4,
        Tok::Star | Tok::Slash | Tok::Percent => 5,
        _ => 0,
    }
}

/// How tightly an expression holds together.
pub open spec fn grip(e: Ex) -> int {
    match e {
        Ex::BinOp(op, _, _) => tier(symbol(op)),
        Ex::UnOp(_, _) => 6,
        _ => 7,
    }
}

/// How tightly the left operand of an operator must hold together: operators of one
/// tier group from the left, but comparisons do not group.
pub open spec fn left_tier(op: BinOp) -> int {
    if tier(symbol(op)) == 3 {
        4
    } else {
        tier(symbol(op))
    }
}

/// An expression without brackets round it.
pub open spec fn bare(e: Ex) -> Seq<Tok>
    decreases e, 0int,
{
    match e {
        Ex::Int(n) => seq![Tok::Int(n)],
        Ex::Var(name) => seq![Tok::Ident(name)],
        Ex::Index(name, i) => seq![Tok::Ident(name), Tok::LBrack] + written(*i, 1)
            + seq![Tok::RBrack],
        Ex::UnOp(op, a) => seq![sign(op)] + written(*a, 6),
        Ex::BinOp(op, a, b) => written(*a, left_tier(op)) + seq![symbol(op)] + written(
            *b,
            tier(symbol(op)) + 1,
        ),
        Ex::Call(name, _) => seq![Tok::Ident(name)],
    }
}

/// An expression where at least the given tier is wanted: with brackets round it only
/// where it does not hold together so tightly.
pub open spec fn written(e: Ex, least: int) -> Seq<Tok>
    decreases e, 1int,
{
    if grip(e) >= least {
        bare(e)
    } else {
        seq![Tok::LParen] + bare(e) + seq![Tok::RParen]
    }
}

/// No call stands in the expression.
pub open spec fn callless(e: Ex) -> bool
    decreases e,
{
    match e {
        Ex::Index(_, i) => callless(*i),
        Ex::UnOp(_, a) => callless(*a),
        Ex::BinOp(_, a, b) => callless(*a) && callless(*b),
        Ex::Call(_, _) => false,
        _ => true,
    }
}

/// The tokens stand at a place, with another token behind them.
pub open spec fn stands(ts: Seq<(Tok, int)>, pos: int, text: Seq<Tok>) -> bool {
    &&& 0 <= pos
    &&& pos + text.len() < ts.len()
    &&& forall|k: int| 0 <= k < text.len() ==> (#[trigger] ts[pos + k]).0 == text[k]
}

/// The token goes on with no expression of at least the given tier.
pub open spec fn ends(t: Tok, least: int) -> bool {
    tier(t) < least && t != Tok::LBrack
}

/// Read an expression of at least the given tier.
#[verifier::opaque]
spec fn read_at(ts: Seq<(Tok, int)>, pos: int, least: int) -> Got<Ex> {
    if least == 1 {
        or_at(ts, pos)
    } else if least == 2 {
        and_at(ts, pos)
    } else if least == 3 {
        relation_at(ts, pos)
    } else if least == 4 {
        term_at(ts, pos)
    } else if least == 5 {
        factor_at(ts, pos)
    } else if least == 6 {
        unary_at(ts, pos)
    } else {
        primary_at(ts, pos)
    }
}

/// Go on behind the left operand of a tier.
#[verifier::opaque]
spec fn rest_at(ts: Seq<(Tok, int)>, left: Ex, pos: int, least: int) -> Got<Ex> {
    if least == 1 {
        or_rest(ts, left, pos)
    } else if least == 2 {
        and_rest(ts, left, pos)
    } else if least == 4 {
        term_rest(ts, left, pos)
    } else {
        factor_rest(ts, left, pos)
    }
}

/// A tier whose operators group begins with an operand of the next.
proof fn lemma_first(ts: Seq<(Tok, int)>, pos: int, least: int, e: Ex, p: int)
    requires
        least == 1 || least == 2 || least == 4 || least == 5,
        read_at(ts, pos, least + 1) == Got::Done(e, p),
        pos < p < ts.len(),
    ensures
        read_at(ts, pos, least) == rest_at(ts, e, p, least),
{
    reveal(read_at);
    reveal(rest_at);
}

/// An operator of the tier takes an operand of the next.
proof fn lemma_then(
    ts: Seq<(Tok, int)>,
    a: Ex,
    p: int,
    least: int,
    op: BinOp,
    b: Ex,
    q: int,
)
    requires
        least == 1 || least == 2 || least == 4 || least == 5,
        tier(symbol(op)) == least,
        ts[p].0 == symbol(op),
        p + 1 < ts.len(),
        read_at(ts, p + 1, least + 1) == Got::Done(b, q),
        p < q < ts.len(),
    ensures
        rest_at(ts, a, p, least) == rest_at(
            ts,
            Ex::BinOp(op, Box::new(a), Box::new(b)),
            q,
            least,
        ),
{
    reveal(read_at);
    reveal(rest_at);
}

/// Nothing of the tier follows.
proof fn lemma_last(ts: Seq<(Tok, int)>, a: Ex, p: int, least: int)
    requires
        least == 1 || least == 2 || least == 4 || least == 5,
        tier(ts[p].0) < least,
    ensures
        rest_at(ts, a, p, least) == Got::Done(a, p),
{
    reveal(rest_at);
}

/// A comparison has two operands.
proof fn lemma_compared(ts: Seq<(Tok, int)>, pos: int, op: BinOp, a: Ex, b: Ex, p: int, q: int)
    requires
        tier(symbol(op)) == 3,
        read_at(ts, pos, 4) == Got::Done(a, p),
        pos < p,
        p + 1 < ts.len(),
        ts[p].0 == symbol(op),
        read_at(ts, p + 1, 4) == Got::Done(b, q),
    ensures
        read_at(ts, pos, 3) == Got::Done(Ex::BinOp(op, Box::new(a), Box::new(b)), q),
{
    reveal(read_at);
}

/// No comparison follows.
proof fn lemma_not_compared(ts: Seq<(Tok, int)>, pos: int, a: Ex, p: int)
    requires
        read_at(ts, pos, 4) == Got::Done(a, p),
        tier(ts[p].0) < 3,
    ensures
        read_at(ts, pos, 3) == Got::Done(a, p),
{
    reveal(read_at);
}

/// A unary operator has one operand.
proof fn lemma_signed(ts: Seq<(Tok, int)>, pos: int, op: UnOp, a: Ex, q: int)
    requires
        ts[pos].0 == sign(op),
        pos + 1 < ts.len(),
        read_at(ts, pos + 1, 6) == Got::Done(a, q),
    ensures
        read_at(ts, pos, 6) == Got::Done(Ex::UnOp(op, Box::new(a)), q),
{
    reveal(read_at);
}

/// Without a unary operator there is only an operand.
proof fn lemma_unsigned(ts: Seq<(Tok, int)>, pos: int)
    requires
        ts[pos].0 != Tok::Minus,
        ts[pos].0 != Tok::Bang,
    ensures
        read_at(ts, pos, 6) == read_at(ts, pos, 7),
{
    reveal(read_at);
}

/// An expression in brackets is an operand.
proof fn lemma_in_brackets(ts: Seq<(Tok, int)>, pos: int, e: Ex, q: int)
    requires
        ts[pos].0 == Tok::LParen,
        pos + 1 < ts.len(),
        read_at(ts, pos + 1, 1) == Got::Done(e, q),
        q + 1 < ts.len(),
        ts[q].0 == Tok::RParen,
    ensures
        read_at(ts, pos, 7) == Got::Done(e, q + 1),
{
    reveal(read_at);
    assert(expr_at(ts, pos + 1) == or_at(ts, pos + 1));
    assert(enclosed_at(ts, pos + 1, Tok::RParen) == Got::Done(e, q + 1));
}

/// An array element is an operand.
proof fn lemma_element(ts: Seq<(Tok, int)>, pos: int, name: Seq<char>, e: Ex, q: int)
    requires
        ts[pos].0 == Tok::Ident(name),
        ts[pos + 1].0 == Tok::LBrack,
        pos + 2 < ts.len(),
        read_at(ts, pos + 2, 1) == Got::Done(e, q),
        q + 1 < ts.len(),
        ts[q].0 == Tok::RBrack,
    ensures
        read_at(ts, pos, 7) == Got::Done(Ex::Index(name, Box::new(e)), q + 1),
{
    reveal(read_at);
    assert(expr_at(ts, pos + 2) == or_at(ts, pos + 2));
    assert(enclosed_at(ts, pos + 2, Tok::RBrack) == Got::Done(e, q + 1));
}

/// A number or a name is an operand.
proof fn lemma_word(ts: Seq<(Tok, int)>, pos: int)
    requires
        pos + 1 < ts.len(),
        ts[pos + 1].0 != Tok::LBrack,
    ensures
        ts[pos].0 matches Tok::Int(n) ==> read_at(ts, pos, 7) == Got::Done(Ex::Int(n), pos + 1),
        ts[pos].0 matches Tok::Ident(name) ==> read_at(ts, pos, 7) == Got::Done(
            Ex::Var(name),
            pos + 1,
        ),
{
    reveal(read_at);
}

/// Parts of a text stand where the text does.
proof fn lemma_parts(ts: Seq<(Tok, int)>, pos: int, a: Seq<Tok>, b: Seq<Tok>)
    requires
        stands(ts, pos, a + b),
        b.len() > 0,
    ensures
        stands(ts, pos, a),
        stands(ts, pos + a.len(), b),
        ts[pos + a.len()].0 == b[0],
{
    let all = a + b;
    assert forall|k: int| 0 <= k < a.len() implies (#[trigger] ts[pos + k]).0 == a[k] by {
        assert(all[k] == a[k]);
    }
    assert forall|k: int| 0 <= k < b.len() implies (#[trigger] ts[pos + a.len() + k]).0 == b[k] by {
        assert(all[a.len() + k] == b[k]);
        assert(ts[pos + (a.len() + k)].0 == all[a.len() + k]);
    }
    assert(ts[pos + a.len() + 0].0 == b[0]);
}

/// A written expression is no empty text.
proof fn lemma_some(e: Ex, least: int)
    ensures
        bare(e).len() > 0,
        written(e, least).len() > 0,
{
}

/// What a text reads as, where it is the text of an expression.
spec fn reads(ts: Seq<(Tok, int)>, pos: int, e: Ex, least: int) -> bool {
    read_at(ts, pos, least) == Got::Done(e, pos + written(e, least).len())
}

/// Where only what can begin no operator of the tier follows, the text of an
/// expression reads as it.
proof fn lemma_reads(ts: Seq<(Tok, int)>, pos: int, e: Ex, least: int)
    requires
        callless(e),
        1 <= least <= 7,
        stands(ts, pos, written(e, least)),
        ends(ts[pos + written(e, least).len()].0, least),
    ensures
        reads(ts, pos, e, least),
    decreases e, (if grip(e) < least { 1int } else { 0int }), 8 - least, 1int,
{
    let q = pos + written(e, least).len();
    lemma_some(e, least);
    if least == 7 {
        lemma_primary(ts, pos, e);
    } else if least == 6 {
        match e {
            Ex::UnOp(op, a) => {
                lemma_some(*a, 6);
                lemma_parts(ts, pos, seq![sign(op)], written(*a, 6));
                assert(ts[pos + 0].0 == seq![sign(op)][0]);
                lemma_reads(ts, pos + 1, *a, 6);
                lemma_signed(ts, pos, op, *a, q);
            },
            _ => {
                assert(written(e, 6) == written(e, 7));
                lemma_reads(ts, pos, e, 7);
                lemma_no_sign(ts, pos, e);
                lemma_unsigned(ts, pos);
            },
        }
    } else if least == 3 {
        if grip(e) == 3 {
            match e {
                Ex::BinOp(op, a, b) => {
                    let mid = seq![symbol(op)] + written(*b, 4);
                    assert(bare(e) =~= written(*a, 4) + mid);
                    lemma_parts(ts, pos, written(*a, 4), mid);
                    let p = pos + written(*a, 4).len();
                    lemma_some(*a, 4);
                    lemma_some(*b, 4);
                    lemma_parts(ts, p, seq![symbol(op)], written(*b, 4));
                    lemma_reads(ts, pos, *a, 4);
                    lemma_reads(ts, p + 1, *b, 4);
                    lemma_compared(ts, pos, op, *a, *b, p, q);
                },
                _ => {},
            }
        } else {
            assert(written(e, 3) == written(e, 4));
            lemma_reads(ts, pos, e, 4);
            lemma_not_compared(ts, pos, e, q);
        }
    } else {
        lemma_goes_on(ts, pos, e, least);
        lemma_last(ts, e, q, least);
    }
}

/// Nothing but a unary operator begins with one.
proof fn lemma_no_sign(ts: Seq<(Tok, int)>, pos: int, e: Ex)
    requires
        callless(e),
        !(e is UnOp),
        stands(ts, pos, written(e, 7)),
    ensures
        ts[pos].0 != Tok::Minus,
        ts[pos].0 != Tok::Bang,
{
    lemma_some(e, 7);
    assert(ts[pos + 0].0 == written(e, 7)[0]);
}

/// The text of an operand reads as it.
proof fn lemma_primary(ts: Seq<(Tok, int)>, pos: int, e: Ex)
    requires
        callless(e),
        stands(ts, pos, written(e, 7)),
        ends(ts[pos + written(e, 7).len()].0, 7),
    ensures
        reads(ts, pos, e, 7),
    decreases e, (if grip(e) < 7 { 1int } else { 0int }), 1int, 0int,
{
    lemma_some(e, 7);
    assert(ts[pos + 0].0 == written(e, 7)[0]);
    if grip(e) < 7 {
        let inner = written(e, 1);
        lemma_some(e, 1);
        assert(written(e, 7) =~= seq![Tok::LParen] + (inner + seq![Tok::RParen]));
        lemma_parts(ts, pos, seq![Tok::LParen], inner + seq![Tok::RParen]);
        lemma_parts(ts, pos + 1, inner, seq![Tok::RParen]);
        lemma_reads(ts, pos + 1, e, 1);
        lemma_in_brackets(ts, pos, e, pos + 1 + inner.len());
    } else {
        match e {
            Ex::Index(name, i) => {
                let inner = written(*i, 1);
                let head = seq![Tok::Ident(name), Tok::LBrack];
                assert(written(e, 7) =~= head + (inner + seq![Tok::RBrack]));
                lemma_parts(ts, pos, head, inner + seq![Tok::RBrack]);
                assert(ts[pos + 1].0 == head[1]);
                lemma_some(*i, 1);
                lemma_parts(ts, pos + 2, inner, seq![Tok::RBrack]);
                lemma_reads(ts, pos + 2, *i, 1);
                lemma_element(ts, pos, name, *i, pos + 2 + inner.len());
            },
            _ => {
                lemma_word(ts, pos);
            },
        }
    }
}

/// Where an operator of a tier whose operators group may follow, the text of an
/// expression reads as its left operand.
proof fn lemma_goes_on(ts: Seq<(Tok, int)>, pos: int, e: Ex, least: int)
    requires
        callless(e),
        least == 1 || least == 2 || least == 4 || least == 5,
        stands(ts, pos, written(e, least)),
        ends(ts[pos + written(e, least).len()].0, least + 1),
    ensures
        read_at(ts, pos, least) == rest_at(ts, e, pos + written(e, least).len(), least),
    decreases e, (if grip(e) < least { 1int } else { 0int }), 8 - least, 0int,
{
    let q = pos + written(e, least).len();
    lemma_some(e, least);
    if grip(e) == least {
        match e {
            Ex::BinOp(op, a, b) => {
                let front = written(*a, least);
                let tail = written(*b, least + 1);
                let mid = seq![symbol(op)] + tail;
                lemma_some(*b, least + 1);
                assert(bare(e) =~= front + mid);
                lemma_parts(ts, pos, front, mid);
                let p = pos + front.len();
                lemma_parts(ts, p, seq![symbol(op)], tail);
                lemma_goes_on(ts, pos, *a, least);
                lemma_reads(ts, p + 1, *b, least + 1);
                lemma_then(ts, *a, p, least, op, *b, q);
            },
            _ => {},
        }
    } else {
        assert(written(e, least) == written(e, least + 1));
        lemma_reads(ts, pos, e, least + 1);
        lemma_first(ts, pos, least, e, q);
    }
}

/// An expression without calls, written with brackets only where an operand does not
/// hold together as tightly as its place asks, reads back as itself, whatever follows
/// that cannot go on with it.
pub proof fn law_written_expressions_read_back(ts: Seq<(Tok, int)>, pos: int, e: Ex)
    requires
        callless(e),
        stands(ts, pos, written(e, 1)),
        ends(ts[pos + written(e, 1).len()].0, 1),
    ensures
        expr_at(ts, pos) == Got::Done(e, pos + written(e, 1).len()),
{
    lemma_reads(ts, pos, e, 1);
    reveal(read_at);
}

/// Multiplication, division and remainder bind more tightly than addition and
/// subtraction, on either side of them.
pub proof fn law_factors_bind_before_terms(
    ts: Seq<(Tok, int)>,
    pos: int,
    p: BinOp,
    m: BinOp,
    a: Ex,
    b: Ex,
    c: Ex,
)
    requires
        callless(a) && callless(b) && callless(c),
        p is Add || p is Sub,
        m is Mul || m is Div || m is Rem,
    ensures
        ({
            let text = written(a, 4) + seq![symbol(p)] + written(b, 5) + seq![symbol(m)] + written(
                c,
                6,
            );
            stands(ts, pos, text) && ends(ts[pos + text.len()].0, 1) ==> expr_at(ts, pos)
                == Got::Done(
                Ex::BinOp(
                    p,
                    Box::new(a),
                    Box::new(Ex::BinOp(m, Box::new(b), Box::new(c))),
                ),
                pos + text.len(),
            )
        }),
        ({
            let text = written(a, 5) + seq![symbol(m)] + written(b, 6) + seq![symbol(p)] + written(
                c,
                5,
            );
            stands(ts, pos, text) && ends(ts[pos + text.len()].0, 1) ==> expr_at(ts, pos)
                == Got::Done(
                Ex::BinOp(
                    p,
                    Box::new(Ex::BinOp(m, Box::new(a), Box::new(b))),
                    Box::new(c),
                ),
                pos + text.len(),
            )
        }),
{
    reveal_with_fuel(callless, 3);
    let inner = Ex::BinOp(m, Box::new(b), Box::new(c));
    let e = Ex::BinOp(p, Box::new(a), Box::new(inner));
    let text = written(a, 4) + seq![symbol(p)] + written(b, 5) + seq![symbol(m)] + written(c, 6);
    assert(written(inner, 5) =~= written(b, 5) + seq![symbol(m)] + written(c, 6));
    assert(written(e, 1) =~= text);
    if stands(ts, pos, text) && ends(ts[pos + text.len()].0, 1) {
        law_written_expressions_read_back(ts, pos, e);
    }
    let inner = Ex::BinOp(m, Box::new(a), Box::new(b));
    let e = Ex::BinOp(p, Box::new(inner), Box::new(c));
    let text = written(a, 5) + seq![symbol(m)] + written(b, 6) + seq![symbol(p)] + written(c, 5);
    assert(written(inner, 4) =~= written(a, 5) + seq![symbol(m)] + written(b, 6));
    assert(written(e, 1) =~= text);
    if stands(ts, pos, text) && ends(ts[pos + text.len()].0, 1) {
        law_written_expressions_read_back(ts, pos, e);
    }
}

/// Operators of one tier group from the left, but for comparisons.
pub proof fn law_operators_group_from_the_left(
    ts: Seq<(Tok, int)>,
    pos: int,
    o1: BinOp,
    o2: BinOp,
    a: Ex,
    b: Ex,
    c: Ex,
)
    requires
        callless(a) && callless(b) && callless(c),
        tier(symbol(o1)) == tier(symbol(o2)),
        tier(symbol(o1)) != 3,
    ensures
        ({
            let t = tier(symbol(o1));
            let text = written(a, t) + seq![symbol(o1)] + written(b, t + 1) + seq![symbol(o2)]
                + written(c, t + 1);
            stands(ts, pos, text) && ends(ts[pos + text.len()].0, 1) ==> expr_at(ts, pos)
                == Got::Done(
                Ex::BinOp(
                    o2,
                    Box::new(Ex::BinOp(o1, Box::new(a), Box::new(b))),
                    Box::new(c),
                ),
                pos + text.len(),
            )
        }),
{
    reveal_with_fuel(callless, 3);
    let t = tier(symbol(o1));
    let inner = Ex::BinOp(o1, Box::new(a), Box::new(b));
    let e = Ex::BinOp(o2, Box::new(inner), Box::new(c));
    let text = written(a, t) + seq![symbol(o1)] + written(b, t + 1) + seq![symbol(o2)] + written(
        c,
        t + 1,
    );
    assert(written(inner, t) =~= written(a, t) + seq![symbol(o1)] + written(b, t + 1));
    assert(written(e, 1) =~= text);
    if stands(ts, pos, text) && ends(ts[pos + text.len()].0, 1) {
        law_written_expressions_read_back(ts, pos, e);
    }
}

/// The tokens of a program that prints one expression are read as that program.
pub proof fn law_a_printed_expression_is_read(ts: Seq<(Tok, int)>, e: Ex)
    requires
        callless(e),
        ts.len() == written(e, 1).len() + 5,
        stands(
            ts,
            0,
            seq![Tok::Print, Tok::LParen] + written(e, 1) + seq![Tok::RParen, Tok::Semi],
        ),
        ts.last().0 == Tok::Eof,
    ensures
        program_at(ts) == Got::Done(seq![Sm::Print(e)], ts.len() - 1),
{
    let n = written(e, 1).len() as int;
    let head = seq![Tok::Print, Tok::LParen];
    let tail = seq![Tok::RParen, Tok::Semi];
    let text = head + written(e, 1) + tail;
    assert(text =~= head + (written(e, 1) + tail));
    lemma_parts(ts, 0, head, written(e, 1) + tail);
    lemma_parts(ts, 2, written(e, 1), tail);
    assert(ts[0int + 0].0 == head[0]);
    assert(ts[0int + 1].0 == head[1]);
    assert(ts[2 + n + 1].0 == tail[1]);
    law_written_expressions_read_back(ts, 2, e);
    assert(enclosed_at(ts, 2, Tok::RParen) == Got::Done(e, n + 3));
    reveal(argument_at);
    assert(stmt_at(ts, 0) == Got::Done(Sm::Print(e), n + 4));
    let done = Seq::<Sm>::empty().push(Sm::Print(e));
    assert(stmts_at(ts, n + 4, done) == Got::Done(done, n + 4));
    assert(stmts_at(ts, 0, Seq::empty()) == Got::Done(done, n + 4));
    assert(done =~= seq![Sm::Print(e)]);
}

} // verus!
