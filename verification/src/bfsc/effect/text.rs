//! What a piece of Brainfuck does inside any program.

use vstd::prelude::*;

use crate::bfsc::sound::steps::lift;
use crate::frontend::lexer::law_lex_concat;
use crate::frontend::lexer::{token_of, tokens_of, Token};
use crate::frontend::meaning::{
    closes, lemma_operated_add, lemma_partners, operate, operated,
};
use crate::frontend::parser::{balanced, depth};
use crate::interp::machine::{Source, St};

verus! {

/// A program comes from one place and state to another.
pub open spec fn lands(
    tokens: Seq<Token>,
    pc: int,
    s: St,
    source: Source,
    to: int,
    u: St,
) -> bool {
    exists|n: nat| #[trigger] operated(tokens, pc, s, source, n) == (to, u)
}

/// Wherever the text stands in a program, it takes the state `s` in front of it
/// to the state `u` behind it.
#[verifier::opaque]
pub open spec fn takes(t: Seq<char>, s: St, u: St, source: Source) -> bool {
    forall|a: Seq<Token>, b: Seq<Token>| #[trigger]
        lands(
            a + tokens_of(t) + b,
            a.len() as int,
            s,
            source,
            (a.len() + tokens_of(t).len()) as int,
            u,
        )
}

/// A program that comes from one place to a second and from there to a third
/// comes to the third.
proof fn lemma_lands_on(
    tokens: Seq<Token>,
    pc: int,
    s: St,
    source: Source,
    mid: int,
    m: St,
    to: int,
    u: St,
)
    requires
        lands(tokens, pc, s, source, mid, m),
        lands(tokens, mid, m, source, to, u),
    ensures
        lands(tokens, pc, s, source, to, u),
{
    let x = choose|n: nat| #[trigger] operated(tokens, pc, s, source, n) == (mid, m);
    let y = choose|n: nat| #[trigger] operated(tokens, mid, m, source, n) == (to, u);
    lemma_operated_add(tokens, pc, s, source, x, y);
    assert(operated(tokens, pc, s, source, x + y) == (to, u));
}

/// One operator.
proof fn lemma_lands_one(tokens: Seq<Token>, pc: int, s: St, source: Source)
    requires
        0 <= pc < tokens.len(),
    ensures
        ({
            let (to, u) = operate(tokens, pc, s, source(s.reads));
            lands(tokens, pc, s, source, to, u)
        }),
{
    let (to, u) = operate(tokens, pc, s, source(s.reads));
    assert(operated(tokens, to, u, source, 0) == (to, u));
    assert(operated(tokens, pc, s, source, 1) == (to, u));
}

/// No text does nothing.
pub proof fn lemma_takes_nothing(s: St, source: Source)
    ensures
        takes(Seq::empty(), s, s, source),
{
    reveal(takes);
    let t = Seq::<char>::empty();
    assert forall|a: Seq<Token>, b: Seq<Token>| #[trigger]
        lands(
            a + tokens_of(t) + b,
            a.len() as int,
            s,
            source,
            (a.len() + tokens_of(t).len()) as int,
            s,
        ) by {
        let p = a + tokens_of(t) + b;
        assert(operated(p, a.len() as int, s, source, 0) == (a.len() as int, s));
    }
}

/// One text behind another.
pub proof fn lemma_takes_then(x: Seq<char>, y: Seq<char>, s: St, m: St, u: St, source: Source)
    requires
        takes(x, s, m, source),
        takes(y, m, u, source),
    ensures
        takes(x + y, s, u, source),
{
    reveal(takes);
    law_lex_concat(x, y);
    let f = tokens_of(x);
    let g = tokens_of(y);
    assert forall|a: Seq<Token>, b: Seq<Token>| #[trigger]
        lands(
            a + tokens_of(x + y) + b,
            a.len() as int,
            s,
            source,
            (a.len() + tokens_of(x + y).len()) as int,
            u,
        ) by {
        let p = a + tokens_of(x + y) + b;
        assert(p =~= a + f + (g + b));
        assert(p =~= (a + f) + g + b);
        assert(lands(a + f + (g + b), a.len() as int, s, source, (a.len() + f.len()) as int, m));
        assert(lands(
            (a + f) + g + b,
            (a + f).len() as int,
            m,
            source,
            ((a + f).len() + g.len()) as int,
            u,
        ));
        lemma_lands_on(
            p,
            a.len() as int,
            s,
            source,
            (a.len() + f.len()) as int,
            m,
            (a.len() + f.len() + g.len()) as int,
            u,
        );
    }
}

/// An operator that is no bracket.
pub open spec fn straight(token: Token, s: St, source: Source) -> St {
    match token {
        Token::MoveRight => s.moved(1),
        Token::MoveLeft => s.moved(-1),
        Token::Inc => s.add_at(0, 1),
        Token::Dec => s.add_at(0, -1),
        Token::Output => s.wrote(),
        Token::Input => s.read(source(s.reads)),
        _ => s,
    }
}

/// One operator that is no bracket.
pub proof fn lemma_takes_one(c: char, s: St, source: Source)
    requires
        token_of(c) is Some,
        lift(c) == 0,
    ensures
        takes(seq![c], s, straight(token_of(c)->Some_0, s, source), source),
{
    reveal(takes);
    let t = seq![c];
    let token = token_of(c)->Some_0;
    assert(t.drop_last() =~= Seq::<char>::empty());
    assert(tokens_of(t.drop_last()) =~= Seq::<Token>::empty());
    assert(tokens_of(t) =~= seq![token]);
    assert forall|a: Seq<Token>, b: Seq<Token>| #[trigger]
        lands(
            a + tokens_of(t) + b,
            a.len() as int,
            s,
            source,
            (a.len() + tokens_of(t).len()) as int,
            straight(token, s, source),
        ) by {
        let p = a + tokens_of(t) + b;
        assert(p[a.len() as int] == token);
        lemma_lands_one(p, a.len() as int, s, source);
    }
}

/// The depth inside a piece of a program.
proof fn lemma_depth_piece(a: Seq<Token>, t: Seq<Token>, b: Seq<Token>, n: int)
    requires
        0 <= n <= t.len(),
    ensures
        depth(a + t + b, a.len() + n) == depth(a + t + b, a.len() as int) + depth(t, n),
    decreases n,
{
    if n > 0 {
        lemma_depth_piece(a, t, b, n - 1);
        assert((a + t + b)[a.len() + n - 1] == t[n - 1]);
    }
}

/// The tokens of a loop.
pub open spec fn loop_tokens(body: Seq<Token>) -> Seq<Token> {
    seq![Token::LoopStart] + body + seq![Token::LoopEnd]
}

/// The brackets of a loop belong together.
proof fn lemma_loop_closes(a: Seq<Token>, body: Seq<Token>, b: Seq<Token>)
    requires
        balanced(body),
    ensures
        closes(a + loop_tokens(body) + b, a.len() as int, (a.len() + body.len() + 1) as int),
{
    let t = loop_tokens(body);
    let p = a + t + b;
    let open = seq![Token::LoopStart];
    let shut = seq![Token::LoopEnd];
    assert(p[a.len() as int] == Token::LoopStart);
    assert(p[(a.len() + body.len() + 1) as int] == Token::LoopEnd);
    let i = a.len() as int;
    let j = (a.len() + body.len() + 1) as int;
    assert(depth(p, i + 1) == depth(p, i) + 1);
    assert(p =~= (a + open) + body + (shut + b));
    assert forall|k: int| i < k <= j implies #[trigger] depth(p, k) > depth(p, i) by {
        let n = k - i - 1;
        lemma_depth_piece(a + open, body, shut + b, n);
        assert(depth(body, n) >= 0);
        assert((a + open).len() + n == k);
    }
    lemma_depth_piece(a + open, body, shut + b, body.len() as int);
    assert(depth(p, j) == depth(p, i) + 1);
    assert(depth(p, j + 1) == depth(p, i));
}

/// A loop on a cell that is zero does nothing. A loop on another cell does its
/// body and is then at its start again.
pub proof fn lemma_takes_loop(body: Seq<char>, s: St, m: St, u: St, source: Source)
    requires
        balanced(tokens_of(body)),
        s.cell() == 0 ==> u == s,
        s.cell() != 0 ==> takes(body, s, m, source) && takes("["@ + body + "]"@, m, u, source),
    ensures
        takes("["@ + body + "]"@, s, u, source),
{
    reveal(takes);
    let x = "["@ + body + "]"@;
    let inner = tokens_of(body);
    let t = tokens_of(x);
    lemma_loop_tokens(body);
    assert(t == loop_tokens(inner));
    if s.cell() != 0 && m.cell() == 0 {
        let none = Seq::<Token>::empty();
        let p = none + t + none;
        assert(lands(p, none.len() as int, m, source, (none.len() + t.len()) as int, u));
        lemma_loop_closes(none, inner, none);
        lemma_partners(p, 0, (inner.len() + 1) as int);
        let n = choose|n: nat| #[trigger] operated(p, 0, m, source, n) == (t.len() as int, u);
        let less = (n - 1) as nat;
        assert(operated(p, t.len() as int, m, source, less) == (t.len() as int, m));
    }
    assert forall|a: Seq<Token>, b: Seq<Token>| #[trigger]
        lands(a + t + b, a.len() as int, s, source, (a.len() + t.len()) as int, u) by {
        let p = a + t + b;
        let i = a.len() as int;
        let j = (a.len() + inner.len() + 1) as int;
        lemma_loop_closes(a, inner, b);
        lemma_partners(p, i, j);
        lemma_lands_one(p, i, s, source);
        assert(p[i] == Token::LoopStart);
        if s.cell() != 0 {
            let open = seq![Token::LoopStart];
            let shut = seq![Token::LoopEnd];
            assert(p =~= (a + open) + inner + (shut + b));
            assert(lands(
                (a + open) + inner + (shut + b),
                (a + open).len() as int,
                s,
                source,
                ((a + open).len() + inner.len()) as int,
                m,
            ));
            lemma_lands_on(p, i, s, source, i + 1, s, j, m);
            lemma_lands_one(p, j, m, source);
            assert(p[j] == Token::LoopEnd);
            if m.cell() == 0 {
                lemma_lands_on(p, i, s, source, j, m, j + 1, m);
            } else {
                lemma_lands_on(p, i, s, source, j, m, i + 1, m);
                assert(lands(p, i, m, source, (a.len() + t.len()) as int, u));
                let n = choose|n: nat| #[trigger]
                    operated(p, i, m, source, n) == ((a.len() + t.len()) as int, u);
                let less = (n - 1) as nat;
                assert(operated(p, i + 1, m, source, less) == ((a.len() + t.len()) as int, u));
                lemma_lands_on(p, i, s, source, i + 1, m, (a.len() + t.len()) as int, u);
            }
        }
    }
}

/// The tokens of a loop are those of its body between two brackets.
proof fn lemma_loop_tokens(body: Seq<char>)
    ensures
        tokens_of("["@ + body + "]"@) == loop_tokens(tokens_of(body)),
{
    reveal_strlit("[");
    reveal_strlit("]");
    let open = "["@;
    let shut = "]"@;
    assert(open.drop_last() =~= Seq::<char>::empty());
    assert(shut.drop_last() =~= Seq::<char>::empty());
    assert(tokens_of(Seq::<char>::empty()) == Seq::<Token>::empty());
    assert(tokens_of(open) =~= seq![Token::LoopStart]);
    assert(tokens_of(shut) =~= seq![Token::LoopEnd]);
    law_lex_concat(open, body);
    law_lex_concat(open + body, shut);
}

} // verus!
