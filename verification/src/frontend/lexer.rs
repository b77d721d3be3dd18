//! Brainfuck tokenizer: the eight operators, everything else is comment.

use vstd::prelude::*;

use crate::text::chars_of;

verus! {

/// One of the eight Brainfuck operators.
#[derive(Debug, Clone, Copy, PartialEq, Eq, Structural)]
pub enum Token {
    /// `>` — shift the data pointer one cell to the right.
    MoveRight,
    /// `<` — shift the data pointer one cell to the left.
    MoveLeft,
    /// `+` — increment the current cell (wrapping).
    Inc,
    /// `-` — decrement the current cell (wrapping).
    Dec,
    /// `.` — write the current cell as a byte to stdout.
    Output,
    /// `,` — read one byte from stdin into the current cell.
    Input,
    /// `[` — begin a loop (skip body if current cell is zero).
    LoopStart,
    /// `]` — end a loop (jump back if current cell is non-zero).
    LoopEnd,
}

/// The operator that a character stands for.
pub open spec fn token_of(c: char) -> Option<Token> {
    if c == '>' {
        Some(Token::MoveRight)
    } else if c == '<' {
        Some(Token::MoveLeft)
    } else if c == '+' {
        Some(Token::Inc)
    } else if c == '-' {
        Some(Token::Dec)
    } else if c == '.' {
        Some(Token::Output)
    } else if c == ',' {
        Some(Token::Input)
    } else if c == '[' {
        Some(Token::LoopStart)
    } else if c == ']' {
        Some(Token::LoopEnd)
    } else {
        None
    }
}

/// The character of an operator.
pub open spec fn char_of(token: Token) -> char {
    match token {
        Token::MoveRight => '>',
        Token::MoveLeft => '<',
        Token::Inc => '+',
        Token::Dec => '-',
        Token::Output => '.',
        Token::Input => ',',
        Token::LoopStart => '[',
        Token::LoopEnd => ']',
    }
}

/// The operators of a text, in order.
pub open spec fn tokens_of(text: Seq<char>) -> Seq<Token>
    decreases text.len(),
{
    if text.len() == 0 {
        Seq::empty()
    } else {
        match token_of(text.last()) {
            Some(token) => tokens_of(text.drop_last()).push(token),
            None => tokens_of(text.drop_last()),
        }
    }
}

/// The operator of a character, if it is one.
fn classify(c: char) -> (r: Option<Token>)
    ensures
        r == token_of(c),
{
    if c == '>' {
        Some(Token::MoveRight)
    } else if c == '<' {
        Some(Token::MoveLeft)
    } else if c == '+' {
        Some(Token::Inc)
    } else if c == '-' {
        Some(Token::Dec)
    } else if c == '.' {
        Some(Token::Output)
    } else if c == ',' {
        Some(Token::Input)
    } else if c == '[' {
        Some(Token::LoopStart)
    } else if c == ']' {
        Some(Token::LoopEnd)
    } else {
        None
    }
}

/// Tokenise a Brainfuck source text, dropping every other character.
pub fn lex(input: &str) -> (tokens: Vec<Token>)
    ensures
        tokens@ == tokens_of(input@),
{
    let chars = chars_of(input);
    let mut tokens: Vec<Token> = Vec::new();
    let mut i: usize = 0;
    assert(chars@.take(0) =~= Seq::<char>::empty());
    while i < chars.len()
        invariant
            i <= chars.len(),
            chars@ == input@,
            tokens@ == tokens_of(chars@.take(i as int)),
        decreases chars.len() - i,
    {
        match classify(chars[i]) {
            Some(token) => tokens.push(token),
            None => {},
        }
        i += 1;
        assert(chars@.take(i as int).drop_last() =~= chars@.take(i - 1));
    }
    assert(chars@.take(chars@.len() as int) =~= chars@);
    tokens
}

/// Tokens of two texts put together are the tokens of both, one after the
/// other.
pub proof fn law_lex_concat(a: Seq<char>, b: Seq<char>)
    ensures
        tokens_of(a + b) == tokens_of(a) + tokens_of(b),
    decreases b.len(),
{
    if b.len() == 0 {
        assert(a + b =~= a);
        assert(tokens_of(a) + tokens_of(b) =~= tokens_of(a));
    } else {
        law_lex_concat(a, b.drop_last());
        assert((a + b).drop_last() =~= a + b.drop_last());
        assert(tokens_of(a + b) =~= tokens_of(a) + tokens_of(b));
    }
}

/// The text of a list of operators.
pub open spec fn spelled(tokens: Seq<Token>) -> Seq<char> {
    Seq::new(tokens.len(), |i: int| char_of(tokens[i]))
}

/// Reading back written operators gives them back.
pub proof fn law_lex_reads_back(tokens: Seq<Token>)
    ensures
        tokens_of(spelled(tokens)) == tokens,
    decreases tokens.len(),
{
    if tokens.len() > 0 {
        law_lex_reads_back(tokens.drop_last());
        assert(spelled(tokens).drop_last() =~= spelled(tokens.drop_last()));
        assert(tokens_of(spelled(tokens)) =~= tokens);
    } else {
        assert(tokens_of(spelled(tokens)) =~= tokens);
    }
}

/// Characters that are no operators make no difference.
pub proof fn law_comments_are_ignored(a: Seq<char>, comment: Seq<char>, b: Seq<char>)
    requires
        forall|i: int| 0 <= i < comment.len() ==> token_of(#[trigger] comment[i]) is None,
    ensures
        tokens_of(a + comment + b) == tokens_of(a + b),
{
    lemma_no_tokens(comment);
    law_lex_concat(a, comment);
    law_lex_concat(a + comment, b);
    law_lex_concat(a, b);
    assert(tokens_of(a) + Seq::<Token>::empty() =~= tokens_of(a));
}

proof fn lemma_no_tokens(text: Seq<char>)
    requires
        forall|i: int| 0 <= i < text.len() ==> token_of(#[trigger] text[i]) is None,
    ensures
        tokens_of(text) == Seq::<Token>::empty(),
    decreases text.len(),
{
    if text.len() > 0 {
        lemma_no_tokens(text.drop_last());
    }
}

} // verus!
