//! BFS tokenizer.

use vstd::prelude::*;

use crate::bfsc::error::BfscError;
use crate::bfsc::error::Failure;
use crate::text::dec;
use crate::text::{push_dec, same_text};

verus! {

/// A token.
#[derive(Debug)]
pub enum Token {
    /// Integer literal.
    Int(u64),
    /// Identifier.
    Ident(String),
    /// `let`
    Let,
    /// `while`
    While,
    /// `if`
    If,
    /// `else`
    Else,
    /// `scan`
    Scan,
    /// `print`
    Print,
    /// `putchar`
    Putchar,
    /// `u8`
    U8,
    /// `i8`
    I8,
    /// `u16`
    U16,
    /// `i16`
    I16,
    /// `u32`
    U32,
    /// `i32`
    I32,
    /// `+`
    Plus,
    /// `-`
    Minus,
    /// `*`
    Star,
    /// `/`
    Slash,
    /// `%`
    Percent,
    /// `<`
    Lt,
    /// `>`
    Gt,
    /// `<=`
    Le,
    /// `>=`
    Ge,
    /// `==`
    EqEq,
    /// `!=`
    BangEq,
    /// `=`
    Eq,
    /// `!`
    Bang,
    /// `&&`
    AmpAmp,
    /// `||`
    PipePipe,
    /// `(`
    LParen,
    /// `)`
    RParen,
    /// `{`
    LBrace,
    /// `}`
    RBrace,
    /// `[`
    LBrack,
    /// `]`
    RBrack,
    /// `:`
    Colon,
    /// `;`
    Semi,
    /// `,`
    Comma,
    /// End of the source.
    Eof,
}

/// A token as a mathematical value.
pub enum Tok {
    /// Integer literal.
    Int(int),
    /// Identifier.
    Ident(Seq<char>),
    /// `let`
    Let,
    /// `while`
    While,
    /// `if`
    If,
    /// `else`
    Else,
    /// `scan`
    Scan,
    /// `print`
    Print,
    /// `putchar`
    Putchar,
    /// `u8`
    U8,
    /// `i8`
    I8,
    /// `u16`
    U16,
    /// `i16`
    I16,
    /// `u32`
    U32,
    /// `i32`
    I32,
    /// `+`
    Plus,
    /// `-`
    Minus,
    /// `*`
    Star,
    /// `/`
    Slash,
    /// `%`
    Percent,
    /// `<`
    Lt,
    /// `>`
    Gt,
    /// `<=`
    Le,
    /// `>=`
    Ge,
    /// `==`
    EqEq,
    /// `!=`
    BangEq,
    /// `=`
    Eq,
    /// `!`
    Bang,
    /// `&&`
    AmpAmp,
    /// `||`
    PipePipe,
    /// `(`
    LParen,
    /// `)`
    RParen,
    /// `{`
    LBrace,
    /// `}`
    RBrace,
    /// `[`
    LBrack,
    /// `]`
    RBrack,
    /// `:`
    Colon,
    /// `;`
    Semi,
    /// `,`
    Comma,
    /// End of the source.
    Eof,
}

/// A token and the byte where it starts.
#[derive(Debug)]
pub struct SpannedToken {
    /// The token.
    pub token: Token,
    /// Its first byte.
    pub pos: usize,
}

/// The value of a token.
pub open spec fn tok_view(t: Token) -> Tok {
    match t {
        Token::Int(n) => Tok::Int(n as int),
        Token::Ident(name) => Tok::Ident(name@),
        Token::Let => Tok::Let,
        Token::While => Tok::While,
        Token::If => Tok::If,
        Token::Else => Tok::Else,
        Token::Scan => Tok::Scan,
        Token::Print => Tok::Print,
        Token::Putchar => Tok::Putchar,
        Token::U8 => Tok::U8,
        Token::I8 => Tok::I8,
        Token::U16 => Tok::U16,
        Token::I16 => Tok::I16,
        Token::U32 => Tok::U32,
        Token::I32 => Tok::I32,
        Token::Plus => Tok::Plus,
        Token::Minus => Tok::Minus,
        Token::Star => Tok::Star,
        Token::Slash => Tok::Slash,
        Token::Percent => Tok::Percent,
        Token::Lt => Tok::Lt,
        Token::Gt => Tok::Gt,
        Token::Le => Tok::Le,
        Token::Ge => Tok::Ge,
        Token::EqEq => Tok::EqEq,
        Token::BangEq => Tok::BangEq,
        Token::Eq => Tok::Eq,
        Token::Bang => Tok::Bang,
        Token::AmpAmp => Tok::AmpAmp,
        Token::PipePipe => Tok::PipePipe,
        Token::LParen => Tok::LParen,
        Token::RParen => Tok::RParen,
        Token::LBrace => Tok::LBrace,
        Token::RBrace => Tok::RBrace,
        Token::LBrack => Tok::LBrack,
        Token::RBrack => Tok::RBrack,
        Token::Colon => Tok::Colon,
        Token::Semi => Tok::Semi,
        Token::Comma => Tok::Comma,
        Token::Eof => Tok::Eof,
    }
}

/// The values of a list of tokens, with where they start.
pub open spec fn toks_view(ts: Seq<SpannedToken>) -> Seq<(Tok, int)> {
    Seq::new(ts.len(), |i: int| (tok_view(ts[i].token), ts[i].pos as int))
}

/// The debug form of a character.
pub uninterp spec fn char_debug(c: char) -> Seq<char>;

/// The debug form of a character: `format!` with `{:?}` for `char`. It is a
/// function of the character, which is all that is claimed.
#[verifier::external_body]
fn debug_char(c: char) -> (s: String)
    ensures
        s@ == char_debug(c),
{
    format!("{c:?}")
}

/// The debug form of a text.
pub uninterp spec fn text_debug(text: Seq<char>) -> Seq<char>;

/// The debug form of a text: `format!` with `{:?}` for `str`. It is a function
/// of the text, which is all that is claimed.
#[verifier::external_body]
fn debug_text(text: &str) -> (s: String)
    ensures
        s@ == text_debug(text@),
{
    format!("{text:?}")
}

/// The debug form of a token.
pub open spec fn tok_debug(t: Tok) -> Seq<char> {
    match t {
        Tok::Int(n) => "Int("@ + dec(n as nat) + ")"@,
        Tok::Ident(name) => "Ident("@ + text_debug(name) + ")"@,
        Tok::Let => "Let"@,
        Tok::While => "While"@,
        Tok::If => "If"@,
        Tok::Else => "Else"@,
        Tok::Scan => "Scan"@,
        Tok::Print => "Print"@,
        Tok::Putchar => "Putchar"@,
        Tok::U8 => "U8"@,
        Tok::I8 => "I8"@,
        Tok::U16 => "U16"@,
        Tok::I16 => "I16"@,
        Tok::U32 => "U32"@,
        Tok::I32 => "I32"@,
        Tok::Plus => "Plus"@,
        Tok::Minus => "Minus"@,
        Tok::Star => "Star"@,
        Tok::Slash => "Slash"@,
        Tok::Percent => "Percent"@,
        Tok::Lt => "Lt"@,
        Tok::Gt => "Gt"@,
        Tok::Le => "Le"@,
        Tok::Ge => "Ge"@,
        Tok::EqEq => "EqEq"@,
        Tok::BangEq => "BangEq"@,
        Tok::Eq => "Eq"@,
        Tok::Bang => "Bang"@,
        Tok::AmpAmp => "AmpAmp"@,
        Tok::PipePipe => "PipePipe"@,
        Tok::LParen => "LParen"@,
        Tok::RParen => "RParen"@,
        Tok::LBrace => "LBrace"@,
        Tok::RBrace => "RBrace"@,
        Tok::LBrack => "LBrack"@,
        Tok::RBrack => "RBrack"@,
        Tok::Colon => "Colon"@,
        Tok::Semi => "Semi"@,
        Tok::Comma => "Comma"@,
        Tok::Eof => "Eof"@,
    }
}

/// Append the debug form of a token.
pub fn push_token(out: &mut String, t: &Token)
    ensures
        final(out)@ == old(out)@ + tok_debug(tok_view(*t)),
{
    match t {
        Token::Int(n) => {
            out.append("Int(");
            push_dec(out, *n);
            out.append(")");
            assert(out@ =~= old(out)@ + tok_debug(tok_view(*t)));
        },
        Token::Ident(name) => {
            out.append("Ident(");
            let quoted = debug_text(name.as_str());
            out.append(quoted.as_str());
            out.append(")");
            assert(out@ =~= old(out)@ + tok_debug(tok_view(*t)));
        },
        Token::Let => out.append("Let"),
        Token::While => out.append("While"),
        Token::If => out.append("If"),
        Token::Else => out.append("Else"),
        Token::Scan => out.append("Scan"),
        Token::Print => out.append("Print"),
        Token::Putchar => out.append("Putchar"),
        Token::U8 => out.append("U8"),
        Token::I8 => out.append("I8"),
        Token::U16 => out.append("U16"),
        Token::I16 => out.append("I16"),
        Token::U32 => out.append("U32"),
        Token::I32 => out.append("I32"),
        Token::Plus => out.append("Plus"),
        Token::Minus => out.append("Minus"),
        Token::Star => out.append("Star"),
        Token::Slash => out.append("Slash"),
        Token::Percent => out.append("Percent"),
        Token::Lt => out.append("Lt"),
        Token::Gt => out.append("Gt"),
        Token::Le => out.append("Le"),
        Token::Ge => out.append("Ge"),
        Token::EqEq => out.append("EqEq"),
        Token::BangEq => out.append("BangEq"),
        Token::Eq => out.append("Eq"),
        Token::Bang => out.append("Bang"),
        Token::AmpAmp => out.append("AmpAmp"),
        Token::PipePipe => out.append("PipePipe"),
        Token::LParen => out.append("LParen"),
        Token::RParen => out.append("RParen"),
        Token::LBrace => out.append("LBrace"),
        Token::RBrace => out.append("RBrace"),
        Token::LBrack => out.append("LBrack"),
        Token::RBrack => out.append("RBrack"),
        Token::Colon => out.append("Colon"),
        Token::Semi => out.append("Semi"),
        Token::Comma => out.append("Comma"),
        Token::Eof => out.append("Eof"),
    }
}

/// Whether the token holds nothing but its kind.
pub open spec fn is_plain(t: Tok) -> bool {
    !(t is Int || t is Ident)
}

/// A number for each kind of token.
pub open spec fn kind_of(t: Tok) -> u8 {
    match t {
        Tok::Int(_) => 0,
        Tok::Ident(_) => 1,
        Tok::Let => 2,
        Tok::While => 3,
        Tok::If => 4,
        Tok::Else => 5,
        Tok::Scan => 6,
        Tok::Print => 7,
        Tok::Putchar => 8,
        Tok::U8 => 9,
        Tok::I8 => 10,
        Tok::U16 => 11,
        Tok::I16 => 12,
        Tok::U32 => 13,
        Tok::I32 => 14,
        Tok::Plus => 15,
        Tok::Minus => 16,
        Tok::Star => 17,
        Tok::Slash => 18,
        Tok::Percent => 19,
        Tok::Lt => 20,
        Tok::Gt => 21,
        Tok::Le => 22,
        Tok::Ge => 23,
        Tok::EqEq => 24,
        Tok::BangEq => 25,
        Tok::Eq => 26,
        Tok::Bang => 27,
        Tok::AmpAmp => 28,
        Tok::PipePipe => 29,
        Tok::LParen => 30,
        Tok::RParen => 31,
        Tok::LBrace => 32,
        Tok::RBrace => 33,
        Tok::LBrack => 34,
        Tok::RBrack => 35,
        Tok::Colon => 36,
        Tok::Semi => 37,
        Tok::Comma => 38,
        Tok::Eof => 39,
    }
}

fn kind(t: &Token) -> (k: u8)
    ensures
        k == kind_of(tok_view(*t)),
{
    match t {
        Token::Int(_) => 0,
        Token::Ident(_) => 1,
        Token::Let => 2,
        Token::While => 3,
        Token::If => 4,
        Token::Else => 5,
        Token::Scan => 6,
        Token::Print => 7,
        Token::Putchar => 8,
        Token::U8 => 9,
        Token::I8 => 10,
        Token::U16 => 11,
        Token::I16 => 12,
        Token::U32 => 13,
        Token::I32 => 14,
        Token::Plus => 15,
        Token::Minus => 16,
        Token::Star => 17,
        Token::Slash => 18,
        Token::Percent => 19,
        Token::Lt => 20,
        Token::Gt => 21,
        Token::Le => 22,
        Token::Ge => 23,
        Token::EqEq => 24,
        Token::BangEq => 25,
        Token::Eq => 26,
        Token::Bang => 27,
        Token::AmpAmp => 28,
        Token::PipePipe => 29,
        Token::LParen => 30,
        Token::RParen => 31,
        Token::LBrace => 32,
        Token::RBrace => 33,
        Token::LBrack => 34,
        Token::RBrack => 35,
        Token::Colon => 36,
        Token::Semi => 37,
        Token::Comma => 38,
        Token::Eof => 39,
    }
}

/// Whether a token is a certain one that holds nothing but its kind.
pub fn same_token(t: &Token, want: &Token) -> (b: bool)
    requires
        is_plain(tok_view(*want)),
    ensures
        b == (tok_view(*t) == tok_view(*want)),
{
    kind(t) == kind(want)
}

/// Space, tab, newline, form feed or carriage return.
pub open spec fn is_space(b: u8) -> bool {
    b == 32 || b == 9 || b == 10 || b == 12 || b == 13
}

/// A decimal digit.
pub open spec fn is_digit(b: u8) -> bool {
    48 <= b <= 57
}

/// A letter or an underscore.
pub open spec fn starts_word(b: u8) -> bool {
    65 <= b <= 90 || 97 <= b <= 122 || b == 95
}

/// A letter, a digit or an underscore.
pub open spec fn in_word(b: u8) -> bool {
    starts_word(b) || is_digit(b)
}

/// The end of the line from `pos` on.
pub open spec fn line_end(bytes: Seq<u8>, pos: int) -> int
    decreases bytes.len() - pos,
{
    if 0 <= pos < bytes.len() && bytes[pos] != 10 {
        line_end(bytes, pos + 1)
    } else {
        pos
    }
}

/// Behind the end of the block comment whose text goes on at `pos`.
pub open spec fn comment_end(bytes: Seq<u8>, pos: int) -> Option<int>
    decreases bytes.len() - pos,
{
    if pos < 0 || pos + 1 >= bytes.len() {
        None
    } else if bytes[pos] == 42 && bytes[pos + 1] == 47 {
        Some(pos + 2)
    } else {
        comment_end(bytes, pos + 1)
    }
}

/// The end of the digits from `pos` on.
pub open spec fn digits_end(bytes: Seq<u8>, pos: int) -> int
    decreases bytes.len() - pos,
{
    if 0 <= pos < bytes.len() && is_digit(bytes[pos]) {
        digits_end(bytes, pos + 1)
    } else {
        pos
    }
}

/// The end of the word from `pos` on.
pub open spec fn word_end(bytes: Seq<u8>, pos: int) -> int
    decreases bytes.len() - pos,
{
    if 0 <= pos < bytes.len() && in_word(bytes[pos]) {
        word_end(bytes, pos + 1)
    } else {
        pos
    }
}

/// The number that digits spell, modulo 2 to the 64.
pub open spec fn number(bytes: Seq<u8>, from: int, to: int) -> int
    decreases to - from,
{
    if from >= to {
        0
    } else {
        (number(bytes, from, to - 1) * 10 + (bytes[to - 1] - 48)) % 0x1_0000_0000_0000_0000
    }
}

/// Bytes below 128 as characters.
pub open spec fn ascii_text(bytes: Seq<u8>, from: int, to: int) -> Seq<char> {
    Seq::new((to - from) as nat, |i: int| bytes[from + i] as char)
}

/// The keyword that a word is, if any.
pub open spec fn keyword_of(word: Seq<char>) -> Option<Tok> {
    if word == "let"@ {
        Some(Tok::Let)
    } else if word == "while"@ {
        Some(Tok::While)
    } else if word == "if"@ {
        Some(Tok::If)
    } else if word == "else"@ {
        Some(Tok::Else)
    } else if word == "scan"@ {
        Some(Tok::Scan)
    } else if word == "print"@ {
        Some(Tok::Print)
    } else if word == "putchar"@ {
        Some(Tok::Putchar)
    } else if word == "u8"@ {
        Some(Tok::U8)
    } else if word == "i8"@ {
        Some(Tok::I8)
    } else if word == "u16"@ {
        Some(Tok::U16)
    } else if word == "i16"@ {
        Some(Tok::I16)
    } else if word == "u32"@ {
        Some(Tok::U32)
    } else if word == "i32"@ {
        Some(Tok::I32)
    } else {
        None
    }
}

/// The token of a word.
pub open spec fn word_token(word: Seq<char>) -> Tok {
    match keyword_of(word) {
        Some(t) => t,
        None => Tok::Ident(word),
    }
}

/// The operator that two bytes form, if any.
pub open spec fn pair_token(a: u8, b: u8) -> Option<Tok> {
    if a == 60 && b == 61 {
        Some(Tok::Le)
    } else if a == 62 && b == 61 {
        Some(Tok::Ge)
    } else if a == 61 && b == 61 {
        Some(Tok::EqEq)
    } else if a == 33 && b == 61 {
        Some(Tok::BangEq)
    } else if a == 38 && b == 38 {
        Some(Tok::AmpAmp)
    } else if a == 124 && b == 124 {
        Some(Tok::PipePipe)
    } else {
        None
    }
}

/// The token that a byte is, if any.
pub open spec fn single_token(b: u8) -> Option<Tok> {
    if b == 43 {
        Some(Tok::Plus)
    } else if b == 45 {
        Some(Tok::Minus)
    } else if b == 42 {
        Some(Tok::Star)
    } else if b == 47 {
        Some(Tok::Slash)
    } else if b == 37 {
        Some(Tok::Percent)
    } else if b == 60 {
        Some(Tok::Lt)
    } else if b == 62 {
        Some(Tok::Gt)
    } else if b == 61 {
        Some(Tok::Eq)
    } else if b == 33 {
        Some(Tok::Bang)
    } else if b == 40 {
        Some(Tok::LParen)
    } else if b == 41 {
        Some(Tok::RParen)
    } else if b == 123 {
        Some(Tok::LBrace)
    } else if b == 125 {
        Some(Tok::RBrace)
    } else if b == 91 {
        Some(Tok::LBrack)
    } else if b == 93 {
        Some(Tok::RBrack)
    } else if b == 58 {
        Some(Tok::Colon)
    } else if b == 59 {
        Some(Tok::Semi)
    } else if b == 44 {
        Some(Tok::Comma)
    } else {
        None
    }
}

/// What stands at a place in the source.
pub enum Lexeme {
    /// Nothing up to the given place.
    Skip(int),
    /// A token that ends at the given place.
    Token(Tok, int),
    /// What is no token.
    Fault(Seq<char>),
}

/// What stands at `pos`.
pub open spec fn lexeme(bytes: Seq<u8>, pos: int) -> Lexeme {
    let b = bytes[pos];
    if is_space(b) {
        Lexeme::Skip(pos + 1)
    } else if b == 47 && pos + 1 < bytes.len() && bytes[pos + 1] == 47 {
        Lexeme::Skip(line_end(bytes, pos))
    } else if b == 47 && pos + 1 < bytes.len() && bytes[pos + 1] == 42 {
        match comment_end(bytes, pos + 2) {
            Some(end) => Lexeme::Skip(end),
            None => Lexeme::Fault("unterminated block comment at byte "@ + dec(pos as nat)),
        }
    } else if is_digit(b) {
        let end = digits_end(bytes, pos);
        Lexeme::Token(Tok::Int(number(bytes, pos, end)), end)
    } else if starts_word(b) {
        let end = word_end(bytes, pos);
        Lexeme::Token(word_token(ascii_text(bytes, pos, end)), end)
    } else if pos + 1 < bytes.len() && pair_token(b, bytes[pos + 1]) is Some {
        Lexeme::Token(pair_token(b, bytes[pos + 1])->Some_0, pos + 2)
    } else {
        match single_token(b) {
            Some(t) => Lexeme::Token(t, pos + 1),
            None => Lexeme::Fault(
                "unexpected character "@ + char_debug(b as char) + " at byte "@ + dec(pos as nat),
            ),
        }
    }
}

/// What stands somewhere ends behind it.
pub proof fn lemma_lexeme_ends(bytes: Seq<u8>, pos: int)
    requires
        0 <= pos < bytes.len(),
    ensures
        match lexeme(bytes, pos) {
            Lexeme::Skip(end) => pos < end <= bytes.len(),
            Lexeme::Token(_, end) => pos < end <= bytes.len(),
            Lexeme::Fault(_) => true,
        },
{
    lemma_line_end(bytes, pos);
    lemma_digits_end(bytes, pos);
    lemma_word_end(bytes, pos);
    if pos + 2 <= bytes.len() {
        lemma_comment_end(bytes, pos + 2);
    }
    if bytes[pos] != 10 {
        lemma_line_end(bytes, pos + 1);
    }
    lemma_digits_end(bytes, pos + 1);
    lemma_word_end(bytes, pos + 1);
}

proof fn lemma_line_end(bytes: Seq<u8>, pos: int)
    requires
        0 <= pos <= bytes.len(),
    ensures
        pos <= line_end(bytes, pos) <= bytes.len(),
    decreases bytes.len() - pos,
{
    if pos < bytes.len() && bytes[pos] != 10 {
        lemma_line_end(bytes, pos + 1);
    }
}

proof fn lemma_digits_end(bytes: Seq<u8>, pos: int)
    requires
        0 <= pos <= bytes.len(),
    ensures
        pos <= digits_end(bytes, pos) <= bytes.len(),
        forall|i: int| pos <= i < digits_end(bytes, pos) ==> is_digit(#[trigger] bytes[i]),
    decreases bytes.len() - pos,
{
    if pos < bytes.len() && is_digit(bytes[pos]) {
        lemma_digits_end(bytes, pos + 1);
    }
}

proof fn lemma_word_end(bytes: Seq<u8>, pos: int)
    requires
        0 <= pos <= bytes.len(),
    ensures
        pos <= word_end(bytes, pos) <= bytes.len(),
    decreases bytes.len() - pos,
{
    if pos < bytes.len() && in_word(bytes[pos]) {
        lemma_word_end(bytes, pos + 1);
    }
}

proof fn lemma_comment_end(bytes: Seq<u8>, pos: int)
    requires
        0 <= pos <= bytes.len(),
    ensures
        comment_end(bytes, pos) matches Some(end) ==> pos < end <= bytes.len(),
    decreases bytes.len() - pos,
{
    if pos + 1 < bytes.len() {
        lemma_comment_end(bytes, pos + 1);
    }
}

/// The tokens of a source, or what is no token.
pub enum Lexed {
    /// The tokens, with where they start.
    Tokens(Seq<(Tok, int)>),
    /// What is no token.
    Fault(Seq<char>),
}

/// The tokens of the source from `pos` on, behind those before, with the end.
pub open spec fn lexed_from(bytes: Seq<u8>, pos: int, done: Seq<(Tok, int)>) -> Lexed
    decreases bytes.len() - pos,
{
    if pos < 0 || pos >= bytes.len() {
        Lexed::Tokens(done.push((Tok::Eof, bytes.len() as int)))
    } else {
        proof {
            lemma_lexeme_ends(bytes, pos);
        }
        match lexeme(bytes, pos) {
            Lexeme::Skip(end) => lexed_from(bytes, end, done),
            Lexeme::Token(t, end) => lexed_from(bytes, end, done.push((t, pos))),
            Lexeme::Fault(m) => Lexed::Fault(m),
        }
    }
}

/// The tokens of a source.
pub open spec fn lexed(bytes: Seq<u8>) -> Lexed {
    lexed_from(bytes, 0, Seq::empty())
}

fn space(b: u8) -> (r: bool)
    ensures
        r == is_space(b),
{
    b == 32 || b == 9 || b == 10 || b == 12 || b == 13
}

fn digit(b: u8) -> (r: bool)
    ensures
        r == is_digit(b),
{
    48 <= b && b <= 57
}

fn word_start(b: u8) -> (r: bool)
    ensures
        r == starts_word(b),
{
    65 <= b && b <= 90 || 97 <= b && b <= 122 || b == 95
}

fn keyword(word: &str) -> (r: Option<Token>)
    ensures
        match keyword_of(word@) {
            Some(t) => r is Some && tok_view(r->Some_0) == t,
            None => r is None,
        },
{
    if same_text(word, "let") {
        Some(Token::Let)
    } else if same_text(word, "while") {
        Some(Token::While)
    } else if same_text(word, "if") {
        Some(Token::If)
    } else if same_text(word, "else") {
        Some(Token::Else)
    } else if same_text(word, "scan") {
        Some(Token::Scan)
    } else if same_text(word, "print") {
        Some(Token::Print)
    } else if same_text(word, "putchar") {
        Some(Token::Putchar)
    } else if same_text(word, "u8") {
        Some(Token::U8)
    } else if same_text(word, "i8") {
        Some(Token::I8)
    } else if same_text(word, "u16") {
        Some(Token::U16)
    } else if same_text(word, "i16") {
        Some(Token::I16)
    } else if same_text(word, "u32") {
        Some(Token::U32)
    } else if same_text(word, "i32") {
        Some(Token::I32)
    } else {
        None
    }
}

fn pair(a: u8, b: u8) -> (r: Option<Token>)
    ensures
        match pair_token(a, b) {
            Some(t) => r is Some && tok_view(r->Some_0) == t,
            None => r is None,
        },
{
    if a == 60 && b == 61 {
        Some(Token::Le)
    } else if a == 62 && b == 61 {
        Some(Token::Ge)
    } else if a == 61 && b == 61 {
        Some(Token::EqEq)
    } else if a == 33 && b == 61 {
        Some(Token::BangEq)
    } else if a == 38 && b == 38 {
        Some(Token::AmpAmp)
    } else if a == 124 && b == 124 {
        Some(Token::PipePipe)
    } else {
        None
    }
}

fn single(b: u8) -> (r: Option<Token>)
    ensures
        match single_token(b) {
            Some(t) => r is Some && tok_view(r->Some_0) == t,
            None => r is None,
        },
{
    if b == 43 {
        Some(Token::Plus)
    } else if b == 45 {
        Some(Token::Minus)
    } else if b == 42 {
        Some(Token::Star)
    } else if b == 47 {
        Some(Token::Slash)
    } else if b == 37 {
        Some(Token::Percent)
    } else if b == 60 {
        Some(Token::Lt)
    } else if b == 62 {
        Some(Token::Gt)
    } else if b == 61 {
        Some(Token::Eq)
    } else if b == 33 {
        Some(Token::Bang)
    } else if b == 40 {
        Some(Token::LParen)
    } else if b == 41 {
        Some(Token::RParen)
    } else if b == 123 {
        Some(Token::LBrace)
    } else if b == 125 {
        Some(Token::RBrace)
    } else if b == 91 {
        Some(Token::LBrack)
    } else if b == 93 {
        Some(Token::RBrack)
    } else if b == 58 {
        Some(Token::Colon)
    } else if b == 59 {
        Some(Token::Semi)
    } else if b == 44 {
        Some(Token::Comma)
    } else {
        None
    }
}

fn skip_line(bytes: &[u8], from: usize) -> (pos: usize)
    requires
        from <= bytes@.len(),
    ensures
        pos == line_end(bytes@, from as int),
{
    let mut pos: usize = from;
    while pos < bytes.len() && bytes[pos] != 10
        invariant
            pos <= bytes@.len(),
            line_end(bytes@, from as int) == line_end(bytes@, pos as int),
        decreases bytes@.len() - pos,
    {
        pos += 1;
    }
    pos
}

fn skip_comment(bytes: &[u8], from: usize) -> (r: Option<usize>)
    requires
        from <= bytes@.len(),
    ensures
        match comment_end(bytes@, from as int) {
            Some(end) => r == Some(end as usize) && end <= bytes@.len() <= usize::MAX,
            None => r is None,
        },
{
    let len = bytes.len();
    let mut pos: usize = from;
    while pos < len && pos + 1 < len
        invariant
            pos <= len,
            len == bytes@.len(),
            comment_end(bytes@, from as int) == comment_end(bytes@, pos as int),
        decreases len - pos,
    {
        if bytes[pos] == 42 && bytes[pos + 1] == 47 {
            return Some(pos + 2);
        }
        pos += 1;
    }
    None
}

fn read_number(bytes: &[u8], from: usize) -> (r: (u64, usize))
    requires
        from <= bytes@.len(),
    ensures
        r.1 == digits_end(bytes@, from as int),
        r.0 == number(bytes@, from as int, r.1 as int),
{
    let mut n: u64 = 0;
    let mut pos: usize = from;
    while pos < bytes.len() && digit(bytes[pos])
        invariant
            from <= pos <= bytes@.len(),
            digits_end(bytes@, from as int) == digits_end(bytes@, pos as int),
            n == number(bytes@, from as int, pos as int),
        decreases bytes@.len() - pos,
    {
        let sum: u128 = (n as u128) * 10 + (bytes[pos] - 48) as u128;
        n = (sum % 0x1_0000_0000_0000_0000) as u64;
        pos += 1;
    }
    (n, pos)
}

fn read_word(bytes: &[u8], from: usize) -> (r: (String, usize))
    requires
        from <= bytes@.len(),
    ensures
        r.1 == word_end(bytes@, from as int),
        r.0@ == ascii_text(bytes@, from as int, r.1 as int),
{
    let mut word = String::new();
    let mut pos: usize = from;
    assert(word@ =~= ascii_text(bytes@, from as int, from as int));
    while pos < bytes.len() && (word_start(bytes[pos]) || digit(bytes[pos]))
        invariant
            from <= pos <= bytes@.len(),
            word_end(bytes@, from as int) == word_end(bytes@, pos as int),
            word@ == ascii_text(bytes@, from as int, pos as int),
        decreases bytes@.len() - pos,
    {
        let ghost before = word@;
        word.push(bytes[pos] as char);
        pos += 1;
        assert(word@ =~= ascii_text(bytes@, from as int, pos as int));
    }
    (word, pos)
}

/// What stands at `pos`, with where it ends; no token where it is nothing.
fn next_lexeme(bytes: &[u8], pos: usize) -> (r: Result<(Option<Token>, usize), BfscError>)
    requires
        pos < bytes@.len(),
    ensures
        match lexeme(bytes@, pos as int) {
            Lexeme::Skip(end) => r matches Ok((None, e)) && e == end && end <= bytes@.len(),
            Lexeme::Token(t, end) => r matches Ok((Some(tok), e)) && tok_view(tok) == t && e == end
                && end <= bytes@.len(),
            Lexeme::Fault(m) => r matches Err(e) && e@ == Failure::Lex(m),
        },
{
    proof {
        lemma_lexeme_ends(bytes@, pos as int);
    }
    let len = bytes.len();
    let b = bytes[pos];
    if space(b) {
        return Ok((None, pos + 1));
    }
    if b == 47 && pos + 1 < len && bytes[pos + 1] == 47 {
        return Ok((None, skip_line(bytes, pos)));
    }
    if b == 47 && pos + 1 < len && bytes[pos + 1] == 42 {
        match skip_comment(bytes, pos + 2) {
            Some(end) => {
                return Ok((None, end));
            },
            None => {
                let mut m = String::new();
                m.append("unterminated block comment at byte ");
                push_dec(&mut m, pos as u64);
                assert(m@ =~= "unterminated block comment at byte "@ + dec(pos as nat));
                return Err(BfscError::Lex(m));
            },
        }
    }
    if digit(b) {
        let (n, end) = read_number(bytes, pos);
        return Ok((Some(Token::Int(n)), end));
    }
    if word_start(b) {
        let (word, end) = read_word(bytes, pos);
        return match keyword(word.as_str()) {
            Some(t) => Ok((Some(t), end)),
            None => Ok((Some(Token::Ident(word)), end)),
        };
    }
    if pos + 1 < len {
        match pair(b, bytes[pos + 1]) {
            Some(t) => {
                return Ok((Some(t), pos + 2));
            },
            None => {},
        }
    }
    match single(b) {
        Some(t) => Ok((Some(t), pos + 1)),
        None => {
            let mut m = String::new();
            m.append("unexpected character ");
            let quoted = debug_char(b as char);
            m.append(quoted.as_str());
            m.append(" at byte ");
            push_dec(&mut m, pos as u64);
            assert(m@ =~= "unexpected character "@ + char_debug(b as char) + " at byte "@ + dec(
                pos as nat,
            ));
            Err(BfscError::Lex(m))
        },
    }
}

/// Whether a token list ends with the end of the source.
pub open spec fn terminated(tokens: Seq<(Tok, int)>) -> bool {
    tokens.len() > 0 && tokens.last().0 == Tok::Eof
}

/// Tokenise a BFS source. The last token is the end of the source.
pub fn tokenize(src: &str) -> (r: Result<Vec<SpannedToken>, BfscError>)
    ensures
        match lexed(vstd::utf8::encode_utf8(src@)) {
            Lexed::Tokens(ts) => r is Ok && toks_view(r->Ok_0@) == ts && terminated(ts),
            Lexed::Fault(m) => r is Err && r->Err_0@ == Failure::Lex(m),
        },
{
    let bytes = src.as_bytes();
    let len = bytes.len();
    let mut pos: usize = 0;
    let mut tokens: Vec<SpannedToken> = Vec::new();
    assert(toks_view(tokens@) =~= Seq::<(Tok, int)>::empty());
    while pos < len
        invariant
            pos <= len,
            len == bytes@.len(),
            lexed_from(bytes@, pos as int, toks_view(tokens@)) == lexed(bytes@),
            bytes@ == vstd::utf8::encode_utf8(src@),
        decreases len - pos,
    {
        proof {
            lemma_lexeme_ends(bytes@, pos as int);
        }
        let ghost before = toks_view(tokens@);
        match next_lexeme(bytes, pos) {
            Ok((Some(token), end)) => {
                tokens.push(SpannedToken { token, pos });
                assert(toks_view(tokens@) =~= before.push((tok_view(token), pos as int)));
                pos = end;
            },
            Ok((None, end)) => {
                pos = end;
            },
            Err(e) => {
                return Err(e);
            },
        }
    }
    let ghost before = toks_view(tokens@);
    tokens.push(SpannedToken { token: Token::Eof, pos: len });
    assert(toks_view(tokens@) =~= before.push((Tok::Eof, len as int)));
    Ok(tokens)
}

} // verus!
