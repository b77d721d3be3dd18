//! Errors of the BFS compiler.

use vstd::prelude::*;

verus! {

/// What can go wrong while compiling BFS.
#[derive(Debug)]
pub enum BfscError {
    /// Reading or writing a file failed.
    Io(String),
    /// The source holds no tokens.
    Lex(String),
    /// The tokens form no program.
    Parse(String),
    /// The program does not pass the type check.
    Type(String),
    /// The program cannot be emitted, or the back end failed.
    Compile(String),
}

/// An error as a mathematical value.
pub enum Failure {
    /// Reading or writing a file failed.
    Io(Seq<char>),
    /// The source holds no tokens.
    Lex(Seq<char>),
    /// The tokens form no program.
    Parse(Seq<char>),
    /// The program does not pass the type check.
    Type(Seq<char>),
    /// The program cannot be emitted, or the back end failed.
    Compile(Seq<char>),
}

impl View for BfscError {
    type V = Failure;

    open spec fn view(&self) -> Failure {
        match self {
            BfscError::Io(m) => Failure::Io(m@),
            BfscError::Lex(m) => Failure::Lex(m@),
            BfscError::Parse(m) => Failure::Parse(m@),
            BfscError::Type(m) => Failure::Type(m@),
            BfscError::Compile(m) => Failure::Compile(m@),
        }
    }
}

impl Failure {
    /// The error as a message.
    pub open spec fn message(self) -> Seq<char> {
        match self {
            Failure::Io(m) => "I/O error: "@ + m,
            Failure::Lex(m) => "Lexer error: "@ + m,
            Failure::Parse(m) => "Parse error: "@ + m,
            Failure::Type(m) => "Type error: "@ + m,
            Failure::Compile(m) => "Compile error: "@ + m,
        }
    }
}

impl BfscError {
    /// The error as a message.
    pub fn describe(&self) -> (s: String)
        ensures
            s@ == self@.message(),
    {
        let mut s = String::new();
        match self {
            BfscError::Io(m) => {
                s.append("I/O error: ");
                s.append(m.as_str());
            },
            BfscError::Lex(m) => {
                s.append("Lexer error: ");
                s.append(m.as_str());
            },
            BfscError::Parse(m) => {
                s.append("Parse error: ");
                s.append(m.as_str());
            },
            BfscError::Type(m) => {
                s.append("Type error: ");
                s.append(m.as_str());
            },
            BfscError::Compile(m) => {
                s.append("Compile error: ");
                s.append(m.as_str());
            },
        }
        assert(s@ =~= self@.message());
        s
    }
}

} // verus!
