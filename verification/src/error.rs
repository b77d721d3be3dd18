//! The errors of a run and their messages.

use vstd::prelude::*;

use crate::frontend::parser::ParseError;
use crate::interp::engine::RuntimeError;
use crate::text::{dec, owned, push_dec};

verus! {

/// Why a run failed.
#[derive(Debug)]
pub enum Error {
    /// A verbosity above four.
    InvalidLogLevel(u8),
    /// A file could not be used.
    Io {
        /// What was attempted, such as `failed to write a.out`.
        message: String,
        /// What the system said.
        source: String,
    },
    /// The program does not parse.
    Parse(ParseError),
    /// The interpreter stopped early.
    Runtime(RuntimeError),
    /// In-memory compilation or execution failed.
    Jit(String),
    /// Anything else, such as a failure of the BFS compiler.
    Other(String),
}

impl Error {
    /// The message of this error.
    pub open spec fn message(self) -> Seq<char> {
        match self {
            Error::InvalidLogLevel(n) => "log level must be between 0 and 4, got "@ + dec(n as nat),
            Error::Io { message, source } => message@,
            Error::Parse(e) => e.message(),
            Error::Runtime(e) => e.message(),
            Error::Jit(s) => s@,
            Error::Other(s) => s@,
        }
    }

    /// The message of this error.
    pub fn describe(&self) -> (s: String)
        ensures
            s@ == self.message(),
    {
        match self {
            Error::InvalidLogLevel(n) => {
                let mut s = owned("log level must be between 0 and 4, got ");
                push_dec(&mut s, *n as u64);
                s
            },
            Error::Io { message, source } => owned(message.as_str()),
            Error::Parse(e) => e.describe(),
            Error::Runtime(e) => e.describe(),
            Error::Jit(s) => owned(s.as_str()),
            Error::Other(s) => owned(s.as_str()),
        }
    }
}

/// The error of a file operation that the system refused: `failed to`, the
/// verb and the path.
pub fn io_err(path: &str, verb: &str, source: String) -> (e: Error)
    ensures
        e matches Error::Io { message, source: s } && message@ == "failed to "@ + verb@ + " "@
            + path@ && s@ == source@,
{
    let mut message = owned("failed to ");
    message.append(verb);
    message.append(" ");
    message.append(path);
    Error::Io { message, source }
}

} // verus!
