//! BFS (Brainf Script): a small language that compiles to Brainfuck.

pub mod args;
pub mod arith;
pub mod arrays;
pub mod ast;
pub mod codegen;
pub mod effect;
pub mod emitter;
pub mod error;
pub mod laws;
pub mod layout;
pub mod lexer;
pub mod meaning;
pub mod numbers;
pub mod parser;
pub mod precedence;
pub mod sound;
pub mod typeck;

use vstd::prelude::*;

use crate::bfsc::ast::Program;
use crate::bfsc::ast::{fns_view, stmts_view, FnDef, Fun};
use crate::bfsc::codegen::emit;
use crate::bfsc::codegen::emitted;
use crate::bfsc::error::BfscError;
use crate::bfsc::error::Failure;
use crate::bfsc::lexer::tokenize;
use crate::bfsc::lexer::{lexed, Lexed};
use crate::bfsc::parser::parse;
use crate::bfsc::parser::{program_at, Got};
use crate::bfsc::typeck::check;
use crate::bfsc::typeck::{call_chain, calls, checked, recursive, Checked};
use crate::text::owned;

verus! {

/// What a source compiles to.
pub enum Compiled {
    /// Brainfuck.
    Text(Seq<char>),
    /// What is wrong.
    Fault(Failure),
}

/// What a source compiles to: its tokens, then its statements, then their
/// layout, then their Brainfuck.
pub open spec fn compiled(source: Seq<char>) -> Compiled {
    match lexed(vstd::utf8::encode_utf8(source)) {
        Lexed::Fault(m) => Compiled::Fault(Failure::Lex(m)),
        Lexed::Tokens(ts) => match program_at(ts) {
            Got::Fault(m) => Compiled::Fault(Failure::Parse(m)),
            Got::Done(stmts, _) => match checked(stmts, Seq::empty()) {
                Checked::Fault(m) => Compiled::Fault(Failure::Type(m)),
                Checked::Pass(d) => match emitted(stmts, Seq::empty(), d.vars, d.next) {
                    Some(text) => Compiled::Text(text),
                    None => Compiled::Fault(
                        Failure::Compile("walk arrays beyond 16777216 elements not supported"@),
                    ),
                },
            },
        },
    }
}

/// Compile a BFS source to Brainfuck.
pub fn compile(source: &str) -> (r: Result<String, BfscError>)
    ensures
        match compiled(source@) {
            Compiled::Text(text) => r is Ok && r->Ok_0@ == text,
            Compiled::Fault(f) => r is Err && r->Err_0@ == f,
        },
{
    let tokens = match tokenize(source) {
        Ok(tokens) => tokens,
        Err(e) => {
            return Err(e);
        },
    };
    let top = match parse(tokens.as_slice()) {
        Ok(stmts) => stmts,
        Err(e) => {
            return Err(e);
        },
    };
    let fns: Vec<FnDef> = Vec::new();
    let ghost stmts = stmts_view(top@);
    proof {
        assert(fns_view(fns@) =~= Seq::<Fun>::empty());
        assert forall|f: int| !#[trigger] recursive(Seq::<Fun>::empty(), f) by {
            if recursive(Seq::<Fun>::empty(), f) {
                let none = Seq::<Fun>::empty();
                let chain = choose|chain: Seq<int>|
                    #![trigger call_chain(none, chain)]
                    chain.len() >= 2 && chain.first() == f && chain.last() == f && call_chain(
                        none,
                        chain,
                    );
                assert(calls(none, chain[0], chain[1]));
            }
        }
    }
    let (program, layout) = match check(Program { fns, top }) {
        Ok(v) => v,
        Err(e) => {
            return Err(e);
        },
    };
    match emit(&program, &layout) {
        Some(text) => Ok(text),
        None => Err(
            BfscError::Compile(owned("walk arrays beyond 16777216 elements not supported")),
        ),
    }
}

} // verus!
