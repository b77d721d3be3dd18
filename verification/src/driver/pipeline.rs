//! From source text to HIR, and what becomes of its meaning.

use vstd::prelude::*;

use crate::error::Error;
use crate::frontend::lexer::lex;
use crate::frontend::lexer::{tokens_of, Token};
use crate::frontend::meaning::{law_parsing_keeps_meaning, operated};
use crate::frontend::parser::parse;
use crate::frontend::parser::{
    balanced, block_at, depth, depth_agrees, first_surplus, lemma_block_end, lemma_depth,
    lemma_short_runs_fit, never_negative, runs_fit, tree_of, ParseError,
};
use crate::interp::bounds::{lemma_block_measures, lemma_short_program_fits};
use crate::interp::lower::{block_fits, bytecode};
use crate::interp::machine::{loaded, run, steps, Source, St};
use crate::interp::preserve::{
    exact_moves, gives_bytes, law_bytecode_ends_with_the_program, law_bytecode_keeps_meaning,
    outcome, solid,
};
use crate::ir::hir::hirs_view;
use crate::ir::hir::HirProgram;
use crate::ir::lower::hirs_of;
use crate::ir::lower::lower_to_hir;

verus! {

/// What the front end makes of a source.
#[derive(Debug)]
pub struct FrontendArtifacts {
    /// Number of operators.
    pub token_count: usize,
    /// Number of nodes at the top level of the tree.
    pub ast_nodes: usize,
    /// The program.
    pub hir: HirProgram,
}

/// The program of a source text whose brackets match.
pub open spec fn program_of(source: Seq<char>) -> Seq<crate::ir::hir::Hir> {
    hirs_of(tree_of(tokens_of(source)))
}

/// Read a source text.
pub fn build_frontend(source: &str) -> (r: Result<FrontendArtifacts, Error>)
    requires
        runs_fit(tokens_of(source@)),
    ensures
        r is Ok <==> balanced(tokens_of(source@)),
        r is Ok ==> {
            &&& r->Ok_0.token_count == tokens_of(source@).len()
            &&& r->Ok_0.ast_nodes == tree_of(tokens_of(source@)).len()
            &&& hirs_view(r->Ok_0.hir.insts@) == program_of(source@)
        },
        r is Err ==> r->Err_0 is Parse,
        r matches Err(Error::Parse(ParseError::UnexpectedLoopEnd { pos })) ==> first_surplus(
            tokens_of(source@),
            pos as int,
        ),
        r matches Err(Error::Parse(ParseError::UnclosedLoop { pos })) ==> never_negative(
            tokens_of(source@),
        ) && pos == tokens_of(source@).len(),
{
    let tokens = lex(source);
    let ast = match parse(tokens.as_slice()) {
        Ok(ast) => ast,
        Err(e) => {
            return Err(Error::Parse(e));
        },
    };
    let hir = lower_to_hir(&ast);
    proof {
        crate::frontend::ast::lemma_nodes_index(ast@);
    }
    Ok(FrontendArtifacts { token_count: tokens.len(), ast_nodes: ast.len(), hir })
}

/// A source of at most `i32::MAX` operators with matching brackets can be
/// read, and its program fits its bytecode with exact windows.
pub proof fn law_ordinary_sources_fit(tokens: Seq<Token>)
    requires
        balanced(tokens),
        tokens.len() <= i32::MAX,
    ensures
        runs_fit(tokens),
        block_fits(hirs_of(tree_of(tokens)), Seq::empty()),
        exact_moves(hirs_of(tree_of(tokens))),
{
    lemma_short_runs_fit(tokens);
    lemma_depth(tokens, 0, false);
    lemma_block_end(tokens, 0, false);
    assert(depth(tokens, 0) == 0);
    assert(block_at(tokens, 0, false) is Nodes) by {
        assert(depth_agrees(tokens, 0, false));
    }
    lemma_block_measures(tokens, 0, false);
    lemma_short_program_fits(hirs_of(tree_of(tokens)), Seq::empty());
}

/// A program that has ended stays where it is.
proof fn lemma_ended_stays(tokens: Seq<Token>, s: St, source: Source, n: nat, m: nat)
    requires
        operated(tokens, 0, s, source, n).0 >= tokens.len(),
        n <= m,
    ensures
        operated(tokens, 0, s, source, m) == operated(tokens, 0, s, source, n),
{
    crate::frontend::meaning::lemma_operated_add(tokens, 0, s, source, n, (m - n) as nat);
}

/// The bytecode of a source does what the source says, operator by operator,
/// whatever it reads: if the source ends after `n` operators, its bytecode
/// ends, with the same cells, the same data pointer, and the same input and
/// output at the same places.
pub proof fn law_bytecode_does_what_the_source_says(
    tokens: Seq<Token>,
    s: St,
    source: Source,
    n: nat,
) -> (m: nat)
    requires
        balanced(tokens),
        tokens.len() <= i32::MAX,
        solid(s),
        gives_bytes(source),
        operated(tokens, 0, s, source, n).0 >= tokens.len(),
    ensures
        outcome(steps(loaded(bytecode(hirs_of(tree_of(tokens))), s), source, m)) == Some(
            operated(tokens, 0, s, source, n).1,
        ),
{
    law_ordinary_sources_fit(tokens);
    let insts = hirs_of(tree_of(tokens));
    let k = law_parsing_keeps_meaning(tokens, s, source, n + 1);
    if k >= n {
        lemma_ended_stays(tokens, s, source, n, k);
    } else {
        lemma_ended_stays(tokens, s, source, k, n);
    }
    assert(run(insts, s, source, n + 1) == Some(operated(tokens, 0, s, source, n).1));
    law_bytecode_keeps_meaning(insts, s, source, n + 1)
}

/// The bytecode of a source ends only where the source does: if it has halted
/// after `n` steps, the source ends, in the same state.
pub proof fn law_bytecode_ends_where_the_source_does(
    tokens: Seq<Token>,
    s: St,
    source: Source,
    n: nat,
) -> (m: nat)
    requires
        balanced(tokens),
        tokens.len() <= i32::MAX,
        solid(s),
        gives_bytes(source),
        steps(loaded(bytecode(hirs_of(tree_of(tokens))), s), source, n).halted(),
    ensures
        operated(tokens, 0, s, source, m) == (
            tokens.len() as int,
            steps(loaded(bytecode(hirs_of(tree_of(tokens))), s), source, n).st,
        ),
{
    law_ordinary_sources_fit(tokens);
    law_bytecode_ends_with_the_program(hirs_of(tree_of(tokens)), s, source, n);
    law_parsing_keeps_meaning(tokens, s, source, n + 1)
}

} // verus!
