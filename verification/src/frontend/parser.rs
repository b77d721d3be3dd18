//! Brainfuck parser: balances `[` and `]` into loops and merges runs of
//! pointer moves and of cell changes.

use vstd::prelude::*;

use crate::frontend::ast::AstNode;
use crate::frontend::ast::{lemma_nodes_push, nodes_view, Node};
use crate::frontend::lexer::Token;
use crate::text::push_dec;
use crate::text::dec;

verus! {

/// Errors raised by [`parse`] when a token stream is structurally invalid.
#[derive(Debug, Clone, Copy, PartialEq, Eq, Structural)]
#[allow(inconsistent_fields)]
pub enum ParseError {
    /// A `]` appeared without a matching `[`.
    UnexpectedLoopEnd {
        /// Token index of the offending `]`.
        pos: usize,
    },
    /// A `[` was never closed by a matching `]`.
    UnclosedLoop {
        /// Token index at which parsing reached the end while inside a loop.
        pos: usize,
    },
}

impl ParseError {
    /// The error as a message.
    pub open spec fn message(self) -> Seq<char> {
        match self {
            ParseError::UnexpectedLoopEnd { pos } => "unexpected loop end ']' at position "@ + dec(
                pos as nat,
            ),
            ParseError::UnclosedLoop { pos } => "unclosed loop '[' starting at position "@ + dec(
                pos as nat,
            ),
        }
    }

    /// The error as a message.
    pub fn describe(&self) -> (s: String)
        ensures
            s@ == self.message(),
    {
        let mut s = String::new();
        match self {
            ParseError::UnexpectedLoopEnd { pos } => {
                s.append("unexpected loop end ']' at position ");
                push_dec(&mut s, *pos as u64);
            },
            ParseError::UnclosedLoop { pos } => {
                s.append("unclosed loop '[' starting at position ");
                push_dec(&mut s, *pos as u64);
            },
        }
        assert(s@ =~= self.message());
        s
    }
}

/// Whether the token moves the pointer.
pub open spec fn is_move(t: Token) -> bool {
    t == Token::MoveRight || t == Token::MoveLeft
}

/// Whether the token changes the cell.
pub open spec fn is_add(t: Token) -> bool {
    t == Token::Inc || t == Token::Dec
}

/// What a token adds to the pointer or to the cell.
pub open spec fn unit(t: Token) -> int {
    if t == Token::MoveRight || t == Token::Inc {
        1
    } else if t == Token::MoveLeft || t == Token::Dec {
        -1
    } else {
        0
    }
}

/// The end of the run of moves that starts at `pos`.
pub open spec fn move_end(tokens: Seq<Token>, pos: int) -> int
    decreases tokens.len() - pos,
{
    if 0 <= pos < tokens.len() && is_move(tokens[pos]) {
        move_end(tokens, pos + 1)
    } else {
        pos
    }
}

/// The end of the run of cell changes that starts at `pos`.
pub open spec fn add_end(tokens: Seq<Token>, pos: int) -> int
    decreases tokens.len() - pos,
{
    if 0 <= pos < tokens.len() && is_add(tokens[pos]) {
        add_end(tokens, pos + 1)
    } else {
        pos
    }
}

/// The net effect of the tokens from `from` to `to`.
pub open spec fn net(tokens: Seq<Token>, from: int, to: int) -> int
    decreases to - from,
{
    if from >= to {
        0
    } else {
        net(tokens, from, to - 1) + unit(tokens[to - 1])
    }
}

/// Whether no run reaches across `pos` from the left.
pub open spec fn run_start(tokens: Seq<Token>, pos: int) -> bool {
    0 < pos < tokens.len() ==> {
        &&& is_add(tokens[pos]) ==> !is_add(tokens[pos - 1])
        &&& is_move(tokens[pos]) ==> !is_move(tokens[pos - 1])
    }
}

/// Every partial sum of a run of cell changes fits an `i32`, and every partial
/// sum of a run of moves an `isize`.
pub open spec fn runs_fit(tokens: Seq<Token>) -> bool {
    forall|i: int, j: int|
        #![trigger net(tokens, i, j)]
        0 <= i < j <= tokens.len() && run_start(tokens, i) ==> {
            &&& is_add(tokens[i]) && j <= add_end(tokens, i) ==> i32::MIN <= net(tokens, i, j)
                <= i32::MAX
            &&& is_move(tokens[i]) && j <= move_end(tokens, i) ==> isize::MIN <= net(
                tokens,
                i,
                j,
            ) <= isize::MAX
        }
}

/// No run of a stream of at most `i32::MAX` tokens is too long.
pub proof fn lemma_short_runs_fit(tokens: Seq<Token>)
    requires
        tokens.len() <= i32::MAX,
    ensures
        runs_fit(tokens),
{
    assert forall|i: int, j: int|
        #![trigger net(tokens, i, j)]
        0 <= i < j <= tokens.len() implies -(j - i) <= net(tokens, i, j) <= j - i by {
        lemma_net_bound(tokens, i, j);
    }
}

pub proof fn lemma_net_bound(tokens: Seq<Token>, from: int, to: int)
    requires
        from <= to,
    ensures
        -(to - from) <= net(tokens, from, to) <= to - from,
    decreases to - from,
{
    if from < to {
        lemma_net_bound(tokens, from, to - 1);
    }
}

/// The runs get longer.
pub proof fn lemma_run_ends(tokens: Seq<Token>, pos: int)
    requires
        0 <= pos <= tokens.len(),
    ensures
        pos <= move_end(tokens, pos) <= tokens.len(),
        pos <= add_end(tokens, pos) <= tokens.len(),
        pos < tokens.len() && is_move(tokens[pos]) ==> pos < move_end(tokens, pos),
        pos < tokens.len() && is_add(tokens[pos]) ==> pos < add_end(tokens, pos),
        move_end(tokens, pos) < tokens.len() ==> !is_move(tokens[move_end(tokens, pos)]),
        add_end(tokens, pos) < tokens.len() ==> !is_add(tokens[add_end(tokens, pos)]),
    decreases tokens.len() - pos,
{
    if pos < tokens.len() {
        lemma_run_ends(tokens, pos + 1);
    }
}

/// The result of reading a block.
pub enum Block {
    /// The nodes of the block, and the position behind it.
    Nodes(Seq<Node>, int),
    /// The block is not well formed.
    Fault(ParseError),
}

/// A node in front of the rest of a block.
pub open spec fn in_front(node: Node, rest: Block) -> Block {
    match rest {
        Block::Nodes(nodes, end) => Block::Nodes(seq![node] + nodes, end),
        Block::Fault(e) => Block::Fault(e),
    }
}

/// The block that starts at `pos`: runs are one node each, or none where they
/// cancel out; a loop is a node with the block inside it. Inside a loop the
/// block ends with the closing bracket.
pub open spec fn block_at(tokens: Seq<Token>, pos: int, in_loop: bool) -> Block
    decreases tokens.len() - pos,
{
    if pos < 0 || pos >= tokens.len() {
        if in_loop {
            Block::Fault(ParseError::UnclosedLoop { pos: pos as usize })
        } else {
            Block::Nodes(Seq::empty(), pos)
        }
    } else if is_move(tokens[pos]) {
        proof {
            lemma_run_ends(tokens, pos);
        }
        let end = move_end(tokens, pos);
        let delta = net(tokens, pos, end);
        let rest = block_at(tokens, end, in_loop);
        if delta == 0 {
            rest
        } else {
            in_front(Node::Move(delta), rest)
        }
    } else if is_add(tokens[pos]) {
        proof {
            lemma_run_ends(tokens, pos);
        }
        let end = add_end(tokens, pos);
        let delta = net(tokens, pos, end);
        let rest = block_at(tokens, end, in_loop);
        if delta == 0 {
            rest
        } else {
            in_front(Node::Add(delta), rest)
        }
    } else if tokens[pos] == Token::Output {
        in_front(Node::Output, block_at(tokens, pos + 1, in_loop))
    } else if tokens[pos] == Token::Input {
        in_front(Node::Input, block_at(tokens, pos + 1, in_loop))
    } else if tokens[pos] == Token::LoopStart {
        match block_at(tokens, pos + 1, true) {
            Block::Fault(e) => Block::Fault(e),
            Block::Nodes(body, end) => if pos < end <= tokens.len() {
                in_front(Node::Loop(body), block_at(tokens, end, in_loop))
            } else {
                Block::Nodes(Seq::empty(), pos)
            },
        }
    } else if in_loop {
        Block::Nodes(Seq::empty(), pos + 1)
    } else {
        Block::Fault(ParseError::UnexpectedLoopEnd { pos: pos as usize })
    }
}

/// A block ends behind its start and not behind the tokens.
pub proof fn lemma_block_end(tokens: Seq<Token>, pos: int, in_loop: bool)
    requires
        0 <= pos <= tokens.len(),
    ensures
        match block_at(tokens, pos, in_loop) {
            Block::Nodes(_, end) => pos <= end <= tokens.len() && (in_loop ==> pos < end) && (
            !in_loop ==> end == tokens.len()),
            Block::Fault(_) => true,
        },
    decreases tokens.len() - pos,
{
    lemma_run_ends(tokens, pos);
    if pos < tokens.len() {
        if is_move(tokens[pos]) {
            lemma_block_end(tokens, move_end(tokens, pos), in_loop);
        } else if is_add(tokens[pos]) {
            lemma_block_end(tokens, add_end(tokens, pos), in_loop);
        } else if tokens[pos] == Token::LoopStart {
            lemma_block_end(tokens, pos + 1, true);
            match block_at(tokens, pos + 1, true) {
                Block::Nodes(_, end) => {
                    lemma_block_end(tokens, end, in_loop);
                },
                Block::Fault(_) => {},
            }
        } else if tokens[pos] != Token::LoopEnd {
            lemma_block_end(tokens, pos + 1, in_loop);
        }
    }
}

/// The nesting depth in front of token `n`; negative behind a surplus `]`.
pub open spec fn depth(tokens: Seq<Token>, n: int) -> int
    decreases n,
{
    if n <= 0 {
        0
    } else {
        depth(tokens, n - 1) + if tokens[n - 1] == Token::LoopStart {
            1int
        } else if tokens[n - 1] == Token::LoopEnd {
            -1int
        } else {
            0int
        }
    }
}

/// No prefix closes more loops than it opens.
pub open spec fn never_negative(tokens: Seq<Token>) -> bool {
    forall|n: int| 0 <= n <= tokens.len() ==> #[trigger] depth(tokens, n) >= 0
}

/// The brackets match.
pub open spec fn balanced(tokens: Seq<Token>) -> bool {
    never_negative(tokens) && depth(tokens, tokens.len() as int) == 0
}

/// Token `n` is the first `]` without a matching `[`.
pub open spec fn first_surplus(tokens: Seq<Token>, n: int) -> bool {
    &&& 0 <= n < tokens.len()
    &&& depth(tokens, n + 1) < 0
    &&& forall|k: int| 0 <= k <= n ==> #[trigger] depth(tokens, k) >= 0
}

/// The depth does not change over tokens that are no brackets.
proof fn lemma_depth_run(tokens: Seq<Token>, from: int, to: int)
    requires
        0 <= from <= to <= tokens.len(),
        forall|k: int|
            from <= k < to ==> #[trigger] tokens[k] != Token::LoopStart && tokens[k]
                != Token::LoopEnd,
    ensures
        forall|k: int| from <= k <= to ==> #[trigger] depth(tokens, k) == depth(tokens, from),
    decreases to - from,
{
    if from < to {
        lemma_depth_run(tokens, from, to - 1);
        assert(tokens[to - 1] != Token::LoopStart && tokens[to - 1] != Token::LoopEnd);
        assert forall|k: int| from <= k <= to implies #[trigger] depth(tokens, k) == depth(
            tokens,
            from,
        ) by {
            if k == to {
                assert(depth(tokens, to - 1) == depth(tokens, from));
            }
        }
    }
}

pub proof fn lemma_run_kinds(tokens: Seq<Token>, pos: int)
    requires
        0 <= pos <= tokens.len(),
    ensures
        forall|k: int| pos <= k < move_end(tokens, pos) ==> is_move(#[trigger] tokens[k]),
        forall|k: int| pos <= k < add_end(tokens, pos) ==> is_add(#[trigger] tokens[k]),
    decreases tokens.len() - pos,
{
    if pos < tokens.len() {
        lemma_run_kinds(tokens, pos + 1);
    }
}

/// What the outcome of a block says about the depth from `pos` on, relative to
/// the depth at `pos`.
pub open spec fn depth_agrees(tokens: Seq<Token>, pos: int, in_loop: bool) -> bool {
    let base = depth(tokens, pos);
    match block_at(tokens, pos, in_loop) {
        Block::Nodes(_, end) => {
            &&& pos <= end <= tokens.len()
            &&& depth(tokens, end) == base - if in_loop {
                1int
            } else {
                0int
            }
            &&& forall|k: int| pos <= k < end ==> #[trigger] depth(tokens, k) >= base
            &&& !in_loop ==> end == tokens.len()
        },
        Block::Fault(ParseError::UnclosedLoop { pos: p }) => {
            &&& p == tokens.len()
            &&& depth(tokens, tokens.len() as int) > base - if in_loop {
                1int
            } else {
                0int
            }
            &&& forall|k: int| pos <= k <= tokens.len() ==> #[trigger] depth(tokens, k) >= base
        },
        Block::Fault(ParseError::UnexpectedLoopEnd { pos: p }) => {
            &&& !in_loop
            &&& pos <= p < tokens.len()
            &&& depth(tokens, p + 1) < base
            &&& forall|k: int| pos <= k <= p ==> #[trigger] depth(tokens, k) >= base
        },
    }
}

pub proof fn lemma_depth(tokens: Seq<Token>, pos: int, in_loop: bool)
    requires
        0 <= pos <= tokens.len() <= usize::MAX,
    ensures
        depth_agrees(tokens, pos, in_loop),
    decreases tokens.len() - pos,
{
    let base = depth(tokens, pos);
    lemma_run_ends(tokens, pos);
    lemma_run_kinds(tokens, pos);
    lemma_block_end(tokens, pos, in_loop);
    if pos < tokens.len() {
        if is_move(tokens[pos]) || is_add(tokens[pos]) {
            let end = if is_move(tokens[pos]) {
                move_end(tokens, pos)
            } else {
                add_end(tokens, pos)
            };
            lemma_depth(tokens, end, in_loop);
            lemma_depth_run(tokens, pos, end);
            assert(depth(tokens, end) == base);
        } else if tokens[pos] == Token::LoopStart {
            lemma_depth(tokens, pos + 1, true);
            lemma_block_end(tokens, pos + 1, true);
            assert(depth(tokens, pos + 1) == base + 1);
            match block_at(tokens, pos + 1, true) {
                Block::Nodes(_, end) => {
                    lemma_depth(tokens, end, in_loop);
                    assert(depth(tokens, end) == base);
                },
                Block::Fault(_) => {},
            }
        } else if tokens[pos] == Token::LoopEnd {
            assert(depth(tokens, pos + 1) == base - 1);
        } else {
            lemma_depth(tokens, pos + 1, in_loop);
            assert(depth(tokens, pos + 1) == base);
        }
    }
}

/// The tree of a token stream with matching brackets.
pub open spec fn tree_of(tokens: Seq<Token>) -> Seq<Node> {
    match block_at(tokens, 0, false) {
        Block::Nodes(nodes, _) => nodes,
        Block::Fault(_) => Seq::empty(),
    }
}

/// Sum up the run of moves at `pos`; leaves `pos` behind it.
fn parse_move_run(tokens: &[Token], pos: &mut usize) -> (delta: isize)
    requires
        *old(pos) < tokens@.len(),
        is_move(tokens@[*old(pos) as int]),
        run_start(tokens@, *old(pos) as int),
        runs_fit(tokens@),
    ensures
        *final(pos) == move_end(tokens@, *old(pos) as int),
        delta == net(tokens@, *old(pos) as int, *final(pos) as int),
{
    let start: usize = *pos;
    let mut delta: isize = 0;
    let ghost goal = move_end(tokens@, start as int);
    proof {
        lemma_run_ends(tokens@, start as int);
    }
    while *pos < tokens.len()
        invariant
            start <= *pos <= goal <= tokens@.len(),
            start < tokens@.len(),
            is_move(tokens@[start as int]),
            run_start(tokens@, start as int),
            runs_fit(tokens@),
            goal == move_end(tokens@, start as int),
            goal == move_end(tokens@, *pos as int),
            delta == net(tokens@, start as int, *pos as int),
        ensures
            *pos == goal,
            delta == net(tokens@, start as int, *pos as int),
        decreases tokens@.len() - *pos,
    {
        proof {
            lemma_run_ends(tokens@, *pos as int);
        }
        match tokens[*pos] {
            Token::MoveRight => {
                proof {
                    lemma_run_ends(tokens@, *pos + 1);
                    assert(net(tokens@, start as int, *pos + 1) == delta + unit(tokens@[*pos as int]));
                }
                delta += 1;
            },
            Token::MoveLeft => {
                proof {
                    lemma_run_ends(tokens@, *pos + 1);
                    assert(net(tokens@, start as int, *pos + 1) == delta + unit(tokens@[*pos as int]));
                }
                delta -= 1;
            },
            _ => {
                break ;
            },
        }
        *pos += 1;
    }
    delta
}

/// Sum up the run of cell changes at `pos`; leaves `pos` behind it.
fn parse_add_run(tokens: &[Token], pos: &mut usize) -> (delta: i32)
    requires
        *old(pos) < tokens@.len(),
        is_add(tokens@[*old(pos) as int]),
        run_start(tokens@, *old(pos) as int),
        runs_fit(tokens@),
    ensures
        *final(pos) == add_end(tokens@, *old(pos) as int),
        delta == net(tokens@, *old(pos) as int, *final(pos) as int),
{
    let start: usize = *pos;
    let mut delta: i32 = 0;
    let ghost goal = add_end(tokens@, start as int);
    proof {
        lemma_run_ends(tokens@, start as int);
    }
    while *pos < tokens.len()
        invariant
            start <= *pos <= goal <= tokens@.len(),
            start < tokens@.len(),
            is_add(tokens@[start as int]),
            run_start(tokens@, start as int),
            runs_fit(tokens@),
            goal == add_end(tokens@, start as int),
            goal == add_end(tokens@, *pos as int),
            delta == net(tokens@, start as int, *pos as int),
        ensures
            *pos == goal,
            delta == net(tokens@, start as int, *pos as int),
        decreases tokens@.len() - *pos,
    {
        proof {
            lemma_run_ends(tokens@, *pos as int);
        }
        match tokens[*pos] {
            Token::Inc => {
                proof {
                    lemma_run_ends(tokens@, *pos + 1);
                    assert(net(tokens@, start as int, *pos + 1) == delta + unit(tokens@[*pos as int]));
                }
                delta += 1;
            },
            Token::Dec => {
                proof {
                    lemma_run_ends(tokens@, *pos + 1);
                    assert(net(tokens@, start as int, *pos + 1) == delta + unit(tokens@[*pos as int]));
                }
                delta -= 1;
            },
            _ => {
                break ;
            },
        }
        *pos += 1;
    }
    delta
}

/// Nodes read so far in front of the rest of a block.
spec fn all_in_front(nodes: Seq<Node>, rest: Block) -> Block {
    match rest {
        Block::Nodes(more, end) => Block::Nodes(nodes + more, end),
        Block::Fault(e) => Block::Fault(e),
    }
}

proof fn lemma_one_more(nodes: Seq<Node>, node: Node, rest: Block)
    ensures
        all_in_front(nodes, in_front(node, rest)) == all_in_front(nodes.push(node), rest),
{
    match rest {
        Block::Nodes(more, _) => {
            assert(nodes + (seq![node] + more) =~= nodes.push(node) + more);
        },
        Block::Fault(_) => {},
    }
}

/// Parse one block, inside a loop or at the top level.
fn parse_block(tokens: &[Token], pos: &mut usize, in_loop: bool) -> (r: Result<
    Vec<AstNode>,
    ParseError,
>)
    requires
        *old(pos) <= tokens@.len(),
        run_start(tokens@, *old(pos) as int),
        runs_fit(tokens@),
    ensures
        *final(pos) <= tokens@.len(),
        r is Ok ==> run_start(tokens@, *final(pos) as int),
        match block_at(tokens@, *old(pos) as int, in_loop) {
            Block::Nodes(nodes, end) => r is Ok && nodes_view(r->Ok_0@) == nodes && *final(pos)
                == end,
            Block::Fault(e) => r is Err && r->Err_0 == e,
        },
    decreases tokens@.len() - *old(pos),
{
    let mut nodes: Vec<AstNode> = Vec::new();
    let ghost start = *pos as int;
    let ghost whole = block_at(tokens@, start, in_loop);
    assert(all_in_front(nodes_view(nodes@), whole) == whole) by {
        match whole {
            Block::Nodes(more, _) => {
                assert(Seq::<Node>::empty() + more =~= more);
            },
            Block::Fault(_) => {},
        }
    }
    while *pos < tokens.len()
        invariant
            start == *old(pos),
            start <= *pos <= tokens@.len(),
            run_start(tokens@, *pos as int),
            runs_fit(tokens@),
            whole == block_at(tokens@, start, in_loop),
            all_in_front(nodes_view(nodes@), block_at(tokens@, *pos as int, in_loop)) == whole,
        decreases tokens@.len() - *pos,
    {
        let ghost at = *pos as int;
        proof {
            lemma_run_ends(tokens@, at);
            lemma_run_kinds(tokens@, at);
        }
        let token = tokens[*pos];
        match token {
            Token::MoveRight | Token::MoveLeft => {
                let delta = parse_move_run(tokens, pos);
                if delta != 0 {
                    proof {
                        lemma_one_more(
                            nodes_view(nodes@),
                            Node::Move(delta as int),
                            block_at(tokens@, *pos as int, in_loop),
                        );
                        lemma_nodes_push(nodes@, AstNode::Move(delta));
                    }
                    nodes.push(AstNode::Move(delta));
                }
            },
            Token::Inc | Token::Dec => {
                let delta = parse_add_run(tokens, pos);
                if delta != 0 {
                    proof {
                        lemma_one_more(
                            nodes_view(nodes@),
                            Node::Add(delta as int),
                            block_at(tokens@, *pos as int, in_loop),
                        );
                        lemma_nodes_push(nodes@, AstNode::Add(delta));
                    }
                    nodes.push(AstNode::Add(delta));
                }
            },
            Token::Output => {
                proof {
                    lemma_one_more(
                        nodes_view(nodes@),
                        Node::Output,
                        block_at(tokens@, at + 1, in_loop),
                    );
                    lemma_nodes_push(nodes@, AstNode::Output);
                }
                nodes.push(AstNode::Output);
                *pos += 1;
            },
            Token::Input => {
                proof {
                    lemma_one_more(
                        nodes_view(nodes@),
                        Node::Input,
                        block_at(tokens@, at + 1, in_loop),
                    );
                    lemma_nodes_push(nodes@, AstNode::Input);
                }
                nodes.push(AstNode::Input);
                *pos += 1;
            },
            Token::LoopStart => {
                *pos += 1;
                proof {
                    lemma_block_end(tokens@, at + 1, true);
                }
                match parse_block(tokens, pos, true) {
                    Ok(body) => {
                        proof {
                            lemma_one_more(
                                nodes_view(nodes@),
                                Node::Loop(nodes_view(body@)),
                                block_at(tokens@, *pos as int, in_loop),
                            );
                            lemma_nodes_push(nodes@, AstNode::Loop(body));
                        }
                        nodes.push(AstNode::Loop(body));
                    },
                    Err(e) => {
                        return Err(e);
                    },
                }
            },
            Token::LoopEnd => {
                if in_loop {
                    *pos += 1;
                    assert(nodes_view(nodes@) + Seq::<Node>::empty() =~= nodes_view(nodes@));
                    return Ok(nodes);
                } else {
                    return Err(ParseError::UnexpectedLoopEnd { pos: *pos });
                }
            },
        }
    }
    assert(nodes_view(nodes@) + Seq::<Node>::empty() =~= nodes_view(nodes@));
    if in_loop {
        Err(ParseError::UnclosedLoop { pos: *pos })
    } else {
        Ok(nodes)
    }
}

/// Parse a token stream into its tree.
///
/// Succeeds where the brackets match. Otherwise it reports the first surplus
/// `]`, or where there is none, the end of the stream inside an open loop.
pub fn parse(tokens: &[Token]) -> (r: Result<Vec<AstNode>, ParseError>)
    requires
        runs_fit(tokens@),
    ensures
        r is Ok <==> balanced(tokens@),
        r is Ok ==> nodes_view(r->Ok_0@) == tree_of(tokens@),
        r matches Err(ParseError::UnexpectedLoopEnd { pos }) ==> first_surplus(
            tokens@,
            pos as int,
        ),
        r matches Err(ParseError::UnclosedLoop { pos }) ==> never_negative(tokens@) && pos
            == tokens@.len(),
{
    let mut pos: usize = 0;
    assert(tokens.len() == tokens@.len());
    proof {
        lemma_depth(tokens@, 0, false);
        lemma_block_end(tokens@, 0, false);
        assert(depth(tokens@, 0) == 0);
    }
    let r = parse_block(tokens, &mut pos, false);
    proof {
        match block_at(tokens@, 0, false) {
            Block::Nodes(_, end) => {
                assert(balanced(tokens@));
            },
            Block::Fault(ParseError::UnclosedLoop { pos: p }) => {
                assert(never_negative(tokens@));
            },
            Block::Fault(ParseError::UnexpectedLoopEnd { pos: p }) => {
                assert(depth(tokens@, p + 1) < 0);
                assert(!never_negative(tokens@));
            },
        }
    }
    r
}

} // verus!
