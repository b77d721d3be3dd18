//! Writing a tree down as operators, and reading it back.

use vstd::prelude::*;

use crate::frontend::ast::Node;
use crate::frontend::lexer::{law_lex_reads_back, spelled, tokens_of, Token};
use crate::frontend::parser::{
    add_end, balanced, block_at, is_add, is_move, lemma_depth, lemma_short_runs_fit, move_end, net,
    runs_fit, tree_of, Block,
};

verus! {

/// As many operators as a number says.
pub open spec fn repeated(t: Token, n: int) -> Seq<Token> {
    Seq::new(n as nat, |i: int| t)
}

/// The operators of a node.
pub open spec fn node_printed(node: Node) -> Seq<Token>
    decreases node,
{
    match node {
        Node::Move(d) => if d > 0 {
            repeated(Token::MoveRight, d)
        } else {
            repeated(Token::MoveLeft, -d)
        },
        Node::Add(d) => if d > 0 {
            repeated(Token::Inc, d)
        } else {
            repeated(Token::Dec, -d)
        },
        Node::Output => seq![Token::Output],
        Node::Input => seq![Token::Input],
        Node::Loop(body) => seq![Token::LoopStart] + printed(body) + seq![Token::LoopEnd],
    }
}

/// The operators of a list of nodes.
pub open spec fn printed(nodes: Seq<Node>) -> Seq<Token>
    decreases nodes,
{
    if nodes.len() == 0 {
        Seq::empty()
    } else {
        node_printed(nodes[0]) + printed(nodes.drop_first())
    }
}

/// Whether a node changes something, and so does every node inside it; see
/// [`normal`].
pub open spec fn node_normal(node: Node) -> bool
    decreases node,
{
    match node {
        Node::Move(d) => d != 0,
        Node::Add(d) => d != 0,
        Node::Output => true,
        Node::Input => true,
        Node::Loop(body) => normal(body),
    }
}

/// Whether no move and no addition is by zero, and no two moves and no two
/// additions stand side by side, at any depth.
pub open spec fn normal(nodes: Seq<Node>) -> bool
    decreases nodes,
{
    nodes.len() == 0 || {
        &&& node_normal(nodes[0])
        &&& nodes.len() > 1 ==> !(nodes[0] is Move && nodes[1] is Move) && !(nodes[0] is Add
            && nodes[1] is Add)
        &&& normal(nodes.drop_first())
    }
}

/// A normal list that is not empty starts with an operator of its first node.
proof fn lemma_first(nodes: Seq<Node>)
    requires
        normal(nodes),
        nodes.len() > 0,
    ensures
        node_printed(nodes[0]).len() > 0,
        printed(nodes)[0] == node_printed(nodes[0])[0],
        is_move(printed(nodes)[0]) <==> nodes[0] is Move,
        is_add(printed(nodes)[0]) <==> nodes[0] is Add,
{
    reveal_with_fuel(normal, 2);
    reveal_with_fuel(node_normal, 2);
    match nodes[0] {
        Node::Loop(body) => {
            assert(node_printed(nodes[0])[0] == Token::LoopStart);
        },
        _ => {},
    }
}

/// A run of one operator that another kind of operator follows, or nothing.
proof fn lemma_run(tokens: Seq<Token>, pos: int, n: int, t: Token)
    requires
        0 <= pos,
        0 <= n,
        pos + n <= tokens.len(),
        forall|k: int| pos <= k < pos + n ==> #[trigger] tokens[k] == t,
    ensures
        is_move(t) && (pos + n < tokens.len() ==> !is_move(tokens[pos + n])) ==> move_end(
            tokens,
            pos,
        ) == pos + n,
        is_add(t) && (pos + n < tokens.len() ==> !is_add(tokens[pos + n])) ==> add_end(tokens, pos)
            == pos + n,
    decreases n,
{
    if n > 0 {
        lemma_run(tokens, pos + 1, n - 1, t);
    }
}

/// A run of one operator adds up to its length, up or down.
proof fn lemma_run_net(tokens: Seq<Token>, pos: int, n: int, t: Token)
    requires
        0 <= pos,
        0 <= n,
        pos + n <= tokens.len(),
        forall|k: int| pos <= k < pos + n ==> #[trigger] tokens[k] == t,
    ensures
        t == Token::MoveRight || t == Token::Inc ==> net(tokens, pos, pos + n) == n,
        t == Token::MoveLeft || t == Token::Dec ==> net(tokens, pos, pos + n) == -n,
    decreases n,
{
    if n > 0 {
        lemma_run_net(tokens, pos, n - 1, t);
    }
}

/// Where the operators of a normal list stand in a stream, in front of the end
/// of a loop or of the stream, the list is read back from them.
proof fn lemma_read_back(tokens: Seq<Token>, pos: int, nodes: Seq<Node>, in_loop: bool)
    requires
        normal(nodes),
        0 <= pos,
        pos + printed(nodes).len() <= tokens.len(),
        forall|k: int|
            pos <= k < pos + printed(nodes).len() ==> #[trigger] tokens[k] == printed(nodes)[k - pos],
        in_loop ==> pos + printed(nodes).len() < tokens.len() && tokens[pos + printed(nodes).len()]
            == Token::LoopEnd,
        !in_loop ==> pos + printed(nodes).len() == tokens.len(),
    ensures
        block_at(tokens, pos, in_loop) == Block::Nodes(
            nodes,
            pos + printed(nodes).len() + if in_loop { 1int } else { 0int },
        ),
    decreases nodes,
{
    if nodes.len() == 0 {
        assert(nodes =~= Seq::<Node>::empty());
    } else {
        reveal_with_fuel(normal, 2);
        reveal_with_fuel(node_normal, 2);
        let head = node_printed(nodes[0]);
        let rest = nodes.drop_first();
        let next = pos + head.len();
        lemma_first(nodes);
        assert(tokens[pos] == printed(nodes)[0]);
        assert forall|k: int| pos <= k < next implies #[trigger] tokens[k] == head[k - pos] by {
            assert(tokens[k] == printed(nodes)[k - pos]);
        }
        assert forall|k: int|
            next <= k < next + printed(rest).len() implies #[trigger] tokens[k] == printed(rest)[k
            - next] by {
            assert(tokens[k] == printed(nodes)[k - pos]);
        }
        lemma_read_back(tokens, next, rest, in_loop);
        assert(seq![nodes[0]] + rest =~= nodes);
        if rest.len() > 0 {
            lemma_first(rest);
            assert(tokens[next] == printed(rest)[0]);
        }
        match nodes[0] {
            Node::Move(d) => {
                let (t, n) = if d > 0 { (Token::MoveRight, d) } else { (Token::MoveLeft, -d) };
                assert(forall|k: int| pos <= k < pos + n ==> #[trigger] tokens[k] == t);
                lemma_run(tokens, pos, n, t);
                lemma_run_net(tokens, pos, n, t);
            },
            Node::Add(d) => {
                let (t, n) = if d > 0 { (Token::Inc, d) } else { (Token::Dec, -d) };
                assert(forall|k: int| pos <= k < pos + n ==> #[trigger] tokens[k] == t);
                lemma_run(tokens, pos, n, t);
                lemma_run_net(tokens, pos, n, t);
            },
            Node::Loop(body) => {
                assert forall|k: int|
                    pos + 1 <= k < pos + 1 + printed(body).len() implies #[trigger] tokens[k]
                    == printed(body)[k - (pos + 1)] by {
                    assert(tokens[k] == head[k - pos]);
                }
                assert(tokens[pos + 1 + printed(body).len()] == head[head.len() - 1]);
                lemma_read_back(tokens, pos + 1, body, true);
            },
            _ => {},
        }
    }
}

/// A normal tree that is written down is read back as it was: its operators
/// are lexed as they stand, their brackets match, their runs fit,
/// and the tree that they form is the one that was written.
pub proof fn law_printed_trees_are_read_back(nodes: Seq<Node>)
    requires
        normal(nodes),
        printed(nodes).len() <= i32::MAX,
    ensures
        tokens_of(spelled(printed(nodes))) == printed(nodes),
        balanced(printed(nodes)),
        tree_of(printed(nodes)) == nodes,
        runs_fit(printed(nodes)),
{
    let tokens = printed(nodes);
    law_lex_reads_back(tokens);
    lemma_read_back(tokens, 0, nodes, false);
    lemma_depth(tokens, 0, false);
    lemma_short_runs_fit(tokens);
}

} // verus!
