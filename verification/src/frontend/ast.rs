//! Brainfuck AST: the nested tree that the parser builds.

use vstd::prelude::*;

verus! {

/// Single AST node.
#[derive(Debug)]
pub enum AstNode {
    /// Net pointer shift from one or more consecutive `>` / `<`.
    Move(isize),
    /// Net cell delta from one or more consecutive `+` / `-`.
    Add(i32),
    /// `.`
    Output,
    /// `,`
    Input,
    /// `[ ... ]`
    Loop(Vec<AstNode>),
}

/// A node as a mathematical value.
pub enum Node {
    /// Net pointer shift.
    Move(int),
    /// Net cell delta.
    Add(int),
    /// `.`
    Output,
    /// `,`
    Input,
    /// `[ ... ]`
    Loop(Seq<Node>),
}

/// The value of an AST node.
pub open spec fn node_view(node: AstNode) -> Node
    decreases node,
{
    match node {
        AstNode::Move(d) => Node::Move(d as int),
        AstNode::Add(d) => Node::Add(d as int),
        AstNode::Output => Node::Output,
        AstNode::Input => Node::Input,
        AstNode::Loop(body) => Node::Loop(nodes_view(body@)),
    }
}

/// The values of a list of AST nodes.
pub open spec fn nodes_view(nodes: Seq<AstNode>) -> Seq<Node>
    decreases nodes,
{
    if nodes.len() == 0 {
        Seq::empty()
    } else {
        nodes_view(nodes.drop_last()).push(node_view(nodes.last()))
    }
}

/// The value of a list with one more node.
pub proof fn lemma_nodes_push(nodes: Seq<AstNode>, node: AstNode)
    ensures
        nodes_view(nodes.push(node)) == nodes_view(nodes).push(node_view(node)),
{
    assert(nodes.push(node).drop_last() =~= nodes);
}

/// The values stand in the order of the nodes.
pub proof fn lemma_nodes_index(nodes: Seq<AstNode>)
    ensures
        nodes_view(nodes).len() == nodes.len(),
        forall|i: int| 0 <= i < nodes.len() ==> #[trigger] nodes_view(nodes)[i] == node_view(nodes[i]),
    decreases nodes.len(),
{
    if nodes.len() > 0 {
        lemma_nodes_index(nodes.drop_last());
        assert forall|i: int| 0 <= i < nodes.len() implies #[trigger] nodes_view(nodes)[i]
            == node_view(nodes[i]) by {
            if i < nodes.len() - 1 {
                assert(nodes_view(nodes.drop_last())[i] == node_view(nodes.drop_last()[i]));
            }
        }
    }
}

} // verus!
