//! Tree to HIR: one instruction for each node.

use vstd::prelude::*;

use crate::frontend::ast::AstNode;
use crate::frontend::ast::{lemma_nodes_index, node_view, nodes_view, Node};
use crate::ir::hir::{hir_view, hirs_view, lemma_hirs_push, Hir};
use crate::ir::hir::{HirInst, HirProgram};

verus! {

/// The instruction for a node.
pub open spec fn hir_of(node: Node) -> Hir
    decreases node,
{
    match node {
        Node::Move(d) => Hir::Move(d),
        Node::Add(d) => Hir::Add(d),
        Node::Output => Hir::PutByte,
        Node::Input => Hir::GetByte,
        Node::Loop(body) => Hir::Loop(hirs_of(body)),
    }
}

/// The instructions for a list of nodes.
pub open spec fn hirs_of(nodes: Seq<Node>) -> Seq<Hir>
    decreases nodes,
{
    if nodes.len() == 0 {
        Seq::empty()
    } else {
        hirs_of(nodes.drop_last()).push(hir_of(nodes.last()))
    }
}

/// The instructions for a list with a node in front.
pub proof fn lemma_hirs_of_cons(node: Node, rest: Seq<Node>)
    ensures
        hirs_of(seq![node] + rest) == seq![hir_of(node)] + hirs_of(rest),
    decreases rest.len(),
{
    let all = seq![node] + rest;
    if rest.len() == 0 {
        assert(all.drop_last() =~= Seq::<Node>::empty());
        assert(hirs_of(all.drop_last()) =~= Seq::<Hir>::empty());
        assert(hirs_of(all) =~= seq![hir_of(node)] + hirs_of(rest));
    } else {
        lemma_hirs_of_cons(node, rest.drop_last());
        assert(all.drop_last() =~= seq![node] + rest.drop_last());
        assert(hirs_of(all) =~= seq![hir_of(node)] + hirs_of(rest));
    }
}

fn lower_nodes(nodes: &Vec<AstNode>) -> (insts: Vec<HirInst>)
    ensures
        hirs_view(insts@) == hirs_of(nodes_view(nodes@)),
    decreases nodes,
{
    let mut insts: Vec<HirInst> = Vec::new();
    let ghost values = nodes_view(nodes@);
    proof {
        lemma_nodes_index(nodes@);
    }
    let mut i: usize = 0;
    assert(values.take(0) =~= Seq::<Node>::empty());
    while i < nodes.len()
        invariant
            i <= nodes.len(),
            values == nodes_view(nodes@),
            values.len() == nodes@.len(),
            forall|k: int| 0 <= k < nodes@.len() ==> #[trigger] values[k] == node_view(nodes@[k]),
            hirs_view(insts@) == hirs_of(values.take(i as int)),
        decreases nodes.len() - i,
    {
        let inst = match &nodes[i] {
            AstNode::Move(d) => HirInst::Move(*d),
            AstNode::Add(d) => HirInst::Add(*d),
            AstNode::Output => HirInst::PutByte,
            AstNode::Input => HirInst::GetByte,
            AstNode::Loop(body) => HirInst::Loop(lower_nodes(body)),
        };
        proof {
            assert(values[i as int] == node_view(nodes@[i as int]));
            assert(hir_view(inst) == hir_of(values[i as int]));
            lemma_hirs_push(insts@, inst);
            assert(values.take(i + 1).drop_last() =~= values.take(i as int));
        }
        insts.push(inst);
        i += 1;
    }
    assert(values.take(i as int) =~= values);
    insts
}

/// Lower a tree to HIR.
pub fn lower_to_hir(nodes: &Vec<AstNode>) -> (program: HirProgram)
    ensures
        hirs_view(program.insts@) == hirs_of(nodes_view(nodes@)),
{
    HirProgram { insts: lower_nodes(nodes) }
}

} // verus!
