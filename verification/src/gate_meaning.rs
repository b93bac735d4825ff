//! What a single-qubit gate does to the tree that unfolds from the root:
//! it rewrites every node that tests the target.

use vstd::prelude::*;
use crate::count::lemma_reachable;
use crate::gates::{gate_on_level, lemma_rewrite_keeps_order, rewrite_level, EdgeRewrite};
use crate::level::level_of;
use crate::level_set::{lemma_level_is_what_tests, tested_below};
use crate::node::{node_ok, sound, DdNode, NodeId, SINK_QUBIT};
use crate::unfold::{unfold, Tree};
use crate::weight::{i_weight, minus_i_weight, product_of};

verus! {

/// The tree of a node after the rewrite of its edges.
pub open spec fn rewritten_top(tree: Tree, rewrite: EdgeRewrite) -> Tree {
    match tree {
        Tree::Leaf(_) => tree,
        Tree::Branch { qubit, zero, one } => match rewrite {
            EdgeRewrite::Swap => Tree::Branch { qubit, zero: one, one: zero },
            EdgeRewrite::Phase(phase) => Tree::Branch {
                qubit,
                zero,
                one: (product_of(one.0, phase), one.1),
            },
            EdgeRewrite::SwapWithPhases => Tree::Branch {
                qubit,
                zero: (product_of(one.0, i_weight()), one.1),
                one: (product_of(zero.0, minus_i_weight()), zero.1),
            },
            EdgeRewrite::Weights(zero_weight, one_weight) => Tree::Branch {
                qubit,
                zero: (zero_weight, zero.1),
                one: (one_weight, one.1),
            },
        },
    }
}

/// The tree with every topmost node that tests `target` rewritten. In the
/// tree of an ordered diagram no node that tests `target` lies below
/// another, so these are all the nodes that test it.
pub open spec fn rewritten(tree: Tree, target: usize, rewrite: EdgeRewrite) -> Tree
    decreases tree,
{
    match tree {
        Tree::Leaf(_) => tree,
        Tree::Branch { qubit, zero, one } => {
            if qubit == target {
                rewritten_top(tree, rewrite)
            } else {
                Tree::Branch {
                    qubit,
                    zero: (zero.0, Box::new(rewritten(*zero.1, target, rewrite))),
                    one: (one.0, Box::new(rewritten(*one.1, target, rewrite))),
                }
            }
        },
    }
}

/// Below the target's level a rewrite of target-level nodes changes
/// nothing, and a tree without a target-level node is its own rewrite.
pub proof fn lemma_rewrite_under_target(
    nodes: Seq<DdNode>,
    level: Seq<NodeId>,
    node: NodeId,
    target: usize,
    rewrite: EdgeRewrite,
    num_qubits: usize,
)
    requires
        sound(nodes, num_qubits),
        node < nodes.len() <= usize::MAX,
        target < SINK_QUBIT,
        nodes[node as int].rank() < target + 2,
        forall|id: NodeId| #[trigger]
            level.contains(id) ==> id < nodes.len() && nodes[id as int].tests(target),
    ensures
        unfold(rewrite_level(nodes, level, rewrite), node) == unfold(nodes, node),
        rewritten(unfold(nodes, node), target, rewrite) == unfold(nodes, node),
    decreases nodes[node as int].rank(),
{
    let after = rewrite_level(nodes, level, rewrite);
    lemma_rewrite_keeps_order(nodes, level, rewrite, num_qubits);
    assert(node_ok(nodes, node as int));
    assert(!level.contains(node));
    assert(after[node as int] == nodes[node as int]);
    match nodes[node as int] {
        DdNode::Terminal(_) => {},
        DdNode::NonTerminal { zero, one, .. } => {
            lemma_rewrite_under_target(nodes, level, zero.1, target, rewrite, num_qubits);
            lemma_rewrite_under_target(nodes, level, one.1, target, rewrite, num_qubits);
        },
    }
}

/// Where every target-level node below `node` is rewritten, the node
/// unfolds to the rewritten tree.
pub proof fn lemma_unfold_rewritten(
    nodes: Seq<DdNode>,
    level: Seq<NodeId>,
    node: NodeId,
    target: usize,
    rewrite: EdgeRewrite,
    num_qubits: usize,
)
    requires
        sound(nodes, num_qubits),
        node < nodes.len() <= usize::MAX,
        target < SINK_QUBIT,
        forall|id: NodeId| #[trigger]
            level.contains(id) ==> id < nodes.len() && nodes[id as int].tests(target),
        forall|id: NodeId| #[trigger]
            tested_below(nodes, node, target).contains(id) ==> level.contains(id),
    ensures
        unfold(rewrite_level(nodes, level, rewrite), node) == rewritten(
            unfold(nodes, node),
            target,
            rewrite,
        ),
    decreases nodes[node as int].rank(),
{
    let after = rewrite_level(nodes, level, rewrite);
    lemma_rewrite_keeps_order(nodes, level, rewrite, num_qubits);
    assert(node_ok(nodes, node as int));
    lemma_reachable(nodes, node);
    match nodes[node as int] {
        DdNode::Terminal(_) => {
            assert(!level.contains(node));
        },
        DdNode::NonTerminal { qubit, zero, one } => {
            if qubit == target {
                assert(tested_below(nodes, node, target).contains(node));
                assert(level.contains(node));
                lemma_rewrite_under_target(nodes, level, zero.1, target, rewrite, num_qubits);
                lemma_rewrite_under_target(nodes, level, one.1, target, rewrite, num_qubits);
                assert(node_ok(after, node as int));
            } else {
                assert(!level.contains(node));
                assert(after[node as int] == nodes[node as int]);
                lemma_reachable(nodes, zero.1);
                lemma_reachable(nodes, one.1);
                assert forall|id: NodeId| #[trigger]
                    tested_below(nodes, zero.1, target).contains(id) implies level.contains(
                    id,
                ) by {
                    assert(tested_below(nodes, node, target).contains(id));
                }
                assert forall|id: NodeId| #[trigger]
                    tested_below(nodes, one.1, target).contains(id) implies level.contains(
                    id,
                ) by {
                    assert(tested_below(nodes, node, target).contains(id));
                }
                lemma_unfold_rewritten(nodes, level, zero.1, target, rewrite, num_qubits);
                lemma_unfold_rewritten(nodes, level, one.1, target, rewrite, num_qubits);
            }
        },
    }
}

/// A gate that rewrites the level of a qubit rewrites, in the tree that
/// unfolds from the root, every node that tests the qubit.
pub proof fn lemma_gate_rewrites_the_tree(
    nodes: Seq<DdNode>,
    root: NodeId,
    num_qubits: usize,
    target: usize,
    rewrite: EdgeRewrite,
)
    requires
        sound(nodes, num_qubits),
        root < nodes.len() <= usize::MAX,
        target < SINK_QUBIT,
    ensures
        unfold(gate_on_level(nodes, root, target, rewrite), root) == rewritten(
            unfold(nodes, root),
            target,
            rewrite,
        ),
{
    let level = level_of(nodes, root, target);
    lemma_level_is_what_tests(nodes, root, target);
    assert forall|id: NodeId| #[trigger]
        tested_below(nodes, root, target).contains(id) implies level.contains(id) by {
        assert(crate::count::reachable(nodes, root).contains(id));
    }
    lemma_unfold_rewritten(nodes, level, root, target, rewrite, num_qubits);
}

} // verus!
