//! What a controlled gate does at a control node whose two edges lead to
//! the same child: the `one` edge gets the transformed tree of the child.

use vstd::prelude::*;
use crate::controlled::{controlled_node, with_one_child};
use crate::copy::{copy_branch, ControlledKind};
use crate::copy_meaning::{lemma_copy_walk, transformed};
use crate::node::{lemma_update_keeps_sound, node_ok, sound, DdNode, NodeId};
use crate::unfold::{agree_under, lemma_unfold_depends_on_below, unfold, Tree};

verus! {

/// The tree of a control node after a controlled gate: the `zero` branch
/// as it was, the `one` branch transformed.
pub open spec fn controlled_tree(
    nodes: Seq<DdNode>,
    id: NodeId,
    target: usize,
    kind: ControlledKind,
) -> Tree {
    match nodes[id as int] {
        DdNode::Terminal(value) => Tree::Leaf(value),
        DdNode::NonTerminal { qubit, zero, one } => Tree::Branch {
            qubit,
            zero: (zero.0, Box::new(unfold(nodes, zero.1))),
            one: (one.0, Box::new(transformed(unfold(nodes, one.1), target, kind))),
        },
    }
}

/// At a control node whose edges lead to the same child, a controlled gate
/// meets no fault, changes no other node that was there, and makes the node
/// unfold to the tree with the `one` branch transformed.
pub proof fn lemma_controlled_on_shared_child(
    nodes: Seq<DdNode>,
    id: NodeId,
    target: usize,
    kind: ControlledKind,
    merge: bool,
    num_qubits: usize,
)
    requires
        sound(nodes, num_qubits),
        id < nodes.len(),
        nodes[id as int] matches DdNode::NonTerminal { zero, one, .. } && zero.1 == one.1
            && copy_branch(nodes, one.1, target, kind).store.len() <= usize::MAX,
    ensures
        ({
            let after = controlled_node(nodes, id, target, kind, merge);
            &&& after.fault is None
            &&& sound(after.store, num_qubits)
            &&& nodes.len() <= after.store.len()
            &&& forall|other: int|
                0 <= other < nodes.len() && other != id ==> #[trigger] after.store[other]
                    == nodes[other]
            &&& unfold(after.store, id) == controlled_tree(nodes, id, target, kind)
        }),
{
    assert(node_ok(nodes, id as int));
    let bound = nodes[id as int].rank();
    match nodes[id as int] {
        DdNode::Terminal(_) => {},
        DdNode::NonTerminal { qubit, zero, one } => {
            let child = one.1;
            let copied = copy_branch(nodes, child, target, kind);
            lemma_copy_walk(nodes, child, target, kind, nodes, Map::empty(), num_qubits);
            let grafted = with_one_child(nodes[id as int], copied.id);
            assert(copied.store[id as int] == nodes[id as int]);
            assert(copied.store[child as int] == nodes[child as int]);
            lemma_update_keeps_sound(copied.store, id as int, grafted, num_qubits);
            let after = copied.store.update(id as int, grafted);
            assert forall|other: int|
                0 <= other < nodes.len() && other != id implies #[trigger] after[other]
                == nodes[other] by {
                assert(copied.store[other] == nodes[other]);
            }
            assert(agree_under(nodes, after, bound));
            lemma_unfold_depends_on_below(nodes, after, bound, child);
            assert(agree_under(copied.store, after, bound));
            lemma_unfold_depends_on_below(copied.store, after, bound, copied.id);
            assert(node_ok(after, id as int));
        },
    }
}

} // verus!
