//! What a diagram stands for: the tree that unfolds from a node.
//!
//! Sharing saves space and changes no value. The state vector is a
//! function of the tree that unfolds from the root: two diagrams that
//! unfold to the same tree hold the same state, however their nodes are
//! shared.

use vstd::prelude::*;
use num::complex::Complex64;
use crate::node::{extends, node_ok, ordered, DdNode, NodeId, SINK_QUBIT};
use crate::statevector::{amplitudes_from, distribute, state_vector, zero_vector};
use crate::weight::{one_weight, product_of};

verus! {

/// A diagram without sharing.
pub enum Tree {
    Leaf(Complex64),
    Branch { qubit: usize, zero: (Complex64, Box<Tree>), one: (Complex64, Box<Tree>) },
}

/// The tree that unfolds from `node`.
pub open spec fn unfold(nodes: Seq<DdNode>, node: NodeId) -> Tree
    decreases nodes[node as int].rank(),
    when ordered(nodes) && node < nodes.len()
{
    match nodes[node as int] {
        DdNode::Terminal(value) => Tree::Leaf(value),
        DdNode::NonTerminal { qubit, zero, one } => {
            proof {
                assert(node_ok(nodes, node as int));
            }
            Tree::Branch {
                qubit,
                zero: (zero.0, Box::new(unfold(nodes, zero.1))),
                one: (one.0, Box::new(unfold(nodes, one.1))),
            }
        },
    }
}

/// `vector` after the traversal of `tree` has added its amplitudes: what
/// the traversal of a diagram does, told of a tree.
pub open spec fn tree_amplitudes(
    tree: Tree,
    amplitude: Complex64,
    index: usize,
    mask: usize,
    num_qubits: usize,
    vector: Seq<Complex64>,
) -> Seq<Complex64>
    decreases tree,
{
    match tree {
        Tree::Leaf(value) => distribute(
            vector,
            product_of(amplitude, value),
            index,
            mask,
            num_qubits,
        ),
        Tree::Branch { qubit, zero, one } => {
            if qubit == SINK_QUBIT {
                distribute(vector, amplitude, index, mask, num_qubits)
            } else {
                let decided = mask | (1usize << qubit);
                let after_zero = tree_amplitudes(
                    *zero.1,
                    product_of(amplitude, zero.0),
                    index,
                    decided,
                    num_qubits,
                    vector,
                );
                tree_amplitudes(
                    *one.1,
                    product_of(amplitude, one.0),
                    index | (1usize << qubit),
                    decided,
                    num_qubits,
                    after_zero,
                )
            }
        },
    }
}

/// The state vector of a tree.
pub open spec fn tree_state(tree: Tree, num_qubits: usize) -> Seq<Complex64> {
    tree_amplitudes(tree, one_weight(), 0, 0, num_qubits, zero_vector(num_qubits))
}

/// The traversal of a diagram adds what the traversal of its unfolding
/// adds.
pub proof fn lemma_amplitudes_of_unfolding(
    nodes: Seq<DdNode>,
    node: NodeId,
    amplitude: Complex64,
    index: usize,
    mask: usize,
    num_qubits: usize,
    vector: Seq<Complex64>,
)
    requires
        ordered(nodes),
        node < nodes.len(),
    ensures
        amplitudes_from(nodes, node, amplitude, index, mask, num_qubits, vector)
            == tree_amplitudes(unfold(nodes, node), amplitude, index, mask, num_qubits, vector),
    decreases nodes[node as int].rank(),
{
    assert(node_ok(nodes, node as int));
    match nodes[node as int] {
        DdNode::Terminal(_) => {},
        DdNode::NonTerminal { qubit, zero, one } => {
            if qubit != SINK_QUBIT {
                let decided = mask | (1usize << qubit);
                lemma_amplitudes_of_unfolding(
                    nodes,
                    zero.1,
                    product_of(amplitude, zero.0),
                    index,
                    decided,
                    num_qubits,
                    vector,
                );
                let after_zero = amplitudes_from(
                    nodes,
                    zero.1,
                    product_of(amplitude, zero.0),
                    index,
                    decided,
                    num_qubits,
                    vector,
                );
                lemma_amplitudes_of_unfolding(
                    nodes,
                    one.1,
                    product_of(amplitude, one.0),
                    index | (1usize << qubit),
                    decided,
                    num_qubits,
                    after_zero,
                );
            }
        },
    }
}

/// The state vector of a diagram is the state vector of the tree that
/// unfolds from its root.
pub proof fn lemma_state_of_unfolding(nodes: Seq<DdNode>, root: NodeId, num_qubits: usize)
    requires
        ordered(nodes),
        root < nodes.len(),
    ensures
        state_vector(nodes, root, num_qubits) == tree_state(unfold(nodes, root), num_qubits),
{
    lemma_amplitudes_of_unfolding(
        nodes,
        root,
        one_weight(),
        0,
        0,
        num_qubits,
        zero_vector(num_qubits),
    );
}

/// Adding nodes to a store changes nothing that unfolds from the nodes it
/// had.
pub proof fn lemma_unfold_in_extension(before: Seq<DdNode>, after: Seq<DdNode>, node: NodeId)
    requires
        ordered(before),
        ordered(after),
        extends(before, after),
        node < before.len(),
    ensures
        unfold(after, node) == unfold(before, node),
    decreases before[node as int].rank(),
{
    assert(node_ok(before, node as int));
    assert(after[node as int] == before[node as int]);
    match before[node as int] {
        DdNode::Terminal(_) => {},
        DdNode::NonTerminal { zero, one, .. } => {
            lemma_unfold_in_extension(before, after, zero.1);
            lemma_unfold_in_extension(before, after, one.1);
        },
    }
}

/// The store `b` agrees with the store `a` under `bound`: it holds every
/// node of `a` that lies below the bound, under the same handle.
pub open spec fn agree_under(a: Seq<DdNode>, b: Seq<DdNode>, bound: nat) -> bool {
    &&& a.len() <= b.len()
    &&& forall|id: int|
        0 <= id < a.len() && (#[trigger] a[id]).rank() < bound ==> b[id] == a[id]
}

/// What unfolds from a node depends only on the nodes at and below it.
pub proof fn lemma_unfold_depends_on_below(
    a: Seq<DdNode>,
    b: Seq<DdNode>,
    bound: nat,
    node: NodeId,
)
    requires
        ordered(a),
        ordered(b),
        agree_under(a, b, bound),
        node < a.len(),
        a[node as int].rank() < bound,
    ensures
        unfold(b, node) == unfold(a, node),
    decreases a[node as int].rank(),
{
    assert(node_ok(a, node as int));
    assert(b[node as int] == a[node as int]);
    match a[node as int] {
        DdNode::Terminal(_) => {},
        DdNode::NonTerminal { zero, one, .. } => {
            lemma_unfold_depends_on_below(a, b, bound, zero.1);
            lemma_unfold_depends_on_below(a, b, bound, one.1);
        },
    }
}

/// Where two stores hold the same nodes but for one, and that one unfolds
/// to the same tree in both, every node unfolds to the same tree in both.
pub proof fn lemma_unfold_around(a: Seq<DdNode>, b: Seq<DdNode>, special: NodeId, node: NodeId)
    requires
        ordered(a),
        ordered(b),
        a.len() <= b.len(),
        special < a.len(),
        node < a.len(),
        forall|id: int| 0 <= id < a.len() && id != special ==> #[trigger] b[id] == a[id],
        unfold(b, special) == unfold(a, special),
    ensures
        unfold(b, node) == unfold(a, node),
    decreases a[node as int].rank(),
{
    if node != special {
        assert(node_ok(a, node as int));
        assert(b[node as int] == a[node as int]);
        match a[node as int] {
            DdNode::Terminal(_) => {},
            DdNode::NonTerminal { zero, one, .. } => {
                lemma_unfold_around(a, b, special, zero.1);
                lemma_unfold_around(a, b, special, one.1);
            },
        }
    }
}

} // verus!
