//! What the walk of the controlled NOT does where it meets no marked node:
//! it swaps the edges of every target-level node below its start, once.

use vstd::prelude::*;
use crate::controlled::swap_walk;
use crate::copy::ControlledKind;
use crate::count::{lemma_reachable, reachable};
use crate::level_set::{lemma_tested_below_at_or_under, tested_below};
use crate::copy_meaning::transformed;
use crate::node::{node_ok, ordered, sound, still_below, DdNode, NodeId, SINK_QUBIT};
use crate::unfold::{unfold, Tree};

verus! {

/// The store with the edges of every node of `set` swapped.
pub open spec fn swapped_at(nodes: Seq<DdNode>, set: Set<NodeId>) -> Seq<DdNode> {
    Seq::new(
        nodes.len(),
        |id: int|
            if set.contains(id as usize) {
                ControlledKind::Not.in_place(nodes[id])
            } else {
                nodes[id]
            },
    )
}

/// The walk from `node` meets no node with a marked child.
pub open spec fn unmarked_walk(
    nodes: Seq<DdNode>,
    node: NodeId,
    target: usize,
    marked: Set<NodeId>,
) -> bool
    decreases nodes[node as int].rank(),
    when ordered(nodes) && node < nodes.len()
{
    match nodes[node as int] {
        DdNode::Terminal(_) => true,
        DdNode::NonTerminal { qubit, zero, one } => {
            proof {
                assert(node_ok(nodes, node as int));
            }
            &&& !marked.contains(zero.1)
            &&& !marked.contains(one.1)
            &&& qubit > target ==> unmarked_walk(nodes, zero.1, target, marked) && unmarked_walk(
                nodes,
                one.1,
                target,
                marked,
            )
        },
    }
}

/// Swapping edges keeps a store sound: every node keeps its level and its
/// children.
pub proof fn lemma_swapped_keeps_sound(nodes: Seq<DdNode>, set: Set<NodeId>, num_qubits: usize)
    requires
        sound(nodes, num_qubits),
    ensures
        sound(swapped_at(nodes, set), num_qubits),
        swapped_at(nodes, set).len() == nodes.len(),
        forall|id: int|
            0 <= id < nodes.len() ==> (#[trigger] swapped_at(nodes, set)[id]).same_level(nodes[id]),
{
    let after = swapped_at(nodes, set);
    assert forall|id: int| 0 <= id < after.len() implies #[trigger] node_ok(after, id) by {
        assert(node_ok(nodes, id));
        match nodes[id] {
            DdNode::Terminal(_) => {},
            DdNode::NonTerminal { zero, one, .. } => {
                assert(after[zero.1 as int].rank() == nodes[zero.1 as int].rank());
                assert(after[one.1 as int].rank() == nodes[one.1 as int].rank());
            },
        }
    }
    assert forall|id: int| 0 <= id < after.len() implies match #[trigger] after[id] {
        DdNode::Terminal(_) => true,
        DdNode::NonTerminal { qubit, .. } => qubit == SINK_QUBIT || qubit < num_qubits,
    } by {
        assert(after[id].same_level(nodes[id]));
    }
}

/// Swapping edges changes nothing about what is reached from a node.
pub proof fn lemma_swapped_reachable(
    nodes: Seq<DdNode>,
    set: Set<NodeId>,
    node: NodeId,
    num_qubits: usize,
)
    requires
        sound(nodes, num_qubits),
        node < nodes.len(),
    ensures
        reachable(swapped_at(nodes, set), node) =~= reachable(nodes, node),
    decreases nodes[node as int].rank(),
{
    let after = swapped_at(nodes, set);
    lemma_swapped_keeps_sound(nodes, set, num_qubits);
    assert(node_ok(nodes, node as int));
    assert(after[node as int].same_level(nodes[node as int]));
    match nodes[node as int] {
        DdNode::Terminal(_) => {},
        DdNode::NonTerminal { zero, one, .. } => {
            lemma_swapped_reachable(nodes, set, zero.1, num_qubits);
            lemma_swapped_reachable(nodes, set, one.1, num_qubits);
        },
    }
}

/// Swapping edges changes nothing about which nodes below a node test the
/// target.
pub proof fn lemma_swapped_tested_below(
    nodes: Seq<DdNode>,
    set: Set<NodeId>,
    node: NodeId,
    target: usize,
    num_qubits: usize,
)
    requires
        sound(nodes, num_qubits),
        node < nodes.len(),
    ensures
        tested_below(swapped_at(nodes, set), node, target) =~= tested_below(nodes, node, target),
{
    let after = swapped_at(nodes, set);
    lemma_swapped_keeps_sound(nodes, set, num_qubits);
    lemma_swapped_reachable(nodes, set, node, num_qubits);
    assert forall|id: NodeId|
        tested_below(after, node, target).contains(id) <==> tested_below(
            nodes,
            node,
            target,
        ).contains(id) by {
        if id < nodes.len() {
            assert(after[id as int].same_level(nodes[id as int]));
        }
    }
}

/// Swapping edges changes nothing about whether a walk meets a marked
/// node.
pub proof fn lemma_swapped_unmarked(
    nodes: Seq<DdNode>,
    set: Set<NodeId>,
    node: NodeId,
    target: usize,
    marked: Set<NodeId>,
    num_qubits: usize,
)
    requires
        sound(nodes, num_qubits),
        node < nodes.len(),
    ensures
        unmarked_walk(swapped_at(nodes, set), node, target, marked) == unmarked_walk(
            nodes,
            node,
            target,
            marked,
        ),
    decreases nodes[node as int].rank(),
{
    let after = swapped_at(nodes, set);
    lemma_swapped_keeps_sound(nodes, set, num_qubits);
    assert(node_ok(nodes, node as int));
    assert(after[node as int].same_level(nodes[node as int]));
    match nodes[node as int] {
        DdNode::Terminal(_) => {},
        DdNode::NonTerminal { zero, one, .. } => {
            lemma_swapped_unmarked(nodes, set, zero.1, target, marked, num_qubits);
            lemma_swapped_unmarked(nodes, set, one.1, target, marked, num_qubits);
        },
    }
}

/// Where the walk meets no marked node, it swaps the edges of the
/// target-level nodes below its start that it had not swapped before, and
/// nothing else.
pub proof fn lemma_swap_walk_unmarked(
    nodes: Seq<DdNode>,
    node: NodeId,
    target: usize,
    visited: Set<NodeId>,
    marked: Set<NodeId>,
    num_qubits: usize,
)
    requires
        sound(nodes, num_qubits),
        node < nodes.len() <= usize::MAX,
        target < SINK_QUBIT,
        unmarked_walk(nodes, node, target, marked),
    ensures
        ({
            let walked = swap_walk(nodes, node, target, visited, marked);
            &&& !walked.done
            &&& walked.seen =~= visited + tested_below(nodes, node, target)
            &&& walked.store =~= swapped_at(nodes, walked.seen.difference(visited))
        }),
    decreases nodes[node as int].rank(),
{
    let walked = swap_walk(nodes, node, target, visited, marked);
    assert(node_ok(nodes, node as int));
    lemma_reachable(nodes, node);
    lemma_tested_below_at_or_under(nodes, node, target);
    match nodes[node as int] {
        DdNode::Terminal(_) => {
            assert(tested_below(nodes, node, target) =~= Set::empty());
        },
        DdNode::NonTerminal { qubit, zero, one } => {
            if qubit == target {
            } else if qubit > target {
                let rank = nodes[node as int].rank();
                lemma_swap_walk_unmarked(nodes, one.1, target, visited, marked, num_qubits);
                let first = swap_walk(nodes, one.1, target, visited, marked);
                let first_set = first.seen.difference(visited);
                lemma_swapped_keeps_sound(nodes, first_set, num_qubits);
                lemma_swapped_unmarked(nodes, first_set, zero.1, target, marked, num_qubits);
                lemma_swapped_tested_below(nodes, first_set, zero.1, target, num_qubits);
                assert(first.store[zero.1 as int].same_level(nodes[zero.1 as int]));
                assert(still_below(first.store, zero.1, rank));
                lemma_swap_walk_unmarked(
                    first.store,
                    zero.1,
                    target,
                    first.seen,
                    marked,
                    num_qubits,
                );
                let second = swap_walk(first.store, zero.1, target, first.seen, marked);
                assert(walked == second);
                lemma_reachable(nodes, zero.1);
                lemma_reachable(nodes, one.1);
                assert(tested_below(nodes, node, target) =~= tested_below(nodes, zero.1, target)
                    + tested_below(nodes, one.1, target));
                let second_set = second.seen.difference(first.seen);
                assert(second.seen.difference(visited) =~= first_set + second_set);
                assert(second.store =~= swapped_at(nodes, first_set + second_set));
            } else {
                assert(tested_below(nodes, node, target) =~= Set::empty());
            }
        },
    }
}

/// Below the target's level a swap of target-level nodes changes nothing,
/// and a tree without a target-level node is its own transform.
pub proof fn lemma_unfold_under_target(
    nodes: Seq<DdNode>,
    set: Set<NodeId>,
    node: NodeId,
    target: usize,
    kind: ControlledKind,
    num_qubits: usize,
)
    requires
        sound(nodes, num_qubits),
        node < nodes.len() <= usize::MAX,
        target < SINK_QUBIT,
        nodes[node as int].rank() < target + 2,
        forall|id: NodeId| #[trigger]
            set.contains(id) ==> id < nodes.len() && nodes[id as int].tests(target),
    ensures
        unfold(swapped_at(nodes, set), node) == unfold(nodes, node),
        transformed(unfold(nodes, node), target, kind) == unfold(nodes, node),
    decreases nodes[node as int].rank(),
{
    let after = swapped_at(nodes, set);
    lemma_swapped_keeps_sound(nodes, set, num_qubits);
    assert(node_ok(nodes, node as int));
    assert(!set.contains(node));
    assert(after[node as int] == nodes[node as int]);
    match nodes[node as int] {
        DdNode::Terminal(_) => {},
        DdNode::NonTerminal { zero, one, .. } => {
            lemma_unfold_under_target(nodes, set, zero.1, target, kind, num_qubits);
            lemma_unfold_under_target(nodes, set, one.1, target, kind, num_qubits);
        },
    }
}

/// Where every target-level node below `node` has its edges swapped, the
/// node unfolds to the transformed tree.
pub proof fn lemma_unfold_swapped(
    nodes: Seq<DdNode>,
    set: Set<NodeId>,
    node: NodeId,
    target: usize,
    num_qubits: usize,
)
    requires
        sound(nodes, num_qubits),
        node < nodes.len() <= usize::MAX,
        target < SINK_QUBIT,
        forall|id: NodeId| #[trigger]
            set.contains(id) ==> id < nodes.len() && nodes[id as int].tests(target),
        tested_below(nodes, node, target).subset_of(set),
    ensures
        unfold(swapped_at(nodes, set), node) == transformed(
            unfold(nodes, node),
            target,
            ControlledKind::Not,
        ),
    decreases nodes[node as int].rank(),
{
    let after = swapped_at(nodes, set);
    lemma_swapped_keeps_sound(nodes, set, num_qubits);
    assert(node_ok(nodes, node as int));
    lemma_reachable(nodes, node);
    match nodes[node as int] {
        DdNode::Terminal(_) => {
            assert(!set.contains(node));
        },
        DdNode::NonTerminal { qubit, zero, one } => {
            if qubit == target {
                assert(tested_below(nodes, node, target).contains(node));
                assert(set.contains(node));
                lemma_unfold_under_target(
                    nodes,
                    set,
                    zero.1,
                    target,
                    ControlledKind::Not,
                    num_qubits,
                );
                lemma_unfold_under_target(
                    nodes,
                    set,
                    one.1,
                    target,
                    ControlledKind::Not,
                    num_qubits,
                );
                assert(node_ok(after, node as int));
            } else {
                assert(!set.contains(node));
                assert(after[node as int] == nodes[node as int]);
                lemma_reachable(nodes, zero.1);
                lemma_reachable(nodes, one.1);
                assert(tested_below(nodes, zero.1, target).subset_of(set)) by {
                    assert forall|id: NodeId| tested_below(nodes, zero.1, target).contains(
                        id,
                    ) implies set.contains(id) by {
                        assert(tested_below(nodes, node, target).contains(id));
                    }
                }
                assert(tested_below(nodes, one.1, target).subset_of(set)) by {
                    assert forall|id: NodeId| tested_below(nodes, one.1, target).contains(
                        id,
                    ) implies set.contains(id) by {
                        assert(tested_below(nodes, node, target).contains(id));
                    }
                }
                lemma_unfold_swapped(nodes, set, zero.1, target, num_qubits);
                lemma_unfold_swapped(nodes, set, one.1, target, num_qubits);
            }
        },
    }
}

/// The transform of the controlled NOT undoes itself.
pub proof fn lemma_transformed_twice(tree: Tree, target: usize)
    ensures
        transformed(transformed(tree, target, ControlledKind::Not), target, ControlledKind::Not)
            == tree,
    decreases tree,
{
    match tree {
        Tree::Leaf(_) => {},
        Tree::Branch { qubit, zero, one } => {
            if qubit != target {
                lemma_transformed_twice(*zero.1, target);
                lemma_transformed_twice(*one.1, target);
            }
        },
    }
}

} // verus!
