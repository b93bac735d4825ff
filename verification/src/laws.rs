//! Laws that relate several operations.

use vstd::prelude::*;
use crate::active::active_child_of;
use crate::controlled::{
    controlled_fold, controlled_node, mark_walk, may_merge, same_shape, swap_walk,
    with_one_child, Folded,
};
use crate::copy::{copy_branch, ControlledKind};
use crate::copy_meaning::{copies_ok, is_copy, lemma_copy_walk, lemma_copy_walk_shape};
use crate::count::lemma_reachable;
use crate::gates::{gate_on_level, lemma_rewrite_keeps_order, rewrite_level, EdgeRewrite};
use crate::level::{level_of, level_walk, lemma_level_walk};
use crate::level_set::{lemma_tested_below_at_or_under, tested_below};
use crate::node::{
    lemma_update_keeps_sound, node_ok, ordered, sound, DdNode, NodeId, SINK_QUBIT,
};
use crate::statevector::state_vector;
use crate::unfold::{
    agree_under, lemma_state_of_unfolding, lemma_unfold_around, lemma_unfold_depends_on_below,
    unfold,
};
use crate::walk_meaning::{
    lemma_swap_walk_unmarked, lemma_swapped_keeps_sound, lemma_swapped_tested_below,
    lemma_swapped_unmarked, lemma_transformed_twice, lemma_unfold_swapped, swapped_at,
    unmarked_walk,
};

verus! {

/// The store `b` agrees with the store `a` above `target`: every handle of
/// `a` denotes nodes of the same level in both, and a node that tests a
/// qubit above `target` is the same in both.
pub open spec fn agree_above(a: Seq<DdNode>, b: Seq<DdNode>, target: usize) -> bool {
    &&& a.len() <= b.len()
    &&& forall|id: int|
        0 <= id < a.len() ==> {
            &&& (#[trigger] a[id]).same_level(b[id])
            &&& match a[id] {
                DdNode::Terminal(_) => true,
                DdNode::NonTerminal { qubit, .. } => qubit > target ==> a[id] == b[id],
            }
        }
}

/// The level of a qubit depends only on the nodes above it.
pub proof fn lemma_level_depends_on_above(
    a: Seq<DdNode>,
    b: Seq<DdNode>,
    node: NodeId,
    target: usize,
    visited: Set<NodeId>,
)
    requires
        ordered(a),
        ordered(b),
        agree_above(a, b, target),
        node < a.len(),
    ensures
        level_walk(a, node, target, visited) == level_walk(b, node, target, visited),
    decreases a[node as int].rank(),
{
    assert(node_ok(a, node as int));
    assert(a[node as int].same_level(b[node as int]));
    if !visited.contains(node) {
        let seen = visited.insert(node);
        match a[node as int] {
            DdNode::Terminal(_) => {},
            DdNode::NonTerminal { qubit, zero, one } => {
                if qubit != target && qubit > target {
                    assert(a[node as int] == b[node as int]);
                    lemma_level_depends_on_above(a, b, zero.1, target, seen);
                    let first = level_walk(a, zero.1, target, seen);
                    lemma_level_depends_on_above(a, b, one.1, target, first.1);
                }
            },
        }
    }
}

/// The X gate is its own inverse: applied twice to the same qubit it gives
/// back the diagram node for node, and so the state vector.
pub proof fn lemma_x_twice_is_identity(
    nodes: Seq<DdNode>,
    root: NodeId,
    num_qubits: usize,
    target: usize,
)
    requires
        sound(nodes, num_qubits),
        root < nodes.len() <= usize::MAX,
    ensures
        gate_on_level(
            gate_on_level(nodes, root, target, EdgeRewrite::Swap),
            root,
            target,
            EdgeRewrite::Swap,
        ) == nodes,
        state_vector(
            gate_on_level(
                gate_on_level(nodes, root, target, EdgeRewrite::Swap),
                root,
                target,
                EdgeRewrite::Swap,
            ),
            root,
            num_qubits,
        ) == state_vector(nodes, root, num_qubits),
{
    let level = level_of(nodes, root, target);
    let once = rewrite_level(nodes, level, EdgeRewrite::Swap);
    lemma_level_walk(nodes, root, target, Set::empty());
    lemma_rewrite_keeps_order(nodes, level, EdgeRewrite::Swap, num_qubits);
    assert(agree_above(nodes, once, target)) by {
        assert forall|id: int| 0 <= id < nodes.len() implies {
            &&& (#[trigger] nodes[id]).same_level(once[id])
            &&& match nodes[id] {
                DdNode::Terminal(_) => true,
                DdNode::NonTerminal { qubit, .. } => qubit > target ==> nodes[id] == once[id],
            }
        } by {
            if level.contains(id as usize) {
                let k = choose|k: int| 0 <= k < level.len() && level[k] == id as usize;
                assert(nodes[level[k] as int].tests(target));
            }
        }
    }
    lemma_level_depends_on_above(nodes, once, root, target, Set::empty());
    assert(level_of(once, root, target) == level);
    let twice = rewrite_level(once, level, EdgeRewrite::Swap);
    assert(twice =~= nodes);
}

/// The marks of a path depend only on the nodes at and below its start.
pub proof fn lemma_mark_depends_on_below(
    a: Seq<DdNode>,
    b: Seq<DdNode>,
    bound: nat,
    node: NodeId,
    target: usize,
    marked: Set<NodeId>,
)
    requires
        ordered(a),
        ordered(b),
        agree_under(a, b, bound),
        node < a.len(),
        a[node as int].rank() < bound,
    ensures
        mark_walk(b, node, target, marked) == mark_walk(a, node, target, marked),
    decreases a[node as int].rank(),
{
    assert(node_ok(a, node as int));
    assert(b[node as int] == a[node as int]);
    match a[node as int] {
        DdNode::Terminal(_) => {},
        DdNode::NonTerminal { qubit, .. } => {
            if qubit > target {
                match active_child_of(a[node as int]) {
                    Ok(next) => {
                        lemma_mark_depends_on_below(
                            a,
                            b,
                            bound,
                            next,
                            target,
                            marked.insert(node),
                        );
                    },
                    Err(_) => {},
                }
            }
        },
    }
}

/// The marks of a path are nodes of the store, and the marks that were
/// there before.
pub proof fn lemma_marks_are_nodes(
    nodes: Seq<DdNode>,
    node: NodeId,
    target: usize,
    marked: Set<NodeId>,
)
    requires
        ordered(nodes),
        node < nodes.len(),
    ensures
        match mark_walk(nodes, node, target, marked) {
            Ok(marks) => forall|id: NodeId| #[trigger]
                marks.contains(id) ==> marked.contains(id) || id < nodes.len(),
            Err(_) => true,
        },
    decreases nodes[node as int].rank(),
{
    assert(node_ok(nodes, node as int));
    match nodes[node as int] {
        DdNode::Terminal(_) => {},
        DdNode::NonTerminal { qubit, .. } => {
            if qubit > target {
                match active_child_of(nodes[node as int]) {
                    Ok(next) => {
                        lemma_marks_are_nodes(nodes, next, target, marked.insert(node));
                    },
                    Err(_) => {},
                }
            }
        },
    }
}

/// A walk that starts at a copy meets no marked node, where the marks are
/// nodes at or above the target's level that were there before the copy;
/// and the target-level nodes below the copy are copies.
pub proof fn lemma_walk_in_copy(
    nodes: Seq<DdNode>,
    old_len: nat,
    node: NodeId,
    target: usize,
    marked: Set<NodeId>,
    num_qubits: usize,
)
    requires
        sound(nodes, num_qubits),
        copies_ok(old_len, nodes, target),
        old_len <= node < nodes.len(),
        target < SINK_QUBIT,
        forall|id: NodeId| #[trigger]
            marked.contains(id) ==> id < old_len && nodes[id as int].rank() >= target + 2,
    ensures
        unmarked_walk(nodes, node, target, marked),
        forall|id: NodeId| #[trigger]
            tested_below(nodes, node, target).contains(id) ==> id >= old_len,
    decreases nodes[node as int].rank(),
{
    assert(node_ok(nodes, node as int));
    lemma_reachable(nodes, node);
    lemma_tested_below_at_or_under(nodes, node, target);
    match nodes[node as int] {
        DdNode::Terminal(_) => {},
        DdNode::NonTerminal { qubit, zero, one } => {
            if qubit == target {
            } else {
                lemma_walk_in_copy(nodes, old_len, zero.1, target, marked, num_qubits);
                lemma_walk_in_copy(nodes, old_len, one.1, target, marked, num_qubits);
                lemma_reachable(nodes, zero.1);
                lemma_reachable(nodes, one.1);
                assert forall|id: NodeId| #[trigger]
                    tested_below(nodes, node, target).contains(id) implies id >= old_len by {
                    assert(tested_below(nodes, zero.1, target).contains(id) || tested_below(
                        nodes,
                        one.1,
                        target,
                    ).contains(id));
                }
            }
        },
    }
}

/// The conditions under which [`lemma_cnot_twice_on_shared_child`] speaks:
/// the control's level holds the one node `id`; both edges of that node
/// lead to the same child; the active path below the child can be marked,
/// and every mark lies at or above the target's level; and the store has
/// room for the copy.
pub open spec fn shares_one_child(
    nodes: Seq<DdNode>,
    root: NodeId,
    num_qubits: usize,
    control: usize,
    target: usize,
    id: NodeId,
) -> bool {
    &&& sound(nodes, num_qubits)
    &&& root < nodes.len()
    &&& target < SINK_QUBIT
    &&& level_of(nodes, root, control) == seq![id]
    &&& match nodes[id as int] {
        DdNode::Terminal(_) => false,
        DdNode::NonTerminal { zero, one, .. } => {
            &&& zero.1 == one.1
            &&& copy_branch(nodes, zero.1, target, ControlledKind::Not).store.len() <= usize::MAX
            &&& match mark_walk(nodes, zero.1, target, Set::empty()) {
                Ok(marks) => forall|mark: NodeId| #[trigger]
                    marks.contains(mark) ==> nodes[mark as int].rank() >= target + 2,
                Err(_) => false,
            }
        },
    }
}

/// The controlled NOT undoes itself where the control's branches were
/// shared: under [`shares_one_child`], whatever is decided about merging,
/// neither application meets a fault, and after the second the state
/// vector is the one from before the first. The diagram itself need not be
/// the same: it may hold the copy that the first application made.
pub proof fn lemma_cnot_twice_on_shared_child(
    nodes: Seq<DdNode>,
    root: NodeId,
    num_qubits: usize,
    control: usize,
    target: usize,
    id: NodeId,
    first: Seq<bool>,
    second: Seq<bool>,
)
    requires
        shares_one_child(nodes, root, num_qubits, control, target, id),
        first.len() >= 1,
        second.len() >= 1,
    ensures
        ({
            let level = level_of(nodes, root, control);
            let once = controlled_fold(nodes, level, target, ControlledKind::Not, first, 1);
            let again = level_of(once.store, root, control);
            let twice = controlled_fold(
                once.store,
                again,
                target,
                ControlledKind::Not,
                second,
                again.len(),
            );
            &&& once.fault is None
            &&& twice.fault is None
            &&& again == level
            &&& state_vector(twice.store, root, num_qubits) == state_vector(
                nodes,
                root,
                num_qubits,
            )
        }),
{
    let kind = ControlledKind::Not;
    let level = level_of(nodes, root, control);
    lemma_level_walk(nodes, root, control, Set::empty());
    assert(level[0] == id);
    assert(id < nodes.len() && nodes[id as int].tests(control));
    assert(node_ok(nodes, id as int));
    let bound = nodes[id as int].rank();
    match nodes[id as int] {
        DdNode::Terminal(_) => {},
        DdNode::NonTerminal { qubit, zero, one } => {
            let child = zero.1;
            // The first application: the one edge gets a copy.
            let copied = copy_branch(nodes, child, target, kind);
            lemma_copy_walk(nodes, child, target, kind, nodes, Map::empty(), num_qubits);
            lemma_copy_walk_shape(nodes, child, target, kind, nodes, Map::empty());
            let grafted = with_one_child(nodes[id as int], copied.id);
            assert(copied.store[id as int] == nodes[id as int]);
            assert(copied.store[child as int] == nodes[child as int]);
            lemma_update_keeps_sound(copied.store, id as int, grafted, num_qubits);
            let middle = copied.store.update(id as int, grafted);
            let once = controlled_fold(nodes, level, target, kind, first, 1);
            assert(controlled_fold(nodes, level, target, kind, first, 0) == (Folded {
                store: nodes,
                fault: None,
            }));
            assert(once == controlled_node(nodes, id, target, kind, first[0]));
            assert(once.store == middle);
            assert forall|i: int| 0 <= i < nodes.len() && i != id implies #[trigger] middle[i]
                == nodes[i] by {
                assert(copied.store[i] == nodes[i]);
            }
            assert(copies_ok(nodes.len(), middle, target)) by {
                assert forall|i: int| nodes.len() <= i < middle.len() implies is_copy(
                    nodes.len(),
                    #[trigger] middle[i],
                    target,
                ) by {
                    assert(middle[i] == copied.store[i]);
                }
            }
            // The level of the control is the same.
            assert(agree_above(nodes, middle, control));
            lemma_level_depends_on_above(nodes, middle, root, control, Set::empty());
            let again = level_of(middle, root, control);
            assert(again == level);
            // The second application: the marks are those of the old nodes.
            assert(agree_under(nodes, middle, bound));
            lemma_mark_depends_on_below(nodes, middle, bound, child, target, Set::empty());
            lemma_marks_are_nodes(nodes, child, target, Set::empty());
            let marks = mark_walk(nodes, child, target, Set::empty())->Ok_0;
            assert forall|mark: NodeId| #[trigger] marks.contains(mark) implies mark < nodes.len()
                && middle[mark as int].rank() >= target + 2 by {
                assert(middle[mark as int].same_level(nodes[mark as int]));
            }
            lemma_walk_in_copy(middle, nodes.len(), copied.id, target, marks, num_qubits);
            lemma_swap_walk_unmarked(middle, copied.id, target, Set::empty(), marks, num_qubits);
            let walked = swap_walk(middle, copied.id, target, Set::empty(), marks);
            let swapped = tested_below(middle, copied.id, target);
            assert(walked.seen.difference(Set::empty()) =~= swapped);
            assert(walked.store == swapped_at(middle, swapped));
            lemma_swapped_keeps_sound(middle, swapped, num_qubits);
            lemma_unfold_swapped(middle, swapped, copied.id, target, num_qubits);
            // The copy unfolds to the tree of the child again.
            assert(agree_under(copied.store, middle, bound));
            lemma_unfold_depends_on_below(copied.store, middle, bound, copied.id);
            lemma_transformed_twice(unfold(nodes, child), target);
            assert(unfold(walked.store, copied.id) == unfold(nodes, child));
            // The old nodes are as they were, but for the control node.
            assert forall|i: int| 0 <= i < nodes.len() implies #[trigger] walked.store[i]
                == middle[i] by {
                assert(!swapped.contains(i as usize));
            }
            assert(agree_under(nodes, walked.store, bound));
            lemma_unfold_depends_on_below(nodes, walked.store, bound, child);
            let merged = with_one_child(middle[id as int], child);
            assert(walked.store[child as int] == nodes[child as int]);
            assert(walked.store[id as int] == middle[id as int]);
            let twice = controlled_fold(middle, again, target, kind, second, 1);
            assert(controlled_fold(middle, again, target, kind, second, 0) == (Folded {
                store: middle,
                fault: None,
            }));
            assert(twice == controlled_node(middle, id, target, kind, second[0]));
            if second[0] {
                lemma_update_keeps_sound(walked.store, id as int, merged, num_qubits);
                assert(twice.store == walked.store.update(id as int, merged));
            } else {
                assert(twice.store == walked.store);
            }
            assert(agree_under(walked.store, twice.store, bound));
            lemma_unfold_depends_on_below(walked.store, twice.store, bound, child);
            lemma_unfold_depends_on_below(walked.store, twice.store, bound, copied.id);
            assert(node_ok(twice.store, id as int));
            assert(unfold(twice.store, id) == unfold(nodes, id));
            assert forall|i: int| 0 <= i < nodes.len() && i != id implies #[trigger] twice.store[i]
                == nodes[i] by {
                assert(walked.store[i] == middle[i]);
            }
            lemma_unfold_around(nodes, twice.store, id, root);
            lemma_state_of_unfolding(nodes, root, num_qubits);
            lemma_state_of_unfolding(twice.store, root, num_qubits);
        },
    }
}

/// The marks of a path do not depend on the edges of the target-level
/// nodes.
pub proof fn lemma_mark_after_swaps(
    nodes: Seq<DdNode>,
    set: Set<NodeId>,
    node: NodeId,
    target: usize,
    marked: Set<NodeId>,
    num_qubits: usize,
)
    requires
        sound(nodes, num_qubits),
        node < nodes.len() <= usize::MAX,
        forall|id: NodeId| #[trigger]
            set.contains(id) ==> id < nodes.len() && nodes[id as int].tests(target),
    ensures
        mark_walk(swapped_at(nodes, set), node, target, marked) == mark_walk(
            nodes,
            node,
            target,
            marked,
        ),
    decreases nodes[node as int].rank(),
{
    let after = swapped_at(nodes, set);
    lemma_swapped_keeps_sound(nodes, set, num_qubits);
    assert(node_ok(nodes, node as int));
    assert(after[node as int].same_level(nodes[node as int]));
    match nodes[node as int] {
        DdNode::Terminal(_) => {},
        DdNode::NonTerminal { qubit, .. } => {
            if qubit > target {
                assert(!set.contains(node));
                assert(after[node as int] == nodes[node as int]);
                match active_child_of(nodes[node as int]) {
                    Ok(next) => {
                        lemma_mark_after_swaps(
                            nodes,
                            set,
                            next,
                            target,
                            marked.insert(node),
                            num_qubits,
                        );
                    },
                    Err(_) => {},
                }
            }
        },
    }
}

/// The conditions under which [`lemma_cnot_twice_in_place`] speaks: the
/// control's level holds the one node `id`; its two edges lead to two
/// children; the active path below the `zero` child can be marked; the
/// walk below the `one` child meets no marked node; and the two branches
/// differ in shape, before the walk and after it, so that they cannot be
/// merged.
pub open spec fn keeps_branches_apart(
    nodes: Seq<DdNode>,
    root: NodeId,
    num_qubits: usize,
    control: usize,
    target: usize,
    id: NodeId,
) -> bool {
    &&& sound(nodes, num_qubits)
    &&& root < nodes.len() <= usize::MAX
    &&& target < SINK_QUBIT
    &&& level_of(nodes, root, control) == seq![id]
    &&& match nodes[id as int] {
        DdNode::Terminal(_) => false,
        DdNode::NonTerminal { zero, one, .. } => {
            &&& zero.1 != one.1
            &&& !same_shape(nodes, zero.1, one.1)
            &&& !same_shape(
                swapped_at(nodes, tested_below(nodes, one.1, target)),
                zero.1,
                one.1,
            )
            &&& match mark_walk(nodes, zero.1, target, Set::empty()) {
                Ok(marks) => unmarked_walk(nodes, one.1, target, marks),
                Err(_) => false,
            }
        },
    }
}

/// The controlled NOT undoes itself where it works in place: under
/// [`keeps_branches_apart`], with decisions that can be taken, neither
/// application meets a fault, and after the second the diagram is the one
/// from before the first, node for node.
pub proof fn lemma_cnot_twice_in_place(
    nodes: Seq<DdNode>,
    root: NodeId,
    num_qubits: usize,
    control: usize,
    target: usize,
    id: NodeId,
    first: Seq<bool>,
    second: Seq<bool>,
)
    requires
        keeps_branches_apart(nodes, root, num_qubits, control, target, id),
        first.len() >= 1,
        second.len() >= 1,
        may_merge(nodes, id, target, ControlledKind::Not, first[0]),
        may_merge(
            controlled_node(nodes, id, target, ControlledKind::Not, first[0]).store,
            id,
            target,
            ControlledKind::Not,
            second[0],
        ),
    ensures
        ({
            let level = level_of(nodes, root, control);
            let once = controlled_fold(nodes, level, target, ControlledKind::Not, first, 1);
            let again = level_of(once.store, root, control);
            let twice = controlled_fold(
                once.store,
                again,
                target,
                ControlledKind::Not,
                second,
                again.len(),
            );
            &&& once.fault is None
            &&& twice.fault is None
            &&& again == level
            &&& twice.store == nodes
        }),
{
    let kind = ControlledKind::Not;
    let level = level_of(nodes, root, control);
    lemma_level_walk(nodes, root, control, Set::empty());
    assert(level[0] == id);
    assert(id < nodes.len() && nodes[id as int].tests(control));
    assert(node_ok(nodes, id as int));
    match nodes[id as int] {
        DdNode::Terminal(_) => {},
        DdNode::NonTerminal { qubit, zero, one } => {
            let marks = mark_walk(nodes, zero.1, target, Set::empty())->Ok_0;
            let swapped = tested_below(nodes, one.1, target);
            lemma_swap_walk_unmarked(nodes, one.1, target, Set::empty(), marks, num_qubits);
            let walked = swap_walk(nodes, one.1, target, Set::empty(), marks);
            assert(walked.seen.difference(Set::empty()) =~= swapped);
            let middle = swapped_at(nodes, swapped);
            assert(walked.store == middle);
            assert(!first[0]);
            let once = controlled_fold(nodes, level, target, kind, first, 1);
            assert(controlled_fold(nodes, level, target, kind, first, 0) == (Folded {
                store: nodes,
                fault: None,
            }));
            assert(once == controlled_node(nodes, id, target, kind, first[0]));
            assert(once.store == middle);
            lemma_swapped_keeps_sound(nodes, swapped, num_qubits);
            // A node of the control's level is above the target's or at it;
            // at it, the walk from its child finds nothing to swap.
            lemma_reachable(nodes, one.1);
            assert(!swapped.contains(id)) by {
                if swapped.contains(id) {
                    assert(nodes[id as int].rank() <= nodes[one.1 as int].rank());
                }
            }
            assert(middle[id as int] == nodes[id as int]);
            assert(agree_above(nodes, middle, control)) by {
                assert forall|i: int| 0 <= i < nodes.len() implies {
                    &&& (#[trigger] nodes[i]).same_level(middle[i])
                    &&& match nodes[i] {
                        DdNode::Terminal(_) => true,
                        DdNode::NonTerminal { qubit, .. } => qubit > control ==> nodes[i]
                            == middle[i],
                    }
                } by {
                    assert(middle[i].same_level(nodes[i]));
                    if swapped.contains(i as usize) {
                        assert(nodes[i].rank() <= nodes[one.1 as int].rank());
                    }
                }
            }
            lemma_level_depends_on_above(nodes, middle, root, control, Set::empty());
            let again = level_of(middle, root, control);
            assert(again == level);
            lemma_mark_after_swaps(nodes, swapped, zero.1, target, Set::empty(), num_qubits);
            lemma_swapped_unmarked(nodes, swapped, one.1, target, marks, num_qubits);
            lemma_swapped_tested_below(nodes, swapped, one.1, target, num_qubits);
            lemma_swap_walk_unmarked(middle, one.1, target, Set::empty(), marks, num_qubits);
            let back = swap_walk(middle, one.1, target, Set::empty(), marks);
            assert(back.seen.difference(Set::empty()) =~= swapped);
            assert(back.store == swapped_at(middle, swapped));
            assert(swapped_at(middle, swapped) =~= nodes);
            assert(!second[0]);
            let twice = controlled_fold(middle, again, target, kind, second, 1);
            assert(controlled_fold(middle, again, target, kind, second, 0) == (Folded {
                store: middle,
                fault: None,
            }));
            assert(twice == controlled_node(middle, id, target, kind, second[0]));
        },
    }
}

} // verus!
