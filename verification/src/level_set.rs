//! What a level is, apart from the walk that finds it: the nodes that are
//! reached from the root and test the qubit.

use vstd::prelude::*;
use crate::adjacency::lemma_concat_contains;
use crate::count::{lemma_reachable, reachable};
use crate::level::{level_of, level_walk, lemma_level_walk};
use crate::node::{node_ok, ordered, DdNode, NodeId, SINK_QUBIT};

verus! {

/// The nodes that are reached from `node` and test `target`.
pub open spec fn tested_below(nodes: Seq<DdNode>, node: NodeId, target: usize) -> Set<NodeId> {
    Set::new(
        |id: NodeId|
            reachable(nodes, node).contains(id) && id < nodes.len() && nodes[id as int].tests(
                target,
            ),
    )
}

/// Every node of `set` that lies below `bound` has in `set` all the nodes
/// below it that test `target`.
pub open spec fn holds_level_below(
    nodes: Seq<DdNode>,
    set: Set<NodeId>,
    target: usize,
    bound: nat,
) -> bool {
    forall|id: NodeId| #[trigger]
        set.contains(id) && id < nodes.len() && nodes[id as int].rank() < bound ==> tested_below(
            nodes,
            id,
            target,
        ).subset_of(set)
}

/// A node that tests `target` is the only such node below itself, and a
/// node that tests a lower qubit has none below it.
pub proof fn lemma_tested_below_at_or_under(nodes: Seq<DdNode>, node: NodeId, target: usize)
    requires
        ordered(nodes),
        node < nodes.len(),
        target < SINK_QUBIT,
    ensures
        nodes[node as int].tests(target) ==> tested_below(nodes, node, target)
            =~= Set::empty().insert(node),
        nodes[node as int].rank() < target + 2 ==> tested_below(nodes, node, target)
            =~= Set::empty(),
{
    lemma_reachable(nodes, node);
    assert(node_ok(nodes, node as int));
    match nodes[node as int] {
        DdNode::Terminal(_) => {},
        DdNode::NonTerminal { zero, one, .. } => {
            lemma_reachable(nodes, zero.1);
            lemma_reachable(nodes, one.1);
        },
    }
}

/// What a walk finds is what is reached from its start and tests the
/// qubit, but for what was seen before.
pub proof fn lemma_level_walk_complete(
    nodes: Seq<DdNode>,
    node: NodeId,
    target: usize,
    visited: Set<NodeId>,
    bound: nat,
)
    requires
        ordered(nodes),
        node < nodes.len(),
        target < SINK_QUBIT,
        nodes[node as int].rank() < bound,
        holds_level_below(nodes, visited, target, bound),
    ensures
        ({
            let walk = level_walk(nodes, node, target, visited);
            &&& holds_level_below(nodes, walk.1, target, bound)
            &&& walk.1.contains(node)
            &&& forall|id: NodeId|
                #![trigger walk.0.contains(id)]
                #![trigger tested_below(nodes, node, target).contains(id)]
                walk.0.contains(id) <==> tested_below(nodes, node, target).contains(id)
                    && !visited.contains(id)
            &&& forall|id: NodeId| #[trigger]
                walk.1.contains(id) && !visited.contains(id) ==> {
                    &&& id < nodes.len()
                    &&& nodes[id as int].rank() <= nodes[node as int].rank()
                    &&& nodes[id as int].tests(target) ==> walk.0.contains(id)
                }
        }),
    decreases nodes[node as int].rank(),
{
    let walk = level_walk(nodes, node, target, visited);
    assert(node_ok(nodes, node as int));
    lemma_reachable(nodes, node);
    lemma_level_walk(nodes, node, target, visited);
    lemma_tested_below_at_or_under(nodes, node, target);
    if visited.contains(node) {
    } else {
        let seen = visited.insert(node);
        match nodes[node as int] {
            DdNode::Terminal(_) => {
                assert forall|id: NodeId| #[trigger]
                    seen.contains(id) && id < nodes.len() && nodes[id as int].rank()
                        < bound implies tested_below(nodes, id, target).subset_of(seen) by {
                    if id != node {
                        assert(visited.contains(id));
                    }
                }
            },
            DdNode::NonTerminal { qubit, zero, one } => {
                if qubit == target {
                    let found = seq![node];
                    assert(found[0] == node);
                    assert forall|id: NodeId| #[trigger]
                        seen.contains(id) && id < nodes.len() && nodes[id as int].rank()
                            < bound implies tested_below(nodes, id, target).subset_of(seen) by {
                        if id != node {
                            assert(visited.contains(id));
                        }
                    }
                } else if qubit > target {
                    let rank = nodes[node as int].rank();
                    assert forall|id: NodeId| #[trigger]
                        seen.contains(id) && id < nodes.len() && nodes[id as int].rank()
                            < rank implies tested_below(nodes, id, target).subset_of(seen) by {
                        assert(visited.contains(id));
                    }
                    let first = level_walk(nodes, zero.1, target, seen);
                    lemma_level_walk_complete(nodes, zero.1, target, seen, rank);
                    lemma_level_walk(nodes, zero.1, target, seen);
                    let second = level_walk(nodes, one.1, target, first.1);
                    lemma_level_walk_complete(nodes, one.1, target, first.1, rank);
                    lemma_level_walk(nodes, one.1, target, first.1);
                    lemma_reachable(nodes, zero.1);
                    lemma_reachable(nodes, one.1);
                    let below_zero = tested_below(nodes, zero.1, target);
                    let below_one = tested_below(nodes, one.1, target);
                    let below = tested_below(nodes, node, target);
                    assert(below =~= below_zero + below_one);
                    lemma_concat_contains(first.0, second.0);
                    assert(walk.0 == first.0 + second.0);
                    assert forall|id: NodeId|
                        #![trigger walk.0.contains(id)]
                        #![trigger below.contains(id)]
                        walk.0.contains(id) <==> below.contains(id) && !visited.contains(id) by {
                        assert(first.0.contains(id) <==> below_zero.contains(id) && !seen.contains(
                            id,
                        ));
                        assert(second.0.contains(id) <==> below_one.contains(id)
                            && !first.1.contains(id));
                        if below_one.contains(id) && first.1.contains(id) && !visited.contains(
                            id,
                        ) {
                            assert(id != node);
                            assert(first.1.contains(id) && !seen.contains(id));
                        }
                        if first.0.contains(id) {
                            assert(first.1.contains(id));
                        }
                    }
                    assert forall|id: NodeId| #[trigger]
                        walk.1.contains(id) && !visited.contains(id) implies {
                        &&& id < nodes.len()
                        &&& nodes[id as int].rank() <= nodes[node as int].rank()
                        &&& nodes[id as int].tests(target) ==> walk.0.contains(id)
                    } by {
                        if id == node {
                        } else if first.1.contains(id) {
                            assert(first.1.contains(id) && !seen.contains(id));
                        } else {
                            assert(second.1.contains(id) && !first.1.contains(id));
                        }
                    }
                    assert forall|id: NodeId| #[trigger]
                        walk.1.contains(id) && id < nodes.len() && nodes[id as int].rank()
                            < bound implies tested_below(nodes, id, target).subset_of(walk.1) by {
                        if visited.contains(id) {
                            assert(tested_below(nodes, id, target).subset_of(visited));
                        } else if id == node {
                            assert forall|t: NodeId| below.contains(t) implies walk.1.contains(
                                t,
                            ) by {
                                if below_zero.contains(t) {
                                    if !seen.contains(t) {
                                        assert(first.0.contains(t));
                                        assert(first.1.contains(t));
                                    }
                                } else {
                                    assert(below_one.contains(t));
                                    if !first.1.contains(t) {
                                        assert(second.0.contains(t));
                                    }
                                }
                            }
                        } else {
                            assert(walk.1.contains(id) && !visited.contains(id));
                            assert(nodes[id as int].rank() < rank) by {
                                if first.1.contains(id) {
                                    assert(first.1.contains(id) && !seen.contains(id));
                                } else {
                                    assert(second.1.contains(id) && !first.1.contains(id));
                                }
                            }
                        }
                    }
                } else {
                    assert forall|id: NodeId| #[trigger]
                        seen.contains(id) && id < nodes.len() && nodes[id as int].rank()
                            < bound implies tested_below(nodes, id, target).subset_of(seen) by {
                        if id != node {
                            assert(visited.contains(id));
                        }
                    }
                }
            },
        }
    }
}

/// The level of a qubit holds exactly the nodes that are reached from the
/// root and test the qubit, each once.
pub proof fn lemma_level_is_what_tests(nodes: Seq<DdNode>, root: NodeId, target: usize)
    requires
        ordered(nodes),
        root < nodes.len(),
        target < SINK_QUBIT,
    ensures
        level_of(nodes, root, target).no_duplicates(),
        forall|id: NodeId|
            #![trigger level_of(nodes, root, target).contains(id)]
            #![trigger reachable(nodes, root).contains(id)]
            level_of(nodes, root, target).contains(id) <==> reachable(nodes, root).contains(id)
                && id < nodes.len() && nodes[id as int].tests(target),
{
    let bound = nodes[root as int].rank() + 1;
    lemma_level_walk(nodes, root, target, Set::empty());
    lemma_level_walk_complete(nodes, root, target, Set::empty(), bound);
    let walk = level_walk(nodes, root, target, Set::empty());
    assert forall|id: NodeId|
        #![trigger level_of(nodes, root, target).contains(id)]
        #![trigger reachable(nodes, root).contains(id)]
        level_of(nodes, root, target).contains(id) <==> reachable(nodes, root).contains(id) && id
            < nodes.len() && nodes[id as int].tests(target) by {
        assert(walk.0.contains(id) <==> tested_below(nodes, root, target).contains(id));
    }
}

} // verus!
