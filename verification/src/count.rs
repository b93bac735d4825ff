//! Diagnostics: how many distinct nodes a diagram holds.

use std::collections::HashSet;
use vstd::prelude::*;
use crate::circuit::QuantumCircuit;
use crate::node::{node_ok, ordered, DdNode, NodeId};

verus! {

broadcast use vstd::std_specs::hash::group_hash_axioms;

/// The nodes that can be reached from `node`, itself among them.
pub open spec fn reachable(nodes: Seq<DdNode>, node: NodeId) -> Set<NodeId>
    decreases nodes[node as int].rank(),
    when ordered(nodes) && node < nodes.len()
{
    match nodes[node as int] {
        DdNode::Terminal(_) => Set::empty().insert(node),
        DdNode::NonTerminal { zero, one, .. } => {
            proof {
                assert(node_ok(nodes, node as int));
            }
            (reachable(nodes, zero.1) + reachable(nodes, one.1)).insert(node)
        },
    }
}

/// The terminals among the nodes of `set`.
pub open spec fn terminals_of(nodes: Seq<DdNode>, set: Set<NodeId>) -> Set<NodeId> {
    Set::new(|id: NodeId| set.contains(id) && id < nodes.len() && nodes[id as int] is Terminal)
}

/// The decision nodes among the nodes of `set`.
pub open spec fn decisions_of(nodes: Seq<DdNode>, set: Set<NodeId>) -> Set<NodeId> {
    Set::new(|id: NodeId| set.contains(id) && id < nodes.len() && nodes[id as int] is NonTerminal)
}

/// The handles of a store of `len` nodes.
pub open spec fn handles(len: usize) -> Set<NodeId> {
    Set::<usize>::range(0, len)
}

/// Every node of `set` that lies below `bound` has its children in `set`.
pub open spec fn closed_below(nodes: Seq<DdNode>, set: Set<NodeId>, bound: nat) -> bool {
    forall|id: NodeId| #[trigger]
        set.contains(id) && id < nodes.len() && nodes[id as int].rank() < bound
            ==> match nodes[id as int] {
            DdNode::Terminal(_) => true,
            DdNode::NonTerminal { zero, one, .. } => set.contains(zero.1) && set.contains(one.1),
        }
}

/// A set of handles is finite and no larger than the store.
pub proof fn lemma_handles(len: usize, set: Set<NodeId>)
    requires
        set.subset_of(handles(len)),
    ensures
        set.finite(),
        set.len() <= len,
{
    vstd::set_lib::range_set_properties::<usize>(0, len);
    vstd::set_lib::lemma_len_subset(set, handles(len));
}

/// What is reached from a node are nodes of the store, none above the node,
/// and the node is one of them.
pub proof fn lemma_reachable(nodes: Seq<DdNode>, node: NodeId)
    requires
        ordered(nodes),
        node < nodes.len(),
    ensures
        reachable(nodes, node).contains(node),
        forall|id: NodeId| #[trigger]
            reachable(nodes, node).contains(id) ==> id < nodes.len() && nodes[id as int].rank()
                <= nodes[node as int].rank(),
    decreases nodes[node as int].rank(),
{
    assert(node_ok(nodes, node as int));
    match nodes[node as int] {
        DdNode::Terminal(_) => {},
        DdNode::NonTerminal { zero, one, .. } => {
            lemma_reachable(nodes, zero.1);
            lemma_reachable(nodes, one.1);
        },
    }
}

/// A set that is closed below a bound holds everything that is reached from
/// its nodes below the bound.
pub proof fn lemma_closed_holds_reachable(
    nodes: Seq<DdNode>,
    set: Set<NodeId>,
    bound: nat,
    node: NodeId,
)
    requires
        ordered(nodes),
        node < nodes.len(),
        set.contains(node),
        nodes[node as int].rank() < bound,
        closed_below(nodes, set, bound),
    ensures
        reachable(nodes, node).subset_of(set),
    decreases nodes[node as int].rank(),
{
    assert(node_ok(nodes, node as int));
    match nodes[node as int] {
        DdNode::Terminal(_) => {},
        DdNode::NonTerminal { zero, one, .. } => {
            lemma_closed_holds_reachable(nodes, set, bound, zero.1);
            lemma_closed_holds_reachable(nodes, set, bound, one.1);
        },
    }
}

/// The nodes that are reached from `node` without passing a node of
/// `visited`: none, if `node` itself is in `visited`.
pub open spec fn reached_past(nodes: Seq<DdNode>, node: NodeId, visited: Set<NodeId>) -> Set<
    NodeId,
>
    decreases nodes[node as int].rank(),
    when ordered(nodes) && node < nodes.len()
{
    if visited.contains(node) {
        Set::empty()
    } else {
        match nodes[node as int] {
            DdNode::Terminal(_) => Set::empty().insert(node),
            DdNode::NonTerminal { zero, one, .. } => {
                proof {
                    assert(node_ok(nodes, node as int));
                }
                (reached_past(nodes, zero.1, visited) + reached_past(nodes, one.1, visited)).insert(
                    node,
                )
            },
        }
    }
}

/// What is reached past a set are nodes of the store outside the set, none
/// above the start.
pub proof fn lemma_reached_past(nodes: Seq<DdNode>, node: NodeId, visited: Set<NodeId>)
    requires
        ordered(nodes),
        node < nodes.len(),
    ensures
        forall|id: NodeId| #[trigger]
            reached_past(nodes, node, visited).contains(id) ==> id < nodes.len()
                && !visited.contains(id) && nodes[id as int].rank() <= nodes[node as int].rank(),
        !visited.contains(node) ==> reached_past(nodes, node, visited).contains(node),
    decreases nodes[node as int].rank(),
{
    assert(node_ok(nodes, node as int));
    if !visited.contains(node) {
        match nodes[node as int] {
            DdNode::Terminal(_) => {},
            DdNode::NonTerminal { zero, one, .. } => {
                lemma_reached_past(nodes, zero.1, visited);
                lemma_reached_past(nodes, one.1, visited);
                let all = reached_past(nodes, node, visited);
                assert forall|id: NodeId| #[trigger] all.contains(id) implies id < nodes.len()
                    && !visited.contains(id) && nodes[id as int].rank()
                    <= nodes[node as int].rank() by {
                    if id != node {
                        assert(reached_past(nodes, zero.1, visited).contains(id) || reached_past(
                            nodes,
                            one.1,
                            visited,
                        ).contains(id));
                    }
                }
            },
        }
    }
}

/// What is reached past a set from a node holds what is reached past the
/// set from each of its own nodes.
pub proof fn lemma_reached_past_inside(nodes: Seq<DdNode>, node: NodeId, visited: Set<NodeId>)
    requires
        ordered(nodes),
        node < nodes.len(),
    ensures
        forall|id: NodeId| #[trigger]
            reached_past(nodes, node, visited).contains(id) ==> reached_past(
                nodes,
                id,
                visited,
            ).subset_of(reached_past(nodes, node, visited)),
    decreases nodes[node as int].rank(),
{
    assert(node_ok(nodes, node as int));
    if !visited.contains(node) {
        match nodes[node as int] {
            DdNode::Terminal(_) => {},
            DdNode::NonTerminal { zero, one, .. } => {
                lemma_reached_past_inside(nodes, zero.1, visited);
                lemma_reached_past_inside(nodes, one.1, visited);
                let all = reached_past(nodes, node, visited);
                assert forall|id: NodeId| #[trigger] all.contains(id) implies reached_past(
                    nodes,
                    id,
                    visited,
                ).subset_of(all) by {
                    if id != node {
                        if reached_past(nodes, zero.1, visited).contains(id) {
                            assert(reached_past(nodes, id, visited).subset_of(
                                reached_past(nodes, zero.1, visited),
                            ));
                        } else {
                            assert(reached_past(nodes, one.1, visited).contains(id));
                            assert(reached_past(nodes, id, visited).subset_of(
                                reached_past(nodes, one.1, visited),
                            ));
                        }
                    }
                }
            },
        }
    }
}

/// Every node of `more` below `bound` brings with it what is reached from
/// it past `visited`.
pub open spec fn brings_along(
    nodes: Seq<DdNode>,
    visited: Set<NodeId>,
    more: Set<NodeId>,
    bound: nat,
) -> bool {
    forall|id: NodeId| #[trigger]
        more.contains(id) && id < nodes.len() && nodes[id as int].rank() < bound
            ==> reached_past(nodes, id, visited).subset_of(more)
}

/// Adding to the visited set nodes that bring along what is reached from
/// them takes exactly these nodes out of what is reached.
pub proof fn lemma_reached_past_more(
    nodes: Seq<DdNode>,
    node: NodeId,
    visited: Set<NodeId>,
    more: Set<NodeId>,
    bound: nat,
)
    requires
        ordered(nodes),
        node < nodes.len(),
        nodes[node as int].rank() < bound,
        brings_along(nodes, visited, more, bound),
    ensures
        reached_past(nodes, node, visited + more) =~= reached_past(
            nodes,
            node,
            visited,
        ).difference(more),
    decreases nodes[node as int].rank(),
{
    assert(node_ok(nodes, node as int));
    lemma_reached_past(nodes, node, visited);
    if visited.contains(node) {
    } else if more.contains(node) {
        assert(reached_past(nodes, node, visited).subset_of(more));
    } else {
        match nodes[node as int] {
            DdNode::Terminal(_) => {},
            DdNode::NonTerminal { zero, one, .. } => {
                lemma_reached_past_more(nodes, zero.1, visited, more, bound);
                lemma_reached_past_more(nodes, one.1, visited, more, bound);
            },
        }
    }
}

/// Past the empty set, everything that is reached is reached.
pub proof fn lemma_reached_past_nothing(nodes: Seq<DdNode>, node: NodeId)
    requires
        ordered(nodes),
        node < nodes.len(),
    ensures
        reached_past(nodes, node, Set::empty()) =~= reachable(nodes, node),
    decreases nodes[node as int].rank(),
{
    assert(node_ok(nodes, node as int));
    match nodes[node as int] {
        DdNode::Terminal(_) => {},
        DdNode::NonTerminal { zero, one, .. } => {
            lemma_reached_past_nothing(nodes, zero.1);
            lemma_reached_past_nothing(nodes, one.1);
        },
    }
}

impl QuantumCircuit {
    /// The number of distinct terminals and the number of distinct decision
    /// nodes that are reached from the root. A node with several parents is
    /// counted once; two nodes that look alike are counted as two.
    pub fn count_nodes(&self) -> (r: (usize, usize))
        requires
            self.wf(),
        ensures
            r.0 == terminals_of(self.nodes(), reachable(self.nodes(), self.root())).len(),
            r.1 == decisions_of(self.nodes(), reachable(self.nodes(), self.root())).len(),
    {
        let mut visited: HashSet<NodeId> = HashSet::new();
        proof {
            lemma_reached_past_nothing(self.nodes(), self.root());
        }
        self.count_nodes_rec(self.root_id(), &mut visited)
    }

    /// Counts the terminals and the decision nodes that are reached from
    /// `node` without passing a node of `visited`, and adds them to
    /// `visited`. If `node` itself is in `visited`, nothing is counted and
    /// nothing added.
    pub fn count_nodes_rec(&self, node: NodeId, visited: &mut HashSet<NodeId>) -> (r: (
        usize,
        usize,
    ))
        requires
            self.wf(),
            node < self.nodes().len(),
        ensures
            final(visited)@ == old(visited)@ + reached_past(self.nodes(), node, old(visited)@),
            r.0 == terminals_of(
                self.nodes(),
                reached_past(self.nodes(), node, old(visited)@),
            ).len(),
            r.1 == decisions_of(
                self.nodes(),
                reached_past(self.nodes(), node, old(visited)@),
            ).len(),
        decreases self.nodes()[node as int].rank(),
    {
        let ghost nodes = self.nodes();
        let ghost before = visited@;
        let ghost reached = reached_past(nodes, node, before);
        let size = self.store_len();
        assert(node_ok(nodes, node as int));
        if visited.contains(&node) {
            proof {
                assert(before + reached =~= before);
                assert(terminals_of(nodes, reached) =~= Set::empty());
                assert(decisions_of(nodes, reached) =~= Set::empty());
            }
            return (0, 0);
        }
        visited.insert(node);
        let ghost entered = visited@;
        match self.node(node) {
            DdNode::Terminal(_) => {
                proof {
                    assert(entered =~= before + reached);
                    assert(terminals_of(nodes, reached) =~= Set::empty().insert(node));
                    assert(decisions_of(nodes, reached) =~= Set::empty());
                }
                (1, 0)
            },
            DdNode::NonTerminal { zero, one, .. } => {
                let ghost rank = nodes[node as int].rank();
                let ghost itself = Set::<NodeId>::empty().insert(node);
                let ghost below_zero = reached_past(nodes, zero.1, before);
                let ghost below_one = reached_past(nodes, one.1, before);
                let ghost first = itself + below_zero;
                let ghost rest = below_one.difference(first);
                proof {
                    lemma_reached_past(nodes, zero.1, before);
                    lemma_reached_past(nodes, one.1, before);
                    lemma_reached_past_inside(nodes, zero.1, before);
                    assert(entered =~= before + itself);
                    assert(brings_along(nodes, before, itself, rank));
                    lemma_reached_past_more(nodes, zero.1, before, itself, rank);
                    assert(reached_past(nodes, zero.1, entered) =~= below_zero);
                }
                let (t0, n0) = self.count_nodes_rec(zero.1, visited);
                let ghost middle = visited@;
                proof {
                    assert(middle =~= before + first);
                    assert(brings_along(nodes, before, first, rank));
                    lemma_reached_past_more(nodes, one.1, before, first, rank);
                    assert(reached_past(nodes, one.1, middle) =~= rest);
                }
                let (t1, n1) = self.count_nodes_rec(one.1, visited);
                proof {
                    assert(reached =~= (itself + below_zero) + rest);
                    assert(visited@ =~= before + reached);
                    let t_zero = terminals_of(nodes, below_zero);
                    let t_rest = terminals_of(nodes, rest);
                    let n_zero = decisions_of(nodes, below_zero);
                    let n_rest = decisions_of(nodes, rest);
                    lemma_handles(size, t_zero);
                    lemma_handles(size, t_rest);
                    lemma_handles(size, n_zero);
                    lemma_handles(size, n_rest);
                    lemma_handles(size, terminals_of(nodes, reached));
                    lemma_handles(size, decisions_of(nodes, reached));
                    lemma_handles(size, n_zero + n_rest);
                    assert(t_zero.disjoint(t_rest));
                    assert(n_zero.disjoint(n_rest));
                    vstd::set_lib::lemma_set_disjoint_lens(t_zero, t_rest);
                    vstd::set_lib::lemma_set_disjoint_lens(n_zero, n_rest);
                    assert(terminals_of(nodes, reached) =~= t_zero + t_rest);
                    assert(decisions_of(nodes, reached) =~= (n_zero + n_rest).insert(node));
                    assert(!(n_zero + n_rest).contains(node));
                }
                (t0 + t1, n0 + n1 + 1)
            },
        }
    }
}

} // verus!
