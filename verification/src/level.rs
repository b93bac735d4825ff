//! The level iterator: the decision nodes that test one qubit, each once.

use std::collections::HashSet;
use vstd::prelude::*;
use crate::circuit::QuantumCircuit;
use crate::count::reachable;
use crate::level_set::lemma_level_is_what_tests;
use crate::node::{node_ok, ordered, DdNode, NodeId, SINK_QUBIT};

verus! {

broadcast use vstd::std_specs::hash::group_hash_axioms;

/// A depth-first walk from `node` that looks for nodes testing `target`.
///
/// The result is the sequence of nodes found, in the order of the walk, and
/// the set of nodes seen when the walk ends. A node in `visited` is passed
/// over. A terminal ends its path. A node that tests `target` is found and
/// not entered. A node that tests a higher qubit is entered, its `zero`
/// child first. A node that tests a lower qubit is not entered.
pub open spec fn level_walk(
    nodes: Seq<DdNode>,
    node: NodeId,
    target: usize,
    visited: Set<NodeId>,
) -> (Seq<NodeId>, Set<NodeId>)
    decreases nodes[node as int].rank(),
    when ordered(nodes) && node < nodes.len()
{
    if visited.contains(node) {
        (Seq::empty(), visited)
    } else {
        let seen = visited.insert(node);
        match nodes[node as int] {
            DdNode::Terminal(_) => (Seq::empty(), seen),
            DdNode::NonTerminal { qubit, zero, one } => {
                if qubit == target {
                    (seq![node], seen)
                } else if qubit > target {
                    proof {
                        assert(node_ok(nodes, node as int));
                    }
                    let first = level_walk(nodes, zero.1, target, seen);
                    let second = level_walk(nodes, one.1, target, first.1);
                    (first.0 + second.0, second.1)
                } else {
                    (Seq::empty(), seen)
                }
            },
        }
    }
}

/// The level of `target`: every decision node that tests `target` and is
/// reached from `root` through nodes that test higher qubits, each once, in
/// the order of a depth-first walk.
pub open spec fn level_of(nodes: Seq<DdNode>, root: NodeId, target: usize) -> Seq<NodeId> {
    level_walk(nodes, root, target, Set::empty()).0
}

/// The walks from the entries of `stack`, last entry first, each starting
/// with what the one before it has seen.
pub open spec fn stack_walk(
    nodes: Seq<DdNode>,
    stack: Seq<NodeId>,
    target: usize,
    visited: Set<NodeId>,
) -> (Seq<NodeId>, Set<NodeId>)
    decreases stack.len(),
{
    if stack.len() == 0 {
        (Seq::empty(), visited)
    } else {
        let first = level_walk(nodes, stack.last(), target, visited);
        let rest = stack_walk(nodes, stack.drop_last(), target, first.1);
        (first.0 + rest.0, rest.1)
    }
}

/// The number of nodes in the tree that unfolds from `node`.
pub open spec fn tree_size(nodes: Seq<DdNode>, node: NodeId) -> nat
    decreases nodes[node as int].rank(),
    when ordered(nodes) && node < nodes.len()
{
    match nodes[node as int] {
        DdNode::Terminal(_) => 1,
        DdNode::NonTerminal { zero, one, .. } => {
            proof {
                assert(node_ok(nodes, node as int));
            }
            1 + tree_size(nodes, zero.1) + tree_size(nodes, one.1)
        },
    }
}

/// The sum of the tree sizes of the entries of `stack`.
pub open spec fn stack_size(nodes: Seq<DdNode>, stack: Seq<NodeId>) -> nat
    decreases stack.len(),
{
    if stack.len() == 0 {
        0
    } else {
        tree_size(nodes, stack.last()) + stack_size(nodes, stack.drop_last())
    }
}

/// What a walk finds: nodes of the store that test `target`, none of them
/// seen before, none of them twice; and what it has seen are the nodes seen
/// before and nodes of the store, those found among them.
pub proof fn lemma_level_walk(
    nodes: Seq<DdNode>,
    node: NodeId,
    target: usize,
    visited: Set<NodeId>,
)
    requires
        ordered(nodes),
        node < nodes.len(),
    ensures
        ({
            let walk = level_walk(nodes, node, target, visited);
            &&& visited.subset_of(walk.1)
            &&& walk.0.no_duplicates()
            &&& forall|k: int|
                0 <= k < walk.0.len() ==> {
                    &&& (#[trigger] walk.0[k]) < nodes.len()
                    &&& nodes[walk.0[k] as int].tests(target)
                    &&& !visited.contains(walk.0[k])
                    &&& walk.1.contains(walk.0[k])
                }
        }),
    decreases nodes[node as int].rank(),
{
    if !visited.contains(node) {
        let seen = visited.insert(node);
        match nodes[node as int] {
            DdNode::Terminal(_) => {},
            DdNode::NonTerminal { qubit, zero, one } => {
                if qubit > target && qubit != target {
                    assert(node_ok(nodes, node as int));
                    let first = level_walk(nodes, zero.1, target, seen);
                    lemma_level_walk(nodes, zero.1, target, seen);
                    let second = level_walk(nodes, one.1, target, first.1);
                    lemma_level_walk(nodes, one.1, target, first.1);
                    let found = first.0 + second.0;
                    assert forall|i: int, j: int|
                        0 <= i < found.len() && 0 <= j < found.len() && i != j implies found[i]
                        != found[j] by {
                        if i < first.0.len() && j >= first.0.len() {
                            assert(first.1.contains(first.0[i]));
                            assert(!first.1.contains(second.0[j - first.0.len()]));
                        }
                        if j < first.0.len() && i >= first.0.len() {
                            assert(first.1.contains(first.0[j]));
                            assert(!first.1.contains(second.0[i - first.0.len()]));
                        }
                    }
                    assert forall|k: int| 0 <= k < found.len() implies {
                        &&& (#[trigger] found[k]) < nodes.len()
                        &&& nodes[found[k] as int].tests(target)
                        &&& !visited.contains(found[k])
                        &&& second.1.contains(found[k])
                    } by {
                        if k < first.0.len() {
                            assert(found[k] == first.0[k]);
                        } else {
                            assert(found[k] == second.0[k - first.0.len()]);
                        }
                    }
                }
            },
        }
    }
}

/// An iterator over the level of one qubit.
///
/// It holds the frontier of a depth-first walk and the set of nodes the walk
/// has seen. It does not borrow the circuit: each call of
/// [`QubitIter::next`] is handed the circuit to walk on.
pub struct QubitIter {
    stack: Vec<NodeId>,
    target: usize,
    visited: HashSet<NodeId>,
}

impl QubitIter {
    /// The frontier, the next node to look at last.
    pub closed spec fn frontier(&self) -> Seq<NodeId> {
        self.stack@
    }

    /// The qubit whose level is walked.
    pub closed spec fn target(&self) -> usize {
        self.target
    }

    /// The nodes the walk has seen.
    pub closed spec fn seen(&self) -> Set<NodeId> {
        self.visited@
    }

    /// Every node of the frontier is a node of the store.
    pub open spec fn wf(&self, nodes: Seq<DdNode>) -> bool {
        forall|k: int|
            0 <= k < self.frontier().len() ==> (#[trigger] self.frontier()[k]) < nodes.len()
    }

    /// The nodes that the iterator has yet to yield on `nodes`, in order.
    pub open spec fn remaining(&self, nodes: Seq<DdNode>) -> Seq<NodeId> {
        stack_walk(nodes, self.frontier(), self.target(), self.seen()).0
    }

    /// An iterator over the level of `target` below `root`.
    pub fn new(root: NodeId, target: usize) -> (it: Self)
        ensures
            it.frontier() == seq![root],
            it.target() == target,
            it.seen() == Set::<NodeId>::empty(),
    {
        let mut stack: Vec<NodeId> = Vec::new();
        stack.push(root);
        assert(stack@ =~= seq![root]);
        QubitIter { stack, target, visited: HashSet::new() }
    }

    /// Yields the next node of the level, or `None` when the level is
    /// exhausted.
    pub fn next(&mut self, circuit: &QuantumCircuit) -> (r: Option<NodeId>)
        requires
            ordered(circuit.nodes()),
            old(self).wf(circuit.nodes()),
        ensures
            final(self).wf(circuit.nodes()),
            final(self).target() == old(self).target(),
            match r {
                Some(node) => {
                    &&& old(self).remaining(circuit.nodes()).len() > 0
                    &&& node == old(self).remaining(circuit.nodes())[0]
                    &&& final(self).remaining(circuit.nodes()) == old(self).remaining(
                        circuit.nodes(),
                    ).drop_first()
                },
                None => {
                    &&& old(self).remaining(circuit.nodes()).len() == 0
                    &&& final(self).frontier().len() == 0
                },
            },
    {
        let ghost nodes = circuit.nodes();
        let ghost todo = self.remaining(nodes);
        while self.stack.len() > 0
            invariant
                nodes == circuit.nodes(),
                ordered(nodes),
                self.wf(nodes),
                self.target() == old(self).target(),
                self.remaining(nodes) == todo,
                todo == old(self).remaining(nodes),
            decreases stack_size(nodes, self.frontier()),
        {
            let ghost before = self.stack@;
            let ghost visited = self.visited@;
            let node = self.stack.pop().unwrap();
            assert(node == before.last());
            assert(self.stack@ =~= before.drop_last());
            assert(node < nodes.len());
            assert(node_ok(nodes, node as int));
            if self.visited.contains(&node) {
                assert(level_walk(nodes, node, self.target, visited).0 =~= Seq::<NodeId>::empty());
                assert(Seq::<NodeId>::empty() + self.remaining(nodes) =~= self.remaining(nodes));
            } else {
                self.visited.insert(node);
                let ghost seen = self.visited@;
                let ghost rest = self.stack@;
                match circuit.node(node) {
                    DdNode::Terminal(_) => {
                        assert(Seq::<NodeId>::empty() + self.remaining(nodes) =~= self.remaining(
                            nodes,
                        ));
                    },
                    DdNode::NonTerminal { qubit, zero, one } => {
                        if qubit == self.target {
                            proof {
                                let walk = level_walk(nodes, node, self.target, visited);
                                assert(walk.0 == seq![node]);
                                assert(todo == walk.0 + self.remaining(nodes));
                                assert(todo.drop_first() =~= self.remaining(nodes));
                            }
                            return Some(node);
                        } else if qubit > self.target {
                            self.stack.push(one.1);
                            self.stack.push(zero.1);
                            proof {
                                let top = rest.push(one.1);
                                assert(self.stack@ == top.push(zero.1));
                                assert(self.stack@.drop_last() =~= top);
                                assert(top.drop_last() =~= rest);
                                let first = level_walk(nodes, zero.1, self.target, seen);
                                let second = level_walk(nodes, one.1, self.target, first.1);
                                let tail = stack_walk(nodes, rest, self.target, second.1);
                                assert(stack_walk(nodes, top, self.target, first.1).0 == second.0
                                    + tail.0);
                                assert(first.0 + (second.0 + tail.0) =~= (first.0 + second.0)
                                    + tail.0);
                                assert(stack_size(nodes, top) == tree_size(nodes, one.1)
                                    + stack_size(nodes, rest));
                            }
                        } else {
                            assert(Seq::<NodeId>::empty() + self.remaining(nodes)
                                =~= self.remaining(nodes));
                        }
                    },
                }
            }
        }
        None
    }
}

impl QuantumCircuit {
    /// The level of `target`: the nodes that a gate on `target` acts on.
    /// For a qubit of the circuit these are the nodes that are reached from
    /// the root and test the qubit, each once.
    pub fn level_nodes(&self, target: usize) -> (level: Vec<NodeId>)
        requires
            self.wf(),
        ensures
            level@ == level_of(self.nodes(), self.root(), target),
            level@.no_duplicates(),
            target < SINK_QUBIT ==> forall|id: NodeId|
                #![trigger level@.contains(id)]
                #![trigger reachable(self.nodes(), self.root()).contains(id)]
                level@.contains(id) <==> reachable(self.nodes(), self.root()).contains(id) && id
                    < self.nodes().len() && self.nodes()[id as int].tests(target),
    {
        proof {
            lemma_level_walk(self.nodes(), self.root(), target, Set::empty());
            if target < SINK_QUBIT {
                lemma_level_is_what_tests(self.nodes(), self.root(), target);
            }
        }
        let mut it = QubitIter::new(self.root_id(), target);
        let mut level: Vec<NodeId> = Vec::new();
        let ghost all = it.remaining(self.nodes());
        proof {
            let walk = level_walk(self.nodes(), self.root(), target, Set::empty());
            let start = seq![self.root()];
            assert(start.last() == self.root());
            assert(start.drop_last() =~= Seq::<NodeId>::empty());
            assert(stack_walk(self.nodes(), start.drop_last(), target, walk.1).0
                =~= Seq::<NodeId>::empty());
            assert(stack_walk(self.nodes(), start, target, Set::empty()).0 == walk.0
                + Seq::<NodeId>::empty());
            assert(walk.0 + Seq::<NodeId>::empty() =~= walk.0);
            assert(level@ + all =~= all);
        }
        loop
            invariant
                self.wf(),
                it.wf(self.nodes()),
                it.target() == target,
                all == level_of(self.nodes(), self.root(), target),
                level@ + it.remaining(self.nodes()) == all,
            ensures
                level@ == all,
            decreases it.remaining(self.nodes()).len(),
        {
            let ghost todo = it.remaining(self.nodes());
            let ghost done = level@;
            match it.next(self) {
                Some(node) => {
                    level.push(node);
                    assert(level@ + todo.drop_first() =~= done + todo);
                },
                None => {
                    assert(level@ + todo =~= level@);
                    break ;
                },
            }
        }
        level
    }
}

} // verus!
