//! Enumerating the diagram: every node that is reached from the root, once,
//! with its edges.

use std::collections::HashSet;
use vstd::prelude::*;
use crate::circuit::QuantumCircuit;
use crate::count::{closed_below, lemma_closed_holds_reachable, lemma_reachable, reachable};
use crate::node::{node_ok, ordered, DdNode, NodeId, SINK_QUBIT};

verus! {

broadcast use vstd::std_specs::hash::group_hash_axioms;

/// A depth-first walk from `node` that lists every node it meets for the
/// first time, a node before its children and the `zero` child before the
/// `one` child. The result is the list and the set of nodes seen when the
/// walk ends.
pub open spec fn discovery_walk(nodes: Seq<DdNode>, node: NodeId, visited: Set<NodeId>) -> (
    Seq<NodeId>,
    Set<NodeId>,
)
    decreases nodes[node as int].rank(),
    when ordered(nodes) && node < nodes.len()
{
    if visited.contains(node) {
        (Seq::empty(), visited)
    } else {
        let seen = visited.insert(node);
        match nodes[node as int] {
            DdNode::Terminal(_) => (seq![node], seen),
            DdNode::NonTerminal { zero, one, .. } => {
                proof {
                    assert(node_ok(nodes, node as int));
                }
                let first = discovery_walk(nodes, zero.1, seen);
                let second = discovery_walk(nodes, one.1, first.1);
                (seq![node] + first.0 + second.0, second.1)
            },
        }
    }
}

/// The nodes of the diagram in the order in which a depth-first walk from
/// the root meets them.
pub open spec fn discovery(nodes: Seq<DdNode>, root: NodeId) -> Seq<NodeId> {
    discovery_walk(nodes, root, Set::empty()).0
}

/// What two lists hold, one after the other, is what either holds.
pub proof fn lemma_concat_contains(a: Seq<NodeId>, b: Seq<NodeId>)
    ensures
        forall|id: NodeId| #[trigger] (a + b).contains(id) <==> a.contains(id) || b.contains(id),
{
    assert forall|id: NodeId| #[trigger] (a + b).contains(id) <==> a.contains(id) || b.contains(
        id,
    ) by {
        if (a + b).contains(id) {
            let k = choose|k: int| 0 <= k < (a + b).len() && (a + b)[k] == id;
            if k < a.len() {
                assert(a[k] == id);
            } else {
                assert(b[k - a.len()] == id);
            }
        }
        if a.contains(id) {
            let k = choose|k: int| 0 <= k < a.len() && a[k] == id;
            assert((a + b)[k] == id);
        }
        if b.contains(id) {
            let k = choose|k: int| 0 <= k < b.len() && b[k] == id;
            assert((a + b)[k + a.len()] == id);
        }
    }
}

/// Two lists without repetition that share nothing make a list without
/// repetition.
pub proof fn lemma_concat_no_duplicates(a: Seq<NodeId>, b: Seq<NodeId>)
    requires
        a.no_duplicates(),
        b.no_duplicates(),
        forall|id: NodeId| a.contains(id) ==> !b.contains(id),
    ensures
        (a + b).no_duplicates(),
{
    assert forall|i: int, j: int|
        0 <= i < (a + b).len() && 0 <= j < (a + b).len() && i != j implies (a + b)[i] != (a
        + b)[j] by {
        if i < a.len() && j >= a.len() {
            assert(a.contains(a[i]));
            assert(b.contains(b[j - a.len()]));
        }
        if j < a.len() && i >= a.len() {
            assert(a.contains(a[j]));
            assert(b.contains(b[i - a.len()]));
        }
    }
}

/// What a walk lists: each node that is reached from `node` and was not
/// seen before, once, and nothing else.
pub proof fn lemma_discovery_walk(
    nodes: Seq<DdNode>,
    node: NodeId,
    visited: Set<NodeId>,
    bound: nat,
)
    requires
        ordered(nodes),
        node < nodes.len(),
        nodes[node as int].rank() < bound,
        closed_below(nodes, visited, bound),
    ensures
        ({
            let walk = discovery_walk(nodes, node, visited);
            &&& walk.1 == visited + reachable(nodes, node)
            &&& closed_below(nodes, walk.1, bound)
            &&& walk.0.no_duplicates()
            &&& forall|id: NodeId|
                #![trigger walk.0.contains(id)]
                #![trigger walk.1.contains(id)]
                walk.0.contains(id) <==> (walk.1.contains(id) && !visited.contains(id))
        }),
    decreases nodes[node as int].rank(),
{
    let walk = discovery_walk(nodes, node, visited);
    assert(node_ok(nodes, node as int));
    lemma_reachable(nodes, node);
    if visited.contains(node) {
        lemma_closed_holds_reachable(nodes, visited, bound, node);
        assert(visited + reachable(nodes, node) =~= visited);
    } else {
        let seen = visited.insert(node);
        match nodes[node as int] {
            DdNode::Terminal(_) => {
                assert(seen =~= visited + reachable(nodes, node));
                assert(seq![node][0] == node);
            },
            DdNode::NonTerminal { zero, one, .. } => {
                let rank = nodes[node as int].rank();
                let first = discovery_walk(nodes, zero.1, seen);
                lemma_discovery_walk(nodes, zero.1, seen, rank);
                let second = discovery_walk(nodes, one.1, first.1);
                lemma_discovery_walk(nodes, one.1, first.1, rank);
                lemma_reachable(nodes, zero.1);
                lemma_reachable(nodes, one.1);
                assert(walk.1 =~= visited + reachable(nodes, node));
                let head = seq![node];
                assert(head[0] == node);
                assert(head.no_duplicates());
                assert forall|id: NodeId| head.contains(id) <==> id == node by {
                    if head.contains(id) {
                        let k = choose|k: int| 0 <= k < head.len() && head[k] == id;
                    }
                }
                let front = head + first.0;
                lemma_concat_contains(head, first.0);
                lemma_concat_contains(front, second.0);
                assert forall|id: NodeId| head.contains(id) implies !first.0.contains(id) by {
                    assert(seen.contains(node));
                }
                lemma_concat_no_duplicates(head, first.0);
                assert forall|id: NodeId| front.contains(id) implies !second.0.contains(id) by {
                    if front.contains(id) {
                        assert(first.1.contains(id));
                    }
                }
                lemma_concat_no_duplicates(front, second.0);
                assert(walk.0 == front + second.0);
                assert forall|id: NodeId|
                    #![trigger walk.0.contains(id)]
                    #![trigger walk.1.contains(id)]
                    walk.0.contains(id) <==> (walk.1.contains(id) && !visited.contains(id)) by {
                    assert(first.0.contains(id) <==> first.1.contains(id) && !seen.contains(id));
                    assert(second.0.contains(id) <==> second.1.contains(id) && !first.1.contains(
                        id,
                    ));
                    assert(front.contains(id) <==> id == node || first.0.contains(id));
                    assert((front + second.0).contains(id) <==> front.contains(id)
                        || second.0.contains(id));
                }
                assert forall|id: NodeId| #[trigger]
                    walk.1.contains(id) && id < nodes.len() && nodes[id as int].rank()
                        < bound implies match nodes[id as int] {
                    DdNode::Terminal(_) => true,
                    DdNode::NonTerminal { zero, one, .. } => walk.1.contains(zero.1)
                        && walk.1.contains(one.1),
                } by {
                    if visited.contains(id) {
                    } else if id == node {
                    } else {
                        assert(reachable(nodes, zero.1).contains(id) || reachable(
                            nodes,
                            one.1,
                        ).contains(id));
                    }
                }
            },
        }
    }
}

/// The listing of a diagram holds exactly the nodes that are reached from
/// the root, each once.
pub proof fn lemma_discovery(nodes: Seq<DdNode>, root: NodeId)
    requires
        ordered(nodes),
        root < nodes.len(),
    ensures
        discovery(nodes, root).no_duplicates(),
        forall|id: NodeId|
            discovery(nodes, root).contains(id) <==> #[trigger] reachable(nodes, root).contains(id),
{
    let bound = nodes[root as int].rank() + 1;
    lemma_discovery_walk(nodes, root, Set::empty(), bound);
    let walk = discovery_walk(nodes, root, Set::empty());
    assert(walk.1 =~= reachable(nodes, root));
    assert forall|id: NodeId|
        discovery(nodes, root).contains(id) <==> #[trigger] reachable(nodes, root).contains(
            id,
        ) by {
        assert(walk.1.contains(id) == reachable(nodes, root).contains(id));
        assert(walk.0.contains(id) <==> walk.1.contains(id));
    }
}

/// The name of a node in a listing of the diagram. Every terminal goes by
/// the one name `Terminal`, the sink by `Sink`, and any other decision node
/// by its place among the decision nodes of the listing and its qubit.
#[derive(Clone, Copy, Debug, PartialEq, Eq, Structural)]
pub enum NodeName {
    Terminal,
    Sink,
    Level { level: usize, qubit: usize },
}

/// The number of decision nodes, the sink among them, in the first `upto`
/// entries of a listing.
pub open spec fn decisions_before(list: Seq<(NodeId, DdNode)>, upto: nat) -> nat
    decreases upto,
{
    if upto == 0 {
        0
    } else {
        let earlier = decisions_before(list, (upto - 1) as nat);
        if list[upto - 1].1 is NonTerminal {
            earlier + 1
        } else {
            earlier
        }
    }
}

/// The name of the `place`-th node of a listing.
pub open spec fn name_at(list: Seq<(NodeId, DdNode)>, place: int) -> NodeName {
    match list[place].1 {
        DdNode::Terminal(_) => NodeName::Terminal,
        DdNode::NonTerminal { qubit, .. } => if qubit == SINK_QUBIT {
            NodeName::Sink
        } else {
            NodeName::Level { level: decisions_before(list, place as nat) as usize, qubit }
        },
    }
}

/// The names of the nodes of a listing, in the order of the listing.
pub fn node_names(list: &Vec<(NodeId, DdNode)>) -> (names: Vec<NodeName>)
    ensures
        names@.len() == list@.len(),
        forall|place: int| 0 <= place < list@.len() ==> names@[place] == name_at(list@, place),
{
    let mut names: Vec<NodeName> = Vec::new();
    let mut level: usize = 0;
    let mut place: usize = 0;
    while place < list.len()
        invariant
            place <= list.len(),
            names@.len() == place,
            level == decisions_before(list@, place as nat),
            level <= place,
            forall|k: int| 0 <= k < place ==> names@[k] == name_at(list@, k),
        decreases list.len() - place,
    {
        match list[place].1 {
            DdNode::Terminal(_) => {
                names.push(NodeName::Terminal);
            },
            DdNode::NonTerminal { qubit, .. } => {
                if qubit == SINK_QUBIT {
                    names.push(NodeName::Sink);
                } else {
                    names.push(NodeName::Level { level, qubit });
                }
                level = level + 1;
            },
        }
        place = place + 1;
    }
    names
}

/// The nodes of `store` with the handles `ids`, each with its handle.
pub open spec fn with_nodes(store: Seq<DdNode>, ids: Seq<NodeId>) -> Seq<(NodeId, DdNode)> {
    Seq::new(ids.len(), |k: int| (ids[k], store[ids[k] as int]))
}

impl QuantumCircuit {
    /// The diagram as an adjacency list: every node that is reached from
    /// the root, once, with its handle; the edges of a decision node name
    /// their children by handle. The nodes come in the order in which a
    /// depth-first walk from the root meets them.
    pub fn get_adjacency_list(&self) -> (list: Vec<(NodeId, DdNode)>)
        requires
            self.wf(),
        ensures
            list@ == with_nodes(self.nodes(), discovery(self.nodes(), self.root())),
            discovery(self.nodes(), self.root()).no_duplicates(),
            forall|id: NodeId|
                discovery(self.nodes(), self.root()).contains(id) <==> #[trigger] reachable(
                    self.nodes(),
                    self.root(),
                ).contains(id),
    {
        let mut list: Vec<(NodeId, DdNode)> = Vec::new();
        let mut visited: HashSet<NodeId> = HashSet::new();
        let ghost mut listed: Seq<NodeId> = Seq::empty();
        proof {
            lemma_discovery(self.nodes(), self.root());
            assert(list@ =~= with_nodes(self.nodes(), Seq::empty()));
        }
        self.collect_adj(self.root_id(), &mut list, &mut visited, Ghost(Seq::empty()));
        proof {
            assert(Seq::<NodeId>::empty() + discovery(self.nodes(), self.root()) =~= discovery(
                self.nodes(),
                self.root(),
            ));
        }
        list
    }

    /// Adds to `list` the nodes that the walk from `node` meets for the
    /// first time. `listed` holds the handles of the nodes listed so far.
    pub(crate) fn collect_adj(
        &self,
        node: NodeId,
        list: &mut Vec<(NodeId, DdNode)>,
        visited: &mut HashSet<NodeId>,
        Ghost(listed): Ghost<Seq<NodeId>>,
    )
        requires
            self.wf(),
            node < self.nodes().len(),
            old(list)@ == with_nodes(self.nodes(), listed),
        ensures
            final(visited)@ == discovery_walk(self.nodes(), node, old(visited)@).1,
            final(list)@ == with_nodes(
                self.nodes(),
                listed + discovery_walk(self.nodes(), node, old(visited)@).0,
            ),
        decreases self.nodes()[node as int].rank(),
    {
        let ghost nodes = self.nodes();
        assert(node_ok(nodes, node as int));
        if visited.contains(&node) {
            assert(listed + Seq::<NodeId>::empty() =~= listed);
            return ;
        }
        visited.insert(node);
        let ghost seen = visited@;
        let current = self.node(node);
        list.push((node, current));
        let ghost head = listed + seq![node];
        assert(list@ =~= with_nodes(nodes, head));
        match current {
            DdNode::Terminal(_) => {},
            DdNode::NonTerminal { zero, one, .. } => {
                self.collect_adj(zero.1, list, visited, Ghost(head));
                let ghost first = discovery_walk(nodes, zero.1, seen);
                self.collect_adj(one.1, list, visited, Ghost(head + first.0));
                let ghost second = discovery_walk(nodes, one.1, first.1);
                assert(head + first.0 + second.0 =~= listed + (seq![node] + first.0 + second.0));
            },
        }
    }
}

} // verus!
