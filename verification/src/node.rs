//! The node model: terminals, decision nodes, the sink, and what makes a
//! collection of nodes a diagram.

use vstd::prelude::*;
use num::complex::Complex64;
use crate::weight::{gaussian_weight, zero_weight};

verus! {

/// A handle to a node: its position in the diagram's node store. Two handles
/// denote the same node exactly when they are equal.
pub type NodeId = usize;

/// The qubit index reserved for the sink.
pub const SINK_QUBIT: usize = usize::MAX;

/// A vertex of the diagram.
///
/// A `Terminal` is a dead end: a path that reaches it contributes nothing.
/// A `NonTerminal` tests one qubit and has two outgoing edges, each a weight
/// and the handle of a child. The sink is the `NonTerminal` whose qubit is
/// [`SINK_QUBIT`]: a path that reaches it is complete.
#[derive(Clone, Copy, Debug)]
pub enum DdNode {
    Terminal(Complex64),
    NonTerminal { qubit: usize, zero: (Complex64, NodeId), one: (Complex64, NodeId) },
}

impl Default for DdNode {
    /// A terminal of value 0.
    fn default() -> (node: Self)
        ensures
            node == DdNode::Terminal(zero_weight()),
    {
        DdNode::Terminal(gaussian_weight(0, 0))
    }
}

impl DdNode {
    /// The height of a node in the variable order: terminals lie at the
    /// bottom, the sink above them, and a node that tests qubit `q` above
    /// every node that tests a smaller qubit.
    pub open spec fn rank(self) -> nat {
        match self {
            DdNode::Terminal(_) => 0,
            DdNode::NonTerminal { qubit, .. } => if qubit == SINK_QUBIT {
                1
            } else {
                (qubit + 2) as nat
            },
        }
    }

    /// Whether the node tests `qubit`.
    pub open spec fn tests(self, qubit: usize) -> bool {
        self matches DdNode::NonTerminal { qubit: q, .. } && q == qubit
    }

    /// Whether two nodes are of the same kind and test the same qubit.
    pub open spec fn same_level(self, other: DdNode) -> bool {
        match (self, other) {
            (DdNode::Terminal(_), DdNode::Terminal(_)) => true,
            (DdNode::NonTerminal { qubit: a, .. }, DdNode::NonTerminal { qubit: b, .. }) => a == b,
            _ => false,
        }
    }
}

/// The children of the node at `id` exist and lie strictly below it.
pub open spec fn node_ok(nodes: Seq<DdNode>, id: int) -> bool {
    match nodes[id] {
        DdNode::Terminal(_) => true,
        DdNode::NonTerminal { zero, one, .. } => {
            &&& zero.1 < nodes.len()
            &&& one.1 < nodes.len()
            &&& nodes[zero.1 as int].rank() < nodes[id].rank()
            &&& nodes[one.1 as int].rank() < nodes[id].rank()
        },
    }
}

/// The ordering invariant: along every edge the rank falls. A store that
/// keeps it holds no cycle.
pub open spec fn ordered(nodes: Seq<DdNode>) -> bool {
    forall|id: int| 0 <= id < nodes.len() ==> #[trigger] node_ok(nodes, id)
}

/// Every decision node but the sink tests one of the circuit's qubits.
pub open spec fn qubits_in_range(nodes: Seq<DdNode>, num_qubits: usize) -> bool {
    forall|id: int|
        0 <= id < nodes.len() ==> match #[trigger] nodes[id] {
            DdNode::Terminal(_) => true,
            DdNode::NonTerminal { qubit, .. } => qubit == SINK_QUBIT || qubit < num_qubits,
        }
}

/// The invariant of a circuit's store.
pub open spec fn sound(nodes: Seq<DdNode>, num_qubits: usize) -> bool {
    ordered(nodes) && qubits_in_range(nodes, num_qubits)
}

/// `node` can join `nodes`: its children are in the store and lie strictly
/// below it, and its qubit is one of the circuit's, unless it is the sink.
pub open spec fn fits(nodes: Seq<DdNode>, node: DdNode, num_qubits: usize) -> bool {
    match node {
        DdNode::Terminal(_) => true,
        DdNode::NonTerminal { qubit, zero, one } => {
            &&& qubit == SINK_QUBIT || qubit < num_qubits
            &&& zero.1 < nodes.len()
            &&& one.1 < nodes.len()
            &&& nodes[zero.1 as int].rank() < node.rank()
            &&& nodes[one.1 as int].rank() < node.rank()
        },
    }
}

/// Whether `child` is a node of `store` that lies below `rank`. A walk that
/// changes the store as it goes asks this before it enters the second child
/// of a node.
pub open spec fn still_below(store: Seq<DdNode>, child: NodeId, rank: nat) -> bool {
    child < store.len() && store[child as int].rank() < rank
}

/// `after` keeps every node of `before` at its level: the same handles denote
/// nodes of the same kind that test the same qubit. Nodes may have been
/// added, and edges may have changed.
pub open spec fn keeps_levels(before: Seq<DdNode>, after: Seq<DdNode>) -> bool {
    &&& before.len() <= after.len()
    &&& forall|id: int| 0 <= id < before.len() ==> (#[trigger] after[id]).same_level(before[id])
}

/// `after` is `before` with nodes added at the end.
pub open spec fn extends(before: Seq<DdNode>, after: Seq<DdNode>) -> bool {
    &&& before.len() <= after.len()
    &&& forall|id: int| 0 <= id < before.len() ==> #[trigger] after[id] == before[id]
}

/// Adding a node that fits keeps the store sound.
pub proof fn lemma_push_keeps_sound(nodes: Seq<DdNode>, node: DdNode, num_qubits: usize)
    requires
        sound(nodes, num_qubits),
        fits(nodes, node, num_qubits),
    ensures
        sound(nodes.push(node), num_qubits),
        extends(nodes, nodes.push(node)),
{
    let after = nodes.push(node);
    assert forall|id: int| 0 <= id < after.len() implies #[trigger] node_ok(after, id) by {
        if id < nodes.len() {
            assert(node_ok(nodes, id));
        }
    }
    assert forall|id: int| 0 <= id < after.len() implies match #[trigger] after[id] {
        DdNode::Terminal(_) => true,
        DdNode::NonTerminal { qubit, .. } => qubit == SINK_QUBIT || qubit < num_qubits,
    } by {
        if id < nodes.len() {
            assert(after[id] == nodes[id]);
        }
    }
}

/// Replacing a node by one of the same level that fits keeps the store
/// sound.
pub proof fn lemma_update_keeps_sound(
    nodes: Seq<DdNode>,
    id: int,
    node: DdNode,
    num_qubits: usize,
)
    requires
        sound(nodes, num_qubits),
        0 <= id < nodes.len(),
        node.same_level(nodes[id]),
        fits(nodes, node, num_qubits),
    ensures
        sound(nodes.update(id, node), num_qubits),
        keeps_levels(nodes, nodes.update(id, node)),
{
    let after = nodes.update(id, node);
    assert forall|j: int| 0 <= j < after.len() implies #[trigger] node_ok(after, j) by {
        assert(node_ok(nodes, j));
        match after[j] {
            DdNode::Terminal(_) => {},
            DdNode::NonTerminal { zero, one, .. } => {
                assert(after[zero.1 as int].rank() == nodes[zero.1 as int].rank());
                assert(after[one.1 as int].rank() == nodes[one.1 as int].rank());
            },
        }
    }
    assert forall|j: int| 0 <= j < after.len() implies match #[trigger] after[j] {
        DdNode::Terminal(_) => true,
        DdNode::NonTerminal { qubit, .. } => qubit == SINK_QUBIT || qubit < num_qubits,
    } by {
        if j != id {
            assert(after[j] == nodes[j]);
        }
    }
    assert forall|j: int| 0 <= j < nodes.len() implies (#[trigger] after[j]).same_level(
        nodes[j],
    ) by {}
}

/// Keeping the levels carries over from step to step.
pub proof fn lemma_keeps_levels_trans(a: Seq<DdNode>, b: Seq<DdNode>, c: Seq<DdNode>)
    requires
        keeps_levels(a, b),
        keeps_levels(b, c),
    ensures
        keeps_levels(a, c),
{
    assert forall|id: int| 0 <= id < a.len() implies (#[trigger] c[id]).same_level(a[id]) by {
        assert(b[id].same_level(a[id]));
        assert(c[id].same_level(b[id]));
    }
}

} // verus!
