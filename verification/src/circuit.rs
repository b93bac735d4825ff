//! The circuit: a store of nodes, the root, and the number of qubits.

use vstd::prelude::*;
use crate::node::{node_ok, sound, DdNode, NodeId, SINK_QUBIT};
use crate::weight::{gaussian_weight, one_weight, zero_weight};

verus! {

/// The state of `num_qubits` qubits as a decision diagram.
///
/// Nodes live in a store and are named by their position in it; a node that
/// is no longer reachable from the root stays in the store and is never
/// looked at again.
pub struct QuantumCircuit {
    nodes: Vec<DdNode>,
    root: NodeId,
    num_qubits: usize,
}

/// The node with handle `id` in a freshly made circuit: the shared terminal,
/// the sink, then one decision node per qubit, each pointing with weight 1
/// to the node below it and with weight 0 to the terminal.
pub open spec fn initial_node(id: int) -> DdNode {
    if id == 0 {
        DdNode::Terminal(zero_weight())
    } else if id == 1 {
        DdNode::NonTerminal { qubit: SINK_QUBIT, zero: (zero_weight(), 0), one: (zero_weight(), 0) }
    } else {
        DdNode::NonTerminal {
            qubit: (id - 2) as usize,
            zero: (one_weight(), (id - 1) as usize),
            one: (zero_weight(), 0),
        }
    }
}

/// The node store of a freshly made circuit of `num_qubits` qubits.
pub open spec fn initial_nodes(num_qubits: nat) -> Seq<DdNode> {
    Seq::new(num_qubits + 2, |id: int| initial_node(id))
}

/// Whether `child` lies strictly below `parent` in the variable order.
pub fn lies_below(child: &DdNode, parent: &DdNode) -> (r: bool)
    ensures
        r == (child.rank() < parent.rank()),
{
    match parent {
        DdNode::Terminal(_) => false,
        DdNode::NonTerminal { qubit: above, .. } => match child {
            DdNode::Terminal(_) => true,
            DdNode::NonTerminal { qubit: below, .. } => {
                if *above == SINK_QUBIT {
                    false
                } else if *below == SINK_QUBIT {
                    true
                } else {
                    *below < *above
                }
            },
        },
    }
}

impl QuantumCircuit {
    /// The node store.
    pub closed spec fn nodes(&self) -> Seq<DdNode> {
        self.nodes@
    }

    /// The handle of the root.
    pub closed spec fn root(&self) -> NodeId {
        self.root
    }

    /// The number of qubits.
    pub closed spec fn qubits(&self) -> usize {
        self.num_qubits
    }

    /// The circuit's invariant: the root exists and the store is a
    /// well-formed diagram.
    pub open spec fn wf(&self) -> bool {
        &&& self.root() < self.nodes().len()
        &&& sound(self.nodes(), self.qubits())
    }

    /// A circuit of `num_qubits` qubits in the state |0…0⟩.
    pub fn new(num_qubits: usize) -> (c: Self)
        ensures
            c.wf(),
            c.qubits() == num_qubits,
            c.root() == num_qubits + 1,
            c.nodes() == initial_nodes(num_qubits as nat),
    {
        let zero = gaussian_weight(0, 0);
        let one = gaussian_weight(1, 0);
        let mut nodes: Vec<DdNode> = Vec::new();
        nodes.push(DdNode::Terminal(zero));
        nodes.push(DdNode::NonTerminal { qubit: SINK_QUBIT, zero: (zero, 0), one: (zero, 0) });
        let mut current: usize = 1;
        let mut qubit: usize = 0;
        while qubit < num_qubits
            invariant
                qubit <= num_qubits,
                zero == zero_weight(),
                one == one_weight(),
                current == qubit + 1,
                nodes@.len() == qubit + 2,
                forall|id: int| 0 <= id < nodes@.len() ==> nodes@[id] == initial_node(id),
            decreases num_qubits - qubit,
        {
            nodes.push(DdNode::NonTerminal { qubit, zero: (one, current), one: (zero, 0) });
            current = nodes.len() - 1;
            qubit = qubit + 1;
        }
        assert(nodes@ =~= initial_nodes(num_qubits as nat));
        assert forall|id: int| 0 <= id < nodes@.len() implies #[trigger] node_ok(nodes@, id) by {
            assert(nodes@[id] == initial_node(id));
            if id >= 2 {
                assert(nodes@[id - 1] == initial_node(id - 1));
            }
            assert(nodes@[0] == initial_node(0));
        }
        QuantumCircuit { nodes, root: current, num_qubits }
    }

    /// A circuit on a diagram given node by node, if the diagram is sound:
    /// the root and all children are nodes of the store, every child lies
    /// strictly below its parent, and every decision node but the sink tests
    /// a qubit below `num_qubits`.
    pub fn from_nodes(nodes: Vec<DdNode>, root: NodeId, num_qubits: usize) -> (r: Option<Self>)
        ensures
            match r {
                Some(c) => {
                    &&& c.wf()
                    &&& c.nodes() == nodes@
                    &&& c.root() == root
                    &&& c.qubits() == num_qubits
                },
                None => !(root < nodes@.len() && sound(nodes@, num_qubits)),
            },
    {
        if root >= nodes.len() {
            return None;
        }
        let mut id: usize = 0;
        while id < nodes.len()
            invariant
                id <= nodes.len(),
                forall|j: int| 0 <= j < id ==> #[trigger] node_ok(nodes@, j),
                forall|j: int|
                    0 <= j < id ==> match #[trigger] nodes@[j] {
                        DdNode::Terminal(_) => true,
                        DdNode::NonTerminal { qubit, .. } => qubit == SINK_QUBIT || qubit
                            < num_qubits,
                    },
            decreases nodes.len() - id,
        {
            match nodes[id] {
                DdNode::Terminal(_) => {},
                DdNode::NonTerminal { qubit, zero, one } => {
                    if qubit != SINK_QUBIT && qubit >= num_qubits {
                        assert(!sound(nodes@, num_qubits)) by {
                            let broken = nodes@[id as int];
                        }
                        return None;
                    }
                    if zero.1 >= nodes.len() || one.1 >= nodes.len() {
                        assert(!node_ok(nodes@, id as int));
                        return None;
                    }
                    if !lies_below(&nodes[zero.1], &nodes[id]) || !lies_below(
                        &nodes[one.1],
                        &nodes[id],
                    ) {
                        assert(!node_ok(nodes@, id as int));
                        return None;
                    }
                },
            }
            id = id + 1;
        }
        Some(QuantumCircuit { nodes, root, num_qubits })
    }

    /// The number of qubits.
    pub fn num_qubits(&self) -> (n: usize)
        ensures
            n == self.qubits(),
    {
        self.num_qubits
    }

    /// The handle of the root.
    pub fn root_id(&self) -> (id: NodeId)
        ensures
            id == self.root(),
    {
        self.root
    }

    /// The number of nodes in the store, reachable or not.
    pub fn store_len(&self) -> (n: usize)
        ensures
            n == self.nodes().len(),
    {
        self.nodes.len()
    }

    /// The node with handle `id`.
    pub fn node(&self, id: NodeId) -> (n: DdNode)
        requires
            id < self.nodes().len(),
        ensures
            n == self.nodes()[id as int],
    {
        self.nodes[id]
    }

    /// Replaces the node with handle `id`.
    pub(crate) fn set_node(&mut self, id: NodeId, node: DdNode)
        requires
            id < old(self).nodes().len(),
        ensures
            final(self).nodes() == old(self).nodes().update(id as int, node),
            final(self).root() == old(self).root(),
            final(self).qubits() == old(self).qubits(),
    {
        self.nodes.set(id, node);
    }

    /// Adds a node to the store and returns its handle.
    pub(crate) fn add_node(&mut self, node: DdNode) -> (id: NodeId)
        ensures
            final(self).nodes() == old(self).nodes().push(node),
            id == old(self).nodes().len(),
            final(self).root() == old(self).root(),
            final(self).qubits() == old(self).qubits(),
    {
        self.nodes.push(node);
        self.nodes.len() - 1
    }
}

} // verus!
