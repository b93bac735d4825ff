//! The single-qubit gates that rewrite the edges of one level, node by node.
//!
//! The level is the one that the diagram has when a gate begins. A gate
//! changes no node above the level, so no node joins or leaves the level
//! while it is at work.

use vstd::prelude::*;
use num::complex::Complex64;
use crate::circuit::QuantumCircuit;
use crate::error::GateError;
use crate::gate_meaning::{lemma_gate_rewrites_the_tree, rewritten};
use crate::level::{level_of, lemma_level_walk};
use crate::node::{node_ok, ordered, qubits_in_range, DdNode, NodeId, SINK_QUBIT};
use crate::unfold::unfold;
use crate::weight::{
    difference, difference_of, gaussian_weight, i_weight, minus_i_weight, minus_one_weight,
    product_of, quarter_pi, real_bits_of, times, unit_phase, zero_weight, QUARTER_PI_BITS,
};

verus! {

/// What a gate does to the two edges of one decision node.
#[derive(Clone, Copy, Debug)]
pub enum EdgeRewrite {
    /// The two edges change places.
    Swap,
    /// The weight of the `one` edge is multiplied by the phase.
    Phase(Complex64),
    /// The edges change places; the weight that moves to `zero` is
    /// multiplied by i, the weight that moves to `one` by −i.
    SwapWithPhases,
    /// The weights of the `zero` and the `one` edge are replaced; the
    /// children stay.
    Weights(Complex64, Complex64),
}

impl EdgeRewrite {
    /// The node after the rewrite. A terminal has no edges and stays.
    pub open spec fn apply(self, node: DdNode) -> DdNode {
        match node {
            DdNode::Terminal(_) => node,
            DdNode::NonTerminal { qubit, zero, one } => match self {
                EdgeRewrite::Swap => DdNode::NonTerminal { qubit, zero: one, one: zero },
                EdgeRewrite::Phase(phase) => DdNode::NonTerminal {
                    qubit,
                    zero,
                    one: (product_of(one.0, phase), one.1),
                },
                EdgeRewrite::SwapWithPhases => DdNode::NonTerminal {
                    qubit,
                    zero: (product_of(one.0, i_weight()), one.1),
                    one: (product_of(zero.0, minus_i_weight()), zero.1),
                },
                EdgeRewrite::Weights(zero_weight, one_weight) => DdNode::NonTerminal {
                    qubit,
                    zero: (zero_weight, zero.1),
                    one: (one_weight, one.1),
                },
            },
        }
    }

    /// Rewrites one node.
    pub fn rewrite(&self, node: DdNode) -> (r: DdNode)
        ensures
            r == self.apply(node),
    {
        match node {
            DdNode::Terminal(_) => node,
            DdNode::NonTerminal { qubit, zero, one } => match self {
                EdgeRewrite::Swap => DdNode::NonTerminal { qubit, zero: one, one: zero },
                EdgeRewrite::Phase(phase) => DdNode::NonTerminal {
                    qubit,
                    zero,
                    one: (times(one.0, *phase), one.1),
                },
                EdgeRewrite::SwapWithPhases => DdNode::NonTerminal {
                    qubit,
                    zero: (times(one.0, gaussian_weight(0, 1)), one.1),
                    one: (times(zero.0, gaussian_weight(0, -1)), zero.1),
                },
                EdgeRewrite::Weights(zero_weight, one_weight) => DdNode::NonTerminal {
                    qubit,
                    zero: (*zero_weight, zero.1),
                    one: (*one_weight, one.1),
                },
            },
        }
    }
}

/// The angle of the T gate as a real weight: the double nearest to π/4.
/// This is what the platform is asked to take the unit phase of.
pub fn eighth_turn() -> (angle: Complex64)
    ensures
        real_bits_of(angle) == QUARTER_PI_BITS,
{
    quarter_pi()
}

/// The angle of the inverse of the T gate as a real weight: zero less the
/// double nearest to π/4.
pub fn eighth_turn_back() -> (angle: Complex64)
    ensures
        exists|forth: Complex64|
            real_bits_of(forth) == QUARTER_PI_BITS && angle == #[trigger] difference_of(
                zero_weight(),
                forth,
            ),
{
    let forth = quarter_pi();
    let back = difference(gaussian_weight(0, 0), forth);
    assert(back == difference_of(zero_weight(), forth));
    back
}

/// The store in which every node of `level` has been rewritten and every
/// other node is as it was.
pub open spec fn rewrite_level(nodes: Seq<DdNode>, level: Seq<NodeId>, rewrite: EdgeRewrite) -> Seq<
    DdNode,
> {
    Seq::new(
        nodes.len(),
        |id: int|
            if level.contains(id as usize) {
                rewrite.apply(nodes[id])
            } else {
                nodes[id]
            },
    )
}

/// The store after a gate that rewrites the level of `target`.
pub open spec fn gate_on_level(
    nodes: Seq<DdNode>,
    root: NodeId,
    target: usize,
    rewrite: EdgeRewrite,
) -> Seq<DdNode> {
    rewrite_level(nodes, level_of(nodes, root, target), rewrite)
}

/// What a single-qubit gate owes its caller. With a qubit out of range it
/// fails and the circuit is as it was. Otherwise it succeeds: every node of
/// the target's level is rewritten, and no other node changes; in the tree
/// that unfolds from the root, every node that tests the target is
/// rewritten.
pub open spec fn gate_outcome(
    before: QuantumCircuit,
    after: QuantumCircuit,
    target: usize,
    rewrite: EdgeRewrite,
    result: Result<(), GateError>,
) -> bool {
    &&& after.wf()
    &&& after.root() == before.root()
    &&& after.qubits() == before.qubits()
    &&& match result {
        Ok(_) => {
            &&& target < before.qubits()
            &&& after.nodes() == gate_on_level(
                before.nodes(),
                before.root(),
                target,
                rewrite,
            )
            &&& unfold(after.nodes(), after.root()) == rewritten(
                unfold(before.nodes(), before.root()),
                target,
                rewrite,
            )
        },
        Err(e) => {
            &&& e == GateError::QubitOutOfRange
            &&& target >= before.qubits()
            &&& after.nodes() == before.nodes()
        },
    }
}

/// A rewrite of some nodes' edges keeps the diagram well formed: no node
/// changes its level and no edge gets a new child.
pub proof fn lemma_rewrite_keeps_order(
    nodes: Seq<DdNode>,
    level: Seq<NodeId>,
    rewrite: EdgeRewrite,
    num_qubits: usize,
)
    requires
        ordered(nodes),
        qubits_in_range(nodes, num_qubits),
    ensures
        ordered(rewrite_level(nodes, level, rewrite)),
        qubits_in_range(rewrite_level(nodes, level, rewrite), num_qubits),
{
    let after = rewrite_level(nodes, level, rewrite);
    assert forall|id: int| 0 <= id < after.len() implies #[trigger] node_ok(after, id) by {
        assert(node_ok(nodes, id));
        match nodes[id] {
            DdNode::Terminal(_) => {},
            DdNode::NonTerminal { qubit, zero, one } => {
                assert(after[zero.1 as int].rank() == nodes[zero.1 as int].rank());
                assert(after[one.1 as int].rank() == nodes[one.1 as int].rank());
            },
        }
    }
    assert forall|id: int| 0 <= id < after.len() implies match #[trigger] after[id] {
        DdNode::Terminal(_) => true,
        DdNode::NonTerminal { qubit, .. } => qubit == SINK_QUBIT || qubit < num_qubits,
    } by {
        let old_node = nodes[id];
        assert(after[id].same_level(old_node));
    }
}

impl QuantumCircuit {
    /// Rewrites every node of the level of `target`. With
    /// [`EdgeRewrite::Weights`] this sets the two weights of every node of
    /// the level and leaves each edge its child.
    pub fn apply_rewrite(&mut self, target: usize, rewrite: EdgeRewrite) -> (r: Result<
        (),
        GateError,
    >)
        requires
            old(self).wf(),
        ensures
            gate_outcome(*old(self), *final(self), target, rewrite, r),
    {
        if target >= self.num_qubits() {
            return Err(GateError::QubitOutOfRange);
        }
        let level = self.level_nodes(target);
        let ghost before = self.nodes();
        let size = self.store_len();
        proof {
            lemma_level_walk(before, self.root(), target, Set::empty());
            assert(level@.take(0) =~= Seq::<NodeId>::empty());
            assert(self.nodes() =~= rewrite_level(before, level@.take(0), rewrite));
        }
        let mut k: usize = 0;
        while k < level.len()
            invariant
                k <= level.len(),
                before.len() == size,
                level@ == level_of(before, self.root(), target),
                level@.no_duplicates(),
                forall|j: int| 0 <= j < level@.len() ==> (#[trigger] level@[j]) < before.len(),
                self.root() == old(self).root(),
                self.qubits() == old(self).qubits(),
                before == old(self).nodes(),
                self.nodes() == rewrite_level(before, level@.take(k as int), rewrite),
            decreases level.len() - k,
        {
            let id = level[k];
            let ghost done = level@.take(k as int);
            assert(!done.contains(id)) by {
                if done.contains(id) {
                    let j = choose|j: int| 0 <= j < done.len() && done[j] == id;
                    assert(level@[j] == level@[k as int]);
                }
            }
            let node = self.node(id);
            let ghost partly = self.nodes();
            assert(node == before[id as int]);
            self.set_node(id, rewrite.rewrite(node));
            k = k + 1;
            proof {
                let next = level@.take(k as int);
                assert(next =~= done.push(id));
                assert forall|v: usize| #[trigger]
                    next.contains(v) == (done.contains(v) || v == id) by {
                    if done.contains(v) {
                        let i = choose|i: int| 0 <= i < done.len() && done[i] == v;
                        assert(next[i] == v);
                    }
                    if v == id {
                        assert(next[k - 1] == id);
                    }
                }
                let goal = rewrite_level(before, next, rewrite);
                assert forall|j: int| 0 <= j < before.len() implies #[trigger] self.nodes()[j]
                    == goal[j] by {
                    assert(next.contains(j as usize) == (done.contains(j as usize) || j as usize
                        == id));
                    if j != id {
                        assert(self.nodes()[j] == partly[j]);
                    }
                }
                assert(self.nodes() =~= goal);
            }
        }
        proof {
            assert(level@.take(k as int) =~= level@);
            lemma_rewrite_keeps_order(before, level@, rewrite, self.qubits());
            lemma_gate_rewrites_the_tree(before, self.root(), self.qubits(), target, rewrite);
        }
        Ok(())
    }

    /// The Pauli-X gate: on every node of the level the two edges change
    /// places.
    pub fn apply_x(&mut self, target_qubit: usize) -> (r: Result<(), GateError>)
        requires
            old(self).wf(),
        ensures
            gate_outcome(*old(self), *final(self), target_qubit, EdgeRewrite::Swap, r),
    {
        self.apply_rewrite(target_qubit, EdgeRewrite::Swap)
    }

    /// The Pauli-Z gate: the weight of every `one` edge of the level is
    /// multiplied by −1.
    pub fn apply_z(&mut self, target_qubit: usize) -> (r: Result<(), GateError>)
        requires
            old(self).wf(),
        ensures
            gate_outcome(
                *old(self),
                *final(self),
                target_qubit,
                EdgeRewrite::Phase(minus_one_weight()),
                r,
            ),
    {
        self.apply_rewrite(target_qubit, EdgeRewrite::Phase(gaussian_weight(-1, 0)))
    }

    /// The Pauli-Y gate: on every node of the level the edges change places,
    /// with the phases i and −i.
    pub fn apply_y(&mut self, target_qubit: usize) -> (r: Result<(), GateError>)
        requires
            old(self).wf(),
        ensures
            gate_outcome(*old(self), *final(self), target_qubit, EdgeRewrite::SwapWithPhases, r),
    {
        self.apply_rewrite(target_qubit, EdgeRewrite::SwapWithPhases)
    }

    /// The S gate: the weight of every `one` edge of the level is multiplied
    /// by i.
    pub fn apply_s(&mut self, target_qubit: usize) -> (r: Result<(), GateError>)
        requires
            old(self).wf(),
        ensures
            gate_outcome(
                *old(self),
                *final(self),
                target_qubit,
                EdgeRewrite::Phase(i_weight()),
                r,
            ),
    {
        self.apply_rewrite(target_qubit, EdgeRewrite::Phase(gaussian_weight(0, 1)))
    }

    /// The inverse of the S gate: the weight of every `one` edge of the
    /// level is multiplied by −i.
    pub fn apply_sdg(&mut self, target_qubit: usize) -> (r: Result<(), GateError>)
        requires
            old(self).wf(),
        ensures
            gate_outcome(
                *old(self),
                *final(self),
                target_qubit,
                EdgeRewrite::Phase(minus_i_weight()),
                r,
            ),
    {
        self.apply_rewrite(target_qubit, EdgeRewrite::Phase(gaussian_weight(0, -1)))
    }

    /// The T gate: the weight of every `one` edge of the level is multiplied
    /// by the unit phase of angle π/4. The phase is computed once, by the
    /// platform's trigonometry; whatever it is, every node of the level gets
    /// the same one.
    pub fn apply_t(&mut self, target_qubit: usize) -> (r: Result<(), GateError>)
        requires
            old(self).wf(),
        ensures
            exists|phase: Complex64|
                gate_outcome(
                    *old(self),
                    *final(self),
                    target_qubit,
                    EdgeRewrite::Phase(phase),
                    r,
                ),
    {
        let phase = unit_phase(eighth_turn());
        self.apply_p(target_qubit, phase)
    }

    /// The inverse of the T gate: the weight of every `one` edge of the
    /// level is multiplied by the unit phase of angle −π/4, computed once.
    pub fn apply_tdg(&mut self, target_qubit: usize) -> (r: Result<(), GateError>)
        requires
            old(self).wf(),
        ensures
            exists|phase: Complex64|
                gate_outcome(
                    *old(self),
                    *final(self),
                    target_qubit,
                    EdgeRewrite::Phase(phase),
                    r,
                ),
    {
        let phase = unit_phase(eighth_turn_back());
        self.apply_p(target_qubit, phase)
    }

    /// The phase gate: the weight of every `one` edge of the level is
    /// multiplied by `phase`. For P(θ) the caller passes the unit phase of
    /// angle θ.
    pub fn apply_p(&mut self, target_qubit: usize, phase: Complex64) -> (r: Result<(), GateError>)
        requires
            old(self).wf(),
        ensures
            gate_outcome(*old(self), *final(self), target_qubit, EdgeRewrite::Phase(phase), r),
    {
        self.apply_rewrite(target_qubit, EdgeRewrite::Phase(phase))
    }
}

} // verus!
