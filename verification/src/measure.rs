//! Measuring one qubit: marginal probabilities and a sampled outcome.

use vstd::prelude::*;
use num::complex::Complex64;
use crate::circuit::QuantumCircuit;
use crate::node::{node_ok, ordered, DdNode, NodeId, SINK_QUBIT};
use crate::weight::{
    divided, gaussian_weight, one_weight, plus, product_of, quotient_of, real_bits, real_bits_of,
    squared_magnitude, squared_magnitude_of, sum_of, times, uniform_draw, zero_weight,
    INFINITY_BITS, ONE_BITS,
};

verus! {

/// The two sums of squared magnitudes after the paths from `node` have been
/// added to `sums`.
///
/// `amplitude` is the product of the weights on the way to `node`, and
/// `decided` is the value that the way has given the target qubit, if it
/// has passed the node that tests it. A path counts when it reaches the
/// sink: its squared magnitude is added to the first sum unless the target
/// was decided as 1, and to the second unless it was decided as 0, so a
/// path that leaves the target undecided counts for both values. A path
/// that ends in a terminal counts for nothing.
pub open spec fn marginal_walk(
    nodes: Seq<DdNode>,
    node: NodeId,
    amplitude: Complex64,
    target: usize,
    decided: Option<bool>,
    sums: (Complex64, Complex64),
) -> (Complex64, Complex64)
    decreases nodes[node as int].rank(),
    when ordered(nodes) && node < nodes.len()
{
    match nodes[node as int] {
        DdNode::Terminal(_) => sums,
        DdNode::NonTerminal { qubit, zero, one } => {
            if qubit == SINK_QUBIT {
                let share = squared_magnitude_of(amplitude);
                (
                    if decided == Some(true) {
                        sums.0
                    } else {
                        sum_of(sums.0, share)
                    },
                    if decided == Some(false) {
                        sums.1
                    } else {
                        sum_of(sums.1, share)
                    },
                )
            } else {
                proof {
                    assert(node_ok(nodes, node as int));
                }
                let down_zero = if qubit == target {
                    Some(false)
                } else {
                    decided
                };
                let down_one = if qubit == target {
                    Some(true)
                } else {
                    decided
                };
                let after_zero = marginal_walk(
                    nodes,
                    zero.1,
                    product_of(amplitude, zero.0),
                    target,
                    down_zero,
                    sums,
                );
                marginal_walk(
                    nodes,
                    one.1,
                    product_of(amplitude, one.0),
                    target,
                    down_one,
                    after_zero,
                )
            }
        },
    }
}

/// The sums of squared magnitudes of the paths on which `target` is 0 and
/// on which it is 1.
pub open spec fn marginal_sums(nodes: Seq<DdNode>, root: NodeId, target: usize) -> (
    Complex64,
    Complex64,
) {
    marginal_walk(nodes, root, one_weight(), target, None, (zero_weight(), zero_weight()))
}

/// The marginal probabilities of `target`: each sum divided by the total of
/// the two, so that a diagram that is not normalized still gives
/// probabilities.
pub open spec fn probabilities(nodes: Seq<DdNode>, root: NodeId, target: usize) -> (
    Complex64,
    Complex64,
) {
    let sums = marginal_sums(nodes, root, target);
    let total = sum_of(sums.0, sums.1);
    (quotient_of(sums.0, total), quotient_of(sums.1, total))
}

/// The outcome for a draw from [0, 1) and the probability of 0, both as
/// bit patterns of doubles: 0 if the draw is less than the probability,
/// else 1.
///
/// The draw is not negative, so it is less than the probability exactly
/// when the probability is a number, is not negative, and has the larger
/// bit pattern. A probability that is not a number gives 1.
pub open spec fn outcome_of(draw_bits: u64, prob0_bits: u64) -> u8 {
    if prob0_bits <= INFINITY_BITS && draw_bits < prob0_bits {
        0
    } else {
        1
    }
}

/// Decides the outcome of a measurement from a draw and the probability
/// of 0.
pub fn measurement_outcome(draw_bits: u64, prob0_bits: u64) -> (r: u8)
    ensures
        r == outcome_of(draw_bits, prob0_bits),
{
    if prob0_bits <= INFINITY_BITS && draw_bits < prob0_bits {
        0
    } else {
        1
    }
}

impl QuantumCircuit {
    /// Samples a measurement of `qubit`: 0 with the marginal probability of
    /// 0, else 1. The state is not changed. The result is the outcome for a
    /// draw from [0, 1): it is 0 where the probability of 0 is 1, and 1
    /// where that probability is 0, negative or not a number.
    pub fn measure_qubit(&mut self, qubit: usize) -> (r: u8)
        requires
            old(self).wf(),
        ensures
            *final(self) == *old(self),
            exists|draw: Complex64|
                real_bits_of(draw) < ONE_BITS && r == outcome_of(
                    #[trigger] real_bits_of(draw),
                    real_bits_of(probabilities(old(self).nodes(), old(self).root(), qubit).0),
                ),
    {
        let probs = self.calculate_probabilities(qubit);
        let draw = uniform_draw();
        let outcome = measurement_outcome(real_bits(draw), real_bits(probs.0));
        assert(real_bits_of(draw) < ONE_BITS && outcome == outcome_of(
            real_bits_of(draw),
            real_bits_of(probabilities(self.nodes(), self.root(), qubit).0),
        ));
        outcome
    }

    /// The marginal probabilities that `target` is 0 and that it is 1, as
    /// real weights.
    pub fn calculate_probabilities(&self, target: usize) -> (r: (Complex64, Complex64))
        requires
            self.wf(),
        ensures
            r == probabilities(self.nodes(), self.root(), target),
    {
        let nothing = gaussian_weight(0, 0);
        let mut sums = (nothing, nothing);
        self.traverse(self.root_id(), gaussian_weight(1, 0), target, None, &mut sums);
        let total = plus(sums.0, sums.1);
        (divided(sums.0, total), divided(sums.1, total))
    }

    /// Adds the squared magnitudes of the paths from `node` to `sums`.
    pub fn traverse(
        &self,
        node: NodeId,
        amplitude: Complex64,
        target: usize,
        decided: Option<bool>,
        sums: &mut (Complex64, Complex64),
    )
        requires
            self.wf(),
            node < self.nodes().len(),
        ensures
            *final(sums) == marginal_walk(
                self.nodes(),
                node,
                amplitude,
                target,
                decided,
                *old(sums),
            ),
        decreases self.nodes()[node as int].rank(),
    {
        assert(node_ok(self.nodes(), node as int));
        match self.node(node) {
            DdNode::Terminal(_) => {},
            DdNode::NonTerminal { qubit, zero, one } => {
                if qubit == SINK_QUBIT {
                    let share = squared_magnitude(amplitude);
                    let counts_for_zero = match decided {
                        Some(bit) => !bit,
                        None => true,
                    };
                    let counts_for_one = match decided {
                        Some(bit) => bit,
                        None => true,
                    };
                    if counts_for_zero {
                        sums.0 = plus(sums.0, share);
                    }
                    if counts_for_one {
                        sums.1 = plus(sums.1, share);
                    }
                } else {
                    let down_zero = if qubit == target {
                        Some(false)
                    } else {
                        decided
                    };
                    let down_one = if qubit == target {
                        Some(true)
                    } else {
                        decided
                    };
                    self.traverse(zero.1, times(amplitude, zero.0), target, down_zero, sums);
                    self.traverse(one.1, times(amplitude, one.0), target, down_one, sums);
                }
            },
        }
    }
}

} // verus!
