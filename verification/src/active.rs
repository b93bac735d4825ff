//! Active children: following the edge that carries weight.

use vstd::prelude::*;
use crate::circuit::QuantumCircuit;
use crate::error::GateError;
use crate::node::{node_ok, ordered, DdNode, NodeId};
use crate::weight::{equal_weights, gaussian_weight, same_value, zero_weight};

verus! {

/// The active child of a node: the child at the end of the `zero` edge if
/// that edge's weight is not zero, else the child at the end of the `one`
/// edge if that edge's weight is not zero. A terminal has none, and neither
/// has a decision node whose two weights are zero.
pub open spec fn active_child_of(node: DdNode) -> Result<NodeId, GateError> {
    match node {
        DdNode::Terminal(_) => Err(GateError::TerminalNode),
        DdNode::NonTerminal { zero, one, .. } => {
            if !same_value(zero.0, zero_weight()) {
                Ok(zero.1)
            } else if !same_value(one.0, zero_weight()) {
                Ok(one.1)
            } else {
                Err(GateError::DeadNode)
            }
        },
    }
}

/// The first pair of nodes on the active paths from `zero_node` and
/// `one_node`, taken in step, whose active children are the same node.
pub open spec fn common_parents(nodes: Seq<DdNode>, zero_node: NodeId, one_node: NodeId) -> Result<
    (NodeId, NodeId),
    GateError,
>
    decreases nodes[zero_node as int].rank(),
    when ordered(nodes) && zero_node < nodes.len() && one_node < nodes.len()
{
    match active_child_of(nodes[zero_node as int]) {
        Err(e) => Err(e),
        Ok(next_zero) => match active_child_of(nodes[one_node as int]) {
            Err(e) => Err(e),
            Ok(next_one) => {
                if next_zero == next_one {
                    Ok((zero_node, one_node))
                } else {
                    proof {
                        assert(node_ok(nodes, zero_node as int));
                    }
                    common_parents(nodes, next_zero, next_one)
                }
            },
        },
    }
}

impl QuantumCircuit {
    /// The active child of `node`.
    pub fn active_child(&self, node: NodeId) -> (r: Result<NodeId, GateError>)
        requires
            node < self.nodes().len(),
        ensures
            r == active_child_of(self.nodes()[node as int]),
    {
        match self.node(node) {
            DdNode::Terminal(_) => Err(GateError::TerminalNode),
            DdNode::NonTerminal { zero, one, .. } => {
                let nothing = gaussian_weight(0, 0);
                if !equal_weights(zero.0, nothing) {
                    Ok(zero.1)
                } else if !equal_weights(one.0, nothing) {
                    Ok(one.1)
                } else {
                    Err(GateError::DeadNode)
                }
            },
        }
    }
}

/// Follows the active children of two nodes, in step, until they meet, and
/// returns the pair of nodes just above the meeting point.
pub fn find_parent_of_common_node(
    circuit: &QuantumCircuit,
    zero_node: NodeId,
    one_node: NodeId,
) -> (r: Result<(NodeId, NodeId), GateError>)
    requires
        circuit.wf(),
        zero_node < circuit.nodes().len(),
        one_node < circuit.nodes().len(),
    ensures
        r == common_parents(circuit.nodes(), zero_node, one_node),
        match r {
            Ok(pair) => {
                &&& pair.0 < circuit.nodes().len()
                &&& pair.1 < circuit.nodes().len()
                &&& circuit.nodes()[pair.0 as int].rank() <= circuit.nodes()[zero_node as int]
                    .rank()
                &&& circuit.nodes()[pair.1 as int].rank() <= circuit.nodes()[one_node as int]
                    .rank()
            },
            Err(e) => e == GateError::TerminalNode || e == GateError::DeadNode,
        },
    decreases circuit.nodes()[zero_node as int].rank(),
{
    assert(node_ok(circuit.nodes(), zero_node as int));
    assert(node_ok(circuit.nodes(), one_node as int));
    let next_zero = match circuit.active_child(zero_node) {
        Ok(next) => next,
        Err(e) => {
            return Err(e);
        },
    };
    let next_one = match circuit.active_child(one_node) {
        Ok(next) => next,
        Err(e) => {
            return Err(e);
        },
    };
    if next_zero == next_one {
        Ok((zero_node, one_node))
    } else {
        find_parent_of_common_node(circuit, next_zero, next_one)
    }
}

} // verus!
