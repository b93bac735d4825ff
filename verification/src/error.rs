//! The faults a gate can report.

use vstd::prelude::*;

verus! {

/// Why a gate was not applied, or was abandoned.
#[derive(Clone, Copy, Debug, PartialEq, Eq, Structural)]
pub enum GateError {
    /// A qubit index is not below the number of qubits.
    QubitOutOfRange,
    /// Two edges that lead to the same child carry weights of different
    /// magnitude where the Hadamard gate needs them equal.
    UnequalMagnitudes,
    /// A decision node has no edge of nonzero weight where an active child
    /// is needed.
    DeadNode,
    /// An active child was asked of a terminal.
    TerminalNode,
}

} // verus!
