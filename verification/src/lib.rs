//! A quantum-state simulator on weighted decision diagrams.
//!
//! The state of `n` qubits is held as a directed acyclic graph: every path
//! from the root to the sink spells one basis state, and the product of the
//! edge weights along it is that state's amplitude. Equal sub-states are
//! stored once and shared.
//!
//! The diagram and its invariant are in [`node`] and [`circuit`]; the
//! weights, and every call into `num` and `rand`, in [`weight`]. The gates
//! are in [`gates`] (the gates that rewrite one level), [`hadamard`] (the
//! Hadamard gate and the U gate, which mix the two branches of a node) and
//! [`controlled`], on top of [`level`], [`active`] and [`copy`]. The
//! amplitudes are read back in [`statevector`] and [`measure`]; [`count`]
//! and [`adjacency`] describe the diagram itself.
//!
//! What the operations mean for the tree that a diagram unfolds to is
//! proved in [`unfold`], [`level_set`], [`gate_meaning`], [`copy_meaning`],
//! [`walk_meaning`] and [`controlled_meaning`], and the laws that relate
//! several operations in [`laws`].

pub mod active;
pub mod adjacency;
pub mod circuit;
pub mod controlled;
pub mod controlled_meaning;
pub mod copy;
pub mod copy_meaning;
pub mod count;
pub mod error;
pub mod gate_meaning;
pub mod gates;
pub mod hadamard;
pub mod laws;
pub mod level;
pub mod level_set;
pub mod measure;
pub mod node;
pub mod statevector;
pub mod unfold;
pub mod walk_meaning;
pub mod weight;

pub use crate::active::find_parent_of_common_node;
pub use crate::adjacency::NodeName;
pub use crate::circuit::QuantumCircuit;
pub use crate::copy::ControlledKind;
pub use crate::error::GateError;
pub use crate::gates::EdgeRewrite;
pub use crate::level::QubitIter;
pub use crate::node::DdNode;
pub use crate::node::NodeId;
