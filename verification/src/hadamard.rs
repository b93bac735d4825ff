//! The gates that mix the two branches of a node: the Hadamard gate and the
//! gate given by a matrix of four weights.
//!
//! A diagram can express a mix at a node only where both branches lead to
//! the same sub-state. Where they do not, the mix is made further down, at
//! the pair of nodes where the active paths of the two branches meet.

use vstd::prelude::*;
use num::complex::Complex64;
use crate::active::{common_parents, find_parent_of_common_node};
use crate::circuit::QuantumCircuit;
use crate::error::GateError;
use crate::level::{level_of, lemma_level_walk};
use crate::node::{
    keeps_levels, lemma_keeps_levels_trans, lemma_push_keeps_sound, lemma_update_keeps_sound,
    node_ok, ordered, still_below, DdNode, NodeId,
};
use crate::weight::{
    below_tolerance, difference, difference_of, equal_weights, gaussian_weight, inv_root_two,
    is_below_tolerance, magnitude, plus, product_of, real_bits, real_bits_of, same_value, sum_of,
    times, zero_weight, INV_ROOT_TWO_BITS,
};

verus! {

/// The two magnitudes measured at a node whose edges lead to the same
/// child, as bit patterns: the gap between the magnitudes of the two
/// weights, and the magnitude of their difference.
pub type Measured = (u64, u64);

/// The outcome of the mix below one node: the store, the number of
/// measurements used so far, and the fault that ended it, if any.
pub struct Mixed {
    pub store: Seq<DdNode>,
    pub used: nat,
    pub fault: Option<GateError>,
}

/// How a gate mixes the `zero` and the `one` weight of a node.
#[derive(Clone, Copy, Debug)]
pub enum Mix {
    /// The Hadamard mix with the given scale: (zero + one) · scale and
    /// (zero − one) · scale.
    Hadamard(Complex64),
    /// The mix by the matrix with the rows (a, b) and (c, d):
    /// a · zero + b · one and c · zero + d · one.
    Matrix(Complex64, Complex64, Complex64, Complex64),
}

impl Mix {
    /// The weight of the `zero` edge after the mix.
    pub open spec fn zero_of(self, zero: Complex64, one: Complex64) -> Complex64 {
        match self {
            Mix::Hadamard(scale) => mixed_zero(zero, one, scale),
            Mix::Matrix(a, b, _, _) => sum_of(product_of(a, zero), product_of(b, one)),
        }
    }

    /// The weight of the `one` edge after the mix.
    pub open spec fn one_of(self, zero: Complex64, one: Complex64) -> Complex64 {
        match self {
            Mix::Hadamard(scale) => mixed_one(zero, one, scale),
            Mix::Matrix(_, _, c, d) => sum_of(product_of(c, zero), product_of(d, one)),
        }
    }

    /// Mixes two weights.
    pub fn mixed(&self, zero: Complex64, one: Complex64) -> (r: (Complex64, Complex64))
        ensures
            r.0 == self.zero_of(zero, one),
            r.1 == self.one_of(zero, one),
    {
        match self {
            Mix::Hadamard(scale) => (
                times(plus(zero, one), *scale),
                times(difference(zero, one), *scale),
            ),
            Mix::Matrix(a, b, c, d) => (
                plus(times(*a, zero), times(*b, one)),
                plus(times(*c, zero), times(*d, one)),
            ),
        }
    }
}

/// The first terminal of the store from `from` on whose value is zero, if
/// there is one.
pub open spec fn zero_terminal_from(nodes: Seq<DdNode>, from: nat) -> Option<NodeId>
    decreases nodes.len() - from,
{
    if from >= nodes.len() {
        None
    } else if nodes[from as int] matches DdNode::Terminal(value) && same_value(
        value,
        zero_weight(),
    ) {
        Some(from as NodeId)
    } else {
        zero_terminal_from(nodes, from + 1)
    }
}

/// The canonical zero terminal of a store: its first terminal whose value
/// is zero, if there is one.
pub open spec fn zero_terminal(nodes: Seq<DdNode>) -> Option<NodeId> {
    zero_terminal_from(nodes, 0)
}

/// The weight of the `zero` edge after the mix: (zero + one) · scale.
pub open spec fn mixed_zero(zero: Complex64, one: Complex64, scale: Complex64) -> Complex64 {
    product_of(sum_of(zero, one), scale)
}

/// The weight of the `one` edge after the mix: (zero − one) · scale.
pub open spec fn mixed_one(zero: Complex64, one: Complex64, scale: Complex64) -> Complex64 {
    product_of(difference_of(zero, one), scale)
}

/// The mix at a node whose two edges lead to the same child.
///
/// The magnitudes of the two weights have to be equal within the tolerance.
/// If the weights themselves are equal within the tolerance, the `zero`
/// edge keeps the child, with the mixed weight, and the `one` edge goes to
/// the canonical zero terminal with weight 0; if not, the other way round.
/// A store without a zero terminal gets one.
pub open spec fn mix_shared(
    nodes: Seq<DdNode>,
    node: NodeId,
    scale: Complex64,
    measured: Measured,
) -> Seq<DdNode> {
    match nodes[node as int] {
        DdNode::Terminal(_) => nodes,
        DdNode::NonTerminal { qubit, zero, one } => {
            let fresh = match zero_terminal(nodes) {
                Some(terminal) => terminal,
                None => nodes.len() as usize,
            };
            let with_terminal = match zero_terminal(nodes) {
                Some(_) => nodes,
                None => nodes.push(DdNode::Terminal(zero_weight())),
            };
            if is_below_tolerance(measured.1) {
                with_terminal.update(
                    node as int,
                    DdNode::NonTerminal {
                        qubit,
                        zero: (mixed_zero(zero.0, one.0, scale), zero.1),
                        one: (zero_weight(), fresh),
                    },
                )
            } else {
                with_terminal.update(
                    node as int,
                    DdNode::NonTerminal {
                        qubit,
                        zero: (zero_weight(), fresh),
                        one: (mixed_one(zero.0, one.0, scale), one.1),
                    },
                )
            }
        },
    }
}

/// The mix at a node whose edges both go to `child` afterwards, with the
/// mixed weights: at a node one of whose children is a terminal, where
/// `child` is the other one, and, for a matrix, at a node whose edges lead
/// to the same child.
pub open spec fn mix_onto(nodes: Seq<DdNode>, node: NodeId, mix: Mix, child: NodeId) -> Seq<
    DdNode,
> {
    match nodes[node as int] {
        DdNode::Terminal(_) => nodes,
        DdNode::NonTerminal { qubit, zero, one } => nodes.update(
            node as int,
            DdNode::NonTerminal {
                qubit,
                zero: (mix.zero_of(zero.0, one.0), child),
                one: (mix.one_of(zero.0, one.0), child),
            },
        ),
    }
}

/// The mix below `node`, with the measurements that `answers` gives, the
/// first of them at `next`.
///
/// A terminal is left alone, and so is a node whose two children are
/// terminals. Where the two edges lead to the same child, the Hadamard mix
/// uses one measurement, and a matrix leaves both edges on the child. Where
/// the children are two distinct decision nodes, the mix is made at each
/// node of the pair above the point where their active paths meet.
pub open spec fn mix_walk(
    nodes: Seq<DdNode>,
    node: NodeId,
    mix: Mix,
    answers: spec_fn(nat) -> Measured,
    next: nat,
) -> Mixed
    decreases nodes[node as int].rank(),
    when ordered(nodes) && node < nodes.len()
{
    let untouched = Mixed { store: nodes, used: next, fault: None };
    match nodes[node as int] {
        DdNode::Terminal(_) => untouched,
        DdNode::NonTerminal { qubit, zero, one } => {
            if zero.1 == one.1 {
                match mix {
                    Mix::Hadamard(scale) => {
                        if !is_below_tolerance(answers(next).0) {
                            Mixed {
                                store: nodes,
                                used: next + 1,
                                fault: Some(GateError::UnequalMagnitudes),
                            }
                        } else {
                            Mixed {
                                store: mix_shared(nodes, node, scale, answers(next)),
                                used: next + 1,
                                fault: None,
                            }
                        }
                    },
                    Mix::Matrix(..) => Mixed {
                        store: mix_onto(nodes, node, mix, zero.1),
                        used: next,
                        fault: None,
                    },
                }
            } else {
                let zero_terminal = nodes[zero.1 as int] is Terminal;
                let one_terminal = nodes[one.1 as int] is Terminal;
                if zero_terminal && one_terminal {
                    untouched
                } else if zero_terminal {
                    Mixed { store: mix_onto(nodes, node, mix, one.1), used: next, fault: None }
                } else if one_terminal {
                    Mixed { store: mix_onto(nodes, node, mix, zero.1), used: next, fault: None }
                } else {
                    match common_parents(nodes, zero.1, one.1) {
                        Err(e) => Mixed { store: nodes, used: next, fault: Some(e) },
                        Ok(pair) => {
                            let rank = nodes[node as int].rank();
                            if still_below(nodes, pair.0, rank) {
                                let first = mix_walk(nodes, pair.0, mix, answers, next);
                                if first.fault is None && still_below(first.store, pair.1, rank) {
                                    mix_walk(first.store, pair.1, mix, answers, first.used)
                                } else {
                                    first
                                }
                            } else {
                                untouched
                            }
                        },
                    }
                }
            }
        },
    }
}

/// The store after the mix has been made below the first `count` nodes
/// of `level`, one after the other. After a fault no further node is
/// handled.
pub open spec fn mix_fold(
    nodes: Seq<DdNode>,
    level: Seq<NodeId>,
    mix: Mix,
    answers: spec_fn(nat) -> Measured,
    count: nat,
) -> Mixed
    decreases count,
{
    if count == 0 {
        Mixed { store: nodes, used: 0, fault: None }
    } else {
        let earlier = mix_fold(nodes, level, mix, answers, (count - 1) as nat);
        match earlier.fault {
            Some(_) => earlier,
            None => mix_walk(earlier.store, level[count - 1], mix, answers, earlier.used),
        }
    }
}

/// `answers` gives the measurements `taken`, the first of them at `next`.
pub open spec fn answers_match(
    answers: spec_fn(nat) -> Measured,
    next: nat,
    taken: Seq<Measured>,
) -> bool {
    forall|i: int| 0 <= i < taken.len() ==> answers((next + i) as nat) == #[trigger] taken[i]
}

/// Whatever answers give the measurements `taken`, the mix below `node`
/// turns `before` into `after` and ends as `result` says.
pub open spec fn mixes_to(
    before: Seq<DdNode>,
    node: NodeId,
    mix: Mix,
    taken: Seq<Measured>,
    after: Seq<DdNode>,
    result: Result<(), GateError>,
) -> bool {
    forall|answers: spec_fn(nat) -> Measured, next: nat|
        answers_match(answers, next, taken) ==> #[trigger] mix_walk(
            before,
            node,
            mix,
            answers,
            next,
        ) == (Mixed {
            store: after,
            used: next + taken.len(),
            fault: match result {
                Ok(_) => None,
                Err(e) => Some(e),
            },
        })
}

/// What the Hadamard gate owes its caller.
///
/// With a qubit out of range it fails and the circuit is as it was.
/// Otherwise the mix is made below the nodes of the target's level in
/// order, up to the first fault. The scale is a weight whose real part is
/// the double nearest to 1/√2. The magnitudes come from the platform, so
/// they are not fixed by the diagram: the store is the one that some
/// measurements give.
pub open spec fn hadamard_outcome(
    before: QuantumCircuit,
    after: QuantumCircuit,
    target: usize,
    result: Result<(), GateError>,
) -> bool {
    &&& after.wf()
    &&& after.root() == before.root()
    &&& after.qubits() == before.qubits()
    &&& keeps_levels(before.nodes(), after.nodes())
    &&& if target >= before.qubits() {
        &&& result == Err::<(), GateError>(GateError::QubitOutOfRange)
        &&& after.nodes() == before.nodes()
    } else {
        let level = level_of(before.nodes(), before.root(), target);
        exists|scale: Complex64, answers: spec_fn(nat) -> Measured, count: nat|
            {
                &&& real_bits_of(scale) == INV_ROOT_TWO_BITS
                &&& count <= level.len()
                &&& (#[trigger] mix_fold(
                    before.nodes(),
                    level,
                    Mix::Hadamard(scale),
                    answers,
                    count,
                )).store == after.nodes()
                &&& mix_fold(
                    before.nodes(),
                    level,
                    Mix::Hadamard(scale),
                    answers,
                    count,
                ).fault == match result {
                    Ok(_) => None,
                    Err(e) => Some(e),
                }
                &&& result is Ok ==> count == level.len()
                &&& result is Err ==> result != Err::<(), GateError>(GateError::QubitOutOfRange)
            }
    }
}

/// The answers of a gate that measures nothing.
pub open spec fn no_measurements() -> spec_fn(nat) -> Measured {
    |i: nat| (0u64, 0u64)
}

/// What a gate given by a matrix owes its caller.
///
/// With a qubit out of range it fails and the circuit is as it was.
/// Otherwise the mix by the matrix is made below the nodes of the target's
/// level in order, up to the first fault. Nothing is measured.
pub open spec fn matrix_outcome(
    before: QuantumCircuit,
    after: QuantumCircuit,
    target: usize,
    mix: Mix,
    result: Result<(), GateError>,
) -> bool {
    &&& after.wf()
    &&& after.root() == before.root()
    &&& after.qubits() == before.qubits()
    &&& keeps_levels(before.nodes(), after.nodes())
    &&& if target >= before.qubits() {
        &&& result == Err::<(), GateError>(GateError::QubitOutOfRange)
        &&& after.nodes() == before.nodes()
    } else {
        let level = level_of(before.nodes(), before.root(), target);
        exists|count: nat|
            {
                &&& count <= level.len()
                &&& #[trigger] mix_fold(before.nodes(), level, mix, no_measurements(), count)
                    == (Mixed {
                    store: after.nodes(),
                    used: 0,
                    fault: match result {
                        Ok(_) => None,
                        Err(e) => Some(e),
                    },
                })
                &&& result is Ok ==> count == level.len()
                &&& result is Err ==> result != Err::<(), GateError>(GateError::QubitOutOfRange)
            }
    }
}

/// What a mix of a level owes its caller, whatever answers give the
/// measurements `taken`: with a qubit out of range it fails and the circuit
/// is as it was; otherwise the mix is made below the first `count` nodes of
/// the target's level, up to the first fault.
pub open spec fn mix_outcome(
    before: QuantumCircuit,
    after: QuantumCircuit,
    target: usize,
    mix: Mix,
    taken: Seq<Measured>,
    count: nat,
    result: Result<(), GateError>,
) -> bool {
    &&& after.wf()
    &&& after.root() == before.root()
    &&& after.qubits() == before.qubits()
    &&& keeps_levels(before.nodes(), after.nodes())
    &&& mix is Matrix ==> taken.len() == 0
    &&& if target >= before.qubits() {
        &&& result == Err::<(), GateError>(GateError::QubitOutOfRange)
        &&& after.nodes() == before.nodes()
    } else {
        let level = level_of(before.nodes(), before.root(), target);
        &&& count <= level.len()
        &&& result is Ok ==> count == level.len()
        &&& result is Err ==> result != Err::<(), GateError>(GateError::QubitOutOfRange)
        &&& forall|answers: spec_fn(nat) -> Measured|
            answers_match(answers, 0, taken) ==> #[trigger] mix_fold(
                before.nodes(),
                level,
                mix,
                answers,
                count,
            ) == (Mixed {
                store: after.nodes(),
                used: taken.len(),
                fault: match result {
                    Ok(_) => None,
                    Err(e) => Some(e),
                },
            })
    }
}

impl QuantumCircuit {
    /// The canonical zero terminal: the first terminal of the store whose
    /// value is zero, if there is one.
    pub fn find_zero_terminal(&self) -> (r: Option<NodeId>)
        ensures
            r == zero_terminal(self.nodes()),
            r matches Some(terminal) ==> terminal < self.nodes().len()
                && self.nodes()[terminal as int] is Terminal,
    {
        let nothing = gaussian_weight(0, 0);
        let size = self.store_len();
        let mut id: usize = 0;
        while id < size
            invariant
                id <= size,
                size == self.nodes().len(),
                nothing == zero_weight(),
                zero_terminal_from(self.nodes(), id as nat) == zero_terminal(self.nodes()),
            decreases size - id,
        {
            match self.node(id) {
                DdNode::Terminal(value) => {
                    if equal_weights(value, nothing) {
                        return Some(id);
                    }
                },
                DdNode::NonTerminal { .. } => {},
            }
            id = id + 1;
        }
        None
    }

    /// Makes the mix at a node whose two edges lead to the same child,
    /// given the two magnitudes measured there.
    pub fn mix_shared_node(&mut self, node: NodeId, scale: Complex64, measured: Measured) -> (r:
        Result<(), GateError>)
        requires
            old(self).wf(),
            node < old(self).nodes().len(),
        ensures
            final(self).wf(),
            final(self).root() == old(self).root(),
            final(self).qubits() == old(self).qubits(),
            keeps_levels(old(self).nodes(), final(self).nodes()),
            match r {
                Ok(_) => is_below_tolerance(measured.0) && final(self).nodes() == mix_shared(
                    old(self).nodes(),
                    node,
                    scale,
                    measured,
                ),
                Err(e) => e == GateError::UnequalMagnitudes && !is_below_tolerance(measured.0)
                    && final(self).nodes() == old(self).nodes(),
            },
    {
        let ghost before = self.nodes();
        assert(node_ok(before, node as int));
        if !below_tolerance(measured.0) {
            return Err(GateError::UnequalMagnitudes);
        }
        match self.node(node) {
            DdNode::Terminal(_) => {},
            DdNode::NonTerminal { qubit, zero, one } => {
                let nothing = gaussian_weight(0, 0);
                let terminal = match self.find_zero_terminal() {
                    Some(terminal) => terminal,
                    None => {
                        proof {
                            lemma_push_keeps_sound(
                                before,
                                DdNode::Terminal(nothing),
                                self.qubits(),
                            );
                        }
                        self.add_node(DdNode::Terminal(nothing))
                    },
                };
                let ghost grown = self.nodes();
                let mixed = if below_tolerance(measured.1) {
                    DdNode::NonTerminal {
                        qubit,
                        zero: (times(plus(zero.0, one.0), scale), zero.1),
                        one: (nothing, terminal),
                    }
                } else {
                    DdNode::NonTerminal {
                        qubit,
                        zero: (nothing, terminal),
                        one: (times(difference(zero.0, one.0), scale), one.1),
                    }
                };
                proof {
                    assert(grown[zero.1 as int] == before[zero.1 as int]);
                    assert(grown[one.1 as int] == before[one.1 as int]);
                    assert(grown[node as int] == before[node as int]);
                    lemma_update_keeps_sound(grown, node as int, mixed, self.qubits());
                    lemma_keeps_levels_trans(before, grown, grown.update(node as int, mixed));
                }
                self.set_node(node, mixed);
            },
        }
        Ok(())
    }

    /// Points both edges of `node` at `child`, with the mixed weights.
    fn mix_onto_child(&mut self, node: NodeId, mix: Mix, child: NodeId)
        requires
            old(self).wf(),
            node < old(self).nodes().len(),
            child < old(self).nodes().len(),
            old(self).nodes()[child as int].rank() < old(self).nodes()[node as int].rank(),
        ensures
            final(self).wf(),
            final(self).root() == old(self).root(),
            final(self).qubits() == old(self).qubits(),
            keeps_levels(old(self).nodes(), final(self).nodes()),
            final(self).nodes() == mix_onto(old(self).nodes(), node, mix, child),
    {
        let ghost before = self.nodes();
        assert(node_ok(before, node as int));
        match self.node(node) {
            DdNode::Terminal(_) => {
                assert(keeps_levels(before, before));
            },
            DdNode::NonTerminal { qubit, zero, one } => {
                let weights = mix.mixed(zero.0, one.0);
                let mixed = DdNode::NonTerminal {
                    qubit,
                    zero: (weights.0, child),
                    one: (weights.1, child),
                };
                proof {
                    lemma_update_keeps_sound(before, node as int, mixed, self.qubits());
                }
                self.set_node(node, mixed);
            },
        }
    }

    /// Applies the mix below `node` and reports the measurements it took.
    fn apply_h_on_node(&mut self, node: NodeId, mix: Mix) -> (r: (
        Result<(), GateError>,
        Ghost<Seq<Measured>>,
    ))
        requires
            old(self).wf(),
            node < old(self).nodes().len(),
        ensures
            final(self).wf(),
            final(self).root() == old(self).root(),
            final(self).qubits() == old(self).qubits(),
            keeps_levels(old(self).nodes(), final(self).nodes()),
            r.0 is Err ==> r.0 != Err::<(), GateError>(GateError::QubitOutOfRange),
            mixes_to(old(self).nodes(), node, mix, r.1@, final(self).nodes(), r.0),
            mix is Matrix ==> r.1@.len() == 0,
        decreases old(self).nodes()[node as int].rank(),
    {
        let ghost before = self.nodes();
        assert(node_ok(before, node as int));
        assert(keeps_levels(before, before));
        match self.node(node) {
            DdNode::Terminal(_) => {
                (Ok(()), Ghost(Seq::empty()))
            },
            DdNode::NonTerminal { qubit, zero, one } => {
                if zero.1 == one.1 {
                    match mix {
                        Mix::Hadamard(scale) => {
                            let gap = real_bits(
                                magnitude(difference(magnitude(zero.0), magnitude(one.0))),
                            );
                            let apart = if below_tolerance(gap) {
                                real_bits(magnitude(difference(zero.0, one.0)))
                            } else {
                                0
                            };
                            let result = self.mix_shared_node(node, scale, (gap, apart));
                            let ghost taken = seq![(gap, apart)];
                            proof {
                                assert forall|answers: spec_fn(nat) -> Measured, next: nat|
                                    answers_match(answers, next, taken) implies answers(next)
                                    == (gap, apart) by {
                                    assert(taken[0] == (gap, apart));
                                    assert(answers((next + 0) as nat) == taken[0]);
                                }
                            }
                            (result, Ghost(taken))
                        },
                        Mix::Matrix(..) => {
                            self.mix_onto_child(node, mix, zero.1);
                            (Ok(()), Ghost(Seq::empty()))
                        },
                    }
                } else {
                    let zero_terminal = match self.node(zero.1) {
                        DdNode::Terminal(_) => true,
                        DdNode::NonTerminal { .. } => false,
                    };
                    let one_terminal = match self.node(one.1) {
                        DdNode::Terminal(_) => true,
                        DdNode::NonTerminal { .. } => false,
                    };
                    if zero_terminal && one_terminal {
                        (Ok(()), Ghost(Seq::empty()))
                    } else if zero_terminal {
                        self.mix_onto_child(node, mix, one.1);
                        (Ok(()), Ghost(Seq::empty()))
                    } else if one_terminal {
                        self.mix_onto_child(node, mix, zero.1);
                        (Ok(()), Ghost(Seq::empty()))
                    } else {
                        let pair = match find_parent_of_common_node(self, zero.1, one.1) {
                            Ok(pair) => pair,
                            Err(e) => {
                                return (Err(e), Ghost(Seq::empty()));
                            },
                        };
                        assert(still_below(before, pair.0, before[node as int].rank()));
                        let first = self.apply_h_on_node(pair.0, mix);
                        let ghost middle = self.nodes();
                        match first.0 {
                            Err(e) => {
                                proof {
                                    assert forall|answers: spec_fn(nat) -> Measured, next: nat|
                                        answers_match(
                                            answers,
                                            next,
                                            first.1@,
                                        ) implies #[trigger] mix_walk(
                                        before,
                                        node,
                                        mix,
                                        answers,
                                        next,
                                    ) == (Mixed {
                                        store: middle,
                                        used: next + first.1@.len(),
                                        fault: Some(e),
                                    }) by {
                                        let inner = mix_walk(before, pair.0, mix, answers, next);
                                        assert(inner.fault == Some(e));
                                    }
                                }
                                return (Err(e), first.1);
                            },
                            Ok(_) => {},
                        }
                        assert(middle[pair.1 as int].same_level(before[pair.1 as int]));
                        let second = self.apply_h_on_node(pair.1, mix);
                        let ghost taken = first.1@ + second.1@;
                        proof {
                            lemma_keeps_levels_trans(before, middle, self.nodes());
                            assert forall|answers: spec_fn(nat) -> Measured, next: nat|
                                answers_match(answers, next, taken) implies answers_match(
                                answers,
                                next,
                                first.1@,
                            ) && answers_match(answers, next + first.1@.len(), second.1@) by {
                                assert forall|i: int| 0 <= i < first.1@.len() implies answers(
                                    (next + i) as nat,
                                ) == #[trigger] first.1@[i] by {
                                    assert(taken[i] == first.1@[i]);
                                }
                                assert forall|i: int| 0 <= i < second.1@.len() implies answers(
                                    (next + first.1@.len() + i) as nat,
                                ) == #[trigger] second.1@[i] by {
                                    assert(taken[first.1@.len() + i] == second.1@[i]);
                                }
                            }
                            assert forall|answers: spec_fn(nat) -> Measured, next: nat|
                                answers_match(answers, next, taken) implies #[trigger] mix_walk(
                                before,
                                node,
                                mix,
                                answers,
                                next,
                            ) == (Mixed {
                                store: self.nodes(),
                                used: next + taken.len(),
                                fault: match second.0 {
                                    Ok(_) => None,
                                    Err(e) => Some(e),
                                },
                            }) by {
                                assert(answers_match(answers, next, first.1@));
                                assert(answers_match(answers, next + first.1@.len(), second.1@));
                                let inner = mix_walk(before, pair.0, mix, answers, next);
                                assert(inner.fault is None);
                                assert(inner.store == middle);
                                assert(still_below(middle, pair.1, before[node as int].rank()));
                                let outer = mix_walk(middle, pair.1, mix, answers, inner.used);
                                assert(outer.store == self.nodes());
                            }
                        }
                        (second.0, Ghost(taken))
                    }
                }
            },
        }
    }

    /// Makes the mix below the nodes of the target's level, and reports the
    /// measurements taken and the number of nodes handled.
    fn apply_mix(&mut self, target_qubit: usize, mix: Mix) -> (r: (
        Result<(), GateError>,
        Ghost<Seq<Measured>>,
        Ghost<nat>,
    ))
        requires
            old(self).wf(),
        ensures
            mix_outcome(*old(self), *final(self), target_qubit, mix, r.1@, r.2@, r.0),
    {
        if target_qubit >= self.num_qubits() {
            proof {
                assert(keeps_levels(self.nodes(), self.nodes()));
            }
            return (Err(GateError::QubitOutOfRange), Ghost(Seq::empty()), Ghost(0));
        }
        let level = self.level_nodes(target_qubit);
        let ghost before = self.nodes();
        let ghost mut taken: Seq<Measured> = Seq::empty();
        proof {
            lemma_level_walk(before, self.root(), target_qubit, Set::empty());
            assert(keeps_levels(before, before));
        }
        let mut k: usize = 0;
        let mut result: Result<(), GateError> = Ok(());
        while k < level.len() && result.is_ok()
            invariant
                k <= level.len(),
                self.wf(),
                self.root() == old(self).root(),
                self.qubits() == old(self).qubits(),
                before == old(self).nodes(),
                level@ == level_of(before, old(self).root(), target_qubit),
                forall|j: int| 0 <= j < level@.len() ==> (#[trigger] level@[j]) < before.len(),
                keeps_levels(before, self.nodes()),
                target_qubit < old(self).qubits(),
                mix is Matrix ==> taken.len() == 0,
                result is Err ==> result != Err::<(), GateError>(GateError::QubitOutOfRange),
                forall|answers: spec_fn(nat) -> Measured|
                    answers_match(answers, 0, taken) ==> #[trigger] mix_fold(
                        before,
                        level@,
                        mix,
                        answers,
                        k as nat,
                    ) == (Mixed {
                        store: self.nodes(),
                        used: taken.len(),
                        fault: match result {
                            Ok(_) => None,
                            Err(e) => Some(e),
                        },
                    }),
            decreases level.len() - k,
        {
            let id = level[k];
            let ghost current = self.nodes();
            let ghost earlier = taken;
            let step = self.apply_h_on_node(id, mix);
            proof {
                taken = earlier + step.1@;
                lemma_keeps_levels_trans(before, current, self.nodes());
                assert forall|answers: spec_fn(nat) -> Measured|
                    answers_match(answers, 0, taken) implies #[trigger] mix_fold(
                    before,
                    level@,
                    mix,
                    answers,
                    (k + 1) as nat,
                ) == (Mixed {
                    store: self.nodes(),
                    used: taken.len(),
                    fault: match step.0 {
                        Ok(_) => None,
                        Err(e) => Some(e),
                    },
                }) by {
                    assert forall|i: int| 0 <= i < earlier.len() implies answers(
                        (0 + i) as nat,
                    ) == #[trigger] earlier[i] by {
                        assert(taken[i] == earlier[i]);
                    }
                    assert forall|i: int| 0 <= i < step.1@.len() implies answers(
                        (earlier.len() + i) as nat,
                    ) == #[trigger] step.1@[i] by {
                        assert(taken[earlier.len() + i] == step.1@[i]);
                    }
                    assert(answers_match(answers, 0, earlier));
                    assert(answers_match(answers, earlier.len(), step.1@));
                    let folded = mix_fold(before, level@, mix, answers, k as nat);
                    assert(folded.store == current);
                }
            }
            result = step.0;
            k = k + 1;
        }
        (result, Ghost(taken), Ghost(k as nat))
    }

    /// The Hadamard gate on `target_qubit`.
    pub fn apply_h(&mut self, target_qubit: usize) -> (r: Result<(), GateError>)
        requires
            old(self).wf(),
        ensures
            hadamard_outcome(*old(self), *final(self), target_qubit, r),
    {
        let scale = inv_root_two();
        let done = self.apply_mix(target_qubit, Mix::Hadamard(scale));
        proof {
            if target_qubit < old(self).qubits() {
                let taken = done.1@;
                let level = level_of(old(self).nodes(), old(self).root(), target_qubit);
                let answers = |i: nat|
                    if i < taken.len() {
                        taken[i as int]
                    } else {
                        (0u64, 0u64)
                    };
                assert(answers_match(answers, 0, taken));
                let folded = mix_fold(
                    old(self).nodes(),
                    level,
                    Mix::Hadamard(scale),
                    answers,
                    done.2@,
                );
                assert(folded.store == self.nodes());
            }
        }
        done.0
    }

    /// The U gate on `target_qubit`, given by its matrix: the rows are
    /// (`zero_zero`, `zero_one`) and (`one_zero`, `one_one`), so that the
    /// `zero` weight of a node becomes `zero_zero · zero + zero_one · one`
    /// and the `one` weight `one_zero · zero + one_one · one`. For the
    /// angles (θ, φ, λ) the caller passes cos(θ/2), −e^{iλ}·sin(θ/2),
    /// e^{iφ}·sin(θ/2) and e^{i(φ+λ)}·cos(θ/2).
    pub fn apply_u(
        &mut self,
        target_qubit: usize,
        zero_zero: Complex64,
        zero_one: Complex64,
        one_zero: Complex64,
        one_one: Complex64,
    ) -> (r: Result<(), GateError>)
        requires
            old(self).wf(),
        ensures
            matrix_outcome(
                *old(self),
                *final(self),
                target_qubit,
                Mix::Matrix(zero_zero, zero_one, one_zero, one_one),
                r,
            ),
    {
        let mix = Mix::Matrix(zero_zero, zero_one, one_zero, one_one);
        let done = self.apply_mix(target_qubit, mix);
        proof {
            if target_qubit < old(self).qubits() {
                let level = level_of(old(self).nodes(), old(self).root(), target_qubit);
                assert(answers_match(no_measurements(), 0, done.1@));
                let folded = mix_fold(old(self).nodes(), level, mix, no_measurements(), done.2@);
                assert(folded.store == self.nodes());
            }
        }
        done.0
    }
}

} // verus!
