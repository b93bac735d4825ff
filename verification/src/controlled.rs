//! The controlled gates: CNOT and CZ.
//!
//! Both act on the nodes of the control's level. For each of them the
//! branch below the `one` edge has to be transformed at the target's level
//! while the branch below the `zero` edge keeps its values, although the two
//! may share nodes. Where they share, the shared part is copied and the
//! copy is transformed; where they do not, the node is changed in place.
//!
//! Sharing is looked for along one path only, the active path below the
//! `zero` edge, and a node with a marked child is not entered any further.
//! On a diagram whose branches share nodes off that path, or share both
//! children of a node, the outcome is what [`controlled_node`] states,
//! which need not be the transform on every path. What is done where the
//! branches are shared as a whole, or kept apart, is proved in
//! [`crate::laws`] and [`crate::controlled_meaning`].

use std::collections::HashMap;
use std::collections::HashSet;
use vstd::prelude::*;
use crate::active::active_child_of;
use crate::circuit::QuantumCircuit;
use crate::copy::{copy_branch, ControlledKind};
use crate::error::GateError;
use crate::level::{level_of, lemma_level_walk};
use crate::node::{
    keeps_levels, lemma_keeps_levels_trans, lemma_update_keeps_sound, node_ok, ordered, sound,
    still_below, DdNode, NodeId,
};
use crate::weight::{
    above_tolerance, below_tolerance, difference, is_above_tolerance, is_below_tolerance,
    magnitude, real_bits, real_bits_of,
};

verus! {

broadcast use vstd::std_specs::hash::group_hash_axioms;

/// The nodes marked on the active path from `node` towards the target's
/// level: every decision node on the path, down to the first that does not
/// test a qubit above `target`. A node above the target that has no active
/// child is a fault.
pub open spec fn mark_walk(
    nodes: Seq<DdNode>,
    node: NodeId,
    target: usize,
    marked: Set<NodeId>,
) -> Result<Set<NodeId>, GateError>
    decreases nodes[node as int].rank(),
    when ordered(nodes) && node < nodes.len()
{
    match nodes[node as int] {
        DdNode::Terminal(_) => Ok(marked),
        DdNode::NonTerminal { qubit, .. } => {
            let with_node = marked.insert(node);
            if qubit > target {
                match active_child_of(nodes[node as int]) {
                    Ok(next) => {
                        proof {
                            assert(node_ok(nodes, node as int));
                        }
                        mark_walk(nodes, next, target, with_node)
                    },
                    Err(e) => Err(e),
                }
            } else {
                Ok(with_node)
            }
        },
    }
}

/// The outcome of a walk that transforms a branch: the store, the
/// target-level nodes that have been changed in place, and whether a copy
/// has been put in.
pub struct Walked {
    pub store: Seq<DdNode>,
    pub seen: Set<NodeId>,
    pub done: bool,
}

/// The `node` of `store` with the child of its `zero` edge replaced.
pub open spec fn with_zero_child(node: DdNode, child: NodeId) -> DdNode {
    match node {
        DdNode::Terminal(_) => node,
        DdNode::NonTerminal { qubit, zero, one } => DdNode::NonTerminal {
            qubit,
            zero: (zero.0, child),
            one,
        },
    }
}

/// The `node` of `store` with the child of its `one` edge replaced.
pub open spec fn with_one_child(node: DdNode, child: NodeId) -> DdNode {
    match node {
        DdNode::Terminal(_) => node,
        DdNode::NonTerminal { qubit, zero, one } => DdNode::NonTerminal {
            qubit,
            zero,
            one: (one.0, child),
        },
    }
}

/// The walk of the controlled NOT through the branch at `node`.
///
/// A terminal ends its path. A node with a marked child gets a transformed
/// copy of that child in its place, the `one` child if that is marked, else
/// the `zero` child, and is not entered. A node that tests `target` has its
/// edges swapped, once. A node above the target is entered, its `one` child
/// first. A node below the target is left alone.
pub open spec fn swap_walk(
    nodes: Seq<DdNode>,
    node: NodeId,
    target: usize,
    visited: Set<NodeId>,
    marked: Set<NodeId>,
) -> Walked
    decreases nodes[node as int].rank(),
    when ordered(nodes) && node < nodes.len()
{
    let untouched = Walked { store: nodes, seen: visited, done: false };
    match nodes[node as int] {
        DdNode::Terminal(_) => untouched,
        DdNode::NonTerminal { qubit, zero, one } => {
            if marked.contains(one.1) {
                let copied = copy_branch(nodes, one.1, target, ControlledKind::Not);
                Walked {
                    store: copied.store.update(
                        node as int,
                        with_one_child(nodes[node as int], copied.id),
                    ),
                    seen: visited,
                    done: false,
                }
            } else if marked.contains(zero.1) {
                let copied = copy_branch(nodes, zero.1, target, ControlledKind::Not);
                Walked {
                    store: copied.store.update(
                        node as int,
                        with_zero_child(nodes[node as int], copied.id),
                    ),
                    seen: visited,
                    done: false,
                }
            } else if qubit == target {
                if visited.contains(node) {
                    untouched
                } else {
                    Walked {
                        store: nodes.update(
                            node as int,
                            ControlledKind::Not.in_place(nodes[node as int]),
                        ),
                        seen: visited.insert(node),
                        done: false,
                    }
                }
            } else if qubit > target {
                proof {
                    assert(node_ok(nodes, node as int));
                }
                let first = swap_walk(nodes, one.1, target, visited, marked);
                if still_below(first.store, zero.1, nodes[node as int].rank()) {
                    swap_walk(first.store, zero.1, target, first.seen, marked)
                } else {
                    first
                }
            } else {
                untouched
            }
        },
    }
}

/// The walk of the controlled Z through the branch at `node`.
///
/// A terminal ends its path. A node whose two children are marked gets one
/// transformed copy in place of both. A node with one marked child gets a
/// transformed copy in its place. After such a copy the walk is `done`. A
/// node that tests `target` has the weight of its `one` edge negated, once.
/// A node above the target is entered, its `zero` child first, unless the
/// walk was done when it came to the node. A node below the target is left
/// alone.
pub open spec fn z_walk(
    nodes: Seq<DdNode>,
    node: NodeId,
    target: usize,
    visited: Set<NodeId>,
    marked: Set<NodeId>,
    done: bool,
) -> Walked
    decreases nodes[node as int].rank(),
    when ordered(nodes) && node < nodes.len()
{
    let untouched = Walked { store: nodes, seen: visited, done };
    match nodes[node as int] {
        DdNode::Terminal(_) => untouched,
        DdNode::NonTerminal { qubit, zero, one } => {
            if marked.contains(zero.1) && marked.contains(one.1) {
                let copied = copy_branch(nodes, one.1, target, ControlledKind::Z);
                Walked {
                    store: copied.store.update(
                        node as int,
                        with_zero_child(with_one_child(nodes[node as int], copied.id), copied.id),
                    ),
                    seen: visited,
                    done: true,
                }
            } else if marked.contains(one.1) {
                let copied = copy_branch(nodes, one.1, target, ControlledKind::Z);
                Walked {
                    store: copied.store.update(
                        node as int,
                        with_one_child(nodes[node as int], copied.id),
                    ),
                    seen: visited,
                    done: true,
                }
            } else if marked.contains(zero.1) {
                let copied = copy_branch(nodes, zero.1, target, ControlledKind::Z);
                Walked {
                    store: copied.store.update(
                        node as int,
                        with_zero_child(nodes[node as int], copied.id),
                    ),
                    seen: visited,
                    done: true,
                }
            } else if qubit == target {
                if visited.contains(node) {
                    untouched
                } else {
                    Walked {
                        store: nodes.update(
                            node as int,
                            ControlledKind::Z.in_place(nodes[node as int]),
                        ),
                        seen: visited.insert(node),
                        done,
                    }
                }
            } else if qubit > target {
                if done {
                    untouched
                } else {
                    proof {
                        assert(node_ok(nodes, node as int));
                    }
                    let first = z_walk(nodes, zero.1, target, visited, marked, done);
                    if still_below(first.store, one.1, nodes[node as int].rank()) {
                        z_walk(first.store, one.1, target, first.seen, marked, first.done)
                    } else {
                        first
                    }
                }
            } else {
                untouched
            }
        },
    }
}

/// Whether the trees that unfold from `a` and `b` have the same shape: the
/// same kinds of node, testing the same qubits, in the same places.
pub open spec fn same_shape(nodes: Seq<DdNode>, a: NodeId, b: NodeId) -> bool
    decreases nodes[a as int].rank(),
    when ordered(nodes) && a < nodes.len() && b < nodes.len()
{
    match (nodes[a as int], nodes[b as int]) {
        (DdNode::Terminal(_), DdNode::Terminal(_)) => true,
        (
            DdNode::NonTerminal { qubit: qubit_a, zero: zero_a, one: one_a },
            DdNode::NonTerminal { qubit: qubit_b, zero: zero_b, one: one_b },
        ) => {
            proof {
                assert(node_ok(nodes, a as int));
            }
            &&& qubit_a == qubit_b
            &&& same_shape(nodes, zero_a.1, zero_b.1)
            &&& same_shape(nodes, one_a.1, one_b.1)
        },
        _ => false,
    }
}

/// The outcome of a comparison of two trees: whether they agree, and the
/// number of measurements used so far.
pub struct Compared {
    pub agree: bool,
    pub used: nat,
}

/// The comparison of the trees that unfold from `a` and `b`, with the
/// measurements that `answers` gives, the first of them at `next`. A
/// measurement is the bit pattern of the magnitude of the difference of two
/// weights.
///
/// Two terminals agree if the measurement of their values is below the
/// tolerance. Two decision nodes agree if they test the same qubit, neither
/// the measurement of their `zero` weights nor that of their `one` weights
/// is above the tolerance, their `zero` children agree and their `one`
/// children agree. A terminal and a decision node do not agree. The
/// comparison ends with the first test that fails, and measures nothing
/// after it.
pub open spec fn agree_walk(
    nodes: Seq<DdNode>,
    a: NodeId,
    b: NodeId,
    answers: spec_fn(nat) -> u64,
    next: nat,
) -> Compared
    decreases nodes[a as int].rank(),
    when ordered(nodes) && a < nodes.len() && b < nodes.len()
{
    match (nodes[a as int], nodes[b as int]) {
        (DdNode::Terminal(_), DdNode::Terminal(_)) => Compared {
            agree: is_below_tolerance(answers(next)),
            used: next + 1,
        },
        (
            DdNode::NonTerminal { qubit: qubit_a, zero: zero_a, one: one_a },
            DdNode::NonTerminal { qubit: qubit_b, zero: zero_b, one: one_b },
        ) => {
            if qubit_a != qubit_b {
                Compared { agree: false, used: next }
            } else if is_above_tolerance(answers(next)) {
                Compared { agree: false, used: next + 1 }
            } else if is_above_tolerance(answers(next + 1)) {
                Compared { agree: false, used: next + 2 }
            } else {
                proof {
                    assert(node_ok(nodes, a as int));
                }
                let first = agree_walk(nodes, zero_a.1, zero_b.1, answers, next + 2);
                if first.agree {
                    agree_walk(nodes, one_a.1, one_b.1, answers, first.used)
                } else {
                    first
                }
            }
        },
        _ => Compared { agree: false, used: next },
    }
}

/// `answers` gives the measurements `taken`, the first of them at `next`.
pub open spec fn measures(answers: spec_fn(nat) -> u64, next: nat, taken: Seq<u64>) -> bool {
    forall|i: int| 0 <= i < taken.len() ==> answers((next + i) as nat) == #[trigger] taken[i]
}

/// Whatever answers give the measurements `taken`, the comparison of the
/// trees at `a` and `b` uses exactly these measurements and ends as `agree`
/// says.
pub open spec fn compares_to(
    nodes: Seq<DdNode>,
    a: NodeId,
    b: NodeId,
    taken: Seq<u64>,
    agree: bool,
) -> bool {
    forall|answers: spec_fn(nat) -> u64, next: nat|
        measures(answers, next, taken) ==> #[trigger] agree_walk(nodes, a, b, answers, next) == (
        Compared { agree, used: next + taken.len() })
}

/// The outcome of a gate on the nodes of a level: the store, and the fault
/// that ended it early, if any.
pub struct Folded {
    pub store: Seq<DdNode>,
    pub fault: Option<GateError>,
}

/// What a controlled gate does at one node `id` of the control's level.
///
/// If both edges of the node lead to the same child, the `one` edge gets a
/// transformed copy of that child. Otherwise the active path below the
/// `zero` edge is marked, the branch below the `one` edge is walked, and,
/// if `merge` says that the two branches then agree, the `one` edge is
/// pointed at the `zero` child.
pub open spec fn controlled_node(
    nodes: Seq<DdNode>,
    id: NodeId,
    target: usize,
    kind: ControlledKind,
    merge: bool,
) -> Folded {
    match nodes[id as int] {
        DdNode::Terminal(_) => Folded { store: nodes, fault: None },
        DdNode::NonTerminal { qubit, zero, one } => {
            if zero.1 == one.1 {
                let copied = copy_branch(nodes, one.1, target, kind);
                Folded {
                    store: copied.store.update(
                        id as int,
                        with_one_child(nodes[id as int], copied.id),
                    ),
                    fault: None,
                }
            } else {
                match mark_walk(nodes, zero.1, target, Set::empty()) {
                    Err(e) => Folded { store: nodes, fault: Some(e) },
                    Ok(marked) => {
                        let walked = match kind {
                            ControlledKind::Not => swap_walk(
                                nodes,
                                one.1,
                                target,
                                Set::empty(),
                                marked,
                            ),
                            ControlledKind::Z => z_walk(
                                nodes,
                                one.1,
                                target,
                                Set::empty(),
                                marked,
                                false,
                            ),
                        };
                        if merge {
                            Folded {
                                store: walked.store.update(
                                    id as int,
                                    with_one_child(nodes[id as int], zero.1),
                                ),
                                fault: None,
                            }
                        } else {
                            Folded { store: walked.store, fault: None }
                        }
                    },
                }
            }
        },
    }
}

/// Whether the decision `merge` can be taken at the node `id`: the two
/// branches are merged only where, after the walk, they have the same
/// shape.
pub open spec fn may_merge(
    nodes: Seq<DdNode>,
    id: NodeId,
    target: usize,
    kind: ControlledKind,
    merge: bool,
) -> bool {
    merge ==> match nodes[id as int] {
        DdNode::Terminal(_) => false,
        DdNode::NonTerminal { zero, one, .. } => {
            &&& zero.1 != one.1
            &&& match mark_walk(nodes, zero.1, target, Set::empty()) {
                Err(_) => false,
                Ok(marked) => {
                    let walked = match kind {
                        ControlledKind::Not => swap_walk(
                            nodes,
                            one.1,
                            target,
                            Set::empty(),
                            marked,
                        ),
                        ControlledKind::Z => z_walk(
                            nodes,
                            one.1,
                            target,
                            Set::empty(),
                            marked,
                            false,
                        ),
                    };
                    same_shape(walked.store, zero.1, one.1)
                },
            }
        },
    }
}

/// Whether the decision `merge` at the node `id` is the one that the
/// comparison of its two branches gives on the measurements `taken`. Where
/// the branches are not compared, because both edges lead to the same child
/// or the marking met a fault, nothing is measured and nothing is merged.
pub open spec fn merge_decided(
    nodes: Seq<DdNode>,
    id: NodeId,
    target: usize,
    kind: ControlledKind,
    merge: bool,
    taken: Seq<u64>,
) -> bool {
    let unasked = !merge && taken.len() == 0;
    match nodes[id as int] {
        DdNode::Terminal(_) => unasked,
        DdNode::NonTerminal { zero, one, .. } => {
            if zero.1 == one.1 {
                unasked
            } else {
                match mark_walk(nodes, zero.1, target, Set::empty()) {
                    Err(_) => unasked,
                    Ok(marked) => {
                        let walked = match kind {
                            ControlledKind::Not => swap_walk(
                                nodes,
                                one.1,
                                target,
                                Set::empty(),
                                marked,
                            ),
                            ControlledKind::Z => z_walk(
                                nodes,
                                one.1,
                                target,
                                Set::empty(),
                                marked,
                                false,
                            ),
                        };
                        compares_to(walked.store, zero.1, one.1, taken, merge)
                    },
                }
            }
        },
    }
}

/// The store after the first `count` nodes of `level` have been handled,
/// one after the other, `merges[k]` being the decision to merge at the
/// `k`-th. After a fault no further node is handled.
pub open spec fn controlled_fold(
    nodes: Seq<DdNode>,
    level: Seq<NodeId>,
    target: usize,
    kind: ControlledKind,
    merges: Seq<bool>,
    count: nat,
) -> Folded
    decreases count,
{
    if count == 0 {
        Folded { store: nodes, fault: None }
    } else {
        let earlier = controlled_fold(nodes, level, target, kind, merges, (count - 1) as nat);
        match earlier.fault {
            Some(_) => earlier,
            None => controlled_node(
                earlier.store,
                level[count - 1],
                target,
                kind,
                merges[count - 1],
            ),
        }
    }
}

/// What a controlled gate owes its caller.
///
/// With a qubit out of range it fails and the circuit is as it was.
/// Otherwise the nodes of the control's level are handled in order, up to
/// the first fault. Whether two branches agree within the tolerance is
/// decided by magnitudes that the platform computes, so the decisions to
/// merge are not fixed by the diagram: the store is the one that some
/// measurements give, the decision at each node being what the comparison
/// of its branches gives on the measurements taken there.
pub open spec fn controlled_outcome(
    before: QuantumCircuit,
    after: QuantumCircuit,
    control: usize,
    target: usize,
    kind: ControlledKind,
    result: Result<(), GateError>,
) -> bool {
    &&& after.wf()
    &&& after.root() == before.root()
    &&& after.qubits() == before.qubits()
    &&& keeps_levels(before.nodes(), after.nodes())
    &&& if control >= before.qubits() || target >= before.qubits() {
        &&& result == Err::<(), GateError>(GateError::QubitOutOfRange)
        &&& after.nodes() == before.nodes()
    } else {
        let level = level_of(before.nodes(), before.root(), control);
        exists|merges: Seq<bool>, taken: Seq<Seq<u64>>, count: nat|
            {
                &&& count <= level.len()
                &&& merges.len() == count
                &&& taken.len() == count
                &&& controlled_fold(before.nodes(), level, target, kind, merges, count) == (Folded {
                    store: after.nodes(),
                    fault: match result {
                        Ok(_) => None,
                        Err(e) => Some(e),
                    },
                })
                &&& result is Ok ==> count == level.len()
                &&& result is Err ==> result != Err::<(), GateError>(GateError::QubitOutOfRange)
                &&& #[trigger] merges_allowed(
                    before.nodes(),
                    level,
                    target,
                    kind,
                    merges,
                    taken,
                    count,
                )
            }
    }
}

/// Every decision among the first `count` is the one that the comparison
/// gives on the measurements taken at its node, and so merges only
/// branches of the same shape.
pub open spec fn merges_allowed(
    nodes: Seq<DdNode>,
    level: Seq<NodeId>,
    target: usize,
    kind: ControlledKind,
    merges: Seq<bool>,
    taken: Seq<Seq<u64>>,
    count: nat,
) -> bool {
    forall|k: int|
        0 <= k < count ==> {
            let store = (#[trigger] controlled_fold(
                nodes,
                level,
                target,
                kind,
                merges,
                k as nat,
            )).store;
            &&& may_merge(store, level[k], target, kind, merges[k])
            &&& merge_decided(store, level[k], target, kind, merges[k], taken[k])
        }
}

/// The fold looks at no decision beyond the nodes it handles.
pub proof fn lemma_fold_prefix(
    nodes: Seq<DdNode>,
    level: Seq<NodeId>,
    target: usize,
    kind: ControlledKind,
    merges: Seq<bool>,
    longer: Seq<bool>,
    count: nat,
)
    requires
        count <= merges.len() <= longer.len(),
        forall|k: int| 0 <= k < merges.len() ==> merges[k] == longer[k],
    ensures
        controlled_fold(nodes, level, target, kind, merges, count) == controlled_fold(
            nodes,
            level,
            target,
            kind,
            longer,
            count,
        ),
    decreases count,
{
    if count > 0 {
        lemma_fold_prefix(nodes, level, target, kind, merges, longer, (count - 1) as nat);
    }
}

impl QuantumCircuit {
    /// Marks the decision nodes on the active path from `node` towards the
    /// level of `target`.
    pub fn mark_nodes_of_other_branch(
        &self,
        node: NodeId,
        target: usize,
        marked: &mut HashSet<NodeId>,
    ) -> (r: Result<(), GateError>)
        requires
            self.wf(),
            node < self.nodes().len(),
        ensures
            match r {
                Ok(_) => mark_walk(self.nodes(), node, target, old(marked)@) == Ok::<
                    Set<NodeId>,
                    GateError,
                >(final(marked)@),
                Err(e) => mark_walk(self.nodes(), node, target, old(marked)@) == Err::<
                    Set<NodeId>,
                    GateError,
                >(e) && e == GateError::DeadNode,
            },
        decreases self.nodes()[node as int].rank(),
    {
        assert(node_ok(self.nodes(), node as int));
        match self.node(node) {
            DdNode::Terminal(_) => Ok(()),
            DdNode::NonTerminal { qubit, .. } => {
                marked.insert(node);
                if qubit > target {
                    match self.active_child(node) {
                        Ok(next) => self.mark_nodes_of_other_branch(next, target, marked),
                        Err(e) => Err(e),
                    }
                } else {
                    Ok(())
                }
            },
        }
    }

    /// Puts a transformed copy of the branch at `child` in the place of the
    /// `one` child of `node` (or of the `zero` child, or of both).
    fn graft_copy(
        &mut self,
        node: NodeId,
        child: NodeId,
        target: usize,
        kind: ControlledKind,
        at_zero: bool,
        at_one: bool,
    )
        requires
            sound(old(self).nodes(), old(self).qubits()),
            node < old(self).nodes().len(),
            child < old(self).nodes().len(),
            old(self).nodes()[node as int] is NonTerminal,
            old(self).nodes()[child as int].rank() < old(self).nodes()[node as int].rank(),
        ensures
            final(self).root() == old(self).root(),
            final(self).qubits() == old(self).qubits(),
            sound(final(self).nodes(), final(self).qubits()),
            keeps_levels(old(self).nodes(), final(self).nodes()),
            ({
                let copied = copy_branch(old(self).nodes(), child, target, kind);
                let current = old(self).nodes()[node as int];
                let with_one = if at_one {
                    with_one_child(current, copied.id)
                } else {
                    current
                };
                let grafted = if at_zero {
                    with_zero_child(with_one, copied.id)
                } else {
                    with_one
                };
                final(self).nodes() == copied.store.update(node as int, grafted)
            }),
    {
        let ghost before = self.nodes();
        assert(node_ok(before, node as int));
        let current = self.node(node);
        let mut memo: HashMap<NodeId, NodeId> = HashMap::new();
        let copy = match kind {
            ControlledKind::Not => self.deep_copy_with_swap(child, target, &mut memo),
            ControlledKind::Z => self.deep_copy_with_z(child, target, &mut memo),
        };
        let ghost copied = self.nodes();
        match current {
            DdNode::Terminal(_) => {},
            DdNode::NonTerminal { qubit, zero, one } => {
                let new_zero = if at_zero {
                    (zero.0, copy)
                } else {
                    zero
                };
                let new_one = if at_one {
                    (one.0, copy)
                } else {
                    one
                };
                let grafted = DdNode::NonTerminal { qubit, zero: new_zero, one: new_one };
                proof {
                    assert(copied[zero.1 as int] == before[zero.1 as int]);
                    assert(copied[one.1 as int] == before[one.1 as int]);
                    assert(copied[node as int] == before[node as int]);
                    lemma_update_keeps_sound(copied, node as int, grafted, self.qubits());
                    lemma_keeps_levels_trans(before, copied, copied.update(node as int, grafted));
                }
                self.set_node(node, grafted);
            },
        }
    }

    /// Changes the target-level node `node` in place.
    fn transform_in_place(&mut self, node: NodeId, kind: ControlledKind)
        requires
            sound(old(self).nodes(), old(self).qubits()),
            node < old(self).nodes().len(),
        ensures
            final(self).root() == old(self).root(),
            final(self).qubits() == old(self).qubits(),
            sound(final(self).nodes(), final(self).qubits()),
            keeps_levels(old(self).nodes(), final(self).nodes()),
            final(self).nodes() == old(self).nodes().update(
                node as int,
                kind.in_place(old(self).nodes()[node as int]),
            ),
    {
        let ghost before = self.nodes();
        assert(node_ok(before, node as int));
        let current = self.node(node);
        let changed = kind.rewrite_in_place(current);
        proof {
            lemma_update_keeps_sound(before, node as int, changed, self.qubits());
        }
        self.set_node(node, changed);
    }

    /// The walk of the controlled NOT through the branch at `node`.
    pub fn traverse_and_swap(
        &mut self,
        node: NodeId,
        target: usize,
        visited: &mut HashSet<NodeId>,
        marked: &HashSet<NodeId>,
    )
        requires
            sound(old(self).nodes(), old(self).qubits()),
            node < old(self).nodes().len(),
        ensures
            final(self).root() == old(self).root(),
            final(self).qubits() == old(self).qubits(),
            sound(final(self).nodes(), final(self).qubits()),
            keeps_levels(old(self).nodes(), final(self).nodes()),
            swap_walk(old(self).nodes(), node, target, old(visited)@, marked@) == (Walked {
                store: final(self).nodes(),
                seen: final(visited)@,
                done: false,
            }),
        decreases old(self).nodes()[node as int].rank(),
    {
        let ghost before = self.nodes();
        assert(node_ok(before, node as int));
        match self.node(node) {
            DdNode::Terminal(_) => {},
            DdNode::NonTerminal { qubit, zero, one } => {
                if marked.contains(&one.1) {
                    self.graft_copy(node, one.1, target, ControlledKind::Not, false, true);
                } else if marked.contains(&zero.1) {
                    self.graft_copy(node, zero.1, target, ControlledKind::Not, true, false);
                } else if qubit == target {
                    if !visited.contains(&node) {
                        visited.insert(node);
                        self.transform_in_place(node, ControlledKind::Not);
                    }
                } else if qubit > target {
                    self.traverse_and_swap(one.1, target, visited, marked);
                    let ghost middle = self.nodes();
                    assert(middle[zero.1 as int].same_level(before[zero.1 as int]));
                    self.traverse_and_swap(zero.1, target, visited, marked);
                    proof {
                        lemma_keeps_levels_trans(before, middle, self.nodes());
                    }
                }
            },
        }
    }

    /// The walk of the controlled Z through the branch at `node`.
    pub fn traverse_and_z(
        &mut self,
        node: NodeId,
        target: usize,
        visited: &mut HashSet<NodeId>,
        marked: &HashSet<NodeId>,
        done: &mut bool,
    )
        requires
            sound(old(self).nodes(), old(self).qubits()),
            node < old(self).nodes().len(),
        ensures
            final(self).root() == old(self).root(),
            final(self).qubits() == old(self).qubits(),
            sound(final(self).nodes(), final(self).qubits()),
            keeps_levels(old(self).nodes(), final(self).nodes()),
            z_walk(old(self).nodes(), node, target, old(visited)@, marked@, *old(done)) == (Walked {
                store: final(self).nodes(),
                seen: final(visited)@,
                done: *final(done),
            }),
        decreases old(self).nodes()[node as int].rank(),
    {
        let ghost before = self.nodes();
        assert(node_ok(before, node as int));
        match self.node(node) {
            DdNode::Terminal(_) => {},
            DdNode::NonTerminal { qubit, zero, one } => {
                let zero_marked = marked.contains(&zero.1);
                let one_marked = marked.contains(&one.1);
                if zero_marked && one_marked {
                    self.graft_copy(node, one.1, target, ControlledKind::Z, true, true);
                    *done = true;
                } else if one_marked {
                    self.graft_copy(node, one.1, target, ControlledKind::Z, false, true);
                    *done = true;
                } else if zero_marked {
                    self.graft_copy(node, zero.1, target, ControlledKind::Z, true, false);
                    *done = true;
                } else if qubit == target {
                    if !visited.contains(&node) {
                        visited.insert(node);
                        self.transform_in_place(node, ControlledKind::Z);
                    }
                } else if qubit > target {
                    if !*done {
                        self.traverse_and_z(zero.1, target, visited, marked, done);
                        let ghost middle = self.nodes();
                        assert(middle[one.1 as int].same_level(before[one.1 as int]));
                        self.traverse_and_z(one.1, target, visited, marked, done);
                        proof {
                            lemma_keeps_levels_trans(before, middle, self.nodes());
                        }
                    }
                }
            },
        }
    }

    /// Whether the magnitude of `a - b` is below the tolerance. The magnitude
    /// is measured by the platform: the result is the test of the bits of
    /// what was measured.
    fn weights_agree(a: num::complex::Complex64, b: num::complex::Complex64) -> (r: bool)
        ensures
            exists|measured: num::complex::Complex64|
                r == is_below_tolerance(#[trigger] real_bits_of(measured)),
    {
        let measured = magnitude(difference(a, b));
        let agree = below_tolerance(real_bits(measured));
        assert(agree == is_below_tolerance(real_bits_of(measured)));
        agree
    }

    /// Whether the magnitude of `a - b` is above the tolerance. The magnitude
    /// is measured by the platform: the result is the test of the bits of
    /// what was measured.
    fn weights_differ(a: num::complex::Complex64, b: num::complex::Complex64) -> (r: bool)
        ensures
            exists|measured: num::complex::Complex64|
                r == is_above_tolerance(#[trigger] real_bits_of(measured)),
    {
        let measured = magnitude(difference(a, b));
        let differ = above_tolerance(real_bits(measured));
        assert(differ == is_above_tolerance(real_bits_of(measured)));
        differ
    }

    /// Compares the trees that unfold from two nodes: the qubits have to be
    /// equal and the weights equal within the tolerance. Only trees of the
    /// same shape compare equal. The result is what [`agree_walk`] gives on
    /// the measurements that were taken, which are reported with it.
    pub(crate) fn compare_subtrees(&self, node_a: NodeId, node_b: NodeId) -> (r: (
        bool,
        Ghost<Seq<u64>>,
    ))
        requires
            self.wf(),
            node_a < self.nodes().len(),
            node_b < self.nodes().len(),
        ensures
            r.0 ==> same_shape(self.nodes(), node_a, node_b),
            compares_to(self.nodes(), node_a, node_b, r.1@, r.0),
        decreases self.nodes()[node_a as int].rank(),
    {
        let ghost nodes = self.nodes();
        assert(node_ok(nodes, node_a as int));
        assert(node_ok(nodes, node_b as int));
        match (self.node(node_a), self.node(node_b)) {
            (DdNode::Terminal(amp_a), DdNode::Terminal(amp_b)) => {
                let agree = Self::weights_agree(amp_a, amp_b);
                let ghost bits = real_bits_of(
                    choose|measured: num::complex::Complex64|
                        agree == is_below_tolerance(#[trigger] real_bits_of(measured)),
                );
                let ghost taken = seq![bits];
                proof {
                    assert forall|answers: spec_fn(nat) -> u64, next: nat|
                        measures(answers, next, taken) implies answers(next) == bits by {
                        assert(answers((next + 0) as nat) == taken[0]);
                    }
                }
                (agree, Ghost(taken))
            },
            (
                DdNode::NonTerminal { qubit: qubit_a, zero: zero_a, one: one_a },
                DdNode::NonTerminal { qubit: qubit_b, zero: zero_b, one: one_b },
            ) => {
                if qubit_a != qubit_b {
                    return (false, Ghost(Seq::empty()));
                }
                let zero_differs = Self::weights_differ(zero_a.0, zero_b.0);
                let ghost zero_bits = real_bits_of(
                    choose|measured: num::complex::Complex64|
                        zero_differs == is_above_tolerance(#[trigger] real_bits_of(measured)),
                );
                if zero_differs {
                    let ghost taken = seq![zero_bits];
                    proof {
                        assert forall|answers: spec_fn(nat) -> u64, next: nat|
                            measures(answers, next, taken) implies answers(next)
                            == zero_bits by {
                            assert(answers((next + 0) as nat) == taken[0]);
                        }
                    }
                    return (false, Ghost(taken));
                }
                let one_differs = Self::weights_differ(one_a.0, one_b.0);
                let ghost one_bits = real_bits_of(
                    choose|measured: num::complex::Complex64|
                        one_differs == is_above_tolerance(#[trigger] real_bits_of(measured)),
                );
                let ghost weights = seq![zero_bits, one_bits];
                proof {
                    assert forall|answers: spec_fn(nat) -> u64, next: nat|
                        measures(answers, next, weights) implies answers(next) == zero_bits
                        && answers(next + 1) == one_bits by {
                        assert(answers((next + 0) as nat) == weights[0]);
                        assert(answers((next + 1) as nat) == weights[1]);
                    }
                }
                if one_differs {
                    return (false, Ghost(weights));
                }
                let first = self.compare_subtrees(zero_a.1, zero_b.1);
                let ghost upto_first = weights + first.1@;
                proof {
                    assert forall|answers: spec_fn(nat) -> u64, next: nat|
                        measures(answers, next, upto_first) implies measures(
                        answers,
                        next,
                        weights,
                    ) && measures(answers, next + 2, first.1@) by {
                        assert forall|i: int| 0 <= i < weights.len() implies answers(
                            (next + i) as nat,
                        ) == #[trigger] weights[i] by {
                            assert(upto_first[i] == weights[i]);
                        }
                        assert forall|i: int| 0 <= i < first.1@.len() implies answers(
                            (next + 2 + i) as nat,
                        ) == #[trigger] first.1@[i] by {
                            assert(upto_first[2 + i] == first.1@[i]);
                        }
                    }
                }
                if !first.0 {
                    proof {
                        assert forall|answers: spec_fn(nat) -> u64, next: nat|
                            measures(answers, next, upto_first) implies #[trigger] agree_walk(
                            nodes,
                            node_a,
                            node_b,
                            answers,
                            next,
                        ) == (Compared { agree: false, used: next + upto_first.len() }) by {
                            let inner = agree_walk(nodes, zero_a.1, zero_b.1, answers, next + 2);
                            assert(!inner.agree);
                        }
                    }
                    return (false, Ghost(upto_first));
                }
                let second = self.compare_subtrees(one_a.1, one_b.1);
                let ghost taken = upto_first + second.1@;
                proof {
                    assert forall|answers: spec_fn(nat) -> u64, next: nat|
                        measures(answers, next, taken) implies #[trigger] agree_walk(
                        nodes,
                        node_a,
                        node_b,
                        answers,
                        next,
                    ) == (Compared { agree: second.0, used: next + taken.len() }) by {
                        assert forall|i: int| 0 <= i < upto_first.len() implies answers(
                            (next + i) as nat,
                        ) == #[trigger] upto_first[i] by {
                            assert(taken[i] == upto_first[i]);
                        }
                        assert forall|i: int| 0 <= i < second.1@.len() implies answers(
                            (next + upto_first.len() + i) as nat,
                        ) == #[trigger] second.1@[i] by {
                            assert(taken[upto_first.len() + i] == second.1@[i]);
                        }
                        assert(measures(answers, next, upto_first));
                        assert(measures(answers, next + upto_first.len(), second.1@));
                        let inner = agree_walk(nodes, zero_a.1, zero_b.1, answers, next + 2);
                        assert(inner.agree);
                        assert(inner.used == next + upto_first.len());
                        let outer = agree_walk(nodes, one_a.1, one_b.1, answers, inner.used);
                        assert(outer.agree == second.0);
                    }
                }
                (second.0, Ghost(taken))
            },
            _ => (false, Ghost(Seq::empty())),
        }
    }

    /// Handles one node of the control's level, and reports whether it
    /// merged the two branches, and the measurements that decided it.
    fn controlled_step(&mut self, id: NodeId, target: usize, kind: ControlledKind) -> (r: (
        Result<(), GateError>,
        bool,
        Ghost<Seq<u64>>,
    ))
        requires
            old(self).wf(),
            id < old(self).nodes().len(),
        ensures
            final(self).wf(),
            final(self).root() == old(self).root(),
            final(self).qubits() == old(self).qubits(),
            keeps_levels(old(self).nodes(), final(self).nodes()),
            controlled_node(old(self).nodes(), id, target, kind, r.1) == (Folded {
                store: final(self).nodes(),
                fault: match r.0 {
                    Ok(_) => None,
                    Err(e) => Some(e),
                },
            }),
            r.0 is Err ==> r.0 != Err::<(), GateError>(GateError::QubitOutOfRange),
            may_merge(old(self).nodes(), id, target, kind, r.1),
            merge_decided(old(self).nodes(), id, target, kind, r.1, r.2@),
    {
        let ghost before = self.nodes();
        assert(node_ok(before, id as int));
        match self.node(id) {
            DdNode::Terminal(_) => (Ok(()), false, Ghost(Seq::empty())),
            DdNode::NonTerminal { qubit, zero, one } => {
                if zero.1 == one.1 {
                    self.graft_copy(id, one.1, target, kind, false, true);
                    (Ok(()), false, Ghost(Seq::empty()))
                } else {
                    let mut marked: HashSet<NodeId> = HashSet::new();
                    match self.mark_nodes_of_other_branch(zero.1, target, &mut marked) {
                        Err(e) => {
                            return (Err(e), false, Ghost(Seq::empty()));
                        },
                        Ok(_) => {},
                    }
                    let mut visited: HashSet<NodeId> = HashSet::new();
                    match kind {
                        ControlledKind::Not => {
                            self.traverse_and_swap(one.1, target, &mut visited, &marked);
                        },
                        ControlledKind::Z => {
                            let mut done = false;
                            self.traverse_and_z(one.1, target, &mut visited, &marked, &mut done);
                        },
                    }
                    let ghost walked = self.nodes();
                    let compared = self.compare_subtrees(zero.1, one.1);
                    let similar = compared.0;
                    if similar {
                        let merged = DdNode::NonTerminal { qubit, zero, one: (one.0, zero.1) };
                        proof {
                            assert(walked[zero.1 as int].same_level(before[zero.1 as int]));
                            assert(walked[id as int].same_level(before[id as int]));
                            lemma_update_keeps_sound(walked, id as int, merged, self.qubits());
                            lemma_keeps_levels_trans(
                                before,
                                walked,
                                walked.update(id as int, merged),
                            );
                        }
                        self.set_node(id, merged);
                    }
                    (Ok(()), similar, compared.1)
                }
            },
        }
    }

    /// Applies a controlled gate.
    pub fn apply_controlled(&mut self, control: usize, target: usize, kind: ControlledKind) -> (r:
        Result<(), GateError>)
        requires
            old(self).wf(),
        ensures
            controlled_outcome(*old(self), *final(self), control, target, kind, r),
    {
        if control >= self.num_qubits() || target >= self.num_qubits() {
            proof {
                assert(keeps_levels(self.nodes(), self.nodes()));
            }
            return Err(GateError::QubitOutOfRange);
        }
        let level = self.level_nodes(control);
        let ghost before = self.nodes();
        let ghost mut merges: Seq<bool> = Seq::empty();
        let ghost mut taken: Seq<Seq<u64>> = Seq::empty();
        proof {
            lemma_level_walk(before, self.root(), control, Set::empty());
        }
        let mut k: usize = 0;
        while k < level.len()
            invariant
                k <= level.len(),
                self.wf(),
                self.root() == old(self).root(),
                self.qubits() == old(self).qubits(),
                before == old(self).nodes(),
                level@ == level_of(before, old(self).root(), control),
                forall|j: int| 0 <= j < level@.len() ==> (#[trigger] level@[j]) < before.len(),
                keeps_levels(before, self.nodes()),
                merges.len() == k,
                taken.len() == k,
                control < old(self).qubits(),
                target < old(self).qubits(),
                controlled_fold(before, level@, target, kind, merges, k as nat) == (Folded {
                    store: self.nodes(),
                    fault: None,
                }),
                merges_allowed(before, level@, target, kind, merges, taken, k as nat),
            decreases level.len() - k,
        {
            let id = level[k];
            let ghost current = self.nodes();
            let step = self.controlled_step(id, target, kind);
            proof {
                let longer = merges.push(step.1);
                let more = taken.push(step.2@);
                lemma_fold_prefix(before, level@, target, kind, merges, longer, k as nat);
                lemma_keeps_levels_trans(before, current, self.nodes());
                assert forall|j: int| 0 <= j < k + 1 implies {
                    let store = (#[trigger] controlled_fold(
                        before,
                        level@,
                        target,
                        kind,
                        longer,
                        j as nat,
                    )).store;
                    &&& may_merge(store, level@[j], target, kind, longer[j])
                    &&& merge_decided(store, level@[j], target, kind, longer[j], more[j])
                } by {
                    lemma_fold_prefix(before, level@, target, kind, merges, longer, j as nat);
                    if j < k {
                        assert(longer[j] == merges[j]);
                        assert(more[j] == taken[j]);
                        let earlier = controlled_fold(
                            before,
                            level@,
                            target,
                            kind,
                            merges,
                            j as nat,
                        ).store;
                        assert(may_merge(earlier, level@[j], target, kind, merges[j]));
                        assert(merge_decided(
                            earlier,
                            level@[j],
                            target,
                            kind,
                            merges[j],
                            taken[j],
                        ));
                    }
                }
                merges = longer;
                taken = more;
                assert(merges_allowed(before, level@, target, kind, merges, taken, (k + 1) as nat));
            }
            k = k + 1;
            match step.0 {
                Err(e) => {
                    return Err(e);
                },
                Ok(_) => {},
            }
        }
        Ok(())
    }

    /// The controlled NOT: where the control is 1, the target is flipped.
    pub fn apply_cnot(&mut self, control: usize, target: usize) -> (r: Result<(), GateError>)
        requires
            old(self).wf(),
        ensures
            controlled_outcome(*old(self), *final(self), control, target, ControlledKind::Not, r),
    {
        self.apply_controlled(control, target, ControlledKind::Not)
    }

    /// The controlled Z: where the control is 1, the sign of the target's
    /// `one` branch is flipped.
    pub fn apply_cz(&mut self, control: usize, target: usize) -> (r: Result<(), GateError>)
        requires
            old(self).wf(),
        ensures
            controlled_outcome(*old(self), *final(self), control, target, ControlledKind::Z, r),
    {
        self.apply_controlled(control, target, ControlledKind::Z)
    }
}

} // verus!
