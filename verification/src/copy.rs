//! Copying a branch down to the target level, for the controlled gates.

use std::collections::HashMap;
use vstd::prelude::*;
use crate::circuit::QuantumCircuit;
use crate::gates::EdgeRewrite;
use crate::node::{extends, lemma_push_keeps_sound, node_ok, sound, DdNode, NodeId};
use crate::weight::{gaussian_weight, minus_one_weight, product_of, times};

verus! {

broadcast use vstd::std_specs::hash::group_hash_axioms;

/// Which controlled gate is applied: what happens to a node of the target
/// level in the branch where the control is 1.
#[derive(Clone, Copy, Debug, PartialEq, Eq, Structural)]
pub enum ControlledKind {
    /// Controlled NOT: the two edges change places.
    Not,
    /// Controlled Z: the weight of the `one` edge changes sign.
    Z,
}

impl ControlledKind {
    /// The target-level node after the transform has been applied to it in
    /// place.
    pub open spec fn in_place(self, node: DdNode) -> DdNode {
        match self {
            ControlledKind::Not => EdgeRewrite::Swap.apply(node),
            ControlledKind::Z => EdgeRewrite::Phase(minus_one_weight()).apply(node),
        }
    }

    /// The copy that stands for a target-level node after the transform.
    /// For the controlled Z the sign is multiplied from the left.
    pub open spec fn in_copy(self, node: DdNode) -> DdNode {
        match self {
            ControlledKind::Not => EdgeRewrite::Swap.apply(node),
            ControlledKind::Z => match node {
                DdNode::Terminal(_) => node,
                DdNode::NonTerminal { qubit, zero, one } => DdNode::NonTerminal {
                    qubit,
                    zero,
                    one: (product_of(minus_one_weight(), one.0), one.1),
                },
            },
        }
    }

    /// Applies the transform to a target-level node in place.
    pub fn rewrite_in_place(&self, node: DdNode) -> (r: DdNode)
        ensures
            r == self.in_place(node),
    {
        match self {
            ControlledKind::Not => EdgeRewrite::Swap.rewrite(node),
            ControlledKind::Z => EdgeRewrite::Phase(gaussian_weight(-1, 0)).rewrite(node),
        }
    }

    /// Makes the copy that stands for a target-level node after the
    /// transform.
    pub fn rewrite_in_copy(&self, node: DdNode) -> (r: DdNode)
        ensures
            r == self.in_copy(node),
    {
        match self {
            ControlledKind::Not => EdgeRewrite::Swap.rewrite(node),
            ControlledKind::Z => match node {
                DdNode::Terminal(_) => node,
                DdNode::NonTerminal { qubit, zero, one } => DdNode::NonTerminal {
                    qubit,
                    zero,
                    one: (times(gaussian_weight(-1, 0), one.0), one.1),
                },
            },
        }
    }
}

/// The outcome of copying a branch: the store with the copies added at its
/// end, the memo of what has been copied, and the handle of the copy.
pub struct Copied {
    pub store: Seq<DdNode>,
    pub memo: Map<NodeId, NodeId>,
    pub id: NodeId,
}

/// Copies the child `child` of a node that is being copied, unless the memo
/// already holds a copy of it; a fresh copy is entered in the memo.
pub open spec fn copy_child(
    base: Seq<DdNode>,
    child: NodeId,
    target: usize,
    kind: ControlledKind,
    store: Seq<DdNode>,
    memo: Map<NodeId, NodeId>,
    rank: nat,
) -> Copied
    decreases rank, 0nat,
{
    if memo.contains_key(child) {
        Copied { store, memo, id: memo[child] }
    } else if child < base.len() && base[child as int].rank() < rank {
        let copied = copy_walk(base, child, target, kind, store, memo);
        Copied { store: copied.store, memo: copied.memo.insert(child, copied.id), id: copied.id }
    } else {
        Copied { store, memo, id: child }
    }
}

/// Copies the branch of `base` that starts at `node`, adding the copies to
/// `store`.
///
/// A terminal is copied. A node that tests `target` is copied with the
/// transform applied; the copy keeps the children of the node, which are
/// not copied.
/// Any other decision node is copied after its children, the `zero` child
/// first; a child that the memo knows is not copied again, so what is
/// shared in the branch is shared in its copy.
pub open spec fn copy_walk(
    base: Seq<DdNode>,
    node: NodeId,
    target: usize,
    kind: ControlledKind,
    store: Seq<DdNode>,
    memo: Map<NodeId, NodeId>,
) -> Copied
    decreases base[node as int].rank(), 1nat,
{
    match base[node as int] {
        DdNode::Terminal(value) => Copied {
            store: store.push(DdNode::Terminal(value)),
            memo,
            id: store.len() as usize,
        },
        DdNode::NonTerminal { qubit, zero, one } => {
            if qubit == target {
                Copied {
                    store: store.push(kind.in_copy(base[node as int])),
                    memo,
                    id: store.len() as usize,
                }
            } else {
                let rank = base[node as int].rank();
                let first = copy_child(base, zero.1, target, kind, store, memo, rank);
                let second = copy_child(base, one.1, target, kind, first.store, first.memo, rank);
                Copied {
                    store: second.store.push(
                        DdNode::NonTerminal {
                            qubit,
                            zero: (zero.0, first.id),
                            one: (one.0, second.id),
                        },
                    ),
                    memo: second.memo,
                    id: second.store.len() as usize,
                }
            }
        },
    }
}

/// The outcome of copying the branch at `node` of the store `nodes` into
/// that store, with an empty memo.
pub open spec fn copy_branch(
    nodes: Seq<DdNode>,
    node: NodeId,
    target: usize,
    kind: ControlledKind,
) -> Copied {
    copy_walk(nodes, node, target, kind, nodes, Map::empty())
}

/// Every entry of the memo maps a node of `base` to a node of `store` of
/// the same rank.
pub open spec fn memo_ok(base: Seq<DdNode>, store: Seq<DdNode>, memo: Map<NodeId, NodeId>) -> bool {
    forall|key: NodeId| #[trigger]
        memo.contains_key(key) ==> {
            &&& key < base.len()
            &&& memo[key] < store.len()
            &&& store[memo[key] as int].rank() == base[key as int].rank()
        }
}

impl QuantumCircuit {
    /// Copies the branch at `node` down to the level of `target`, where the
    /// copy has its edges swapped, and returns the handle of the copy. A
    /// node that `visited` knows is not copied again.
    pub fn deep_copy_with_swap(
        &mut self,
        node: NodeId,
        target: usize,
        visited: &mut HashMap<NodeId, NodeId>,
    ) -> (copy: NodeId)
        requires
            sound(old(self).nodes(), old(self).qubits()),
            node < old(self).nodes().len(),
            memo_ok(old(self).nodes(), old(self).nodes(), old(visited)@),
        ensures
            sound(final(self).nodes(), final(self).qubits()),
            final(self).root() == old(self).root(),
            final(self).qubits() == old(self).qubits(),
            extends(old(self).nodes(), final(self).nodes()),
            memo_ok(old(self).nodes(), final(self).nodes(), final(visited)@),
            copy < final(self).nodes().len(),
            final(self).nodes()[copy as int].rank() == old(self).nodes()[node as int].rank(),
            copy_walk(
                old(self).nodes(),
                node,
                target,
                ControlledKind::Not,
                old(self).nodes(),
                old(visited)@,
            ) == (Copied { store: final(self).nodes(), memo: final(visited)@, id: copy }),
    {
        let ghost base = self.nodes();
        self.deep_copy(node, target, ControlledKind::Not, visited, Ghost(base))
    }

    /// Copies the branch at `node` down to the level of `target`, where the
    /// copy has the weight of its `one` edge negated, and returns the handle
    /// of the copy. A node that `visited` knows is not copied again.
    pub fn deep_copy_with_z(
        &mut self,
        node: NodeId,
        target: usize,
        visited: &mut HashMap<NodeId, NodeId>,
    ) -> (copy: NodeId)
        requires
            sound(old(self).nodes(), old(self).qubits()),
            node < old(self).nodes().len(),
            memo_ok(old(self).nodes(), old(self).nodes(), old(visited)@),
        ensures
            sound(final(self).nodes(), final(self).qubits()),
            final(self).root() == old(self).root(),
            final(self).qubits() == old(self).qubits(),
            extends(old(self).nodes(), final(self).nodes()),
            memo_ok(old(self).nodes(), final(self).nodes(), final(visited)@),
            copy < final(self).nodes().len(),
            final(self).nodes()[copy as int].rank() == old(self).nodes()[node as int].rank(),
            copy_walk(
                old(self).nodes(),
                node,
                target,
                ControlledKind::Z,
                old(self).nodes(),
                old(visited)@,
            ) == (Copied { store: final(self).nodes(), memo: final(visited)@, id: copy }),
    {
        let ghost base = self.nodes();
        self.deep_copy(node, target, ControlledKind::Z, visited, Ghost(base))
    }

    /// Copies the branch at `node` down to the level of `target`, where the
    /// transform is made in the copy, and returns the handle of the copy.
    /// `base` is the store as it was when the copying began: nothing of it
    /// is changed.
    fn deep_copy(
        &mut self,
        node: NodeId,
        target: usize,
        kind: ControlledKind,
        visited: &mut HashMap<NodeId, NodeId>,
        Ghost(base): Ghost<Seq<DdNode>>,
    ) -> (copy: NodeId)
        requires
            sound(base, old(self).qubits()),
            sound(old(self).nodes(), old(self).qubits()),
            extends(base, old(self).nodes()),
            node < base.len(),
            memo_ok(base, old(self).nodes(), old(visited)@),
        ensures
            final(self).root() == old(self).root(),
            final(self).qubits() == old(self).qubits(),
            sound(final(self).nodes(), final(self).qubits()),
            extends(old(self).nodes(), final(self).nodes()),
            memo_ok(base, final(self).nodes(), final(visited)@),
            copy < final(self).nodes().len(),
            final(self).nodes()[copy as int].rank() == base[node as int].rank(),
            copy_walk(base, node, target, kind, old(self).nodes(), old(visited)@) == (Copied {
                store: final(self).nodes(),
                memo: final(visited)@,
                id: copy,
            }),
        decreases base[node as int].rank(), 1nat,
    {
        let ghost store = self.nodes();
        assert(node_ok(base, node as int));
        assert(node_ok(store, node as int));
        let current = self.node(node);
        match current {
            DdNode::Terminal(value) => {
                proof {
                    lemma_push_keeps_sound(store, DdNode::Terminal(value), self.qubits());
                }
                let copy = self.add_node(DdNode::Terminal(value));
                proof {
                    lemma_memo_survives(base, store, self.nodes(), visited@);
                }
                copy
            },
            DdNode::NonTerminal { qubit, zero, one } => {
                if qubit == target {
                    let fresh = kind.rewrite_in_copy(current);
                    proof {
                        lemma_push_keeps_sound(store, fresh, self.qubits());
                    }
                    let copy = self.add_node(fresh);
                    proof {
                        lemma_memo_survives(base, store, self.nodes(), visited@);
                    }
                    copy
                } else {
                    let ghost rank = base[node as int].rank();
                    let new_zero = self.copy_child(
                        zero.1,
                        target,
                        kind,
                        visited,
                        Ghost(base),
                        Ghost(rank),
                    );
                    let ghost middle = self.nodes();
                    let new_one = self.copy_child(
                        one.1,
                        target,
                        kind,
                        visited,
                        Ghost(base),
                        Ghost(rank),
                    );
                    let ghost late = self.nodes();
                    let fresh = DdNode::NonTerminal {
                        qubit,
                        zero: (zero.0, new_zero),
                        one: (one.0, new_one),
                    };
                    proof {
                        assert(late[new_zero as int] == middle[new_zero as int]);
                        lemma_push_keeps_sound(late, fresh, self.qubits());
                    }
                    let copy = self.add_node(fresh);
                    proof {
                        lemma_memo_survives(base, late, self.nodes(), visited@);
                    }
                    copy
                }
            },
        }
    }

    /// Copies one child of a node that is being copied, or finds its copy in
    /// the memo.
    fn copy_child(
        &mut self,
        child: NodeId,
        target: usize,
        kind: ControlledKind,
        visited: &mut HashMap<NodeId, NodeId>,
        Ghost(base): Ghost<Seq<DdNode>>,
        Ghost(rank): Ghost<nat>,
    ) -> (copy: NodeId)
        requires
            sound(base, old(self).qubits()),
            sound(old(self).nodes(), old(self).qubits()),
            extends(base, old(self).nodes()),
            child < base.len(),
            base[child as int].rank() < rank,
            memo_ok(base, old(self).nodes(), old(visited)@),
        ensures
            final(self).root() == old(self).root(),
            final(self).qubits() == old(self).qubits(),
            sound(final(self).nodes(), final(self).qubits()),
            extends(old(self).nodes(), final(self).nodes()),
            memo_ok(base, final(self).nodes(), final(visited)@),
            copy < final(self).nodes().len(),
            final(self).nodes()[copy as int].rank() == base[child as int].rank(),
            copy_child(base, child, target, kind, old(self).nodes(), old(visited)@, rank)
                == (Copied { store: final(self).nodes(), memo: final(visited)@, id: copy }),
        decreases rank, 0nat,
    {
        match visited.get(&child) {
            Some(existing) => *existing,
            None => {
                let copy = self.deep_copy(child, target, kind, visited, Ghost(base));
                visited.insert(child, copy);
                copy
            },
        }
    }
}

/// A memo that was good for a store is good for every store that extends
/// it.
pub proof fn lemma_memo_survives(
    base: Seq<DdNode>,
    store: Seq<DdNode>,
    later: Seq<DdNode>,
    memo: Map<NodeId, NodeId>,
)
    requires
        memo_ok(base, store, memo),
        extends(store, later),
    ensures
        memo_ok(base, later, memo),
{
    assert forall|key: NodeId| #[trigger] memo.contains_key(key) implies {
        &&& key < base.len()
        &&& memo[key] < later.len()
        &&& later[memo[key] as int].rank() == base[key as int].rank()
    } by {
        assert(later[memo[key] as int] == store[memo[key] as int]);
    }
}

} // verus!
