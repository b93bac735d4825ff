//! What a copy of a branch stands for: the tree of the branch with the
//! transform made at the target's level.

use vstd::prelude::*;
use crate::copy::{copy_child, copy_walk, lemma_memo_survives, memo_ok, ControlledKind, Copied};
use crate::node::{extends, lemma_push_keeps_sound, node_ok, ordered, sound, DdNode, NodeId};
use crate::unfold::{lemma_unfold_in_extension, unfold, Tree};
use crate::weight::{minus_one_weight, product_of};

verus! {

/// The tree of a target-level node after the transform that a copy gets.
pub open spec fn transformed_top(tree: Tree, kind: ControlledKind) -> Tree {
    match tree {
        Tree::Leaf(_) => tree,
        Tree::Branch { qubit, zero, one } => match kind {
            ControlledKind::Not => Tree::Branch { qubit, zero: one, one: zero },
            ControlledKind::Z => Tree::Branch {
                qubit,
                zero,
                one: (product_of(minus_one_weight(), one.0), one.1),
            },
        },
    }
}

/// The tree with the transform made at every topmost node that tests
/// `target`. Nothing below such a node is changed.
pub open spec fn transformed(tree: Tree, target: usize, kind: ControlledKind) -> Tree
    decreases tree,
{
    match tree {
        Tree::Leaf(_) => tree,
        Tree::Branch { qubit, zero, one } => {
            if qubit == target {
                transformed_top(tree, kind)
            } else {
                Tree::Branch {
                    qubit,
                    zero: (zero.0, Box::new(transformed(*zero.1, target, kind))),
                    one: (one.0, Box::new(transformed(*one.1, target, kind))),
                }
            }
        },
    }
}

/// Every entry of the memo leads to a node that unfolds to the transformed
/// tree of its key.
pub open spec fn memo_denotes(
    base: Seq<DdNode>,
    store: Seq<DdNode>,
    memo: Map<NodeId, NodeId>,
    target: usize,
    kind: ControlledKind,
) -> bool {
    forall|key: NodeId| #[trigger]
        memo.contains_key(key) ==> unfold(store, memo[key]) == transformed(
            unfold(base, key),
            target,
            kind,
        )
}

/// What holds of the outcome of a copy.
pub open spec fn copy_is_faithful(
    base: Seq<DdNode>,
    node: NodeId,
    target: usize,
    kind: ControlledKind,
    store: Seq<DdNode>,
    copied: Copied,
    num_qubits: usize,
) -> bool {
    &&& sound(copied.store, num_qubits)
    &&& extends(store, copied.store)
    &&& memo_ok(base, copied.store, copied.memo)
    &&& memo_denotes(base, copied.store, copied.memo, target, kind)
    &&& copied.id < copied.store.len()
    &&& copied.store[copied.id as int].rank() == base[node as int].rank()
    &&& unfold(copied.store, copied.id) == transformed(unfold(base, node), target, kind)
}

/// A memo that denotes in a store denotes in every store that extends it.
pub proof fn lemma_memo_denotes_survives(
    base: Seq<DdNode>,
    store: Seq<DdNode>,
    later: Seq<DdNode>,
    memo: Map<NodeId, NodeId>,
    target: usize,
    kind: ControlledKind,
    num_qubits: usize,
)
    requires
        sound(store, num_qubits),
        sound(later, num_qubits),
        extends(store, later),
        memo_ok(base, store, memo),
        memo_denotes(base, store, memo, target, kind),
    ensures
        memo_denotes(base, later, memo, target, kind),
{
    assert forall|key: NodeId| #[trigger] memo.contains_key(key) implies unfold(later, memo[key])
        == transformed(unfold(base, key), target, kind) by {
        lemma_unfold_in_extension(store, later, memo[key]);
    }
}

/// Copying never shortens the store.
pub proof fn lemma_copy_child_grows(
    base: Seq<DdNode>,
    child: NodeId,
    target: usize,
    kind: ControlledKind,
    store: Seq<DdNode>,
    memo: Map<NodeId, NodeId>,
    rank: nat,
)
    ensures
        copy_child(base, child, target, kind, store, memo, rank).store.len() >= store.len(),
    decreases rank, 0nat,
{
    if !memo.contains_key(child) && child < base.len() && base[child as int].rank() < rank {
        lemma_copy_walk_grows(base, child, target, kind, store, memo);
    }
}

/// Copying never shortens the store.
pub proof fn lemma_copy_walk_grows(
    base: Seq<DdNode>,
    node: NodeId,
    target: usize,
    kind: ControlledKind,
    store: Seq<DdNode>,
    memo: Map<NodeId, NodeId>,
)
    ensures
        copy_walk(base, node, target, kind, store, memo).store.len() >= store.len(),
    decreases base[node as int].rank(), 1nat,
{
    match base[node as int] {
        DdNode::Terminal(_) => {},
        DdNode::NonTerminal { qubit, zero, one } => {
            if qubit != target {
                let rank = base[node as int].rank();
                lemma_copy_child_grows(base, zero.1, target, kind, store, memo, rank);
                let first = copy_child(base, zero.1, target, kind, store, memo, rank);
                lemma_copy_child_grows(base, one.1, target, kind, first.store, first.memo, rank);
            }
        },
    }
}

/// The copy of a child unfolds to the transformed tree of the child.
pub proof fn lemma_copy_child(
    base: Seq<DdNode>,
    child: NodeId,
    target: usize,
    kind: ControlledKind,
    store: Seq<DdNode>,
    memo: Map<NodeId, NodeId>,
    rank: nat,
    num_qubits: usize,
)
    requires
        sound(base, num_qubits),
        sound(store, num_qubits),
        extends(base, store),
        child < base.len(),
        base[child as int].rank() < rank,
        memo_ok(base, store, memo),
        memo_denotes(base, store, memo, target, kind),
        copy_child(base, child, target, kind, store, memo, rank).store.len() <= usize::MAX,
    ensures
        copy_is_faithful(
            base,
            child,
            target,
            kind,
            store,
            copy_child(base, child, target, kind, store, memo, rank),
            num_qubits,
        ),
    decreases rank, 0nat,
{
    if memo.contains_key(child) {
    } else {
        lemma_copy_walk(base, child, target, kind, store, memo, num_qubits);
        let copied = copy_walk(base, child, target, kind, store, memo);
        let entered = copied.memo.insert(child, copied.id);
        assert forall|key: NodeId| #[trigger] entered.contains_key(key) implies {
            &&& key < base.len()
            &&& entered[key] < copied.store.len()
            &&& copied.store[entered[key] as int].rank() == base[key as int].rank()
        } by {
            if key != child {
                assert(copied.memo.contains_key(key));
            }
        }
        assert forall|key: NodeId| #[trigger] entered.contains_key(key) implies unfold(
            copied.store,
            entered[key],
        ) == transformed(unfold(base, key), target, kind) by {
            if key != child {
                assert(copied.memo.contains_key(key));
            }
        }
    }
}

/// The copy of a branch unfolds to the transformed tree of the branch.
pub proof fn lemma_copy_walk(
    base: Seq<DdNode>,
    node: NodeId,
    target: usize,
    kind: ControlledKind,
    store: Seq<DdNode>,
    memo: Map<NodeId, NodeId>,
    num_qubits: usize,
)
    requires
        sound(base, num_qubits),
        sound(store, num_qubits),
        extends(base, store),
        node < base.len(),
        memo_ok(base, store, memo),
        memo_denotes(base, store, memo, target, kind),
        copy_walk(base, node, target, kind, store, memo).store.len() <= usize::MAX,
    ensures
        copy_is_faithful(
            base,
            node,
            target,
            kind,
            store,
            copy_walk(base, node, target, kind, store, memo),
            num_qubits,
        ),
    decreases base[node as int].rank(), 1nat,
{
    assert(node_ok(base, node as int));
    let copied = copy_walk(base, node, target, kind, store, memo);
    match base[node as int] {
        DdNode::Terminal(value) => {
            lemma_push_keeps_sound(store, DdNode::Terminal(value), num_qubits);
            lemma_memo_survives(base, store, copied.store, memo);
            lemma_memo_denotes_survives(base, store, copied.store, memo, target, kind, num_qubits);
        },
        DdNode::NonTerminal { qubit, zero, one } => {
            if qubit == target {
                let fresh = kind.in_copy(base[node as int]);
                assert(store[zero.1 as int] == base[zero.1 as int]);
                assert(store[one.1 as int] == base[one.1 as int]);
                lemma_push_keeps_sound(store, fresh, num_qubits);
                lemma_memo_survives(base, store, copied.store, memo);
                lemma_memo_denotes_survives(
                    base,
                    store,
                    copied.store,
                    memo,
                    target,
                    kind,
                    num_qubits,
                );
                lemma_unfold_in_extension(base, copied.store, zero.1);
                lemma_unfold_in_extension(base, copied.store, one.1);
                assert(node_ok(copied.store, copied.id as int));
            } else {
                let rank = base[node as int].rank();
                let first = copy_child(base, zero.1, target, kind, store, memo, rank);
                lemma_copy_child_grows(base, one.1, target, kind, first.store, first.memo, rank);
                lemma_copy_child(base, zero.1, target, kind, store, memo, rank, num_qubits);
                lemma_copy_child(
                    base,
                    one.1,
                    target,
                    kind,
                    first.store,
                    first.memo,
                    rank,
                    num_qubits,
                );
                let second = copy_child(base, one.1, target, kind, first.store, first.memo, rank);
                let fresh = DdNode::NonTerminal {
                    qubit,
                    zero: (zero.0, first.id),
                    one: (one.0, second.id),
                };
                assert(second.store[first.id as int] == first.store[first.id as int]);
                lemma_push_keeps_sound(second.store, fresh, num_qubits);
                lemma_memo_survives(base, second.store, copied.store, second.memo);
                lemma_memo_denotes_survives(
                    base,
                    second.store,
                    copied.store,
                    second.memo,
                    target,
                    kind,
                    num_qubits,
                );
                lemma_unfold_in_extension(first.store, second.store, first.id);
                lemma_unfold_in_extension(second.store, copied.store, first.id);
                lemma_unfold_in_extension(second.store, copied.store, second.id);
                assert(node_ok(copied.store, copied.id as int));
                assert forall|id: int| 0 <= id < store.len() implies #[trigger] copied.store[id]
                    == store[id] by {
                    assert(first.store[id] == store[id]);
                    assert(second.store[id] == first.store[id]);
                }
            }
        },
    }
}

/// Every node that the store holds beyond its first `old_len` nodes is a
/// copy: at the target's level it has the children of the node it was
/// copied from, elsewhere its children are copies too.
pub open spec fn copies_ok(old_len: nat, store: Seq<DdNode>, target: usize) -> bool {
    forall|id: int| old_len <= id < store.len() ==> is_copy(old_len, #[trigger] store[id], target)
}

/// Whether `node` can be a copy in a store that had `old_len` nodes before
/// the copying.
pub open spec fn is_copy(old_len: nat, node: DdNode, target: usize) -> bool {
    match node {
        DdNode::Terminal(_) => true,
        DdNode::NonTerminal { qubit, zero, one } => if qubit == target {
            zero.1 < old_len && one.1 < old_len
        } else {
            zero.1 >= old_len && one.1 >= old_len
        },
    }
}

/// Every entry of the memo leads to a copy.
pub open spec fn memo_fresh(old_len: nat, memo: Map<NodeId, NodeId>) -> bool {
    forall|key: NodeId| #[trigger] memo.contains_key(key) ==> memo[key] >= old_len
}

/// What holds of the shape of the outcome of a copy.
pub open spec fn copy_is_apart(base: Seq<DdNode>, target: usize, copied: Copied) -> bool {
    &&& copies_ok(base.len(), copied.store, target)
    &&& memo_fresh(base.len(), copied.memo)
    &&& copied.id >= base.len()
}

/// The copy of a child keeps apart from the nodes it was made from, but
/// below the target's level.
pub proof fn lemma_copy_child_shape(
    base: Seq<DdNode>,
    child: NodeId,
    target: usize,
    kind: ControlledKind,
    store: Seq<DdNode>,
    memo: Map<NodeId, NodeId>,
    rank: nat,
)
    requires
        ordered(base),
        base.len() <= store.len(),
        child < base.len(),
        base[child as int].rank() < rank,
        copies_ok(base.len(), store, target),
        memo_fresh(base.len(), memo),
        copy_child(base, child, target, kind, store, memo, rank).store.len() <= usize::MAX,
    ensures
        copy_is_apart(base, target, copy_child(base, child, target, kind, store, memo, rank)),
    decreases rank, 0nat,
{
    if memo.contains_key(child) {
    } else {
        lemma_copy_walk_shape(base, child, target, kind, store, memo);
        let copied = copy_walk(base, child, target, kind, store, memo);
        let entered = copied.memo.insert(child, copied.id);
        assert forall|key: NodeId| #[trigger] entered.contains_key(key) implies entered[key]
            >= base.len() by {
            if key != child {
                assert(copied.memo.contains_key(key));
            }
        }
    }
}

/// The copy of a branch keeps apart from the nodes it was made from, but
/// below the target's level.
pub proof fn lemma_copy_walk_shape(
    base: Seq<DdNode>,
    node: NodeId,
    target: usize,
    kind: ControlledKind,
    store: Seq<DdNode>,
    memo: Map<NodeId, NodeId>,
)
    requires
        ordered(base),
        base.len() <= store.len(),
        node < base.len(),
        copies_ok(base.len(), store, target),
        memo_fresh(base.len(), memo),
        copy_walk(base, node, target, kind, store, memo).store.len() <= usize::MAX,
    ensures
        copy_is_apart(base, target, copy_walk(base, node, target, kind, store, memo)),
    decreases base[node as int].rank(), 1nat,
{
    assert(node_ok(base, node as int));
    let copied = copy_walk(base, node, target, kind, store, memo);
    match base[node as int] {
        DdNode::Terminal(value) => {
            assert forall|id: int| base.len() <= id < copied.store.len() implies is_copy(
                base.len(),
                #[trigger] copied.store[id],
                target,
            ) by {
                if id < store.len() {
                    assert(copied.store[id] == store[id]);
                }
            }
        },
        DdNode::NonTerminal { qubit, zero, one } => {
            if qubit == target {
                assert forall|id: int| base.len() <= id < copied.store.len() implies is_copy(
                    base.len(),
                    #[trigger] copied.store[id],
                    target,
                ) by {
                    if id < store.len() {
                        assert(copied.store[id] == store[id]);
                    }
                }
            } else {
                let rank = base[node as int].rank();
                let first = copy_child(base, zero.1, target, kind, store, memo, rank);
                lemma_copy_child_grows(base, zero.1, target, kind, store, memo, rank);
                lemma_copy_child_grows(base, one.1, target, kind, first.store, first.memo, rank);
                lemma_copy_child_shape(base, zero.1, target, kind, store, memo, rank);
                lemma_copy_child_shape(base, one.1, target, kind, first.store, first.memo, rank);
                let second = copy_child(base, one.1, target, kind, first.store, first.memo, rank);
                assert forall|id: int| base.len() <= id < copied.store.len() implies is_copy(
                    base.len(),
                    #[trigger] copied.store[id],
                    target,
                ) by {
                    if id < second.store.len() {
                        assert(copied.store[id] == second.store[id]);
                    }
                }
            }
        },
    }
}

} // verus!
