//! Reading the amplitudes back: the full state vector.

use vstd::prelude::*;
use num::complex::Complex64;
use crate::circuit::QuantumCircuit;
use crate::node::{node_ok, ordered, DdNode, NodeId, SINK_QUBIT};
use crate::unfold::{lemma_state_of_unfolding, tree_state, unfold};
use crate::weight::{gaussian_weight, one_weight, plus, product_of, sum_of, times, zero_weight};

verus! {

/// The qubits below `num_qubits` whose bit in `mask` is clear, in
/// ascending order: the positions that a path has left undecided.
pub open spec fn free_positions(mask: usize, num_qubits: nat) -> Seq<usize>
    decreases num_qubits,
{
    if num_qubits == 0 {
        Seq::empty()
    } else {
        let below = free_positions(mask, (num_qubits - 1) as nat);
        let qubit = (num_qubits - 1) as usize;
        if mask & (1usize << qubit) == 0 {
            below.push(qubit)
        } else {
            below
        }
    }
}

/// `base` with the low bits of `combo` moved to the first `count` of the
/// `positions`: bit `i` of `combo` becomes bit `positions[i]`.
pub open spec fn scatter(base: usize, combo: usize, positions: Seq<usize>, count: nat) -> usize
    decreases count,
{
    if count == 0 {
        base
    } else {
        let below = scatter(base, combo, positions, (count - 1) as nat);
        let place = (count - 1) as usize;
        if (combo >> place) & 1 == 1 {
            below | (1usize << positions[place as int])
        } else {
            below
        }
    }
}

/// `vector` after `amplitude` has been added at the indices that the first
/// `combos` combinations of the free positions give, one after the other.
pub open spec fn spread(
    vector: Seq<Complex64>,
    amplitude: Complex64,
    base: usize,
    positions: Seq<usize>,
    combos: nat,
) -> Seq<Complex64>
    decreases combos,
{
    if combos == 0 {
        vector
    } else {
        let below = spread(vector, amplitude, base, positions, (combos - 1) as nat);
        let index = scatter(base, (combos - 1) as usize, positions, positions.len());
        below.update(index as int, sum_of(below[index as int], amplitude))
    }
}

/// `vector` after `amplitude` has been added at every index that agrees
/// with `base` on the decided positions: both values of every undecided
/// qubit get the same amplitude.
pub open spec fn distribute(
    vector: Seq<Complex64>,
    amplitude: Complex64,
    base: usize,
    mask: usize,
    num_qubits: usize,
) -> Seq<Complex64> {
    let positions = free_positions(mask, num_qubits as nat);
    spread(vector, amplitude, base, positions, (1usize << (positions.len() as usize)) as nat)
}

/// `vector` after the depth-first traversal from `node` has added its
/// amplitudes.
///
/// `amplitude` is the product of the weights on the way to `node`, `index`
/// holds the bits decided on the way, and `mask` the positions decided. At a
/// terminal the amplitude times the terminal's value is distributed; at the
/// sink the amplitude itself. A decision node marks its qubit as decided and
/// sends the traversal down its `zero` edge with the bit clear, then down
/// its `one` edge with the bit set.
pub open spec fn amplitudes_from(
    nodes: Seq<DdNode>,
    node: NodeId,
    amplitude: Complex64,
    index: usize,
    mask: usize,
    num_qubits: usize,
    vector: Seq<Complex64>,
) -> Seq<Complex64>
    decreases nodes[node as int].rank(),
    when ordered(nodes) && node < nodes.len()
{
    match nodes[node as int] {
        DdNode::Terminal(value) => distribute(
            vector,
            product_of(amplitude, value),
            index,
            mask,
            num_qubits,
        ),
        DdNode::NonTerminal { qubit, zero, one } => {
            if qubit == SINK_QUBIT {
                distribute(vector, amplitude, index, mask, num_qubits)
            } else {
                proof {
                    assert(node_ok(nodes, node as int));
                }
                let decided = mask | (1usize << qubit);
                let after_zero = amplitudes_from(
                    nodes,
                    zero.1,
                    product_of(amplitude, zero.0),
                    index,
                    decided,
                    num_qubits,
                    vector,
                );
                amplitudes_from(
                    nodes,
                    one.1,
                    product_of(amplitude, one.0),
                    index | (1usize << qubit),
                    decided,
                    num_qubits,
                    after_zero,
                )
            }
        },
    }
}

/// The vector of 2^n zeros that the traversal starts from.
pub open spec fn zero_vector(num_qubits: usize) -> Seq<Complex64> {
    Seq::new((1usize << num_qubits) as nat, |i: int| zero_weight())
}

/// The state vector of a diagram: bit `k` of an index is the value of
/// qubit `k`.
pub open spec fn state_vector(nodes: Seq<DdNode>, root: NodeId, num_qubits: usize) -> Seq<
    Complex64,
> {
    amplitudes_from(nodes, root, one_weight(), 0, 0, num_qubits, zero_vector(num_qubits))
}

proof fn lemma_set_bit_in_range(index: usize, qubit: usize, num_qubits: usize)
    requires
        num_qubits < usize::BITS,
        qubit < num_qubits,
        index < (1usize << num_qubits),
    ensures
        (index | (1usize << qubit)) < (1usize << num_qubits),
{
    assert((index | (1usize << qubit)) < (1usize << num_qubits)) by (bit_vector)
        requires
            num_qubits < usize::BITS,
            qubit < num_qubits,
            index < (1usize << num_qubits),
    ;
}

proof fn lemma_shift_grows(count: usize, num_qubits: usize)
    requires
        num_qubits < usize::BITS,
        count <= num_qubits,
    ensures
        0 < (1usize << count) <= (1usize << num_qubits),
{
    assert(0 < (1usize << count) <= (1usize << num_qubits)) by (bit_vector)
        requires
            num_qubits < usize::BITS,
            count <= num_qubits,
    ;
}

/// The free positions are qubits of the circuit, and there are no more of
/// them than qubits.
proof fn lemma_free_positions(mask: usize, num_qubits: nat)
    ensures
        free_positions(mask, num_qubits).len() <= num_qubits,
        forall|i: int|
            0 <= i < free_positions(mask, num_qubits).len() ==> (#[trigger] free_positions(
                mask,
                num_qubits,
            )[i]) < num_qubits,
    decreases num_qubits,
{
    if num_qubits > 0 {
        lemma_free_positions(mask, (num_qubits - 1) as nat);
    }
}

/// Scattering bits to positions below `num_qubits` keeps an index in range.
proof fn lemma_scatter_in_range(
    base: usize,
    combo: usize,
    positions: Seq<usize>,
    count: nat,
    num_qubits: usize,
)
    requires
        num_qubits < usize::BITS,
        base < (1usize << num_qubits),
        count <= positions.len() <= usize::MAX,
        forall|i: int| 0 <= i < positions.len() ==> (#[trigger] positions[i]) < num_qubits,
    ensures
        scatter(base, combo, positions, count) < (1usize << num_qubits),
    decreases count,
{
    if count > 0 {
        lemma_scatter_in_range(base, combo, positions, (count - 1) as nat, num_qubits);
        let below = scatter(base, combo, positions, (count - 1) as nat);
        lemma_set_bit_in_range(below, positions[count - 1], num_qubits);
    }
}

impl QuantumCircuit {
    /// The full state vector: 2^n amplitudes, bit `k` of an index being the
    /// value of qubit `k`. It is the state vector of the tree that unfolds
    /// from the root: sharing changes no amplitude.
    pub fn get_state_vector(&self) -> (state: Vec<Complex64>)
        requires
            self.wf(),
            self.qubits() < usize::BITS,
        ensures
            state@ == state_vector(self.nodes(), self.root(), self.qubits()),
            state@ == tree_state(unfold(self.nodes(), self.root()), self.qubits()),
            state@.len() == (1usize << self.qubits()),
    {
        proof {
            lemma_state_of_unfolding(self.nodes(), self.root(), self.qubits());
        }
        let n = self.num_qubits();
        let zero = gaussian_weight(0, 0);
        let size: usize = 1usize << n;
        let mut state: Vec<Complex64> = Vec::new();
        let mut filled: usize = 0;
        while filled < size
            invariant
                filled <= size,
                zero == zero_weight(),
                state@.len() == filled,
                forall|i: int| 0 <= i < filled ==> state@[i] == zero_weight(),
            decreases size - filled,
        {
            state.push(zero);
            filled = filled + 1;
        }
        assert(state@ =~= zero_vector(n));
        proof {
            lemma_shift_grows(0, n);
            assert(1usize << 0usize == 1) by (bit_vector);
        }
        self.traverse_for_statevector(self.root_id(), gaussian_weight(1, 0), 0, 0, &mut state);
        state
    }

    /// Adds to `state_vector` the amplitudes of the paths that start at
    /// `node` with the given amplitude, index and mask.
    pub fn traverse_for_statevector(
        &self,
        node: NodeId,
        current_amplitude: Complex64,
        current_index: usize,
        mask: usize,
        state_vector: &mut Vec<Complex64>,
    )
        requires
            self.wf(),
            self.qubits() < usize::BITS,
            node < self.nodes().len(),
            current_index < (1usize << self.qubits()),
            old(state_vector)@.len() == (1usize << self.qubits()),
        ensures
            final(state_vector)@ == amplitudes_from(
                self.nodes(),
                node,
                current_amplitude,
                current_index,
                mask,
                self.qubits(),
                old(state_vector)@,
            ),
            final(state_vector)@.len() == old(state_vector)@.len(),
        decreases self.nodes()[node as int].rank(),
    {
        assert(node_ok(self.nodes(), node as int));
        match self.node(node) {
            DdNode::Terminal(value) => {
                let final_amp = times(current_amplitude, value);
                self.distribute_amplitude(final_amp, current_index, mask, state_vector);
            },
            DdNode::NonTerminal { qubit, zero, one } => {
                if qubit == SINK_QUBIT {
                    self.distribute_amplitude(current_amplitude, current_index, mask, state_vector);
                } else {
                    let new_mask = mask | (1usize << qubit);
                    let amp_zero = times(current_amplitude, zero.0);
                    self.traverse_for_statevector(
                        zero.1,
                        amp_zero,
                        current_index,
                        new_mask,
                        state_vector,
                    );
                    let amp_one = times(current_amplitude, one.0);
                    proof {
                        lemma_set_bit_in_range(current_index, qubit, self.qubits());
                    }
                    let index_one = current_index | (1usize << qubit);
                    self.traverse_for_statevector(
                        one.1,
                        amp_one,
                        index_one,
                        new_mask,
                        state_vector,
                    );
                }
            },
        }
    }

    /// Adds `amplitude` at every index that agrees with `base_index` on the
    /// positions set in `mask`.
    pub fn distribute_amplitude(
        &self,
        amplitude: Complex64,
        base_index: usize,
        mask: usize,
        state_vector: &mut Vec<Complex64>,
    )
        requires
            self.qubits() < usize::BITS,
            base_index < (1usize << self.qubits()),
            old(state_vector)@.len() == (1usize << self.qubits()),
        ensures
            final(state_vector)@ == distribute(
                old(state_vector)@,
                amplitude,
                base_index,
                mask,
                self.qubits(),
            ),
            final(state_vector)@.len() == old(state_vector)@.len(),
    {
        let n = self.num_qubits();
        let mut remaining_qubits: Vec<usize> = Vec::new();
        let mut q: usize = 0;
        while q < n
            invariant
                q <= n,
                n < usize::BITS,
                remaining_qubits@ == free_positions(mask, q as nat),
            decreases n - q,
        {
            if (mask & (1usize << q)) == 0 {
                remaining_qubits.push(q);
            }
            q = q + 1;
        }
        let num_remaining = remaining_qubits.len();
        proof {
            lemma_free_positions(mask, n as nat);
            lemma_shift_grows(num_remaining, n);
        }
        let combinations: usize = 1usize << num_remaining;
        let ghost before = state_vector@;
        let mut combo: usize = 0;
        while combo < combinations
            invariant
                combo <= combinations,
                n == self.qubits(),
                n < usize::BITS,
                num_remaining == remaining_qubits@.len(),
                num_remaining <= n,
                base_index < (1usize << n),
                before.len() == (1usize << n),
                forall|i: int|
                    0 <= i < remaining_qubits@.len() ==> (#[trigger] remaining_qubits@[i]) < n,
                state_vector@ == spread(
                    before,
                    amplitude,
                    base_index,
                    remaining_qubits@,
                    combo as nat,
                ),
                state_vector@.len() == before.len(),
            decreases combinations - combo,
        {
            let mut final_index = base_index;
            let mut i: usize = 0;
            while i < num_remaining
                invariant
                    i <= num_remaining,
                    n < usize::BITS,
                    num_remaining == remaining_qubits@.len(),
                    num_remaining <= n,
                    base_index < (1usize << n),
                    forall|j: int|
                        0 <= j < remaining_qubits@.len() ==> (#[trigger] remaining_qubits@[j]) < n,
                    final_index == scatter(base_index, combo, remaining_qubits@, i as nat),
                decreases num_remaining - i,
            {
                let qubit = remaining_qubits[i];
                if (combo >> i) & 1 == 1 {
                    final_index = final_index | (1usize << qubit);
                }
                i = i + 1;
            }
            proof {
                lemma_scatter_in_range(
                    base_index,
                    combo,
                    remaining_qubits@,
                    num_remaining as nat,
                    n,
                );
            }
            let sum = plus(state_vector[final_index], amplitude);
            state_vector.set(final_index, sum);
            combo = combo + 1;
        }
    }
}

} // verus!
