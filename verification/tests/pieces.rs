use num::complex::Complex64;
use qdd_rs::circuit::lies_below;
use qdd_rs::gates::{eighth_turn, eighth_turn_back};
use qdd_rs::hadamard::Mix;
use qdd_rs::weight::difference;
use qdd_rs::{
    find_parent_of_common_node, ControlledKind, DdNode, EdgeRewrite, GateError, QuantumCircuit,
};
use std::collections::{HashMap, HashSet};

const ZERO: Complex64 = Complex64::new(0.0, 0.0);
const ONE: Complex64 = Complex64::new(1.0, 0.0);

fn c(re: f64, im: f64) -> Complex64 {
    Complex64::new(re, im)
}

fn sink() -> DdNode {
    DdNode::NonTerminal { qubit: usize::MAX, zero: (ZERO, 0), one: (ZERO, 0) }
}

fn edges(node: DdNode) -> (usize, (Complex64, usize), (Complex64, usize)) {
    match node {
        DdNode::NonTerminal { qubit, zero, one } => (qubit, zero, one),
        DdNode::Terminal(_) => panic!("a decision node was expected"),
    }
}

#[test]
fn default_node_is_a_zero_terminal() {
    match DdNode::default() {
        DdNode::Terminal(value) => assert_eq!(value, ZERO),
        DdNode::NonTerminal { .. } => panic!("the default node is a terminal"),
    }
}

#[test]
fn edge_rewrites_on_one_node() {
    let node = DdNode::NonTerminal { qubit: 3, zero: (c(2.0, 0.0), 7), one: (c(0.0, 3.0), 9) };
    assert_eq!(edges(EdgeRewrite::Swap.rewrite(node)), (3, (c(0.0, 3.0), 9), (c(2.0, 0.0), 7)));
    assert_eq!(
        edges(EdgeRewrite::Phase(c(0.0, 1.0)).rewrite(node)),
        (3, (c(2.0, 0.0), 7), (c(-3.0, 0.0), 9))
    );
    assert_eq!(
        edges(EdgeRewrite::SwapWithPhases.rewrite(node)),
        (3, (c(-3.0, 0.0), 9), (c(0.0, -2.0), 7))
    );
    assert_eq!(
        edges(EdgeRewrite::Weights(c(0.5, 0.0), c(0.25, 0.0)).rewrite(node)),
        (3, (c(0.5, 0.0), 7), (c(0.25, 0.0), 9))
    );
    match EdgeRewrite::Swap.rewrite(DdNode::Terminal(ONE)) {
        DdNode::Terminal(value) => assert_eq!(value, ONE),
        DdNode::NonTerminal { .. } => panic!("a terminal stays a terminal"),
    }
}

#[test]
fn controlled_rewrites_on_one_node() {
    let node = DdNode::NonTerminal { qubit: 0, zero: (c(2.0, 0.0), 1), one: (c(0.0, 3.0), 0) };
    let swapped = (0, (c(0.0, 3.0), 0), (c(2.0, 0.0), 1));
    assert_eq!(edges(ControlledKind::Not.rewrite_in_place(node)), swapped);
    assert_eq!(edges(ControlledKind::Not.rewrite_in_copy(node)), swapped);
    let negated = (0, (c(2.0, 0.0), 1), (c(0.0, -3.0), 0));
    assert_eq!(edges(ControlledKind::Z.rewrite_in_place(node)), negated);
    assert_eq!(edges(ControlledKind::Z.rewrite_in_copy(node)), negated);
}

#[test]
fn lies_below_follows_the_variable_order() {
    let terminal = DdNode::Terminal(ZERO);
    let low = DdNode::NonTerminal { qubit: 0, zero: (ONE, 0), one: (ONE, 0) };
    let high = DdNode::NonTerminal { qubit: 5, zero: (ONE, 0), one: (ONE, 0) };
    assert!(lies_below(&terminal, &sink()));
    assert!(lies_below(&terminal, &low));
    assert!(lies_below(&sink(), &low));
    assert!(lies_below(&low, &high));
    assert!(!lies_below(&high, &low));
    assert!(!lies_below(&low, &low));
    assert!(!lies_below(&low, &sink()));
    assert!(!lies_below(&sink(), &sink()));
    assert!(!lies_below(&terminal, &terminal));
    assert!(!lies_below(&sink(), &terminal));
}

#[test]
fn active_child_follows_the_first_edge_with_weight() {
    let nodes = vec![
        DdNode::Terminal(ZERO),
        sink(),
        DdNode::NonTerminal { qubit: 0, zero: (ONE, 1), one: (ONE, 0) },
        DdNode::NonTerminal { qubit: 1, zero: (ZERO, 0), one: (c(0.0, -1.0), 2) },
        DdNode::NonTerminal { qubit: 2, zero: (c(-0.0, 0.0), 3), one: (ZERO, 2) },
    ];
    let sim = QuantumCircuit::from_nodes(nodes, 4, 3).unwrap();
    assert_eq!(sim.active_child(2), Ok(1));
    assert_eq!(sim.active_child(3), Ok(2));
    assert_eq!(sim.active_child(4), Err(GateError::DeadNode));
    assert_eq!(sim.active_child(1), Err(GateError::DeadNode));
    assert_eq!(sim.active_child(0), Err(GateError::TerminalNode));
}

#[test]
fn common_parents_are_found_where_the_active_paths_meet() {
    let nodes = vec![
        DdNode::Terminal(ZERO),
        sink(),
        DdNode::NonTerminal { qubit: 0, zero: (ONE, 1), one: (ZERO, 0) },
        DdNode::NonTerminal { qubit: 1, zero: (ONE, 2), one: (ZERO, 0) },
        DdNode::NonTerminal { qubit: 1, zero: (ZERO, 0), one: (ONE, 2) },
        DdNode::NonTerminal { qubit: 2, zero: (ONE, 3), one: (ZERO, 0) },
        DdNode::NonTerminal { qubit: 2, zero: (ONE, 4), one: (ZERO, 0) },
        DdNode::NonTerminal { qubit: 3, zero: (ONE, 5), one: (ONE, 6) },
    ];
    let sim = QuantumCircuit::from_nodes(nodes, 7, 4).unwrap();
    assert_eq!(find_parent_of_common_node(&sim, 3, 4), Ok((3, 4)));
    assert_eq!(find_parent_of_common_node(&sim, 5, 6), Ok((3, 4)));
    assert_eq!(find_parent_of_common_node(&sim, 2, 2), Ok((2, 2)));
    assert_eq!(find_parent_of_common_node(&sim, 2, 3), Err(GateError::DeadNode));
    assert_eq!(find_parent_of_common_node(&sim, 0, 3), Err(GateError::TerminalNode));
}

#[test]
fn marking_follows_the_active_path_down_to_the_target() {
    let sim = QuantumCircuit::new(4);
    let mut marked = HashSet::new();
    assert_eq!(sim.mark_nodes_of_other_branch(sim.root_id(), 1, &mut marked), Ok(()));
    let mut ids: Vec<usize> = marked.into_iter().collect();
    ids.sort();
    assert_eq!(ids, vec![3, 4, 5]);
    let mut marked = HashSet::new();
    assert_eq!(sim.mark_nodes_of_other_branch(0, 1, &mut marked), Ok(()));
    assert!(marked.is_empty());
    // The sink has no active child.
    let mut marked = HashSet::new();
    assert_eq!(
        sim.mark_nodes_of_other_branch(1, 0, &mut marked),
        Err(GateError::DeadNode)
    );
}

#[test]
fn deep_copy_copies_down_to_the_target_and_shares_below() {
    let mut sim = QuantumCircuit::new(3);
    sim.apply_h(1).unwrap();
    let before = sim.store_len();
    let mut memo = HashMap::new();
    let copy = sim.deep_copy_with_swap(sim.root_id(), 1, &mut memo);
    // The root and the node that tests qubit 1 are copied; both edges of
    // the old node led to one child, so one copy serves both.
    assert_eq!(sim.store_len(), before + 3);
    let (qubit, zero, one) = edges(sim.node(copy));
    assert_eq!(qubit, 2);
    assert_eq!(zero.0, ONE);
    assert!(zero.1 >= before && one.1 >= before);
    let (qubit, low_zero, low_one) = edges(sim.node(zero.1));
    assert_eq!(qubit, 1);
    // At the target the children are the old ones.
    assert_eq!(low_zero.1, 2);
    assert_eq!(low_one.1, 2);
    assert_eq!(memo.len(), 2);
    // The old nodes are as they were.
    assert_eq!(sim.count_nodes(), (1, 4));
    let mut memo = HashMap::new();
    let copy = sim.deep_copy_with_z(3, 1, &mut memo);
    let (_, zero, one) = edges(sim.node(copy));
    let (_, old_zero, old_one) = edges(sim.node(3));
    assert_eq!(zero, old_zero);
    assert_eq!(one, (-old_one.0, old_one.1));
}

#[test]
fn walk_swaps_each_target_node_once() {
    let mut sim = QuantumCircuit::new(2);
    sim.apply_h(1).unwrap();
    let mut visited = HashSet::new();
    let marked = HashSet::new();
    let (_, before_zero, before_one) = edges(sim.node(2));
    // Both edges of the root lead to node 2: the walk meets it twice.
    sim.traverse_and_swap(sim.root_id(), 0, &mut visited, &marked);
    let (_, zero, one) = edges(sim.node(2));
    assert_eq!((zero, one), (before_one, before_zero));
    assert_eq!(visited.len(), 1);
    let mut done = false;
    let mut visited = HashSet::new();
    sim.traverse_and_z(sim.root_id(), 0, &mut visited, &marked, &mut done);
    let (_, zero, one) = edges(sim.node(2));
    assert_eq!(zero, before_one);
    assert_eq!(one, (-before_zero.0, before_zero.1));
    assert!(!done);
}

#[test]
fn walk_copies_where_a_child_is_marked() {
    let mut sim = QuantumCircuit::new(2);
    let before = sim.store_len();
    let mut visited = HashSet::new();
    let mut marked = HashSet::new();
    marked.insert(2);
    sim.traverse_and_swap(sim.root_id(), 0, &mut visited, &marked);
    assert_eq!(sim.store_len(), before + 1);
    let (_, zero, _) = edges(sim.node(sim.root_id()));
    assert_eq!(zero.1, before);
    assert!(visited.is_empty());
    // The state has the target flipped.
    assert_eq!(sim.get_state_vector(), vec![ZERO, ONE, ZERO, ZERO]);
    let mut done = false;
    let mut marked = HashSet::new();
    marked.insert(before);
    sim.traverse_and_z(sim.root_id(), 0, &mut visited, &marked, &mut done);
    assert!(done);
    assert_eq!(sim.get_state_vector(), vec![ZERO, -ONE, ZERO, ZERO]);
}

#[test]
fn distribute_fills_the_undecided_positions() {
    let sim = QuantumCircuit::new(3);
    let mut state = vec![ZERO; 8];
    let amplitude = c(0.0, 2.0);
    // Qubit 1 is decided as 1; qubits 0 and 2 are open.
    sim.distribute_amplitude(amplitude, 0b010, 0b010, &mut state);
    for i in 0..8 {
        let expected = if i & 0b010 != 0 { amplitude } else { ZERO };
        assert_eq!(state[i], expected);
    }
    // All decided: one index.
    sim.distribute_amplitude(ONE, 0b101, 0b111, &mut state);
    assert_eq!(state[0b101], ONE);
    // A second visit adds.
    sim.distribute_amplitude(ONE, 0b101, 0b111, &mut state);
    assert_eq!(state[0b101], c(2.0, 0.0));
}

#[test]
fn traversal_from_a_node_adds_its_paths() {
    let sim = QuantumCircuit::new(2);
    let mut state = vec![ZERO; 4];
    // From the node that tests qubit 0, with qubit 1 decided as 1.
    sim.traverse_for_statevector(2, c(0.5, 0.0), 0b10, 0b10, &mut state);
    assert_eq!(state, vec![ZERO, ZERO, c(0.5, 0.0), ZERO]);
}

#[test]
fn mix_at_a_shared_child_follows_the_measurements() {
    let tiny = 1e-13f64.to_bits();
    let large = 1.0f64.to_bits();
    let scale = c(0.5, 0.0);
    let make = || {
        let nodes = vec![
            DdNode::Terminal(ZERO),
            sink(),
            DdNode::NonTerminal { qubit: 0, zero: (c(3.0, 0.0), 1), one: (ONE, 1) },
        ];
        QuantumCircuit::from_nodes(nodes, 2, 1).unwrap()
    };
    let mut sim = make();
    assert_eq!(sim.mix_shared_node(2, scale, (large, tiny)), Err(GateError::UnequalMagnitudes));
    assert_eq!(sim.store_len(), 3);
    let mut sim = make();
    assert_eq!(sim.mix_shared_node(2, scale, (tiny, tiny)), Ok(()));
    assert_eq!(edges(sim.node(2)), (0, (c(2.0, 0.0), 1), (ZERO, 0)));
    let mut sim = make();
    assert_eq!(sim.mix_shared_node(2, scale, (tiny, large)), Ok(()));
    assert_eq!(edges(sim.node(2)), (0, (ZERO, 0), (ONE, 1)));
    assert_eq!(sim.store_len(), 3);
}

#[test]
fn mix_adds_a_zero_terminal_where_the_store_has_none() {
    let tiny = 1e-13f64.to_bits();
    let nodes = vec![
        DdNode::Terminal(ONE),
        DdNode::NonTerminal { qubit: usize::MAX, zero: (ZERO, 0), one: (ZERO, 0) },
        DdNode::NonTerminal { qubit: 0, zero: (c(3.0, 0.0), 1), one: (ONE, 1) },
        DdNode::Terminal(c(0.0, 2.0)),
    ];
    let mut sim = QuantumCircuit::from_nodes(nodes, 2, 1).unwrap();
    assert_eq!(sim.find_zero_terminal(), None);
    assert_eq!(sim.mix_shared_node(2, c(0.5, 0.0), (tiny, tiny)), Ok(()));
    assert_eq!(sim.store_len(), 5);
    assert_eq!(edges(sim.node(2)), (0, (c(2.0, 0.0), 1), (ZERO, 4)));
    assert_eq!(sim.find_zero_terminal(), Some(4));
    match sim.node(4) {
        DdNode::Terminal(value) => assert_eq!(value, ZERO),
        DdNode::NonTerminal { .. } => panic!("the added node is a terminal"),
    }
}

#[test]
fn zero_terminal_is_the_first_terminal_of_value_zero() {
    let nodes = vec![
        DdNode::Terminal(ONE),
        DdNode::Terminal(c(-0.0, 0.0)),
        DdNode::Terminal(ZERO),
        DdNode::NonTerminal { qubit: 0, zero: (ONE, 0), one: (ONE, 2) },
    ];
    let sim = QuantumCircuit::from_nodes(nodes, 3, 1).unwrap();
    assert_eq!(sim.find_zero_terminal(), Some(1));
    let sim = QuantumCircuit::from_nodes(vec![DdNode::Terminal(c(f64::NAN, 0.0))], 0, 0).unwrap();
    assert_eq!(sim.find_zero_terminal(), None);
}

#[test]
fn difference_is_the_difference() {
    assert_eq!(difference(c(3.0, 1.0), c(1.0, 4.0)), c(2.0, -3.0));
}

#[test]
fn mix_of_two_weights() {
    let (zero, one) = (c(3.0, 0.0), c(0.0, 1.0));
    assert_eq!(Mix::Hadamard(c(0.5, 0.0)).mixed(zero, one), (c(1.5, 0.5), c(1.5, -0.5)));
    let matrix = Mix::Matrix(c(1.0, 0.0), c(2.0, 0.0), c(0.0, 1.0), c(0.0, 0.0));
    assert_eq!(matrix.mixed(zero, one), (c(3.0, 2.0), c(0.0, 3.0)));
}

#[test]
fn eighth_turns_are_a_quarter_of_pi() {
    assert_eq!(eighth_turn(), c(std::f64::consts::FRAC_PI_4, 0.0));
    assert_eq!(eighth_turn_back(), c(-std::f64::consts::FRAC_PI_4, 0.0));
}
