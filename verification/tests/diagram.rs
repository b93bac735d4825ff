use num::complex::Complex64;
use qdd_rs::adjacency::node_names;
use qdd_rs::{DdNode, NodeName, QuantumCircuit, QubitIter};
use std::collections::HashSet;

const ZERO: Complex64 = Complex64::new(0.0, 0.0);
const ONE: Complex64 = Complex64::new(1.0, 0.0);

fn sink() -> DdNode {
    DdNode::NonTerminal { qubit: usize::MAX, zero: (ZERO, 0), one: (ZERO, 0) }
}

#[test]
fn fresh_circuit_is_a_chain() {
    let sim = QuantumCircuit::new(2);
    assert_eq!(sim.store_len(), 4);
    assert_eq!(sim.root_id(), 3);
    match sim.node(0) {
        DdNode::Terminal(value) => assert_eq!(value, ZERO),
        DdNode::NonTerminal { .. } => panic!("node 0 is the terminal"),
    }
    match sim.node(1) {
        DdNode::NonTerminal { qubit, zero, one } => {
            assert_eq!(qubit, usize::MAX);
            assert_eq!(zero, (ZERO, 0));
            assert_eq!(one, (ZERO, 0));
        }
        DdNode::Terminal(_) => panic!("node 1 is the sink"),
    }
    for id in 2..4 {
        match sim.node(id) {
            DdNode::NonTerminal { qubit, zero, one } => {
                assert_eq!(qubit, id - 2);
                assert_eq!(zero, (ONE, id - 1));
                assert_eq!(one, (ZERO, 0));
            }
            DdNode::Terminal(_) => panic!("node {} is a decision node", id),
        }
    }
}

#[test]
fn count_nodes_of_fresh_circuit() {
    assert_eq!(QuantumCircuit::new(3).count_nodes(), (1, 4));
    assert_eq!(QuantumCircuit::new(1).count_nodes(), (1, 2));
}

#[test]
fn count_nodes_counts_shared_nodes_once_and_copies_apart() {
    let mut sim = QuantumCircuit::new(3);
    sim.apply_h(2).unwrap();
    // Both edges of the root lead to the same node.
    assert_eq!(sim.count_nodes(), (1, 4));
    sim.apply_cnot(2, 0).unwrap();
    // The one branch is a copy down to qubit 0, with a terminal of its own.
    assert_eq!(sim.count_nodes(), (2, 6));
    sim.apply_cnot(2, 0).unwrap();
    // The branches agree again and are merged.
    assert_eq!(sim.count_nodes(), (1, 4));
}

#[test]
fn count_nodes_sees_two_terminals_that_look_alike() {
    let nodes = vec![
        DdNode::Terminal(ZERO),
        DdNode::Terminal(ZERO),
        DdNode::NonTerminal { qubit: 0, zero: (ONE, 0), one: (ONE, 1) },
    ];
    let sim = QuantumCircuit::from_nodes(nodes, 2, 1).unwrap();
    assert_eq!(sim.count_nodes(), (2, 1));
}

#[test]
fn star_of_cz_gates_keeps_the_diagram_linear() {
    for n in 2..10usize {
        let mut sim = QuantumCircuit::new(n);
        for q in 0..n {
            sim.apply_h(q).unwrap();
        }
        assert_eq!(sim.count_nodes(), (1, n + 1));
        for t in (0..n - 1).rev() {
            sim.apply_cz(n - 1, t).unwrap();
        }
        assert_eq!(sim.count_nodes(), (1, 2 * n));
    }
}

#[test]
fn ghz_state_keeps_the_diagram_linear() {
    for n in 2..10usize {
        let mut sim = QuantumCircuit::new(n);
        sim.apply_h(n - 1).unwrap();
        for t in (0..n - 1).rev() {
            sim.apply_cnot(n - 1, t).unwrap();
        }
        assert_eq!(sim.count_nodes(), (1, 2 * n));
        let state = sim.get_state_vector();
        let last = state.len() - 1;
        for (i, amplitude) in state.iter().enumerate() {
            let expected = if i == 0 || i == last { std::f64::consts::FRAC_1_SQRT_2 } else { 0.0 };
            assert!((amplitude.re - expected).abs() < 1e-12 && amplitude.im.abs() < 1e-12);
        }
    }
}

#[test]
fn level_iterator_yields_each_node_of_the_level_once() {
    let mut sim = QuantumCircuit::new(3);
    sim.apply_h(2).unwrap();
    sim.apply_cnot(2, 1).unwrap();
    // Two nodes test qubit 1 now: the old one and the copy in the one branch.
    let mut it = QubitIter::new(sim.root_id(), 1);
    let first = it.next(&sim).unwrap();
    let second = it.next(&sim).unwrap();
    assert_eq!(it.next(&sim), None);
    assert_eq!(it.next(&sim), None);
    assert_ne!(first, second);
    assert_eq!(sim.level_nodes(1), vec![first, second]);
    for id in [first, second] {
        match sim.node(id) {
            DdNode::NonTerminal { qubit, .. } => assert_eq!(qubit, 1),
            DdNode::Terminal(_) => panic!("a level holds decision nodes"),
        }
    }
    // Both reach the one node that tests qubit 0.
    assert_eq!(sim.level_nodes(0).len(), 1);
    assert_eq!(sim.level_nodes(2), vec![sim.root_id()]);
    assert_eq!(sim.level_nodes(5), Vec::<usize>::new());
}

#[test]
fn level_iterator_does_not_enter_lower_nodes() {
    let nodes = vec![
        DdNode::Terminal(ZERO),
        sink(),
        DdNode::NonTerminal { qubit: 0, zero: (ONE, 1), one: (ZERO, 0) },
        DdNode::NonTerminal { qubit: 2, zero: (ONE, 2), one: (ONE, 2) },
    ];
    let sim = QuantumCircuit::from_nodes(nodes, 3, 3).unwrap();
    assert_eq!(sim.level_nodes(1), Vec::<usize>::new());
    assert_eq!(sim.level_nodes(0), vec![2]);
}

#[test]
fn adjacency_list_names_each_reached_node_once() {
    let mut sim = QuantumCircuit::new(2);
    sim.apply_h(1).unwrap();
    let list = sim.get_adjacency_list();
    let ids: Vec<usize> = list.iter().map(|entry| entry.0).collect();
    assert_eq!(ids, vec![3, 2, 1, 0]);
    for (id, node) in list {
        match (node, sim.node(id)) {
            (DdNode::Terminal(a), DdNode::Terminal(b)) => assert_eq!(a, b),
            (
                DdNode::NonTerminal { qubit: qa, zero: za, one: oa },
                DdNode::NonTerminal { qubit: qb, zero: zb, one: ob },
            ) => {
                assert_eq!(qa, qb);
                assert_eq!(za, zb);
                assert_eq!(oa, ob);
            }
            _ => panic!("the list holds the node of the handle"),
        }
    }
}

#[test]
fn second_h_sends_the_zeroed_edge_to_the_zero_terminal() {
    let mut sim = QuantumCircuit::new(1);
    sim.apply_h(0).unwrap();
    sim.apply_h(0).unwrap();
    // The one edge goes to the terminal that was there, and no node is
    // added, however often H is applied.
    let ids: Vec<usize> = sim.get_adjacency_list().iter().map(|entry| entry.0).collect();
    assert_eq!(ids, vec![2, 1, 0]);
    assert_eq!(sim.count_nodes(), (1, 2));
    assert_eq!(sim.find_zero_terminal(), Some(0));
    for _ in 0..10 {
        sim.apply_h(0).unwrap();
    }
    assert_eq!(sim.store_len(), 3);
    assert_eq!(sim.count_nodes(), (1, 2));
}

#[test]
fn adjacency_list_leaves_out_what_is_not_reached() {
    let mut sim = QuantumCircuit::new(2);
    sim.apply_h(1).unwrap();
    sim.apply_cnot(1, 0).unwrap();
    sim.apply_cnot(1, 0).unwrap();
    // The copy that the first CNOT made is still in the store.
    assert_eq!(sim.store_len(), 5);
    let ids: Vec<usize> = sim.get_adjacency_list().iter().map(|entry| entry.0).collect();
    assert_eq!(ids, vec![3, 2, 1, 0]);
}

#[test]
fn node_names_count_the_decision_nodes() {
    let mut sim = QuantumCircuit::new(2);
    sim.apply_h(1).unwrap();
    sim.apply_cnot(1, 0).unwrap();
    let list = sim.get_adjacency_list();
    let names = node_names(&list);
    assert_eq!(list.len(), 5);
    assert_eq!(
        names,
        vec![
            NodeName::Level { level: 0, qubit: 1 },
            NodeName::Level { level: 1, qubit: 0 },
            NodeName::Sink,
            NodeName::Terminal,
            NodeName::Level { level: 3, qubit: 0 },
        ]
    );
    assert_eq!(node_names(&Vec::new()), Vec::<NodeName>::new());
}

#[test]
fn count_nodes_rec_counts_what_is_reached_past_the_visited() {
    let sim = QuantumCircuit::new(3);
    // Nothing visited: everything below the start.
    let mut visited = HashSet::new();
    assert_eq!(sim.count_nodes_rec(3, &mut visited), (1, 3));
    let mut all: Vec<usize> = visited.iter().copied().collect();
    all.sort();
    assert_eq!(all, vec![0, 1, 2, 3]);
    // The same start again: nothing.
    assert_eq!(sim.count_nodes_rec(3, &mut visited), (0, 0));
    assert_eq!(visited.len(), 4);
    // From the root: the one node that is new.
    assert_eq!(sim.count_nodes_rec(4, &mut visited), (0, 1));
    // A visited set that holds a node and not its children: the walk stops
    // at the node, and what lies below it is reached only by other ways.
    let mut visited = HashSet::new();
    visited.insert(2);
    assert_eq!(sim.count_nodes_rec(4, &mut visited), (1, 2));
    let mut all: Vec<usize> = visited.iter().copied().collect();
    all.sort();
    assert_eq!(all, vec![0, 2, 3, 4]);
    // A visited set with a handle that is no node of the store.
    let mut visited = HashSet::new();
    visited.insert(99);
    assert_eq!(sim.count_nodes_rec(1, &mut visited), (1, 1));
    assert!(visited.contains(&99) && visited.len() == 3);
}

#[test]
fn from_nodes_accepts_a_sound_diagram() {
    let nodes = vec![
        DdNode::Terminal(ZERO),
        sink(),
        DdNode::NonTerminal { qubit: 0, zero: (ONE, 1), one: (ZERO, 0) },
    ];
    let sim = QuantumCircuit::from_nodes(nodes, 2, 1).unwrap();
    assert_eq!(sim.get_state_vector(), QuantumCircuit::new(1).get_state_vector());
    assert_eq!(sim.root_id(), 2);
    assert_eq!(sim.num_qubits(), 1);
}

#[test]
fn from_nodes_refuses_a_missing_root() {
    assert!(QuantumCircuit::from_nodes(vec![DdNode::Terminal(ZERO)], 1, 1).is_none());
    assert!(QuantumCircuit::from_nodes(vec![], 0, 0).is_none());
}

#[test]
fn from_nodes_refuses_a_missing_child() {
    let nodes = vec![
        DdNode::Terminal(ZERO),
        DdNode::NonTerminal { qubit: 0, zero: (ONE, 0), one: (ZERO, 2) },
    ];
    assert!(QuantumCircuit::from_nodes(nodes, 1, 1).is_none());
}

#[test]
fn from_nodes_refuses_a_qubit_out_of_range() {
    let nodes = vec![
        DdNode::Terminal(ZERO),
        DdNode::NonTerminal { qubit: 1, zero: (ONE, 0), one: (ZERO, 0) },
    ];
    assert!(QuantumCircuit::from_nodes(nodes, 1, 1).is_none());
}

#[test]
fn from_nodes_refuses_a_child_that_is_not_below() {
    // A node that tests qubit 1 below a node that tests qubit 1.
    let nodes = vec![
        DdNode::Terminal(ZERO),
        sink(),
        DdNode::NonTerminal { qubit: 1, zero: (ONE, 1), one: (ONE, 1) },
        DdNode::NonTerminal { qubit: 1, zero: (ONE, 2), one: (ONE, 0) },
    ];
    assert!(QuantumCircuit::from_nodes(nodes, 3, 2).is_none());
    // A cycle.
    let nodes = vec![DdNode::NonTerminal { qubit: 0, zero: (ONE, 0), one: (ONE, 0) }];
    assert!(QuantumCircuit::from_nodes(nodes, 0, 1).is_none());
    // A decision node below the sink.
    let nodes = vec![
        DdNode::Terminal(ZERO),
        DdNode::NonTerminal { qubit: 0, zero: (ONE, 0), one: (ONE, 0) },
        DdNode::NonTerminal { qubit: usize::MAX, zero: (ZERO, 1), one: (ZERO, 0) },
    ];
    assert!(QuantumCircuit::from_nodes(nodes, 2, 1).is_none());
}

#[test]
fn tree_of_cz_gates_stays_below_the_unshared_tree() {
    let n = 6usize;
    let mut sim = QuantumCircuit::new(n);
    for q in 0..n {
        sim.apply_h(q).unwrap();
    }
    for (control, target) in [(5, 4), (5, 2), (5, 0), (4, 3), (4, 1), (3, 2), (3, 0), (2, 1), (1, 0)] {
        sim.apply_cz(control, target).unwrap();
    }
    let (terminals, decisions) = sim.count_nodes();
    assert_eq!((terminals, decisions), (1, 54));
    assert!(decisions < (1 << n) - 1);
    let norm: f64 = sim.get_state_vector().iter().map(|a| a.norm_sqr()).sum();
    assert!((norm - 1.0).abs() < 1e-6);
}
