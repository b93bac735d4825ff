use num::complex::Complex64;
use qdd_rs::{DdNode, EdgeRewrite, GateError, QuantumCircuit};

const TOL: f64 = 1e-6;
const R: f64 = std::f64::consts::FRAC_1_SQRT_2;

fn c(re: f64, im: f64) -> Complex64 {
    Complex64::new(re, im)
}

fn assert_complex_eq(a: Complex64, b: Complex64) {
    assert!(
        (a.re - b.re).abs() <= TOL && (a.im - b.im).abs() <= TOL,
        "Expected {} got {}",
        b,
        a
    );
}

fn assert_state(sim: &QuantumCircuit, expected: &[Complex64]) {
    let state = sim.get_state_vector();
    assert_eq!(state.len(), expected.len());
    for i in 0..expected.len() {
        assert_complex_eq(state[i], expected[i]);
    }
}

fn plus_state() -> QuantumCircuit {
    let mut sim = QuantumCircuit::new(1);
    sim.apply_h(0).unwrap();
    sim
}

#[test]
fn fresh_circuit_is_all_zero_state() {
    let sim = QuantumCircuit::new(3);
    let state = sim.get_state_vector();
    assert_eq!(state.len(), 8);
    assert_eq!(state[0], c(1.0, 0.0));
    for i in 1..8 {
        assert_eq!(state[i], c(0.0, 0.0));
    }
    assert_eq!(sim.num_qubits(), 3);
}

#[test]
fn fresh_circuit_of_no_qubits_is_the_sink() {
    let sim = QuantumCircuit::new(0);
    assert_eq!(sim.get_state_vector(), vec![c(1.0, 0.0)]);
    assert_eq!(sim.count_nodes(), (1, 1));
}

#[test]
fn x_flips_one_qubit() {
    let mut sim = QuantumCircuit::new(3);
    sim.apply_x(1).unwrap();
    let state = sim.get_state_vector();
    for i in 0..8 {
        let expected = if i == 2 { 1.0 } else { 0.0 };
        assert_eq!(state[i], c(expected, 0.0));
    }
}

#[test]
fn z_negates_the_one_branch() {
    let mut sim = plus_state();
    sim.apply_z(0).unwrap();
    assert_state(&sim, &[c(R, 0.0), c(-R, 0.0)]);
}

#[test]
fn y_swaps_with_phases() {
    let mut sim = QuantumCircuit::new(1);
    sim.apply_y(0).unwrap();
    assert_state(&sim, &[c(0.0, 0.0), c(0.0, -1.0)]);
}

#[test]
fn h_then_z_then_y_on_one_qubit() {
    let mut sim = plus_state();
    sim.apply_z(0).unwrap();
    sim.apply_y(0).unwrap();
    assert_state(&sim, &[c(0.0, -R), c(0.0, -R)]);
}

#[test]
fn s_and_sdg_turn_by_a_quarter() {
    let mut sim = plus_state();
    sim.apply_s(0).unwrap();
    assert_state(&sim, &[c(R, 0.0), c(0.0, R)]);
    sim.apply_sdg(0).unwrap();
    assert_state(&sim, &[c(R, 0.0), c(R, 0.0)]);
    sim.apply_sdg(0).unwrap();
    assert_state(&sim, &[c(R, 0.0), c(0.0, -R)]);
}

#[test]
fn t_and_tdg_turn_by_an_eighth() {
    let mut sim = plus_state();
    sim.apply_t(0).unwrap();
    assert_state(&sim, &[c(R, 0.0), c(0.5, 0.5)]);
    sim.apply_tdg(0).unwrap();
    assert_state(&sim, &[c(R, 0.0), c(R, 0.0)]);
    sim.apply_tdg(0).unwrap();
    assert_state(&sim, &[c(R, 0.0), c(0.5, -0.5)]);
}

#[test]
fn p_multiplies_by_the_given_phase() {
    let mut sim = plus_state();
    let theta = std::f64::consts::PI / 3.0;
    sim.apply_p(0, Complex64::from_polar(1.0, theta)).unwrap();
    assert_state(&sim, &[c(R, 0.0), c(R * theta.cos(), R * theta.sin())]);
}

#[test]
fn weights_rewrite_replaces_both_weights() {
    let mut sim = QuantumCircuit::new(2);
    sim.apply_x(0).unwrap();
    sim.apply_rewrite(1, EdgeRewrite::Weights(c(0.6, 0.0), c(0.0, 0.8))).unwrap();
    assert_state(&sim, &[c(0.0, 0.0), c(0.6, 0.0), c(0.0, 0.0), c(0.0, 0.0)]);
}

fn u3(theta: f64, phi: f64, lambda: f64) -> [Complex64; 4] {
    let half = theta / 2.0;
    [
        c(half.cos(), 0.0),
        -Complex64::from_polar(half.sin(), lambda),
        Complex64::from_polar(half.sin(), phi),
        Complex64::from_polar(half.cos(), phi + lambda),
    ]
}

#[test]
fn u_on_a_fresh_qubit_gives_the_first_column() {
    let (theta, phi, lambda) = (0.7, 0.3, -1.1);
    let m = u3(theta, phi, lambda);
    let mut sim = QuantumCircuit::new(2);
    sim.apply_u(1, m[0], m[1], m[2], m[3]).unwrap();
    let low = (theta / 2.0).cos();
    let high = Complex64::from_polar((theta / 2.0).sin(), phi);
    assert_state(&sim, &[c(low, 0.0), c(0.0, 0.0), high, c(0.0, 0.0)]);
}

#[test]
fn u_on_the_one_state_gives_the_second_column() {
    let m = u3(0.7, 0.3, -1.1);
    let mut sim = QuantumCircuit::new(1);
    sim.apply_x(0).unwrap();
    sim.apply_u(0, m[0], m[1], m[2], m[3]).unwrap();
    assert_state(&sim, &[m[1], m[3]]);
}

#[test]
fn u_mixes_the_weights_on_a_shared_child() {
    let m = u3(1.3, -0.4, 2.0);
    let mut sim = plus_state();
    sim.apply_s(0).unwrap();
    let before = sim.get_state_vector();
    sim.apply_u(0, m[0], m[1], m[2], m[3]).unwrap();
    let expected = [
        m[0] * before[0] + m[1] * before[1],
        m[2] * before[0] + m[3] * before[1],
    ];
    assert_state(&sim, &expected);
    // The state stays normalized, and the diagram grows by nothing.
    let norm: f64 = sim.get_state_vector().iter().map(|a| a.norm_sqr()).sum();
    assert!((norm - 1.0).abs() < 1e-12);
    assert_eq!(sim.count_nodes(), (1, 2));
}

#[test]
fn u_with_the_hadamard_matrix_agrees_with_h() {
    let s = c(R, 0.0);
    for flips in 0..2 {
        let mut by_h = QuantumCircuit::new(2);
        let mut by_u = QuantumCircuit::new(2);
        if flips == 1 {
            by_h.apply_x(1).unwrap();
            by_u.apply_x(1).unwrap();
        }
        by_h.apply_h(1).unwrap();
        by_u.apply_u(1, s, s, s, -s).unwrap();
        assert_state(&by_u, &by_h.get_state_vector());
        by_h.apply_h(1).unwrap();
        by_u.apply_u(1, s, s, s, -s).unwrap();
        assert_state(&by_u, &by_h.get_state_vector());
    }
}

#[test]
fn h_on_one_state_gives_minus_state() {
    let mut sim = QuantumCircuit::new(1);
    sim.apply_x(0).unwrap();
    sim.apply_h(0).unwrap();
    assert_state(&sim, &[c(R, 0.0), c(-R, 0.0)]);
    sim.apply_h(0).unwrap();
    assert_state(&sim, &[c(0.0, 0.0), c(1.0, 0.0)]);
}

#[test]
fn every_gate_refuses_a_qubit_out_of_range() {
    let mut sim = QuantumCircuit::new(2);
    sim.apply_h(1).unwrap();
    let before = sim.get_state_vector();
    let one = c(1.0, 0.0);
    assert_eq!(sim.apply_x(2), Err(GateError::QubitOutOfRange));
    assert_eq!(sim.apply_y(2), Err(GateError::QubitOutOfRange));
    assert_eq!(sim.apply_z(2), Err(GateError::QubitOutOfRange));
    assert_eq!(sim.apply_s(2), Err(GateError::QubitOutOfRange));
    assert_eq!(sim.apply_sdg(2), Err(GateError::QubitOutOfRange));
    assert_eq!(sim.apply_t(2), Err(GateError::QubitOutOfRange));
    assert_eq!(sim.apply_tdg(2), Err(GateError::QubitOutOfRange));
    assert_eq!(sim.apply_p(2, one), Err(GateError::QubitOutOfRange));
    assert_eq!(sim.apply_u(2, one, one, one, one), Err(GateError::QubitOutOfRange));
    assert_eq!(
        sim.apply_rewrite(2, EdgeRewrite::Weights(one, one)),
        Err(GateError::QubitOutOfRange)
    );
    assert_eq!(sim.apply_h(2), Err(GateError::QubitOutOfRange));
    assert_eq!(sim.apply_cnot(2, 0), Err(GateError::QubitOutOfRange));
    assert_eq!(sim.apply_cnot(0, 2), Err(GateError::QubitOutOfRange));
    assert_eq!(sim.apply_cz(usize::MAX, 0), Err(GateError::QubitOutOfRange));
    assert_eq!(sim.apply_cz(1, 7), Err(GateError::QubitOutOfRange));
    assert_eq!(sim.get_state_vector(), before);
}

#[test]
fn h_refuses_unequal_magnitudes_on_a_shared_child() {
    let mut sim = plus_state();
    sim.apply_rewrite(0, EdgeRewrite::Weights(c(1.0, 0.0), c(0.5, 0.0))).unwrap();
    let before = sim.get_state_vector();
    assert_eq!(sim.apply_h(0), Err(GateError::UnequalMagnitudes));
    assert_eq!(sim.get_state_vector(), before);
}

#[test]
fn cnot_reports_a_dead_node_on_the_marked_path() {
    let mut sim = QuantumCircuit::new(3);
    sim.apply_rewrite(1, EdgeRewrite::Weights(c(0.0, 0.0), c(0.0, 0.0))).unwrap();
    assert_eq!(sim.apply_cnot(2, 0), Err(GateError::DeadNode));
    assert_eq!(sim.apply_cz(2, 0), Err(GateError::DeadNode));
}

#[test]
fn h_reports_a_terminal_on_the_active_path() {
    let zero = c(0.0, 0.0);
    let one = c(1.0, 0.0);
    let nodes = vec![
        DdNode::Terminal(zero),
        DdNode::NonTerminal { qubit: usize::MAX, zero: (zero, 0), one: (zero, 0) },
        DdNode::NonTerminal { qubit: 0, zero: (one, 0), one: (zero, 0) },
        DdNode::NonTerminal { qubit: 0, zero: (one, 1), one: (zero, 0) },
        DdNode::NonTerminal { qubit: 1, zero: (one, 2), one: (one, 3) },
    ];
    let mut sim = QuantumCircuit::from_nodes(nodes, 4, 2).unwrap();
    assert_eq!(sim.apply_h(1), Err(GateError::TerminalNode));
}

#[test]
fn h_mixes_below_where_the_branches_differ() {
    // (|00> + |11>)/√2, then H on qubit 1.
    let mut sim = QuantumCircuit::new(2);
    sim.apply_h(1).unwrap();
    sim.apply_cnot(1, 0).unwrap();
    assert_state(&sim, &[c(R, 0.0), c(0.0, 0.0), c(0.0, 0.0), c(R, 0.0)]);
    assert_eq!(sim.apply_h(1), Ok(()));
    let state = sim.get_state_vector();
    assert_eq!(state.len(), 4);
}

#[test]
fn cz_negates_where_both_are_one() {
    let mut sim = QuantumCircuit::new(2);
    sim.apply_h(0).unwrap();
    sim.apply_h(1).unwrap();
    sim.apply_cz(1, 0).unwrap();
    assert_state(&sim, &[c(0.5, 0.0), c(0.5, 0.0), c(0.5, 0.0), c(-0.5, 0.0)]);
    sim.apply_cz(1, 0).unwrap();
    assert_state(&sim, &[c(0.5, 0.0), c(0.5, 0.0), c(0.5, 0.0), c(0.5, 0.0)]);
}

#[test]
fn cnot_flips_the_target_where_the_control_is_one() {
    let mut sim = QuantumCircuit::new(2);
    sim.apply_x(1).unwrap();
    sim.apply_cnot(1, 0).unwrap();
    assert_state(&sim, &[c(0.0, 0.0), c(0.0, 0.0), c(0.0, 0.0), c(1.0, 0.0)]);
    let mut sim = QuantumCircuit::new(2);
    sim.apply_cnot(1, 0).unwrap();
    assert_state(&sim, &[c(1.0, 0.0), c(0.0, 0.0), c(0.0, 0.0), c(0.0, 0.0)]);
}

#[test]
fn cnot_copies_one_marked_child_and_leaves_the_node() {
    // Both children of the node in the one branch lie on the marked path:
    // the walk puts a copy in the place of its one child and does not enter
    // the node any further, so only that half of the branch is flipped.
    let mut sim = QuantumCircuit::new(3);
    sim.apply_h(2).unwrap();
    sim.apply_cz(2, 1).unwrap();
    sim.apply_h(1).unwrap();
    let h = c(0.5, 0.0);
    let o = c(0.0, 0.0);
    assert_state(&sim, &[h, o, h, o, h, o, h, o]);
    sim.apply_cnot(2, 0).unwrap();
    assert_state(&sim, &[h, o, h, o, h, o, o, h]);
    sim.apply_cnot(2, 0).unwrap();
    assert_state(&sim, &[h, o, h, o, o, h, o, h]);
}
