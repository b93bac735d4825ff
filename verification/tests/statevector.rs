use num::complex::Complex64;
use qdd_rs::{DdNode, QuantumCircuit};

const TOL: f64 = 1e-6;

const ZERO: Complex64 = Complex64::new(0.0, 0.0);
const ONE: Complex64 = Complex64::new(1.0, 0.0);
const HALF: Complex64 = Complex64::new(0.5, 0.0);
const INV_ROOT_TWO: Complex64 = Complex64::new(std::f64::consts::FRAC_1_SQRT_2, 0.0);

fn assert_close(a: Complex64, b: Complex64) {
    assert!(
        (a.re - b.re).abs() <= TOL && (a.im - b.im).abs() <= TOL,
        "Expected {} got {}",
        b,
        a
    );
}

#[test]
fn test_h_and_cx_gates() {
    let mut sim = QuantumCircuit::new(3);
    sim.apply_h(2).unwrap();
    sim.apply_cnot(2, 0).unwrap();

    sim.apply_cnot(2, 0).unwrap();
    sim.apply_h(2).unwrap();
    let state = sim.get_state_vector();

    let mut expected = vec![ZERO; 8];
    expected[0] = ONE;

    assert_eq!(state.len(), 8);
    for q in 0..8 {
        assert_close(state[q], expected[q]);
    }
}

#[test]
fn test_basic_single_qubit() {
    let mut sim = QuantumCircuit::new(1);
    sim.apply_h(0).unwrap();
    let state = sim.get_state_vector();

    let expected = vec![INV_ROOT_TWO, INV_ROOT_TWO];

    assert_eq!(state.len(), 2);
    assert_close(state[0], expected[0]);
    assert_close(state[1], expected[1]);
}

#[test]
fn test_early_terminal() {
    let nodes = vec![
        DdNode::Terminal(ZERO),
        DdNode::NonTerminal { qubit: 1, zero: (ONE, 0), one: (ONE, 0) },
        DdNode::NonTerminal { qubit: 2, zero: (ONE, 1), one: (ONE, 1) },
    ];
    let sim = QuantumCircuit::from_nodes(nodes, 2, 3).unwrap();

    let state = sim.get_state_vector();
    let expected = ZERO;

    for i in 0..8 {
        if (i & 0b110) == 0b000 {
            assert_close(state[i], expected);
        }
    }
}

#[test]
fn test_full_processing_no_unused() {
    let mut sim = QuantumCircuit::new(2);
    sim.apply_h(0).unwrap();
    sim.apply_h(1).unwrap();

    let state = sim.get_state_vector();
    assert_close(state[0], HALF);
    assert_close(state[1], HALF);
    assert_close(state[2], HALF);
    assert_close(state[3], HALF);
}

#[test]
fn cnot_entangles_after_hadamard() {
    let mut sim = QuantumCircuit::new(3);
    sim.apply_h(2).unwrap();
    sim.apply_cnot(2, 0).unwrap();
    let state = sim.get_state_vector();
    for q in 0..8 {
        let expected = if q == 0 || q == 5 { INV_ROOT_TWO } else { ZERO };
        assert_close(state[q], expected);
    }
}

#[test]
fn sink_spreads_over_undecided_qubits() {
    // The root tests qubit 1 and leads straight to the sink: qubit 0 is
    // left undecided, so both of its values get the amplitude.
    let two = Complex64::new(2.0, 0.0);
    let three = Complex64::new(3.0, 0.0);
    let nodes = vec![
        DdNode::Terminal(ZERO),
        DdNode::NonTerminal { qubit: usize::MAX, zero: (ZERO, 0), one: (ZERO, 0) },
        DdNode::NonTerminal { qubit: 1, zero: (two, 1), one: (three, 1) },
    ];
    let sim = QuantumCircuit::from_nodes(nodes, 2, 2).unwrap();
    assert_eq!(sim.get_state_vector(), vec![two, two, three, three]);
}

#[test]
fn terminal_value_scales_the_amplitude() {
    let two = Complex64::new(2.0, 0.0);
    let three = Complex64::new(3.0, 0.0);
    let nodes = vec![
        DdNode::Terminal(three),
        DdNode::NonTerminal { qubit: 0, zero: (two, 0), one: (ONE, 0) },
    ];
    let sim = QuantumCircuit::from_nodes(nodes, 1, 1).unwrap();
    assert_eq!(sim.get_state_vector(), vec![Complex64::new(6.0, 0.0), three]);
}

#[test]
fn amplitudes_of_paths_to_one_index_add_up() {
    // Two nodes that test the same qubit cannot lie on one path, but a
    // diagram without the top qubit sends every path to both halves.
    let nodes = vec![
        DdNode::Terminal(ZERO),
        DdNode::NonTerminal { qubit: usize::MAX, zero: (ZERO, 0), one: (ZERO, 0) },
        DdNode::NonTerminal { qubit: 0, zero: (HALF, 1), one: (ONE, 1) },
    ];
    let sim = QuantumCircuit::from_nodes(nodes, 2, 2).unwrap();
    assert_eq!(sim.get_state_vector(), vec![HALF, ONE, HALF, ONE]);
}
