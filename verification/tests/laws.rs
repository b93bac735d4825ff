use num::complex::Complex64;
use qdd_rs::QuantumCircuit;

fn norm_sqr(state: &[Complex64]) -> f64 {
    state.iter().map(|a| a.norm_sqr()).sum()
}

fn assert_close(a: &[Complex64], b: &[Complex64], tol: f64) {
    assert_eq!(a.len(), b.len());
    for i in 0..a.len() {
        assert!((a[i] - b[i]).norm() <= tol, "index {}: {} and {}", i, a[i], b[i]);
    }
}

fn sample_circuit() -> QuantumCircuit {
    let mut sim = QuantumCircuit::new(3);
    sim.apply_h(2).unwrap();
    sim.apply_cnot(2, 1).unwrap();
    sim.apply_t(1).unwrap();
    sim.apply_x(0).unwrap();
    sim
}

#[test]
fn state_stays_normalized() {
    let mut sim = QuantumCircuit::new(4);
    assert!((norm_sqr(&sim.get_state_vector()) - 1.0).abs() < 1e-6);
    sim.apply_h(3).unwrap();
    assert!((norm_sqr(&sim.get_state_vector()) - 1.0).abs() < 1e-6);
    sim.apply_cnot(3, 1).unwrap();
    assert!((norm_sqr(&sim.get_state_vector()) - 1.0).abs() < 1e-6);
    sim.apply_x(0).unwrap();
    sim.apply_y(2).unwrap();
    sim.apply_z(3).unwrap();
    assert!((norm_sqr(&sim.get_state_vector()) - 1.0).abs() < 1e-6);
    sim.apply_s(1).unwrap();
    sim.apply_sdg(3).unwrap();
    sim.apply_t(1).unwrap();
    sim.apply_tdg(0).unwrap();
    sim.apply_p(3, Complex64::from_polar(1.0, 0.3)).unwrap();
    assert!((norm_sqr(&sim.get_state_vector()) - 1.0).abs() < 1e-6);
    sim.apply_cz(3, 0).unwrap();
    assert!((norm_sqr(&sim.get_state_vector()) - 1.0).abs() < 1e-6);
    sim.apply_h(0).unwrap();
    assert!((norm_sqr(&sim.get_state_vector()) - 1.0).abs() < 1e-6);
}

#[test]
fn x_twice_restores_the_state_exactly() {
    for qubit in 0..3 {
        let mut sim = sample_circuit();
        let before = sim.get_state_vector();
        let shape = sim.get_adjacency_list().len();
        sim.apply_x(qubit).unwrap();
        assert_ne!(sim.get_state_vector(), before);
        sim.apply_x(qubit).unwrap();
        assert_eq!(sim.get_state_vector(), before);
        assert_eq!(sim.get_adjacency_list().len(), shape);
    }
}

#[test]
fn h_twice_restores_the_state() {
    for qubit in 0..3 {
        let mut sim = QuantumCircuit::new(3);
        sim.apply_x(1).unwrap();
        let before = sim.get_state_vector();
        sim.apply_h(qubit).unwrap();
        sim.apply_h(qubit).unwrap();
        assert_close(&sim.get_state_vector(), &before, 1e-12);
    }
    let mut sim = QuantumCircuit::new(2);
    sim.apply_h(0).unwrap();
    let before = sim.get_state_vector();
    sim.apply_h(1).unwrap();
    sim.apply_h(1).unwrap();
    assert_close(&sim.get_state_vector(), &before, 1e-12);
}

#[test]
fn cnot_twice_restores_the_state_exactly() {
    for control in 0..3 {
        for target in 0..3 {
            if control == target {
                continue;
            }
            let mut sim = QuantumCircuit::new(3);
            sim.apply_h(2).unwrap();
            sim.apply_x(0).unwrap();
            let before = sim.get_state_vector();
            sim.apply_cnot(control, target).unwrap();
            sim.apply_cnot(control, target).unwrap();
            assert_eq!(sim.get_state_vector(), before, "control {} target {}", control, target);
        }
    }
}

#[test]
fn cz_twice_restores_the_state_exactly() {
    let mut sim = QuantumCircuit::new(3);
    sim.apply_h(2).unwrap();
    sim.apply_h(0).unwrap();
    let before = sim.get_state_vector();
    sim.apply_cz(2, 0).unwrap();
    assert_ne!(sim.get_state_vector(), before);
    sim.apply_cz(2, 0).unwrap();
    assert_eq!(sim.get_state_vector(), before);
}
