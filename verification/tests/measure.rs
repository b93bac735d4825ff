use num::complex::Complex64;
use qdd_rs::measure::measurement_outcome;
use qdd_rs::weight::{above_tolerance, below_tolerance};
use qdd_rs::{EdgeRewrite, QuantumCircuit};

#[test]
fn probabilities_of_a_definite_qubit() {
    let mut sim = QuantumCircuit::new(2);
    let (prob_zero, prob_one) = sim.calculate_probabilities(0);
    assert_eq!((prob_zero.re, prob_one.re), (1.0, 0.0));
    sim.apply_x(0).unwrap();
    let (prob_zero, prob_one) = sim.calculate_probabilities(0);
    assert_eq!((prob_zero.re, prob_one.re), (0.0, 1.0));
    let (prob_zero, prob_one) = sim.calculate_probabilities(1);
    assert_eq!((prob_zero.re, prob_one.re), (1.0, 0.0));
}

#[test]
fn probabilities_of_a_mixed_qubit() {
    let mut sim = QuantumCircuit::new(2);
    sim.apply_h(1).unwrap();
    let (prob_zero, prob_one) = sim.calculate_probabilities(1);
    assert!((prob_zero.re - 0.5).abs() < 1e-12 && (prob_one.re - 0.5).abs() < 1e-12);
    assert_eq!((prob_zero.im, prob_one.im), (0.0, 0.0));
    sim.apply_cnot(1, 0).unwrap();
    let (prob_zero, prob_one) = sim.calculate_probabilities(0);
    assert!((prob_zero.re - 0.5).abs() < 1e-12 && (prob_one.re - 0.5).abs() < 1e-12);
}

#[test]
fn probabilities_are_normalized() {
    let mut sim = QuantumCircuit::new(1);
    sim.apply_h(0).unwrap();
    sim.apply_rewrite(0, EdgeRewrite::Weights(Complex64::new(3.0, 0.0), Complex64::new(0.0, 4.0)))
        .unwrap();
    let (prob_zero, prob_one) = sim.calculate_probabilities(0);
    assert_eq!((prob_zero.re, prob_one.re), (9.0 / 25.0, 16.0 / 25.0));
    // A path that ends in a terminal counts for nothing.
    let mut sim = QuantumCircuit::new(1);
    sim.apply_rewrite(0, EdgeRewrite::Weights(Complex64::new(3.0, 0.0), Complex64::new(0.0, 4.0)))
        .unwrap();
    let (prob_zero, prob_one) = sim.calculate_probabilities(0);
    assert_eq!((prob_zero.re, prob_one.re), (1.0, 0.0));
}

#[test]
fn measuring_a_definite_qubit_gives_its_value() {
    let mut sim = QuantumCircuit::new(2);
    sim.apply_x(1).unwrap();
    for _ in 0..50 {
        assert_eq!(sim.measure_qubit(0), 0);
        assert_eq!(sim.measure_qubit(1), 1);
    }
}

#[test]
fn measuring_a_mixed_qubit_gives_both_values() {
    let mut sim = QuantumCircuit::new(1);
    sim.apply_h(0).unwrap();
    let before = sim.get_state_vector();
    let mut seen = [0usize; 2];
    for _ in 0..400 {
        let outcome = sim.measure_qubit(0);
        assert!(outcome <= 1);
        seen[outcome as usize] += 1;
    }
    assert!(seen[0] > 0 && seen[1] > 0);
    assert_eq!(sim.get_state_vector(), before);
}

#[test]
fn outcome_compares_the_draw_with_the_probability() {
    let bits = |x: f64| x.to_bits();
    assert_eq!(measurement_outcome(bits(0.3), bits(0.5)), 0);
    assert_eq!(measurement_outcome(bits(0.5), bits(0.5)), 1);
    assert_eq!(measurement_outcome(bits(0.7), bits(0.5)), 1);
    assert_eq!(measurement_outcome(bits(0.0), bits(1.0)), 0);
    assert_eq!(measurement_outcome(bits(0.999), bits(1.0)), 0);
    assert_eq!(measurement_outcome(bits(0.0), bits(0.0)), 1);
    assert_eq!(measurement_outcome(bits(0.0), bits(f64::NAN)), 1);
    assert_eq!(measurement_outcome(bits(0.0), bits(-f64::NAN)), 1);
    assert_eq!(measurement_outcome(bits(0.0), bits(-0.0)), 1);
    assert_eq!(measurement_outcome(bits(0.0), bits(f64::INFINITY)), 0);
}

#[test]
fn tolerance_tests_follow_the_order_of_doubles() {
    let bits = |x: f64| x.to_bits();
    assert!(below_tolerance(bits(0.0)));
    assert!(below_tolerance(bits(1e-13)));
    assert!(!below_tolerance(bits(1e-12)));
    assert!(!below_tolerance(bits(1e-11)));
    assert!(!below_tolerance(bits(f64::INFINITY)));
    assert!(!below_tolerance(bits(f64::NAN)));
    assert!(!above_tolerance(bits(0.0)));
    assert!(!above_tolerance(bits(1e-13)));
    assert!(!above_tolerance(bits(1e-12)));
    assert!(above_tolerance(bits(1e-11)));
    assert!(above_tolerance(bits(f64::INFINITY)));
    assert!(!above_tolerance(bits(f64::NAN)));
    for x in [1e-300, 1e-20, 0.999e-12, 1.001e-12, 1.0, 1e300] {
        assert_eq!(below_tolerance(bits(x)), x < 1e-12);
        assert_eq!(above_tolerance(bits(x)), x > 1e-12);
    }
}
