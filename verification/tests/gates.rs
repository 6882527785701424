use lay_simulator_gk::{GottesmanKnillSimulator, RepeatSeqFakeRng};

type Sim = GottesmanKnillSimulator<RepeatSeqFakeRng>;

/// Every factor and sign of the tableau, row by row.
fn snapshot(sim: &Sim) -> Vec<(Vec<bool>, Vec<bool>, bool)> {
    let n = sim.n_qubits();
    (0..n)
        .map(|k| {
            (
                (0..n).map(|j| sim.x_bit(k, j)).collect(),
                (0..n).map(|j| sim.z_bit(k, j)).collect(),
                sim.sign_bit(k),
            )
        })
        .collect()
}

fn fresh(n: u32) -> Sim {
    GottesmanKnillSimulator::from_rng(n, RepeatSeqFakeRng::new(vec![1, 0]))
}

/// A state of three qubits in which rows have factors of both kinds.
fn mixed() -> Sim {
    let mut sim = fresh(3);
    sim.h(0);
    sim.cx(0, 1);
    sim.s(1);
    sim.h(2);
    sim.s(2);
    sim.cx(2, 0);
    sim.x(1);
    sim
}

#[test]
fn a_new_simulator_holds_z_on_every_qubit() {
    let sim = fresh(4);
    assert_eq!(sim.n_qubits(), 4);
    for k in 0..4 {
        for j in 0..4 {
            assert!(!sim.x_bit(k, j));
            assert_eq!(sim.z_bit(k, j), k == j);
        }
        assert!(!sim.sign_bit(k));
    }
}

#[test]
fn a_simulator_of_no_qubits() {
    let mut sim = GottesmanKnillSimulator::from_seed(0, 3);
    assert_eq!(sim.n_qubits(), 0);
    sim.send(&[]);
    sim.initialize();
    assert_eq!(sim.make_buffer().len(), 0);
}

#[test]
fn x_negates_rows_with_a_z_factor() {
    let mut sim = fresh(2);
    sim.x(1);
    assert_eq!(
        snapshot(&sim),
        vec![
            (vec![false, false], vec![true, false], false),
            (vec![false, false], vec![false, true], true),
        ]
    );
}

#[test]
fn z_negates_rows_with_an_x_factor() {
    let mut sim = fresh(2);
    sim.z(0);
    assert!(!sim.sign_bit(0));
    sim.h(0);
    sim.z(0);
    assert_eq!(
        snapshot(&sim),
        vec![
            (vec![true, false], vec![false, false], true),
            (vec![false, false], vec![false, true], false),
        ]
    );
}

#[test]
fn y_negates_rows_with_exactly_one_factor() {
    let mut sim = fresh(1);
    sim.y(0);
    assert_eq!(snapshot(&sim), vec![(vec![false], vec![true], true)]);
    sim.h(0);
    sim.y(0);
    assert_eq!(snapshot(&sim), vec![(vec![true], vec![false], false)]);
    sim.s(0);
    assert_eq!(snapshot(&sim), vec![(vec![true], vec![true], false)]);
    sim.y(0);
    assert_eq!(snapshot(&sim), vec![(vec![true], vec![true], false)]);
}

#[test]
fn h_exchanges_the_factors_and_negates_where_both_are() {
    let mut sim = fresh(1);
    sim.h(0);
    assert_eq!(snapshot(&sim), vec![(vec![true], vec![false], false)]);
    sim.s(0);
    sim.h(0);
    assert_eq!(snapshot(&sim), vec![(vec![true], vec![true], true)]);
}

#[test]
fn s_toggles_z_under_x_and_negates_where_both_were() {
    let mut sim = fresh(1);
    sim.s(0);
    assert_eq!(snapshot(&sim), vec![(vec![false], vec![true], false)]);
    sim.h(0);
    sim.s(0);
    assert_eq!(snapshot(&sim), vec![(vec![true], vec![true], false)]);
    sim.s(0);
    assert_eq!(snapshot(&sim), vec![(vec![true], vec![false], true)]);
}

#[test]
fn sdg_toggles_z_under_x_and_negates_where_z_was_missing() {
    let mut sim = fresh(1);
    sim.h(0);
    sim.sdg(0);
    assert_eq!(snapshot(&sim), vec![(vec![true], vec![true], true)]);
    sim.sdg(0);
    assert_eq!(snapshot(&sim), vec![(vec![true], vec![false], true)]);
}

#[test]
fn cx_copies_x_forward_and_z_back() {
    let mut sim = fresh(2);
    sim.h(0);
    sim.cx(0, 1);
    assert_eq!(
        snapshot(&sim),
        vec![
            (vec![true, true], vec![false, false], false),
            (vec![false, false], vec![true, true], false),
        ]
    );
}

#[test]
fn cx_negates_rows_with_both_factors_on_the_control() {
    let mut sim = fresh(2);
    sim.h(0);
    sim.s(0);
    sim.cx(0, 1);
    assert_eq!(
        snapshot(&sim),
        vec![
            (vec![true, true], vec![true, false], true),
            (vec![false, false], vec![true, true], false),
        ]
    );
}

#[test]
fn cx_on_one_qubit_clears_its_factors() {
    let mut sim = fresh(2);
    sim.h(0);
    sim.s(0);
    sim.cx(0, 0);
    sim.cx(1, 1);
    assert_eq!(
        snapshot(&sim),
        vec![
            (vec![false, false], vec![false, false], true),
            (vec![false, false], vec![false, false], false),
        ]
    );
}

#[test]
fn h_twice_is_the_identity() {
    for q in 0..3 {
        let mut sim = mixed();
        let before = snapshot(&sim);
        sim.h(q);
        assert_ne!(snapshot(&sim), before);
        sim.h(q);
        assert_eq!(snapshot(&sim), before);
    }
}

#[test]
fn pauli_gates_twice_are_the_identity() {
    for q in 0..3 {
        let mut sim = mixed();
        let before = snapshot(&sim);
        sim.x(q);
        sim.x(q);
        assert_eq!(snapshot(&sim), before);
        sim.y(q);
        sim.y(q);
        assert_eq!(snapshot(&sim), before);
        sim.z(q);
        sim.z(q);
        assert_eq!(snapshot(&sim), before);
    }
}

#[test]
fn s_four_times_is_the_identity() {
    for q in 0..3 {
        let mut sim = mixed();
        let before = snapshot(&sim);
        sim.s(q);
        sim.s(q);
        let halfway = snapshot(&sim);
        sim.s(q);
        sim.s(q);
        assert_eq!(snapshot(&sim), before);
        let mut other = mixed();
        other.z(q);
        assert_eq!(snapshot(&other), halfway);
    }
}

#[test]
fn s_and_its_inverse_cancel() {
    for q in 0..3 {
        let mut sim = mixed();
        let before = snapshot(&sim);
        sim.s(q);
        sim.sdg(q);
        assert_eq!(snapshot(&sim), before);
        sim.sdg(q);
        sim.s(q);
        assert_eq!(snapshot(&sim), before);
    }
}

#[test]
fn cx_twice_is_the_identity_without_x_on_control_and_z_on_target() {
    let mut sim = fresh(3);
    sim.h(0);
    sim.s(0);
    sim.x(1);
    sim.h(2);
    let before = snapshot(&sim);
    for k in 0..3 {
        assert!(!(sim.x_bit(k, 0) && sim.z_bit(k, 1)));
    }
    sim.cx(0, 1);
    assert_ne!(snapshot(&sim), before);
    sim.cx(0, 1);
    assert_eq!(snapshot(&sim), before);
}

#[test]
fn cx_twice_negates_a_row_with_x_on_control_and_z_on_target() {
    let mut sim = fresh(2);
    sim.h(0);
    sim.cx(0, 1);
    sim.h(1);
    assert_eq!(
        snapshot(&sim),
        vec![
            (vec![true, false], vec![false, true], false),
            (vec![false, true], vec![true, false], false),
        ]
    );
    sim.cx(0, 1);
    sim.cx(0, 1);
    assert_eq!(
        snapshot(&sim),
        vec![
            (vec![true, false], vec![false, true], true),
            (vec![false, true], vec![true, false], false),
        ]
    );
}

#[test]
fn initialize_puts_everything_back() {
    let mut sim = mixed();
    sim.measure(0, 2);
    sim.measure(1, 1);
    sim.initialize();
    assert_eq!(snapshot(&sim), snapshot(&fresh(3)));
    let mut buf = sim.make_buffer();
    sim.receive(&mut buf);
    for i in 0..3 {
        assert!(!buf.get_bool(i));
    }
}

#[test]
fn mult_to_adds_factors_and_signs() {
    let mut sim = fresh(3);
    sim.x(0);
    sim.x(1);
    sim.h(2);
    sim.mult_to(0, 1);
    sim.mult_to(2, 1);
    assert_eq!(
        snapshot(&sim),
        vec![
            (vec![false, false, false], vec![true, true, false], false),
            (vec![false, false, false], vec![false, true, false], true),
            (vec![false, false, true], vec![false, true, false], true),
        ]
    );
}

#[test]
fn gates_on_many_qubits_reach_past_one_word() {
    let mut sim = fresh(70);
    sim.h(69);
    sim.cx(69, 33);
    sim.s(33);
    for j in 0..70 {
        assert_eq!(sim.x_bit(69, j), j == 69 || j == 33);
        assert_eq!(sim.z_bit(69, j), j == 33);
        assert_eq!(sim.z_bit(33, j), j == 33 || j == 69);
    }
    assert!(!sim.sign_bit(69));
}
