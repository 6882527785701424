use lay_simulator_gk::opid;
use lay_simulator_gk::{BitArray, GottesmanKnillSimulator, Operation, RepeatSeqFakeRng};

type Sim = GottesmanKnillSimulator<RepeatSeqFakeRng>;

fn fresh(n: u32) -> Sim {
    GottesmanKnillSimulator::from_rng(n, RepeatSeqFakeRng::new(vec![1, 0]))
}

fn slots(sim: &mut Sim) -> Vec<bool> {
    let mut buf = BitArray::zeros(0);
    sim.receive(&mut buf);
    (0..buf.len()).map(|i| buf.get_bool(i)).collect()
}

#[test]
fn builders_make_the_shapes_with_their_identifiers() {
    assert_eq!(Operation::initialize(), Operation::Empty(1));
    assert_eq!(Operation::measure(3, 4), Operation::QS(2, 3, 4));
    assert_eq!(Operation::x(5), Operation::Q(3, 5));
    assert_eq!(Operation::y(5), Operation::Q(4, 5));
    assert_eq!(Operation::z(5), Operation::Q(5, 5));
    assert_eq!(Operation::h(5), Operation::Q(6, 5));
    assert_eq!(Operation::s(5), Operation::Q(7, 5));
    assert_eq!(Operation::sdg(5), Operation::Q(8, 5));
    assert_eq!(Operation::cx(6, 7), Operation::QQ(11, 6, 7));
    assert_eq!(
        [opid::INIT, opid::MEAS, opid::X, opid::Y, opid::Z, opid::H, opid::S, opid::SDG, opid::CX],
        [1, 2, 3, 4, 5, 6, 7, 8, 11]
    );
}

#[test]
fn supports_tells_known_operations_in_range() {
    let sim = fresh(3);
    for op in [
        Operation::initialize(),
        Operation::x(0),
        Operation::y(1),
        Operation::z(2),
        Operation::h(2),
        Operation::s(0),
        Operation::sdg(1),
        Operation::cx(0, 2),
        Operation::cx(1, 1),
        Operation::measure(2, 0),
    ] {
        assert!(sim.supports(&op));
    }
    for op in [
        Operation::Empty(opid::X),
        Operation::Empty(0),
        Operation::x(3),
        Operation::Q(opid::CX, 0),
        Operation::Q(opid::MEAS, 0),
        Operation::Q(9, 0),
        Operation::Q(10, 0),
        Operation::cx(3, 0),
        Operation::cx(0, 3),
        Operation::QQ(opid::X, 0, 1),
        Operation::measure(3, 0),
        Operation::measure(0, 3),
        Operation::QS(opid::INIT, 0, 0),
    ] {
        assert!(!sim.supports(&op));
    }
}

#[test]
fn send_applies_in_order() {
    let mut sim = fresh(2);
    sim.send(&[
        Operation::x(0),
        Operation::measure(0, 1),
        Operation::x(0),
        Operation::measure(0, 0),
    ]);
    assert_eq!(slots(&mut sim), vec![false, true]);
}

#[test]
fn apply_does_one_operation() {
    let mut sim = fresh(2);
    sim.apply(&Operation::x(1));
    sim.apply(&Operation::measure(1, 0));
    assert_eq!(slots(&mut sim), vec![true, false]);
    sim.apply(&Operation::initialize());
    assert_eq!(slots(&mut sim), vec![false, false]);
    assert!(!sim.sign_bit(1));
}

#[test]
fn try_send_runs_a_defined_batch_to_the_end() {
    let mut sim = fresh(2);
    let ops = [Operation::h(0), Operation::cx(0, 1), Operation::measure(0, 0), Operation::measure(1, 1)];
    assert_eq!(sim.try_send(&ops), 4);
    assert_eq!(slots(&mut sim), vec![true, true]);
    assert_eq!(sim.try_send(&[]), 0);
}

#[test]
fn try_send_stops_at_an_unknown_operation() {
    let mut sim = fresh(2);
    let ops = [Operation::x(0), Operation::Q(9, 0), Operation::x(1)];
    assert_eq!(sim.try_send(&ops), 1);
    assert!(sim.sign_bit(0));
    assert!(!sim.sign_bit(1));
    assert!(!sim.try_apply(&Operation::x(2)));
    assert!(!sim.try_apply(&Operation::Empty(7)));
    assert!(sim.sign_bit(0));
}

#[test]
fn try_send_stops_at_a_measurement_without_an_outcome() {
    let mut sim = fresh(2);
    let ops = [Operation::x(0), Operation::cx(1, 1), Operation::measure(0, 0), Operation::x(0)];
    assert_eq!(sim.try_send(&ops), 2);
    assert_eq!(slots(&mut sim), vec![false, false]);
    assert!(sim.sign_bit(0));
    assert!(!sim.try_measure(0, 0));
    assert!(!sim.try_apply(&Operation::measure(0, 1)));
    assert_eq!(slots(&mut sim), vec![false, false]);
    let live = sim.isolate(0);
    assert_eq!(live, vec![0, 1]);
}

#[test]
fn try_measure_records_an_outcome_where_there_is_one() {
    let mut sim = fresh(2);
    sim.x(1);
    assert!(sim.try_measure(1, 0));
    sim.h(0);
    assert!(sim.try_measure(0, 1));
    assert_eq!(slots(&mut sim), vec![true, true]);
}

#[test]
fn receive_resizes_the_buffer() {
    let mut sim = fresh(5);
    sim.x(4);
    sim.measure(4, 2);
    let mut buf = BitArray::ones(40);
    sim.receive(&mut buf);
    assert_eq!(buf.len(), 5);
    for i in 0..5 {
        assert_eq!(buf.get_bool(i), i == 2);
    }
    let fresh_buf = sim.make_buffer();
    assert_eq!(fresh_buf.len(), 5);
    for i in 0..5 {
        assert!(!fresh_buf.get_bool(i));
    }
}
