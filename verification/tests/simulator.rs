use lay_simulator_gk::{BitArray, GottesmanKnillSimulator, Operation, RepeatSeqFakeRng};

fn measure_all(ops: &mut Vec<Operation>, n_qubits: u32) {
    for i in 0..n_qubits {
        ops.push(Operation::measure(i, i));
    }
}

fn check(f: impl Fn(&mut Vec<Operation>, u32), expect: &[u32]) {
    let mut ops = Vec::new();
    let mut result = BitArray::zeros(0);
    f(&mut ops, expect.len() as u32);
    GottesmanKnillSimulator::from_seed(expect.len() as u32, 0).send_receive(&ops, &mut result);
    let actual: Vec<_> = (0..expect.len()).map(|i| result.get_bool(i) as u32).collect();
    assert_eq!(actual.as_slice(), expect);
}

fn check_with_randseq(f: impl Fn(&mut Vec<Operation>, u32), expect: &[u32], seq: Vec<u64>) {
    let mut ops = Vec::new();
    let mut result = BitArray::zeros(0);
    f(&mut ops, expect.len() as u32);
    GottesmanKnillSimulator::from_rng(expect.len() as u32, RepeatSeqFakeRng::new(seq))
        .send_receive(&ops, &mut result);
    let actual: Vec<_> = (0..expect.len()).map(|i| result.get_bool(i) as u32).collect();
    assert_eq!(actual.as_slice(), expect);
}

#[test]
fn lib_it_works() {
    assert_eq!(2 + 2, 4);
    let _ = GottesmanKnillSimulator::from_seed(3, 0);
}

#[test]
fn test_zgate1() {
    check(
        |gk, n_qubits| {
            gk.push(Operation::z(0));
            measure_all(gk, n_qubits);
        },
        &[0],
    );
}

#[test]
fn test_xgate1() {
    check(
        |gk, n_qubits| {
            gk.push(Operation::x(0));
            measure_all(gk, n_qubits);
        },
        &[1],
    );
}

#[test]
fn test_xgate2() {
    check(
        |gk, n_qubits| {
            gk.push(Operation::x(0));
            gk.push(Operation::x(3));
            gk.push(Operation::z(2));
            gk.push(Operation::x(6));
            measure_all(gk, n_qubits);
        },
        &[1, 0, 0, 1, 0, 0, 1],
    );
}

#[test]
fn test_cx1() {
    check(
        |gk, n_qubits| {
            gk.push(Operation::cx(0, 1));
            measure_all(gk, n_qubits);
        },
        &[0, 0],
    );
}

#[test]
fn test_cx2() {
    check(
        |gk, n_qubits| {
            gk.push(Operation::x(1));
            gk.push(Operation::cx(0, 1));
            measure_all(gk, n_qubits);
        },
        &[0, 1],
    );
}

#[test]
fn test_cx3() {
    check(
        |gk, n_qubits| {
            gk.push(Operation::x(0));
            gk.push(Operation::cx(0, 1));
            measure_all(gk, n_qubits);
        },
        &[1, 1],
    );
}

#[test]
fn test_cx4() {
    check(
        |gk, n_qubits| {
            gk.push(Operation::x(0));
            gk.push(Operation::cx(0, 1));
            gk.push(Operation::cx(1, 2));
            gk.push(Operation::cx(2, 0));
            measure_all(gk, n_qubits);
        },
        &[0, 1, 1],
    );
}

#[test]
fn test_h_and_z() {
    check(
        |gk, n_qubits| {
            gk.push(Operation::h(0));
            gk.push(Operation::z(0));
            gk.push(Operation::h(0));
            gk.push(Operation::x(1));
            gk.push(Operation::h(1));
            gk.push(Operation::h(1));
            measure_all(gk, n_qubits);
        },
        &[1, 1],
    );
}

#[test]
fn test_h_and_s() {
    check(
        |gk, n_qubits| {
            gk.push(Operation::h(0));
            gk.push(Operation::s(0));
            gk.push(Operation::s(0));
            gk.push(Operation::s(0));
            gk.push(Operation::s(0));
            gk.push(Operation::h(0));
            gk.push(Operation::h(1));
            gk.push(Operation::sdg(1));
            gk.push(Operation::sdg(1));
            gk.push(Operation::h(1));
            measure_all(gk, n_qubits);
        },
        &[0, 1],
    );
}

#[test]
fn test_h_and_x() {
    check(
        |gk, n_qubits| {
            gk.push(Operation::h(0));
            gk.push(Operation::s(0));
            gk.push(Operation::h(0));
            gk.push(Operation::x(0));
            gk.push(Operation::h(0));
            gk.push(Operation::sdg(0));
            gk.push(Operation::h(0));
            measure_all(gk, n_qubits);
        },
        &[1],
    );
}

#[test]
fn test_hh() {
    check_with_randseq(
        |gk, n_qubits| {
            gk.push(Operation::h(0));
            gk.push(Operation::cx(0, 1));
            gk.push(Operation::h(2));
            gk.push(Operation::cx(2, 3));
            measure_all(gk, n_qubits);
        },
        &[1, 1, 0, 0],
        vec![1, 0, 0, 0],
    );
}

#[test]
fn test_manyqubit1() {
    let n_qubits = 200;
    let mut sim = GottesmanKnillSimulator::from_seed(n_qubits, 0);
    let mut ops = Vec::new();
    ops.push(Operation::initialize());
    for i in 0..n_qubits {
        ops.push(Operation::x(i));
        ops.push(Operation::measure(i, i));
    }
    sim.send(&ops);
}

#[test]
fn test_manyqubit2() {
    let n_qubits = 200;
    let mut sim = GottesmanKnillSimulator::from_seed(n_qubits, 0);
    let mut ops = Vec::new();
    ops.push(Operation::initialize());
    for i in 0..n_qubits {
        ops.push(Operation::x(i));
        ops.push(Operation::measure(i, i));
    }
    sim.send(&ops);
}

#[test]
fn test_measure() {
    let n_qubits = 5;
    let mut sim = GottesmanKnillSimulator::from_seed(n_qubits, 0);
    let mut ops = Vec::new();
    ops.push(Operation::initialize());
    for i in 0..n_qubits {
        ops.push(Operation::x(i));
        ops.push(Operation::measure(i, i));
    }
    let mut buf = sim.make_buffer();
    sim.send_receive(&ops, &mut buf);
    assert!(buf.get_bool(0));
    assert!(buf.get_bool(1));
    assert!(buf.get_bool(2));
    assert!(buf.get_bool(3));
    assert!(buf.get_bool(4));
}

#[test]
fn test_measure2() {
    let n_qubits = 5;
    let mut sim = GottesmanKnillSimulator::from_seed(n_qubits, 0);
    let mut ops = Vec::new();
    ops.push(Operation::initialize());
    for i in 0..n_qubits {
        ops.push(Operation::x(i));
    }
    for i in 0..n_qubits {
        ops.push(Operation::measure(i, i));
    }
    let mut buf = sim.make_buffer();
    sim.send_receive(&ops, &mut buf);
    assert!(buf.get_bool(0));
    assert!(buf.get_bool(1));
    assert!(buf.get_bool(2));
    assert!(buf.get_bool(3));
    assert!(buf.get_bool(4));
}

#[test]
fn test_measure3() {
    let mut sim = GottesmanKnillSimulator::from_seed(14, 0);
    let mut ops = Vec::new();
    ops.push(Operation::initialize());
    for i in 7..14 {
        ops.push(Operation::x(i));
    }
    for i in 0..14 {
        ops.push(Operation::measure(i, i));
    }
    let mut buf = sim.make_buffer();
    sim.send_receive(&ops, &mut buf);
    assert!(!buf.get_bool(0));
    assert!(!buf.get_bool(1));
    assert!(!buf.get_bool(2));
    assert!(!buf.get_bool(3));
    assert!(!buf.get_bool(4));
    assert!(!buf.get_bool(5));
    assert!(!buf.get_bool(6));
    assert!(buf.get_bool(7));
    assert!(buf.get_bool(8));
    assert!(buf.get_bool(9));
    assert!(buf.get_bool(10));
    assert!(buf.get_bool(11));
    assert!(buf.get_bool(12));
    assert!(buf.get_bool(13));
}

#[test]
fn test_bell() {
    let mut sim = GottesmanKnillSimulator::from_seed(14, 0);
    let mut ops = Vec::new();
    let mut buf = sim.make_buffer();
    ops.push(Operation::initialize());
    ops.push(Operation::h(1));
    ops.push(Operation::cx(1, 0));
    ops.push(Operation::measure(0, 0));
    ops.push(Operation::measure(0, 1));
    for i in 0..10 {
        sim.send_receive(&ops, &mut buf);
        let s0 = buf.get_bool(0);
        let s1 = buf.get_bool(1);
        println!("try: {}, |{}{}>", i, s0 as u8, s1 as u8);
        assert_eq!(s0, s1);
    }
}

#[test]
fn test_ghz() {
    let mut sim = GottesmanKnillSimulator::from_seed(3, 0);
    let mut ops = Vec::new();
    let mut buf = sim.make_buffer();
    ops.push(Operation::initialize());
    ops.push(Operation::h(1));
    ops.push(Operation::cx(1, 0));
    ops.push(Operation::cx(1, 2));
    ops.push(Operation::measure(0, 0));
    ops.push(Operation::measure(1, 1));
    ops.push(Operation::measure(2, 2));
    for i in 0..10 {
        sim.send_receive(&ops, &mut buf);
        let m0 = buf.get_bool(0);
        let m1 = buf.get_bool(1);
        let m2 = buf.get_bool(2);
        println!("try: {}, |{}{}{}>", i, m0 as u8, m1 as u8, m2 as u8);
        assert_eq!(m0, m1);
        assert_eq!(m0, m2);
    }
}
