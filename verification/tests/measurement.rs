use lay_simulator_gk::{
    BitArray, GottesmanKnillSimulator, Operation, RandomSource, RepeatSeqFakeRng,
};
use rand_core::{RngCore, SeedableRng};
use rand_xorshift::XorShiftRng;

type Sim = GottesmanKnillSimulator<RepeatSeqFakeRng>;

fn with_words(n: u32, words: Vec<u64>) -> Sim {
    GottesmanKnillSimulator::from_rng(n, RepeatSeqFakeRng::new(words))
}

fn slots(sim: &mut Sim) -> Vec<bool> {
    let mut buf = BitArray::zeros(0);
    sim.receive(&mut buf);
    (0..buf.len()).map(|i| buf.get_bool(i)).collect()
}

#[test]
fn a_basis_state_measures_as_its_bits() {
    let flips: [u32; 9] = [0, 3, 3, 5, 3, 6, 0, 0, 1];
    let mut sim = with_words(7, vec![1]);
    sim.initialize();
    let mut parity = [false; 7];
    for q in flips {
        sim.x(q);
        parity[q as usize] = !parity[q as usize];
    }
    for q in 0..7 {
        assert_eq!(sim.first_anticommuting(q), 7);
        sim.measure(q, q);
    }
    assert_eq!(slots(&mut sim), parity.to_vec());
    for k in 0..7u32 {
        for j in 0..7u32 {
            assert!(!sim.x_bit(k, j));
            assert_eq!(sim.z_bit(k, j), k == j);
        }
        assert_eq!(sim.sign_bit(k), parity[k as usize]);
    }
}

#[test]
fn a_random_outcome_is_the_low_bit_of_the_word() {
    for (word, bit) in [(0u64, false), (1, true), (2, false), (0xffff_ffff, true), (1 << 32, false)] {
        let mut sim = with_words(1, vec![word]);
        sim.h(0);
        assert_eq!(sim.first_anticommuting(0), 0);
        sim.measure(0, 0);
        assert_eq!(slots(&mut sim), vec![bit]);
        assert!(!sim.x_bit(0, 0));
        assert!(sim.z_bit(0, 0));
        assert_eq!(sim.sign_bit(0), bit);
    }
}

#[test]
fn a_forced_outcome_draws_no_word() {
    let mut sim = with_words(2, vec![1, 0]);
    sim.h(0);
    sim.measure(0, 0);
    sim.measure(0, 1);
    assert_eq!(slots(&mut sim), vec![true, true]);
    sim.h(1);
    sim.measure(1, 0);
    assert_eq!(slots(&mut sim), vec![false, true]);
}

#[test]
fn collapse_multiplies_the_first_row_into_the_others() {
    let mut sim = with_words(3, vec![5]);
    sim.h(0);
    sim.h(1);
    sim.x(2);
    sim.z(1);
    sim.cx(0, 2);
    assert_eq!(sim.first_anticommuting(0), 0);
    sim.mult_to(1, 0);
    // rows: X0 X2, -X0 X1 X2, -Z0 Z2
    let bit = sim.collapse(0, 0, 6);
    assert!(!bit);
    assert_eq!(
        (0..3).map(|j| (sim.x_bit(0, j), sim.z_bit(0, j))).collect::<Vec<_>>(),
        vec![(false, true), (false, false), (false, false)]
    );
    assert!(!sim.sign_bit(0));
    assert_eq!(
        (0..3).map(|j| (sim.x_bit(1, j), sim.z_bit(1, j))).collect::<Vec<_>>(),
        vec![(false, false), (true, false), (false, false)]
    );
    assert!(sim.sign_bit(1));
    assert_eq!(
        (0..3).map(|j| (sim.x_bit(2, j), sim.z_bit(2, j))).collect::<Vec<_>>(),
        vec![(false, true), (false, false), (false, true)]
    );
    assert!(sim.sign_bit(2));
}

#[test]
fn isolate_leaves_the_row_that_is_z_on_the_qubit() {
    let mut sim = with_words(3, vec![0]);
    sim.x(0);
    sim.cx(0, 1);
    sim.cx(1, 2);
    // rows: -Z0, Z0 Z1, Z1 Z2: the state 111
    let live = sim.isolate(2);
    assert_eq!(live.len(), 1);
    let row = live[0] as u32;
    for j in 0..3 {
        assert!(!sim.x_bit(row, j));
        assert_eq!(sim.z_bit(row, j), j == 2);
    }
    assert!(sim.sign_bit(row));
    let mut again = with_words(3, vec![0]);
    again.x(0);
    again.cx(0, 1);
    again.cx(1, 2);
    assert!(again.measure_forced(2));
    assert!(again.measure_forced(1));
    assert!(again.measure_forced(0));
}

#[test]
fn bell_pairs_agree_whatever_the_word() {
    for word in [0u64, 1] {
        let mut sim = with_words(2, vec![word]);
        sim.send(&[
            Operation::initialize(),
            Operation::h(1),
            Operation::cx(1, 0),
            Operation::measure(0, 0),
            Operation::measure(1, 1),
        ]);
        assert_eq!(slots(&mut sim), vec![word == 1, word == 1]);
    }
}

#[test]
fn a_slot_is_overwritten() {
    let mut sim = with_words(2, vec![0]);
    sim.x(0);
    sim.measure(0, 1);
    assert_eq!(slots(&mut sim), vec![false, true]);
    sim.measure(1, 1);
    assert_eq!(slots(&mut sim), vec![false, false]);
}

#[test]
fn the_same_seed_gives_the_same_results() {
    let mut ops = vec![Operation::initialize()];
    for q in 0..20 {
        ops.push(Operation::h(q));
    }
    for q in 0..19 {
        ops.push(Operation::cx(q, q + 1));
    }
    for q in 0..20 {
        ops.push(Operation::measure(q, q));
    }
    for seed in [0u64, 1, 42, u64::MAX] {
        let mut first = BitArray::zeros(0);
        let mut second = BitArray::zeros(0);
        GottesmanKnillSimulator::from_seed(20, seed).send_receive(&ops, &mut first);
        GottesmanKnillSimulator::from_seed(20, seed).send_receive(&ops, &mut second);
        for i in 0..20 {
            assert_eq!(first.get_bool(i), second.get_bool(i));
        }
    }
}

#[test]
fn a_seeded_simulator_draws_from_the_seeded_xorshift_generator() {
    for seed in 0..40u64 {
        let mut reference = XorShiftRng::seed_from_u64(seed);
        let mut sim = GottesmanKnillSimulator::from_seed(3, seed);
        for q in 0..3 {
            sim.h(q);
        }
        for q in 0..3 {
            sim.measure(q, q);
        }
        let mut buf = sim.make_buffer();
        sim.receive(&mut buf);
        for q in 0..3 {
            assert_eq!(buf.get_bool(q), RngCore::next_u32(&mut reference) & 1 == 1);
        }
    }
}

#[test]
fn seeded_generators_differ_by_seed() {
    let mut seen = Vec::new();
    for seed in 0..8u64 {
        let mut sim = GottesmanKnillSimulator::from_seed(32, seed);
        for q in 0..32 {
            sim.h(q);
            sim.measure(q, q);
        }
        let mut buf = sim.make_buffer();
        sim.receive(&mut buf);
        seen.push((0..32).map(|i| buf.get_bool(i)).collect::<Vec<_>>());
    }
    seen.sort();
    seen.dedup();
    assert!(seen.len() > 1);
}

#[test]
fn the_repeating_source_is_a_random_source() {
    fn draw<S: RandomSource>(source: &mut S) -> u32 {
        source.next_u32()
    }
    let mut rng = RepeatSeqFakeRng::new(vec![(9 << 32) | 4, 5]);
    assert_eq!(draw(&mut rng), 4);
    assert_eq!(draw(&mut rng), 5);
    assert_eq!(draw(&mut rng), 4);
    let mut xorshift = XorShiftRng::seed_from_u64(11);
    let mut reference = XorShiftRng::seed_from_u64(11);
    assert_eq!(draw(&mut xorshift), RngCore::next_u32(&mut reference));
    assert_eq!(draw(&mut xorshift), RngCore::next_u32(&mut reference));
}
