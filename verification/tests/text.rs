use lay_simulator_gk::text::{push_binary, push_decimal};
use lay_simulator_gk::{BitArray, GottesmanKnillSimulator};

#[test]
fn numbers_in_binary() {
    for (word, text) in [
        (0u32, "0"),
        (1, "1"),
        (2, "10"),
        (5, "101"),
        (0x8000_0000, "10000000000000000000000000000000"),
        (u32::MAX, "11111111111111111111111111111111"),
    ] {
        let mut out = String::from("w=");
        push_binary(&mut out, word);
        assert_eq!(out, format!("w={}", text));
        assert_eq!(out, format!("w={:b}", word));
    }
}

#[test]
fn numbers_in_decimal() {
    for number in [0usize, 1, 9, 10, 11, 99, 100, 1234567890, usize::MAX] {
        let mut out = String::from("n=");
        push_decimal(&mut out, number);
        assert_eq!(out, format!("n={}", number));
    }
}

#[test]
fn a_bit_vector_shown_for_debugging() {
    assert_eq!(BitArray::zeros(0).debug_string(), "Bitarray { inner: [], len: 0 }");
    assert_eq!(BitArray::zeros(1).debug_string(), "Bitarray { inner: [0], len: 1 }");
    assert_eq!(BitArray::ones(3).debug_string(), "Bitarray { inner: [111], len: 3 }");
    let mut ba = BitArray::zeros(41);
    ba.negate(0);
    ba.negate(3);
    ba.negate(32);
    assert_eq!(ba.debug_string(), "Bitarray { inner: [1001 1], len: 41 }");
    assert_eq!(
        BitArray::ones(65).debug_string(),
        format!("Bitarray {{ inner: [{0} {0} 1], len: 65 }}", "1".repeat(32))
    );
}

#[test]
fn a_simulator_shown_for_debugging() {
    let mut sim = GottesmanKnillSimulator::from_seed(2, 0);
    sim.x(0);
    sim.cx(0, 1);
    sim.measure(0, 1);
    assert_eq!(
        sim.dump(),
        "xs:   [Bitarray { inner: [0], len: 2 }, Bitarray { inner: [0], len: 2 }]\n\
         zs:   [Bitarray { inner: [1], len: 2 }, Bitarray { inner: [11], len: 2 }]\n\
         sgns: Bitarray { inner: [1], len: 2 }\n\
         measured: Bitarray { inner: [10], len: 2 }\n"
    );
    assert_eq!(
        GottesmanKnillSimulator::from_seed(0, 0).dump(),
        "xs:   []\nzs:   []\nsgns: Bitarray { inner: [], len: 0 }\n\
         measured: Bitarray { inner: [], len: 0 }\n"
    );
}
