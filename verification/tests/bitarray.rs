use lay_simulator_gk::BitArray;

fn collect_indices(ba: &BitArray) -> Vec<usize> {
    let mut it = ba.true_indices();
    let mut v = Vec::new();
    while let Some(i) = it.next() {
        v.push(i);
    }
    v
}

#[test]
fn bitarray_it_works() {
    assert_eq!(2 + 2, 4);
}

#[test]
fn set_get1() {
    let mut ba = BitArray::zeros(6);

    ba.set_bool(1, true);
    ba.set_bool(2, false);
    ba.negate(3);

    let ans = [false, true, false, true, false, false];
    for i in 0..6 {
        assert_eq!(ans[i], ba.get_bool(i));
    }
}

#[test]
fn set_get2() {
    let mut ba = BitArray::ones(6);

    ba.negate(3);
    ba.set_bool(1, true);
    ba.set_bool(2, false);

    let ans = [true, true, false, false, true, true];
    for i in 0..6 {
        assert_eq!(ans[i], ba.get_bool(i));
    }
}

#[test]
fn set_get3() {
    let mut ba = BitArray::zeros(34);
    ba.negate(31);
    for i in 0..34 {
        assert_eq!(i == 31, ba.get_bool(i));
    }
}

#[test]
fn set_get4() {
    let mut ba = BitArray::zeros(34);
    ba.negate(32);
    for i in 0..34 {
        assert_eq!(i == 32, ba.get_bool(i));
    }
}

#[test]
fn set_get5() {
    let mut ba = BitArray::zeros(34);
    ba.negate(33);
    for i in 0..34 {
        assert_eq!(i == 33, ba.get_bool(i));
    }
}

#[test]
fn set_get6() {
    let mut ba = BitArray::zeros(6);

    ba.set_bool(1, true);
    ba.set_bool(1, false);
    for i in 0..6 {
        assert_eq!(false, ba.get_bool(i));
    }
}

#[test]
fn set_get7() {
    let mut ba = BitArray::zeros(7);

    ba.set_bool(2, false);
    ba.set_bool(2, true);
    for i in 0..7 {
        assert_eq!(i == 2, ba.get_bool(i));
    }
}

#[test]
fn indices1() {
    let mut ba = BitArray::zeros(41);
    ba.negate(0);
    ba.negate(3);
    ba.negate(21);
    ba.negate(31);
    ba.negate(32);
    ba.negate(33);
    let v = collect_indices(&ba);
    assert_eq!(v, vec![0, 3, 21, 31, 32, 33]);
}

#[test]
fn indices2() {
    let ba = BitArray::ones(3);
    let v = collect_indices(&ba);
    assert_eq!(v, vec![0, 1, 2]);
}

#[test]
fn zeros_and_ones_have_the_length_asked_for() {
    for len in [0usize, 1, 31, 32, 33, 64, 65] {
        let z = BitArray::zeros(len);
        let o = BitArray::ones(len);
        assert_eq!(z.len(), len);
        assert_eq!(o.len(), len);
        for i in 0..len {
            assert!(!z.get_bool(i));
            assert!(o.get_bool(i));
        }
    }
}

#[test]
fn indices_of_an_empty_vector() {
    let ba = BitArray::zeros(0);
    assert_eq!(collect_indices(&ba), Vec::<usize>::new());
    let mut it = ba.true_indices();
    assert_eq!(it.next(), None);
    assert_eq!(it.next(), None);
}

#[test]
fn indices_stop_at_the_length() {
    for len in [1usize, 31, 32, 33, 63, 64, 65, 100] {
        let ba = BitArray::ones(len);
        let expect: Vec<usize> = (0..len).collect();
        assert_eq!(collect_indices(&ba), expect);
        let none = BitArray::zeros(len);
        assert_eq!(collect_indices(&none), Vec::<usize>::new());
    }
}

#[test]
fn indices_are_exhausted_for_good() {
    let mut ba = BitArray::zeros(70);
    ba.negate(69);
    let mut it = ba.true_indices();
    assert_eq!(it.next(), Some(69));
    assert_eq!(it.next(), None);
    assert_eq!(it.next(), None);
}

#[test]
fn get_masked_is_the_bit_in_place() {
    let mut ba = BitArray::zeros(40);
    ba.negate(5);
    ba.negate(37);
    assert_eq!(ba.get_masked(5), 1 << 5);
    assert_eq!(ba.get_masked(37), 1 << 5);
    assert_eq!(ba.get_masked(6), 0);
    assert_eq!(ba.get_masked(31), 0);
}

#[test]
fn xor_all_adds_modulo_two() {
    let mut a = BitArray::zeros(35);
    let mut b = BitArray::zeros(35);
    a.negate(0);
    a.negate(33);
    b.negate(33);
    b.negate(34);
    a.xor_all(&b);
    for i in 0..35 {
        assert_eq!(a.get_bool(i), i == 0 || i == 34);
    }
    assert_eq!(collect_indices(&b), vec![33, 34]);
}

#[test]
fn xor_all_with_itself_clears() {
    let mut a = BitArray::ones(45);
    let b = a.clone();
    a.xor_all(&b);
    assert_eq!(collect_indices(&a), Vec::<usize>::new());
    assert_eq!(b.len(), 45);
    assert!(b.get_bool(44));
}

#[test]
fn reset_clears_and_keeps_the_length() {
    let mut a = BitArray::ones(33);
    a.reset();
    assert_eq!(a.len(), 33);
    assert_eq!(collect_indices(&a), Vec::<usize>::new());
}

#[test]
fn copy_from_takes_bits_and_length() {
    let mut src = BitArray::zeros(37);
    src.negate(36);
    src.negate(2);
    let mut dst = BitArray::ones(3);
    dst.copy_from(&src);
    assert_eq!(dst.len(), 37);
    assert_eq!(collect_indices(&dst), vec![2, 36]);
    let mut small = BitArray::zeros(0);
    dst.copy_from(&small);
    assert_eq!(dst.len(), 0);
    small.copy_from(&src);
    assert_eq!(collect_indices(&small), vec![2, 36]);
}

#[test]
fn negate_twice_is_no_change() {
    let mut a = BitArray::zeros(64);
    a.negate(63);
    a.negate(63);
    assert_eq!(collect_indices(&a), Vec::<usize>::new());
}
