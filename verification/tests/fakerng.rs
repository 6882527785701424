use lay_simulator_gk::RepeatSeqFakeRng;

#[test]
fn test_u64() {
    let mut rng = RepeatSeqFakeRng::new(vec![100, 200, 300]);

    assert_eq!(rng.next_u64(), 100);
    assert_eq!(rng.next_u64(), 200);
    assert_eq!(rng.next_u64(), 300);
    assert_eq!(rng.next_u64(), 100);
    assert_eq!(rng.next_u64(), 200);
    assert_eq!(rng.next_u64(), 300);
    assert_eq!(rng.next_u64(), 100);
}

#[test]
fn test_u32() {
    let mut rng = RepeatSeqFakeRng::new(vec![(100 << 32) | 5, (200 << 32) | 6, (300 << 32) | 7]);

    assert_eq!(rng.next_u32(), 5);
    assert_eq!(rng.next_u32(), 6);
    assert_eq!(rng.next_u32(), 7);
}

#[test]
fn test_len1() {
    let mut rng = RepeatSeqFakeRng::new(vec![1]);
    assert_eq!(rng.next_u64(), 1);
    assert_eq!(rng.next_u32(), 1);
    assert_eq!(rng.next_u64(), 1);
}

#[test]
fn fill_bytes_justsize() {
    let mut rng = RepeatSeqFakeRng::new(vec![0x4142434445464748, 0x494a4b4c4d4e4f50]);
    let mut vec = vec![0; 16];

    rng.fill_bytes(vec.as_mut());
    assert_eq!(vec.as_slice(), b"HGFEDCBAPONMLKJI");
}

#[test]
fn fill_bytes_repeated() {
    let mut rng = RepeatSeqFakeRng::new(vec![0x4142434445464748, 0x494a4b4c4d4e4f50]);
    let mut vec = vec![0; 16];

    let _ = rng.next_u64();
    rng.fill_bytes(vec.as_mut());
    assert_eq!(vec.as_slice(), b"PONMLKJIHGFEDCBA");
}

#[test]
fn fill_bytes_smallsize() {
    let mut rng = RepeatSeqFakeRng::new(vec![0x4142434445464748, 0x494a4b4c4d4e4f50, 0xdeadbeef]);
    let mut vec = vec![0; 3];

    let _ = rng.next_u64();
    rng.fill_bytes(vec.as_mut());
    assert_eq!(vec.as_slice(), b"PON");
    assert_eq!(rng.next_u64(), 0xdeadbeef);
}

#[test]
fn fill_bytes_draws_one_word_past_the_full_ones() {
    let mut rng = RepeatSeqFakeRng::new(vec![1, 2, 3, 4]);
    let mut vec: Vec<u8> = vec![0xff; 16];
    rng.fill_bytes(&mut vec);
    assert_eq!(vec, vec![1, 0, 0, 0, 0, 0, 0, 0, 2, 0, 0, 0, 0, 0, 0, 0]);
    assert_eq!(rng.next_u64(), 4);
}

#[test]
fn fill_bytes_of_nothing_draws_one_word() {
    let mut rng = RepeatSeqFakeRng::new(vec![7, 8]);
    let mut vec: Vec<u8> = Vec::new();
    rng.fill_bytes(&mut vec);
    assert!(vec.is_empty());
    assert_eq!(rng.next_u64(), 8);
}

#[test]
fn fill_bytes_with_a_remainder() {
    let mut rng = RepeatSeqFakeRng::new(vec![0x0807060504030201, 0x100f0e0d0c0b0a09]);
    let mut vec: Vec<u8> = vec![0; 11];
    rng.fill_bytes(&mut vec);
    assert_eq!(vec, vec![1, 2, 3, 4, 5, 6, 7, 8, 9, 10, 11]);
    assert_eq!(rng.next_u64(), 0x0807060504030201);
}

#[test]
fn next_u32_is_the_low_half() {
    let mut rng = RepeatSeqFakeRng::new(vec![0xffff_ffff_0000_0001, 0x1_8000_0000]);
    assert_eq!(rng.next_u32(), 1);
    assert_eq!(rng.next_u32(), 0x8000_0000);
    assert_eq!(rng.next_u32(), 1);
}
