use id_forge::rng::Xoshiro256SS;

#[test]
fn seeded_state_is_nonzero() {
    let mut r = Xoshiro256SS::from_seed(0);
    let a = r.next_u64();
    let b = r.next_u64();
    assert_ne!(a, 0);
    assert_ne!(a, b);
}

#[test]
fn different_seeds_diverge() {
    let mut a = Xoshiro256SS::from_seed(1);
    let mut b = Xoshiro256SS::from_seed(2);
    assert_ne!(a.next_u64(), b.next_u64());
}

#[test]
fn entropy_draws_differ() {
    let mut r = Xoshiro256SS::from_entropy(17, 0);
    assert_ne!(r.next_u64(), r.next_u64());
}

#[test]
fn bytes_16_differs_across_calls() {
    let mut r = Xoshiro256SS::from_entropy(17, 1);
    assert_ne!(r.next_bytes_16(), r.next_bytes_16());
}

// Further cases.

#[test]
fn same_seed_same_stream() {
    let mut a = Xoshiro256SS::from_seed(123);
    let mut b = Xoshiro256SS::from_seed(123);
    for _ in 0..100 {
        assert_eq!(a.next_u64(), b.next_u64());
    }
}

#[test]
fn bytes_16_are_two_words_big_endian() {
    let mut a = Xoshiro256SS::from_seed(9);
    let mut b = Xoshiro256SS::from_seed(9);
    let w1 = b.next_u64();
    let w2 = b.next_u64();
    let bytes = a.next_bytes_16();
    assert_eq!(&bytes[0..8], &w1.to_be_bytes());
    assert_eq!(&bytes[8..16], &w2.to_be_bytes());
}

#[test]
fn xoshiro_reference_output() {
    // Reference xoshiro256** step computed by hand from a fixed state:
    // seed 0 through SplitMix64 gives these first two outputs.
    let mut r = Xoshiro256SS::from_seed(0);
    let s1 = 0x6e789e6aa1b965f4u64; // second SplitMix64 output for seed 0
    let expected = s1.wrapping_mul(5).rotate_left(7).wrapping_mul(9);
    assert_eq!(r.next_u64(), expected);
}

#[test]
fn entropy_seed_mixes_inputs() {
    let a = Xoshiro256SS::from_parts(1, 2, 3);
    let b = Xoshiro256SS::from_parts(1, 2, 4);
    let (mut a, mut b) = (a, b);
    assert_ne!(a.next_u64(), b.next_u64());
    let seed = 1u64
        .wrapping_mul(0x9E37_79B9_7F4A_7C15)
        .wrapping_add(2)
        .wrapping_add(3u64.wrapping_mul(0xBF58_476D_1CE4_E5B9));
    let mut c = Xoshiro256SS::from_seed(seed);
    let mut d = Xoshiro256SS::from_parts(1, 2, 3);
    assert_eq!(c.next_u64(), d.next_u64());
}
