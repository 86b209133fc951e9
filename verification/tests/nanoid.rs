use id_forge::nanoid::{
    custom, generate, mask_bits, try_custom, validate_alphabet, with_length, AlphabetError,
    DEFAULT_ALPHABET,
};
use id_forge::rng::Xoshiro256SS;
use std::collections::HashSet;

fn rng() -> Xoshiro256SS {
    Xoshiro256SS::from_entropy(13, 3)
}

#[test]
fn default_length() {
    assert_eq!(generate(&mut rng()).len(), 21);
}

#[test]
fn with_length_correct() {
    assert_eq!(with_length(10, &mut rng()).len(), 10);
}

#[test]
fn custom_alphabet_respected() {
    let id = custom(64, b"01", &mut rng());
    assert!(id.chars().all(|c| c == '0' || c == '1'));
    assert_eq!(id.len(), 64);
}

#[test]
fn unique_ids() {
    let mut r = rng();
    assert_ne!(generate(&mut r), generate(&mut r));
}

#[test]
fn many_default_unique() {
    let mut r = rng();
    let mut set = HashSet::new();
    for _ in 0..10_000 {
        assert!(set.insert(generate(&mut r)));
    }
}

#[test]
fn empty_alphabet_returns_empty() {
    assert_eq!(custom(10, &[], &mut rng()), "");
}

#[test]
fn zero_length_returns_empty() {
    let mut r = rng();
    assert_eq!(custom(0, &DEFAULT_ALPHABET, &mut r), "");
    assert_eq!(with_length(0, &mut r), "");
}

#[test]
fn single_char_alphabet() {
    let id = custom(8, b"x", &mut rng());
    assert_eq!(id, "xxxxxxxx");
}

#[test]
fn try_custom_rejects_empty() {
    assert_eq!(try_custom(8, b"", &mut rng()), Err(AlphabetError::Empty));
}

#[test]
fn try_custom_rejects_duplicate() {
    let err = try_custom(8, b"abcda", &mut rng()).unwrap_err();
    assert_eq!(err, AlphabetError::Duplicate(b'a'));
}

#[test]
fn try_custom_accepts_valid() {
    let id = try_custom(12, b"abcdef0123", &mut rng()).unwrap();
    assert_eq!(id.len(), 12);
    assert!(id.chars().all(|c| "abcdef0123".contains(c)));
}

#[test]
fn validate_alphabet_paths() {
    assert!(validate_alphabet(&DEFAULT_ALPHABET).is_ok());
    assert_eq!(validate_alphabet(b""), Err(AlphabetError::Empty));
    assert_eq!(
        validate_alphabet(b"abca"),
        Err(AlphabetError::Duplicate(b'a'))
    );
}

#[test]
fn non_power_of_two_alphabet_unbiased() {
    let alphabet: &[u8] = b"ABCDEFGHIJKLMNOPQ";
    let id = custom(170_000, alphabet, &mut rng());
    let mut counts = [0usize; 17];
    for c in id.bytes() {
        let i = alphabet.iter().position(|&b| b == c).unwrap();
        counts[i] += 1;
    }
    for (i, &n) in counts.iter().enumerate() {
        assert!(
            (8_800..=11_200).contains(&n),
            "alphabet[{i}] ({}) count {n} outside expected band",
            alphabet[i] as char
        );
    }
}

#[test]
fn mask_bits_known_values() {
    assert_eq!(mask_bits(2), 1);
    assert_eq!(mask_bits(8), 3);
    assert_eq!(mask_bits(64), 6);
    assert_eq!(mask_bits(65), 7);
    assert_eq!(mask_bits(256), 8);
}

#[test]
fn length_exact_across_alphabet_sizes() {
    let printable: Vec<u8> = (b'!'..=b'~').collect();
    let mut r = rng();
    for n in [2usize, 7, 16, 33, 64, 65, 93, 94] {
        let alphabet = &printable[..n];
        let id = custom(50, alphabet, &mut r);
        assert_eq!(id.chars().count(), 50, "size {n}");
        assert_eq!(id.len(), 50, "size {n}: ASCII alphabet so bytes==chars");
    }
}

#[test]
fn non_ascii_alphabet_counts_chars_not_bytes() {
    let printable: Vec<u8> = (0..=255).collect();
    let id = custom(30, &printable, &mut rng());
    assert_eq!(id.chars().count(), 30);
}

#[test]
fn default_alphabet_has_no_duplicates() {
    assert!(validate_alphabet(&DEFAULT_ALPHABET).is_ok());
    assert_eq!(DEFAULT_ALPHABET.len(), 64);
}

// Further cases.

#[test]
fn first_repeated_byte_is_reported() {
    // 'b' repeats before 'a' does.
    assert_eq!(
        validate_alphabet(b"abba"),
        Err(AlphabetError::Duplicate(b'b'))
    );
}

#[test]
fn try_custom_rejects_before_drawing() {
    let mut a = Xoshiro256SS::from_seed(3);
    let mut b = Xoshiro256SS::from_seed(3);
    assert!(try_custom(8, b"aa", &mut a).is_err());
    assert_eq!(a.next_u64(), b.next_u64());
}

#[test]
fn sixty_four_chars_take_six_bits_each() {
    // With a 64-byte alphabet every 6-bit chunk is accepted, and a word
    // yields 10 chunks, so 10 characters come from one word.
    let mut r = Xoshiro256SS::from_seed(77);
    let mut probe = Xoshiro256SS::from_seed(77);
    let word = probe.next_u64();
    let id = with_length(10, &mut r);
    let expected: String = (0..10)
        .map(|k| DEFAULT_ALPHABET[((word >> (6 * k)) & 0x3f) as usize] as char)
        .collect();
    assert_eq!(id, expected);
    // Exactly one word was drawn.
    assert_eq!(r.next_u64(), probe.next_u64());
}

#[test]
fn rejected_chunks_are_skipped() {
    // A 3-byte alphabet uses 2-bit chunks and skips the value 3.
    let mut probe = Xoshiro256SS::from_seed(5);
    let word = probe.next_u64();
    let expected: String = (0..32)
        .map(|k| ((word >> (2 * k)) & 3) as usize)
        .filter(|&i| i < 3)
        .map(|i| b"xyz"[i] as char)
        .take(4)
        .collect();
    let got = custom(expected.len(), b"xyz", &mut Xoshiro256SS::from_seed(5));
    assert_eq!(got, expected);
}
