use id_forge::rng::Xoshiro256SS;
use id_forge::uuid::{ParseError, Uuid};
use std::collections::HashSet;

fn rng() -> Xoshiro256SS {
    Xoshiro256SS::from_entropy(7, 1)
}

#[test]
fn v4_version_and_variant() {
    let mut r = rng();
    let id = Uuid::v4(&mut r);
    assert_eq!(id.version(), 4);
    assert_eq!(id.as_bytes()[8] & 0xc0, 0x80);
}

#[test]
fn v7_version_and_variant() {
    let mut r = rng();
    let id = Uuid::v7(&mut r);
    assert_eq!(id.version(), 7);
    assert_eq!(id.as_bytes()[8] & 0xc0, 0x80);
}

#[test]
fn display_format_canonical() {
    let mut r = rng();
    let id = Uuid::v4(&mut r);
    let s = id.to_string();
    assert_eq!(s.len(), 36);
    let hyphen_positions: Vec<usize> = s
        .char_indices()
        .filter_map(|(i, c)| if c == '-' { Some(i) } else { None })
        .collect();
    assert_eq!(hyphen_positions, vec![8, 13, 18, 23]);
}

#[test]
fn v4_pair_differs() {
    let mut r = rng();
    assert_ne!(Uuid::v4(&mut r), Uuid::v4(&mut r));
}

#[test]
fn v7_pair_differs() {
    let mut r = rng();
    assert_ne!(Uuid::v7(&mut r), Uuid::v7(&mut r));
}

#[test]
fn v7_time_ordered_across_ms() {
    let mut r = rng();
    let now = id_forge::clock::unix_time_ms();
    let a = Uuid::v7_at(now, &mut r);
    let b = Uuid::v7_at(now + 2, &mut r);
    assert!(b.as_bytes() > a.as_bytes());
}

#[test]
fn uuid_nil_and_max() {
    assert_eq!(Uuid::nil().as_bytes(), &[0u8; 16]);
    assert_eq!(Uuid::max().as_bytes(), &[0xffu8; 16]);
    assert_eq!(
        Uuid::nil().to_string(),
        "00000000-0000-0000-0000-000000000000"
    );
    assert_eq!(
        Uuid::max().to_string(),
        "ffffffff-ffff-ffff-ffff-ffffffffffff"
    );
}

#[test]
fn uuid_default_is_nil() {
    assert_eq!(Uuid::default(), Uuid::nil());
}

#[test]
fn uuid_from_bytes_roundtrip() {
    let mut r = rng();
    let id = Uuid::v4(&mut r);
    assert_eq!(Uuid::from_bytes(id.as_bytes()), id);
}

#[test]
fn parse_rfc9562_v4_example() {
    let s = "919108f7-52d1-4320-9bac-f847db4148a8";
    let id = Uuid::parse_str(s).unwrap();
    assert_eq!(id.version(), 4);
    assert_eq!(id.as_bytes()[8] & 0xc0, 0x80);
    assert_eq!(id.to_string(), s);
}

#[test]
fn parse_rfc9562_v7_example() {
    let s = "017f22e2-79b0-7cc3-98c4-dc0c0c07398f";
    let id = Uuid::parse_str(s).unwrap();
    assert_eq!(id.version(), 7);
    assert_eq!(id.as_bytes()[8] & 0xc0, 0x80);
    assert_eq!(id.to_string(), s);
}

#[test]
fn parse_uppercase() {
    let id = Uuid::parse_str("F47AC10B-58CC-4372-A567-0E02B2C3D479").unwrap();
    assert_eq!(id.to_string(), "f47ac10b-58cc-4372-a567-0e02b2c3d479");
}

#[test]
fn uuid_parse_nil() {
    let id = Uuid::parse_str("00000000-0000-0000-0000-000000000000").unwrap();
    assert_eq!(id, Uuid::nil());
}

#[test]
fn uuid_parse_rejects_short() {
    assert!(matches!(
        Uuid::parse_str("abc"),
        Err(ParseError::InvalidLength(3))
    ));
}

#[test]
fn parse_rejects_missing_hyphen() {
    assert!(matches!(
        Uuid::parse_str("f47ac10b_58cc-4372-a567-0e02b2c3d479"),
        Err(ParseError::InvalidGroup(8))
    ));
}

#[test]
fn parse_rejects_bad_hex() {
    assert!(matches!(
        Uuid::parse_str("g47ac10b-58cc-4372-a567-0e02b2c3d479"),
        Err(ParseError::InvalidChar(0))
    ));
}

#[test]
fn uuid_from_str_works() {
    let id: Uuid = "f47ac10b-58cc-4372-a567-0e02b2c3d479".parse().unwrap();
    assert_eq!(id.to_string(), "f47ac10b-58cc-4372-a567-0e02b2c3d479");
}

#[test]
fn many_v4_unique() {
    let mut r = rng();
    let mut set = HashSet::new();
    for _ in 0..10_000 {
        assert!(set.insert(Uuid::v4(&mut r)));
    }
}

// Further cases.

#[test]
fn parse_reports_first_bad_hex_position() {
    // The low digit of byte 3 sits at position 7.
    assert_eq!(
        Uuid::parse_str("f47ac10x-58cc-4372-a567-0e02b2c3d479"),
        Err(ParseError::InvalidChar(7))
    );
    // Hyphens are checked before any digit.
    assert_eq!(
        Uuid::parse_str("g47ac10b-58cc-4372-a567_0e02b2c3d479"),
        Err(ParseError::InvalidGroup(23))
    );
    // A bad digit after the last hyphen.
    assert_eq!(
        Uuid::parse_str("f47ac10b-58cc-4372-a567-0e02b2c3d47z"),
        Err(ParseError::InvalidChar(35))
    );
}

#[test]
fn parse_counts_bytes_not_chars() {
    // 35 ASCII characters plus one two-byte character: 37 bytes.
    let s = "f47ac10b-58cc-4372-a567-0e02b2c3d47\u{e9}";
    assert_eq!(Uuid::parse_str(s), Err(ParseError::InvalidLength(37)));
}

#[test]
fn text_round_trip_exact() {
    let bytes: [u8; 16] = [
        0x01, 0x23, 0x45, 0x67, 0x89, 0xab, 0xcd, 0xef, 0xfe, 0xdc, 0xba, 0x98, 0x76, 0x54, 0x32,
        0x10,
    ];
    let id = Uuid::from_bytes(&bytes);
    assert_eq!(id.to_string(), "01234567-89ab-cdef-fedc-ba9876543210");
    assert_eq!(Uuid::parse_str(&id.to_string()), Ok(id));
}

#[test]
fn v4_from_known_seed() {
    let mut a = Xoshiro256SS::from_seed(42);
    let mut b = Xoshiro256SS::from_seed(42);
    let raw = b.next_bytes_16();
    let id = Uuid::v4(&mut a);
    let mut expected = raw;
    expected[6] = (raw[6] & 0x0f) | 0x40;
    expected[8] = (raw[8] & 0x3f) | 0x80;
    assert_eq!(id.as_bytes(), &expected);
    assert_ne!(id.as_bytes(), &raw);
}

#[test]
fn v7_at_known_time() {
    let mut r = Xoshiro256SS::from_seed(1);
    let id = Uuid::v7_at(0x0123_4567_89ab, &mut r);
    assert_eq!(&id.as_bytes()[0..6], &[0x01, 0x23, 0x45, 0x67, 0x89, 0xab]);
    assert_eq!(id.version(), 7);
    // Only the low 48 bits of the millisecond are kept.
    let mut r2 = Xoshiro256SS::from_seed(1);
    let id2 = Uuid::v7_at(0xffff_0123_4567_89ab, &mut r2);
    assert_eq!(id, id2);
}

#[test]
fn parse_ignores_case_for_errors_too() {
    assert_eq!(
        Uuid::parse_str("G47ac10b-58cc-4372-a567-0e02b2c3d479"),
        Uuid::parse_str("g47ac10b-58cc-4372-a567-0e02b2c3d479")
    );
}

#[test]
fn version_of_nil_and_max() {
    assert_eq!(Uuid::nil().version(), 0);
    assert_eq!(Uuid::max().version(), 15);
}

#[test]
fn parse_then_print_lowercases_mixed_case() {
    let id = Uuid::parse_str("F47ac10B-58Cc-4372-a567-0E02b2C3d479").unwrap();
    assert_eq!(id.to_string(), "f47ac10b-58cc-4372-a567-0e02b2c3d479");
}
