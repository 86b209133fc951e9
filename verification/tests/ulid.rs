use id_forge::rng::Xoshiro256SS;
use id_forge::ulid::{MonotonicState, ParseError, Ulid};
use std::collections::HashSet;

fn rng() -> Xoshiro256SS {
    Xoshiro256SS::from_entropy(11, 2)
}

fn fresh(f: &mut MonotonicState, r: &mut Xoshiro256SS) -> Ulid {
    Ulid::new(f, r).expect("counter not exhausted")
}

#[test]
fn display_length_26() {
    let (mut f, mut r) = (MonotonicState::new(), rng());
    assert_eq!(fresh(&mut f, &mut r).to_string().len(), 26);
}

#[test]
fn two_calls_differ() {
    let (mut f, mut r) = (MonotonicState::new(), rng());
    assert_ne!(fresh(&mut f, &mut r), fresh(&mut f, &mut r));
}

#[test]
fn monotonic_within_ms() {
    let (mut f, mut r) = (MonotonicState::new(), rng());
    let a = fresh(&mut f, &mut r);
    let b = fresh(&mut f, &mut r);
    assert!(b > a, "ULIDs in same ms must be strictly ordered");
}

#[test]
fn time_ordered_across_ms() {
    let (mut f, mut r) = (MonotonicState::new(), rng());
    let now = id_forge::clock::unix_time_ms();
    let a = Ulid::new_at(now, &mut f, &mut r);
    let b = Ulid::new_at(now + 2, &mut f, &mut r);
    assert!(b > a);
    assert!(b.timestamp_ms() > a.timestamp_ms());
}

#[test]
fn ulid_nil_and_max() {
    assert_eq!(Ulid::nil().as_bytes(), &[0u8; 16]);
    assert_eq!(Ulid::max().as_bytes(), &[0xffu8; 16]);
    assert_eq!(Ulid::nil().to_string(), "00000000000000000000000000");
    assert_eq!(Ulid::max().to_string(), "7ZZZZZZZZZZZZZZZZZZZZZZZZZ");
}

#[test]
fn ulid_default_is_nil() {
    assert_eq!(Ulid::default(), Ulid::nil());
}

#[test]
fn parse_round_trip() {
    let s = "01ARZ3NDEKTSV4RRFFQ69G5FAV";
    let id = Ulid::parse_str(s).unwrap();
    assert_eq!(id.to_string(), s);
}

#[test]
fn ulid_parse_nil() {
    let id = Ulid::parse_str("00000000000000000000000000").unwrap();
    assert_eq!(id, Ulid::nil());
}

#[test]
fn parse_max() {
    let id = Ulid::parse_str("7ZZZZZZZZZZZZZZZZZZZZZZZZZ").unwrap();
    assert_eq!(id, Ulid::max());
}

#[test]
fn parse_lowercase() {
    let id = Ulid::parse_str("01arz3ndektsv4rrffq69g5fav").unwrap();
    assert_eq!(id.to_string(), "01ARZ3NDEKTSV4RRFFQ69G5FAV");
}

#[test]
fn parse_substitutions() {
    let a = Ulid::parse_str("0IIIIIIIIIIIIIIIIIIIIIIIII").unwrap();
    let b = Ulid::parse_str("0LLLLLLLLLLLLLLLLLLLLLLLLL").unwrap();
    let c = Ulid::parse_str("01111111111111111111111111").unwrap();
    assert_eq!(a, b);
    assert_eq!(a, c);
    let z = Ulid::parse_str("OO000000000000000000000000").unwrap();
    assert_eq!(z, Ulid::nil());
}

#[test]
fn ulid_parse_rejects_short() {
    assert!(matches!(
        Ulid::parse_str("abc"),
        Err(ParseError::InvalidLength(3))
    ));
}

#[test]
fn parse_rejects_long() {
    assert!(matches!(
        Ulid::parse_str("01ARZ3NDEKTSV4RRFFQ69G5FAVX"),
        Err(ParseError::InvalidLength(27))
    ));
}

#[test]
fn parse_rejects_u() {
    assert!(matches!(
        Ulid::parse_str("0UARZ3NDEKTSV4RRFFQ69G5FAV"),
        Err(ParseError::InvalidChar(1))
    ));
}

#[test]
fn parse_rejects_overflow_leading() {
    assert!(matches!(
        Ulid::parse_str("80000000000000000000000000"),
        Err(ParseError::Overflow)
    ));
    assert!(matches!(
        Ulid::parse_str("Z0000000000000000000000000"),
        Err(ParseError::Overflow)
    ));
}

#[test]
fn ulid_from_str_works() {
    let id: Ulid = "01ARZ3NDEKTSV4RRFFQ69G5FAV".parse().unwrap();
    assert_eq!(id.to_string(), "01ARZ3NDEKTSV4RRFFQ69G5FAV");
}

#[test]
fn ulid_from_bytes_roundtrip() {
    let (mut f, mut r) = (MonotonicState::new(), rng());
    let id = fresh(&mut f, &mut r);
    assert_eq!(Ulid::from_bytes(id.as_bytes()), id);
}

#[test]
fn timestamp_decodes_known_prefix() {
    let id = Ulid::parse_str("01ARZ3NDEKTSV4RRFFQ69G5FAV").unwrap();
    assert_eq!(id.timestamp_ms(), 0x0000_0156_3E3A_B5D3);
}

#[test]
fn timestamp_from_known_bytes() {
    let mut bytes = [0u8; 16];
    bytes[0..6].copy_from_slice(&[0x01, 0x23, 0x45, 0x67, 0x89, 0xAB]);
    let id = Ulid::from_bytes(&bytes);
    assert_eq!(id.timestamp_ms(), 0x0000_0123_4567_89AB);
}

#[test]
fn many_unique() {
    let (mut f, mut r) = (MonotonicState::new(), rng());
    let mut set = HashSet::new();
    for _ in 0..10_000 {
        assert!(set.insert(fresh(&mut f, &mut r)));
    }
}

#[test]
fn monotonic_within_ms_burst() {
    let (mut f, mut r) = (MonotonicState::new(), rng());
    let mut prev = fresh(&mut f, &mut r);
    for _ in 0..1000 {
        let cur = fresh(&mut f, &mut r);
        assert!(cur > prev);
        prev = cur;
    }
}

// Further cases.

#[test]
fn same_ms_is_previous_plus_one() {
    let (mut f, mut r) = (MonotonicState::new(), Xoshiro256SS::from_seed(5));
    let a = Ulid::new_at(1_000, &mut f, &mut r);
    let b = Ulid::new_at(1_000, &mut f, &mut r);
    let ra = u128::from_be_bytes(*a.as_bytes()) & ((1u128 << 80) - 1);
    let rb = u128::from_be_bytes(*b.as_bytes()) & ((1u128 << 80) - 1);
    assert_eq!(rb, ra + 1);
    assert_eq!(a.timestamp_ms(), 1_000);
    assert_eq!(b.timestamp_ms(), 1_000);
}

#[test]
fn counter_not_exhausted_after_few_ids() {
    let mut f = MonotonicState::new();
    let mut r = Xoshiro256SS::from_seed(9);
    // Drive the factory to the last random part of millisecond 5.
    let _ = Ulid::new_at(5, &mut f, &mut r);
    assert!(!f.is_exhausted_at(5));
    let _ = f.next_random(6, &mut r);
    assert!(!f.is_exhausted_at(5));
    assert!(!f.is_exhausted_at(6));
}

#[test]
fn pack_places_fields() {
    let id = Ulid::pack(0x0123_4567_89ab, 0xffff_0000_0000_0000_0000_0001);
    assert_eq!(id.timestamp_ms(), 0x0123_4567_89ab);
    assert_eq!(
        id.as_bytes(),
        &[0x01, 0x23, 0x45, 0x67, 0x89, 0xab, 0, 0, 0, 0, 0, 0, 0, 0, 0, 1]
    );
}

#[test]
fn parse_reports_positions() {
    assert_eq!(
        Ulid::parse_str("U0000000000000000000000000"),
        Err(ParseError::InvalidChar(0))
    );
    // Overflow is reported before later bad digits.
    assert_eq!(
        Ulid::parse_str("8U000000000000000000000000"),
        Err(ParseError::Overflow)
    );
    assert_eq!(
        Ulid::parse_str("0000000000000000000000000!"),
        Err(ParseError::InvalidChar(25))
    );
}

#[test]
fn text_sorts_like_bytes() {
    let a = Ulid::pack(1_000, 5);
    let b = Ulid::pack(1_000, 6);
    let c = Ulid::pack(1_001, 0);
    assert!(a < b && b < c);
    assert!(a.to_string() < b.to_string());
    assert!(b.to_string() < c.to_string());
    let z = Ulid::parse_str("0000000000000000000000000Z").unwrap();
    let y = Ulid::parse_str("00000000000000000000000010").unwrap();
    assert!(z < y);
    assert!(z.to_string() < y.to_string());
}

#[test]
fn parse_then_print_is_canonical() {
    let id = Ulid::parse_str("0IlO00000000000000000000oi").unwrap();
    assert_eq!(id.to_string(), "01100000000000000000000001");
    let canonical = "01ARZ3NDEKTSV4RRFFQ69G5FAV";
    assert_eq!(Ulid::parse_str(canonical).unwrap().to_string(), canonical);
}

#[test]
fn text_order_decides_byte_order() {
    let ids = [
        Ulid::pack(2, 0),
        Ulid::pack(1, 7),
        Ulid::nil(),
        Ulid::max(),
        Ulid::pack(1, 8),
    ];
    for a in &ids {
        for b in &ids {
            assert_eq!(a.to_string() < b.to_string(), a < b);
        }
    }
}

#[test]
fn same_low_48_bits_is_same_ms() {
    let (mut f, mut r) = (MonotonicState::new(), Xoshiro256SS::from_seed(21));
    let a = Ulid::new_at(77, &mut f, &mut r);
    let b = Ulid::new_at(77 + (1u64 << 48), &mut f, &mut r);
    assert_eq!(b.timestamp_ms(), a.timestamp_ms());
    assert_eq!(
        u128::from_be_bytes(*b.as_bytes()),
        u128::from_be_bytes(*a.as_bytes()) + 1
    );
    assert!(b > a);
}
