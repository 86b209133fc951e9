use id_forge::nanoid;
use id_forge::rng::Xoshiro256SS;
use id_forge::snowflake::{Attempt, Snowflake};
use id_forge::ulid::{MonotonicState, Ulid};
use id_forge::uuid::Uuid;

fn rng() -> Xoshiro256SS {
    Xoshiro256SS::from_entropy(19, 4)
}

fn next_id(gen: &Snowflake) -> u64 {
    loop {
        if let Attempt::Issued(id) = gen.try_issue() {
            return id;
        }
    }
}

#[test]
fn smoke_uuid_v4() {
    let id = Uuid::v4(&mut rng());
    assert_eq!(id.to_string().len(), 36);
}

#[test]
fn smoke_uuid_v7() {
    let id = Uuid::v7(&mut rng());
    assert_eq!(id.to_string().len(), 36);
}

#[test]
fn smoke_uuid_unique() {
    let mut r = rng();
    assert_ne!(Uuid::v4(&mut r), Uuid::v4(&mut r));
}

#[test]
fn smoke_ulid_length() {
    let id = Ulid::new(&mut MonotonicState::new(), &mut rng()).unwrap();
    assert_eq!(id.to_string().len(), 26);
}

#[test]
fn smoke_ulid_unique() {
    let (mut f, mut r) = (MonotonicState::new(), rng());
    assert_ne!(
        Ulid::new(&mut f, &mut r).unwrap(),
        Ulid::new(&mut f, &mut r).unwrap()
    );
}

#[test]
fn smoke_ulid_monotonic() {
    let (mut f, mut r) = (MonotonicState::new(), rng());
    let a = Ulid::new(&mut f, &mut r).unwrap();
    let b = Ulid::new(&mut f, &mut r).unwrap();
    assert!(b > a);
}

#[test]
fn smoke_ulid_roundtrip() {
    let id = Ulid::new(&mut MonotonicState::new(), &mut rng()).unwrap();
    assert_eq!(Ulid::parse_str(&id.to_string()).unwrap(), id);
}

#[test]
fn smoke_snowflake_unique() {
    let gen = Snowflake::new(1);
    assert_ne!(next_id(&gen), next_id(&gen));
}

#[test]
fn smoke_snowflake_worker_extracts() {
    let gen = Snowflake::new(42);
    let id = next_id(&gen);
    let worker = (id >> 12) & 0x3ff;
    assert_eq!(worker, 42);
}

#[test]
fn smoke_nanoid_default() {
    let id = nanoid::generate(&mut rng());
    assert_eq!(id.len(), 21);
}

#[test]
fn smoke_nanoid_custom_length() {
    let id = nanoid::with_length(8, &mut rng());
    assert_eq!(id.len(), 8);
}

#[test]
fn smoke_nanoid_custom_alphabet() {
    let id = nanoid::custom(16, b"01", &mut rng());
    assert!(id.chars().all(|c| c == '0' || c == '1'));
}
