# id_forge

Unique identifier generation with verified contracts: UUID v4/v7, ULID,
Snowflake and NanoID.

- `src/` — the library, verified with Verus.
  - `rng.rs`: the xoshiro256** generator and its SplitMix64 seeding.
  - `clock.rs`: wall-clock readings (nothing is promised of their values).
  - `uuid.rs`, `ulid.rs`: layouts, text forms, parsing, and the round
    trips between bytes and text; the ULID text order; the ULID monotonic
    factory.
  - `snowflake.rs`: the ID layout, the issuing decision, one issuing
    attempt on a shared generator, what a caller does after an attempt, and
    the monotonicity laws.
  - `nanoid.rs`: alphabet validation and rejection sampling.
  - `order.rs`: byte-wise order of big-endian encodings.
- `app/` — per-thread generator state, the process-wide ULID factory, the
  zero-argument entry points,
  the Snowflake loop that sleeps while a millisecond is used up, and
  `Display` for the ID and error types.
- `tests/` — tests run against the compiled library.

Generators are passed explicitly (`&mut Xoshiro256SS`, `&mut MonotonicState`)
so that every result is a function of the state it starts from.
