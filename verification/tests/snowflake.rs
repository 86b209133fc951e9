use id_forge::snowflake::{
    clock_passed, current_offset_ms, plan, step_after, Attempt, ClockSkew, Plan, Snowflake, Step,
    DEFAULT_EPOCH_MS, STATE_SEQ_EXHAUSTED,
};
use std::collections::HashSet;
use std::time::{Duration, Instant};

const TIMESTAMP_SHIFT: u32 = 22;
const WORKER_SHIFT: u32 = 12;
const STATE_SEQ_BITS: u32 = 13;

/// Issue the next ID, waiting out exhausted milliseconds and retrying lost
/// races, or report a backward clock.
fn try_next_id(gen: &Snowflake) -> Result<u64, ClockSkew> {
    loop {
        match step_after(gen.try_issue()) {
            Step::Finish(outcome) => return outcome,
            Step::WaitPast { last_ms } => while !clock_passed(gen.epoch_ms(), last_ms) {},
            Step::Retry => {}
        }
    }
}

/// Issue the next ID; a backward clock is a failure.
fn next_id(gen: &Snowflake) -> u64 {
    match try_next_id(gen) {
        Ok(id) => id,
        Err(e) => panic!("snowflake: clock moved backward ({e:?})"),
    }
}

#[test]
fn next_id_produces_value() {
    let gen = Snowflake::new(1);
    assert!(next_id(&gen) > 0);
}

#[test]
fn worker_id_clamped() {
    let gen = Snowflake::new(0xffff);
    assert_eq!(gen.worker_id(), 0x3ff);
    let id = next_id(&gen);
    assert_eq!(Snowflake::parts(id).1, 0x3ff);
}

#[test]
fn worker_field_extracts() {
    let gen = Snowflake::new(42);
    let id = next_id(&gen);
    let (_, worker, _) = Snowflake::parts(id);
    assert_eq!(worker, 42);
}

#[test]
fn monotonic_in_burst() {
    let gen = Snowflake::new(1);
    let mut prev = next_id(&gen);
    for _ in 0..10_000 {
        let cur = next_id(&gen);
        assert!(cur > prev, "expected {cur} > {prev}");
        prev = cur;
    }
}

#[test]
fn all_unique_in_burst() {
    let gen = Snowflake::new(1);
    let mut set = HashSet::new();
    for _ in 0..50_000 {
        let id = next_id(&gen);
        assert!(set.insert(id));
    }
}

#[test]
fn parts_round_trip() {
    let gen = Snowflake::with_epoch(7, DEFAULT_EPOCH_MS);
    let id = next_id(&gen);
    let (ts, worker, seq) = Snowflake::parts(id);
    assert_eq!(worker, 7);
    let reassembled =
        (ts << TIMESTAMP_SHIFT) | ((worker as u64) << WORKER_SHIFT) | seq as u64;
    assert_eq!(reassembled, id);
}

#[test]
fn sequence_resets_each_ms() {
    // After a millisecond with IDs issued, the first ID of a later
    // millisecond has sequence 0.
    let now = current_offset_ms(DEFAULT_EPOCH_MS);
    let state = (now << STATE_SEQ_BITS) | 17;
    match plan(state, now + 3, 1) {
        Plan::Issue { id, .. } => {
            let (_, _, seq) = Snowflake::parts(id);
            assert_eq!(seq, 0, "first ID of a fresh ms must have sequence 0");
        }
        other => panic!("expected an ID, got {other:?}"),
    }
}

#[test]
fn sequence_exhaustion_blocks_until_next_ms() {
    // Pre-load state to simulate an exhausted millisecond.
    let gen = Snowflake::new(1);
    let now = current_offset_ms(gen.epoch_ms());
    let exhausted_state = (now << STATE_SEQ_BITS) | STATE_SEQ_EXHAUSTED;
    gen.store_state(exhausted_state);

    let start = Instant::now();
    let id = next_id(&gen);
    let elapsed = start.elapsed();

    let (ts, _, seq) = Snowflake::parts(id);
    assert!(ts > now, "new ID must be in a later millisecond");
    assert_eq!(seq, 0);
    assert!(
        elapsed < Duration::from_millis(50),
        "block should be roughly one ms, got {elapsed:?}"
    );
}

#[test]
fn clock_skew_reported_via_result() {
    let gen = Snowflake::new(1);
    // Force the state to claim we've already issued an ID
    // far in the future relative to the wall clock.
    let future_ms = current_offset_ms(gen.epoch_ms()) + 5_000;
    gen.store_state(future_ms << STATE_SEQ_BITS);

    match try_next_id(&gen) {
        Err(ClockSkew { last_ms, now_ms }) => {
            assert_eq!(last_ms, future_ms);
            assert!(now_ms < last_ms);
        }
        Ok(id) => panic!("expected ClockSkew, got id {id}"),
    }
}

#[test]
fn plan_waits_on_exhausted_ms() {
    let now = 1_000u64;
    let exhausted_state = (now << STATE_SEQ_BITS) | STATE_SEQ_EXHAUSTED;
    assert_eq!(plan(exhausted_state, now, 1), Plan::Wait { last_ms: now });
    match plan(exhausted_state, now + 1, 1) {
        Plan::Issue { id, .. } => {
            let (ts, _, seq) = Snowflake::parts(id);
            assert_eq!(ts, now + 1);
            assert_eq!(seq, 0);
        }
        other => panic!("expected an ID, got {other:?}"),
    }
}

#[test]
fn plan_reports_skew() {
    let future_ms = 6_000u64;
    assert_eq!(
        plan(future_ms << STATE_SEQ_BITS, 1_000, 1),
        Plan::Skew(ClockSkew { last_ms: future_ms, now_ms: 1_000 })
    );
}

#[test]
fn custom_epoch_round_trip() {
    let epoch = 1_700_000_000_000_u64;
    let gen = Snowflake::with_epoch(9, epoch);
    let id = next_id(&gen);
    let (ts_offset, worker, _) = Snowflake::parts(id);
    assert_eq!(worker, 9);
    assert_eq!(gen.epoch_ms(), epoch);
    let wall = ts_offset + epoch;
    assert!(wall > epoch);
}

#[test]
fn parts_extracts_each_field() {
    let ts: u64 = 12_345;
    let worker: u64 = 700;
    let seq: u64 = 4000;
    let id = (ts << TIMESTAMP_SHIFT) | (worker << WORKER_SHIFT) | seq;
    let (got_ts, got_w, got_s) = Snowflake::parts(id);
    assert_eq!(got_ts, ts);
    assert_eq!(got_w as u64, worker);
    assert_eq!(got_s as u64, seq);
}

// Further cases.

#[test]
fn plan_within_ms_uses_recorded_sequence() {
    let state = (100u64 << STATE_SEQ_BITS) | 5;
    assert_eq!(
        plan(state, 100, 3),
        Plan::Issue {
            id: (100 << TIMESTAMP_SHIFT) | (3 << WORKER_SHIFT) | 5,
            state: (100 << STATE_SEQ_BITS) | 6,
        }
    );
    // The last sequence of a millisecond is 4095.
    let last = (100u64 << STATE_SEQ_BITS) | 4095;
    assert_eq!(
        plan(last, 100, 3),
        Plan::Issue {
            id: (100 << TIMESTAMP_SHIFT) | (3 << WORKER_SHIFT) | 4095,
            state: (100 << STATE_SEQ_BITS) | 4096,
        }
    );
}

#[test]
fn plan_from_fresh_state() {
    assert_eq!(
        plan(0, 7, 1),
        Plan::Issue {
            id: (7 << TIMESTAMP_SHIFT) | (1 << WORKER_SHIFT),
            state: (7 << STATE_SEQ_BITS) | 1,
        }
    );
    // At offset 0 on a fresh state the first sequence is 0.
    assert_eq!(
        plan(0, 0, 1),
        Plan::Issue { id: 1 << WORKER_SHIFT, state: 1 }
    );
}

#[test]
fn offset_before_epoch_is_zero() {
    assert_eq!(id_forge::snowflake::offset_from_unix_ms(5, 10), 0);
    assert_eq!(id_forge::snowflake::offset_from_unix_ms(15, 10), 5);
    // Offsets are reduced to 41 bits.
    assert_eq!(
        id_forge::snowflake::offset_from_unix_ms((1u64 << 41) + 10 + 3, 10),
        3
    );
}

#[test]
fn default_epoch_is_2026() {
    assert_eq!(Snowflake::new(1).epoch_ms(), 1_767_225_600_000);
}

#[test]
fn different_workers_never_collide() {
    let a = Snowflake::new(1);
    let b = Snowflake::new(2);
    let mut seen = HashSet::new();
    for _ in 0..5_000 {
        assert!(seen.insert(next_id(&a)));
        assert!(seen.insert(next_id(&b)));
    }
}

#[test]
fn issued_ids_increase_over_clock_readings() {
    // Successive attempts from a fresh state, with the clock standing
    // still, stepping back, and moving on; refused attempts keep the state.
    let readings = [5u64, 5, 5, 4, 6, 6, 2, 9, 9];
    let mut state = 0u64;
    let mut ids = Vec::new();
    let mut refused = 0;
    for now in readings {
        match plan(state, now, 7) {
            Plan::Issue { id, state: next } => {
                ids.push(id);
                state = next;
            }
            Plan::Skew(e) => {
                assert!(e.now_ms < e.last_ms);
                refused += 1;
            }
            Plan::Wait { .. } => refused += 1,
        }
    }
    assert_eq!(refused, 2);
    assert_eq!(ids.len(), 7);
    assert!(ids.windows(2).all(|w| w[0] < w[1]));
    assert_eq!(ids[0], (5 << TIMESTAMP_SHIFT) | (7 << WORKER_SHIFT));
    assert_eq!(ids[2], (5 << TIMESTAMP_SHIFT) | (7 << WORKER_SHIFT) | 2);
    assert_eq!(ids[3], (6 << TIMESTAMP_SHIFT) | (7 << WORKER_SHIFT));
}

#[test]
fn step_after_each_outcome() {
    assert_eq!(step_after(Attempt::Issued(42)), Step::Finish(Ok(42)));
    let skew = ClockSkew { last_ms: 9, now_ms: 3 };
    assert_eq!(step_after(Attempt::Skew(skew)), Step::Finish(Err(skew)));
    assert_eq!(step_after(Attempt::Wait { last_ms: 8 }), Step::WaitPast { last_ms: 8 });
    assert_eq!(step_after(Attempt::Contended), Step::Retry);
}

#[test]
fn clock_passed_compares_offset() {
    // Long after the UNIX epoch the offset from it has passed 0.
    assert!(clock_passed(0, 0));
    // Before a far-future epoch the offset is 0, which passes nothing.
    assert!(!clock_passed(u64::MAX, 0));
}
