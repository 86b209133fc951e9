//! Snowflake identifiers: 64-bit IDs made of a 41-bit millisecond offset
//! from a configurable epoch, a 10-bit worker ID and a 12-bit
//! per-millisecond sequence.
//!
//! ```text
//!  63                   22         12         0
//!  +---------------------+----------+----------+
//!  | 41 bits ms offset   | 10 bits  | 12 bits  |
//!  | (since epoch_ms)    | worker   | sequence |
//!  +---------------------+----------+----------+
//! ```
//!
//! A generator keeps a packed state word `last_ms * 2^13 + next_seq`.
//! [`plan`] is the decision that one issuing attempt takes from that word
//! and a clock reading; [`Snowflake::try_issue`] performs one attempt on the
//! shared state. Waiting for the next millisecond after 4096 IDs, and
//! retrying after a lost race, is left to the caller, which can sleep.

use crate::clock;
use core::sync::atomic::AtomicU64;
use vstd::prelude::*;

verus! {

/// Default epoch (2026-01-01T00:00:00Z in milliseconds since UNIX epoch).
pub const DEFAULT_EPOCH_MS: u64 = 1_767_225_600_000;

/// Number of bits assigned to the sequence field in an ID.
pub const SEQUENCE_BITS: u32 = 12;

/// Number of bits assigned to the worker field in an ID.
pub const WORKER_BITS: u32 = 10;

/// Number of bits assigned to the timestamp offset in an ID.
pub const TIMESTAMP_BITS: u32 = 41;

/// Largest sequence number, `2^12 - 1`.
pub const SEQUENCE_MASK: u64 = 0xfff;

/// Largest worker ID, `2^10 - 1`.
pub const WORKER_MASK: u64 = 0x3ff;

/// Largest timestamp offset, `2^41 - 1`.
pub const TIMESTAMP_MASK: u64 = 0x1ff_ffff_ffff;

/// Number of state bits that hold the next sequence to assign.
pub const STATE_SEQ_BITS: u64 = 13;

/// The next-sequence value that marks a millisecond as exhausted.
pub const STATE_SEQ_EXHAUSTED: u64 = 4096;

/// The ID with the given timestamp offset, worker and sequence.
pub open spec fn compose_id(ts: int, worker: int, seq: int) -> int {
    ts * 0x40_0000 + worker * 0x1000 + seq
}

/// The state word recording `last_ms` and the next sequence to assign.
pub open spec fn compose_state(last_ms: int, next_seq: int) -> int {
    last_ms * 0x2000 + next_seq
}

/// The millisecond offset recorded in a state word.
pub open spec fn state_last_ms(state: u64) -> int {
    state as int / 0x2000
}

/// The next sequence recorded in a state word.
pub open spec fn state_next_seq(state: u64) -> int {
    state as int % 0x2000
}

/// What one issuing attempt decides.
#[derive(Debug, Clone, Copy, PartialEq, Eq)]
pub enum Plan {
    /// Issue `id` and store `state` in place of the word read.
    Issue { id: u64, state: u64 },
    /// All 4096 sequences of millisecond `last_ms` are used: wait until the
    /// clock passes it, then try again.
    Wait { last_ms: u64 },
    /// The clock reads earlier than the millisecond of the last ID issued.
    Skew(ClockSkew),
}

/// The decision from state word `cur`, clock offset `now` and worker `worker`.
pub open spec fn plan_spec(cur: u64, now: u64, worker: u16) -> Plan {
    let last_ms = state_last_ms(cur);
    let next_seq = state_next_seq(cur);
    if now < last_ms {
        Plan::Skew(ClockSkew { last_ms: last_ms as u64, now_ms: now })
    } else if now == last_ms {
        if next_seq >= 4096 {
            Plan::Wait { last_ms: last_ms as u64 }
        } else {
            Plan::Issue {
                id: compose_id(last_ms, worker as int, next_seq) as u64,
                state: compose_state(last_ms, next_seq + 1) as u64,
            }
        }
    } else {
        Plan::Issue {
            id: compose_id(now as int, worker as int, 0) as u64,
            state: compose_state(now as int, 1) as u64,
        }
    }
}

/// Error returned when the system clock has moved backward since the most
/// recent ID was issued.
#[derive(Debug, Clone, Copy, PartialEq, Eq)]
pub struct ClockSkew {
    /// The most recent millisecond offset (since the epoch) at which the
    /// generator successfully issued an ID.
    pub last_ms: u64,
    /// The current millisecond offset reported by the wall clock, which is
    /// strictly less than `last_ms`.
    pub now_ms: u64,
}

proof fn lemma_state_split(cur: u64)
    by (bit_vector)
    ensures
        cur >> 13u64 == cur / 0x2000,
        cur & 0x1fffu64 == cur % 0x2000,
{
}

proof fn lemma_id_fields(id: u64)
    by (bit_vector)
    ensures
        (id >> 22u64) & 0x1ff_ffff_ffffu64 == (id / 0x40_0000) % 0x200_0000_0000,
        (id >> 12u64) & 0x3ffu64 == (id / 0x1000) % 0x400,
        id & 0xfffu64 == id % 0x1000,
{
}

proof fn lemma_pack_state(ms: u64, seq: u64)
    requires
        ms <= 0x1ff_ffff_ffff,
        seq <= 0x1000,
    ensures
        (ms << 13u64) | seq == ms * 0x2000 + seq,
{
    assert((ms << 13u64) | seq == ms * 0x2000 + seq) by (bit_vector)
        requires
            ms <= 0x1ff_ffff_ffffu64,
            seq <= 0x1000u64,
    ;
}

proof fn lemma_pack_id(ms: u64, worker: u64, seq: u64)
    requires
        ms <= 0x1ff_ffff_ffff,
        worker <= 0x3ff,
        seq <= 0xfff,
    ensures
        (ms << 22u64) | (worker << 12u64) | seq == ms * 0x40_0000 + worker * 0x1000 + seq,
{
    assert((ms << 22u64) | (worker << 12u64) | seq == ms * 0x40_0000 + worker * 0x1000 + seq)
        by (bit_vector)
        requires
            ms <= 0x1ff_ffff_ffffu64,
            worker <= 0x3ffu64,
            seq <= 0xfffu64,
    ;
}

/// The ID with timestamp offset `ms`, worker `worker` and sequence `seq`.
fn pack_id(ms: u64, worker: u16, seq: u64) -> (id: u64)
    requires
        ms <= TIMESTAMP_MASK,
        worker <= WORKER_MASK,
        seq <= SEQUENCE_MASK,
    ensures
        id == compose_id(ms as int, worker as int, seq as int),
{
    let w = worker as u64;
    proof {
        lemma_pack_id(ms, w, seq);
    }
    (ms << 22) | (w << 12) | seq
}

/// Decide one issuing attempt from state word `cur`, clock offset `now`
/// (already reduced to 41 bits) and the generator's `worker` ID.
pub fn plan(cur: u64, now: u64, worker: u16) -> (r: Plan)
    requires
        now <= TIMESTAMP_MASK,
        worker <= WORKER_MASK,
    ensures
        r == plan_spec(cur, now, worker),
{
    let last_ms = cur >> 13;
    let next_seq = cur & 0x1fff;
    proof {
        lemma_state_split(cur);
    }
    if now < last_ms {
        Plan::Skew(ClockSkew { last_ms, now_ms: now })
    } else if now == last_ms {
        if next_seq >= STATE_SEQ_EXHAUSTED {
            Plan::Wait { last_ms }
        } else {
            let seq_after = next_seq + 1;
            proof {
                lemma_pack_state(last_ms, seq_after);
            }
            let id = pack_id(last_ms, worker, next_seq);
            Plan::Issue { id, state: (last_ms << 13) | seq_after }
        }
    } else {
        proof {
            lemma_pack_state(now, 1);
        }
        let id = pack_id(now, worker, 0);
        Plan::Issue { id, state: (now << 13) | 1 }
    }
}

/// The millisecond offset of wall-clock reading `unix_ms` from `epoch_ms`:
/// zero before the epoch, and reduced to 41 bits.
pub open spec fn offset_spec(unix_ms: u64, epoch_ms: u64) -> u64 {
    ((if unix_ms >= epoch_ms { unix_ms - epoch_ms } else { 0 }) % 0x200_0000_0000) as u64
}

/// The millisecond offset of wall-clock reading `unix_ms` from `epoch_ms`.
pub fn offset_from_unix_ms(unix_ms: u64, epoch_ms: u64) -> (r: u64)
    ensures
        r == offset_spec(unix_ms, epoch_ms),
        r <= TIMESTAMP_MASK,
{
    let d = unix_ms.saturating_sub(epoch_ms);
    assert(d & 0x1ff_ffff_ffffu64 == d % 0x200_0000_0000) by (bit_vector);
    d & TIMESTAMP_MASK
}

/// The current wall-clock millisecond offset from `epoch_ms`, reduced to 41
/// bits: the offset of some wall-clock reading, in milliseconds since the
/// UNIX epoch, from `epoch_ms`. Which reading that is depends on the time of
/// the call.
pub fn current_offset_ms(epoch_ms: u64) -> (r: u64)
    ensures
        exists|unix_ms: u64| clock::is_ms_reading(unix_ms) && r == #[trigger] offset_spec(unix_ms, epoch_ms),
        r <= TIMESTAMP_MASK,
{
    let unix_ms = clock::unix_time_ms();
    offset_from_unix_ms(unix_ms, epoch_ms)
}

/// The outcome of one issuing attempt on a generator.
#[derive(Debug, Clone, Copy, PartialEq, Eq)]
pub enum Attempt {
    /// The ID issued.
    Issued(u64),
    /// Another attempt changed the state first; nothing was issued.
    Contended,
    /// All sequences of millisecond `last_ms` are used.
    Wait { last_ms: u64 },
    /// The clock moved backward.
    Skew(ClockSkew),
}

/// Whether attempt outcome `a` is what carrying out plan `p` gives.
pub open spec fn attempt_follows(a: Attempt, p: Plan) -> bool {
    match a {
        Attempt::Issued(id) => p matches Plan::Issue { id: pid, .. } && pid == id,
        Attempt::Contended => p is Issue,
        Attempt::Wait { last_ms } => p == Plan::Wait { last_ms },
        Attempt::Skew(e) => p == Plan::Skew(e),
    }
}

/// What a caller that issues until it gets an ID or an error does after
/// one attempt.
#[derive(Debug, Clone, Copy, PartialEq, Eq)]
pub enum Step {
    /// Stop with this outcome.
    Finish(Result<u64, ClockSkew>),
    /// Wait until the clock offset passes `last_ms`, then attempt again.
    WaitPast { last_ms: u64 },
    /// Attempt again at once.
    Retry,
}

/// The step after attempt outcome `a`: an ID or a clock skew ends the
/// issuing, a used-up millisecond is waited out, and a lost race is retried.
pub open spec fn step_spec(a: Attempt) -> Step {
    match a {
        Attempt::Issued(id) => Step::Finish(Ok(id)),
        Attempt::Skew(e) => Step::Finish(Err(e)),
        Attempt::Wait { last_ms } => Step::WaitPast { last_ms },
        Attempt::Contended => Step::Retry,
    }
}

/// The step after attempt outcome `a`.
pub fn step_after(a: Attempt) -> (r: Step)
    ensures
        r == step_spec(a),
{
    match a {
        Attempt::Issued(id) => Step::Finish(Ok(id)),
        Attempt::Skew(e) => Step::Finish(Err(e)),
        Attempt::Wait { last_ms } => Step::WaitPast { last_ms },
        Attempt::Contended => Step::Retry,
    }
}

/// Whether the wall clock's millisecond offset from `epoch_ms` has passed
/// `last_ms`, for some reading of the clock taken during the call.
pub fn clock_passed(epoch_ms: u64, last_ms: u64) -> (r: bool)
    ensures
        exists|unix_ms: u64|
            clock::is_ms_reading(unix_ms) && r == (#[trigger] offset_spec(unix_ms, epoch_ms) > last_ms),
{
    current_offset_ms(epoch_ms) > last_ms
}

/// Snowflake ID generator: a worker ID, an epoch, and the packed
/// `(last_ms, next_seq)` state shared by all callers.
#[derive(Debug)]
pub struct Snowflake {
    worker_id: u16,
    epoch_ms: u64,
    state: AtomicU64,
}

impl View for Snowflake {
    /// The worker ID and the epoch.
    type V = (u16, u64);

    closed spec fn view(&self) -> (u16, u64) {
        (self.worker_id, self.epoch_ms)
    }
}

impl Snowflake {
    #[verifier::type_invariant]
    closed spec fn worker_fits(self) -> bool {
        self.worker_id <= 0x3ff
    }

    /// A generator with the given worker ID and the default 2026-01-01
    /// epoch. Worker IDs above 1023 are reduced to their low 10 bits.
    pub fn new(worker_id: u16) -> (r: Self)
        ensures
            r@ == (worker_id % 1024, DEFAULT_EPOCH_MS),
    {
        Self::with_epoch(worker_id, DEFAULT_EPOCH_MS)
    }

    /// A generator with the given worker ID (reduced to its low 10 bits)
    /// and a custom epoch in milliseconds since the UNIX epoch.
    pub fn with_epoch(worker_id: u16, epoch_ms: u64) -> (r: Self)
        ensures
            r@ == (worker_id % 1024, epoch_ms),
    {
        assert(worker_id & 0x3ffu16 == worker_id % 1024) by (bit_vector);
        Snowflake { worker_id: worker_id & 0x3ff, epoch_ms, state: AtomicU64::new(0) }
    }

    /// The worker ID, at most 1023.
    pub fn worker_id(&self) -> (r: u16)
        ensures
            r == self@.0,
            r <= WORKER_MASK,
    {
        proof {
            use_type_invariant(self);
        }
        self.worker_id
    }

    /// The epoch this generator subtracts from the wall clock.
    pub fn epoch_ms(&self) -> (r: u64)
        ensures
            r == self@.1,
    {
        self.epoch_ms
    }

    /// One issuing attempt: read the state, read the clock, decide with
    /// [`plan`], and store the new state if no other attempt changed it in
    /// between. The outcome is what [`plan`] decides for the state word
    /// read and the offset, from this generator's epoch, of the millisecond
    /// clock's reading.
    pub fn try_issue(&self) -> (r: Attempt)
        ensures
            exists|cur: u64, unix_ms: u64|
                clock::is_ms_reading(unix_ms) && attempt_follows(
                    r,
                    #[trigger] plan_spec(cur, offset_spec(unix_ms, self@.1), self@.0),
                ),
    {
        proof {
            use_type_invariant(self);
        }
        let cur = self.state.load(core::sync::atomic::Ordering::Acquire);
        let now = current_offset_ms(self.epoch_ms);
        let p = plan(cur, now, self.worker_id);
        let r = match p {
            Plan::Skew(e) => Attempt::Skew(e),
            Plan::Wait { last_ms } => Attempt::Wait { last_ms },
            Plan::Issue { id, state } => {
                match self.state.compare_exchange(
                    cur,
                    state,
                    core::sync::atomic::Ordering::AcqRel,
                    core::sync::atomic::Ordering::Acquire,
                ) {
                    Ok(_) => Attempt::Issued(id),
                    Err(_) => Attempt::Contended,
                }
            },
        };
        proof {
            let unix_ms = choose|unix_ms: u64|
                clock::is_ms_reading(unix_ms) && now == #[trigger] offset_spec(unix_ms, self.epoch_ms);
            assert(attempt_follows(r, plan_spec(cur, offset_spec(unix_ms, self@.1), self@.0)));
        }
        r
    }

    /// Overwrite the packed state word with `state` (`last_ms * 2^13 +
    /// next_seq`). Later attempts decide from it as from any state word; the
    /// IDs issued before are forgotten, so IDs issued after the call need not
    /// be larger than those issued before it.
    pub fn store_state(&self, state: u64) {
        self.state.store(state, core::sync::atomic::Ordering::Release);
    }

    /// Split an ID into `(timestamp_offset_ms, worker_id, sequence)`.
    pub fn parts(id: u64) -> (r: (u64, u16, u16))
        ensures
            r.0 == (id as int / 0x40_0000) % 0x200_0000_0000,
            r.1 == (id as int / 0x1000) % 0x400,
            r.2 == id as int % 0x1000,
    {
        proof {
            lemma_id_fields(id);
        }
        let ts = (id >> 22) & TIMESTAMP_MASK;
        let worker = ((id >> 12) & WORKER_MASK) as u16;
        let seq = (id & SEQUENCE_MASK) as u16;
        (ts, worker, seq)
    }
}

/// Strict monotonicity: once a generator has issued `id` from state word
/// `cur`, any ID it issues next from the state it stored is larger. The
/// state only moves through issued IDs, so the IDs of one generator
/// increase strictly and never repeat.
pub proof fn lemma_next_issue_is_larger(cur: u64, now1: u64, now2: u64, worker: u16)
    requires
        now1 <= TIMESTAMP_MASK,
        now2 <= TIMESTAMP_MASK,
        worker <= WORKER_MASK,
        plan_spec(cur, now1, worker) is Issue,
        plan_spec(plan_spec(cur, now1, worker)->state, now2, worker) is Issue,
    ensures
        plan_spec(plan_spec(cur, now1, worker)->state, now2, worker)->id > plan_spec(
            cur,
            now1,
            worker,
        )->id,
{
    let s1 = plan_spec(cur, now1, worker)->state;
    assert(state_last_ms(s1) <= now1);
    assert(1 <= state_next_seq(s1) <= 4096);
}

/// An issued ID carries the millisecond recorded in the new state, the
/// generator's worker ID, and the sequence just before the one recorded
/// in the new state; and the three fields give back the ID.
pub proof fn lemma_issued_id_fields(cur: u64, now: u64, worker: u16)
    requires
        now <= TIMESTAMP_MASK,
        worker <= WORKER_MASK,
        plan_spec(cur, now, worker) is Issue,
    ensures
        ({
            let id = plan_spec(cur, now, worker)->id as int;
            let state = plan_spec(cur, now, worker)->state;
            &&& (id / 0x40_0000) % 0x200_0000_0000 == state_last_ms(state)
            &&& (id / 0x1000) % 0x400 == worker
            &&& id % 0x1000 == state_next_seq(state) - 1
            &&& id == compose_id(
                (id / 0x40_0000) % 0x200_0000_0000,
                (id / 0x1000) % 0x400,
                id % 0x1000,
            )
        }),
{
    let p = plan_spec(cur, now, worker);
    let ms = state_last_ms(p->state);
    let seq = state_next_seq(p->state) - 1;
    lemma_fields_of_composed(ms, worker as int, seq);
}

/// The three fields of an ID composed from in-range parts are those parts.
pub proof fn lemma_fields_of_composed(ts: int, worker: int, seq: int)
    requires
        0 <= ts <= TIMESTAMP_MASK,
        0 <= worker <= WORKER_MASK,
        0 <= seq <= SEQUENCE_MASK,
    ensures
        (compose_id(ts, worker, seq) / 0x40_0000) % 0x200_0000_0000 == ts,
        (compose_id(ts, worker, seq) / 0x1000) % 0x400 == worker,
        compose_id(ts, worker, seq) % 0x1000 == seq,
{
    let id = compose_id(ts, worker, seq);
    assert(id / 0x40_0000 == ts) by (nonlinear_arith)
        requires
            id == ts * 0x40_0000 + worker * 0x1000 + seq,
            0 <= worker <= 0x3ff,
            0 <= seq <= 0xfff,
    ;
    assert(id / 0x1000 == ts * 0x400 + worker) by (nonlinear_arith)
        requires
            id == ts * 0x40_0000 + worker * 0x1000 + seq,
            0 <= seq <= 0xfff,
    ;
    assert((ts * 0x400 + worker) % 0x400 == worker) by (nonlinear_arith)
        requires
            0 <= worker <= 0x3ff,
            0 <= ts,
    ;
    assert(id % 0x1000 == seq) by (nonlinear_arith)
        requires
            id == ts * 0x40_0000 + worker * 0x1000 + seq,
            0 <= seq <= 0xfff,
            0 <= ts,
            0 <= worker,
    ;
}

/// Generators with different worker IDs never issue the same ID: the
/// worker field of every issued ID is the issuing generator's worker ID.
pub proof fn lemma_workers_never_collide(
    cur1: u64,
    now1: u64,
    worker1: u16,
    cur2: u64,
    now2: u64,
    worker2: u16,
)
    requires
        now1 <= TIMESTAMP_MASK,
        now2 <= TIMESTAMP_MASK,
        worker1 <= WORKER_MASK,
        worker2 <= WORKER_MASK,
        worker1 != worker2,
        plan_spec(cur1, now1, worker1) is Issue,
        plan_spec(cur2, now2, worker2) is Issue,
    ensures
        plan_spec(cur1, now1, worker1)->id != plan_spec(cur2, now2, worker2)->id,
{
    lemma_issued_id_fields(cur1, now1, worker1);
    lemma_issued_id_fields(cur2, now2, worker2);
}

/// The first ID issued in a millisecond later than the last one recorded
/// has sequence 0; within the recorded millisecond the sequence is the one
/// the state recorded as next.
pub proof fn lemma_sequence_resets_each_ms(cur: u64, now: u64, worker: u16)
    requires
        now <= TIMESTAMP_MASK,
        worker <= WORKER_MASK,
    ensures
        now > state_last_ms(cur) ==> plan_spec(cur, now, worker) is Issue
            && plan_spec(cur, now, worker)->id as int % 0x1000 == 0,
        now == state_last_ms(cur) && state_next_seq(cur) < 4096 ==> plan_spec(
            cur,
            now,
            worker,
        ) is Issue && plan_spec(cur, now, worker)->id as int % 0x1000 == state_next_seq(cur),
{
    if now > state_last_ms(cur) {
        lemma_fields_of_composed(now as int, worker as int, 0);
    }
    if now == state_last_ms(cur) && state_next_seq(cur) < 4096 {
        lemma_fields_of_composed(now as int, worker as int, state_next_seq(cur));
    }
}

/// A generator refuses to issue exactly when the clock reads earlier than
/// the millisecond of the last ID issued, and waits exactly when that
/// millisecond's 4096 sequences are used; it never issues an ID from a
/// millisecond earlier than the one recorded.
pub proof fn lemma_refusals(cur: u64, now: u64, worker: u16)
    requires
        now <= TIMESTAMP_MASK,
        worker <= WORKER_MASK,
    ensures
        plan_spec(cur, now, worker) is Skew <==> now < state_last_ms(cur),
        plan_spec(cur, now, worker) is Wait <==> now == state_last_ms(cur) && state_next_seq(cur)
            >= 4096,
        plan_spec(cur, now, worker) is Issue ==> state_last_ms(plan_spec(cur, now, worker)->state)
            >= state_last_ms(cur),
{
}


/// The IDs issued by successive attempts on one generator, starting from
/// state word `cur`, whose clock readings are the offsets `nows` in turn:
/// an issuing attempt stores its new state for the next one, and a refused
/// attempt (skew or wait) leaves the state as it was.
pub open spec fn issued_ids(cur: u64, nows: Seq<u64>, worker: u16) -> Seq<u64>
    decreases nows.len(),
{
    if nows.len() == 0 {
        Seq::empty()
    } else {
        match plan_spec(cur, nows[0], worker) {
            Plan::Issue { id, state } => seq![id] + issued_ids(state, nows.drop_first(), worker),
            _ => issued_ids(cur, nows.drop_first(), worker),
        }
    }
}

/// The least ID that can be issued next from state word `cur`.
spec fn next_id_floor(cur: u64, worker: u16) -> int {
    compose_id(state_last_ms(cur), worker as int, state_next_seq(cur))
}

proof fn lemma_issue_floor(cur: u64, now: u64, worker: u16)
    requires
        now <= TIMESTAMP_MASK,
        worker <= WORKER_MASK,
        plan_spec(cur, now, worker) is Issue,
    ensures
        plan_spec(cur, now, worker)->id >= next_id_floor(cur, worker),
        next_id_floor(plan_spec(cur, now, worker)->state, worker) == plan_spec(cur, now, worker)->id + 1,
{
    let p = plan_spec(cur, now, worker);
    let s1 = p->state;
    if now == state_last_ms(cur) {
        assert(state_last_ms(s1) == now);
        assert(state_next_seq(s1) == state_next_seq(cur) + 1);
    } else {
        assert(state_last_ms(s1) == now);
        assert(state_next_seq(s1) == 1);
    }
}

proof fn lemma_issued_ids_from(cur: u64, nows: Seq<u64>, worker: u16)
    requires
        worker <= WORKER_MASK,
        forall|i: int| 0 <= i < nows.len() ==> #[trigger] nows[i] <= TIMESTAMP_MASK,
    ensures
        forall|i: int|
            0 <= i < issued_ids(cur, nows, worker).len() ==> #[trigger] issued_ids(cur, nows, worker)[i]
                >= next_id_floor(cur, worker),
        forall|i: int, j: int|
            0 <= i < j < issued_ids(cur, nows, worker).len() ==> #[trigger] issued_ids(cur, nows, worker)[i]
                < #[trigger] issued_ids(cur, nows, worker)[j],
    decreases nows.len(),
{
    if nows.len() > 0 {
        let rest = nows.drop_first();
        assert(forall|i: int| 0 <= i < rest.len() ==> #[trigger] rest[i] == nows[i + 1]);
        assert(nows[0] <= TIMESTAMP_MASK);
        match plan_spec(cur, nows[0], worker) {
            Plan::Issue { id, state } => {
                lemma_issue_floor(cur, nows[0], worker);
                lemma_issued_ids_from(state, rest, worker);
                let tail = issued_ids(state, rest, worker);
                let all = issued_ids(cur, nows, worker);
                assert(all == seq![id] + tail);
                assert forall|i: int| 0 <= i < all.len() implies #[trigger] all[i] >= next_id_floor(cur, worker) by {
                    if i > 0 {
                        assert(all[i] == tail[i - 1]);
                    }
                }
                assert forall|i: int, j: int| 0 <= i < j < all.len() implies #[trigger] all[i] < #[trigger] all[j] by {
                    assert(all[j] == tail[j - 1]);
                    if i > 0 {
                        assert(all[i] == tail[i - 1]);
                    }
                }
            },
            _ => {
                lemma_issued_ids_from(cur, rest, worker);
                assert(issued_ids(cur, nows, worker) == issued_ids(cur, rest, worker));
            },
        }
    }
}

/// Strict monotonicity over a run of attempts: the IDs that one generator
/// issues, attempt after attempt, each attempt reading the state the last
/// issuing attempt stored, increase strictly, whatever the clock reads. In
/// particular no ID is issued twice.
pub proof fn lemma_issued_ids_increase(cur: u64, nows: Seq<u64>, worker: u16)
    requires
        worker <= WORKER_MASK,
        forall|i: int| 0 <= i < nows.len() ==> #[trigger] nows[i] <= TIMESTAMP_MASK,
    ensures
        forall|i: int, j: int|
            0 <= i < j < issued_ids(cur, nows, worker).len() ==> #[trigger] issued_ids(cur, nows, worker)[i]
                < #[trigger] issued_ids(cur, nows, worker)[j],
{
    lemma_issued_ids_from(cur, nows, worker);
}


/// An ID issued at wall-clock reading `unix_ms` by a generator with epoch
/// `epoch_ms` is stamped against that epoch: its timestamp field plus the
/// epoch gives the reading back, for readings within the 2^41 milliseconds
/// that follow the epoch.
pub proof fn lemma_issue_stamps_clock(cur: u64, unix_ms: u64, epoch_ms: u64, worker: u16)
    requires
        worker <= WORKER_MASK,
        epoch_ms <= unix_ms,
        unix_ms - epoch_ms <= TIMESTAMP_MASK,
        plan_spec(cur, offset_spec(unix_ms, epoch_ms), worker) is Issue,
    ensures
        (plan_spec(cur, offset_spec(unix_ms, epoch_ms), worker)->id as int / 0x40_0000) % 0x200_0000_0000
            + epoch_ms == unix_ms,
{
    let now = offset_spec(unix_ms, epoch_ms);
    assert(now == unix_ms - epoch_ms);
    lemma_issued_id_fields(cur, now, worker);
    let s1 = plan_spec(cur, now, worker)->state;
    assert(state_last_ms(s1) == now);
}

} // verus!
