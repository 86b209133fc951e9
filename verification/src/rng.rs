//! The xoshiro256** generator that supplies the random bits of UUIDs,
//! ULIDs and NanoIDs, seeded through SplitMix64.
//!
//! Not cryptographically secure.

use vstd::prelude::*;

verus! {

/// Four 64-bit words of generator state.
pub type RngState = (u64, u64, u64, u64);

/// Rotation of `x` left by `k` bits, for `0 < k < 64`.
pub open spec fn rotl_spec(x: u64, k: u64) -> u64 {
    (x << k) | (x >> ((64 - k) as u64))
}

/// The word that a draw returns from state `s`.
pub open spec fn xoshiro_output(s: RngState) -> u64 {
    rotl_spec(s.1.wrapping_mul(5), 7).wrapping_mul(9)
}

/// The state after one draw from state `s`.
pub open spec fn xoshiro_step(s: RngState) -> RngState {
    let t = s.1 << 17;
    let s2 = s.2 ^ s.0;
    let s3 = s.3 ^ s.1;
    let s1 = s.1 ^ s2;
    let s0 = s.0 ^ s3;
    let s2b = s2 ^ t;
    let s3b = rotl_spec(s3, 45);
    (s0, s1, s2b, s3b)
}

/// The state after `n` draws from state `s`.
pub open spec fn xoshiro_advance(s: RngState, n: nat) -> RngState
    decreases n,
{
    if n == 0 {
        s
    } else {
        xoshiro_step(xoshiro_advance(s, (n - 1) as nat))
    }
}

/// The `k`-th word drawn from state `s` (counting from zero).
pub open spec fn xoshiro_nth(s: RngState, k: nat) -> u64 {
    xoshiro_output(xoshiro_advance(s, k))
}

/// The SplitMix64 finaliser applied to one counter value.
pub open spec fn splitmix_mix(z0: u64) -> u64 {
    let z1 = (z0 ^ (z0 >> 30)).wrapping_mul(0xBF58_476D_1CE4_E5B9);
    let z2 = (z1 ^ (z1 >> 27)).wrapping_mul(0x94D0_49BB_1331_11EB);
    z2 ^ (z2 >> 31)
}

/// The SplitMix64 counter after `k` increments from `seed`.
pub open spec fn splitmix_counter(seed: u64, k: nat) -> u64
    decreases k,
{
    if k == 0 {
        seed
    } else {
        splitmix_counter(seed, (k - 1) as nat).wrapping_add(0x9E37_79B9_7F4A_7C15)
    }
}

/// The four successive SplitMix64 outputs from `seed`.
pub open spec fn splitmix_words(seed: u64) -> RngState {
    (
        splitmix_mix(splitmix_counter(seed, 1)),
        splitmix_mix(splitmix_counter(seed, 2)),
        splitmix_mix(splitmix_counter(seed, 3)),
        splitmix_mix(splitmix_counter(seed, 4)),
    )
}

/// The state that SplitMix64 expands `seed` into: four successive outputs,
/// with the all-zero state replaced by `(1, 0, 0, 0)`.
pub open spec fn seeded_state(seed: u64) -> RngState {
    let w = splitmix_words(seed);
    if w == (0u64, 0u64, 0u64, 0u64) {
        (1u64, 0u64, 0u64, 0u64)
    } else {
        w
    }
}

/// The seed derived from a process id, a wall-clock reading in nanoseconds
/// and a per-process counter.
pub open spec fn entropy_seed(pid: u64, nanos: u64, counter: u64) -> u64 {
    pid.wrapping_mul(0x9E37_79B9_7F4A_7C15).wrapping_add(nanos).wrapping_add(
        counter.wrapping_mul(0xBF58_476D_1CE4_E5B9),
    )
}

/// The eight big-endian bytes of `x`.
pub open spec fn u64_be_bytes(x: u64) -> Seq<u8> {
    Seq::new(8, |i: int| ((x >> ((56 - 8 * i) as u64)) & 0xff) as u8)
}

/// The sixteen bytes of two successive draws from `s`, each big-endian.
pub open spec fn xoshiro_bytes16(s: RngState) -> Seq<u8> {
    u64_be_bytes(xoshiro_output(s)) + u64_be_bytes(xoshiro_output(xoshiro_step(s)))
}

/// A seeded state is never the all-zero state, from which xoshiro256**
/// would only ever return zero.
pub proof fn lemma_seeded_state_nonzero(seed: u64)
    ensures
        seeded_state(seed) != (0u64, 0u64, 0u64, 0u64),
{
}

/// A xoshiro256** generator.
pub struct Xoshiro256SS {
    s0: u64,
    s1: u64,
    s2: u64,
    s3: u64,
}

impl View for Xoshiro256SS {
    type V = RngState;

    closed spec fn view(&self) -> RngState {
        (self.s0, self.s1, self.s2, self.s3)
    }
}

fn rotl(x: u64, k: u64) -> (r: u64)
    requires
        0 < k < 64,
    ensures
        r == rotl_spec(x, k),
{
    (x << k) | (x >> (64 - k))
}

fn splitmix_finalise(z0: u64) -> (r: u64)
    ensures
        r == splitmix_mix(z0),
{
    let z1 = (z0 ^ (z0 >> 30)).wrapping_mul(0xBF58_476D_1CE4_E5B9);
    let z2 = (z1 ^ (z1 >> 27)).wrapping_mul(0x94D0_49BB_1331_11EB);
    z2 ^ (z2 >> 31)
}

impl Xoshiro256SS {
    #[verifier::type_invariant]
    closed spec fn nonzero(self) -> bool {
        self@ != (0u64, 0u64, 0u64, 0u64)
    }

    /// Expand `seed` into a generator state with SplitMix64.
    pub fn from_seed(seed: u64) -> (r: Self)
        ensures
            r@ == seeded_state(seed),
    {
        let c1 = seed.wrapping_add(0x9E37_79B9_7F4A_7C15);
        let c2 = c1.wrapping_add(0x9E37_79B9_7F4A_7C15);
        let c3 = c2.wrapping_add(0x9E37_79B9_7F4A_7C15);
        let c4 = c3.wrapping_add(0x9E37_79B9_7F4A_7C15);
        proof {
            reveal_with_fuel(splitmix_counter, 5);
        }
        let w0 = splitmix_finalise(c1);
        let w1 = splitmix_finalise(c2);
        let w2 = splitmix_finalise(c3);
        let w3 = splitmix_finalise(c4);
        if w0 == 0 && w1 == 0 && w2 == 0 && w3 == 0 {
            Xoshiro256SS { s0: 1, s1: 0, s2: 0, s3: 0 }
        } else {
            Xoshiro256SS { s0: w0, s1: w1, s2: w2, s3: w3 }
        }
    }

    /// Seed a generator from a process id, the current wall-clock time in
    /// nanoseconds and a per-process counter.
    pub fn from_entropy(pid: u64, counter: u64) -> (r: Self)
        ensures
            exists|nanos: u64|
                crate::clock::is_ns_reading(nanos) && r@ == #[trigger] seeded_state(
                    entropy_seed(pid, nanos, counter),
                ),
    {
        let nanos = crate::clock::unix_time_nanos();
        Self::from_parts(pid, nanos, counter)
    }

    /// Seed a generator from a process id, a wall-clock reading in
    /// nanoseconds and a per-process counter.
    pub fn from_parts(pid: u64, nanos: u64, counter: u64) -> (r: Self)
        ensures
            r@ == seeded_state(entropy_seed(pid, nanos, counter)),
    {
        let seed = pid.wrapping_mul(0x9E37_79B9_7F4A_7C15).wrapping_add(nanos).wrapping_add(
            counter.wrapping_mul(0xBF58_476D_1CE4_E5B9),
        );
        Self::from_seed(seed)
    }

    /// Draw one word. The state always moves: a generator never starts two
    /// successive draws from the same state.
    pub fn next_u64(&mut self) -> (r: u64)
        ensures
            r == xoshiro_output(old(self)@),
            final(self)@ == xoshiro_step(old(self)@),
            final(self)@ != old(self)@,
    {
        proof {
            use_type_invariant(&*self);
            lemma_step_moves(self@);
            lemma_step_keeps_nonzero(self@);
        }
        let result = rotl(self.s1.wrapping_mul(5), 7).wrapping_mul(9);
        let t = self.s1 << 17;
        let s2 = self.s2 ^ self.s0;
        let s3 = self.s3 ^ self.s1;
        let s1 = self.s1 ^ s2;
        let s0 = self.s0 ^ s3;
        *self = Xoshiro256SS { s0, s1, s2: s2 ^ t, s3: rotl(s3, 45) };
        result
    }

    /// Draw sixteen bytes: two words, each written big-endian.
    pub fn next_bytes_16(&mut self) -> (r: [u8; 16])
        ensures
            r@ == xoshiro_bytes16(old(self)@),
            final(self)@ == xoshiro_advance(old(self)@, 2),
    {
        let a = self.next_u64();
        let b = self.next_u64();
        let mut out = [0u8; 16];
        let mut i: usize = 0;
        while i < 8
            invariant
                i <= 8,
                forall|j: int| 0 <= j < i ==> out@[j] == u64_be_bytes(a)[j],
                forall|j: int| 0 <= j < i ==> out@[j + 8] == u64_be_bytes(b)[j],
            decreases 8 - i,
        {
            let shift: u64 = 56 - 8 * (i as u64);
            out[i] = ((a >> shift) & 0xff) as u8;
            out[i + 8] = ((b >> shift) & 0xff) as u8;
            i = i + 1;
        }
        proof {
            reveal_with_fuel(xoshiro_advance, 3);
            assert(out@ =~= xoshiro_bytes16(old(self)@));
        }
        out
    }
}


proof fn lemma_step_fixed_bits(a: u64, b: u64, c: u64, d: u64)
    by (bit_vector)
    ensures
        (a ^ (d ^ b) == a && b ^ (c ^ a) == b && (c ^ a) ^ (b << 17u64) == c && rotl_spec(d ^ b, 45)
            == d) ==> a == 0 && b == 0 && c == 0 && d == 0,
        (a ^ (d ^ b) == 0 && b ^ (c ^ a) == 0 && (c ^ a) ^ (b << 17u64) == 0 && rotl_spec(d ^ b, 45)
            == 0) ==> a == 0 && b == 0 && c == 0 && d == 0,
{
}

proof fn lemma_step_keeps_nonzero(s: RngState)
    requires
        s != (0u64, 0u64, 0u64, 0u64),
    ensures
        xoshiro_step(s) != (0u64, 0u64, 0u64, 0u64),
{
    lemma_step_fixed_bits(s.0, s.1, s.2, s.3);
}

/// A draw moves every state but the all-zero one: no nonzero state is left
/// unchanged by a step, so a draw never starts from the state the previous
/// draw started from.
pub proof fn lemma_step_moves(s: RngState)
    requires
        s != (0u64, 0u64, 0u64, 0u64),
    ensures
        xoshiro_step(s) != s,
{
    lemma_step_fixed_bits(s.0, s.1, s.2, s.3);
}


proof fn lemma_splitmix_steps_invertible(a: u64, b: u64, c: u64)
    by (bit_vector)
    ensures
        (a ^ (a >> 31u64)) ^ ((a ^ (a >> 31u64)) >> 31u64) ^ ((a ^ (a >> 31u64)) >> 62u64) == a,
        (b ^ (b >> 27u64)) ^ ((b ^ (b >> 27u64)) >> 27u64) ^ ((b ^ (b >> 27u64)) >> 54u64) == b,
        (c ^ (c >> 30u64)) ^ ((c ^ (c >> 30u64)) >> 30u64) ^ ((c ^ (c >> 30u64)) >> 60u64) == c,
{
}

proof fn lemma_splitmix_mul2_invertible(e: u64)
    by (bit_vector)
    ensures
        (((e * 0x94D0_49BB_1331_11EBu64) % 0x1_0000_0000_0000_0000) * 0x3196_42b2_d24d_8ec3u64)
            % 0x1_0000_0000_0000_0000 == e,
{
}

proof fn lemma_splitmix_mul1_invertible(d: u64)
    by (bit_vector)
    ensures
        (((d * 0xBF58_476D_1CE4_E5B9u64) % 0x1_0000_0000_0000_0000) * 0x96de_1b17_3f11_9089u64)
            % 0x1_0000_0000_0000_0000 == d,
{
}

/// The SplitMix64 finaliser never maps two counter values to one output.
proof fn lemma_splitmix_mix_injective(x: u64, y: u64)
    requires
        splitmix_mix(x) == splitmix_mix(y),
    ensures
        x == y,
{
    let x1 = (x ^ (x >> 30)).wrapping_mul(0xBF58_476D_1CE4_E5B9);
    let x2 = (x1 ^ (x1 >> 27)).wrapping_mul(0x94D0_49BB_1331_11EB);
    let y1 = (y ^ (y >> 30)).wrapping_mul(0xBF58_476D_1CE4_E5B9);
    let y2 = (y1 ^ (y1 >> 27)).wrapping_mul(0x94D0_49BB_1331_11EB);
    lemma_splitmix_steps_invertible(x2, 0, 0);
    lemma_splitmix_steps_invertible(y2, 0, 0);
    assert(x2 == y2);
    lemma_splitmix_mul2_invertible(x1 ^ (x1 >> 27));
    lemma_splitmix_mul2_invertible(y1 ^ (y1 >> 27));
    assert(x1 ^ (x1 >> 27) == y1 ^ (y1 >> 27));
    lemma_splitmix_steps_invertible(0, x1, 0);
    lemma_splitmix_steps_invertible(0, y1, 0);
    assert(x1 == y1);
    lemma_splitmix_mul1_invertible(x ^ (x >> 30));
    lemma_splitmix_mul1_invertible(y ^ (y >> 30));
    assert(x ^ (x >> 30) == y ^ (y >> 30));
    lemma_splitmix_steps_invertible(0, 0, x);
    lemma_splitmix_steps_invertible(0, 0, y);
}

/// Seeding separates clock readings: two generators seeded with the same
/// process id and counter at different nanosecond readings start from
/// different states. (The one exception would be a seed whose four
/// SplitMix64 outputs are all zero, which is replaced by `(1, 0, 0, 0)`.)
pub proof fn lemma_entropy_seeding_separates_readings(pid: u64, nanos1: u64, nanos2: u64, counter: u64)
    requires
        nanos1 != nanos2,
    ensures
        entropy_seed(pid, nanos1, counter) != entropy_seed(pid, nanos2, counter),
        splitmix_words(entropy_seed(pid, nanos1, counter)) != splitmix_words(entropy_seed(pid, nanos2, counter)),
        splitmix_words(entropy_seed(pid, nanos1, counter)) != (0u64, 0u64, 0u64, 0u64)
            && splitmix_words(entropy_seed(pid, nanos2, counter)) != (0u64, 0u64, 0u64, 0u64)
            ==> seeded_state(entropy_seed(pid, nanos1, counter)) != seeded_state(
            entropy_seed(pid, nanos2, counter),
        ),
{
    let s1 = entropy_seed(pid, nanos1, counter);
    let s2 = entropy_seed(pid, nanos2, counter);
    assert(s1 != s2);
    reveal_with_fuel(splitmix_counter, 2);
    assert(splitmix_counter(s1, 1) != splitmix_counter(s2, 1));
    if splitmix_mix(splitmix_counter(s1, 1)) == splitmix_mix(splitmix_counter(s2, 1)) {
        lemma_splitmix_mix_injective(splitmix_counter(s1, 1), splitmix_counter(s2, 1));
    }
}

} // verus!
