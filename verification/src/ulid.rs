//! ULIDs: 128-bit identifiers made of a 48-bit big-endian millisecond
//! timestamp and 80 bits of randomness, written as 26 Crockford base32
//! characters that sort in creation order.
//!
//! A [`MonotonicState`] factory makes two ULIDs of the same millisecond
//! strictly ordered: the second one's random part is the first one's plus
//! one.

use crate::clock;
use crate::order::{lemma_shift_zero, bytes_lt, lemma_bytes_lt_after_common, lemma_bytes_lt_prefix, lemma_u128_be_order, lemma_u48_be_order, u128_be_bytes, u48_be_bytes, agree_before};
use crate::rng::{u64_be_bytes, xoshiro_advance, xoshiro_output, xoshiro_step, RngState, Xoshiro256SS};
use crate::strings::push_char;
use crate::uuid::ascii_lower;
use vstd::prelude::*;
use vstd::string::StringSliceAdditionalSpecFns;
use vstd::utf8::{encode_utf8, is_ascii_chars, is_ascii_chars_encode_utf8};

verus! {

/// Crockford base32 alphabet: `0123456789ABCDEFGHJKMNPQRSTVWXYZ`.
pub const ALPHABET: [u8; 32] = [
    0x30, 0x31, 0x32, 0x33, 0x34, 0x35, 0x36, 0x37, 0x38, 0x39, 0x41, 0x42, 0x43, 0x44, 0x45, 0x46,
    0x47, 0x48, 0x4a, 0x4b, 0x4d, 0x4e, 0x50, 0x51, 0x52, 0x53, 0x54, 0x56, 0x57, 0x58, 0x59, 0x5a,
];

/// `2^80 - 1`: the largest random part.
pub const RAND_MASK_80: u128 = 0xffff_ffff_ffff_ffff_ffff;

/// `2^48 - 1`: the largest timestamp.
pub const TIMESTAMP_MASK_48: u64 = 0xffff_ffff_ffff;

/// A 128-bit ULID, stored as 16 big-endian bytes: 6 bytes of millisecond
/// timestamp followed by 10 bytes of randomness.
#[derive(Debug, Clone, Copy, PartialEq, Eq, Hash, PartialOrd, Ord)]
pub struct Ulid([u8; 16]);

impl View for Ulid {
    type V = Seq<u8>;

    closed spec fn view(&self) -> Seq<u8> {
        self.0@
    }
}

/// Error returned by [`Ulid::parse_str`].
#[derive(Debug, Clone, Copy, PartialEq, Eq)]
pub enum ParseError {
    /// Input was not exactly 26 bytes. The value is the actual length.
    InvalidLength(usize),
    /// The byte at the given position is not a Crockford base32 digit
    /// (after the I/L/O substitutions).
    InvalidChar(usize),
    /// The leading character encodes a value above 7, which would set bits
    /// beyond the 128-bit range.
    Overflow,
}

/// The big-endian value of bytes `b`, reduced to 128 bits.
pub open spec fn be_u128(b: Seq<u8>) -> u128
    decreases b.len(),
{
    if b.len() == 0 {
        0
    } else {
        (be_u128(b.drop_last()) << 8u128) | (b.last() as u128)
    }
}

/// The value of base-32 digits `d`, most significant first, reduced to
/// 128 bits.
pub open spec fn base32_value(d: Seq<u8>) -> u128
    decreases d.len(),
{
    if d.len() == 0 {
        0
    } else {
        (base32_value(d.drop_last()) << 5u128) | (d.last() as u128)
    }
}

/// The bytes of the ULID with timestamp `ms` (its low 48 bits) and random
/// part `rand` (its low 80 bits).
pub open spec fn ulid_layout(ms: u64, rand: u128) -> Seq<u8> {
    u64_be_bytes(ms).subrange(2, 8) + u128_be_bytes(rand).subrange(6, 16)
}

/// The big-endian value of the first six bytes.
pub open spec fn timestamp_of(b: Seq<u8>) -> u64 {
    ((b[0] as u64) << 40u64) | ((b[1] as u64) << 32u64) | ((b[2] as u64) << 24u64) | ((b[3] as u64)
        << 16u64) | ((b[4] as u64) << 8u64) | (b[5] as u64)
}

/// Base-32 digit `i` (of 26, most significant first) of `n`.
pub open spec fn digit_at(n: u128, i: int) -> u8 {
    ((n >> ((125 - 5 * i) as u128)) & 0x1f) as u8
}

/// The 26-character text form of ULID bytes `b`.
pub open spec fn ulid_text(b: Seq<u8>) -> Seq<char> {
    Seq::new(26, |i: int| ALPHABET@[digit_at(be_u128(b), i) as int] as char)
}

/// ASCII uppercase of one byte.
pub open spec fn ascii_upper(c: u8) -> u8 {
    if 0x61 <= c <= 0x7a {
        (c - 0x20) as u8
    } else {
        c
    }
}

/// The position of byte `u` in [`ALPHABET`], if it occurs there.
pub open spec fn alphabet_index(u: u8) -> Option<u8> {
    if exists|d: int| 0 <= d < 32 && ALPHABET@[d] == u {
        Some((choose|d: int| 0 <= d < 32 && ALPHABET@[d] == u) as u8)
    } else {
        None
    }
}

/// The value of Crockford base32 digit `c` in either case: its position in
/// [`ALPHABET`] once uppercased, with `I` and `L` read as `1` and `O` as
/// `0`. Anything else, `U` among it, is not a digit.
pub open spec fn crockford_value(c: u8) -> Option<u8> {
    let u = ascii_upper(c);
    if u == 0x4f {
        Some(0)
    } else if u == 0x49 || u == 0x4c {
        Some(1)
    } else {
        alphabet_index(u)
    }
}

/// The digit value of a byte already known to be a digit.
pub open spec fn digit_of(c: u8) -> u8 {
    match crockford_value(c) {
        Some(v) => v,
        None => 0,
    }
}

/// Position `p` of `t`, after the first, is not a digit.
pub open spec fn bad_digit_at(t: Seq<u8>, p: int) -> bool {
    1 <= p < t.len() && crockford_value(t[p]) is None
}

/// `p` is the first such position.
pub open spec fn is_first_bad_digit(t: Seq<u8>, p: int) -> bool {
    bad_digit_at(t, p) && forall|q: int| 1 <= q < p ==> !bad_digit_at(t, q)
}

/// The outcome of parsing bytes `t`: the length is checked first, then
/// the leading digit and its range, then the other digits from left to
/// right.
pub open spec fn ulid_parse(t: Seq<u8>) -> Result<Seq<u8>, ParseError> {
    if t.len() != 26 {
        Err(ParseError::InvalidLength(t.len() as usize))
    } else if crockford_value(t[0]) is None {
        Err(ParseError::InvalidChar(0))
    } else if digit_of(t[0]) > 7 {
        Err(ParseError::Overflow)
    } else if exists|p: int| bad_digit_at(t, p) {
        Err(ParseError::InvalidChar((choose|p: int| is_first_bad_digit(t, p)) as usize))
    } else {
        Ok(u128_be_bytes(base32_value(t.map_values(|c: u8| digit_of(c)))))
    }
}

/// The parse outcome as a `Ulid` result, by views.
pub open spec fn parse_matches(r: Result<Ulid, ParseError>, spec: Result<Seq<u8>, ParseError>) -> bool {
    match r {
        Ok(u) => spec == Ok::<Seq<u8>, ParseError>(u@),
        Err(e) => spec == Err::<Seq<u8>, ParseError>(e),
    }
}

proof fn lemma_decode_table(c: u8)
    ensures
        0x32 <= c <= 0x39 ==> crockford_value(c) == Some((c - 0x30) as u8),
        0x41 <= c <= 0x48 ==> crockford_value(c) == Some((c - 0x41 + 10) as u8),
        c == 0x4a || c == 0x4b ==> crockford_value(c) == Some((c - 0x41 + 9) as u8),
        c == 0x4d || c == 0x4e ==> crockford_value(c) == Some((c - 0x41 + 8) as u8),
        0x50 <= c <= 0x54 ==> crockford_value(c) == Some((c - 0x41 + 7) as u8),
        0x56 <= c <= 0x5a ==> crockford_value(c) == Some((c - 0x41 + 6) as u8),
        0x61 <= c <= 0x68 ==> crockford_value(c) == Some((c - 0x61 + 10) as u8),
        c == 0x6a || c == 0x6b ==> crockford_value(c) == Some((c - 0x61 + 9) as u8),
        c == 0x6d || c == 0x6e ==> crockford_value(c) == Some((c - 0x61 + 8) as u8),
        0x70 <= c <= 0x74 ==> crockford_value(c) == Some((c - 0x61 + 7) as u8),
        0x76 <= c <= 0x7a ==> crockford_value(c) == Some((c - 0x61 + 6) as u8),
        !(0x30 <= c <= 0x39 || 0x41 <= c <= 0x5a || 0x61 <= c <= 0x7a) || c == 0x55 || c == 0x75
            ==> crockford_value(c) is None,
{
    let u = ascii_upper(c);
    if 0x32 <= u <= 0x39 {
        lemma_alphabet_index(u - 0x30);
    } else if 0x41 <= u <= 0x48 {
        lemma_alphabet_index(u - 0x41 + 10);
    } else if u == 0x4a || u == 0x4b {
        lemma_alphabet_index(u - 0x41 + 9);
    } else if u == 0x4d || u == 0x4e {
        lemma_alphabet_index(u - 0x41 + 8);
    } else if 0x50 <= u <= 0x54 {
        lemma_alphabet_index(u - 0x41 + 7);
    } else if 0x56 <= u <= 0x5a {
        lemma_alphabet_index(u - 0x41 + 6);
    } else if u != 0x30 && u != 0x31 && u != 0x4f && u != 0x49 && u != 0x4c {
        assert forall|d: int| 0 <= d < 32 implies ALPHABET@[d] != u by {
            assert(ALPHABET@[d] == ALPHABET[d]);
        }
    }
}

/// The value of a Crockford base32 digit, with the I/L/O substitutions.
fn decode_char(c: u8) -> (r: Option<u8>)
    ensures
        r == crockford_value(c),
{
    proof {
        lemma_decode_table(c);
    }
    if c == 0x30 || c == 0x6f || c == 0x4f {
        Some(0)
    } else if c == 0x31 || c == 0x69 || c == 0x49 || c == 0x6c || c == 0x4c {
        Some(1)
    } else if 0x32 <= c && c <= 0x39 {
        Some(c - 0x30)
    } else if 0x41 <= c && c <= 0x48 {
        Some(c - 0x41 + 10)
    } else if c == 0x4a || c == 0x4b {
        Some(c - 0x41 + 9)
    } else if c == 0x4d || c == 0x4e {
        Some(c - 0x41 + 8)
    } else if 0x50 <= c && c <= 0x54 {
        Some(c - 0x41 + 7)
    } else if 0x56 <= c && c <= 0x5a {
        Some(c - 0x41 + 6)
    } else if 0x61 <= c && c <= 0x68 {
        Some(c - 0x61 + 10)
    } else if c == 0x6a || c == 0x6b {
        Some(c - 0x61 + 9)
    } else if c == 0x6d || c == 0x6e {
        Some(c - 0x61 + 8)
    } else if 0x70 <= c && c <= 0x74 {
        Some(c - 0x61 + 7)
    } else if 0x76 <= c && c <= 0x7a {
        Some(c - 0x61 + 6)
    } else {
        None
    }
}

proof fn lemma_alphabet_index(d: int)
    requires
        0 <= d < 32,
    ensures
        alphabet_index(ALPHABET@[d]) == Some(d as u8),
{
    let u = ALPHABET@[d];
    let e = choose|e: int| 0 <= e < 32 && ALPHABET@[e] == u;
    if e < d {
        lemma_alphabet_ascending(e, d);
    } else if d < e {
        lemma_alphabet_ascending(d, e);
    }
}

proof fn lemma_first_bad_digit_unique(t: Seq<u8>, p: int)
    requires
        is_first_bad_digit(t, p),
    ensures
        (choose|q: int| is_first_bad_digit(t, q)) == p,
{
    let q = choose|q: int| is_first_bad_digit(t, q);
    assert(is_first_bad_digit(t, q));
    if q < p {
        assert(!bad_digit_at(t, q));
    } else if p < q {
        assert(!bad_digit_at(t, p));
    }
}

/// The sixteen big-endian bytes of `x`.
fn to_be_bytes(x: u128) -> (r: [u8; 16])
    ensures
        r@ == u128_be_bytes(x),
{
    let mut out = [0u8; 16];
    let mut i: usize = 0;
    while i < 16
        invariant
            i <= 16,
            forall|j: int| 0 <= j < i ==> out@[j] == u128_be_bytes(x)[j],
        decreases 16 - i,
    {
        let shift: u128 = 120 - 8 * (i as u128);
        out[i] = ((x >> shift) & 0xff) as u8;
        i = i + 1;
    }
    assert(out@ =~= u128_be_bytes(x));
    out
}

/// The big-endian value of sixteen bytes.
fn from_be_bytes(b: &[u8; 16]) -> (r: u128)
    ensures
        r == be_u128(b@),
{
    let mut n: u128 = 0;
    let mut i: usize = 0;
    while i < 16
        invariant
            i <= 16,
            n == be_u128(b@.take(i as int)),
        decreases 16 - i,
    {
        proof {
            assert(b@.take(i + 1).drop_last() =~= b@.take(i as int));
        }
        n = (n << 8) | (b[i] as u128);
        i = i + 1;
    }
    assert(b@.take(16) =~= b@);
    n
}

impl Ulid {
    /// The Nil ULID: all 128 bits zero.
    pub fn nil() -> (r: Self)
        ensures
            r@ == Seq::new(16, |i: int| 0u8),
    {
        let r = Ulid([0u8; 16]);
        assert(r@ =~= Seq::new(16, |i: int| 0u8));
        r
    }

    /// The Max ULID: all 128 bits one.
    pub fn max() -> (r: Self)
        ensures
            r@ == Seq::new(16, |i: int| 0xffu8),
    {
        let r = Ulid([0xffu8; 16]);
        assert(r@ =~= Seq::new(16, |i: int| 0xffu8));
        r
    }

    /// Wrap a 16-byte big-endian representation as it is.
    pub fn from_bytes(bytes: &[u8; 16]) -> (r: Self)
        ensures
            r@ == bytes@,
    {
        Ulid(*bytes)
    }

    /// The raw 16-byte big-endian representation.
    pub fn as_bytes(&self) -> (r: &[u8; 16])
        ensures
            r@ == self@,
    {
        &self.0
    }

    /// The 48-bit millisecond timestamp prefix.
    pub fn timestamp_ms(&self) -> (r: u64)
        ensures
            r == timestamp_of(self@),
    {
        let b = &self.0;
        ((b[0] as u64) << 40) | ((b[1] as u64) << 32) | ((b[2] as u64) << 24) | ((b[3] as u64) << 16)
            | ((b[4] as u64) << 8) | (b[5] as u64)
    }

    /// The ULID with timestamp `ms` (its low 48 bits) and random part
    /// `rand` (its low 80 bits).
    pub fn pack(ms: u64, rand: u128) -> (r: Self)
        ensures
            r@ == ulid_layout(ms, rand),
    {
        let mut bytes = [0u8; 16];
        let mut k: usize = 0;
        while k < 6
            invariant
                k <= 6,
                forall|j: int| 0 <= j < k ==> bytes@[j] == u64_be_bytes(ms)[j + 2],
            decreases 6 - k,
        {
            let shift: u64 = 40 - 8 * (k as u64);
            bytes[k] = ((ms >> shift) & 0xff) as u8;
            k = k + 1;
        }
        let rb = to_be_bytes(rand);
        while k < 16
            invariant
                6 <= k <= 16,
                rb@ == u128_be_bytes(rand),
                forall|j: int| 0 <= j < 6 ==> bytes@[j] == u64_be_bytes(ms)[j + 2],
                forall|j: int| 6 <= j < k ==> bytes@[j] == rb@[j],
            decreases 16 - k,
        {
            bytes[k] = rb[k];
            k = k + 1;
        }
        let r = Ulid(bytes);
        assert(r@ =~= ulid_layout(ms, rand));
        r
    }

    /// The 26-character Crockford base32 form, uppercase.
    pub fn to_string(&self) -> (r: String)
        ensures
            r@ == ulid_text(self@),
    {
        let n = from_be_bytes(&self.0);
        let mut out = String::new();
        let mut i: usize = 0;
        while i < 26
            invariant
                i <= 26,
                n == be_u128(self@),
                out@ == Seq::new(i as nat, |j: int| ALPHABET@[digit_at(n, j) as int] as char),
            decreases 26 - i,
        {
            let shift: u128 = 125 - 5 * (i as u128);
            let d = (n >> shift) & 0x1f;
            assert((n >> shift) & 0x1fu128 < 32u128) by (bit_vector);
            let c = ALPHABET[d as usize] as char;
            push_char(&mut out, c);
            i = i + 1;
            assert(out@ =~= Seq::new(i as nat, |j: int| ALPHABET@[digit_at(n, j) as int] as char));
        }
        out
    }

    /// Parse a 26-character Crockford base32 ULID in either case, reading
    /// `I` and `L` as `1` and `O` as `0`; `U` is rejected.
    pub fn parse_str(input: &str) -> (r: Result<Self, ParseError>)
        ensures
            parse_matches(r, ulid_parse(input.spec_bytes())),
    {
        let bytes = input.as_bytes();
        let ghost t = bytes@;
        if bytes.len() != 26 {
            return Err(ParseError::InvalidLength(bytes.len()));
        }
        let first = match decode_char(bytes[0]) {
            Some(v) => v,
            None => {
                return Err(ParseError::InvalidChar(0));
            },
        };
        if first > 7 {
            return Err(ParseError::Overflow);
        }
        let ghost digits = t.map_values(|c: u8| digit_of(c));
        let mut n: u128 = first as u128;
        let mut i: usize = 1;
        proof {
            let f = first as u128;
            assert(digits.take(1).drop_last() =~= Seq::<u8>::empty());
            assert((0u128 << 5u128) | f == f) by (bit_vector);
            assert(digits.take(1).last() == first);
            assert(base32_value(Seq::<u8>::empty()) == 0);
            assert(base32_value(digits.take(1)) == (base32_value(digits.take(1).drop_last()) << 5u128)
                | (digits.take(1).last() as u128));
        }
        while i < 26
            invariant
                t == bytes@,
                t == input.spec_bytes(),
                t.len() == 26,
                digits == t.map_values(|c: u8| digit_of(c)),
                crockford_value(t[0]) is Some,
                digit_of(t[0]) <= 7,
                1 <= i <= 26,
                forall|q: int| 1 <= q < i ==> !bad_digit_at(t, q),
                n == base32_value(digits.take(i as int)),
            decreases 26 - i,
        {
            let v = match decode_char(bytes[i]) {
                Some(v) => v,
                None => {
                    proof {
                        assert(is_first_bad_digit(t, i as int));
                        lemma_first_bad_digit_unique(t, i as int);
                    }
                    return Err(ParseError::InvalidChar(i));
                },
            };
            proof {
                assert(digits.take(i + 1).drop_last() =~= digits.take(i as int));
            }
            n = (n << 5) | (v as u128);
            i = i + 1;
        }
        proof {
            assert(digits.take(26) =~= digits);
        }
        let r = Ulid(to_be_bytes(n));
        Ok(r)
    }
}

/// Eighty random bits from two draws starting at state `s`: all 64 bits
/// of the first word, then the top 16 bits of the second.
pub open spec fn fresh_random(s: RngState) -> u128 {
    ((xoshiro_output(s) as u128) << 16u128) | ((xoshiro_output(xoshiro_step(s)) >> 48u64) as u128)
}

/// The random part that the factory in state `st` (the millisecond and
/// random part of the last ULID it made, if any) gives for millisecond `ms`,
/// the factory's state after it, and the generator state after it, from
/// generator state `s`. In the millisecond of the previous ULID it is the
/// previous random part plus one; otherwise it is drawn afresh.
pub open spec fn next_random_spec(st: Option<(u64, u128)>, ms: u64, s: RngState) -> (
    u128,
    Option<(u64, u128)>,
    RngState,
) {
    if st is Some && st->Some_0.0 == ms {
        let next = (st->Some_0.1 + 1) as u128;
        (next, Some((ms, next)), s)
    } else {
        (fresh_random(s), Some((ms, fresh_random(s))), xoshiro_advance(s, 2))
    }
}

/// The factory in state `st` cannot give another random part in
/// millisecond `ms`: the 80-bit counter of that millisecond is used up.
pub open spec fn counter_exhausted(st: Option<(u64, u128)>, ms: u64) -> bool {
    st == Some((ms, RAND_MASK_80))
}

/// The monotonic factory: the millisecond and random part of the last
/// ULID it made, or nothing before its first ULID.
pub struct MonotonicState {
    last: Option<(u64, u128)>,
}

impl View for MonotonicState {
    type V = Option<(u64, u128)>;

    closed spec fn view(&self) -> Option<(u64, u128)> {
        self.last
    }
}

impl MonotonicState {
    #[verifier::type_invariant]
    closed spec fn rand_fits(self) -> bool {
        self.last is Some ==> self.last->Some_0.1 <= RAND_MASK_80
    }

    /// A factory that has made nothing yet.
    pub fn new() -> (r: Self)
        ensures
            r@ == None::<(u64, u128)>,
    {
        MonotonicState { last: None }
    }

    /// The random part for millisecond `ms`: the previous one plus one in
    /// the previous ULID's millisecond, else eighty freshly drawn bits.
    pub fn next_random(&mut self, ms: u64, rng: &mut Xoshiro256SS) -> (r: u128)
        requires
            !counter_exhausted(old(self)@, ms),
        ensures
            (r, final(self)@, final(rng)@) == next_random_spec(old(self)@, ms, old(rng)@),
            r <= RAND_MASK_80,
    {
        proof {
            use_type_invariant(&*self);
        }
        match self.last {
            Some((last_ms, last_rand)) if ms == last_ms => {
                let next = last_rand + 1;
                self.last = Some((ms, next));
                return next;
            },
            _ => {},
        }
        let hi = rng.next_u64() as u128;
        let lo = rng.next_u64() as u128;
        let lo_top = lo >> 48;
        assert(((hi & 0xffff_ffff_ffff_ffffu128) << 16u128) | lo_top <= 0xffff_ffff_ffff_ffff_ffffu128)
            by (bit_vector)
            requires
                lo_top == lo >> 48u128,
                lo <= 0xffff_ffff_ffff_ffffu128,
        ;
        proof {
            reveal_with_fuel(xoshiro_advance, 3);
            let h = xoshiro_output(old(rng)@);
            let l = xoshiro_output(xoshiro_step(old(rng)@));
            assert(((h as u128 & 0xffff_ffff_ffff_ffffu128) << 16u128) | ((l as u128) >> 48u128) == ((
            h as u128) << 16u128) | ((l >> 48u64) as u128)) by (bit_vector);
        }
        let r = ((hi & 0xFFFF_FFFF_FFFF_FFFF) << 16) | ((lo >> 48) & 0xFFFF);
        assert((lo >> 48u128) & 0xffffu128 == lo >> 48u128) by (bit_vector)
            requires
                lo <= 0xffff_ffff_ffff_ffffu128,
        ;
        self.last = Some((ms, r));
        r
    }
}

/// What making a ULID at wall-clock reading `unix_ms` gives from factory
/// state `st` and generator state `s`: the ULID's bytes (none where the
/// counter of the millisecond is used up), the factory's state after it
/// and the generator state after it.
pub open spec fn ulid_step(st: Option<(u64, u128)>, s: RngState, unix_ms: u64) -> (
    Option<Seq<u8>>,
    Option<(u64, u128)>,
    RngState,
) {
    let ms = (unix_ms % 0x1_0000_0000_0000) as u64;
    if counter_exhausted(st, ms) {
        (None, st, s)
    } else {
        let (rand, st2, s2) = next_random_spec(st, ms, s);
        (Some(ulid_layout(ms, rand)), st2, s2)
    }
}

proof fn lemma_low48(x: u64)
    by (bit_vector)
    ensures
        x & 0xffff_ffff_ffffu64 == x % 0x1_0000_0000_0000,
{
}

impl Ulid {
    /// The ULID at wall-clock reading `unix_ms` (its low 48 bits), with the
    /// random part that the factory gives for that millisecond.
    pub fn new_at(unix_ms: u64, factory: &mut MonotonicState, rng: &mut Xoshiro256SS) -> (r: Self)
        requires
            !counter_exhausted(old(factory)@, (unix_ms % 0x1_0000_0000_0000) as u64),
        ensures
            (Some(r@), final(factory)@, final(rng)@) == ulid_step(old(factory)@, old(rng)@, unix_ms),
    {
        let ms = unix_ms & TIMESTAMP_MASK_48;
        proof {
            lemma_low48(unix_ms);
        }
        let rand = factory.next_random(ms, rng);
        Self::pack(ms, rand)
    }

    /// A ULID at the current wall-clock millisecond, or `None` where the
    /// factory's 80-bit counter for that millisecond is used up (nothing is
    /// changed then).
    pub fn new(factory: &mut MonotonicState, rng: &mut Xoshiro256SS) -> (r: Option<Self>)
        ensures
            exists|unix_ms: u64|
                #![trigger ulid_step(old(factory)@, old(rng)@, unix_ms)]
                clock::is_ms_reading(unix_ms) && (match r {
                    Some(u) => Some(u@),
                    None => None,
                }, final(factory)@, final(rng)@) == ulid_step(old(factory)@, old(rng)@, unix_ms),
    {
        let unix_ms = clock::unix_time_ms();
        let ms = unix_ms & TIMESTAMP_MASK_48;
        proof {
            lemma_low48(unix_ms);
        }
        if factory.is_exhausted_at(ms) {
            let r: Option<Self> = None;
            assert(ulid_step(old(factory)@, old(rng)@, unix_ms).0 == None::<Seq<u8>>);
            return r;
        }
        let u = Self::new_at(unix_ms, factory, rng);
        Some(u)
    }
}

impl MonotonicState {
    /// Whether the 80-bit counter of millisecond `ms` is used up.
    pub fn is_exhausted_at(&self, ms: u64) -> (r: bool)
        ensures
            r == counter_exhausted(self@, ms),
    {
        match self.last {
            Some((last_ms, last_rand)) => ms == last_ms && last_rand == RAND_MASK_80,
            None => false,
        }
    }
}

impl Default for Ulid {
    /// The Nil ULID.
    fn default() -> (r: Self)
        ensures
            r@ == Seq::new(16, |i: int| 0u8),
    {
        Ulid::nil()
    }
}

impl core::str::FromStr for Ulid {
    type Err = ParseError;

    fn from_str(s: &str) -> (r: Result<Self, Self::Err>)
        ensures
            parse_matches(r, ulid_parse(s.spec_bytes())),
    {
        Self::parse_str(s)
    }
}

proof fn lemma_alphabet_decodes(d: int)
    requires
        0 <= d < 32,
    ensures
        crockford_value(ALPHABET@[d]) == Some(d as u8),
        ALPHABET@[d] < 0x80,
{
}

proof fn lemma_digits_value(n: u128, ds: Seq<u8>, k: int)
    requires
        ds.len() == 26,
        forall|i: int| 0 <= i < 26 ==> #[trigger] ds[i] == digit_at(n, i),
        1 <= k <= 26,
    ensures
        base32_value(ds.take(k)) == n >> ((130 - 5 * k) as u128),
    decreases k,
{
    if k == 1 {
        assert(ds.take(1).drop_last() =~= Seq::<u8>::empty());
        assert(base32_value(Seq::<u8>::empty()) == 0);
        let d0 = ds[0];
        assert(d0 == digit_at(n, 0));
        assert((0u128 << 5u128) | (((n >> 125u128) & 0x1f) as u8 as u128) == n >> 125u128) by (bit_vector);
    } else {
        lemma_digits_value(n, ds, k - 1);
        assert(ds.take(k).drop_last() =~= ds.take(k - 1));
        let s = (130 - 5 * k) as u128;
        assert(ds[k - 1] == digit_at(n, k - 1));
        assert(((n >> (s + 5) as u128) << 5u128) | (((n >> s) & 0x1f) as u8 as u128) == n >> s) by (bit_vector)
            requires
                s <= 120u128,
        ;
    }
}

proof fn lemma_be_bytes_prefix(b: Seq<u8>, k: int)
    requires
        b.len() == 16,
        1 <= k <= 16,
    ensures
        forall|i: int|
            0 <= i < k ==> #[trigger] ((be_u128(b.take(k)) >> ((8 * (k - 1 - i)) as u128)) & 0xff) as u8
                == b[i],
        k <= 15 ==> be_u128(b.take(k)) >> ((8 * k) as u128) == 0,
    decreases k,
{
    let w = be_u128(b.take(k));
    let c = b[k - 1];
    assert(b.take(k).drop_last() =~= b.take(k - 1));
    assert(b.take(k).last() == c);
    if k == 1 {
        assert(b.take(0) =~= Seq::<u8>::empty());
        assert(be_u128(Seq::<u8>::empty()) == 0);
        assert(w == (0u128 << 8u128) | (c as u128));
        assert((((0u128 << 8u128) | (c as u128)) >> 0u128) & 0xff == c as u128) by (bit_vector);
        assert(((0u128 << 8u128) | (c as u128)) >> 8u128 == 0) by (bit_vector);
    } else {
        lemma_be_bytes_prefix(b, k - 1);
        let v = be_u128(b.take(k - 1));
        assert(w == (v << 8u128) | (c as u128));
        let m = (8 * (k - 1)) as u128;
        assert forall|i: int| 0 <= i < k implies #[trigger] ((w >> ((8 * (k - 1 - i)) as u128)) & 0xff) as u8
            == b[i] by {
            if i == k - 1 {
                assert((((v << 8u128) | (c as u128)) >> 0u128) & 0xff == c as u128) by (bit_vector);
            } else {
                let t = (8 * (k - 2 - i)) as u128;
                assert(((v >> t) & 0xff) as u8 == b[i]);
                assert(((v << 8u128) | (c as u128)) >> (t + 8) as u128 == v >> t) by (bit_vector)
                    requires
                        v >> m == 0,
                        m <= 120u128,
                        t + 8 <= m,
                ;
            }
        }
        if k <= 15 {
            assert(((v << 8u128) | (c as u128)) >> (m + 8) as u128 == 0) by (bit_vector)
                requires
                    v >> m == 0,
                    m <= 112u128,
            ;
        }
    }
}

/// Bytes give back the bytes of their big-endian value.
pub proof fn lemma_be_round_trip(b: Seq<u8>)
    requires
        b.len() == 16,
    ensures
        u128_be_bytes(be_u128(b)) == b,
{
    lemma_be_bytes_prefix(b, 16);
    assert(b.take(16) =~= b);
    let v = be_u128(b);
    assert forall|i: int| 0 <= i < 16 implies #[trigger] u128_be_bytes(v)[i] == b[i] by {
        assert(((v >> ((8 * (15 - i)) as u128)) & 0xff) as u8 == b[i]);
    }
    assert(u128_be_bytes(v) =~= b);
}

/// Round trip: parsing the text form of a ULID gives the ULID back.
pub proof fn lemma_text_parses_back(b: Seq<u8>)
    requires
        b.len() == 16,
    ensures
        ulid_parse(encode_utf8(ulid_text(b))) == Ok::<Seq<u8>, ParseError>(b),
{
    let n = be_u128(b);
    let text = ulid_text(b);
    assert forall|i: int| 0 <= i < 26 implies digit_at(n, i) < 32 by {
        let s = (125 - 5 * i) as u128;
        assert((((n >> s) & 0x1f) as u8) < 32u8) by (bit_vector);
    }
    assert forall|i: int| 0 <= i < 26 implies '\0' <= #[trigger] text[i] <= '\u{7f}' by {
        lemma_alphabet_decodes(digit_at(n, i) as int);
    }
    assert(is_ascii_chars(text));
    is_ascii_chars_encode_utf8(text);
    let t = encode_utf8(text);
    assert(t.len() == 26);
    assert forall|i: int| 0 <= i < 26 implies #[trigger] crockford_value(t[i]) == Some(digit_at(n, i)) by {
        lemma_alphabet_decodes(digit_at(n, i) as int);
        assert(t[i] == text[i] as u8);
    }
    assert(crockford_value(t[0]) == Some(digit_at(n, 0)));
    assert(digit_at(n, 0) <= 7) by {
        assert((((n >> 125u128) & 0x1f) as u8) <= 7u8) by (bit_vector);
    }
    assert(!exists|p: int| bad_digit_at(t, p)) by {
        assert forall|p: int| !bad_digit_at(t, p) by {
            if 1 <= p < 26 {
                assert(crockford_value(t[p]) == Some(digit_at(n, p)));
            }
        }
    }
    let ds = t.map_values(|c: u8| digit_of(c));
    assert forall|i: int| 0 <= i < 26 implies #[trigger] ds[i] == digit_at(n, i) by {
        assert(crockford_value(t[i]) == Some(digit_at(n, i)));
    }
    lemma_digits_value(n, ds, 26);
    assert(ds.take(26) =~= ds);
    lemma_shift_zero(n, 0);
    lemma_be_round_trip(b);
}

/// A ULID carries the low 48 bits of its millisecond as its timestamp.
pub proof fn lemma_timestamp_of_layout(ms: u64, rand: u128)
    ensures
        timestamp_of(ulid_layout(ms, rand)) == ms % 0x1_0000_0000_0000,
{
    let b = ulid_layout(ms, rand);
    assert(b[0] == ((ms >> 40u64) & 0xff) as u8);
    assert(b[1] == ((ms >> 32u64) & 0xff) as u8);
    assert(b[2] == ((ms >> 24u64) & 0xff) as u8);
    assert(b[3] == ((ms >> 16u64) & 0xff) as u8);
    assert(b[4] == ((ms >> 8u64) & 0xff) as u8);
    assert(b[5] == ((ms >> 0u64) & 0xff) as u8);
    assert(((((ms >> 40u64) & 0xff) as u8 as u64) << 40u64) | ((((ms >> 32u64) & 0xff) as u8 as u64)
        << 32u64) | ((((ms >> 24u64) & 0xff) as u8 as u64) << 24u64) | ((((ms >> 16u64) & 0xff) as u8
        as u64) << 16u64) | ((((ms >> 8u64) & 0xff) as u8 as u64) << 8u64) | (((ms >> 0u64) & 0xff) as u8
        as u64) == ms % 0x1_0000_0000_0000) by (bit_vector);
}

/// ULIDs of different milliseconds sort byte-wise in time order.
pub proof fn lemma_time_ordered(ms1: u64, ms2: u64, rand1: u128, rand2: u128)
    requires
        ms1 < ms2 < 0x1_0000_0000_0000,
    ensures
        bytes_lt(ulid_layout(ms1, rand1), ulid_layout(ms2, rand2)),
{
    lemma_u48_be_order(ms1, ms2);
    assert(ulid_layout(ms1, rand1).subrange(0, 6) =~= u48_be_bytes(ms1));
    assert(ulid_layout(ms2, rand2).subrange(0, 6) =~= u48_be_bytes(ms2));
    lemma_bytes_lt_prefix(ulid_layout(ms1, rand1), ulid_layout(ms2, rand2), 6);
}

proof fn lemma_low80_order(x: u128, y: u128)
    requires
        x < y <= RAND_MASK_80,
    ensures
        bytes_lt(u128_be_bytes(x).subrange(6, 16), u128_be_bytes(y).subrange(6, 16)),
{
    lemma_u128_be_order(x, y);
    let bx = u128_be_bytes(x);
    let by = u128_be_bytes(y);
    let k = choose|k: int| 0 <= k < bx.len() && k < by.len() && bx[k] < by[k] && #[trigger] agree_before(bx, by, k);
    assert forall|j: int| 0 <= j < 6 implies bx[j] == 0 && by[j] == 0 by {
        let s = (120 - 8 * j) as u128;
        assert(((x >> s) & 0xff) as u8 == 0 && ((y >> s) & 0xff) as u8 == 0) by (bit_vector)
            requires
                x <= 0xffff_ffff_ffff_ffff_ffffu128,
                y <= 0xffff_ffff_ffff_ffff_ffffu128,
                80u128 <= s <= 120u128,
        ;
    }
    assert(k >= 6);
    let sx = bx.subrange(6, 16);
    let sy = by.subrange(6, 16);
    assert(sx[k - 6] < sy[k - 6]);
    assert forall|j: int| 0 <= j < k - 6 implies sx[j] == sy[j] by {
        assert(bx[j + 6] == by[j + 6]);
    }
    assert(agree_before(sx, sy, k - 6));
}

/// Monotonic factory: in the millisecond of the factory's previous ULID,
/// the next ULID has the previous random part plus one, and sorts strictly
/// after the previous ULID.
pub proof fn lemma_same_ms_increments(last: (u64, u128), s: RngState, unix_ms: u64)
    requires
        last.1 < RAND_MASK_80,
        last.0 < 0x1_0000_0000_0000,
        unix_ms % 0x1_0000_0000_0000 == last.0,
    ensures
        ulid_step(Some(last), s, unix_ms).0 == Some(ulid_layout(last.0, (last.1 + 1) as u128)),
        ulid_step(Some(last), s, unix_ms).1 == Some((last.0, (last.1 + 1) as u128)),
        ulid_step(Some(last), s, unix_ms).2 == s,
        bytes_lt(ulid_layout(last.0, last.1), ulid_layout(last.0, (last.1 + 1) as u128)),
{
    let a = ulid_layout(last.0, last.1);
    let b = ulid_layout(last.0, (last.1 + 1) as u128);
    lemma_low80_order(last.1, (last.1 + 1) as u128);
    assert(a.subrange(0, 6) =~= b.subrange(0, 6));
    assert(a.subrange(6, 16) =~= u128_be_bytes(last.1).subrange(6, 16));
    assert(b.subrange(6, 16) =~= u128_be_bytes((last.1 + 1) as u128).subrange(6, 16));
    lemma_bytes_lt_after_common(a, b, 6);
}

proof fn lemma_first_bad_digit_exists(t: Seq<u8>, p: int) -> (q: int)
    requires
        bad_digit_at(t, p),
    ensures
        is_first_bad_digit(t, q),
    decreases p,
{
    if forall|r: int| 1 <= r < p ==> !bad_digit_at(t, r) {
        p
    } else {
        let r = choose|r: int| 1 <= r < p && bad_digit_at(t, r);
        lemma_first_bad_digit_exists(t, r)
    }
}

/// Parsing ignores case: lowercasing the ASCII letters of the input
/// changes neither the ULID parsed nor the error reported.
pub proof fn lemma_parse_ignores_case(t: Seq<u8>)
    ensures
        ulid_parse(t.map_values(|c: u8| ascii_lower(c))) == ulid_parse(t),
{
    let l = t.map_values(|c: u8| ascii_lower(c));
    assert forall|p: int| 0 <= p < t.len() implies #[trigger] crockford_value(l[p]) == crockford_value(t[p]) by {}
    assert forall|p: int| #[trigger] bad_digit_at(l, p) == bad_digit_at(t, p) by {
        if 0 <= p < t.len() {
            assert(crockford_value(l[p]) == crockford_value(t[p]));
        }
    }
    assert forall|p: int| #[trigger] is_first_bad_digit(l, p) == is_first_bad_digit(t, p) by {
        assert(forall|q: int| bad_digit_at(l, q) == bad_digit_at(t, q));
    }
    if t.len() == 26 {
        assert(crockford_value(l[0]) == crockford_value(t[0]));
        assert(forall|q: int| bad_digit_at(l, q) == bad_digit_at(t, q));
        assert((exists|p: int| bad_digit_at(l, p)) == (exists|p: int| bad_digit_at(t, p)));
        if exists|p: int| bad_digit_at(t, p) {
            let p0 = choose|p: int| bad_digit_at(t, p);
            let p = lemma_first_bad_digit_exists(t, p0);
            assert(is_first_bad_digit(l, p));
            lemma_first_bad_digit_unique(t, p);
            lemma_first_bad_digit_unique(l, p);
        }
        let dl = l.map_values(|c: u8| digit_of(c));
        let dt = t.map_values(|c: u8| digit_of(c));
        assert forall|i: int| 0 <= i < 26 implies dl[i] == dt[i] by {
            assert(crockford_value(l[i]) == crockford_value(t[i]));
        }
        assert(dl =~= dt);
    }
}

/// `a` sorts strictly before `b` character-wise: at the first position
/// where they differ, `a` has the smaller character.
pub open spec fn chars_lt(a: Seq<char>, b: Seq<char>) -> bool {
    exists|k: int|
        0 <= k < a.len() && k < b.len() && (a[k] as u32) < (b[k] as u32) && #[trigger] chars_agree_before(
            a,
            b,
            k,
        )
}

/// `a` and `b` agree on their first `k` characters.
pub open spec fn chars_agree_before(a: Seq<char>, b: Seq<char>, k: int) -> bool {
    forall|j: int| 0 <= j < k ==> a[j] == b[j]
}

/// The leading `j + 1` base-32 digits of `x`, as a number.
pub open spec fn lead5(x: u128, j: int) -> u128 {
    x >> ((125 - 5 * j) as u128)
}

proof fn lemma_alphabet_ascending(d1: int, d2: int)
    requires
        0 <= d1 < d2 < 32,
    ensures
        ALPHABET@[d1] < ALPHABET@[d2],
    decreases d2 - d1,
{
    assert(forall|d: int| 0 <= d < 31 ==> #[trigger] ALPHABET@[d] < ALPHABET@[d + 1]);
    if d2 > d1 + 1 {
        lemma_alphabet_ascending(d1, d2 - 1);
        assert(ALPHABET@[d2 - 1] < ALPHABET@[d2]);
    } else {
        assert(ALPHABET@[d1] < ALPHABET@[d1 + 1]);
    }
}

proof fn lemma_digit_order_from(x: u128, y: u128, k: int) -> (m: int)
    requires
        x < y,
        0 <= k < 26,
        forall|j: int| 0 <= j < k ==> #[trigger] lead5(x, j) == lead5(y, j),
    ensures
        k <= m < 26,
        digit_at(x, m) < digit_at(y, m),
        forall|j: int| 0 <= j < m ==> #[trigger] digit_at(x, j) == digit_at(y, j),
    decreases 26 - k,
{
    let s = (125 - 5 * k) as u128;
    assert(x >> s <= y >> s) by (bit_vector)
        requires
            x <= y,
            s < 128u128,
    ;
    assert forall|j: int| 0 <= j < k implies #[trigger] digit_at(x, j) == digit_at(y, j) by {
        assert(lead5(x, j) == lead5(y, j));
    }
    if x >> s < y >> s {
        if k == 0 {
            assert((((x >> 125u128) & 0x1f) as u8) < (((y >> 125u128) & 0x1f) as u8)) by (bit_vector)
                requires
                    x >> 125u128 < y >> 125u128,
            ;
        } else {
            assert(lead5(x, k - 1) == lead5(y, k - 1));
            assert((((x >> s) & 0x1f) as u8) < (((y >> s) & 0x1f) as u8)) by (bit_vector)
                requires
                    s <= 120u128,
                    x >> (s + 5) as u128 == y >> (s + 5) as u128,
                    x >> s < y >> s,
            ;
        }
        k
    } else {
        if k == 25 {
            lemma_shift_zero(x, 0);
            lemma_shift_zero(y, 0);
            k
        } else {
            assert(lead5(x, k) == lead5(y, k));
            lemma_digit_order_from(x, y, k + 1)
        }
    }
}

proof fn lemma_bytes_lt_asymmetric(a: Seq<u8>, b: Seq<u8>)
    requires
        bytes_lt(a, b),
    ensures
        !bytes_lt(b, a),
        a != b,
{
    let k1 = choose|k: int| 0 <= k < a.len() && k < b.len() && a[k] < b[k] && #[trigger] agree_before(a, b, k);
    if bytes_lt(b, a) {
        let k2 = choose|k: int| 0 <= k < b.len() && k < a.len() && b[k] < a[k] && #[trigger] agree_before(b, a, k);
        if k1 < k2 {
            assert(b[k1] == a[k1]);
        } else if k2 < k1 {
            assert(a[k2] == b[k2]);
        }
    }
}

proof fn lemma_text_order_forward(a: Seq<u8>, b: Seq<u8>)
    requires
        a.len() == 16,
        b.len() == 16,
        bytes_lt(a, b),
    ensures
        chars_lt(ulid_text(a), ulid_text(b)),
{
    let x = be_u128(a);
    let y = be_u128(b);
    lemma_be_round_trip(a);
    lemma_be_round_trip(b);
    lemma_bytes_lt_asymmetric(a, b);
    if y < x {
        lemma_u128_be_order(y, x);
    }
    assert(x != y);
    assert(x < y);
    let m = lemma_digit_order_from(x, y, 0);
    let ta = ulid_text(a);
    let tb = ulid_text(b);
    assert(digit_at(y, m) < 32) by {
        let s = (125 - 5 * m) as u128;
        assert((((y >> s) & 0x1f) as u8) < 32u8) by (bit_vector);
    }
    lemma_alphabet_ascending(digit_at(x, m) as int, digit_at(y, m) as int);
    assert((ta[m] as u32) < (tb[m] as u32));
    assert forall|j: int| 0 <= j < m implies ta[j] == tb[j] by {
        assert(digit_at(x, j) == digit_at(y, j));
    }
    assert(chars_agree_before(ta, tb, m));
}


proof fn lemma_chars_lt_asymmetric(a: Seq<char>, b: Seq<char>)
    requires
        chars_lt(a, b),
    ensures
        !chars_lt(b, a),
        a != b,
{
    let k1 = choose|k: int|
        0 <= k < a.len() && k < b.len() && (a[k] as u32) < (b[k] as u32) && #[trigger] chars_agree_before(a, b, k);
    if chars_lt(b, a) {
        let k2 = choose|k: int|
            0 <= k < b.len() && k < a.len() && (b[k] as u32) < (a[k] as u32) && #[trigger] chars_agree_before(b, a, k);
        if k1 < k2 {
            assert(b[k1] == a[k1]);
        } else if k2 < k1 {
            assert(a[k2] == b[k2]);
        }
    }
}

/// Text order is byte order: the text of one ULID sorts before the text of
/// another exactly when its bytes sort before the other's bytes.
pub proof fn lemma_text_order_is_byte_order(a: Seq<u8>, b: Seq<u8>)
    requires
        a.len() == 16,
        b.len() == 16,
    ensures
        bytes_lt(a, b) <==> chars_lt(ulid_text(a), ulid_text(b)),
{
    if bytes_lt(a, b) {
        lemma_text_order_forward(a, b);
    } else if chars_lt(ulid_text(a), ulid_text(b)) {
        lemma_chars_lt_asymmetric(ulid_text(a), ulid_text(b));
        let x = be_u128(a);
        let y = be_u128(b);
        lemma_be_round_trip(a);
        lemma_be_round_trip(b);
        assert(x != y);
        if x < y {
            lemma_u128_be_order(x, y);
        } else {
            lemma_u128_be_order(y, x);
            lemma_text_order_forward(b, a);
        }
    }
}

proof fn lemma_digit_push(v: u128, c: u8, m: u128, t: u128)
    by (bit_vector)
    ensures
        c < 32 ==> (((((v << 5u128) | (c as u128)) >> 0u128) & 0x1f) as u8) == c,
        c <= 7 ==> ((0u128 << 5u128) | (c as u128)) >> 3u128 == 0,
        c < 32 && v >> m == 0 && m <= 123 && t <= 120 ==> ((v << 5u128) | (c as u128)) >> ((t + 5) as u128)
            == v >> t,
        c < 32 && v >> m == 0 && m <= 118 ==> ((v << 5u128) | (c as u128)) >> ((m + 5) as u128) == 0,
{
}

proof fn lemma_base32_digits(ds: Seq<u8>, k: int)
    requires
        ds.len() == 26,
        forall|i: int| 0 <= i < 26 ==> #[trigger] ds[i] < 32,
        ds[0] <= 7,
        1 <= k <= 26,
    ensures
        forall|i: int|
            0 <= i < k ==> #[trigger] ((base32_value(ds.take(k)) >> ((5 * (k - 1 - i)) as u128)) & 0x1f) as u8
                == ds[i],
        k <= 25 ==> base32_value(ds.take(k)) >> ((5 * k - 2) as u128) == 0,
    decreases k,
{
    let w = base32_value(ds.take(k));
    let c = ds[k - 1];
    assert(ds.take(k).drop_last() =~= ds.take(k - 1));
    assert(ds.take(k).last() == c);
    let v = base32_value(ds.take(k - 1));
    assert(w == (v << 5u128) | (c as u128));
    if k == 1 {
        assert(ds.take(0) =~= Seq::<u8>::empty());
        assert(v == 0);
        lemma_digit_push(v, c, 3, 0);
    } else {
        lemma_base32_digits(ds, k - 1);
        let m = (5 * (k - 1) - 2) as u128;
        assert(v >> m == 0);
        assert forall|i: int| 0 <= i < k implies #[trigger] ((w >> ((5 * (k - 1 - i)) as u128)) & 0x1f) as u8
            == ds[i] by {
            if i == k - 1 {
                lemma_digit_push(v, c, m, 0);
            } else {
                let t = (5 * (k - 2 - i)) as u128;
                lemma_digit_push(v, c, m, t);
                assert(((v >> t) & 0x1f) as u8 == ds[i]);
            }
        }
        if k <= 25 {
            lemma_digit_push(v, c, m, 0);
        }
    }
}

/// The big-endian value of the bytes of `n` is `n`.
proof fn lemma_be_value_of_bytes(n: u128)
    ensures
        be_u128(u128_be_bytes(n)) == n,
{
    let b = u128_be_bytes(n);
    lemma_be_round_trip(b);
    let m = be_u128(b);
    if m < n {
        lemma_u128_be_order(m, n);
        lemma_bytes_lt_asymmetric(b, b);
    } else if n < m {
        lemma_u128_be_order(n, m);
        lemma_bytes_lt_asymmetric(b, b);
    }
}

/// The canonical form of a digit: its uppercase alphabet character.
pub open spec fn canonical_digit(c: u8) -> u8 {
    ALPHABET@[digit_of(c) as int]
}

/// Parse, then print: the text form of a parsed ULID is the input with
/// each digit in its canonical form (uppercase; `I` and `L` as `1`, `O` as
/// `0`). An input already in canonical form comes back unchanged.
pub proof fn lemma_parse_prints_canonical(t: Seq<u8>)
    requires
        ulid_parse(t) is Ok,
    ensures
        encode_utf8(ulid_text(ulid_parse(t)->Ok_0)) == t.map_values(|c: u8| canonical_digit(c)),
        t.map_values(|c: u8| canonical_digit(c)) == t ==> encode_utf8(ulid_text(ulid_parse(t)->Ok_0)) == t,
{
    assert(t.len() == 26);
    assert forall|i: int| 0 <= i < 26 implies #[trigger] crockford_value(t[i]) is Some by {
        if i > 0 {
            assert(!bad_digit_at(t, i));
        }
    }
    let ds = t.map_values(|c: u8| digit_of(c));
    assert forall|i: int| 0 <= i < 26 implies #[trigger] ds[i] < 32 by {
        assert(crockford_value(t[i]) is Some);
    }
    let n = base32_value(ds);
    let b = u128_be_bytes(n);
    assert(ulid_parse(t)->Ok_0 == b);
    lemma_be_value_of_bytes(n);
    lemma_base32_digits(ds, 26);
    assert(ds.take(26) =~= ds);
    let text = ulid_text(b);
    assert forall|i: int| 0 <= i < 26 implies #[trigger] digit_at(n, i) == ds[i] by {
        assert(((n >> ((5 * (26 - 1 - i)) as u128)) & 0x1f) as u8 == ds[i]);
    }
    assert forall|i: int| 0 <= i < 26 implies '\0' <= #[trigger] text[i] <= '\u{7f}' && text[i] as u8
        == canonical_digit(t[i]) by {
        assert(digit_at(n, i) == ds[i]);
        lemma_alphabet_decodes(ds[i] as int);
    }
    assert(is_ascii_chars(text));
    is_ascii_chars_encode_utf8(text);
    let out = encode_utf8(text);
    assert forall|i: int| 0 <= i < 26 implies out[i] == t.map_values(|c: u8| canonical_digit(c))[i] by {
        assert(out[i] == text[i] as u8);
    }
    assert(out =~= t.map_values(|c: u8| canonical_digit(c)));
}


proof fn lemma_ulid_bits(ms: u64, r: u128, t: u64, s: u128, h: u64, l: u64)
    by (bit_vector)
    ensures
        r <= 0xffff_ffff_ffff_ffff_ffffu128 && t <= 40 ==> ((((((ms % 0x1_0000_0000_0000u64) as u128)
            << 80u128) | r) >> ((t + 80) as u128)) & 0xff) as u8 == ((ms >> t) & 0xff) as u8,
        r <= 0xffff_ffff_ffff_ffff_ffffu128 && s <= 72 ==> ((((((ms % 0x1_0000_0000_0000u64) as u128)
            << 80u128) | r) >> s) & 0xff) as u8 == ((r >> s) & 0xff) as u8,
        r <= 0xffff_ffff_ffff_ffff_ffffu128 ==> (((ms % 0x1_0000_0000_0000u64) as u128) << 80u128) | r
            == (ms % 0x1_0000_0000_0000u64) * 0x1_0000_0000_0000_0000_0000 + r,
        ((h as u128) << 16u128) | ((l >> 48u64) as u128) <= 0xffff_ffff_ffff_ffff_ffffu128,
        t <= 56 ==> (((((h as u128) << 16u128) | ((l >> 48u64) as u128)) >> ((t + 16) as u128)) & 0xff) as u8
            == ((h >> t) & 0xff) as u8,
        (((((h as u128) << 16u128) | ((l >> 48u64) as u128)) >> 8u128) & 0xff) as u8 == ((l >> 56u64) & 0xff) as u8,
        (((((h as u128) << 16u128) | ((l >> 48u64) as u128)) >> 0u128) & 0xff) as u8 == ((l >> 48u64) & 0xff) as u8,
{
}

/// The 128-bit value of the ULID with timestamp `ms` and random part `r`.
proof fn lemma_layout_value(ms: u64, r: u128)
    requires
        r <= RAND_MASK_80,
    ensures
        be_u128(ulid_layout(ms, r)) == (ms % 0x1_0000_0000_0000) * 0x1_0000_0000_0000_0000_0000 + r,
{
    let x = (((ms % 0x1_0000_0000_0000u64) as u128) << 80u128) | r;
    let b = ulid_layout(ms, r);
    assert forall|i: int| 0 <= i < 16 implies #[trigger] b[i] == u128_be_bytes(x)[i] by {
        if i < 6 {
            lemma_ulid_bits(ms, r, (40 - 8 * i) as u64, 0, 0, 0);
        } else {
            lemma_ulid_bits(ms, r, 0, (120 - 8 * i) as u128, 0, 0);
        }
    }
    assert(b =~= u128_be_bytes(x));
    lemma_be_value_of_bytes(x);
    lemma_ulid_bits(ms, r, 0, 0, 0, 0);
}

/// Monotonic factory over two calls: when ULID `a` was made from factory
/// state `st` and the next ULID is made in the same millisecond, the next
/// one has the same timestamp, is `a` plus one as a 128-bit number, and
/// sorts after `a`, unless `a`'s random part is the largest (then nothing
/// more can be made in that millisecond).
pub proof fn lemma_next_in_same_ms(st: Option<(u64, u128)>, s: RngState, unix_ms1: u64, unix_ms2: u64)
    requires
        st is Some ==> st->Some_0.1 <= RAND_MASK_80,
        ulid_step(st, s, unix_ms1).0 is Some,
        unix_ms1 % 0x1_0000_0000_0000 == unix_ms2 % 0x1_0000_0000_0000,
        be_u128(ulid_step(st, s, unix_ms1).0->Some_0) % 0x1_0000_0000_0000_0000_0000 != RAND_MASK_80,
    ensures
        ({
            let first = ulid_step(st, s, unix_ms1);
            let a = first.0->Some_0;
            let next = ulid_step(first.1, first.2, unix_ms2).0;
            &&& next is Some
            &&& timestamp_of(next->Some_0) == timestamp_of(a)
            &&& be_u128(next->Some_0) == be_u128(a) + 1
            &&& bytes_lt(a, next->Some_0)
        }),
{
    let ms = (unix_ms1 % 0x1_0000_0000_0000) as u64;
    let first = ulid_step(st, s, unix_ms1);
    let r1 = first.1->Some_0.1;
    assert(first.1->Some_0.0 == ms);
    if !(st is Some && st->Some_0.0 == ms) {
        lemma_ulid_bits(0, 0, 0, 0, xoshiro_output(s), xoshiro_output(xoshiro_step(s)));
    }
    assert(r1 <= RAND_MASK_80);
    let a = first.0->Some_0;
    assert(a == ulid_layout(ms, r1));
    lemma_layout_value(ms, r1);
    assert(ms % 0x1_0000_0000_0000 == ms);
    assert((ms * 0x1_0000_0000_0000_0000_0000 + r1) % 0x1_0000_0000_0000_0000_0000 == r1) by (nonlinear_arith)
        requires
            0 <= r1 < 0x1_0000_0000_0000_0000_0000,
            0 <= ms,
    ;
    assert(r1 != RAND_MASK_80);
    lemma_layout_value(ms, (r1 + 1) as u128);
    lemma_timestamp_of_layout(ms, r1);
    lemma_timestamp_of_layout(ms, (r1 + 1) as u128);
    lemma_same_ms_increments(first.1->Some_0, first.2, unix_ms2);
}


/// A ULID made in a millisecond other than that of the factory's last ULID
/// carries the generator's draws as its random part: bytes 6 to 13 are the
/// first word drawn, big-endian, and bytes 14 and 15 the two high bytes of
/// the second word; the generator moves on by two draws.
pub proof fn lemma_fresh_ms_carries_draws(st: Option<(u64, u128)>, s: RngState, unix_ms: u64)
    requires
        !(st is Some && st->Some_0.0 == (unix_ms % 0x1_0000_0000_0000) as u64),
    ensures
        ({
            let (made, _, after) = ulid_step(st, s, unix_ms);
            &&& made is Some
            &&& made->Some_0.subrange(6, 14) == u64_be_bytes(xoshiro_output(s))
            &&& made->Some_0.subrange(14, 16) == u64_be_bytes(xoshiro_output(xoshiro_step(s))).subrange(0, 2)
            &&& after == xoshiro_advance(s, 2)
        }),
{
    let ms = (unix_ms % 0x1_0000_0000_0000) as u64;
    let h = xoshiro_output(s);
    let l = xoshiro_output(xoshiro_step(s));
    let r = fresh_random(s);
    let b = ulid_step(st, s, unix_ms).0->Some_0;
    assert(b == ulid_layout(ms, r));
    assert forall|j: int| 0 <= j < 8 implies #[trigger] b.subrange(6, 14)[j] == u64_be_bytes(h)[j] by {
        lemma_ulid_bits(0, 0, (56 - 8 * j) as u64, 0, h, l);
        assert(b[6 + j] == u128_be_bytes(r)[6 + j]);
    }
    lemma_ulid_bits(0, 0, 0, 0, h, l);
    assert(b[14] == u128_be_bytes(r)[14]);
    assert(b[15] == u128_be_bytes(r)[15]);
    assert(b.subrange(6, 14) =~= u64_be_bytes(h));
    assert(b.subrange(14, 16) =~= u64_be_bytes(l).subrange(0, 2));
}

/// A ULID made at wall-clock reading `unix_ms` carries that reading, reduced
/// to 48 bits, as its timestamp.
pub proof fn lemma_step_timestamp(st: Option<(u64, u128)>, s: RngState, unix_ms: u64)
    requires
        ulid_step(st, s, unix_ms).0 is Some,
    ensures
        timestamp_of(ulid_step(st, s, unix_ms).0->Some_0) == unix_ms % 0x1_0000_0000_0000,
{
    let ms = (unix_ms % 0x1_0000_0000_0000) as u64;
    let r = next_random_spec(st, ms, s).0;
    lemma_timestamp_of_layout(ms, r);
}

/// Every ULID that [`Ulid::new`] can return is stamped with the millisecond
/// clock: its timestamp is a reading of that clock reduced to 48 bits.
pub proof fn lemma_new_is_stamped_with_clock(
    st: Option<(u64, u128)>,
    s: RngState,
    made: Seq<u8>,
    st2: Option<(u64, u128)>,
    s2: RngState,
)
    requires
        exists|unix_ms: u64|
            clock::is_ms_reading(unix_ms) && (Some(made), st2, s2) == #[trigger] ulid_step(st, s, unix_ms),
    ensures
        exists|unix_ms: u64| clock::is_ms_reading(unix_ms) && timestamp_of(made) == unix_ms % 0x1_0000_0000_0000,
{
    let unix_ms = choose|unix_ms: u64|
        clock::is_ms_reading(unix_ms) && (Some(made), st2, s2) == #[trigger] ulid_step(st, s, unix_ms);
    lemma_step_timestamp(st, s, unix_ms);
}

} // verus!
