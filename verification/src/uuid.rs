//! UUIDs: v4 (random) and v7 (time-ordered) per RFC 9562, with the
//! canonical 36-character hyphenated text form.

use crate::clock;
use crate::order::{bytes_lt, lemma_bytes_lt_prefix, lemma_u48_be_order, u48_be_bytes};
use crate::rng::{u64_be_bytes, xoshiro_advance, xoshiro_bytes16, RngState, Xoshiro256SS};
use crate::ulid::{lemma_timestamp_of_layout, timestamp_of, ulid_layout};
use crate::strings::push_char;
use vstd::prelude::*;
use vstd::string::StringSliceAdditionalSpecFns;
use vstd::utf8::{encode_utf8, is_ascii_chars, is_ascii_chars_encode_utf8};

verus! {

/// A 128-bit UUID, stored as 16 big-endian bytes per RFC 9562.
#[derive(Debug, Clone, Copy, PartialEq, Eq, Hash, PartialOrd, Ord)]
pub struct Uuid([u8; 16]);

impl View for Uuid {
    type V = Seq<u8>;

    closed spec fn view(&self) -> Seq<u8> {
        self.0@
    }
}

/// Error returned by [`Uuid::parse_str`].
#[derive(Debug, Clone, Copy, PartialEq, Eq)]
pub enum ParseError {
    /// Input was not exactly 36 bytes. The value is the actual length.
    InvalidLength(usize),
    /// A hyphen was missing at the given byte position (8, 13, 18 or 23).
    InvalidGroup(usize),
    /// A non-hex digit was found at the given byte position.
    InvalidChar(usize),
}

/// `b` with the version nibble set to the high nibble of `version_bits`
/// and the variant bits set to `10`.
pub open spec fn stamp(b: Seq<u8>, version_bits: u8) -> Seq<u8> {
    b.update(6, (b[6] & 0x0f) | version_bits).update(8, (b[8] & 0x3f) | 0x80)
}

/// The v7 layout: the low 48 bits of `unix_ms` big-endian, then bytes
/// 6..16 of `random`, with version 7 and the RFC variant.
pub open spec fn v7_layout(unix_ms: u64, random: Seq<u8>) -> Seq<u8> {
    stamp(u64_be_bytes(unix_ms).subrange(2, 8) + random.subrange(6, 16), 0x70)
}

/// The value of hex digit `c` in either case (`0x30..=0x39` are `0`-`9`,
/// `0x61..=0x66` are `a`-`f`, `0x41..=0x46` are `A`-`F`).
pub open spec fn hex_digit(c: u8) -> Option<u8> {
    if 0x30u8 <= c <= 0x39u8 {
        Some((c - 0x30u8) as u8)
    } else if 0x61u8 <= c <= 0x66u8 {
        Some((c - 0x61u8 + 10) as u8)
    } else if 0x41u8 <= c <= 0x46u8 {
        Some((c - 0x41u8 + 10) as u8)
    } else {
        None
    }
}

/// The value of a hex digit, zero for anything else.
pub open spec fn nibble_of(c: u8) -> u8 {
    match hex_digit(c) {
        Some(v) => v,
        None => 0,
    }
}

/// The lowercase hex digit for `d < 16`.
pub open spec fn hex_char(d: u8) -> char {
    if d < 10 {
        (0x30u8 + d) as char
    } else {
        (0x61u8 + d - 10) as char
    }
}

/// The positions of the four hyphens of the text form.
pub open spec fn is_hyphen_pos(p: int) -> bool {
    p == 8 || p == 13 || p == 18 || p == 23
}

/// The number of hyphens before position `p` of the text form.
pub open spec fn hyphens_before(p: int) -> int {
    (if p > 8 { 1int } else { 0 }) + (if p > 13 { 1int } else { 0 }) + (if p > 18 { 1int } else { 0 }) + (
    if p > 23 { 1int } else { 0 })
}

/// The position in the text form of the high hex digit of byte `i`.
pub open spec fn hex_start(i: int) -> int {
    2 * i + (if i >= 4 { 1int } else { 0 }) + (if i >= 6 { 1int } else { 0 }) + (if i >= 8 { 1int } else { 0 }) + (
    if i >= 10 { 1int } else { 0 })
}

/// Character `p` of the text form of bytes `b`.
pub open spec fn text_char(b: Seq<u8>, p: int) -> char {
    if is_hyphen_pos(p) {
        '-'
    } else {
        let q = p - hyphens_before(p);
        hex_char(if q % 2 == 0 { b[q / 2] >> 4 } else { b[q / 2] & 0x0f })
    }
}

/// The canonical text form of bytes `b`: 32 lowercase hex digits in groups
/// of 8, 4, 4, 4 and 12, separated by hyphens.
pub open spec fn uuid_text(b: Seq<u8>) -> Seq<char> {
    Seq::new(36, |p: int| text_char(b, p))
}

/// Position `p` of text `t` holds something other than a hex digit where a
/// hex digit belongs.
pub open spec fn bad_hex_at(t: Seq<u8>, p: int) -> bool {
    0 <= p < t.len() && !is_hyphen_pos(p) && hex_digit(t[p]) is None
}

/// `p` is the first such position of `t`.
pub open spec fn is_first_bad_hex(t: Seq<u8>, p: int) -> bool {
    bad_hex_at(t, p) && forall|q: int| 0 <= q < p ==> !bad_hex_at(t, q)
}

/// The outcome of parsing the bytes `t`: the length is checked first, then
/// the hyphens in order, then the hex digits from left to right.
pub open spec fn uuid_parse(t: Seq<u8>) -> Result<Seq<u8>, ParseError> {
    if t.len() != 36 {
        Err(ParseError::InvalidLength(t.len() as usize))
    } else if t[8] != 0x2du8 {
        Err(ParseError::InvalidGroup(8))
    } else if t[13] != 0x2du8 {
        Err(ParseError::InvalidGroup(13))
    } else if t[18] != 0x2du8 {
        Err(ParseError::InvalidGroup(18))
    } else if t[23] != 0x2du8 {
        Err(ParseError::InvalidGroup(23))
    } else if exists|p: int| bad_hex_at(t, p) {
        Err(ParseError::InvalidChar((choose|p: int| is_first_bad_hex(t, p)) as usize))
    } else {
        Ok(
            Seq::new(
                16,
                |i: int| (nibble_of(t[hex_start(i)]) * 16 + nibble_of(t[hex_start(i) + 1])) as u8,
            ),
        )
    }
}

/// The parse outcome as a `Uuid` result, by views.
pub open spec fn parse_matches(r: Result<Uuid, ParseError>, spec: Result<Seq<u8>, ParseError>) -> bool {
    match r {
        Ok(u) => spec == Ok::<Seq<u8>, ParseError>(u@),
        Err(e) => spec == Err::<Seq<u8>, ParseError>(e),
    }
}

/// The value of a hex digit in either case.
fn hex_value(c: u8) -> (r: Option<u8>)
    ensures
        r == hex_digit(c),
{
    if 0x30u8 <= c && c <= 0x39u8 {
        Some(c - 0x30u8)
    } else if 0x61u8 <= c && c <= 0x66u8 {
        Some(c - 0x61u8 + 10)
    } else if 0x41u8 <= c && c <= 0x46u8 {
        Some(c - 0x41u8 + 10)
    } else {
        None
    }
}

/// The lowercase hex digit for `d < 16`.
fn hex_digit_char(d: u8) -> (r: char)
    requires
        d < 16,
    ensures
        r == hex_char(d),
{
    if d < 10 {
        (0x30u8 + d) as char
    } else {
        (0x61u8 + d - 10) as char
    }
}

/// The position in the text form of the high hex digit of byte `i`.
fn text_pos(i: usize) -> (p: usize)
    requires
        i < 16,
    ensures
        p == hex_start(i as int),
{
    let mut p = 2 * i;
    if i >= 4 {
        p = p + 1;
    }
    if i >= 6 {
        p = p + 1;
    }
    if i >= 8 {
        p = p + 1;
    }
    if i >= 10 {
        p = p + 1;
    }
    p
}

proof fn lemma_stamp_bits(b6: u8, b8: u8)
    by (bit_vector)
    ensures
        ((b6 & 0x0f) | 0x40) >> 4 == 4u8,
        ((b6 & 0x0f) | 0x70) >> 4 == 7u8,
        ((b8 & 0x3f) | 0x80) & 0xc0 == 0x80u8,
{
}

proof fn lemma_nibbles(b: u8)
    by (bit_vector)
    ensures
        b >> 4u8 < 16u8,
        b & 0x0fu8 < 16u8,
        ((b >> 4u8) * 16 + (b & 0x0fu8)) as u8 == b,
{
}

proof fn lemma_first_bad_hex_unique(t: Seq<u8>, p: int)
    requires
        is_first_bad_hex(t, p),
    ensures
        (choose|q: int| is_first_bad_hex(t, q)) == p,
{
    let q = choose|q: int| is_first_bad_hex(t, q);
    assert(is_first_bad_hex(t, q));
    if q < p {
        assert(!bad_hex_at(t, q));
    } else if p < q {
        assert(!bad_hex_at(t, p));
    }
}

proof fn lemma_first_bad_hex_exists(t: Seq<u8>, p: int) -> (q: int)
    requires
        bad_hex_at(t, p),
    ensures
        is_first_bad_hex(t, q),
    decreases p,
{
    if forall|r: int| 0 <= r < p ==> !bad_hex_at(t, r) {
        p
    } else {
        let r = choose|r: int| 0 <= r < p && bad_hex_at(t, r);
        lemma_first_bad_hex_exists(t, r)
    }
}

impl Uuid {
    /// The Nil UUID: all 128 bits zero (RFC 9562 §5.9).
    pub fn nil() -> (r: Self)
        ensures
            r@ == Seq::new(16, |i: int| 0u8),
    {
        let r = Uuid([0u8; 16]);
        assert(r@ =~= Seq::new(16, |i: int| 0u8));
        r
    }

    /// The Max UUID: all 128 bits one (RFC 9562 §5.10).
    pub fn max() -> (r: Self)
        ensures
            r@ == Seq::new(16, |i: int| 0xffu8),
    {
        let r = Uuid([0xffu8; 16]);
        assert(r@ =~= Seq::new(16, |i: int| 0xffu8));
        r
    }

    /// Wrap a 16-byte big-endian representation as it is; no version or
    /// variant bits are touched.
    pub fn from_bytes(bytes: &[u8; 16]) -> (r: Self)
        ensures
            r@ == bytes@,
    {
        Uuid(*bytes)
    }

    /// The raw 16-byte big-endian representation.
    pub fn as_bytes(&self) -> (r: &[u8; 16])
        ensures
            r@ == self@,
    {
        &self.0
    }

    /// The version nibble: the high 4 bits of byte 6.
    pub fn version(&self) -> (r: u8)
        ensures
            r == self@[6] >> 4,
    {
        self.0[6] >> 4
    }

    /// A v4 (random) UUID per RFC 9562 §5.4: sixteen drawn bytes with the
    /// version nibble set to `0100` and the variant bits to `10`.
    pub fn v4(rng: &mut Xoshiro256SS) -> (r: Self)
        ensures
            r@ == stamp(xoshiro_bytes16(old(rng)@), 0x40),
            final(rng)@ == xoshiro_advance(old(rng)@, 2),
            r@[6] >> 4 == 4,
            r@[8] & 0xc0 == 0x80,
    {
        let mut bytes = rng.next_bytes_16();
        let b6 = bytes[6];
        let b8 = bytes[8];
        bytes[6] = (b6 & 0x0f) | 0x40;
        bytes[8] = (b8 & 0x3f) | 0x80;
        proof {
            lemma_stamp_bits(b6, b8);
        }
        let r = Uuid(bytes);
        assert(r@ =~= stamp(xoshiro_bytes16(old(rng)@), 0x40));
        r
    }

    /// The v7 UUID for wall-clock reading `unix_ms`: the low 48 bits of
    /// `unix_ms` big-endian, then drawn bytes, with the version nibble set
    /// to `0111` and the variant bits to `10`.
    pub fn v7_at(unix_ms: u64, rng: &mut Xoshiro256SS) -> (r: Self)
        ensures
            r@ == v7_layout(unix_ms, xoshiro_bytes16(old(rng)@)),
            final(rng)@ == xoshiro_advance(old(rng)@, 2),
            r@[6] >> 4 == 7,
            r@[8] & 0xc0 == 0x80,
    {
        let mut bytes = rng.next_bytes_16();
        let ghost random = bytes@;
        let mut k: usize = 0;
        while k < 6
            invariant
                k <= 6,
                forall|j: int| 0 <= j < k ==> bytes@[j] == u64_be_bytes(unix_ms)[j + 2],
                forall|j: int| 6 <= j < 16 ==> bytes@[j] == random[j],
            decreases 6 - k,
        {
            let shift: u64 = 40 - 8 * (k as u64);
            bytes[k] = ((unix_ms >> shift) & 0xff) as u8;
            k = k + 1;
        }
        let b6 = bytes[6];
        let b8 = bytes[8];
        bytes[6] = (b6 & 0x0f) | 0x70;
        bytes[8] = (b8 & 0x3f) | 0x80;
        proof {
            lemma_stamp_bits(b6, b8);
        }
        let r = Uuid(bytes);
        assert(r@ =~= v7_layout(unix_ms, random));
        r
    }

    /// A v7 (time-ordered) UUID per RFC 9562 §5.7 at the current wall-clock
    /// millisecond.
    pub fn v7(rng: &mut Xoshiro256SS) -> (r: Self)
        ensures
            exists|unix_ms: u64|
                clock::is_ms_reading(unix_ms) && r@ == #[trigger] v7_layout(
                    unix_ms,
                    xoshiro_bytes16(old(rng)@),
                ),
            final(rng)@ == xoshiro_advance(old(rng)@, 2),
            r@[6] >> 4 == 7,
            r@[8] & 0xc0 == 0x80,
    {
        let unix_ms = clock::unix_time_ms();
        Self::v7_at(unix_ms, rng)
    }

    /// Parse the canonical 36-character hyphenated form, in either case.
    pub fn parse_str(input: &str) -> (r: Result<Self, ParseError>)
        ensures
            parse_matches(r, uuid_parse(input.spec_bytes())),
    {
        let bytes = input.as_bytes();
        let ghost t = bytes@;
        if bytes.len() != 36 {
            return Err(ParseError::InvalidLength(bytes.len()));
        }
        if bytes[8] != 0x2du8 {
            return Err(ParseError::InvalidGroup(8));
        }
        if bytes[13] != 0x2du8 {
            return Err(ParseError::InvalidGroup(13));
        }
        if bytes[18] != 0x2du8 {
            return Err(ParseError::InvalidGroup(18));
        }
        if bytes[23] != 0x2du8 {
            return Err(ParseError::InvalidGroup(23));
        }
        let mut out = [0u8; 16];
        let mut i: usize = 0;
        while i < 16
            invariant
                t == bytes@,
                t == input.spec_bytes(),
                t.len() == 36,
                t[8] == 0x2du8 && t[13] == 0x2du8 && t[18] == 0x2du8 && t[23] == 0x2du8,
                i <= 16,
                forall|q: int| 0 <= q < hex_start(i as int) ==> !bad_hex_at(t, q),
                forall|j: int|
                    0 <= j < i ==> out@[j] == (nibble_of(t[hex_start(j)]) * 16 + nibble_of(
                        t[hex_start(j) + 1],
                    )) as u8,
            decreases 16 - i,
        {
            let p = text_pos(i);
            let hi = match hex_value(bytes[p]) {
                Some(v) => v,
                None => {
                    proof {
                        assert(is_first_bad_hex(t, p as int));
                        lemma_first_bad_hex_unique(t, p as int);
                    }
                    return Err(ParseError::InvalidChar(p));
                },
            };
            let lo = match hex_value(bytes[p + 1]) {
                Some(v) => v,
                None => {
                    proof {
                        assert(is_first_bad_hex(t, p + 1));
                        lemma_first_bad_hex_unique(t, p + 1);
                    }
                    return Err(ParseError::InvalidChar(p + 1));
                },
            };
            assert((hi << 4u8) | lo == hi * 16 + lo) by (bit_vector)
                requires
                    hi < 16u8,
                    lo < 16u8,
            ;
            out[i] = (hi << 4) | lo;
            i = i + 1;
        }
        let r = Uuid(out);
        proof {
            assert(forall|q: int| 0 <= q < 36 ==> !bad_hex_at(t, q));
            assert(!exists|p: int| bad_hex_at(t, p));
            assert(r@ =~= Seq::new(
                16,
                |i: int| (nibble_of(t[hex_start(i)]) * 16 + nibble_of(t[hex_start(i) + 1])) as u8,
            ));
        }
        Ok(r)
    }

    /// The canonical 36-character hyphenated form, lowercase.
    pub fn to_string(&self) -> (r: String)
        ensures
            r@ == uuid_text(self@),
    {
        let mut out = String::new();
        let mut i: usize = 0;
        while i < 16
            invariant
                i <= 16,
                self@.len() == 16,
                out@ == Seq::new(hex_start(i as int) as nat, |p: int| text_char(self@, p)),
            decreases 16 - i,
        {
            let ghost start = hex_start(i as int);
            let b = self.0[i];
            proof {
                lemma_nibbles(b);
            }
            assert(start - hyphens_before(start) == 2 * i);
            assert(start + 1 - hyphens_before(start + 1) == 2 * i + 1);
            assert(text_char(self@, start) == hex_char(b >> 4));
            assert(text_char(self@, start + 1) == hex_char(b & 0x0f));
            push_char(&mut out, hex_digit_char(b >> 4));
            push_char(&mut out, hex_digit_char(b & 0x0f));
            if i == 3 || i == 5 || i == 7 || i == 9 {
                push_char(&mut out, '-');
                assert(text_char(self@, start + 2) == '-');
            }
            i = i + 1;
            assert(out@ =~= Seq::new(hex_start(i as int) as nat, |p: int| text_char(self@, p)));
        }
        assert(out@ =~= uuid_text(self@));
        out
    }
}

impl Default for Uuid {
    /// The Nil UUID.
    fn default() -> (r: Self)
        ensures
            r@ == Seq::new(16, |i: int| 0u8),
    {
        Uuid::nil()
    }
}

impl core::str::FromStr for Uuid {
    type Err = ParseError;

    fn from_str(s: &str) -> (r: Result<Self, Self::Err>)
        ensures
            parse_matches(r, uuid_parse(s.spec_bytes())),
    {
        Self::parse_str(s)
    }
}

proof fn lemma_hex_char_round_trip(d: u8)
    requires
        d < 16,
    ensures
        '\0' <= hex_char(d) <= '\u{7f}',
        hex_digit(hex_char(d) as u8) == Some(d),
{
}

/// Round trip: parsing the text form of a UUID gives the UUID back.
pub proof fn lemma_text_parses_back(b: Seq<u8>)
    requires
        b.len() == 16,
    ensures
        uuid_parse(encode_utf8(uuid_text(b))) == Ok::<Seq<u8>, ParseError>(b),
{
    let text = uuid_text(b);
    assert forall|p: int| 0 <= p < 36 implies '\0' <= #[trigger] text[p] <= '\u{7f}' && (
    !is_hyphen_pos(p) ==> hex_digit(text[p] as u8) is Some) by {
        if !is_hyphen_pos(p) {
            let q = p - hyphens_before(p);
            assert(0 <= q < 32);
            let byte = b[q / 2];
            lemma_nibbles(byte);
            lemma_hex_char_round_trip(byte >> 4);
            lemma_hex_char_round_trip(byte & 0x0f);
        }
    }
    assert(is_ascii_chars(text));
    is_ascii_chars_encode_utf8(text);
    let t = encode_utf8(text);
    assert(t.len() == 36);
    assert(t[8] == 0x2du8 && t[13] == 0x2du8 && t[18] == 0x2du8 && t[23] == 0x2du8) by {
        assert(text[8] == '-' && text[13] == '-' && text[18] == '-' && text[23] == '-');
    }
    assert(!exists|p: int| bad_hex_at(t, p)) by {
        assert forall|p: int| !bad_hex_at(t, p) by {
            if 0 <= p < 36 && !is_hyphen_pos(p) {
                assert(t[p] == text[p] as u8);
            }
        }
    }
    let parsed = Seq::new(
        16,
        |i: int| (nibble_of(t[hex_start(i)]) * 16 + nibble_of(t[hex_start(i) + 1])) as u8,
    );
    assert forall|i: int| 0 <= i < 16 implies #[trigger] parsed[i] == b[i] by {
        let p = hex_start(i);
        let byte = b[i];
        assert(p - hyphens_before(p) == 2 * i);
        assert(p + 1 - hyphens_before(p + 1) == 2 * i + 1);
        lemma_nibbles(byte);
        lemma_hex_char_round_trip(byte >> 4);
        lemma_hex_char_round_trip(byte & 0x0f);
        assert(t[p] == text[p] as u8);
        assert(t[p + 1] == text[p + 1] as u8);
    }
    assert(parsed =~= b);
}

/// ASCII lowercase of one byte.
pub open spec fn ascii_lower(c: u8) -> u8 {
    if 0x41 <= c <= 0x5a {
        (c + 0x20) as u8
    } else {
        c
    }
}

/// Parsing ignores case: lowercasing the ASCII letters of the input
/// changes neither the UUID parsed nor the error reported.
pub proof fn lemma_parse_ignores_case(t: Seq<u8>)
    ensures
        uuid_parse(t.map_values(|c: u8| ascii_lower(c))) == uuid_parse(t),
{
    let l = t.map_values(|c: u8| ascii_lower(c));
    assert forall|p: int| 0 <= p < t.len() implies #[trigger] hex_digit(l[p]) == hex_digit(t[p]) && (
    l[p] == 0x2du8 <==> t[p] == 0x2du8) by {}
    assert forall|p: int| #[trigger] bad_hex_at(l, p) == bad_hex_at(t, p) by {
        if 0 <= p < t.len() {
            assert(hex_digit(l[p]) == hex_digit(t[p]));
        }
    }
    assert forall|p: int| #[trigger] is_first_bad_hex(l, p) == is_first_bad_hex(t, p) by {
        assert(forall|q: int| bad_hex_at(l, q) == bad_hex_at(t, q));
    }
    if t.len() == 36 {
        assert(forall|q: int| bad_hex_at(l, q) == bad_hex_at(t, q));
        assert((exists|p: int| bad_hex_at(l, p)) == (exists|p: int| bad_hex_at(t, p)));
        if exists|p: int| bad_hex_at(t, p) {
            let p0 = choose|p: int| bad_hex_at(t, p);
            let p = lemma_first_bad_hex_exists(t, p0);
            assert(is_first_bad_hex(l, p));
            lemma_first_bad_hex_unique(t, p);
            lemma_first_bad_hex_unique(l, p);
        }
        let a = Seq::new(
            16,
            |i: int| (nibble_of(l[hex_start(i)]) * 16 + nibble_of(l[hex_start(i) + 1])) as u8,
        );
        let c = Seq::new(
            16,
            |i: int| (nibble_of(t[hex_start(i)]) * 16 + nibble_of(t[hex_start(i) + 1])) as u8,
        );
        assert forall|i: int| 0 <= i < 16 implies a[i] == c[i] by {
            assert(hex_digit(l[hex_start(i)]) == hex_digit(t[hex_start(i)]));
            assert(hex_digit(l[hex_start(i) + 1]) == hex_digit(t[hex_start(i) + 1]));
        }
        assert(a =~= c);
    }
}

/// v7 UUIDs of different milliseconds (below `2^48`) sort byte-wise in
/// time order, whatever their random bytes.
pub proof fn lemma_v7_time_ordered(ms1: u64, ms2: u64, random1: Seq<u8>, random2: Seq<u8>)
    requires
        ms1 < ms2 < 0x1_0000_0000_0000,
        random1.len() == 16,
        random2.len() == 16,
    ensures
        bytes_lt(v7_layout(ms1, random1), v7_layout(ms2, random2)),
{
    lemma_u48_be_order(ms1, ms2);
    assert(v7_layout(ms1, random1).subrange(0, 6) =~= u48_be_bytes(ms1));
    assert(v7_layout(ms2, random2).subrange(0, 6) =~= u48_be_bytes(ms2));
    lemma_bytes_lt_prefix(v7_layout(ms1, random1), v7_layout(ms2, random2), 6);
}


proof fn lemma_byte_of_nibbles(h: u8, l: u8)
    by (bit_vector)
    requires
        h < 16,
        l < 16,
    ensures
        ((h * 16 + l) as u8) >> 4u8 == h,
        ((h * 16 + l) as u8) & 0x0fu8 == l,
{
}

/// Parse, then print: the text form of a parsed UUID is the input with its
/// ASCII letters lowercased. An input already in lowercase comes back
/// unchanged.
pub proof fn lemma_parse_prints_lowercase(t: Seq<u8>)
    requires
        uuid_parse(t) is Ok,
    ensures
        encode_utf8(uuid_text(uuid_parse(t)->Ok_0)) == t.map_values(|c: u8| ascii_lower(c)),
        t.map_values(|c: u8| ascii_lower(c)) == t ==> encode_utf8(uuid_text(uuid_parse(t)->Ok_0)) == t,
{
    assert(t.len() == 36);
    let b = uuid_parse(t)->Ok_0;
    let text = uuid_text(b);
    let l = t.map_values(|c: u8| ascii_lower(c));
    assert forall|p: int| 0 <= p < 36 implies '\0' <= #[trigger] text[p] <= '\u{7f}' && text[p] as u8 == l[p] by {
        if is_hyphen_pos(p) {
            assert(t[p] == 0x2du8);
        } else {
            assert(!bad_hex_at(t, p));
            let q = p - hyphens_before(p);
            let i = q / 2;
            assert(0 <= i < 16);
            let hs = hex_start(i);
            assert(hs + q % 2 == p);
            assert(!bad_hex_at(t, hs) && !bad_hex_at(t, hs + 1));
            let h = nibble_of(t[hs]);
            let lo = nibble_of(t[hs + 1]);
            assert(b[i] == (h * 16 + lo) as u8);
            lemma_byte_of_nibbles(h, lo);
        }
    }
    assert(is_ascii_chars(text));
    is_ascii_chars_encode_utf8(text);
    let out = encode_utf8(text);
    assert forall|p: int| 0 <= p < 36 implies out[p] == l[p] by {
        assert(out[p] == text[p] as u8);
    }
    assert(out =~= l);
}


/// A v7 UUID made at wall-clock reading `unix_ms` carries that reading,
/// reduced to 48 bits, big-endian in its first six bytes, whatever its
/// random bytes.
pub proof fn lemma_v7_timestamp(unix_ms: u64, random: Seq<u8>)
    requires
        random.len() == 16,
    ensures
        timestamp_of(v7_layout(unix_ms, random)) == unix_ms % 0x1_0000_0000_0000,
{
    let b = v7_layout(unix_ms, random);
    let u = ulid_layout(unix_ms, 0);
    lemma_timestamp_of_layout(unix_ms, 0);
    assert forall|i: int| 0 <= i < 6 implies #[trigger] b[i] == u[i] by {}
}

/// Every UUID that [`Uuid::v7`] can return from generator state `s` is
/// stamped with the millisecond clock: its first 48 bits are a reading of
/// that clock reduced to 48 bits, and the rest are the drawn bytes with the
/// version and variant set.
pub proof fn lemma_v7_is_stamped_with_clock(r: Seq<u8>, s: RngState)
    requires
        exists|unix_ms: u64| clock::is_ms_reading(unix_ms) && r == #[trigger] v7_layout(unix_ms, xoshiro_bytes16(s)),
    ensures
        exists|unix_ms: u64| clock::is_ms_reading(unix_ms) && timestamp_of(r) == unix_ms % 0x1_0000_0000_0000,
{
    let unix_ms = choose|unix_ms: u64|
        clock::is_ms_reading(unix_ms) && r == #[trigger] v7_layout(unix_ms, xoshiro_bytes16(s));
    lemma_v7_timestamp(unix_ms, xoshiro_bytes16(s));
}

} // verus!
