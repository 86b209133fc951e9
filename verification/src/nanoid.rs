//! NanoIDs: random strings of configurable length over a configurable
//! alphabet.
//!
//! Characters are picked without bias by rejection sampling: each word
//! drawn from the generator is cut into `bits`-bit chunks, lowest first,
//! where `bits` is the smallest width with `2^bits` at least the alphabet's
//! length; a chunk below the alphabet's length picks that byte, any other
//! chunk is skipped. No remainder is ever taken, so every byte of the
//! alphabet is equally likely.

use crate::rng::{xoshiro_advance, xoshiro_nth, RngState, Xoshiro256SS};
use crate::strings::push_char;
use vstd::prelude::*;
use vstd::std_specs::bits::{axiom_u64_leading_zeros, u64_leading_zeros};

verus! {

/// Default alphabet: URL-safe, 64 characters,
/// `_-0123456789abcdefghijklmnopqrstuvwxyzABCDEFGHIJKLMNOPQRSTUVWXYZ`.
pub const DEFAULT_ALPHABET: [u8; 64] = [
    95, 45, 48, 49, 50, 51, 52, 53, 54, 55, 56, 57, 97, 98, 99, 100,
    101, 102, 103, 104, 105, 106, 107, 108, 109, 110, 111, 112, 113, 114, 115, 116,
    117, 118, 119, 120, 121, 122, 65, 66, 67, 68, 69, 70, 71, 72, 73, 74,
    75, 76, 77, 78, 79, 80, 81, 82, 83, 84, 85, 86, 87, 88, 89, 90,
];

/// Default length: 21 characters.
pub const DEFAULT_LENGTH: usize = 21;

/// Error returned by [`try_custom`] and [`validate_alphabet`].
#[derive(Debug, Clone, Copy, PartialEq, Eq)]
pub enum AlphabetError {
    /// The alphabet was the empty slice.
    Empty,
    /// The given byte appears more than once. Duplicates would skew the
    /// character distribution silently.
    Duplicate(u8),
}

/// No byte among the first `k` of `a` occurs twice.
pub open spec fn distinct_prefix(a: Seq<u8>, k: int) -> bool {
    forall|i: int, j: int| 0 <= i < j < k ==> a[i] != a[j]
}

/// `j` is the first position of `a` whose byte already occurred before it.
pub open spec fn is_first_repeat(a: Seq<u8>, j: int) -> bool {
    &&& 0 <= j < a.len()
    &&& distinct_prefix(a, j)
    &&& !distinct_prefix(a, j + 1)
}

/// The verdict on an alphabet: empty, the first byte that repeats an
/// earlier one, or accepted.
pub open spec fn alphabet_verdict(a: Seq<u8>) -> Result<(), AlphabetError> {
    if a.len() == 0 {
        Err(AlphabetError::Empty)
    } else if distinct_prefix(a, a.len() as int) {
        Ok(())
    } else {
        Err(AlphabetError::Duplicate(a[choose|j: int| is_first_repeat(a, j)]))
    }
}

proof fn lemma_first_repeat_unique(a: Seq<u8>, j: int)
    requires
        is_first_repeat(a, j),
    ensures
        (choose|k: int| is_first_repeat(a, k)) == j,
{
    let k = choose|k: int| is_first_repeat(a, k);
    assert(is_first_repeat(a, k));
    if k < j {
        assert(distinct_prefix(a, k + 1));
    } else if j < k {
        assert(distinct_prefix(a, j + 1));
    }
}

/// Check that an alphabet is non-empty and free of duplicate bytes.
pub fn validate_alphabet(alphabet: &[u8]) -> (r: Result<(), AlphabetError>)
    ensures
        r == alphabet_verdict(alphabet@),
{
    if alphabet.len() == 0 {
        return Err(AlphabetError::Empty);
    }
    let mut seen = [false; 256];
    let mut k: usize = 0;
    while k < alphabet.len()
        invariant
            k <= alphabet@.len(),
            distinct_prefix(alphabet@, k as int),
            forall|x: int|
                0 <= x < 256 ==> (#[trigger] seen@[x] <==> exists|i: int|
                    0 <= i < k && alphabet@[i] == x),
        decreases alphabet@.len() - k,
    {
        let b = alphabet[k];
        if seen[b as usize] {
            proof {
                let i = choose|i: int| 0 <= i < k && alphabet@[i] == b;
                assert(!distinct_prefix(alphabet@, k + 1)) by {
                    assert(alphabet@[i] == alphabet@[k as int]);
                }
                lemma_first_repeat_unique(alphabet@, k as int);
            }
            return Err(AlphabetError::Duplicate(b));
        }
        seen[b as usize] = true;
        proof {
            assert forall|x: int|
                0 <= x < 256 implies (#[trigger] seen@[x] <==> exists|i: int|
                    0 <= i < k + 1 && alphabet@[i] == x) by {
                if x == b {
                    assert(alphabet@[k as int] == x);
                }
            }
        }
        k = k + 1;
    }
    Ok(())
}

/// The number of bits that address every index in `0..n`: the smallest
/// `k` with `2^k >= n`, for `n >= 2`.
pub open spec fn mask_bits_spec(n: nat) -> u32 {
    (64 - u64_leading_zeros((n - 1) as u64)) as u32
}

/// `2^bits - 1`.
pub open spec fn low_mask(bits: u32) -> u64 {
    ((1u64 << bits) - 1) as u64
}

/// Bits needed to address any index in `0..n`: the smallest `k` such that
/// `2^k >= n`. For `n = 64` this is 6; for `n = 65` it is 7.
pub fn mask_bits(n: usize) -> (r: u32)
    requires
        2 <= n <= 0x8000_0000_0000_0000u64,
    ensures
        r == mask_bits_spec(n as nat),
        1 <= r <= 63,
        (1u64 << ((r - 1) as u32)) < n,
        n <= (1u64 << r),
{
    let x = (n - 1) as u64;
    let lz = x.leading_zeros();
    proof {
        axiom_u64_leading_zeros(x);
        let k = lz as u64;
        assert((x >> 63u64) & 1u64 == 0u64) by (bit_vector)
            requires
                x < 0x8000_0000_0000_0000u64,
        ;
        assert(k != 0);
        assert(1 <= k <= 63);
        assert((x >> ((63 - k) as u64)) & 1u64 != 0u64);
        assert(x >> ((64 - k) as u64) == 0u64);
        assert((1u64 << ((63 - k) as u32)) <= x && x < (1u64 << ((64 - k) as u32))) by (bit_vector)
            requires
                1u64 <= k <= 63u64,
                (x >> ((63 - k) as u64)) & 1u64 != 0u64,
                x >> ((64 - k) as u64) == 0u64,
        ;
    }
    64 - lz
}

/// The characters that one drawn word yields: `count` successive
/// `bits`-bit chunks of `buf`, lowest first. A chunk below the alphabet's
/// length picks that byte of the alphabet; any other chunk is skipped.
pub open spec fn chunk_chars(buf: u64, count: nat, bits: u32, alphabet: Seq<u8>) -> Seq<char>
    decreases count,
{
    if count == 0 {
        Seq::empty()
    } else {
        let idx = buf & low_mask(bits);
        let head = if idx < alphabet.len() {
            seq![alphabet[idx as int] as char]
        } else {
            Seq::empty()
        };
        head + chunk_chars(buf >> bits, (count - 1) as nat, bits, alphabet)
    }
}

/// The characters that the first `words` words drawn from state `s` yield,
/// `64 / bits` chunks per word.
pub open spec fn stream_chars(s: RngState, words: nat, bits: u32, alphabet: Seq<u8>) -> Seq<char>
    decreases words,
{
    if words == 0 {
        Seq::empty()
    } else {
        stream_chars(s, (words - 1) as nat, bits, alphabet) + chunk_chars(
            xoshiro_nth(s, (words - 1) as nat),
            (64u32 / bits) as nat,
            bits,
            alphabet,
        )
    }
}

/// The most words one NanoID may draw. Reaching it would take longer than
/// any computer runs; the ID is then what the drawn words yielded.
pub const DRAW_BUDGET: u64 = 0xffff_ffff_ffff_ffff;

/// `out` is the NanoID of `length` characters over `alphabet` that the
/// generator in state `s` gives with `w` draws: the first `length`
/// characters that the drawn words yield, drawing no word after they are
/// complete.
pub open spec fn sampled(s: RngState, w: nat, length: nat, alphabet: Seq<u8>, out: Seq<char>) -> bool {
    let bits = mask_bits_spec(alphabet.len());
    let cs = stream_chars(s, w, bits, alphabet);
    ||| cs.len() >= length && out == cs.take(length as int) && (w > 0 ==> stream_chars(
        s,
        (w - 1) as nat,
        bits,
        alphabet,
    ).len() < length)
    ||| w == DRAW_BUDGET && cs.len() < length && out == cs
}

/// `length` copies of `c`.
pub open spec fn repeated(c: char, length: nat) -> Seq<char> {
    Seq::new(length, |i: int| c)
}

proof fn lemma_no_whole_chunk(bb: u32, bits: u32)
    requires
        bb < bits,
    ensures
        bb / bits == 0,
{
    let x = bb as int;
    let y = bits as int;
    assert(x / y == 0) by (nonlinear_arith)
        requires
            0 <= x < y,
    ;
}

proof fn lemma_chunk_count_step(bb: u32, bits: u32)
    requires
        1 <= bits <= bb,
    ensures
        ((bb - bits) as u32 / bits) as nat == (bb / bits) as nat - 1,
        bb / bits >= 1,
{
    let x = bb as int;
    let y = bits as int;
    assert((x - y) / y == x / y - 1) by (nonlinear_arith)
        requires
            1 <= y <= x,
    ;
    assert(x / y >= 1) by (nonlinear_arith)
        requires
            1 <= y <= x,
    ;
}

/// Draw a NanoID over a non-empty alphabet.
fn custom_unchecked(length: usize, alphabet: &[u8], rng: &mut Xoshiro256SS) -> (r: String)
    requires
        1 <= alphabet@.len() <= isize::MAX,
    ensures
        alphabet@.len() == 1 ==> r@ == repeated(alphabet@[0] as char, length as nat),
        alphabet@.len() == 1 ==> final(rng)@ == old(rng)@,
        alphabet@.len() >= 2 ==> exists|w: nat|
            #[trigger] xoshiro_advance(old(rng)@, w) == final(rng)@ && sampled(
                old(rng)@,
                w,
                length as nat,
                alphabet@,
                r@,
            ),
{
    let n = alphabet.len();
    if n == 1 {
        let c = alphabet[0] as char;
        let mut out = String::new();
        let mut k: usize = 0;
        while k < length
            invariant
                k <= length,
                out@ == repeated(c, k as nat),
            decreases length - k,
        {
            push_char(&mut out, c);
            k = k + 1;
            assert(out@ =~= repeated(c, k as nat));
        }
        return out;
    }
    let ghost s0 = rng@;
    let ghost a = alphabet@;
    let bits = mask_bits(n);
    let mask: u64 = (1u64 << bits) - 1;
    let mut out = String::new();
    let mut buffer: u64 = 0;
    let mut buffer_bits: u32 = 0;
    let mut placed: usize = 0;
    let mut draws: u64 = 0;
    while placed < length && (buffer_bits >= bits || draws < DRAW_BUDGET)
        invariant
            n == a.len(),
            a == alphabet@,
            2 <= n,
            bits == mask_bits_spec(n as nat),
            1 <= bits <= 63,
            mask == low_mask(bits),
            buffer_bits <= 64,
            rng@ == xoshiro_advance(s0, draws as nat),
            stream_chars(s0, draws as nat, bits, a) == out@ + chunk_chars(
                buffer,
                (buffer_bits / bits) as nat,
                bits,
                a,
            ),
            out@.len() == placed,
            placed <= length,
            draws > 0 ==> stream_chars(s0, (draws - 1) as nat, bits, a).len() < length,
        decreases DRAW_BUDGET - draws, buffer_bits,
    {
        if buffer_bits < bits {
            proof {
                lemma_no_whole_chunk(buffer_bits, bits);
                assert(out@ =~= out@ + chunk_chars(buffer, 0, bits, a));
            }
            buffer = rng.next_u64();
            buffer_bits = 64;
            draws = draws + 1;
            proof {
                assert(stream_chars(s0, draws as nat, bits, a) =~= out@ + chunk_chars(
                    buffer,
                    (buffer_bits / bits) as nat,
                    bits,
                    a,
                ));
            }
        }
        let ghost old_buffer = buffer;
        let ghost old_bb = buffer_bits;
        let idx = buffer & mask;
        buffer = buffer >> bits;
        buffer_bits = buffer_bits - bits;
        proof {
            lemma_chunk_count_step(old_bb, bits);
        }
        if idx < n as u64 {
            let c = alphabet[idx as usize] as char;
            proof {
                assert(chunk_chars(old_buffer, (old_bb / bits) as nat, bits, a) =~= seq![c]
                    + chunk_chars(buffer, (buffer_bits / bits) as nat, bits, a));
            }
            push_char(&mut out, c);
            placed = placed + 1;
            proof {
                assert(stream_chars(s0, draws as nat, bits, a) =~= out@ + chunk_chars(
                    buffer,
                    (buffer_bits / bits) as nat,
                    bits,
                    a,
                ));
            }
        } else {
            proof {
                assert(chunk_chars(old_buffer, (old_bb / bits) as nat, bits, a) =~= chunk_chars(
                    buffer,
                    (buffer_bits / bits) as nat,
                    bits,
                    a,
                ));
            }
        }
    }
    proof {
        let cs = stream_chars(s0, draws as nat, bits, a);
        if placed == length {
            assert(cs.take(length as int) =~= out@);
        } else {
            lemma_no_whole_chunk(buffer_bits, bits);
            assert(cs =~= out@);
        }
        assert(sampled(s0, draws as nat, length as nat, a, out@));
        assert(xoshiro_advance(s0, draws as nat) == rng@);
    }
    out
}

/// `out` is the NanoID of `length` characters over `alphabet`, and `after`
/// the generator state, when the generator started in state `before`.
/// An empty alphabet or a zero length gives the empty string, and a
/// one-byte alphabet repeats its byte; neither draws from the generator.
pub open spec fn nanoid_drawn(
    before: RngState,
    after: RngState,
    length: nat,
    alphabet: Seq<u8>,
    out: Seq<char>,
) -> bool {
    if alphabet.len() == 0 || length == 0 {
        out == Seq::<char>::empty() && after == before
    } else if alphabet.len() == 1 {
        out == repeated(alphabet[0] as char, length) && after == before
    } else {
        exists|w: nat| #[trigger] xoshiro_advance(before, w) == after && sampled(before, w, length, alphabet, out)
    }
}

/// Generate a NanoID with a custom length and alphabet.
///
/// This entry point is permissive: an empty alphabet returns the empty
/// string, and duplicate bytes in the alphabet are tolerated (the repeated
/// characters appear with higher probability). Use [`try_custom`] when
/// those cases should be an error.
pub fn custom(length: usize, alphabet: &[u8], rng: &mut Xoshiro256SS) -> (r: String)
    requires
        alphabet@.len() <= isize::MAX,
    ensures
        nanoid_drawn(old(rng)@, final(rng)@, length as nat, alphabet@, r@),
{
    if alphabet.len() == 0 || length == 0 {
        return String::new();
    }
    custom_unchecked(length, alphabet, rng)
}

/// Strict counterpart to [`custom`]: the alphabet must be non-empty and
/// free of duplicate bytes, else the error says which rule it breaks and
/// nothing is drawn.
pub fn try_custom(length: usize, alphabet: &[u8], rng: &mut Xoshiro256SS) -> (r: Result<
    String,
    AlphabetError,
>)
    requires
        alphabet@.len() <= isize::MAX,
    ensures
        match r {
            Ok(s) => alphabet_verdict(alphabet@) is Ok && nanoid_drawn(
                old(rng)@,
                final(rng)@,
                length as nat,
                alphabet@,
                s@,
            ),
            Err(e) => alphabet_verdict(alphabet@) == Err::<(), AlphabetError>(e) && final(rng)@ == old(rng)@,
        },
{
    match validate_alphabet(alphabet) {
        Err(e) => Err(e),
        Ok(()) => {
            if length == 0 {
                return Ok(String::new());
            }
            Ok(custom_unchecked(length, alphabet, rng))
        },
    }
}

/// Generate a NanoID of the given length using the default alphabet.
pub fn with_length(length: usize, rng: &mut Xoshiro256SS) -> (r: String)
    ensures
        nanoid_drawn(old(rng)@, final(rng)@, length as nat, DEFAULT_ALPHABET@, r@),
{
    custom(length, &DEFAULT_ALPHABET, rng)
}

/// Generate a NanoID using the default alphabet and length.
pub fn generate(rng: &mut Xoshiro256SS) -> (r: String)
    ensures
        nanoid_drawn(old(rng)@, final(rng)@, DEFAULT_LENGTH as nat, DEFAULT_ALPHABET@, r@),
{
    custom(DEFAULT_LENGTH, &DEFAULT_ALPHABET, rng)
}

/// Every character of `out` is a byte of `alphabet`, taken as a character.
pub open spec fn drawn_from(out: Seq<char>, alphabet: Seq<u8>) -> bool {
    forall|k: int| 0 <= k < out.len() ==> #[trigger] in_alphabet(out[k], alphabet)
}

/// `c` is some byte of `alphabet`, taken as a character.
pub open spec fn in_alphabet(c: char, alphabet: Seq<u8>) -> bool {
    exists|i: int| 0 <= i < alphabet.len() && c == #[trigger] (alphabet[i] as char)
}

proof fn lemma_chunk_chars_drawn_from(buf: u64, count: nat, bits: u32, alphabet: Seq<u8>)
    ensures
        drawn_from(chunk_chars(buf, count, bits, alphabet), alphabet),
    decreases count,
{
    if count > 0 {
        lemma_chunk_chars_drawn_from(buf >> bits, (count - 1) as nat, bits, alphabet);
        let idx = buf & low_mask(bits);
        let rest = chunk_chars(buf >> bits, (count - 1) as nat, bits, alphabet);
        let all = chunk_chars(buf, count, bits, alphabet);
        if idx < alphabet.len() {
            assert forall|k: int| 0 <= k < all.len() implies #[trigger] in_alphabet(all[k], alphabet) by {
                if k == 0 {
                    assert(all[0] == alphabet[idx as int] as char);
                } else {
                    assert(all[k] == rest[k - 1]);
                }
            }
        } else {
            assert(all =~= rest);
        }
    }
}

proof fn lemma_stream_chars_drawn_from(s: RngState, words: nat, bits: u32, alphabet: Seq<u8>)
    ensures
        drawn_from(stream_chars(s, words, bits, alphabet), alphabet),
    decreases words,
{
    if words > 0 {
        let prev = stream_chars(s, (words - 1) as nat, bits, alphabet);
        let last = chunk_chars(xoshiro_nth(s, (words - 1) as nat), (64u32 / bits) as nat, bits, alphabet);
        lemma_stream_chars_drawn_from(s, (words - 1) as nat, bits, alphabet);
        lemma_chunk_chars_drawn_from(xoshiro_nth(s, (words - 1) as nat), (64u32 / bits) as nat, bits, alphabet);
        let all = stream_chars(s, words, bits, alphabet);
        assert forall|k: int| 0 <= k < all.len() implies #[trigger] in_alphabet(all[k], alphabet) by {
            if k < prev.len() {
                assert(all[k] == prev[k]);
            } else {
                assert(all[k] == last[k - prev.len()]);
            }
        }
    }
}

/// A NanoID has exactly the length asked for, unless even
/// [`DRAW_BUDGET`] draws do not yield that many characters; and every
/// character of it is a byte of the alphabet.
pub proof fn lemma_nanoid_shape(
    before: RngState,
    after: RngState,
    length: nat,
    alphabet: Seq<u8>,
    out: Seq<char>,
)
    requires
        nanoid_drawn(before, after, length, alphabet, out),
    ensures
        alphabet.len() > 0 ==> out.len() == length || stream_chars(
            before,
            DRAW_BUDGET as nat,
            mask_bits_spec(alphabet.len()),
            alphabet,
        ).len() < length,
        drawn_from(out, alphabet),
{
    if alphabet.len() == 0 || length == 0 {
    } else if alphabet.len() == 1 {
        assert forall|k: int| 0 <= k < out.len() implies #[trigger] in_alphabet(out[k], alphabet) by {
            assert(out[k] == alphabet[0] as char);
        }
    } else {
        let w = choose|w: nat| #[trigger] xoshiro_advance(before, w) == after && sampled(before, w, length, alphabet, out);
        let bits = mask_bits_spec(alphabet.len());
        let cs = stream_chars(before, w, bits, alphabet);
        lemma_stream_chars_drawn_from(before, w, bits, alphabet);
        assert forall|k: int| 0 <= k < out.len() implies #[trigger] in_alphabet(out[k], alphabet) by {
            assert(out[k] == cs[k]);
        }
    }
}

} // verus!
