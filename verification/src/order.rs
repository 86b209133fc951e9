//! Byte-wise order of big-endian encodings.

use crate::rng::u64_be_bytes;
use vstd::prelude::*;

verus! {

/// `a` sorts strictly before `b` byte-wise: at the first position where
/// they differ, `a` has the smaller byte.
pub open spec fn bytes_lt(a: Seq<u8>, b: Seq<u8>) -> bool {
    exists|k: int| 0 <= k < a.len() && k < b.len() && a[k] < b[k] && #[trigger] agree_before(a, b, k)
}

/// `a` and `b` agree on their first `k` bytes.
pub open spec fn agree_before(a: Seq<u8>, b: Seq<u8>, k: int) -> bool {
    forall|j: int| 0 <= j < k ==> a[j] == b[j]
}

/// The sixteen big-endian bytes of `x`.
pub open spec fn u128_be_bytes(x: u128) -> Seq<u8> {
    Seq::new(16, |i: int| ((x >> ((120 - 8 * i) as u128)) & 0xff) as u8)
}

/// The six big-endian bytes of the low 48 bits of `x`.
pub open spec fn u48_be_bytes(x: u64) -> Seq<u8> {
    u64_be_bytes(x).subrange(2, 8)
}

/// The leading `j + 1` bytes of `x`, as a number.
pub open spec fn lead128(x: u128, j: int) -> u128 {
    x >> ((120 - 8 * j) as u128)
}

/// The leading `j + 1` of the six low bytes of `x`, as a number.
pub open spec fn lead48(x: u64, j: int) -> u64 {
    x >> ((40 - 8 * j) as u64)
}

/// Shifting by zero changes nothing.
pub proof fn lemma_shift_zero(x: u128, y: u64)
    by (bit_vector)
    ensures
        x >> 0u128 == x,
        y >> 0u64 == y,
{
}

proof fn lemma_shr_monotone_u128(x: u128, y: u128, s: u128)
    requires
        x <= y,
        s < 128,
    ensures
        x >> s <= y >> s,
{
    assert(x >> s <= y >> s) by (bit_vector)
        requires
            x <= y,
            s < 128u128,
    ;
}

proof fn lemma_byte_step_u128(x: u128, y: u128, s: u128)
    requires
        s <= 112,
        x >> (s + 8) as u128 == y >> (s + 8) as u128,
        x >> s < y >> s,
    ensures
        (((x >> s) & 0xff) as u8) < (((y >> s) & 0xff) as u8),
{
    assert((((x >> s) & 0xff) as u8) < (((y >> s) & 0xff) as u8)) by (bit_vector)
        requires
            s <= 112u128,
            x >> (s + 8) as u128 == y >> (s + 8) as u128,
            x >> s < y >> s,
    ;
}

proof fn lemma_order_from_u128(x: u128, y: u128, k: int)
    requires
        x < y,
        0 <= k < 16,
        forall|j: int| 0 <= j < k ==> #[trigger] lead128(x, j) == lead128(y, j),
    ensures
        bytes_lt(u128_be_bytes(x), u128_be_bytes(y)),
    decreases 16 - k,
{
    let s = (120 - 8 * k) as u128;
    lemma_shr_monotone_u128(x, y, s);
    if x >> s < y >> s {
        if k == 0 {
            assert((((x >> 120u128) & 0xff) as u8) < (((y >> 120u128) & 0xff) as u8)) by (bit_vector)
                requires
                    x >> 120u128 < y >> 120u128,
            ;
        } else {
            assert(lead128(x, k - 1) == lead128(y, k - 1));
            lemma_byte_step_u128(x, y, s);
        }
        let bx = u128_be_bytes(x);
        let by = u128_be_bytes(y);
        assert(bx[k] < by[k]);
        assert forall|j: int| 0 <= j < k implies bx[j] == by[j] by {
            assert(lead128(x, j) == lead128(y, j));
        }
        assert(agree_before(bx, by, k));
    } else {
        if k == 15 {
            lemma_shift_zero(x, 0);
            lemma_shift_zero(y, 0);
        } else {
            lemma_order_from_u128(x, y, k + 1);
        }
    }
}

/// Big-endian bytes sort as the numbers they encode.
pub proof fn lemma_u128_be_order(x: u128, y: u128)
    requires
        x < y,
    ensures
        bytes_lt(u128_be_bytes(x), u128_be_bytes(y)),
{
    lemma_order_from_u128(x, y, 0);
}

proof fn lemma_order_from_u48(x: u64, y: u64, k: int)
    requires
        x < y,
        y < 0x1_0000_0000_0000,
        0 <= k < 6,
        forall|j: int| 0 <= j < k ==> #[trigger] lead48(x, j) == lead48(y, j),
    ensures
        bytes_lt(u48_be_bytes(x), u48_be_bytes(y)),
    decreases 6 - k,
{
    let s = (40 - 8 * k) as u64;
    assert(x >> s <= y >> s) by (bit_vector)
        requires
            x <= y,
            s < 64u64,
    ;
    if x >> s < y >> s {
        if k == 0 {
            assert((((x >> 40u64) & 0xff) as u8) < (((y >> 40u64) & 0xff) as u8)) by (bit_vector)
                requires
                    x >> 40u64 < y >> 40u64,
                    y < 0x1_0000_0000_0000u64,
                    x < y,
            ;
        } else {
            assert(lead48(x, k - 1) == lead48(y, k - 1));
            assert((((x >> s) & 0xff) as u8) < (((y >> s) & 0xff) as u8)) by (bit_vector)
                requires
                    s <= 32u64,
                    x >> (s + 8) as u64 == y >> (s + 8) as u64,
                    x >> s < y >> s,
            ;
        }
        let bx = u48_be_bytes(x);
        let by = u48_be_bytes(y);
        assert(bx[k] == ((x >> s) & 0xff) as u8);
        assert(by[k] == ((y >> s) & 0xff) as u8);
        assert(bx[k] < by[k]);
        assert forall|j: int| 0 <= j < k implies bx[j] == by[j] by {
            assert(lead48(x, j) == lead48(y, j));
        }
        assert(agree_before(bx, by, k));
    } else {
        if k == 5 {
            lemma_shift_zero(0, x);
            lemma_shift_zero(0, y);
        } else {
            lemma_order_from_u48(x, y, k + 1);
        }
    }
}

/// The six big-endian bytes of 48-bit numbers sort as the numbers.
pub proof fn lemma_u48_be_order(x: u64, y: u64)
    requires
        x < y < 0x1_0000_0000_0000,
    ensures
        bytes_lt(u48_be_bytes(x), u48_be_bytes(y)),
{
    lemma_order_from_u48(x, y, 0);
}

/// Order decided within a prefix carries over to longer sequences that
/// agree with those prefixes.
pub proof fn lemma_bytes_lt_prefix(a: Seq<u8>, b: Seq<u8>, n: int)
    requires
        0 <= n <= a.len(),
        n <= b.len(),
        bytes_lt(a.subrange(0, n), b.subrange(0, n)),
    ensures
        bytes_lt(a, b),
{
    let pa = a.subrange(0, n);
    let pb = b.subrange(0, n);
    let k = choose|k: int| 0 <= k < pa.len() && k < pb.len() && pa[k] < pb[k] && #[trigger] agree_before(pa, pb, k);
    assert(a[k] < b[k]);
    assert forall|j: int| 0 <= j < k implies a[j] == b[j] by {
        assert(pa[j] == pb[j]);
    }
    assert(agree_before(a, b, k));
}

/// Sequences with a common prefix sort as what follows it.
pub proof fn lemma_bytes_lt_after_common(a: Seq<u8>, b: Seq<u8>, n: int)
    requires
        0 <= n <= a.len(),
        n <= b.len(),
        a.subrange(0, n) == b.subrange(0, n),
        bytes_lt(a.subrange(n, a.len() as int), b.subrange(n, b.len() as int)),
    ensures
        bytes_lt(a, b),
{
    let sa = a.subrange(n, a.len() as int);
    let sb = b.subrange(n, b.len() as int);
    let k = choose|k: int| 0 <= k < sa.len() && k < sb.len() && sa[k] < sb[k] && #[trigger] agree_before(sa, sb, k);
    assert(a[n + k] < b[n + k]);
    assert forall|j: int| 0 <= j < n + k implies a[j] == b[j] by {
        if j < n {
            assert(a.subrange(0, n)[j] == a[j]);
            assert(b.subrange(0, n)[j] == b[j]);
            assert(a.subrange(0, n)[j] == b.subrange(0, n)[j]);
        } else {
            assert(agree_before(sa, sb, k));
            assert(sa[j - n] == sb[j - n]);
            assert(sa[j - n] == a[j]);
            assert(sb[j - n] == b[j]);
        }
    }
    assert(agree_before(a, b, n + k));
}

} // verus!
