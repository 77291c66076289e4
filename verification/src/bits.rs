//! Facts about the bits of a 64-bit word.

use vstd::prelude::*;

verus! {

/// Bit `k` of `x`, for `k < 64`.
pub open spec fn bit(x: u64, k: u64) -> bool {
    (x >> k) & 1 == 1
}

/// Bit `i` of `x`; `false` outside the word.
pub open spec fn bit_at(x: u64, i: int) -> bool {
    0 <= i < 64 && bit(x, i as u64)
}

/// The word whose `n` lowest bits are set.
pub open spec fn low_mask(n: u64) -> u64 {
    if n >= 64 {
        u64::MAX
    } else {
        ((1u64 << n) - 1) as u64
    }
}

/// `x` has no bit set at position `n` or above.
pub open spec fn fits(x: u64, n: int) -> bool {
    n >= 64 || (0 <= n && x >> (n as u64) == 0)
}

/// A word that fits in `n` bits has no bit at or above `n`.
pub proof fn lemma_fits_bits(x: u64, n: int)
    requires
        0 <= n,
        fits(x, n),
    ensures
        forall|i: int| n <= i ==> !#[trigger] bit_at(x, i),
{
    assert forall|i: int| n <= i implies !#[trigger] bit_at(x, i) by {
        if i < 64 {
            let k = i as u64;
            let m = n as u64;
            assert(!bit(x, k)) by (bit_vector)
                requires
                    m <= k,
                    k < 64,
                    x >> m == 0,
            ;
        }
    }
}

/// Two words that agree on their `k` lowest bits agree under the mask of `k` bits.
pub proof fn lemma_low_bits_agree(a: u64, b: u64, k: nat)
    requires
        k <= 64,
        forall|i: int| 0 <= i < k ==> #[trigger] bit_at(a, i) == bit_at(b, i),
    ensures
        a & low_mask(k as u64) == b & low_mask(k as u64),
    decreases k,
{
    if k == 0 {
        assert(a & low_mask(0) == b & low_mask(0)) by (bit_vector);
    } else {
        let j = (k - 1) as u64;
        lemma_low_bits_agree(a, b, (k - 1) as nat);
        assert(bit_at(a, j as int) == bit_at(b, j as int));
        assert(a & low_mask((j + 1) as u64) == b & low_mask((j + 1) as u64)) by (bit_vector)
            requires
                j < 64,
                a & low_mask(j) == b & low_mask(j),
                bit(a, j) == bit(b, j),
        ;
    }
}

/// Two words with the same bits are the same word.
pub proof fn lemma_bits_equal(a: u64, b: u64)
    requires
        forall|i: int| 0 <= i < 64 ==> #[trigger] bit_at(a, i) == bit_at(b, i),
    ensures
        a == b,
{
    lemma_low_bits_agree(a, b, 64);
    assert(a & low_mask(64) == a) by (bit_vector);
    assert(b & low_mask(64) == b) by (bit_vector);
}

/// A word without bits at or above `n` fits in `n` bits.
pub proof fn lemma_bits_fit(x: u64, n: int)
    requires
        0 <= n,
        forall|i: int| n <= i < 64 ==> !#[trigger] bit_at(x, i),
    ensures
        fits(x, n),
{
    if n < 64 {
        let m = n as u64;
        let y = x & low_mask(m);
        assert forall|i: int| 0 <= i < 64 implies #[trigger] bit_at(x, i) == bit_at(y, i) by {
            let k = i as u64;
            assert(bit(x & low_mask(m), k) == (k < m && bit(x, k))) by (bit_vector)
                requires
                    k < 64,
                    m < 64,
            ;
        }
        lemma_bits_equal(x, y);
        assert((x & low_mask(m)) >> m == 0) by (bit_vector)
            requires
                m < 64,
        ;
    }
}

} // verus!
