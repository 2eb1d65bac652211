//! Facts about single bits of a machine word, used by the mask table and the
//! search automaton.

use vstd::prelude::*;

verus! {

/// Number of bits in the word that holds masks and automaton states.
pub const WORD_BITS: usize = 64;

/// Bit `b` of `x` is one.
pub open spec fn bit_set(x: u64, b: u64) -> bool {
    (x >> b) & 1u64 == 1u64
}

/// Shifting left by one and masking: bit `b` survives iff bit `b - 1` was set
/// and the mask has bit `b`.
pub proof fn lemma_shift_and(d: u64, m: u64, b: u64)
    requires
        b < 64,
    ensures
        bit_set((d << 1u64) & m, b) == (b > 0 && bit_set(d, (b - 1) as u64) && bit_set(m, b)),
{
    if b == 0 {
        assert(!bit_set((d << 1u64) & m, 0u64)) by (bit_vector);
    } else {
        let c = (b - 1) as u64;
        assert(bit_set((d << 1u64) & m, b) == (bit_set(d, c) && bit_set(m, b))) by (bit_vector)
            requires
                0 < b < 64,
                c == b - 1,
        ;
    }
}

/// Shifting left by one and or-ing in a flag: the flag lands in bit zero.
pub proof fn lemma_shift_or_flag(x: u64, e: u64, b: u64)
    requires
        e <= 1,
        b < 64,
    ensures
        bit_set((x << 1u64) | e, b) == if b == 0 {
            e == 1
        } else {
            bit_set(x, (b - 1) as u64)
        },
{
    if b == 0 {
        assert(bit_set((x << 1u64) | e, 0u64) == (e == 1)) by (bit_vector)
            requires
                e <= 1,
        ;
    } else {
        let c = (b - 1) as u64;
        assert(bit_set((x << 1u64) | e, b) == bit_set(x, c)) by (bit_vector)
            requires
                e <= 1,
                0 < b < 64,
                c == b - 1,
        ;
    }
}

/// Setting bit `i` changes bit `i` only.
pub proof fn lemma_or_single(x: u64, i: u64, b: u64)
    requires
        i < 64,
        b < 64,
    ensures
        bit_set(x | (1u64 << i), b) == (bit_set(x, b) || b == i),
{
    assert(bit_set(x | (1u64 << i), b) == (bit_set(x, b) || b == i)) by (bit_vector)
        requires
            i < 64,
            b < 64,
    ;
}

/// Testing against a one-bit mask reads that bit.
pub proof fn lemma_and_single(x: u64, b: u64)
    requires
        b < 64,
    ensures
        (x & (1u64 << b) != 0) == bit_set(x, b),
{
    assert((x & (1u64 << b) != 0) == bit_set(x, b)) by (bit_vector)
        requires
            b < 64,
    ;
}

/// A word with a bit set is not zero.
pub proof fn lemma_set_bit_nonzero(x: u64, b: u64)
    requires
        b < 64,
        bit_set(x, b),
    ensures
        x != 0,
{
    assert(bit_set(x, b) ==> x != 0) by (bit_vector)
        requires
            b < 64,
    ;
}

/// If no bit at or above `n` is set, shifting right by `n` leaves zero.
proof fn lemma_high_bits_clear(x: u64, n: u64)
    requires
        n < 64,
        forall|b: u64| n <= b < 64 ==> !#[trigger] bit_set(x, b),
    ensures
        x >> n == 0,
    decreases 64 - n,
{
    if n == 63 {
        assert(!bit_set(x, 63u64));
        assert(!bit_set(x, 63u64) ==> x >> 63u64 == 0) by (bit_vector);
    } else {
        let m = (n + 1) as u64;
        lemma_high_bits_clear(x, m);
        assert(!bit_set(x, n));
        assert(x >> m == 0 && !bit_set(x, n) ==> x >> n == 0) by (bit_vector)
            requires
                n < 63,
                m == n + 1,
        ;
    }
}

/// A word with no bit set is zero.
pub proof fn lemma_no_bits_zero(x: u64)
    requires
        forall|b: u64| b < 64 ==> !#[trigger] bit_set(x, b),
    ensures
        x == 0,
{
    lemma_high_bits_clear(x, 0);
    assert(x >> 0u64 == x) by (bit_vector);
}

/// Two words with the same bits are equal.
pub proof fn lemma_same_bits_equal(x: u64, y: u64)
    requires
        forall|b: u64| b < 64 ==> #[trigger] bit_set(x, b) == bit_set(y, b),
    ensures
        x == y,
{
    assert forall|b: u64| b < 64 implies !#[trigger] bit_set(x ^ y, b) by {
        assert(bit_set(x ^ y, b) == (bit_set(x, b) != bit_set(y, b))) by (bit_vector)
            requires
                b < 64,
        ;
    }
    lemma_no_bits_zero(x ^ y);
    assert(x ^ y == 0 ==> x == y) by (bit_vector);
}

} // verus!
