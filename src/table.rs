//! The mask table: for each byte value, the window positions it may occupy.

use vstd::prelude::*;
use crate::bits::{bit_set, lemma_or_single, lemma_same_bits_equal, lemma_shift_or_flag, WORD_BITS};
use crate::matching::{fits, is_wild};

verus! {

/// Number of leading pattern bytes that are encoded in masks.
pub open spec fn window(n: nat) -> int {
    if n < 64 {
        n as int
    } else {
        64
    }
}

/// Bit `b` of the mask of byte `c`: `c` may stand at window position `M - 1 - b`.
pub open spec fn mask_has(p: Seq<u8>, w: Option<u8>, c: u8, b: int) -> bool {
    let m = window(p.len());
    0 <= b < m && fits(p, w, m - 1 - b, c)
}

/// `masks` is the mask table of pattern `p` with wildcard `w`.
pub open spec fn masks_agree(masks: Seq<u64>, p: Seq<u8>, w: Option<u8>) -> bool {
    &&& masks.len() == 256
    &&& forall|c: u8, b: u64|
        b < 64 ==> #[trigger] bit_set(masks[c as int], b) == mask_has(p, w, c, b as int)
}

/// Length of the part of a pattern of length `n` that masks encode.
pub fn get_pattern_length_within_cpu_word(n: usize) -> (r: usize)
    ensures
        r == window(n as nat),
{
    if n < WORD_BITS {
        n
    } else {
        WORD_BITS
    }
}

/// The mask that every byte value starts from: one bit per wildcard position.
pub fn calculate_wildcard_mask(search_pattern: &[u8], wildcard: Option<u8>) -> (r: u64)
    requires
        search_pattern@.len() <= 64,
    ensures
        forall|b: u64|
            b < 64 ==> #[trigger] bit_set(r, b) == (b < search_pattern@.len() && is_wild(
                search_pattern@[search_pattern@.len() - 1 - b],
                wildcard,
            )),
{
    let p = Ghost(search_pattern@);
    let n = search_pattern.len();
    let mut mask: u64 = 0;
    assert forall|b: u64| b < 64 implies !#[trigger] bit_set(mask, b) by {
        assert(bit_set(0u64, b) == false) by (bit_vector);
    }
    if let Some(w) = wildcard {
        let mut k: usize = 0;
        while k < n
            invariant
                n == p@.len() <= 64,
                p@ == search_pattern@,
                wildcard == Some(w),
                k <= n,
                forall|b: u64|
                    b < 64 ==> #[trigger] bit_set(mask, b) == (b < k && is_wild(
                        p@[k - 1 - b],
                        wildcard,
                    )),
            decreases n - k,
        {
            let e: u64 = if search_pattern[k] == w {
                1
            } else {
                0
            };
            let next = (mask << 1u64) | e;
            assert forall|b: u64| b < 64 implies #[trigger] bit_set(next, b) == (b < k + 1
                && is_wild(p@[k + 1 - 1 - b], wildcard)) by {
                lemma_shift_or_flag(mask, e, b);
                if b > 0 {
                    assert(bit_set(mask, (b - 1) as u64) == ((b - 1) < k && is_wild(
                        p@[k - 1 - (b - 1)],
                        wildcard,
                    )));
                }
            }
            mask = next;
            k = k + 1;
        }
    }
    mask
}

/// Builds the mask table of a pattern that fits in one word.
pub fn generate_masks(search_pattern: &[u8], wildcard: Option<u8>) -> (r: [u64; 256])
    requires
        search_pattern@.len() <= 64,
    ensures
        masks_agree(r@, search_pattern@, wildcard),
{
    let p = Ghost(search_pattern@);
    let n = search_pattern.len();
    let default_mask = calculate_wildcard_mask(search_pattern, wildcard);
    let mut masks = [default_mask; 256];
    let mut i: usize = 0;
    while i < n
        invariant
            n == p@.len() <= 64,
            p@ == search_pattern@,
            i <= n,
            masks@.len() == 256,
            forall|c: u8, b: u64|
                b < 64 ==> #[trigger] bit_set(masks@[c as int], b) == (b < n && (is_wild(
                    p@[n - 1 - b],
                    wildcard,
                ) || (b < i && p@[n - 1 - b] == c))),
        decreases n - i,
    {
        let pattern_byte = search_pattern[n - 1 - i];
        let old_masks = Ghost(masks@);
        let idx = pattern_byte as usize;
        masks[idx] = masks[idx] | (1u64 << (i as u64));
        assert forall|c: u8, b: u64| b < 64 implies #[trigger] bit_set(masks@[c as int], b) == (b
            < n && (is_wild(p@[n - 1 - b], wildcard) || (b < i + 1 && p@[n - 1 - b] == c))) by {
            assert(bit_set(old_masks@[c as int], b) == (b < n && (is_wild(p@[n - 1 - b], wildcard)
                || (b < i && p@[n - 1 - b] == c))));
            if c == pattern_byte {
                lemma_or_single(old_masks@[c as int], i as u64, b);
            }
        }
        i = i + 1;
    }
    assert forall|c: u8, b: u64| b < 64 implies #[trigger] bit_set(masks@[c as int], b)
        == mask_has(p@, wildcard, c, b as int) by {
        assert(bit_set(masks@[c as int], b) == (b < n && (is_wild(p@[n - 1 - b], wildcard) || (b
            < n && p@[n - 1 - b] == c))));
    }
    masks
}

/// A pattern and a wildcard determine their mask table: two tables that both
/// agree with them are equal.
pub proof fn lemma_masks_unique(m1: Seq<u64>, m2: Seq<u64>, p: Seq<u8>, w: Option<u8>)
    requires
        masks_agree(m1, p, w),
        masks_agree(m2, p, w),
    ensures
        m1 == m2,
{
    assert forall|i: int| 0 <= i < 256 implies m1[i] == m2[i] by {
        let c = i as u8;
        assert forall|b: u64| b < 64 implies #[trigger] bit_set(m1[i], b) == bit_set(m2[i], b) by {
            assert(bit_set(m1[c as int], b) == mask_has(p, w, c, b as int));
            assert(bit_set(m2[c as int], b) == mask_has(p, w, c, b as int));
        }
        lemma_same_bits_equal(m1[i], m2[i]);
    }
    assert(m1 =~= m2);
}

} // verus!
