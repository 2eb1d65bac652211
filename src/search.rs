//! The search automaton: scans windows right to left with a bit-parallel state,
//! then checks pattern bytes beyond the first word literally.

use vstd::prelude::*;
use crate::BndmConfig;
use crate::bits::{
    bit_set,
    lemma_and_single,
    lemma_no_bits_zero,
    lemma_set_bit_nonzero,
    lemma_shift_and,
    WORD_BITS,
};
use crate::matching::{fits, fits_at, is_first_match, matches_at, no_match, range_fits};
use crate::table::{get_pattern_length_within_cpu_word, mask_has, masks_agree, window};

verus! {

/// Bit `b` of the automaton state for window `i` once the input bytes
/// `i + k .. i + M` have been read: aligned so that the byte at `i + k` meets
/// pattern position `M - 1 - b`, all bytes read agree with the pattern.
pub open spec fn state_bit(s: Seq<u8>, p: Seq<u8>, w: Option<u8>, i: int, k: int, b: int) -> bool {
    let m = window(p.len());
    &&& m - k - 1 <= b < m
    &&& range_fits(s, p, w, i + k - (m - 1 - b), m - 1 - b, 2 * m - 1 - b - k)
}

/// `d` is the automaton state for window `i` after reading from `i + k` on.
pub open spec fn state_is(d: u64, s: Seq<u8>, p: Seq<u8>, w: Option<u8>, i: int, k: int) -> bool {
    forall|b: u64| b < 64 ==> #[trigger] bit_set(d, b) == state_bit(s, p, w, i, k, b as int)
}

proof fn lemma_range_split(s: Seq<u8>, p: Seq<u8>, w: Option<u8>, a: int, lo: int, hi: int)
    requires
        lo < hi,
    ensures
        range_fits(s, p, w, a, lo, hi) == (fits_at(s, p, w, a, lo) && range_fits(
            s,
            p,
            w,
            a,
            lo + 1,
            hi,
        )),
{
}

proof fn lemma_first_read(s: Seq<u8>, p: Seq<u8>, w: Option<u8>, masks: Seq<u64>, i: int)
    requires
        masks_agree(masks, p, w),
        window(p.len()) >= 1,
        0 <= i,
        i + window(p.len()) <= s.len(),
    ensures
        state_is(masks[s[i + window(p.len()) - 1] as int], s, p, w, i, window(p.len()) - 1),
{
    let m = window(p.len());
    let c = s[i + m - 1];
    assert forall|b: u64| b < 64 implies #[trigger] bit_set(masks[c as int], b) == state_bit(
        s,
        p,
        w,
        i,
        m - 1,
        b as int,
    ) by {
        assert(bit_set(masks[c as int], b) == mask_has(p, w, c, b as int));
        if b < m {
            let lo = m - 1 - b;
            lemma_range_split(s, p, w, i + b, lo, lo + 1);
            assert(fits_at(s, p, w, i + b, lo) == fits(p, w, lo, c));
        }
    }
}

proof fn lemma_step(s: Seq<u8>, p: Seq<u8>, w: Option<u8>, masks: Seq<u64>, i: int, k: int, d: u64)
    requires
        masks_agree(masks, p, w),
        0 <= k,
        k + 1 < window(p.len()),
        0 <= i,
        i + window(p.len()) <= s.len(),
        state_is(d, s, p, w, i, k + 1),
    ensures
        state_is((d << 1u64) & masks[s[i + k] as int], s, p, w, i, k),
{
    let m = window(p.len());
    let c = s[i + k];
    let mv = masks[c as int];
    assert forall|b: u64| b < 64 implies #[trigger] bit_set((d << 1u64) & mv, b) == state_bit(
        s,
        p,
        w,
        i,
        k,
        b as int,
    ) by {
        lemma_shift_and(d, mv, b);
        if b > 0 {
            let b1 = (b - 1) as u64;
            assert(bit_set(d, b1) == state_bit(s, p, w, i, k + 1, b1 as int));
            assert(bit_set(mv, b) == mask_has(p, w, c, b as int));
            if m - k - 1 <= b < m {
                let a = i + k - (m - 1 - b);
                lemma_range_split(s, p, w, a, m - 1 - b, 2 * m - 1 - b - k);
                assert(fits_at(s, p, w, a, m - 1 - b) == fits(p, w, m - 1 - b, c));
            }
        }
    }
}

/// While a prefix of the pattern sits at `i + sp`, the state keeps a bit for it.
proof fn lemma_prefix_keeps_state(
    s: Seq<u8>,
    p: Seq<u8>,
    w: Option<u8>,
    i: int,
    k: int,
    sp: int,
    d: u64,
)
    requires
        state_is(d, s, p, w, i, k),
        0 <= sp <= k,
        k < window(p.len()),
        range_fits(s, p, w, i + sp, 0, window(p.len()) - sp),
    ensures
        d != 0,
{
    let m = window(p.len());
    let b = (sp + m - k - 1) as u64;
    assert(bit_set(d, b) == state_bit(s, p, w, i, k, b as int));
    assert(range_fits(s, p, w, i + sp, k - sp, m - sp));
    lemma_set_bit_nonzero(d, b);
}

/// Once the whole window is read, the top window bit is the only one left.
proof fn lemma_window_done(s: Seq<u8>, p: Seq<u8>, w: Option<u8>, i: int, d: u64)
    requires
        state_is(d, s, p, w, i, 0),
        window(p.len()) >= 1,
        d != 0,
    ensures
        bit_set(d, (window(p.len()) - 1) as u64),
{
    let top = (window(p.len()) - 1) as u64;
    if !bit_set(d, top) {
        assert forall|b: u64| b < 64 implies !#[trigger] bit_set(d, b) by {
            assert(bit_set(d, b) == state_bit(s, p, w, i, 0, b as int));
        }
        lemma_no_bits_zero(d);
    }
}

/// Past a fully read window, one more step always empties the state.
proof fn lemma_after_window(s: Seq<u8>, p: Seq<u8>, w: Option<u8>, i: int, d: u64, mv: u64, c: u8)
    requires
        state_is(d, s, p, w, i, 0),
        forall|b: u64| b < 64 ==> #[trigger] bit_set(mv, b) == mask_has(p, w, c, b as int),
    ensures
        (d << 1u64) & mv == 0,
{
    let e = (d << 1u64) & mv;
    assert forall|b: u64| b < 64 implies !#[trigger] bit_set(e, b) by {
        lemma_shift_and(d, mv, b);
        assert(bit_set(mv, b) == mask_has(p, w, c, b as int));
        if b > 0 {
            let b1 = (b - 1) as u64;
            assert(bit_set(d, b1) == state_bit(s, p, w, i, 0, b1 as int));
        }
    }
    lemma_no_bits_zero(e);
}

/// The mask of the input byte at `index`.
fn get_mask(source: &[u8], config: &BndmConfig, index: usize) -> (r: u64)
    requires
        index < source@.len(),
    ensures
        r == config.masks@[source@[index as int] as int],
{
    config.masks[source[index] as usize]
}

/// Checks the pattern bytes past the first word against the input, with the
/// pattern aligned at `offset`; wildcard bytes always agree.
fn find_remaining(source: &[u8], config: &BndmConfig, offset: usize) -> (r: bool)
    requires
        config.pattern@.len() <= 64 || offset + config.pattern@.len() <= source@.len(),
    ensures
        r == range_fits(source@, config.pattern@, config.wildcard, offset as int, 64, config.pattern@.len() as int),
{
    let s = Ghost(source@);
    let p = Ghost(config.pattern@);
    let w = config.wildcard;
    let n = config.pattern.len();
    let source_len = source.len();
    let mut k: usize = WORD_BITS;
    while k < n
        invariant
            source_len == s@.len(),
            s@ == source@,
            p@ == config.pattern@,
            w == config.wildcard,
            n == p@.len(),
            n <= 64 || offset + n <= s@.len(),
            64 <= k,
            k == 64 || k <= n,
            range_fits(s@, p@, w, offset as int, 64, k as int),
        decreases n - k,
    {
        let pattern_byte = config.pattern[k];
        let wild = match w {
            Some(x) => pattern_byte == x,
            None => false,
        };
        if !(source[offset + k] == pattern_byte || wild) {
            assert(!fits_at(s@, p@, w, offset as int, k as int));
            return false;
        }
        assert(fits_at(s@, p@, w, offset as int, k as int));
        k = k + 1;
    }
    true
}

/// The automaton search, for patterns of at least two bytes.
pub fn find_pattern_bndm(source: &[u8], config: &BndmConfig) -> (r: Option<usize>)
    requires
        config.wf(),
        config.pattern@.len() >= 2,
    ensures
        match r {
            Some(i) => is_first_match(source@, config.pattern@, config.wildcard, i as int),
            None => no_match(source@, config.pattern@, config.wildcard),
        },
        config.pattern@.len() > source@.len() ==> r is None,
{
    let s = Ghost(source@);
    let p = Ghost(config.pattern@);
    let w = Ghost(config.wildcard);
    let masks = Ghost(config.masks@);
    if config.pattern.len() > source.len() {
        return None;
    }
    let m = get_pattern_length_within_cpu_word(config.pattern.len());
    let len = m - 1;
    let end = source.len() - config.pattern.len();
    let df: u64 = 1u64 << (len as u64);
    let source_len = source.len();
    let mut i: usize = 0;
    while i <= end
        invariant
            source_len == s@.len(),
            s@ == source@,
            p@ == config.pattern@,
            w@ == config.wildcard,
            masks@ == config.masks@,
            masks_agree(masks@, p@, w@),
            p@.len() >= 2,
            m == window(p@.len()),
            len + 1 == m,
            end + p@.len() == s@.len(),
            df == 1u64 << (len as u64),
            i <= s@.len(),
            forall|j: int| 0 <= j < i ==> !#[trigger] matches_at(s@, p@, w@, j),
        decreases s@.len() - i,
    {
        let mut j: usize = len;
        let mut last: usize = len;
        let mut d = get_mask(source, config, i + j);
        proof {
            lemma_first_read(s@, p@, w@, masks@, i as int);
            lemma_step(s@, p@, w@, masks@, i as int, len - 1, d);
        }
        d = (d << 1u64) & get_mask(source, config, i + j - 1);
        let ghost mut failed = false;
        while d != 0
            invariant
                source_len == s@.len(),
                s@ == source@,
                p@ == config.pattern@,
                w@ == config.wildcard,
                masks@ == config.masks@,
                masks_agree(masks@, p@, w@),
                p@.len() >= 2,
                m == window(p@.len()),
                len + 1 == m,
                end + p@.len() == s@.len(),
                df == 1u64 << (len as u64),
                i <= end,
                forall|j: int| 0 <= j < i ==> !#[trigger] matches_at(s@, p@, w@, j),
                1 <= j <= len,
                1 <= last <= len,
                !failed ==> state_is(d, s@, p@, w@, i as int, j - 1),
                failed ==> d == 0 && last == 1 && !matches_at(s@, p@, w@, i as int),
                forall|sp: int|
                    j <= sp <= len && #[trigger] range_fits(s@, p@, w@, i + sp, 0, m - sp)
                        ==> last <= sp,
            decreases j + if d != 0 {
                1int
            } else {
                0int
            },
        {
            j -= 1;
            proof {
                lemma_and_single(d, len as u64);
                assert(bit_set(d, len as u64) == state_bit(s@, p@, w@, i as int, j as int, len as int));
                if j == 0 {
                    lemma_window_done(s@, p@, w@, i as int, d);
                }
            }
            if d & df != 0 {
                if j == 0 {
                    assert(range_fits(s@, p@, w@, i as int, 0, m as int));
                    if find_remaining(source, config, i) {
                        assert(matches_at(s@, p@, w@, i as int)) by {
                            assert forall|k: int| 0 <= k < p@.len() implies #[trigger] fits_at(
                                s@,
                                p@,
                                w@,
                                i as int,
                                k,
                            ) by {
                                if k < m {
                                    assert(range_fits(s@, p@, w@, i as int, 0, m as int));
                                } else {
                                    assert(range_fits(s@, p@, w@, i as int, 64, p@.len() as int));
                                }
                            }
                        }
                        return Some(i);
                    }
                    assert(!matches_at(s@, p@, w@, i as int)) by {
                        if matches_at(s@, p@, w@, i as int) {
                            assert forall|k: int| 64 <= k < p@.len() implies #[trigger] fits_at(
                                s@,
                                p@,
                                w@,
                                i as int,
                                k,
                            ) by {}
                        }
                    }
                    proof {
                        let c = s@[i as int];
                        assert forall|b: u64| b < 64 implies #[trigger] bit_set(masks@[c as int], b)
                            == mask_has(p@, w@, c, b as int) by {}
                        lemma_after_window(s@, p@, w@, i as int, d, masks@[c as int], c);
                    }
                    j += 1;
                    proof {
                        failed = true;
                    }
                }
                last = j;
            }
            proof {
                if !failed {
                    lemma_step(s@, p@, w@, masks@, i as int, j - 1, d);
                }
            }
            d = (d << 1u64) & get_mask(source, config, i + j - 1);
        }
        proof {
            assert forall|j0: int| 0 <= j0 < i + last implies !#[trigger] matches_at(
                s@,
                p@,
                w@,
                j0,
            ) by {
                if i <= j0 && matches_at(s@, p@, w@, j0) {
                    let sp = j0 - i;
                    assert(range_fits(s@, p@, w@, i + sp, 0, m - sp)) by {
                        assert forall|k: int| 0 <= k < m - sp implies #[trigger] fits_at(
                            s@,
                            p@,
                            w@,
                            i + sp,
                            k,
                        ) by {
                            assert(fits_at(s@, p@, w@, j0, k));
                        }
                    }
                    if !failed && sp < j {
                        lemma_prefix_keeps_state(s@, p@, w@, i as int, j - 1, sp, d);
                    }
                }
            }
        }
        i += last;
    }
    None
}

} // verus!
