//! Backward Nondeterministic DAWG Matching (BNDM): bit-parallel search for the
//! first occurrence of a byte pattern, with an optional wildcard byte.

use vstd::prelude::*;

pub mod bits;
pub mod matching;
pub mod table;
pub mod search;

use crate::matching::{fits_at, lone_wildcard, matches_at, search_outcome};
use crate::search::find_pattern_bndm;
use crate::table::{generate_masks, get_pattern_length_within_cpu_word, masks_agree};

verus! {

/// A search context: the pattern, its wildcard, and the mask table built from them.
pub struct BndmConfig {
    /// One mask per byte value: bit `b` is set when that byte may stand at
    /// window position `M - 1 - b`, where `M` is the window length.
    pub masks: [u64; 256],
    /// A byte that, where it occurs in the pattern, matches any input byte.
    pub wildcard: Option<u8>,
    /// The pattern to search for.
    pub pattern: Vec<u8>,
}

impl BndmConfig {
    /// The mask table is the one built from the pattern and the wildcard.
    pub open spec fn wf(&self) -> bool {
        masks_agree(self.masks@, self.pattern@, self.wildcard)
    }

    /// Builds the search context of a pattern and an optional wildcard.
    pub fn new(search_pattern: &[u8], wildcard: Option<u8>) -> (r: BndmConfig)
        ensures
            r.wf(),
            r.pattern@ == search_pattern@,
            r.wildcard == wildcard,
    {
        let len = get_pattern_length_within_cpu_word(search_pattern.len());
        BndmConfig {
            masks: generate_masks(vstd::slice::slice_subrange(search_pattern, 0, len), wildcard),
            wildcard,
            pattern: vstd::slice::slice_to_vec(search_pattern),
        }
    }
}

/// Finds the first occurrence of the context's pattern in `source`.
///
/// An empty pattern is never found. A one-byte pattern that is the wildcard is
/// reported at offset zero whatever `source` holds. Otherwise the result is the
/// smallest offset at which every pattern byte either is the wildcard or equals
/// the input byte under it, or `None` when there is no such offset.
pub fn find_pattern(source: &[u8], config: &BndmConfig) -> (r: Option<usize>)
    requires
        config.wf(),
    ensures
        search_outcome(source@, config.pattern@, config.wildcard, r),
        config.pattern@.len() == 0 ==> r is None,
        lone_wildcard(config.pattern@, config.wildcard) ==> r == Some(0usize),
        config.pattern@.len() > source@.len() && !lone_wildcard(config.pattern@, config.wildcard)
            ==> r is None,
{
    let s = Ghost(source@);
    let p = Ghost(config.pattern@);
    let w = Ghost(config.wildcard);
    match config.pattern.len() {
        0 => None,
        1 => {
            let first = config.pattern[0];
            let wild = match config.wildcard {
                Some(x) => x == first,
                None => false,
            };
            if wild {
                return Some(0);
            }
            let mut idx: usize = 0;
            while idx < source.len()
                invariant
                    s@ == source@,
                    p@ == config.pattern@,
                    w@ == config.wildcard,
                    p@.len() == 1,
                    first == p@[0],
                    !lone_wildcard(p@, w@),
                    idx <= s@.len(),
                    forall|j: int| 0 <= j < idx ==> !#[trigger] matches_at(s@, p@, w@, j),
                decreases s@.len() - idx,
            {
                if source[idx] == first {
                    assert(matches_at(s@, p@, w@, idx as int)) by {
                        assert(fits_at(s@, p@, w@, idx as int, 0));
                    }
                    return Some(idx);
                }
                assert(!matches_at(s@, p@, w@, idx as int)) by {
                    if matches_at(s@, p@, w@, idx as int) {
                        assert(fits_at(s@, p@, w@, idx as int, 0));
                    }
                }
                idx = idx + 1;
            }
            None
        },
        _ => find_pattern_bndm(source, config),
    }
}

} // verus!
