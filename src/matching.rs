//! The meaning of a match: what a search must return, stated over sequences.

use vstd::prelude::*;

verus! {

/// `b` is the designated wildcard byte.
pub open spec fn is_wild(b: u8, w: Option<u8>) -> bool {
    w == Some(b)
}

/// Input byte `c` may stand at pattern position `q`.
pub open spec fn fits(p: Seq<u8>, w: Option<u8>, q: int, c: u8) -> bool {
    p[q] == c || is_wild(p[q], w)
}

/// With the pattern aligned at input offset `a`, pattern position `k` agrees with the input.
pub open spec fn fits_at(s: Seq<u8>, p: Seq<u8>, w: Option<u8>, a: int, k: int) -> bool {
    fits(p, w, k, s[a + k])
}

/// With the pattern aligned at input offset `a`, every position in `lo..hi` agrees.
pub open spec fn range_fits(s: Seq<u8>, p: Seq<u8>, w: Option<u8>, a: int, lo: int, hi: int) -> bool {
    forall|k: int| lo <= k < hi ==> #[trigger] fits_at(s, p, w, a, k)
}

/// The whole pattern occurs in `s` at offset `i`.
pub open spec fn matches_at(s: Seq<u8>, p: Seq<u8>, w: Option<u8>, i: int) -> bool {
    &&& 0 <= i
    &&& i + p.len() <= s.len()
    &&& range_fits(s, p, w, i, 0, p.len() as int)
}

/// `i` is the leftmost offset at which the pattern occurs.
pub open spec fn is_first_match(s: Seq<u8>, p: Seq<u8>, w: Option<u8>, i: int) -> bool {
    &&& matches_at(s, p, w, i)
    &&& forall|j: int| 0 <= j < i ==> !#[trigger] matches_at(s, p, w, j)
}

/// The pattern occurs nowhere in `s`.
pub open spec fn no_match(s: Seq<u8>, p: Seq<u8>, w: Option<u8>) -> bool {
    forall|j: int| !#[trigger] matches_at(s, p, w, j)
}

/// A one-byte pattern that is the wildcard itself: reported at offset zero
/// whatever the input holds, even when it is empty.
pub open spec fn lone_wildcard(p: Seq<u8>, w: Option<u8>) -> bool {
    p.len() == 1 && is_wild(p[0], w)
}

/// What a search of `s` for `p` returns: nothing for an empty pattern, zero for
/// a lone wildcard, and otherwise the leftmost match if there is one.
pub open spec fn search_outcome(s: Seq<u8>, p: Seq<u8>, w: Option<u8>, r: Option<usize>) -> bool {
    if p.len() == 0 {
        r is None
    } else if lone_wildcard(p, w) {
        r == Some(0usize)
    } else {
        match r {
            Some(i) => is_first_match(s, p, w, i as int),
            None => no_match(s, p, w),
        }
    }
}

/// Without wildcard bytes in the pattern, an occurrence is exact equality of
/// the input's slice at that offset with the pattern.
pub proof fn lemma_wildcard_free_match_is_equality(s: Seq<u8>, p: Seq<u8>, w: Option<u8>, i: int)
    requires
        forall|k: int| 0 <= k < p.len() ==> !is_wild(#[trigger] p[k], w),
    ensures
        matches_at(s, p, w, i) <==> (0 <= i && i + p.len() <= s.len() && s.subrange(
            i,
            i + p.len(),
        ) == p),
{
    if matches_at(s, p, w, i) {
        assert forall|k: int| 0 <= k < p.len() implies s.subrange(i, i + p.len())[k] == p[k] by {
            assert(fits_at(s, p, w, i, k));
        }
        assert(s.subrange(i, i + p.len()) =~= p);
    }
    if 0 <= i && i + p.len() <= s.len() && s.subrange(i, i + p.len()) == p {
        assert forall|k: int| 0 <= k < p.len() implies #[trigger] fits_at(s, p, w, i, k) by {
            assert(s.subrange(i, i + p.len())[k] == p[k]);
        }
    }
}

/// A search has one possible result: two results that both meet the
/// description are the same.
pub proof fn lemma_search_outcome_unique(
    s: Seq<u8>,
    p: Seq<u8>,
    w: Option<u8>,
    r1: Option<usize>,
    r2: Option<usize>,
)
    requires
        search_outcome(s, p, w, r1),
        search_outcome(s, p, w, r2),
    ensures
        r1 == r2,
{
    if p.len() > 0 && !lone_wildcard(p, w) {
        match (r1, r2) {
            (Some(a), Some(b)) => {
                assert(!matches_at(s, p, w, a as int) || !(b < a));
                assert(!matches_at(s, p, w, b as int) || !(a < b));
            },
            (Some(a), None) => {
                assert(matches_at(s, p, w, a as int));
            },
            (None, Some(b)) => {
                assert(matches_at(s, p, w, b as int));
            },
            (None, None) => {},
        }
    }
}

} // verus!
