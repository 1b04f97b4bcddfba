//! The neighbor finder: among scored candidates, the closest one under the
//! threshold, the lowest ordinal winning a tie.
//!
//! A distance is the bit pattern of a double that is not negative. Among
//! such patterns the unsigned order is the numeric order, and a pattern that
//! is not a number lies above every threshold up to infinity, so it is never
//! picked.

use vstd::prelude::*;
use crate::vector::{MINUS_ZERO, NEGATIVE_INFINITY, POSITIVE_INFINITY};

verus! {

/// The pattern of a number below zero: the sign bit over a magnitude that
/// is neither zero nor beyond infinity.
pub open spec fn is_negative(bits: u64) -> bool {
    MINUS_ZERO < bits <= NEGATIVE_INFINITY
}

/// The distance that a raw difference stands for: rounding may leave one
/// minus a dot product a little below zero, and such a value counts as zero.
pub open spec fn clamped(bits: u64) -> u64 {
    if is_negative(bits) {
        0
    } else {
        bits
    }
}

/// Clamps a raw difference to a distance: a number below zero becomes zero,
/// every other pattern stays. No distance is below zero.
pub fn clamp_distance(bits: u64) -> (r: u64)
    ensures
        r == clamped(bits),
        !is_negative(r),
        bits <= POSITIVE_INFINITY ==> r == bits,
{
    if bits > MINUS_ZERO && bits <= NEGATIVE_INFINITY {
        0
    } else {
        bits
    }
}

/// Each candidate beside its distance.
pub open spec fn scored(candidates: Seq<u64>, distances: Seq<u64>) -> Seq<(u64, u64)>
    recommends
        candidates.len() == distances.len(),
{
    Seq::new(candidates.len(), |k: int| (candidates[k], distances[k]))
}

/// `a` is at least as good a match as `b`: closer, or as close with an
/// ordinal that is not higher.
pub open spec fn beats(a: (u64, u64), b: (u64, u64)) -> bool {
    a.1 < b.1 || (a.1 == b.1 && a.0 <= b.0)
}

/// `p` is one of `pairs`, lies under the threshold, and no pair under the
/// threshold is better.
pub open spec fn is_nearest(pairs: Seq<(u64, u64)>, threshold: u64, p: (u64, u64)) -> bool {
    &&& pairs.contains(p)
    &&& p.1 < threshold
    &&& forall|k: int| 0 <= k < pairs.len() && (#[trigger] pairs[k]).1 < threshold ==> beats(p, pairs[k])
}

/// No pair lies under the threshold.
pub open spec fn none_within(pairs: Seq<(u64, u64)>, threshold: u64) -> bool {
    forall|k: int| 0 <= k < pairs.len() ==> (#[trigger] pairs[k]).1 >= threshold
}

/// The better of a running best and one more pair.
pub open spec fn keep_better(best: Option<(u64, u64)>, p: (u64, u64), threshold: u64) -> Option<(u64, u64)> {
    if p.1 >= threshold {
        best
    } else {
        match best {
            Some(b) => if beats(b, p) {
                Some(b)
            } else {
                Some(p)
            },
            None => Some(p),
        }
    }
}

/// The nearest pair under the threshold, if there is one.
pub open spec fn nearest_of(pairs: Seq<(u64, u64)>, threshold: u64) -> Option<(u64, u64)>
    decreases pairs.len(),
{
    if pairs.len() == 0 {
        None
    } else {
        keep_better(nearest_of(pairs.drop_last(), threshold), pairs.last(), threshold)
    }
}

/// `nearest_of` picks a nearest pair where one exists, and nothing only
/// where none lies under the threshold.
pub proof fn lemma_nearest_of(pairs: Seq<(u64, u64)>, threshold: u64)
    ensures
        match nearest_of(pairs, threshold) {
            Some(p) => is_nearest(pairs, threshold, p),
            None => none_within(pairs, threshold),
        },
    decreases pairs.len(),
{
    if pairs.len() > 0 {
        let front = pairs.drop_last();
        let last = pairs.last();
        lemma_nearest_of(front, threshold);
        assert forall|k: int| 0 <= k < front.len() implies #[trigger] front[k] == pairs[k] by {}
        match nearest_of(pairs, threshold) {
            Some(p) => {
                if nearest_of(front, threshold) == Some(p) && (last.1 >= threshold || beats(p, last)) {
                    let j = choose|j: int| 0 <= j < front.len() && front[j] == p;
                    assert(pairs[j] == p);
                    assert forall|k: int| 0 <= k < pairs.len() && (#[trigger] pairs[k]).1
                        < threshold implies beats(p, pairs[k]) by {
                        if k < front.len() {
                            assert(front[k] == pairs[k]);
                        }
                    }
                } else {
                    assert(p == last);
                    assert(pairs[pairs.len() - 1] == p);
                    assert forall|k: int| 0 <= k < pairs.len() && (#[trigger] pairs[k]).1
                        < threshold implies beats(p, pairs[k]) by {
                        if k < front.len() {
                            assert(front[k] == pairs[k]);
                            match nearest_of(front, threshold) {
                                Some(b) => {
                                    assert(beats(b, front[k]));
                                },
                                None => {},
                            }
                        }
                    }
                }
            },
            None => {
                assert forall|k: int| 0 <= k < pairs.len() implies (#[trigger] pairs[k]).1 >= threshold by {
                    if k < front.len() {
                        assert(front[k] == pairs[k]);
                    }
                }
            },
        }
    }
}

/// At most one pair is nearest.
pub proof fn lemma_nearest_unique(pairs: Seq<(u64, u64)>, threshold: u64, p: (u64, u64), q: (u64, u64))
    requires
        is_nearest(pairs, threshold, p),
        is_nearest(pairs, threshold, q),
    ensures
        p == q,
{
    let i = choose|i: int| 0 <= i < pairs.len() && pairs[i] == p;
    let j = choose|j: int| 0 <= j < pairs.len() && pairs[j] == q;
    assert(beats(p, pairs[j]));
    assert(beats(q, pairs[i]));
}

/// The choice does not depend on the order in which the pairs come, nor on
/// how often one comes: two sequences with the same members give the same
/// answer.
pub proof fn lemma_nearest_order_free(a: Seq<(u64, u64)>, b: Seq<(u64, u64)>, threshold: u64)
    requires
        forall|p: (u64, u64)| a.contains(p) <==> b.contains(p),
    ensures
        nearest_of(a, threshold) == nearest_of(b, threshold),
{
    lemma_nearest_of(a, threshold);
    lemma_nearest_of(b, threshold);
    match nearest_of(a, threshold) {
        Some(p) => {
            assert(b.contains(p));
            match nearest_of(b, threshold) {
                Some(q) => {
                    assert(a.contains(q));
                    assert forall|k: int| 0 <= k < a.len() && (#[trigger] a[k]).1 < threshold implies beats(
                        q,
                        a[k],
                    ) by {
                        assert(b.contains(a[k]));
                        let j = choose|j: int| 0 <= j < b.len() && b[j] == a[k];
                        assert(beats(q, b[j]));
                    }
                    lemma_nearest_unique(a, threshold, p, q);
                },
                None => {
                    let j = choose|j: int| 0 <= j < b.len() && b[j] == p;
                    assert(b[j].1 >= threshold);
                },
            }
        },
        None => {
            match nearest_of(b, threshold) {
                Some(q) => {
                    assert(a.contains(q));
                    let j = choose|j: int| 0 <= j < a.len() && a[j] == q;
                    assert(a[j].1 >= threshold);
                },
                None => {},
            }
        },
    }
}

/// Picks the nearest candidate under the threshold. `distances[k]` is the
/// distance of `candidates[k]`.
pub fn nearest(candidates: &Vec<u64>, distances: &Vec<u64>, threshold: u64) -> (r: Option<(u64, u64)>)
    requires
        candidates.len() == distances.len(),
    ensures
        r == nearest_of(scored(candidates@, distances@), threshold),
        match r {
            Some(p) => is_nearest(scored(candidates@, distances@), threshold, p),
            None => none_within(scored(candidates@, distances@), threshold),
        },
{
    let ghost pairs = scored(candidates@, distances@);
    let mut best: Option<(u64, u64)> = None;
    let mut k: usize = 0;
    while k < candidates.len()
        invariant
            k <= candidates.len(),
            candidates.len() == distances.len(),
            pairs == scored(candidates@, distances@),
            best == nearest_of(pairs.take(k as int), threshold),
        decreases candidates.len() - k,
    {
        let p = (candidates[k], distances[k]);
        proof {
            let next = pairs.take(k + 1);
            assert(next.drop_last() =~= pairs.take(k as int));
            assert(next.last() == p);
        }
        if p.1 < threshold {
            best = match best {
                Some(b) => if b.1 < p.1 || (b.1 == p.1 && b.0 <= p.0) {
                    Some(b)
                } else {
                    Some(p)
                },
                None => Some(p),
            };
        }
        k += 1;
    }
    proof {
        assert(pairs.take(k as int) =~= pairs);
        lemma_nearest_of(pairs, threshold);
    }
    best
}

} // verus!
