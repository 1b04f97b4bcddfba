//! Candidate sets as increasing lists of ordinals, and their union with a
//! posting list.

use vstd::prelude::*;
use std::collections::VecDeque;
use crate::postings::InvertedIndex;
use crate::scatter::dims_below;
use crate::vector::{distinct_dims, has_dim, SparseVector};

verus! {

/// Strictly increasing from front to back.
pub open spec fn increasing(s: Seq<u64>) -> bool {
    forall|i: int, j: int| 0 <= i < j < s.len() ==> s[i] < s[j]
}

/// Two increasing lists with the same members are the same list.
pub proof fn lemma_increasing_unique(a: Seq<u64>, b: Seq<u64>)
    requires
        increasing(a),
        increasing(b),
        forall|x: u64| a.contains(x) <==> b.contains(x),
    ensures
        a == b,
    decreases a.len(),
{
    if a.len() == 0 {
        if b.len() > 0 {
            assert(b.contains(b[0]));
            assert(a.contains(b[0]));
        }
        assert(a =~= b);
    } else {
        let top = a.last();
        assert(a.contains(top));
        assert(b.contains(top));
        assert(b.len() > 0);
        let m = b.last();
        assert(b.contains(m));
        assert(a.contains(m));
        let ia = choose|i: int| 0 <= i < a.len() && a[i] == m;
        let ib = choose|i: int| 0 <= i < b.len() && b[i] == top;
        assert(m <= top) by {
            if ia < a.len() - 1 {
                assert(a[ia] < a[a.len() - 1]);
            }
        }
        assert(top <= m) by {
            if ib < b.len() - 1 {
                assert(b[ib] < b[b.len() - 1]);
            }
        }
        let fa = a.drop_last();
        let fb = b.drop_last();
        assert forall|x: u64| fa.contains(x) <==> fb.contains(x) by {
            if fa.contains(x) {
                let i = choose|i: int| 0 <= i < fa.len() && fa[i] == x;
                assert(a[i] == x && a[i] < a[a.len() - 1]);
                assert(a.contains(x));
                let j = choose|j: int| 0 <= j < b.len() && b[j] == x;
                assert(j < b.len() - 1);
                assert(fb[j] == x);
            }
            if fb.contains(x) {
                let j = choose|j: int| 0 <= j < fb.len() && fb[j] == x;
                assert(b[j] == x && b[j] < b[b.len() - 1]);
                assert(b.contains(x));
                let i = choose|i: int| 0 <= i < a.len() && a[i] == x;
                assert(i < a.len() - 1);
                assert(fa[i] == x);
            }
        }
        lemma_increasing_unique(fa, fb);
        assert(a =~= fa.push(top));
        assert(b =~= fb.push(m));
    }
}

/// The union of two increasing lists, increasing again: every ordinal of
/// either, once.
pub fn merge(a: &Vec<u64>, q: &VecDeque<u64>) -> (r: Vec<u64>)
    requires
        increasing(a@),
        increasing(q@),
    ensures
        increasing(r@),
        forall|x: u64| r@.contains(x) <==> a@.contains(x) || q@.contains(x),
{
    let mut out: Vec<u64> = Vec::new();
    let mut i: usize = 0;
    let mut j: usize = 0;
    while i < a.len() || j < q.len()
        invariant
            i <= a.len(),
            j <= q.len(),
            increasing(a@),
            increasing(q@),
            increasing(out@),
            forall|k: int| 0 <= k < out.len() && i < a.len() ==> out[k] < a[i as int],
            forall|k: int| 0 <= k < out.len() && j < q.len() ==> out[k] < q@[j as int],
            forall|k: int| 0 <= k < out.len() ==> a@.contains(#[trigger] out[k]) || q@.contains(out[k]),
            forall|k: int| 0 <= k < i ==> out@.contains(#[trigger] a[k]),
            forall|k: int| 0 <= k < j ==> out@.contains(#[trigger] q@[k]),
        decreases a.len() - i + q.len() - j,
    {
        let ghost before = out@;
        let take_left: bool = j >= q.len() || (i < a.len() && a[i] <= q[j]);
        let take_right: bool = i >= a.len() || (j < q.len() && q[j] <= a[i]);
        let x: u64 = if take_left {
            a[i]
        } else {
            q[j]
        };
        out.push(x);
        proof {
            assert(out@.last() == x);
            assert(out@[before.len() as int] == x);
            assert forall|k: int| 0 <= k < before.len() implies out@[k] == before[k] by {}
            assert forall|y: u64| before.contains(y) implies out@.contains(y) by {
                let k = choose|k: int| 0 <= k < before.len() && before[k] == y;
                assert(out@[k] == y);
            }
            if take_left {
                assert(a@.contains(a[i as int]));
            } else {
                assert(q@.contains(q@[j as int]));
            }
        }
        if take_left {
            i += 1;
        }
        if take_right {
            j += 1;
        }
    }
    proof {
        assert forall|x: u64| out@.contains(x) <==> a@.contains(x) || q@.contains(x) by {
            if a@.contains(x) {
                let k = choose|k: int| 0 <= k < a@.len() && a@[k] == x;
                assert(out@.contains(a[k]));
            }
            if q@.contains(x) {
                let k = choose|k: int| 0 <= k < q@.len() && q@[k] == x;
                assert(out@.contains(q@[k]));
            }
            if out@.contains(x) {
                let k = choose|k: int| 0 <= k < out@.len() && out@[k] == x;
                assert(a@.contains(out[k]) || q@.contains(out[k]));
            }
        }
    }
    out
}

/// `x` is in the posting list of one of the first `probes` dimensions of
/// `query`, those before position `upto`.
pub open spec fn reached(index: InvertedIndex, query: Seq<(u32, u64)>, upto: int, probes: usize, x: u64) -> bool {
    exists|j: int|
        0 <= j < upto && j < probes && j < query.len() && #[trigger] index.ordinals(query[j].0).contains(x)
}

/// The candidate generator. Walks the entries of `query` in their order:
/// the posting lists of the first `probes` dimensions go into the result,
/// and `ordinal` goes onto the posting list of every dimension.
pub fn generate(index: &mut InvertedIndex, query: &SparseVector, ordinal: u64, probes: usize) -> (found: Vec<u64>)
    requires
        old(index).wf(),
        dims_below(query@, old(index).limit()),
        distinct_dims(query@),
        forall|d: u32| increasing(#[trigger] old(index).ordinals(d)),
    ensures
        final(index).wf(),
        final(index).limit() == old(index).limit(),
        forall|d: u32| #[trigger]
            final(index).ordinals(d) == if has_dim(query@, d) {
                old(index).ordinals(d).push(ordinal)
            } else {
                old(index).ordinals(d)
            },
        increasing(found@),
        forall|x: u64| found@.contains(x) <==> reached(*old(index), query@, query.len() as int, probes, x),
{
    let mut found: Vec<u64> = Vec::new();
    let mut k: usize = 0;
    while k < query.len()
        invariant
            k <= query.len(),
            index.wf(),
            index.limit() == old(index).limit(),
            dims_below(query@, index.limit()),
            distinct_dims(query@),
            forall|d: u32| increasing(#[trigger] old(index).ordinals(d)),
            forall|d: u32| #[trigger]
                index.ordinals(d) == if has_dim(query@.take(k as int), d) {
                    old(index).ordinals(d).push(ordinal)
                } else {
                    old(index).ordinals(d)
                },
            increasing(found@),
            forall|x: u64| found@.contains(x) <==> reached(*old(index), query@, k as int, probes, x),
        decreases query.len() - k,
    {
        let dim: u32 = query[k].0;
        let ghost before = *index;
        let ghost had = found@;
        let ghost done = query@.take(k as int);
        let ghost more = query@.take(k + 1);
        proof {
            assert(more[k as int] == query@[k as int]);
            if has_dim(done, dim) {
                let j = choose|j: int| 0 <= j < done.len() && (#[trigger] done[j]).0 == dim;
                assert(query@[j] == done[j]);
            }
            assert(!has_dim(done, dim));
            assert(has_dim(more, dim));
            assert(index.ordinals(dim) == old(index).ordinals(dim));
        }
        if k < probes {
            match index.posting(dim) {
                Some(q) => {
                    found = merge(&found, q);
                },
                None => {},
            }
        }
        proof {
            let list = old(index).ordinals(dim);
            assert forall|x: u64| found@.contains(x) <==> reached(*old(index), query@, k + 1, probes, x) by {
                if k < probes {
                    assert(found@.contains(x) <==> had.contains(x) || list.contains(x));
                }
                if reached(*old(index), query@, k as int, probes, x) {
                    let j = choose|j: int|
                        0 <= j < k && j < probes && j < query@.len() && #[trigger] old(index).ordinals(
                            query@[j].0,
                        ).contains(x);
                    assert(0 <= j < k + 1);
                }
                if k < probes && list.contains(x) {
                    assert(old(index).ordinals(query@[k as int].0).contains(x));
                }
                if reached(*old(index), query@, k + 1, probes, x) {
                    let j = choose|j: int|
                        0 <= j < k + 1 && j < probes && j < query@.len() && #[trigger] old(index).ordinals(
                            query@[j].0,
                        ).contains(x);
                    if j < k {
                        assert(reached(*old(index), query@, k as int, probes, x));
                    }
                }
            }
        }
        index.append(dim, ordinal);
        proof {
            assert forall|d: u32| #[trigger]
                index.ordinals(d) == if has_dim(more, d) {
                    old(index).ordinals(d).push(ordinal)
                } else {
                    old(index).ordinals(d)
                } by {
                if d != dim {
                    assert(index.ordinals(d) == before.ordinals(d));
                    if has_dim(done, d) {
                        let j = choose|j: int| 0 <= j < done.len() && (#[trigger] done[j]).0 == d;
                        assert(more[j] == done[j]);
                    }
                    if has_dim(more, d) {
                        let j = choose|j: int| 0 <= j < more.len() && (#[trigger] more[j]).0 == d;
                        assert(done[j] == more[j]);
                    }
                }
            }
        }
        k += 1;
    }
    proof {
        assert(query@.take(k as int) =~= query@);
    }
    found
}

} // verus!
