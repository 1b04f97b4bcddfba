//! The window as mathematics: which ordinals a dimension's posting list
//! holds, which ordinals are candidates for a query, and how the window
//! moves when a vector arrives.
//!
//! A window is the sequence of live vectors, oldest first, beside the
//! ordinal `base` of its first element.

use vstd::prelude::*;
use crate::vector::has_dim;
use crate::candidates::increasing;

verus! {

/// The ordinals of the vectors of `window` that hold `d`, in arrival order.
pub open spec fn occurrences(window: Seq<Seq<(u32, u64)>>, base: nat, d: u32) -> Seq<u64>
    decreases window.len(),
{
    if window.len() == 0 {
        Seq::<u64>::empty()
    } else {
        let earlier = occurrences(window.drop_last(), base, d);
        if has_dim(window.last(), d) {
            earlier.push((base + window.len() - 1) as u64)
        } else {
            earlier
        }
    }
}

/// How many vectors of `window` hold `d`.
pub open spec fn holders(window: Seq<Seq<(u32, u64)>>, d: u32) -> nat
    decreases window.len(),
{
    if window.len() == 0 {
        0
    } else if has_dim(window.last(), d) {
        holders(window.drop_last(), d) + 1
    } else {
        holders(window.drop_last(), d)
    }
}

/// `c` is a candidate for `query`: a live ordinal whose vector holds one of
/// the first `probes` dimensions of the query.
pub open spec fn is_candidate(
    window: Seq<Seq<(u32, u64)>>,
    base: nat,
    query: Seq<(u32, u64)>,
    probes: usize,
    c: u64,
) -> bool {
    &&& base <= c < base + window.len()
    &&& exists|k: int| 0 <= k < query.len() && k < probes && has_dim(window[c - base], (#[trigger] query[k]).0)
}

/// The window after `v` arrived: `v` joins at the tail, and the oldest
/// vector leaves where that makes more than `capacity`.
pub open spec fn slide(window: Seq<Seq<(u32, u64)>>, v: Seq<(u32, u64)>, capacity: usize) -> Seq<Seq<(u32, u64)>> {
    if window.len() + 1 > capacity {
        window.push(v).drop_first()
    } else {
        window.push(v)
    }
}

/// How many vectors leave when one arrives: one or none.
pub open spec fn leaving(window: Seq<Seq<(u32, u64)>>, capacity: usize) -> nat {
    if window.len() + 1 > capacity {
        1
    } else {
        0
    }
}

/// The window after all of `inputs` arrived, one by one, at an empty window.
pub open spec fn window_after(inputs: Seq<Seq<(u32, u64)>>, capacity: usize) -> Seq<Seq<(u32, u64)>>
    decreases inputs.len(),
{
    if inputs.len() == 0 {
        Seq::<Seq<(u32, u64)>>::empty()
    } else {
        slide(window_after(inputs.drop_last(), capacity), inputs.last(), capacity)
    }
}

/// How many vectors have left after all of `inputs` arrived.
pub open spec fn evictions_after(inputs: Seq<Seq<(u32, u64)>>, capacity: usize) -> nat
    decreases inputs.len(),
{
    if inputs.len() == 0 {
        0
    } else {
        evictions_after(inputs.drop_last(), capacity) + leaving(
            window_after(inputs.drop_last(), capacity),
            capacity,
        )
    }
}

/// The members of a posting list are the live ordinals whose vector holds
/// the dimension.
pub proof fn lemma_occurrences_members(window: Seq<Seq<(u32, u64)>>, base: nat, d: u32, c: u64)
    requires
        base + window.len() <= u64::MAX + 1,
    ensures
        occurrences(window, base, d).contains(c) <==> base <= c < base + window.len() && has_dim(
            window[c - base],
            d,
        ),
    decreases window.len(),
{
    if window.len() > 0 {
        let front = window.drop_last();
        let earlier = occurrences(front, base, d);
        let top = (base + window.len() - 1) as u64;
        lemma_occurrences_members(front, base, d, c);
        if base <= c < base + front.len() {
            assert(front[c - base] == window[c - base]);
        }
        if has_dim(window.last(), d) {
            let all = earlier.push(top);
            assert(all[earlier.len() as int] == top);
            if earlier.contains(c) {
                let i = choose|i: int| 0 <= i < earlier.len() && earlier[i] == c;
                assert(all[i] == c);
            }
            if all.contains(c) && c != top {
                let i = choose|i: int| 0 <= i < all.len() && all[i] == c;
                assert(earlier[i] == c);
            }
        }
    }
}

/// A posting list is strictly increasing.
pub proof fn lemma_occurrences_increasing(window: Seq<Seq<(u32, u64)>>, base: nat, d: u32)
    requires
        base + window.len() <= u64::MAX + 1,
    ensures
        increasing(occurrences(window, base, d)),
    decreases window.len(),
{
    if window.len() > 0 {
        let front = window.drop_last();
        let earlier = occurrences(front, base, d);
        lemma_occurrences_increasing(front, base, d);
        if has_dim(window.last(), d) {
            let top = (base + window.len() - 1) as u64;
            let all = earlier.push(top);
            assert forall|i: int, j: int| 0 <= i < j < all.len() implies all[i] < all[j] by {
                if j == earlier.len() {
                    assert(earlier.contains(earlier[i]));
                    lemma_occurrences_members(front, base, d, earlier[i]);
                }
            }
        }
    }
}

/// A posting list is as long as the number of live vectors that hold the
/// dimension.
pub proof fn lemma_occurrences_count(window: Seq<Seq<(u32, u64)>>, base: nat, d: u32)
    ensures
        occurrences(window, base, d).len() == holders(window, d),
    decreases window.len(),
{
    if window.len() > 0 {
        lemma_occurrences_count(window.drop_last(), base, d);
    }
}

/// No more vectors hold a dimension than there are vectors.
pub proof fn lemma_holders_bound(window: Seq<Seq<(u32, u64)>>, d: u32)
    ensures
        holders(window, d) <= window.len(),
    decreases window.len(),
{
    if window.len() > 0 {
        lemma_holders_bound(window.drop_last(), d);
    }
}

/// Holders add up over two stretches of a stream.
pub proof fn lemma_holders_concat(a: Seq<Seq<(u32, u64)>>, b: Seq<Seq<(u32, u64)>>, d: u32)
    ensures
        holders(a + b, d) == holders(a, d) + holders(b, d),
    decreases b.len(),
{
    if b.len() == 0 {
        assert(a + b =~= a);
    } else {
        assert((a + b).drop_last() =~= a + b.drop_last());
        assert((a + b).last() == b.last());
        lemma_holders_concat(a, b.drop_last(), d);
    }
}

/// The head of a posting list is the oldest live vector's ordinal exactly
/// when that vector holds the dimension; the rest is the posting list of
/// the window without it.
pub proof fn lemma_occurrences_front(window: Seq<Seq<(u32, u64)>>, base: nat, d: u32)
    requires
        window.len() > 0,
    ensures
        occurrences(window, base, d) == if has_dim(window[0], d) {
            seq![base as u64] + occurrences(window.drop_first(), base + 1, d)
        } else {
            occurrences(window.drop_first(), base + 1, d)
        },
    decreases window.len(),
{
    let front = window.drop_last();
    let rest = window.drop_first();
    if window.len() == 1 {
        assert(front.len() == 0);
        assert(rest.len() == 0);
        assert(window.last() == window[0]);
        assert(occurrences(front, base, d) =~= Seq::<u64>::empty());
        assert(occurrences(rest, base + 1, d) =~= Seq::<u64>::empty());
        if has_dim(window[0], d) {
            assert(occurrences(window, base, d) =~= seq![base as u64] + occurrences(rest, base + 1, d));
        }
    } else {
        lemma_occurrences_front(front, base, d);
        assert(front[0] == window[0]);
        assert(front.drop_first() =~= rest.drop_last());
        assert(rest.last() == window.last());
        let inner = occurrences(rest.drop_last(), base + 1, d);
        if has_dim(window.last(), d) {
            let top = (base + window.len() - 1) as u64;
            assert(top == ((base + 1) + rest.len() - 1) as u64);
            if has_dim(window[0], d) {
                assert((seq![base as u64] + inner).push(top) =~= seq![base as u64] + inner.push(top));
            }
        }
    }
}

/// Window aging: a candidate for the query of ordinal `base + window.len()`
/// is older than the query, by no more than the window's length.
pub proof fn lemma_window_aging(
    window: Seq<Seq<(u32, u64)>>,
    base: nat,
    query: Seq<(u32, u64)>,
    probes: usize,
    c: u64,
    capacity: usize,
)
    requires
        window.len() <= capacity,
        is_candidate(window, base, query, probes, c),
    ensures
        c + 1 <= base + window.len() <= c + capacity,
{
}

/// Blocking: a live vector that holds none of the first `probes` dimensions
/// of the query is no candidate for it.
pub proof fn lemma_blocking(
    window: Seq<Seq<(u32, u64)>>,
    base: nat,
    query: Seq<(u32, u64)>,
    probes: usize,
    c: u64,
)
    requires
        base <= c < base + window.len(),
        forall|k: int| 0 <= k < query.len() && k < probes ==> !has_dim(window[c - base], (#[trigger] query[k]).0),
    ensures
        !is_candidate(window, base, query, probes, c),
{
}

/// After any run of arrivals the window is the tail of the inputs, no
/// longer than the capacity, and every input is either live or counted as
/// evicted.
pub proof fn lemma_window_is_tail(inputs: Seq<Seq<(u32, u64)>>, capacity: usize)
    ensures
        window_after(inputs, capacity).len() <= capacity,
        evictions_after(inputs, capacity) + window_after(inputs, capacity).len() == inputs.len(),
        window_after(inputs, capacity) == inputs.skip(evictions_after(inputs, capacity) as int),
    decreases inputs.len(),
{
    if inputs.len() > 0 {
        let earlier = inputs.drop_last();
        lemma_window_is_tail(earlier, capacity);
        let w = window_after(earlier, capacity);
        let e = evictions_after(earlier, capacity) as int;
        assert(w.push(inputs.last()) =~= inputs.skip(e));
        if w.len() + 1 > capacity {
            assert(inputs.skip(e).drop_first() =~= inputs.skip(e + 1));
        }
    }
}

} // verus!
