//! The scatter buffer: one sparse vector spread over a dense array, so that
//! the weight of a dimension is a single probe and clearing costs no more
//! than what was loaded.

use vstd::prelude::*;
use sparseset::SparseSet;
use crate::vector::{distinct_dims, has_dim};

verus! {

/// `sparseset::SparseSet`, opaque to the verifier: a map from keys below a
/// fixed capacity to values.
#[verifier::external_type_specification]
#[verifier::external_body]
#[verifier::reject_recursive_types(T)]
pub struct ExSparseSet<T>(SparseSet<T>);

/// `sparseset::Entry`, the element type of the slice a `SparseSet` derefs to.
/// Nothing here reads one.
#[verifier::external_type_specification]
#[verifier::external_body]
#[verifier::reject_recursive_types(T)]
pub struct ExEntry<T>(sparseset::Entry<T>);

/// The keys a set of weights holds, each with its value.
pub uninterp spec fn cells_of(s: SparseSet<u64>) -> Map<usize, u64>;

/// The capacity a set of weights was made with: keys stay below it.
pub uninterp spec fn cells_limit(s: SparseSet<u64>) -> usize;

/// Capacities for which reserving the dense arrays cannot overflow: an entry
/// is a key beside a weight or a deque, 64 bytes at most.
pub open spec fn reservable(size: usize) -> bool {
    size <= isize::MAX / 64
}

/// Whether a capacity is `reservable`.
pub fn can_reserve(size: usize) -> (r: bool)
    ensures
        r == reservable(size),
{
    size <= (isize::MAX as usize) / 64
}

pub open spec fn no_cells() -> Map<usize, u64> {
    Map::empty()
}

/// `SparseSet::with_capacity`: a set without keys whose capacity is `size`.
/// The call reserves both arrays at once, which panics on a byte count above
/// `isize::MAX`; `requires` keeps clear of that.
#[verifier::external_body]
fn cells_with_capacity(size: usize) -> (s: SparseSet<u64>)
    requires
        reservable(size),
    ensures
        cells_of(s) == no_cells(),
        cells_limit(s) == size,
{
    SparseSet::with_capacity(size)
}

/// `SparseSet::clear`: drops every key, keeps the capacity.
#[verifier::external_body]
fn cells_clear(s: &mut SparseSet<u64>)
    ensures
        cells_of(*final(s)) == no_cells(),
        cells_limit(*final(s)) == cells_limit(*old(s)),
{
    s.clear()
}

/// `SparseSet::insert`: sets `key` to `value`, whether or not it was set, and
/// says whether it was new. The call asserts that the key is below capacity.
#[verifier::external_body]
fn cells_insert(s: &mut SparseSet<u64>, key: usize, value: u64) -> (fresh: bool)
    requires
        key < cells_limit(*old(s)),
    ensures
        cells_of(*final(s)) == cells_of(*old(s)).insert(key, value),
        cells_limit(*final(s)) == cells_limit(*old(s)),
        fresh == !cells_of(*old(s)).contains_key(key),
{
    s.insert(key, value)
}

/// `SparseSet::get`: the value of `key` if it is set. The call indexes the
/// sparse array with the key, so the key must be below capacity.
#[verifier::external_body]
fn cells_get(s: &SparseSet<u64>, key: usize) -> (r: Option<&u64>)
    requires
        key < cells_limit(*s),
    ensures
        r == if cells_of(*s).contains_key(key) {
            Some(&cells_of(*s)[key])
        } else {
            None
        },
{
    s.get(key)
}

/// The mapping that starts as `before` and takes the entries of `v` in
/// order, a later entry replacing an earlier one of the same dimension.
pub open spec fn overlay(before: Map<u32, u64>, v: Seq<(u32, u64)>) -> Map<u32, u64>
    decreases v.len(),
{
    if v.len() == 0 {
        before
    } else {
        overlay(before, v.drop_last()).insert(v.last().0, v.last().1)
    }
}

/// Every dimension of `v` is below `limit`.
pub open spec fn dims_below(v: Seq<(u32, u64)>, limit: usize) -> bool {
    forall|k: int| 0 <= k < v.len() ==> (#[trigger] v[k]).0 < limit
}

/// The keys of `overlay` are those of `before` and the dimensions of `v`.
pub proof fn lemma_overlay_keys(before: Map<u32, u64>, v: Seq<(u32, u64)>, d: u32)
    ensures
        overlay(before, v).contains_key(d) <==> before.contains_key(d) || has_dim(v, d),
    decreases v.len(),
{
    if v.len() > 0 {
        let front = v.drop_last();
        lemma_overlay_keys(before, front, d);
        if has_dim(front, d) {
            let k = choose|k: int| 0 <= k < front.len() && (#[trigger] front[k]).0 == d;
            assert(v[k] == front[k]);
        }
        if has_dim(v, d) && v.last().0 != d {
            let k = choose|k: int| 0 <= k < v.len() && (#[trigger] v[k]).0 == d;
            assert(front[k] == v[k]);
        }
    }
}

/// Where no dimension repeats, `overlay` gives each entry of `v` its own weight.
pub proof fn lemma_overlay_entry(before: Map<u32, u64>, v: Seq<(u32, u64)>, k: int)
    requires
        distinct_dims(v),
        0 <= k < v.len(),
    ensures
        overlay(before, v).contains_key(v[k].0),
        overlay(before, v)[v[k].0] == v[k].1,
    decreases v.len(),
{
    let front = v.drop_last();
    if k < v.len() - 1 {
        assert(front[k] == v[k]);
        assert(v[k].0 != v[v.len() - 1].0);
        lemma_overlay_entry(before, front, k);
    }
}

/// A dimension that `v` lacks keeps what it had before.
pub proof fn lemma_overlay_other(before: Map<u32, u64>, v: Seq<(u32, u64)>, d: u32)
    requires
        !has_dim(v, d),
    ensures
        overlay(before, v).contains_key(d) == before.contains_key(d),
        overlay(before, v).contains_key(d) ==> overlay(before, v)[d] == before[d],
    decreases v.len(),
{
    if v.len() > 0 {
        let front = v.drop_last();
        assert(v[v.len() - 1].0 != d);
        assert forall|k: int| 0 <= k < front.len() implies (#[trigger] front[k]).0 != d by {
            assert(front[k] == v[k]);
        }
        lemma_overlay_other(before, front, d);
    }
}

/// What `overlay` holds under a dimension of `v` comes from `v` alone.
pub proof fn lemma_overlay_ignores_base(a: Map<u32, u64>, b: Map<u32, u64>, v: Seq<(u32, u64)>, d: u32)
    requires
        has_dim(v, d),
    ensures
        overlay(a, v)[d] == overlay(b, v)[d],
    decreases v.len(),
{
    if v.len() > 0 && v.last().0 != d {
        let front = v.drop_last();
        let k = choose|k: int| 0 <= k < v.len() && (#[trigger] v[k]).0 == d;
        assert(front[k] == v[k]);
        lemma_overlay_ignores_base(a, b, front, d);
    }
}

/// Loading the same vector a second time changes nothing.
pub proof fn lemma_overlay_idempotent(before: Map<u32, u64>, v: Seq<(u32, u64)>)
    ensures
        overlay(overlay(before, v), v) == overlay(before, v),
{
    let once = overlay(before, v);
    let twice = overlay(once, v);
    assert forall|d: u32| #[trigger]
        twice.dom().contains(d) == once.dom().contains(d) && (once.dom().contains(d) ==> twice[d] == once[d]) by {
        lemma_overlay_keys(before, v, d);
        lemma_overlay_keys(once, v, d);
        if has_dim(v, d) {
            lemma_overlay_ignores_base(once, before, v, d);
        } else {
            lemma_overlay_other(once, v, d);
        }
    }
    assert(twice =~= once);
}

/// A scatter buffer over the dimensions below its capacity.
pub struct Scorer {
    cells: SparseSet<u64>,
    capacity: usize,
}

impl Scorer {
    /// The buffer's own consistency.
    pub closed spec fn wf(&self) -> bool {
        &&& cells_limit(self.cells) == self.capacity
        &&& forall|k: usize| #[trigger] cells_of(self.cells).contains_key(k) ==> k < self.capacity && k <= u32::MAX
    }

    /// The capacity the buffer was made with.
    pub closed spec fn limit(&self) -> usize {
        self.capacity
    }

    /// What is loaded: dimension to weight.
    pub closed spec fn loaded(&self) -> Map<u32, u64> {
        Map::new(
            |d: u32| cells_of(self.cells).contains_key(d as usize),
            |d: u32| cells_of(self.cells)[d as usize],
        )
    }

    /// The weight under `d`: what is loaded there, zero elsewhere.
    pub open spec fn weight(&self, d: u32) -> u64 {
        if self.loaded().contains_key(d) {
            self.loaded()[d]
        } else {
            0
        }
    }

    /// An empty buffer for the dimensions below `capacity`.
    pub fn new(capacity: usize) -> (s: Scorer)
        requires
            reservable(capacity),
        ensures
            s.wf(),
            s.limit() == capacity,
            s.loaded() == Map::<u32, u64>::empty(),
    {
        let s = Scorer { cells: cells_with_capacity(capacity), capacity };
        assert(s.loaded() =~= Map::<u32, u64>::empty());
        s
    }

    pub fn capacity(&self) -> (n: usize)
        ensures
            n == self.limit(),
    {
        self.capacity
    }

    /// Forgets what was loaded.
    pub fn clear(&mut self)
        requires
            old(self).wf(),
        ensures
            final(self).wf(),
            final(self).limit() == old(self).limit(),
            final(self).loaded() == Map::<u32, u64>::empty(),
    {
        cells_clear(&mut self.cells);
        assert(self.loaded() =~= Map::<u32, u64>::empty());
    }

    /// Loads the entries of `v` over what is there, in order, and tells
    /// whether each of them met a dimension not loaded yet.
    pub fn load(&mut self, v: &Vec<(u32, u64)>) -> (fresh: bool)
        requires
            old(self).wf(),
            dims_below(v@, old(self).limit()),
        ensures
            final(self).wf(),
            final(self).limit() == old(self).limit(),
            final(self).loaded() == overlay(old(self).loaded(), v@),
            fresh <==> distinct_dims(v@) && forall|k: int|
                0 <= k < v.len() ==> !old(self).loaded().contains_key((#[trigger] v[k]).0),
    {
        let mut fresh = true;
        let mut k: usize = 0;
        while k < v.len()
            invariant
                k <= v.len(),
                self.wf(),
                self.limit() == old(self).limit(),
                dims_below(v@, self.limit()),
                self.loaded() == overlay(old(self).loaded(), v@.take(k as int)),
                fresh <==> distinct_dims(v@.take(k as int)) && forall|j: int|
                    0 <= j < k ==> !old(self).loaded().contains_key((#[trigger] v[j]).0),
            decreases v.len() - k,
        {
            let e = v[k];
            let ghost before = self.loaded();
            let ghost head = v@.take(k as int);
            let ghost next = v@.take(k + 1);
            proof {
                assert(next.drop_last() =~= head);
                assert(next.last() == v@[k as int]);
                lemma_overlay_keys(old(self).loaded(), head, e.0);
            }
            let was_new = cells_insert(&mut self.cells, e.0 as usize, e.1);
            proof {
                assert(self.loaded() =~= before.insert(e.0, e.1));
                assert(was_new == !before.contains_key(e.0));
                if has_dim(head, e.0) {
                    let j = choose|j: int| 0 <= j < head.len() && (#[trigger] head[j]).0 == e.0;
                    assert(next[j] == head[j]);
                    assert(next[k as int].0 == e.0);
                    assert(!distinct_dims(next));
                }
                if distinct_dims(next) {
                    assert forall|i: int, j: int| 0 <= i < j < head.len() implies (#[trigger] head[i]).0 != (
                    #[trigger] head[j]).0 by {
                        assert(head[i] == next[i] && head[j] == next[j]);
                    }
                }
                if distinct_dims(head) && !has_dim(head, e.0) {
                    assert forall|i: int, j: int| 0 <= i < j < next.len() implies (#[trigger] next[i]).0 != (
                    #[trigger] next[j]).0 by {
                        assert(next[i] == head[i]);
                        if j < k {
                            assert(next[j] == head[j]);
                        }
                    }
                }
            }
            if !was_new {
                fresh = false;
            }
            k += 1;
        }
        proof {
            assert(v@.take(k as int) =~= v@);
        }
        fresh
    }

    /// The weight under `dim`; zero for a dimension that is not loaded,
    /// whether below the capacity or not.
    pub fn lookup(&self, dim: u32) -> (w: u64)
        requires
            self.wf(),
        ensures
            w == self.weight(dim),
    {
        if dim as usize >= self.capacity {
            return 0;
        }
        match cells_get(&self.cells, dim as usize) {
            Some(w) => *w,
            None => 0,
        }
    }
}

} // verus!
