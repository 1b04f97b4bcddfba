//! The inverted index: for each dimension, the ordinals of the vectors that
//! hold it, oldest first.

use vstd::prelude::*;
use std::collections::VecDeque;
use sparseset::SparseSet;
use crate::scatter::reservable;
use crate::vector::{distinct_dims, has_dim, SparseVector};

verus! {

/// The keys a set of posting lists holds, each with the ordinals of its list
/// from head to tail.
pub uninterp spec fn lists_of(s: SparseSet<VecDeque<u64>>) -> Map<usize, Seq<u64>>;

/// The capacity a set of posting lists was made with: keys stay below it.
pub uninterp spec fn lists_limit(s: SparseSet<VecDeque<u64>>) -> usize;

pub open spec fn no_lists() -> Map<usize, Seq<u64>> {
    Map::empty()
}

/// `SparseSet::with_capacity`: a set without keys whose capacity is `size`.
/// The call reserves both arrays at once, which panics on a byte count above
/// `isize::MAX`; `requires` keeps clear of that.
#[verifier::external_body]
fn lists_with_capacity(size: usize) -> (s: SparseSet<VecDeque<u64>>)
    requires
        reservable(size),
    ensures
        lists_of(s) == no_lists(),
        lists_limit(s) == size,
{
    SparseSet::with_capacity(size)
}

/// `SparseSet::contains`: whether `key` is set. The call indexes the sparse
/// array with the key, so the key must be below capacity.
#[verifier::external_body]
fn lists_contains(s: &SparseSet<VecDeque<u64>>, key: usize) -> (r: bool)
    requires
        key < lists_limit(*s),
    ensures
        r == lists_of(*s).contains_key(key),
{
    s.contains(key)
}

/// `SparseSet::insert`: sets `key` to `value`, whether or not it was set, and
/// says whether it was new. The call asserts that the key is below capacity.
#[verifier::external_body]
fn lists_insert(s: &mut SparseSet<VecDeque<u64>>, key: usize, value: VecDeque<u64>) -> (fresh: bool)
    requires
        key < lists_limit(*old(s)),
    ensures
        lists_of(*final(s)) == lists_of(*old(s)).insert(key, value@),
        lists_limit(*final(s)) == lists_limit(*old(s)),
        fresh == !lists_of(*old(s)).contains_key(key),
{
    s.insert(key, value)
}

/// `SparseSet::get`: the list of `key` if it is set. The call indexes the
/// sparse array with the key, so the key must be below capacity.
#[verifier::external_body]
fn lists_get(s: &SparseSet<VecDeque<u64>>, key: usize) -> (r: Option<&VecDeque<u64>>)
    requires
        key < lists_limit(*s),
    ensures
        match r {
            Some(q) => lists_of(*s).contains_key(key) && q@ == lists_of(*s)[key],
            None => !lists_of(*s).contains_key(key),
        },
{
    s.get(key)
}

/// `SparseSet::get_mut`: the list of `key`, to be changed in place, if the
/// key is set. No other key is touched, and what the caller leaves in the
/// list is what the set holds afterwards. The call indexes the sparse array
/// with the key, so the key must be below capacity.
#[verifier::external_body]
fn lists_get_mut(s: &mut SparseSet<VecDeque<u64>>, key: usize) -> (r: Option<&mut VecDeque<u64>>)
    requires
        key < lists_limit(*old(s)),
    ensures
        lists_limit(*final(s)) == lists_limit(*old(s)),
        match r {
            Some(q) => lists_of(*old(s)).contains_key(key) && q@ == lists_of(*old(s))[key]
                && lists_of(*final(s)) == lists_of(*old(s)).insert(key, final(q)@),
            None => !lists_of(*old(s)).contains_key(key) && lists_of(*final(s)) == lists_of(
                *old(s),
            ),
        },
{
    s.get_mut(key)
}

/// Posting lists for the dimensions below a capacity.
pub struct InvertedIndex {
    lists: SparseSet<VecDeque<u64>>,
    capacity: usize,
}

impl InvertedIndex {
    /// The index's own consistency.
    pub closed spec fn wf(&self) -> bool {
        &&& lists_limit(self.lists) == self.capacity
        &&& forall|k: usize| #[trigger] lists_of(self.lists).contains_key(k) ==> k < self.capacity
    }

    /// The capacity the index was made with.
    pub closed spec fn limit(&self) -> usize {
        self.capacity
    }

    /// The posting list of `d`, head first; empty for a dimension that never
    /// got one.
    pub closed spec fn ordinals(&self, d: u32) -> Seq<u64> {
        if lists_of(self.lists).contains_key(d as usize) {
            lists_of(self.lists)[d as usize]
        } else {
            Seq::empty()
        }
    }

    /// An index without posting lists for the dimensions below `capacity`.
    pub fn new(capacity: usize) -> (s: InvertedIndex)
        requires
            reservable(capacity),
        ensures
            s.wf(),
            s.limit() == capacity,
            forall|d: u32| #[trigger] s.ordinals(d) == Seq::<u64>::empty(),
    {
        InvertedIndex { lists: lists_with_capacity(capacity), capacity }
    }

    pub fn capacity(&self) -> (n: usize)
        ensures
            n == self.limit(),
    {
        self.capacity
    }

    /// The posting list of `dim` to read, where the dimension has one.
    pub fn posting(&self, dim: u32) -> (r: Option<&VecDeque<u64>>)
        requires
            self.wf(),
        ensures
            match r {
                Some(q) => q@ == self.ordinals(dim),
                None => self.ordinals(dim) == Seq::<u64>::empty(),
            },
    {
        if dim as usize >= self.capacity {
            return None;
        }
        lists_get(&self.lists, dim as usize)
    }

    /// Puts `ordinal` at the tail of the posting list of `dim`, which is made
    /// on first use.
    pub fn append(&mut self, dim: u32, ordinal: u64)
        requires
            old(self).wf(),
            dim < old(self).limit(),
        ensures
            final(self).wf(),
            final(self).limit() == old(self).limit(),
            final(self).ordinals(dim) == old(self).ordinals(dim).push(ordinal),
            forall|d: u32| d != dim ==> #[trigger] final(self).ordinals(d) == old(self).ordinals(d),
    {
        let key: usize = dim as usize;
        if !lists_contains(&self.lists, key) {
            lists_insert(&mut self.lists, key, VecDeque::new());
        }
        let ghost mid = lists_of(self.lists);
        assert(mid.contains_key(key) && mid[key] == old(self).ordinals(dim));
        match lists_get_mut(&mut self.lists, key) {
            Some(q) => {
                q.push_back(ordinal);
            },
            None => {},
        }
        assert(lists_of(self.lists) == mid.insert(key, mid[key].push(ordinal)));
        assert forall|d: u32| d != dim implies #[trigger] self.ordinals(d) == old(self).ordinals(d) by {
            assert(d as usize != key);
        }
    }

    /// Takes the head off the posting list of `dim` and returns it; `None`,
    /// and nothing changed, where the list is empty or was never made.
    pub fn head_pop(&mut self, dim: u32) -> (r: Option<u64>)
        requires
            old(self).wf(),
        ensures
            final(self).wf(),
            final(self).limit() == old(self).limit(),
            r == if old(self).ordinals(dim).len() > 0 {
                Some(old(self).ordinals(dim)[0])
            } else {
                None
            },
            final(self).ordinals(dim) == if old(self).ordinals(dim).len() > 0 {
                old(self).ordinals(dim).drop_first()
            } else {
                old(self).ordinals(dim)
            },
            forall|d: u32| d != dim ==> #[trigger] final(self).ordinals(d) == old(self).ordinals(d),
    {
        if dim as usize >= self.capacity {
            return None;
        }
        let key: usize = dim as usize;
        let ghost before = lists_of(self.lists);
        let r = match lists_get_mut(&mut self.lists, key) {
            Some(q) => q.pop_front(),
            None => None,
        };
        proof {
            if before.contains_key(key) {
                if before[key].len() > 0 {
                    assert(lists_of(self.lists) == before.insert(key, before[key].drop_first()));
                } else {
                    assert(lists_of(self.lists) == before.insert(key, before[key]));
                }
            }
            assert forall|d: u32| d != dim implies #[trigger] self.ordinals(d) == old(self).ordinals(d) by {
                assert(d as usize != key);
            }
        }
        r
    }

    /// Takes a vector that left the window out of the index: the head goes
    /// off the posting list of each of its dimensions.
    pub fn retire(&mut self, v: &SparseVector)
        requires
            old(self).wf(),
            distinct_dims(v@),
        ensures
            final(self).wf(),
            final(self).limit() == old(self).limit(),
            forall|d: u32| #[trigger]
                final(self).ordinals(d) == if has_dim(v@, d) && old(self).ordinals(d).len() > 0 {
                    old(self).ordinals(d).drop_first()
                } else {
                    old(self).ordinals(d)
                },
    {
        let mut k: usize = 0;
        while k < v.len()
            invariant
                k <= v.len(),
                self.wf(),
                self.limit() == old(self).limit(),
                distinct_dims(v@),
                forall|d: u32| #[trigger]
                    self.ordinals(d) == if has_dim(v@.take(k as int), d) && old(self).ordinals(d).len() > 0 {
                        old(self).ordinals(d).drop_first()
                    } else {
                        old(self).ordinals(d)
                    },
            decreases v.len() - k,
        {
            let dim: u32 = v[k].0;
            let ghost before = *self;
            let ghost done = v@.take(k as int);
            let ghost more = v@.take(k + 1);
            proof {
                assert(more[k as int] == v@[k as int]);
                if has_dim(done, dim) {
                    let j = choose|j: int| 0 <= j < done.len() && (#[trigger] done[j]).0 == dim;
                    assert(v@[j] == done[j]);
                }
                assert(!has_dim(done, dim));
                assert(has_dim(more, dim));
            }
            self.head_pop(dim);
            proof {
                assert forall|d: u32| #[trigger]
                    self.ordinals(d) == if has_dim(more, d) && old(self).ordinals(d).len() > 0 {
                        old(self).ordinals(d).drop_first()
                    } else {
                        old(self).ordinals(d)
                    } by {
                    if d != dim {
                        assert(self.ordinals(d) == before.ordinals(d));
                        if has_dim(done, d) {
                            let j = choose|j: int| 0 <= j < done.len() && (#[trigger] done[j]).0 == d;
                            assert(more[j] == done[j]);
                        }
                        if has_dim(more, d) {
                            let j = choose|j: int| 0 <= j < more.len() && (#[trigger] more[j]).0 == d;
                            assert(done[j] == more[j]);
                        }
                    }
                }
            }
            k += 1;
        }
        proof {
            assert(v@.take(k as int) =~= v@);
        }
    }
}

} // verus!
