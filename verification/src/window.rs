//! The window store: the live vectors in arrival order, and the count of
//! those that left, by which an ordinal finds its place.

use vstd::prelude::*;
use std::collections::VecDeque;
use crate::vector::SparseVector;

verus! {

/// The live vectors, oldest first. The vector of ordinal `n` sits at offset
/// `n - evicted`.
pub struct WindowStore {
    vectors: VecDeque<SparseVector>,
    dropped: u64,
}

impl WindowStore {
    /// Ordinals stay within 64 bits.
    pub closed spec fn wf(&self) -> bool {
        self.dropped + self.vectors@.len() <= u64::MAX
    }

    /// The live vectors, oldest first.
    pub closed spec fn live(&self) -> Seq<Seq<(u32, u64)>> {
        self.vectors@.map_values(|v: SparseVector| v@)
    }

    /// How many vectors have left: the ordinal of the oldest live one.
    pub closed spec fn evicted(&self) -> nat {
        self.dropped as nat
    }

    /// The ordinal that the next vector pushed will get.
    pub open spec fn end(&self) -> nat {
        self.evicted() + self.live().len()
    }

    /// `ordinal` is that of a live vector.
    pub open spec fn holds(&self, ordinal: u64) -> bool {
        self.evicted() <= ordinal < self.end()
    }

    pub fn new() -> (s: WindowStore)
        ensures
            s.wf(),
            s.evicted() == 0,
            s.live() == Seq::<Seq<(u32, u64)>>::empty(),
    {
        let s = WindowStore { vectors: VecDeque::new(), dropped: 0 };
        assert(s.live() =~= Seq::<Seq<(u32, u64)>>::empty());
        s
    }

    pub fn len(&self) -> (n: usize)
        ensures
            n == self.live().len(),
    {
        self.vectors.len()
    }

    pub fn dropped_so_far(&self) -> (n: u64)
        ensures
            n == self.evicted(),
    {
        self.dropped
    }

    /// Whether `ordinal` is that of a live vector.
    pub fn contains(&self, ordinal: u64) -> (r: bool)
        requires
            self.wf(),
        ensures
            r == self.holds(ordinal),
    {
        ordinal >= self.dropped && ordinal - self.dropped < self.vectors.len() as u64
    }

    /// Puts `v` at the tail, under the ordinal `end()`.
    pub fn push(&mut self, v: SparseVector)
        requires
            old(self).wf(),
            old(self).end() < u64::MAX,
        ensures
            final(self).wf(),
            final(self).evicted() == old(self).evicted(),
            final(self).live() == old(self).live().push(v@),
    {
        self.vectors.push_back(v);
        assert(self.live() =~= old(self).live().push(v@));
    }

    /// Takes the oldest vector out and counts it as evicted; `None`, and
    /// nothing changed, on an empty store.
    pub fn pop_front(&mut self) -> (r: Option<SparseVector>)
        requires
            old(self).wf(),
        ensures
            final(self).wf(),
            match r {
                Some(v) => old(self).live().len() > 0 && v@ == old(self).live()[0]
                    && final(self).live() == old(self).live().drop_first()
                    && final(self).evicted() == old(self).evicted() + 1,
                None => old(self).live().len() == 0 && final(self).live() == old(self).live()
                    && final(self).evicted() == old(self).evicted(),
            },
    {
        let r = self.vectors.pop_front();
        if r.is_some() {
            self.dropped = self.dropped + 1;
            assert(self.live() =~= old(self).live().drop_first());
        }
        r
    }

    /// The vector of `ordinal`, where it is live.
    pub fn get(&self, ordinal: u64) -> (r: Option<&SparseVector>)
        requires
            self.wf(),
        ensures
            match r {
                Some(v) => self.holds(ordinal) && v@ == self.live()[ordinal - self.evicted()],
                None => !self.holds(ordinal),
            },
    {
        if self.contains(ordinal) {
            let offset: usize = (ordinal - self.dropped) as usize;
            Some(&self.vectors[offset])
        } else {
            None
        }
    }
}

} // verus!
