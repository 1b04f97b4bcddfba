//! The stream driver's state: one detector takes the vectors in arrival
//! order, proposes the candidates of each, and once their distances are
//! known reports the nearest and moves the window on.
//!
//! A record takes two calls. `submit` loads the vector, gathers its
//! candidates and indexes it; the caller computes the distance of each
//! candidate; `resolve` takes the distances, reports the match, stores the
//! vector and evicts the oldest one where the window is full.

use vstd::prelude::*;
use std::collections::VecDeque;
use crate::candidates::{generate, increasing, lemma_increasing_unique, reached};
use crate::model::{
    evictions_after, holders, is_candidate, leaving, lemma_holders_bound, lemma_holders_concat, lemma_occurrences_count,
    lemma_occurrences_front, lemma_occurrences_increasing, lemma_occurrences_members, lemma_window_is_tail,
    occurrences, slide, window_after,
};
use crate::neighbor::{nearest, nearest_of, scored};
use crate::postings::InvertedIndex;
use crate::scatter::{
    can_reserve, lemma_overlay_entry, lemma_overlay_keys, overlay, reservable, Scorer,
};
use crate::vector::{
    check_entries, entry_fault, fault, has_dim, lemma_fault_none, lemma_first_entry_fault, well_formed, InputError,
    SparseVector, POSITIVE_INFINITY,
};
use crate::window::WindowStore;

verus! {

/// The tunables of a run.
#[derive(Clone, Copy, Debug, PartialEq, Eq, Structural)]
pub struct Config {
    /// Distances from here on are not reported: the bit pattern of a double
    /// between zero and infinity.
    pub threshold: u64,
    /// How many vectors stay live.
    pub window: usize,
    /// How many leading dimensions of a query are probed for candidates.
    pub query_size: usize,
    /// One more than the largest dimension.
    pub voc_size: usize,
    /// How many records are taken at most; `u64::MAX` stands for no cap.
    pub limit: u64,
}

impl Config {
    /// A threshold that is a distance, and a vocabulary that can be
    /// reserved.
    pub open spec fn valid(&self) -> bool {
        self.threshold <= POSITIVE_INFINITY && reservable(self.voc_size)
    }

    pub fn is_valid(&self) -> (r: bool)
        ensures
            r == self.valid(),
    {
        self.threshold <= POSITIVE_INFINITY && can_reserve(self.voc_size)
    }

    /// The settings of a run where nothing else is asked for: a threshold
    /// of 69 hundredths, a window of one and a half million records, five
    /// probes, a vocabulary of three hundred thousand, no cap.
    pub fn defaults() -> (c: Config)
        ensures
            c.valid(),
            c == (Config {
                threshold: 0x3fe6_147a_e147_ae14,
                window: 1_500_000,
                query_size: 5,
                voc_size: 300_000,
                limit: u64::MAX,
            }),
    {
        Config {
            threshold: 0x3fe6_147a_e147_ae14,
            window: 1_500_000,
            query_size: 5,
            voc_size: 300_000,
            limit: u64::MAX,
        }
    }
}

/// The detector: scatter buffer, inverted index, window store, and the
/// query that waits for its distances, if any.
pub struct Detector {
    config: Config,
    scorer: Scorer,
    index: InvertedIndex,
    store: WindowStore,
    query: Option<SparseVector>,
    candidates: Vec<u64>,
    history: Ghost<Seq<Seq<(u32, u64)>>>,
}

impl Detector {
    pub closed spec fn settings(&self) -> Config {
        self.config
    }

    /// Every vector stored so far, in arrival order: the vector of ordinal
    /// `n` is `seen()[n]`.
    pub closed spec fn seen(&self) -> Seq<Seq<(u32, u64)>> {
        self.history@
    }

    /// The live vectors, oldest first.
    pub closed spec fn window(&self) -> Seq<Seq<(u32, u64)>> {
        self.store.live()
    }

    /// How many vectors were evicted: the ordinal of the oldest live one.
    pub closed spec fn dropped(&self) -> nat {
        self.store.evicted()
    }

    /// The ordinal of the query that waits, or of the next one to come.
    pub open spec fn next(&self) -> nat {
        self.dropped() + self.window().len()
    }

    /// The query that waits for its distances.
    pub closed spec fn pending(&self) -> Option<Seq<(u32, u64)>> {
        match self.query {
            Some(q) => Some(q@),
            None => None,
        }
    }

    /// The candidates of the query that waits.
    pub closed spec fn candidate_list(&self) -> Seq<u64> {
        self.candidates@
    }

    /// The posting list of `d`.
    pub closed spec fn posting(&self, d: u32) -> Seq<u64> {
        self.index.ordinals(d)
    }

    /// The weight the scatter buffer holds under `d`.
    pub closed spec fn weight(&self, d: u32) -> u64 {
        self.scorer.weight(d)
    }

    /// What the index covers: the live vectors, and behind them the query
    /// that waits.
    pub open spec fn indexed(&self) -> Seq<Seq<(u32, u64)>> {
        match self.pending() {
            Some(q) => self.window().push(q),
            None => self.window(),
        }
    }

    /// The detector's consistency: what every call keeps.
    pub closed spec fn wf(&self) -> bool {
        &&& self.config.valid()
        &&& self.scorer.wf()
        &&& self.scorer.limit() == self.config.voc_size
        &&& self.index.wf()
        &&& self.index.limit() == self.config.voc_size
        &&& self.store.wf()
        &&& self.window().len() <= self.config.window
        &&& self.next() <= self.config.limit
        &&& self.window() == window_after(self.history@, self.config.window)
        &&& self.dropped() == evictions_after(self.history@, self.config.window)
        &&& forall|k: int|
            0 <= k < self.window().len() ==> well_formed(#[trigger] self.window()[k], self.config.voc_size)
        &&& forall|d: u32| #[trigger] self.index.ordinals(d) == occurrences(self.indexed(), self.dropped(), d)
        &&& match self.query {
            Some(q) => {
                &&& well_formed(q@, self.config.voc_size)
                &&& self.next() < self.config.limit
                &&& increasing(self.candidates@)
                &&& forall|c: u64|
                    self.candidates@.contains(c) <==> is_candidate(
                        self.window(),
                        self.dropped(),
                        q@,
                        self.config.query_size,
                        c,
                    )
                &&& self.scorer.loaded() == overlay(Map::<u32, u64>::empty(), q@)
            },
            None => self.candidates@.len() == 0 && self.scorer.loaded() == Map::<u32, u64>::empty(),
        }
    }

    /// A detector with an empty window; none for settings that are not
    /// valid.
    pub fn new(config: Config) -> (r: Option<Detector>)
        ensures
            r is Some <==> config.valid(),
            r matches Some(d) ==> {
                &&& d.wf()
                &&& d.settings() == config
                &&& d.seen() == Seq::<Seq<(u32, u64)>>::empty()
                &&& d.window() == Seq::<Seq<(u32, u64)>>::empty()
                &&& d.dropped() == 0
                &&& d.pending() is None
                &&& d.candidate_list() == Seq::<u64>::empty()
                &&& forall|x: u32| #[trigger] d.posting(x) == Seq::<u64>::empty()
                &&& forall|x: u32| #[trigger] d.weight(x) == 0
            },
    {
        if !config.is_valid() {
            return None;
        }
        let d = Detector {
            config,
            scorer: Scorer::new(config.voc_size),
            index: InvertedIndex::new(config.voc_size),
            store: WindowStore::new(),
            query: None,
            candidates: Vec::new(),
            history: Ghost(Seq::empty()),
        };
        proof {
            assert forall|x: u32| #[trigger] d.index.ordinals(x) == occurrences(d.indexed(), d.dropped(), x) by {}
        }
        Some(d)
    }

    pub fn config(&self) -> (c: Config)
        ensures
            c == self.settings(),
    {
        self.config
    }

    /// How many vectors are live.
    pub fn len(&self) -> (n: usize)
        ensures
            n == self.window().len(),
    {
        self.store.len()
    }

    pub fn dropped_so_far(&self) -> (n: u64)
        ensures
            n == self.dropped(),
    {
        self.store.dropped_so_far()
    }

    /// The ordinal of the query that waits, or of the next one to come.
    pub fn next_ordinal(&self) -> (n: u64)
        requires
            self.wf(),
        ensures
            n == self.next(),
    {
        self.store.dropped_so_far() + self.store.len() as u64
    }

    /// Whether the cap on records is reached: no further record is taken.
    pub fn at_limit(&self) -> (r: bool)
        requires
            self.wf(),
        ensures
            r == (self.next() >= self.settings().limit),
    {
        self.next_ordinal() >= self.config.limit
    }

    /// Whether a query waits for its distances.
    pub fn is_scoring(&self) -> (r: bool)
        ensures
            r == self.pending() is Some,
    {
        self.query.is_some()
    }

    /// The candidates of the query that waits, in increasing order.
    pub fn candidates(&self) -> (c: &Vec<u64>)
        ensures
            c@ == self.candidate_list(),
    {
        &self.candidates
    }

    /// The weight of the query that waits under `dim`; zero where it has
    /// none.
    pub fn lookup(&self, dim: u32) -> (w: u64)
        requires
            self.wf(),
        ensures
            w == self.weight(dim),
    {
        self.scorer.lookup(dim)
    }

    /// The live vector of `ordinal`, if it is live.
    pub fn vector(&self, ordinal: u64) -> (r: Option<&SparseVector>)
        requires
            self.wf(),
        ensures
            match r {
                Some(v) => self.dropped() <= ordinal < self.next() && v@ == self.window()[ordinal - self.dropped()],
                None => !(self.dropped() <= ordinal < self.next()),
            },
    {
        self.store.get(ordinal)
    }

    /// The posting list of `dim` to read, where the dimension has one.
    pub fn posting_list(&self, dim: u32) -> (r: Option<&VecDeque<u64>>)
        requires
            self.wf(),
        ensures
            match r {
                Some(q) => q@ == self.posting(dim),
                None => self.posting(dim) == Seq::<u64>::empty(),
            },
    {
        self.index.posting(dim)
    }

    /// Takes the next vector: checks it, loads it into the scatter buffer,
    /// gathers its candidates and indexes it under the ordinal `next()`.
    /// A vector with a fault is turned down and leaves no trace.
    pub fn submit(&mut self, v: SparseVector) -> (r: Result<(), InputError>)
        requires
            old(self).wf(),
            old(self).pending() is None,
            old(self).next() < old(self).settings().limit,
        ensures
            final(self).wf(),
            final(self).settings() == old(self).settings(),
            final(self).seen() == old(self).seen(),
            final(self).window() == old(self).window(),
            final(self).dropped() == old(self).dropped(),
            r == match fault(v@, old(self).settings().voc_size) {
                Some(e) => Err::<(), InputError>(e),
                None => Ok(()),
            },
            r is Ok <==> well_formed(v@, old(self).settings().voc_size),
            r is Err ==> {
                &&& final(self).pending() is None
                &&& final(self).candidate_list() == Seq::<u64>::empty()
                &&& forall|d: u32| #[trigger] final(self).posting(d) == old(self).posting(d)
                &&& forall|d: u32| #[trigger] final(self).weight(d) == 0
            },
            r is Ok ==> {
                &&& final(self).pending() == Some(v@)
                &&& increasing(final(self).candidate_list())
                &&& forall|c: u64|
                    final(self).candidate_list().contains(c) <==> is_candidate(
                        old(self).window(),
                        old(self).dropped(),
                        v@,
                        old(self).settings().query_size,
                        c,
                    )
                &&& forall|k: int| 0 <= k < v.len() ==> final(self).weight((#[trigger] v[k]).0) == v[k].1
                &&& forall|d: u32| !has_dim(v@, d) ==> #[trigger] final(self).weight(d) == 0
                &&& forall|d: u32| #[trigger]
                    final(self).posting(d) == if has_dim(v@, d) {
                        old(self).posting(d).push(old(self).next() as u64)
                    } else {
                        old(self).posting(d)
                    }
            },
    {
        let voc_size: usize = self.config.voc_size;
        let ordinal: u64 = self.next_ordinal();
        self.scorer.clear();
        proof {
            lemma_first_entry_fault(v@, voc_size);
            lemma_fault_none(v@, voc_size);
        }
        match check_entries(&v, voc_size) {
            Err(e) => {
                return Err(e);
            },
            Ok(()) => {},
        }
        proof {
            assert forall|k: int| 0 <= k < v@.len() implies (#[trigger] v@[k]).0 < voc_size by {
                assert(entry_fault(v@[k], voc_size) is None);
            }
        }
        let fresh = self.scorer.load(&v);
        if !fresh {
            self.scorer.clear();
            return Err(InputError::DuplicateDimension);
        }
        let ghost window = self.window();
        let ghost base = self.dropped();
        let ghost before = self.index;
        proof {
            assert forall|d: u32| increasing(#[trigger] self.index.ordinals(d)) by {
                lemma_occurrences_increasing(window, base, d);
            }
        }
        let found = generate(&mut self.index, &v, ordinal, self.config.query_size);
        proof {
            let grown = window.push(v@);
            assert(grown.drop_last() =~= window);
            assert(grown.last() == v@);
            assert forall|d: u32| #[trigger] self.index.ordinals(d) == occurrences(grown, base, d) by {
                assert(before.ordinals(d) == occurrences(window, base, d));
            }
            assert forall|c: u64| found@.contains(c) <==> is_candidate(
                window,
                base,
                v@,
                self.config.query_size,
                c,
            ) by {
                if reached(before, v@, v@.len() as int, self.config.query_size, c) {
                    let j = choose|j: int|
                        0 <= j < v@.len() && j < self.config.query_size && j < v@.len()
                            && #[trigger] before.ordinals(v@[j].0).contains(c);
                    lemma_occurrences_members(window, base, v@[j].0, c);
                    assert(has_dim(window[c - base], v@[j].0));
                }
                if is_candidate(window, base, v@, self.config.query_size, c) {
                    let j = choose|j: int|
                        0 <= j < v@.len() && j < self.config.query_size && has_dim(
                            window[c - base],
                            (#[trigger] v@[j]).0,
                        );
                    lemma_occurrences_members(window, base, v@[j].0, c);
                    assert(before.ordinals(v@[j].0).contains(c));
                }
            }
            assert forall|k: int| 0 <= k < v@.len() implies self.scorer.weight((#[trigger] v@[k]).0)
                == v@[k].1 by {
                lemma_overlay_entry(Map::<u32, u64>::empty(), v@, k);
            }
            assert forall|d: u32| !has_dim(v@, d) implies #[trigger] self.scorer.weight(d) == 0 by {
                lemma_overlay_keys(Map::<u32, u64>::empty(), v@, d);
            }
        }
        self.candidates = found;
        self.query = Some(v);
        Ok(())
    }

    /// Takes the distances of the candidates, `distances[k]` being that of
    /// `candidates()[k]`, and closes the record: reports the nearest
    /// candidate under the threshold, or the query itself at distance zero;
    /// stores the query; evicts the oldest vector where the window is over
    /// its size.
    pub fn resolve(&mut self, distances: &Vec<u64>) -> (r: (u64, u64))
        requires
            old(self).wf(),
            old(self).pending() is Some,
            distances.len() == old(self).candidate_list().len(),
        ensures
            final(self).wf(),
            final(self).settings() == old(self).settings(),
            final(self).pending() is None,
            final(self).candidate_list() == Seq::<u64>::empty(),
            final(self).seen() == old(self).seen().push(old(self).pending()->0),
            r == match nearest_of(
                scored(old(self).candidate_list(), distances@),
                old(self).settings().threshold,
            ) {
                Some(p) => p,
                None => (old(self).next() as u64, 0u64),
            },
            (r.0 == old(self).next() && r.1 == 0) || (r.0 < old(self).next() && r.1 < old(
                self,
            ).settings().threshold),
            r.1 < POSITIVE_INFINITY,
            final(self).window() == slide(old(self).window(), old(self).pending()->0, old(self).settings().window),
            final(self).dropped() == old(self).dropped() + leaving(
                old(self).window(),
                old(self).settings().window,
            ),
            final(self).window().len() <= old(self).settings().window,
            final(self).next() == old(self).next() + 1,
            forall|d: u32| #[trigger] final(self).weight(d) == 0,
    {
        let ordinal: u64 = self.next_ordinal();
        let ghost window = self.window();
        let ghost base = self.dropped();
        let ghost query = self.pending()->0;
        let best = nearest(&self.candidates, distances, self.config.threshold);
        let r: (u64, u64) = match best {
            Some(p) => {
                proof {
                    let pairs = scored(self.candidates@, distances@);
                    let k = choose|k: int| 0 <= k < pairs.len() && pairs[k] == p;
                    assert(self.candidates@.contains(self.candidates@[k]));
                    assert(is_candidate(window, base, query, self.config.query_size, p.0));
                }
                p
            },
            None => (ordinal, 0),
        };
        match self.query.take() {
            Some(v) => {
                self.store.push(v);
            },
            None => {},
        }
        self.candidates = Vec::new();
        self.scorer.clear();
        proof {
            let longer = self.history@.push(query);
            assert(longer.drop_last() =~= self.history@);
            assert(longer.last() == query);
            self.history = Ghost(longer);
        }
        let ghost grown = window.push(query);
        assert(self.store.live() == grown);
        if self.store.len() > self.config.window {
            match self.store.pop_front() {
                Some(oldest) => {
                    assert(oldest@ == grown[0]);
                    assert(well_formed(grown[0], self.config.voc_size)) by {
                        if window.len() > 0 {
                            assert(grown[0] == window[0]);
                        }
                    }
                    let ghost before = self.index;
                    self.index.retire(&oldest);
                    proof {
                        assert forall|d: u32| #[trigger] self.index.ordinals(d) == occurrences(
                            grown.drop_first(),
                            base + 1,
                            d,
                        ) by {
                            lemma_occurrences_front(grown, base, d);
                            let rest = occurrences(grown.drop_first(), base + 1, d);
                            assert(before.ordinals(d) == occurrences(grown, base, d));
                            if has_dim(grown[0], d) {
                                assert((seq![base as u64] + rest).drop_first() =~= rest);
                            }
                        }
                    }
                },
                None => {},
            }
        }
        proof {
            assert forall|k: int| 0 <= k < self.window().len() implies well_formed(
                #[trigger] self.window()[k],
                self.config.voc_size,
            ) by {
                let j = if window.len() + 1 > self.config.window {
                    k + 1
                } else {
                    k
                };
                assert(self.window()[k] == grown[j]);
                if j < window.len() {
                    assert(grown[j] == window[j]);
                }
            }
        }
        r
    }

    /// The inverted index mirrors the window: while no query waits, the
    /// posting list of a dimension holds the ordinals of the live vectors
    /// with that dimension, oldest first, and as many as there are such
    /// vectors.
    pub proof fn lemma_index_mirrors_window(&self, d: u32)
        requires
            self.wf(),
            self.pending() is None,
        ensures
            self.posting(d) == occurrences(self.window(), self.dropped(), d),
            self.posting(d).len() == holders(self.window(), d),
            self.posting(d).len() <= self.settings().window,
            increasing(self.posting(d)),
            forall|c: u64|
                self.posting(d).contains(c) <==> self.dropped() <= c < self.next() && has_dim(
                    self.window()[c - self.dropped()],
                    d,
                ),
    {
        lemma_occurrences_count(self.window(), self.dropped(), d);
        lemma_holders_bound(self.window(), d);
        lemma_occurrences_increasing(self.window(), self.dropped(), d);
        assert forall|c: u64|
            self.posting(d).contains(c) <==> self.dropped() <= c < self.next() && has_dim(
                self.window()[c - self.dropped()],
                d,
            ) by {
            lemma_occurrences_members(self.window(), self.dropped(), d, c);
        }
    }

    /// The length of a posting list is what went in less what came out: one
    /// ordinal went in for each vector seen that holds the dimension, and
    /// one came out for each of those that were evicted.
    pub proof fn lemma_posting_balance(&self, d: u32)
        requires
            self.wf(),
            self.pending() is None,
        ensures
            self.posting(d).len() == holders(self.seen(), d) - holders(
                self.seen().take(self.dropped() as int),
                d,
            ),
    {
        self.lemma_index_mirrors_window(d);
        self.lemma_window_is_recent();
        let gone = self.seen().take(self.dropped() as int);
        assert(gone + self.window() =~= self.seen());
        lemma_holders_concat(gone, self.window(), d);
    }

    /// Between two records nothing waits: no candidates are held and the
    /// scatter buffer is clear.
    pub proof fn lemma_idle(&self)
        requires
            self.wf(),
            self.pending() is None,
        ensures
            self.candidate_list() == Seq::<u64>::empty(),
            forall|d: u32| #[trigger] self.weight(d) == 0,
    {
        assert(self.candidate_list() =~= Seq::<u64>::empty());
    }

    /// The window is the tail of what was seen: the evicted vectors are the
    /// first `dropped()` of the stream, the live ones are all the others,
    /// and they are no more than the window's size.
    pub proof fn lemma_window_is_recent(&self)
        requires
            self.wf(),
        ensures
            self.dropped() + self.window().len() == self.seen().len(),
            self.dropped() == evictions_after(self.seen(), self.settings().window),
            self.window() == self.seen().skip(self.dropped() as int),
            self.window().len() <= self.settings().window,
    {
        lemma_window_is_tail(self.seen(), self.settings().window);
    }

    /// While a query waits, its candidates are the live ordinals whose
    /// vector holds one of the probed dimensions of the query, in increasing
    /// order, and the index covers the query under its ordinal.
    pub proof fn lemma_candidates(&self)
        requires
            self.wf(),
            self.pending() is Some,
        ensures
            increasing(self.candidate_list()),
            forall|c: u64|
                self.candidate_list().contains(c) <==> is_candidate(
                    self.window(),
                    self.dropped(),
                    self.pending()->0,
                    self.settings().query_size,
                    c,
                ),
            forall|d: u32| #[trigger] self.posting(d) == occurrences(self.indexed(), self.dropped(), d),
            well_formed(self.pending()->0, self.settings().voc_size),
            self.next() < self.settings().limit,
    {
    }

    /// What a detector shows is fixed by what it has seen: two detectors
    /// with the same settings, the same window and the same waiting query
    /// hold the same candidates, posting lists and weights.
    pub proof fn lemma_state_fixes_view(&self, other: &Detector)
        requires
            self.wf(),
            other.wf(),
            self.pending() is Some,
            self.settings() == other.settings(),
            self.window() == other.window(),
            self.dropped() == other.dropped(),
            self.pending() == other.pending(),
        ensures
            self.candidate_list() == other.candidate_list(),
            forall|d: u32| #[trigger] self.posting(d) == other.posting(d),
            forall|d: u32| #[trigger] self.weight(d) == other.weight(d),
    {
        lemma_increasing_unique(self.candidate_list(), other.candidate_list());
    }

    /// Window aging: a candidate is older than the query that waits, by no
    /// more than the window's size. So the vector of ordinal `c` is a
    /// candidate only for queries of the ordinals from `c + 1` to
    /// `c + window`.
    pub proof fn lemma_candidates_are_recent(&self, c: u64)
        requires
            self.wf(),
            self.pending() is Some,
            self.candidate_list().contains(c),
        ensures
            self.dropped() <= c,
            c + 1 <= self.next() <= c + self.settings().window,
    {
    }

    /// Blocking: a live vector that holds none of the probed dimensions of
    /// the query that waits is not among its candidates.
    pub proof fn lemma_candidates_share_a_probe(&self, c: u64)
        requires
            self.wf(),
            self.pending() is Some,
            self.dropped() <= c < self.next(),
            forall|k: int|
                0 <= k < self.pending()->0.len() && k < self.settings().query_size ==> !has_dim(
                    self.window()[c - self.dropped()],
                    (#[trigger] self.pending()->0[k]).0,
                ),
        ensures
            !self.candidate_list().contains(c),
    {
        let q = self.pending()->0;
        if self.candidate_list().contains(c) {
            assert(is_candidate(self.window(), self.dropped(), q, self.settings().query_size, c));
            let k = choose|k: int|
                0 <= k < q.len() && k < self.settings().query_size && has_dim(
                    self.window()[c - self.dropped()],
                    (#[trigger] q[k]).0,
                );
            assert(!has_dim(self.window()[c - self.dropped()], q[k].0));
        }
    }

    /// What every state keeps: the window is no longer than its size, no
    /// ordinal passes the cap, and every live vector is well formed.
    pub proof fn lemma_bounds(&self)
        requires
            self.wf(),
        ensures
            self.settings().valid(),
            self.window().len() <= self.settings().window,
            self.next() <= self.settings().limit,
            forall|k: int|
                0 <= k < self.window().len() ==> well_formed(#[trigger] self.window()[k], self.settings().voc_size),
    {
    }
}

} // verus!
