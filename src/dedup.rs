use vstd::prelude::*;
use crate::types::ChunkId;

verus! {

/// The reference count of `k` in `m`: zero where `k` is absent.
pub open spec fn count_in(m: Map<Seq<char>, nat>, k: Seq<char>) -> nat {
    if m.contains_key(k) {
        m[k]
    } else {
        0
    }
}

/// `m` after one more reference to `k`.
pub open spec fn acquired(m: Map<Seq<char>, nat>, k: Seq<char>) -> Map<Seq<char>, nat> {
    m.insert(k, count_in(m, k) + 1)
}

/// `m` after one reference to `k` is dropped: the entry goes when its count
/// reaches zero, and an unknown `k` changes nothing.
pub open spec fn released(m: Map<Seq<char>, nat>, k: Seq<char>) -> Map<Seq<char>, nat> {
    if !m.contains_key(k) {
        m
    } else if m[k] <= 1 {
        m.remove(k)
    } else {
        m.insert(k, (m[k] - 1) as nat)
    }
}

/// Maps each content address to the number of references to it.
pub struct DedupIndex {
    keys: Vec<ChunkId>,
    counts: Vec<u64>,
    refs: Ghost<Map<Seq<char>, nat>>,
}

impl View for DedupIndex {
    type V = Map<Seq<char>, nat>;

    closed spec fn view(&self) -> Map<Seq<char>, nat> {
        self.refs@
    }
}

impl DedupIndex {
    /// Entries are unique, every count is positive and fits in a `u64`, and
    /// the entries are exactly the map's.
    pub closed spec fn wf(&self) -> bool {
        &&& self.keys@.len() == self.counts@.len()
        &&& self.refs@.dom().finite()
        &&& self.refs@.dom().len() == self.keys@.len()
        &&& forall|i: int|
            0 <= i < self.keys@.len() ==> {
                &&& self.refs@.contains_key(#[trigger] self.keys@[i]@)
                &&& self.refs@[self.keys@[i]@] == self.counts@[i] as nat
                &&& self.counts@[i] > 0
            }
        &&& forall|i: int, j: int|
            0 <= i < j < self.keys@.len() ==> (#[trigger] self.keys@[i])@ != (
            #[trigger] self.keys@[j])@
        &&& forall|k: Seq<char>|
            #[trigger] self.refs@.contains_key(k) ==> exists|i: int|
                0 <= i < self.keys@.len() && (#[trigger] self.keys@[i])@ == k
    }

    /// Every count of a well-formed index fits in a `u64`.
    pub proof fn lemma_counts_bounded(&self, k: Seq<char>)
        requires
            self.wf(),
        ensures
            count_in(self@, k) <= u64::MAX,
            self@.contains_key(k) ==> self@[k] > 0,
    {
        if self@.contains_key(k) {
            let i = choose|i: int| 0 <= i < self.keys@.len() && (#[trigger] self.keys@[i])@ == k;
            assert(self.refs@[self.keys@[i]@] == self.counts@[i] as nat);
        }
    }

    pub fn new() -> (r: DedupIndex)
        ensures
            r.wf(),
            r@ == Map::<Seq<char>, nat>::empty(),
            r@.dom().finite(),
    {
        DedupIndex { keys: Vec::new(), counts: Vec::new(), refs: Ghost(Map::empty()) }
    }

    /// Position of `chunk_id` among the entries.
    fn find(&self, chunk_id: &ChunkId) -> (r: Option<usize>)
        requires
            self.wf(),
        ensures
            r matches Some(i) ==> i < self.keys@.len() && self.keys@[i as int]@ == chunk_id@,
            r is None ==> !self@.contains_key(chunk_id@),
    {
        let mut i: usize = 0;
        while i < self.keys.len()
            invariant
                self.wf(),
                i <= self.keys@.len(),
                forall|j: int| 0 <= j < i ==> (#[trigger] self.keys@[j])@ != chunk_id@,
            decreases self.keys@.len() - i,
        {
            if self.keys[i] == *chunk_id {
                return Some(i);
            }
            i = i + 1;
        }
        None
    }

    /// Whether the address has an entry.
    pub fn contains(&self, chunk_id: &ChunkId) -> (r: bool)
        requires
            self.wf(),
        ensures
            r == self@.contains_key(chunk_id@),
    {
        self.find(chunk_id).is_some()
    }

    /// Add one reference to the address, creating its entry with count 1.
    pub fn insert(&mut self, chunk_id: ChunkId)
        requires
            old(self).wf(),
            count_in(old(self)@, chunk_id@) < u64::MAX,
        ensures
            final(self).wf(),
            final(self)@ == acquired(old(self)@, chunk_id@),
            final(self)@.dom().finite(),
            final(self)@.len() == if old(self)@.contains_key(chunk_id@) {
                old(self)@.len()
            } else {
                old(self)@.len() + 1
            },
    {
        match self.find(&chunk_id) {
            Some(i) => {
                let c = self.counts[i];
                proof {
                    assert(self.refs@[self.keys@[i as int]@] == c as nat);
                }
                self.counts.set(i, c + 1);
                self.refs = Ghost(acquired(self.refs@, chunk_id@));
                proof {
                    assert forall|k: Seq<char>| #[trigger] self.refs@.contains_key(k) implies exists|
                        j: int,
                    | 0 <= j < self.keys@.len() && (#[trigger] self.keys@[j])@ == k by {
                        if k != chunk_id@ {
                            assert(old(self).refs@.contains_key(k));
                            let j = choose|j: int|
                                0 <= j < old(self).keys@.len() && (#[trigger] old(
                                    self,
                                ).keys@[j])@ == k;
                            assert(self.keys@[j]@ == k);
                        } else {
                            assert(self.keys@[i as int]@ == k);
                        }
                    }
                    assert(self.refs@.dom() =~= old(self).refs@.dom());
                }
            },
            None => {
                let ghost k = chunk_id@;
                self.keys.push(chunk_id);
                self.counts.push(1);
                self.refs = Ghost(acquired(self.refs@, k));
                proof {
                    let n = self.keys@.len() - 1;
                    assert(self.keys@[n]@ == k);
                    assert forall|q: Seq<char>| #[trigger] self.refs@.contains_key(q) implies exists|
                        j: int,
                    | 0 <= j < self.keys@.len() && (#[trigger] self.keys@[j])@ == q by {
                        if q != k {
                            assert(old(self).refs@.contains_key(q));
                            let j = choose|j: int|
                                0 <= j < old(self).keys@.len() && (#[trigger] old(
                                    self,
                                ).keys@[j])@ == q;
                            assert(self.keys@[j] == old(self).keys@[j]);
                        } else {
                            assert(self.keys@[n]@ == q);
                        }
                    }
                    assert forall|a: int, b: int|
                        0 <= a < b < self.keys@.len() implies (#[trigger] self.keys@[a])@ != (
                        #[trigger] self.keys@[b])@ by {
                        if b == n {
                            assert(old(self).refs@.contains_key(old(self).keys@[a]@));
                        }
                    }
                    assert forall|a: int| 0 <= a < self.keys@.len() implies {
                        &&& self.refs@.contains_key(#[trigger] self.keys@[a]@)
                        &&& self.refs@[self.keys@[a]@] == self.counts@[a] as nat
                        &&& self.counts@[a] > 0
                    } by {
                        if a < n {
                            assert(old(self).refs@.contains_key(old(self).keys@[a]@));
                        }
                    }
                }
            },
        }
    }

    /// Drop one reference to the address. Returns true exactly when its count
    /// reached zero, and the entry is then gone; an unknown address is a no-op
    /// that returns false.
    pub fn remove(&mut self, chunk_id: &ChunkId) -> (r: bool)
        requires
            old(self).wf(),
        ensures
            final(self).wf(),
            final(self)@ == released(old(self)@, chunk_id@),
            r == (old(self)@.contains_key(chunk_id@) && old(self)@[chunk_id@] == 1),
            final(self)@.dom().finite(),
            final(self)@.len() == if r {
                (old(self)@.len() - 1) as nat
            } else {
                old(self)@.len()
            },
    {
        match self.find(chunk_id) {
            None => false,
            Some(i) => {
                let c = self.counts[i];
                proof {
                    assert(self.refs@[self.keys@[i as int]@] == c as nat);
                }
                if c > 1 {
                    self.counts.set(i, c - 1);
                    self.refs = Ghost(released(self.refs@, chunk_id@));
                    proof {
                        assert forall|k: Seq<char>| #[trigger] self.refs@.contains_key(k) implies exists|
                            j: int,
                        | 0 <= j < self.keys@.len() && (#[trigger] self.keys@[j])@ == k by {
                            if k != chunk_id@ {
                                assert(old(self).refs@.contains_key(k));
                                let j = choose|j: int|
                                    0 <= j < old(self).keys@.len() && (#[trigger] old(
                                        self,
                                    ).keys@[j])@ == k;
                                assert(self.keys@[j]@ == k);
                            } else {
                                assert(self.keys@[i as int]@ == k);
                            }
                        }
                        assert(self.refs@.dom() =~= old(self).refs@.dom());
                        assert forall|a: int| 0 <= a < self.keys@.len() implies {
                            &&& self.refs@.contains_key(#[trigger] self.keys@[a]@)
                            &&& self.refs@[self.keys@[a]@] == self.counts@[a] as nat
                            &&& self.counts@[a] > 0
                        } by {
                            assert(old(self).refs@.contains_key(old(self).keys@[a]@));
                            if a != i {
                                if a < i {
                                    assert(old(self).keys@[a]@ != old(self).keys@[i as int]@);
                                } else {
                                    assert(old(self).keys@[i as int]@ != old(self).keys@[a]@);
                                }
                            }
                        }
                    }
                    false
                } else {
                    let ghost k = chunk_id@;
                    let ghost last = (self.keys@.len() - 1) as int;
                    let ghost old_keys = self.keys@;
                    let ghost old_counts = self.counts@;
                    self.keys.swap_remove(i);
                    self.counts.swap_remove(i);
                    self.refs = Ghost(released(self.refs@, k));
                    proof {
                        assert(old(self).refs@.dom().contains(k));
                        assert(self.refs@.dom() =~= old(self).refs@.dom().remove(k));
                        assert(self.refs@.dom().len() == old(self).refs@.dom().len() - 1);
                        assert forall|a: int| 0 <= a < self.keys@.len() implies {
                            &&& self.refs@.contains_key(#[trigger] self.keys@[a]@)
                            &&& self.refs@[self.keys@[a]@] == self.counts@[a] as nat
                            &&& self.counts@[a] > 0
                        } by {
                            if a == i {
                                assert(self.keys@[a] == old_keys[last]);
                                assert(self.counts@[a] == old_counts[last]);
                                assert(old(self).refs@.contains_key(old_keys[last]@));
                            } else {
                                assert(self.keys@[a] == old_keys[a]);
                                assert(old(self).refs@.contains_key(old_keys[a]@));
                            }
                        }
                        assert forall|a: int, b: int|
                            0 <= a < b < self.keys@.len() implies (#[trigger] self.keys@[a])@ != (
                            #[trigger] self.keys@[b])@ by {
                            let oa = if a == i { last } else { a };
                            let ob = if b == i { last } else { b };
                            assert(self.keys@[a] == old_keys[oa]);
                            assert(self.keys@[b] == old_keys[ob]);
                            if oa < ob {
                                assert(old_keys[oa]@ != old_keys[ob]@);
                            } else {
                                assert(old_keys[ob]@ != old_keys[oa]@);
                            }
                        }
                        assert forall|q: Seq<char>| #[trigger] self.refs@.contains_key(q) implies exists|
                            j: int,
                        | 0 <= j < self.keys@.len() && (#[trigger] self.keys@[j])@ == q by {
                            assert(old(self).refs@.contains_key(q));
                            let j = choose|j: int|
                                0 <= j < old_keys.len() && (#[trigger] old_keys[j])@ == q;
                            assert(j != i);
                            if j == last {
                                assert(self.keys@[i as int] == old_keys[last]);
                            } else {
                                assert(self.keys@[j] == old_keys[j]);
                            }
                        }
                    }
                    true
                }
            },
        }
    }

    /// Number of distinct addresses.
    pub fn len(&self) -> (r: usize)
        requires
            self.wf(),
        ensures
            r == self@.len(),
    {
        self.keys.len()
    }

    /// Whether no address has an entry.
    pub fn is_empty(&self) -> (r: bool)
        requires
            self.wf(),
        ensures
            r == (self@.len() == 0),
    {
        self.len() == 0
    }

    /// Reference count of the address; zero where it has no entry.
    pub fn get_ref_count(&self, chunk_id: &ChunkId) -> (r: u64)
        requires
            self.wf(),
        ensures
            r == count_in(self@, chunk_id@),
    {
        match self.find(chunk_id) {
            Some(i) => {
                proof {
                    assert(self.refs@[self.keys@[i as int]@] == self.counts@[i as int] as nat);
                }
                self.counts[i]
            },
            None => 0,
        }
    }
}

/// Deduplication front end over an index.
pub struct DedupStore {
    index: DedupIndex,
}

/// Counters of a deduplication store.
#[derive(Debug, Clone, Copy, PartialEq, Eq)]
pub struct DedupStats {
    pub total_chunks: usize,
}

impl DedupStore {
    pub fn new() -> (r: DedupStore)
        ensures
            r.wf(),
            r@ == Map::<Seq<char>, nat>::empty(),
    {
        DedupStore { index: DedupIndex::new() }
    }

    /// The index is well formed.
    pub closed spec fn wf(&self) -> bool {
        self.index.wf()
    }

    /// Reference counts by address.
    pub closed spec fn view(&self) -> Map<Seq<char>, nat> {
        self.index@
    }

    /// Every count of a well-formed store fits in a `u64`.
    pub proof fn lemma_counts_bounded(&self, k: Seq<char>)
        requires
            self.wf(),
        ensures
            count_in(self@, k) <= u64::MAX,
            self@.contains_key(k) ==> self@[k] > 0,
    {
        self.index.lemma_counts_bounded(k);
    }

    /// Whether a chunk with this address is already known.
    pub fn is_duplicate(&self, chunk_id: &ChunkId) -> (r: bool)
        requires
            self.wf(),
        ensures
            r == self@.contains_key(chunk_id@),
    {
        self.index.contains(chunk_id)
    }

    /// Record one more reference to a chunk.
    pub fn register_chunk(&mut self, chunk_id: ChunkId)
        requires
            old(self).wf(),
            count_in(old(self)@, chunk_id@) < u64::MAX,
        ensures
            final(self).wf(),
            final(self)@ == acquired(old(self)@, chunk_id@),
            final(self)@.dom().finite(),
            final(self)@.len() == if old(self)@.contains_key(chunk_id@) {
                old(self)@.len()
            } else {
                old(self)@.len() + 1
            },
    {
        self.index.insert(chunk_id)
    }

    /// Drop one reference to a chunk; true when the chunk may now be deleted.
    pub fn unregister_chunk(&mut self, chunk_id: &ChunkId) -> (r: bool)
        requires
            old(self).wf(),
        ensures
            final(self).wf(),
            final(self)@ == released(old(self)@, chunk_id@),
            r == (old(self)@.contains_key(chunk_id@) && old(self)@[chunk_id@] == 1),
            final(self)@.dom().finite(),
            final(self)@.len() == if r {
                (old(self)@.len() - 1) as nat
            } else {
                old(self)@.len()
            },
    {
        self.index.remove(chunk_id)
    }

    /// Number of distinct chunks.
    pub fn stats(&self) -> (r: DedupStats)
        requires
            self.wf(),
        ensures
            r.total_chunks == self@.len(),
    {
        DedupStats { total_chunks: self.index.len() }
    }

    /// The underlying index.
    pub fn index(&self) -> (r: &DedupIndex)
        requires
            self.wf(),
        ensures
            r.wf(),
            r@ == self@,
    {
        &self.index
    }
}

} // verus!
