use vstd::prelude::*;
use vstd::slice::slice_to_vec;
use crate::error::Error;
use crate::types::ChunkId;

verus! {

/// Best-effort accounting of a backend.
#[derive(Debug, Clone, Copy, PartialEq, Eq)]
pub struct StorageStats {
    pub total_chunks: u64,
    pub total_bytes: u64,
    pub available_bytes: Option<u64>,
}

/// Where a repository lives.
#[derive(Debug, Clone)]
pub enum StorageConfig {
    Local { path: String },
    S3 {
        bucket: String,
        region: String,
        endpoint: Option<String>,
        access_key: String,
        secret_key: String,
    },
    B2 { bucket: String, key_id: String, application_key: String },
}

/// `ids` lists the keys of `m`, each once.
pub open spec fn lists_keys(ids: Seq<ChunkId>, m: Map<Seq<char>, Seq<u8>>) -> bool {
    &&& ids.len() == m.dom().len()
    &&& forall|i: int| 0 <= i < ids.len() ==> m.contains_key(#[trigger] ids[i]@)
    &&& forall|i: int, j: int| 0 <= i < j < ids.len() ==> (#[trigger] ids[i])@ != (#[trigger] ids[j])@
    &&& forall|k: Seq<char>| #[trigger] m.contains_key(k) ==> exists|i: int| 0 <= i < ids.len() && (#[trigger] ids[i])@ == k
}

/// A content-addressed blob store with a small key/value store beside it.
/// Failed writes leave the store as it was.
pub trait StorageBackend {
    /// The backend's own consistency condition, kept by every operation.
    spec fn inv(&self) -> bool;

    /// The backend never fails: every operation succeeds where its contract
    /// allows success.
    spec fn reliable(&self) -> bool;

    /// The stored blobs by address.
    spec fn chunks(&self) -> Map<Seq<char>, Seq<u8>>;

    /// The metadata records by key.
    spec fn metadata(&self) -> Map<Seq<char>, Seq<u8>>;

    /// Store a blob under an address; writing the same bytes again changes nothing.
    fn put_chunk(&mut self, chunk_id: &ChunkId, data: Vec<u8>) -> (r: Result<(), Error>)
        requires
            old(self).inv(),
        ensures
            final(self).inv(),
            final(self).reliable() == old(self).reliable(),
            old(self).reliable() ==> r is Ok,
            r is Ok ==> final(self).chunks() == old(self).chunks().insert(chunk_id@, data@),
            r is Err ==> final(self).chunks() == old(self).chunks(),
            final(self).metadata() == old(self).metadata(),
    ;

    /// The exact bytes stored under an address; `ChunkNotFound` where there are none.
    fn get_chunk(&self, chunk_id: &ChunkId) -> (r: Result<Vec<u8>, Error>)
        requires
            self.inv(),
        ensures
            r matches Ok(v) ==> self.chunks().contains_key(chunk_id@) && v@ == self.chunks()[chunk_id@],
            !self.chunks().contains_key(chunk_id@) ==> (r matches Err(e) && e is ChunkNotFound),
            self.reliable() && self.chunks().contains_key(chunk_id@) ==> r is Ok,
    ;

    /// Whether a blob is stored under an address.
    fn chunk_exists(&self, chunk_id: &ChunkId) -> (r: Result<bool, Error>)
        requires
            self.inv(),
        ensures
            r matches Ok(b) ==> b == self.chunks().contains_key(chunk_id@),
            self.reliable() ==> r is Ok,
    ;

    /// Remove the blob under an address; removing an absent one succeeds.
    fn delete_chunk(&mut self, chunk_id: &ChunkId) -> (r: Result<(), Error>)
        requires
            old(self).inv(),
        ensures
            final(self).inv(),
            final(self).reliable() == old(self).reliable(),
            old(self).reliable() ==> r is Ok,
            r is Ok ==> final(self).chunks() == old(self).chunks().remove(chunk_id@),
            r is Err ==> final(self).chunks() == old(self).chunks(),
            final(self).metadata() == old(self).metadata(),
    ;

    /// Every stored address, once each.
    fn list_chunks(&self) -> (r: Result<Vec<ChunkId>, Error>)
        requires
            self.inv(),
        ensures
            r matches Ok(ids) ==> lists_keys(ids@, self.chunks()),
            self.reliable() ==> r is Ok,
    ;

    /// Store a metadata record.
    fn put_metadata(&mut self, key: &str, data: Vec<u8>) -> (r: Result<(), Error>)
        requires
            old(self).inv(),
        ensures
            final(self).inv(),
            final(self).reliable() == old(self).reliable(),
            old(self).reliable() ==> r is Ok,
            r is Ok ==> final(self).metadata() == old(self).metadata().insert(key@, data@),
            r is Err ==> final(self).metadata() == old(self).metadata(),
            final(self).chunks() == old(self).chunks(),
    ;

    /// The metadata record under a key.
    fn get_metadata(&self, key: &str) -> (r: Result<Vec<u8>, Error>)
        requires
            self.inv(),
        ensures
            r matches Ok(v) ==> self.metadata().contains_key(key@) && v@ == self.metadata()[key@],
            !self.metadata().contains_key(key@) ==> r is Err,
            self.reliable() && self.metadata().contains_key(key@) ==> r is Ok,
    ;

    /// Remove a metadata record; removing an absent one succeeds.
    fn delete_metadata(&mut self, key: &str) -> (r: Result<(), Error>)
        requires
            old(self).inv(),
        ensures
            final(self).inv(),
            final(self).reliable() == old(self).reliable(),
            old(self).reliable() ==> r is Ok,
            r is Ok ==> final(self).metadata() == old(self).metadata().remove(key@),
            r is Err ==> final(self).metadata() == old(self).metadata(),
            final(self).chunks() == old(self).chunks(),
    ;

    /// Counts of what is stored.
    fn stats(&self) -> (r: Result<StorageStats, Error>)
        requires
            self.inv(),
        ensures
            r matches Ok(s) ==> s.total_chunks == self.chunks().len(),
            self.reliable() ==> r is Ok,
    ;
}

/// Byte strings by string key, kept as parallel vectors of unique keys.
struct BlobTable {
    keys: Vec<String>,
    vals: Vec<Vec<u8>>,
    map: Ghost<Map<Seq<char>, Seq<u8>>>,
}

impl View for BlobTable {
    type V = Map<Seq<char>, Seq<u8>>;

    closed spec fn view(&self) -> Map<Seq<char>, Seq<u8>> {
        self.map@
    }
}

impl BlobTable {
    /// Keys are unique and the entries are exactly the map's.
    pub closed spec fn wf(&self) -> bool {
        &&& self.keys@.len() == self.vals@.len()
        &&& self.map@.dom().finite()
        &&& self.map@.dom().len() == self.keys@.len()
        &&& forall|i: int|
            0 <= i < self.keys@.len() ==> {
                &&& self.map@.contains_key(#[trigger] self.keys@[i]@)
                &&& self.map@[self.keys@[i]@] == self.vals@[i]@
            }
        &&& forall|i: int, j: int|
            0 <= i < j < self.keys@.len() ==> (#[trigger] self.keys@[i])@ != (
            #[trigger] self.keys@[j])@
        &&& forall|k: Seq<char>|
            #[trigger] self.map@.contains_key(k) ==> exists|i: int|
                0 <= i < self.keys@.len() && (#[trigger] self.keys@[i])@ == k
    }

    pub fn new() -> (r: BlobTable)
        ensures
            r.wf(),
            r@ == Map::<Seq<char>, Seq<u8>>::empty(),
    {
        BlobTable { keys: Vec::new(), vals: Vec::new(), map: Ghost(Map::empty()) }
    }

    fn find(&self, key: &String) -> (r: Option<usize>)
        requires
            self.wf(),
        ensures
            r matches Some(i) ==> i < self.keys@.len() && self.keys@[i as int]@ == key@,
            r is None ==> !self@.contains_key(key@),
    {
        let mut i: usize = 0;
        while i < self.keys.len()
            invariant
                self.wf(),
                i <= self.keys@.len(),
                forall|j: int| 0 <= j < i ==> (#[trigger] self.keys@[j])@ != key@,
            decreases self.keys@.len() - i,
        {
            if self.keys[i] == *key {
                return Some(i);
            }
            i = i + 1;
        }
        None
    }

    /// Number of entries.
    pub fn len(&self) -> (r: usize)
        requires
            self.wf(),
        ensures
            r == self@.len(),
    {
        self.keys.len()
    }

    /// A copy of the bytes under `key`.
    pub fn get(&self, key: &String) -> (r: Option<Vec<u8>>)
        requires
            self.wf(),
        ensures
            r is Some == self@.contains_key(key@),
            r matches Some(v) ==> v@ == self@[key@],
    {
        match self.find(key) {
            Some(i) => {
                proof {
                    assert(self.map@[self.keys@[i as int]@] == self.vals@[i as int]@);
                }
                Some(slice_to_vec(self.vals[i].as_slice()))
            },
            None => None,
        }
    }

    /// Set the bytes under `key`.
    pub fn put(&mut self, key: String, data: Vec<u8>)
        requires
            old(self).wf(),
        ensures
            final(self).wf(),
            final(self)@ == old(self)@.insert(key@, data@),
    {
        match self.find(&key) {
            Some(i) => {
                let ghost k = key@;
                let ghost d = data@;
                self.vals.set(i, data);
                self.map = Ghost(self.map@.insert(k, d));
                proof {
                    assert forall|q: Seq<char>| #[trigger] self.map@.contains_key(q) implies exists|
                        j: int,
                    | 0 <= j < self.keys@.len() && (#[trigger] self.keys@[j])@ == q by {
                        if q != k {
                            assert(old(self).map@.contains_key(q));
                            let j = choose|j: int|
                                0 <= j < old(self).keys@.len() && (#[trigger] old(
                                    self,
                                ).keys@[j])@ == q;
                            assert(self.keys@[j]@ == q);
                        } else {
                            assert(self.keys@[i as int]@ == q);
                        }
                    }
                    assert forall|a: int| 0 <= a < self.keys@.len() implies {
                        &&& self.map@.contains_key(#[trigger] self.keys@[a]@)
                        &&& self.map@[self.keys@[a]@] == self.vals@[a]@
                    } by {
                        if a != i {
                            assert(old(self).map@.contains_key(old(self).keys@[a]@));
                            assert(old(self).keys@[a]@ != k) by {
                                if a < i {
                                    assert(old(self).keys@[a]@ != old(self).keys@[i as int]@);
                                } else {
                                    assert(old(self).keys@[i as int]@ != old(self).keys@[a]@);
                                }
                            }
                        }
                    }
                    assert(self.map@.dom() =~= old(self).map@.dom());
                }
            },
            None => {
                let ghost k = key@;
                let ghost d = data@;
                self.keys.push(key);
                self.vals.push(data);
                self.map = Ghost(self.map@.insert(k, d));
                proof {
                    let n = self.keys@.len() - 1;
                    assert(self.keys@[n]@ == k);
                    assert forall|q: Seq<char>| #[trigger] self.map@.contains_key(q) implies exists|
                        j: int,
                    | 0 <= j < self.keys@.len() && (#[trigger] self.keys@[j])@ == q by {
                        if q != k {
                            assert(old(self).map@.contains_key(q));
                            let j = choose|j: int|
                                0 <= j < old(self).keys@.len() && (#[trigger] old(
                                    self,
                                ).keys@[j])@ == q;
                            assert(self.keys@[j] == old(self).keys@[j]);
                        } else {
                            assert(self.keys@[n]@ == q);
                        }
                    }
                    assert forall|a: int, b: int|
                        0 <= a < b < self.keys@.len() implies (#[trigger] self.keys@[a])@ != (
                        #[trigger] self.keys@[b])@ by {
                        if b == n {
                            assert(old(self).map@.contains_key(old(self).keys@[a]@));
                        }
                    }
                    assert forall|a: int| 0 <= a < self.keys@.len() implies {
                        &&& self.map@.contains_key(#[trigger] self.keys@[a]@)
                        &&& self.map@[self.keys@[a]@] == self.vals@[a]@
                    } by {
                        if a < n {
                            assert(old(self).map@.contains_key(old(self).keys@[a]@));
                        }
                    }
                }
            },
        }
    }

    /// Remove the entry under `key`, if any.
    pub fn remove(&mut self, key: &String)
        requires
            old(self).wf(),
        ensures
            final(self).wf(),
            final(self)@ == old(self)@.remove(key@),
    {
        match self.find(key) {
            None => {
                assert(self.map@ =~= old(self).map@.remove(key@));
            },
            Some(i) => {
                let ghost k = key@;
                let ghost last = (self.keys@.len() - 1) as int;
                let ghost old_keys = self.keys@;
                let ghost old_vals = self.vals@;
                self.keys.swap_remove(i);
                self.vals.swap_remove(i);
                self.map = Ghost(self.map@.remove(k));
                proof {
                    assert(old(self).map@.dom().contains(k));
                    assert(self.map@.dom() =~= old(self).map@.dom().remove(k));
                    assert(self.map@.dom().len() == old(self).map@.dom().len() - 1);
                    assert forall|a: int| 0 <= a < self.keys@.len() implies {
                        &&& self.map@.contains_key(#[trigger] self.keys@[a]@)
                        &&& self.map@[self.keys@[a]@] == self.vals@[a]@
                    } by {
                        let oa = if a == i { last } else { a };
                        assert(self.keys@[a] == old_keys[oa]);
                        assert(self.vals@[a] == old_vals[oa]);
                        assert(old(self).map@.contains_key(old_keys[oa]@));
                        assert(old_keys[oa]@ != k) by {
                            if oa < i {
                                assert(old_keys[oa]@ != old_keys[i as int]@);
                            } else {
                                assert(old_keys[i as int]@ != old_keys[oa]@);
                            }
                        }
                    }
                    assert forall|a: int, b: int|
                        0 <= a < b < self.keys@.len() implies (#[trigger] self.keys@[a])@ != (
                        #[trigger] self.keys@[b])@ by {
                        let oa = if a == i { last } else { a };
                        let ob = if b == i { last } else { b };
                        assert(self.keys@[a] == old_keys[oa]);
                        assert(self.keys@[b] == old_keys[ob]);
                        if oa < ob {
                            assert(old_keys[oa]@ != old_keys[ob]@);
                        } else {
                            assert(old_keys[ob]@ != old_keys[oa]@);
                        }
                    }
                    assert forall|q: Seq<char>| #[trigger] self.map@.contains_key(q) implies exists|
                        j: int,
                    | 0 <= j < self.keys@.len() && (#[trigger] self.keys@[j])@ == q by {
                        assert(old(self).map@.contains_key(q));
                        let j = choose|j: int|
                            0 <= j < old_keys.len() && (#[trigger] old_keys[j])@ == q;
                        assert(j != i);
                        if j == last {
                            assert(self.keys@[i as int] == old_keys[last]);
                        } else {
                            assert(self.keys@[j] == old_keys[j]);
                        }
                    }
                }
            },
        }
    }

    /// Every key, once each, as addresses.
    pub fn key_ids(&self) -> (r: Vec<ChunkId>)
        requires
            self.wf(),
        ensures
            lists_keys(r@, self@),
    {
        let mut out: Vec<ChunkId> = Vec::new();
        let mut i: usize = 0;
        while i < self.keys.len()
            invariant
                self.wf(),
                i <= self.keys@.len(),
                out@.len() == i,
                forall|j: int| 0 <= j < i ==> (#[trigger] out@[j])@ == self.keys@[j]@,
            decreases self.keys@.len() - i,
        {
            out.push(ChunkId(self.keys[i].clone()));
            i = i + 1;
        }
        proof {
            assert forall|a: int| 0 <= a < out@.len() implies self@.contains_key(#[trigger] out@[a]@) by {
                assert(self.map@.contains_key(self.keys@[a]@));
            }
            assert forall|a: int, b: int| 0 <= a < b < out@.len() implies (#[trigger] out@[a])@ != (#[trigger] out@[b])@ by {
                assert(self.keys@[a]@ != self.keys@[b]@);
            }
            assert forall|k: Seq<char>| #[trigger] self@.contains_key(k) implies exists|a: int| 0 <= a < out@.len() && (#[trigger] out@[a])@ == k by {
                let j = choose|j: int| 0 <= j < self.keys@.len() && (#[trigger] self.keys@[j])@ == k;
                assert(out@[j]@ == k);
            }
        }
        out
    }
}

/// A backend held in memory.
pub struct MemoryStorage {
    chunks: BlobTable,
    meta: BlobTable,
}

impl MemoryStorage {
    /// Both tables are well formed.
    pub closed spec fn wf(&self) -> bool {
        self.chunks.wf() && self.meta.wf()
    }

    /// An empty store.
    pub fn new() -> (r: MemoryStorage)
        ensures
            r.inv(),
            r.reliable(),
            r.chunks() == Map::<Seq<char>, Seq<u8>>::empty(),
            r.metadata() == Map::<Seq<char>, Seq<u8>>::empty(),
    {
        MemoryStorage { chunks: BlobTable::new(), meta: BlobTable::new() }
    }

    /// Number of stored blobs.
    pub fn chunk_count(&self) -> (r: usize)
        requires
            self.inv(),
        ensures
            r == self.chunks().len(),
    {
        self.chunks.len()
    }
}

impl StorageBackend for MemoryStorage {
    closed spec fn inv(&self) -> bool {
        self.wf()
    }

    closed spec fn reliable(&self) -> bool {
        true
    }

    closed spec fn chunks(&self) -> Map<Seq<char>, Seq<u8>> {
        self.chunks@
    }

    closed spec fn metadata(&self) -> Map<Seq<char>, Seq<u8>> {
        self.meta@
    }

    fn put_chunk(&mut self, chunk_id: &ChunkId, data: Vec<u8>) -> (r: Result<(), Error>) {
        self.chunks.put(chunk_id.0.clone(), data);
        Ok(())
    }

    fn get_chunk(&self, chunk_id: &ChunkId) -> (r: Result<Vec<u8>, Error>) {
        match self.chunks.get(&chunk_id.0) {
            Some(v) => Ok(v),
            None => Err(Error::ChunkNotFound(chunk_id.0.clone())),
        }
    }

    fn chunk_exists(&self, chunk_id: &ChunkId) -> (r: Result<bool, Error>) {
        Ok(self.chunks.get(&chunk_id.0).is_some())
    }

    fn delete_chunk(&mut self, chunk_id: &ChunkId) -> (r: Result<(), Error>) {
        self.chunks.remove(&chunk_id.0);
        Ok(())
    }

    fn list_chunks(&self) -> (r: Result<Vec<ChunkId>, Error>) {
        Ok(self.chunks.key_ids())
    }

    fn put_metadata(&mut self, key: &str, data: Vec<u8>) -> (r: Result<(), Error>) {
        self.meta.put(key.to_string(), data);
        Ok(())
    }

    fn get_metadata(&self, key: &str) -> (r: Result<Vec<u8>, Error>) {
        match self.meta.get(&key.to_string()) {
            Some(v) => Ok(v),
            None => Err(Error::Unknown("Metadata not found".to_string())),
        }
    }

    fn delete_metadata(&mut self, key: &str) -> (r: Result<(), Error>) {
        self.meta.remove(&key.to_string());
        Ok(())
    }

    fn stats(&self) -> (r: Result<StorageStats, Error>) {
        let n = self.chunks.len();
        let mut total: u64 = 0;
        let mut i: usize = 0;
        while i < self.chunks.vals.len()
            invariant
                self.wf(),
                i <= self.chunks.vals@.len(),
            decreases self.chunks.vals@.len() - i,
        {
            total = total.saturating_add(self.chunks.vals[i].len() as u64);
            i = i + 1;
        }
        Ok(StorageStats { total_chunks: n as u64, total_bytes: total, available_bytes: None })
    }
}

} // verus!
