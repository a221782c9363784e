use vstd::prelude::*;
use crate::chunker::{lemma_pieces_from_bounded, max_chunk, pieces, Chunker, ChunkingStrategy};
use crate::compression::{compressed, CompressionAlgorithm, Compressor, MAX_DECOMPRESSED};
use crate::dedup::{acquired, count_in, released, DedupStats, DedupStore};
use crate::encryption::{sealed, EncryptionKey, Encryptor, NONCE_SIZE, TAG_SIZE};
use crate::error::Error;
use crate::hash::{address_of, hash_data_hex};
use crate::text::concat_str;
use crate::storage::StorageBackend;
use crate::types::{ChunkId, FileMetadata, Snapshot, SnapshotId};

verus! {

/// The addresses of a sequence of plaintexts.
pub open spec fn addresses(ps: Seq<Seq<u8>>) -> Seq<Seq<char>> {
    ps.map_values(|p: Seq<u8>| address_of(p))
}

/// The views of a sequence of addresses.
pub open spec fn ids_view(ids: Seq<ChunkId>) -> Seq<Seq<char>> {
    ids.map_values(|c: ChunkId| c@)
}

/// `m` after one more reference to each address of `s`, in order.
pub open spec fn acquire_all(m: Map<Seq<char>, nat>, s: Seq<Seq<char>>) -> Map<Seq<char>, nat>
    decreases s.len(),
{
    if s.len() == 0 {
        m
    } else {
        acquired(acquire_all(m, s.drop_last()), s.last())
    }
}

/// `blob` is what the pipeline stores for plaintext `p`: its compressed form,
/// sealed under the key when there is one.
pub open spec fn blob_holds(
    alg: CompressionAlgorithm,
    key: Option<Seq<u8>>,
    blob: Seq<u8>,
    p: Seq<u8>,
) -> bool {
    match key {
        None => blob == compressed(alg, p),
        Some(k) => sealed(k, blob, compressed(alg, p)),
    }
}

/// Every referenced address has a stored blob that decodes to a plaintext
/// with that address, small enough to decompress.
pub open spec fn repo_ok(
    alg: CompressionAlgorithm,
    key: Option<Seq<u8>>,
    refs: Map<Seq<char>, nat>,
    chunks: Map<Seq<char>, Seq<u8>>,
) -> bool {
    forall|a: Seq<char>|
        #[trigger] refs.contains_key(a) ==> chunks.contains_key(a) && exists|p: Seq<u8>|
            address_of(p) == a && p.len() <= MAX_DECOMPRESSED && #[trigger] blob_holds(
                alg,
                key,
                chunks[a],
                p,
            )
}

/// Each address of `addrs` can take `addrs.len()` more references without
/// its count overflowing a `u64`.
pub open spec fn counts_fit(m: Map<Seq<char>, nat>, addrs: Seq<Seq<char>>) -> bool {
    forall|i: int| 0 <= i < addrs.len() ==> count_in(m, #[trigger] addrs[i]) + addrs.len() <= u64::MAX
}

/// Every address of `addrs` is referenced in `m`.
pub open spec fn all_referenced(m: Map<Seq<char>, nat>, addrs: Seq<Seq<char>>) -> bool {
    forall|i: int| 0 <= i < addrs.len() ==> m.contains_key(#[trigger] addrs[i])
}

/// `addrs[i]` is not referenced in `m` and does not occur before `i`: the
/// chunk at `i` is the one whose blob gets stored.
pub open spec fn first_new(m: Map<Seq<char>, nat>, addrs: Seq<Seq<char>>, i: int) -> bool {
    &&& 0 <= i < addrs.len()
    &&& !m.contains_key(addrs[i])
    &&& !addrs.take(i).contains(addrs[i])
}

/// Length of the blob stored for plaintext `p`.
pub open spec fn blob_len(alg: CompressionAlgorithm, key: Option<Seq<u8>>, p: Seq<u8>) -> nat {
    match key {
        None => compressed(alg, p).len(),
        Some(_) => (NONCE_SIZE + compressed(alg, p).len() + TAG_SIZE) as nat,
    }
}

/// The stored-bytes counter, starting from `start`, after the first `n`
/// chunks of an ingest: it grows, saturating, by the length of each blob newly
/// stored.
pub open spec fn stored_after(
    start: u64,
    m: Map<Seq<char>, nat>,
    addrs: Seq<Seq<char>>,
    ps: Seq<Seq<u8>>,
    alg: CompressionAlgorithm,
    key: Option<Seq<u8>>,
    n: int,
) -> u64
    decreases n,
{
    if n <= 0 {
        start
    } else {
        let prev = stored_after(start, m, addrs, ps, alg, key, n - 1);
        if first_new(m, addrs, n - 1) {
            let total = prev + blob_len(alg, key, ps[n - 1]);
            if total > u64::MAX {
                u64::MAX
            } else {
                total as u64
            }
        } else {
            prev
        }
    }
}

/// `m` after one reference to each address of `s` is dropped, in order.
pub open spec fn release_all(m: Map<Seq<char>, nat>, s: Seq<Seq<char>>) -> Map<Seq<char>, nat>
    decreases s.len(),
{
    if s.len() == 0 {
        m
    } else {
        released(release_all(m, s.drop_last()), s.last())
    }
}

/// The addresses of `u` at their first occurrence, in order.
pub open spec fn distinct(u: Seq<Seq<char>>) -> Seq<Seq<char>>
    decreases u.len(),
{
    if u.len() == 0 {
        Seq::empty()
    } else if u.drop_last().contains(u.last()) {
        distinct(u.drop_last())
    } else {
        distinct(u.drop_last()).push(u.last())
    }
}

/// The occurrences of `u` that repeat an earlier one, in order.
pub open spec fn repeats(u: Seq<Seq<char>>) -> Seq<Seq<char>>
    decreases u.len(),
{
    if u.len() == 0 {
        Seq::empty()
    } else if u.drop_last().contains(u.last()) {
        repeats(u.drop_last()).push(u.last())
    } else {
        repeats(u.drop_last())
    }
}

/// The key under which a snapshot's manifest is stored.
pub open spec fn manifest_key(id: Seq<char>) -> Seq<char> {
    "snapshots/"@ + id
}

/// The addresses of all files, file after file.
pub open spec fn union_of(files: Seq<FileMetadata>) -> Seq<Seq<char>>
    decreases files.len(),
{
    if files.len() == 0 {
        Seq::empty()
    } else {
        union_of(files.drop_last()) + ids_view(files.last().chunk_ids@)
    }
}

/// The sum of the files' sizes.
pub open spec fn total_size_of(files: Seq<FileMetadata>) -> int
    decreases files.len(),
{
    if files.len() == 0 {
        0
    } else {
        total_size_of(files.drop_last()) + files.last().size
    }
}

/// `out` is the concatenation of plaintexts that hash to `ids`, in order.
pub open spec fn restored_from(out: Seq<u8>, ids: Seq<Seq<char>>) -> bool {
    exists|ps: Seq<Seq<u8>>|
        ps.len() == ids.len() && (forall|k: int| 0 <= k < ps.len() ==> address_of(#[trigger] ps[k]) == ids[k])
            && out == ps.flatten()
}

/// `out` is the concatenation of plaintexts that hash to `ids` and that the
/// blobs stored under `ids` hold, in order.
pub open spec fn restored_from_blobs(
    out: Seq<u8>,
    ids: Seq<Seq<char>>,
    alg: CompressionAlgorithm,
    key: Option<Seq<u8>>,
    chunks: Map<Seq<char>, Seq<u8>>,
) -> bool {
    exists|ps: Seq<Seq<u8>>|
        ps.len() == ids.len() && (forall|k: int|
            0 <= k < ps.len() ==> address_of(#[trigger] ps[k]) == ids[k] && blob_holds(
                alg,
                key,
                chunks[ids[k]],
                ps[k],
            )) && out == ps.flatten()
}

/// The parameters can drive the pipeline: valid chunking whose chunks all fit
/// under the decompression ceiling.
pub open spec fn config_valid(s: ChunkingStrategy) -> bool {
    s.valid() && max_chunk(s) <= MAX_DECOMPRESSED
}

/// Whether the address at `i` already occurs before `i`.
fn occurs_before(ids: &[ChunkId], i: usize) -> (r: bool)
    requires
        i < ids@.len(),
    ensures
        r == ids_view(ids@).take(i as int).contains(ids@[i as int]@),
{
    let ghost u = ids_view(ids@).take(i as int);
    let mut k: usize = 0;
    while k < i
        invariant
            k <= i < ids@.len(),
            u == ids_view(ids@).take(i as int),
            forall|m: int| 0 <= m < k ==> u[m] != ids@[i as int]@,
        decreases i - k,
    {
        if ids[k] == ids[i] {
            proof {
                assert(u[k as int] == ids@[i as int]@);
            }
            return true;
        }
        k = k + 1;
    }
    false
}

/// The addresses of `ids` at their first occurrence, and the occurrences
/// that repeat an earlier one, both in order.
pub fn split_occurrences(ids: &[ChunkId]) -> (r: (Vec<ChunkId>, Vec<ChunkId>))
    ensures
        ids_view(r.0@) == distinct(ids_view(ids@)),
        ids_view(r.1@) == repeats(ids_view(ids@)),
{
    let ghost u = ids_view(ids@);
    let mut firsts: Vec<ChunkId> = Vec::new();
    let mut repeated: Vec<ChunkId> = Vec::new();
    let mut i: usize = 0;
    proof {
        assert(u.take(0) =~= Seq::<Seq<char>>::empty());
    }
    while i < ids.len()
        invariant
            i <= ids@.len(),
            u == ids_view(ids@),
            ids_view(firsts@) == distinct(u.take(i as int)),
            ids_view(repeated@) == repeats(u.take(i as int)),
        decreases ids@.len() - i,
    {
        proof {
            assert(u.take(i + 1).drop_last() =~= u.take(i as int));
            assert(u.take(i + 1).last() == ids@[i as int]@);
        }
        if occurs_before(ids, i) {
            repeated.push(ChunkId(ids[i].0.clone()));
            proof {
                assert(ids_view(repeated@) =~= repeats(u.take(i + 1)));
            }
        } else {
            firsts.push(ChunkId(ids[i].0.clone()));
            proof {
                assert(ids_view(firsts@) =~= distinct(u.take(i + 1)));
            }
        }
        i = i + 1;
    }
    proof {
        assert(u.take(i as int) =~= u);
    }
    (firsts, repeated)
}

/// Configuration of the pipeline, fixed for a repository.
#[derive(Clone)]
pub struct BackupConfig {
    pub chunking_strategy: ChunkingStrategy,
    pub compression: CompressionAlgorithm,
    pub encryption_key: Option<EncryptionKey>,
}

impl Default for BackupConfig {
    /// Default chunking and compression, no encryption.
    fn default() -> (r: BackupConfig)
        ensures
            r.chunking_strategy == (ChunkingStrategy::ContentDefined {
                min_size: 262144usize,
                avg_size: 1048576usize,
                max_size: 4194304usize,
            }),
            r.compression == CompressionAlgorithm::Zstd(3),
            r.encryption_key is None,
    {
        BackupConfig {
            chunking_strategy: ChunkingStrategy::default(),
            compression: CompressionAlgorithm::default(),
            encryption_key: None,
        }
    }
}

/// The pipeline: chunk, deduplicate, compress, encrypt, store; and back.
pub struct BackupEngine {
    chunker: Chunker,
    compressor: Compressor,
    encryptor: Option<Encryptor>,
    dedup_store: DedupStore,
    stored_bytes: u64,
}

impl BackupEngine {
    /// The chunking strategy.
    pub closed spec fn strategy(&self) -> ChunkingStrategy {
        self.chunker.strategy()
    }

    /// The compression algorithm.
    pub closed spec fn algorithm(&self) -> CompressionAlgorithm {
        self.compressor.algorithm()
    }

    /// The encryption key, if encryption is on.
    pub closed spec fn key(&self) -> Option<Seq<u8>> {
        match self.encryptor {
            Some(e) => Some(e.key()),
            None => None,
        }
    }

    /// Reference counts by address.
    pub closed spec fn refs(&self) -> Map<Seq<char>, nat> {
        self.dedup_store@
    }

    /// Bytes of blobs newly stored since the last snapshot was created.
    pub closed spec fn stored_bytes(&self) -> u64 {
        self.stored_bytes
    }

    /// The deduplication index is well formed.
    pub closed spec fn wf(&self) -> bool {
        &&& self.dedup_store.wf()
        &&& match self.encryptor {
            Some(e) => e.wf(),
            None => true,
        }
    }

    /// The configuration of `self` and `other` agree.
    pub open spec fn same_config(&self, other: &BackupEngine) -> bool {
        &&& self.strategy() == other.strategy()
        &&& self.algorithm() == other.algorithm()
        &&& self.key() == other.key()
    }

    /// `store` holds a blob for every address the index references.
    pub open spec fn consistent_with<S: StorageBackend>(&self, store: &S) -> bool {
        repo_ok(self.algorithm(), self.key(), self.refs(), store.chunks())
    }

    pub fn new(config: BackupConfig) -> (r: BackupEngine)
        requires
            config.encryption_key matches Some(k) ==> k.wf(),
        ensures
            r.wf(),
            r.strategy() == config.chunking_strategy,
            r.algorithm() == config.compression,
            r.key() == (match config.encryption_key {
                Some(k) => Some(k@),
                None => None::<Seq<u8>>,
            }),
            r.refs() == Map::<Seq<char>, nat>::empty(),
            r.stored_bytes() == 0,
    {
        let BackupConfig { chunking_strategy, compression, encryption_key } = config;
        let chunker = Chunker::new(chunking_strategy);
        let compressor = Compressor::new(compression);
        let encryptor = match encryption_key {
            Some(k) => Some(Encryptor::new(k)),
            None => None,
        };
        BackupEngine {
            chunker,
            compressor,
            encryptor,
            dedup_store: DedupStore::new(),
            stored_bytes: 0,
        }
    }

    /// Whether the configuration can drive the pipeline.
    fn check_config(&self) -> (r: bool)
        ensures
            r == config_valid(self.strategy()),
    {
        let s = self.chunker.strategy_value();
        s.is_valid() && match s {
            ChunkingStrategy::Fixed { size } => size <= MAX_DECOMPRESSED,
            ChunkingStrategy::ContentDefined { max_size, .. } => max_size <= MAX_DECOMPRESSED,
        }
    }

    /// The stored form of a plaintext.
    fn encode_chunk(&self, plaintext: &[u8]) -> (r: Result<Vec<u8>, Error>)
        requires
            self.wf(),
        ensures
            r matches Ok(b) ==> blob_holds(self.algorithm(), self.key(), b@, plaintext@),
            r matches Ok(b) ==> b@.len() == blob_len(self.algorithm(), self.key(), plaintext@),
            self.key() is None ==> r is Ok,
    {
        let compressed_data = match self.compressor.compress(plaintext) {
            Ok(c) => c,
            Err(e) => {
                return Err(e);
            },
        };
        match &self.encryptor {
            Some(enc) => enc.encrypt(compressed_data.as_slice()),
            None => Ok(compressed_data),
        }
    }

    /// The plaintext of a stored blob.
    fn decode_blob(&self, blob: &[u8]) -> (r: Result<Vec<u8>, Error>)
        requires
            self.wf(),
        ensures
            r matches Err(e) ==> e is Encryption || e is Decompression,
            forall|p: Seq<u8>|
                #[trigger] blob_holds(self.algorithm(), self.key(), blob@, p) && p.len()
                    <= MAX_DECOMPRESSED ==> (r matches Ok(v) && v@ == p),
    {
        match &self.encryptor {
            Some(enc) => {
                let opened = match enc.decrypt(blob) {
                    Ok(v) => v,
                    Err(e) => {
                        return Err(e);
                    },
                };
                let out = self.compressor.decompress(opened.as_slice());
                proof {
                    assert forall|p: Seq<u8>|
                        #[trigger] blob_holds(self.algorithm(), self.key(), blob@, p) && p.len()
                            <= MAX_DECOMPRESSED implies (out matches Ok(v) && v@ == p) by {
                        assert(compressed(self.algorithm(), p) == opened@);
                    }
                }
                out
            },
            None => {
                let out = self.compressor.decompress(blob);
                proof {
                    assert forall|p: Seq<u8>|
                        #[trigger] blob_holds(self.algorithm(), self.key(), blob@, p) && p.len()
                            <= MAX_DECOMPRESSED implies (out matches Ok(v) && v@ == p) by {
                        assert(compressed(self.algorithm(), p) == blob@);
                    }
                }
                out
            },
        }
    }

    /// Back up `data`: cut it into chunks, store each chunk not yet known, add
    /// one reference per chunk, and return the chunks' addresses in order.
    /// Fails with `InvalidConfig`, changing nothing, when the configuration
    /// cannot drive the pipeline. On any failure the references added so far
    /// are those of a prefix of the chunks. Blobs are only added, and only
    /// for addresses the index did not reference.
    pub fn process_data<S: StorageBackend>(&mut self, store: &mut S, data: &[u8]) -> (r: Result<
        Vec<ChunkId>,
        Error,
    >)
        requires
            old(self).wf(),
            old(store).inv(),
        ensures
            final(self).wf(),
            final(store).inv(),
            final(self).same_config(old(self)),
            final(store).metadata() == old(store).metadata(),
            !config_valid(old(self).strategy()) ==> (r matches Err(e) && e is InvalidConfig
                && final(self).refs() == old(self).refs() && final(store).chunks() == old(
                store,
            ).chunks()),
            r matches Ok(ids) ==> ids_view(ids@) == addresses(pieces(old(self).strategy(), data@)),
            r is Ok ==> final(self).refs() == acquire_all(
                old(self).refs(),
                addresses(pieces(old(self).strategy(), data@)),
            ),
            r is Err ==> exists|n: int|
                0 <= n <= pieces(old(self).strategy(), data@).len() && final(self).refs()
                    == acquire_all(
                    old(self).refs(),
                    addresses(pieces(old(self).strategy(), data@)).take(n),
                ),
            old(self).consistent_with(old(store)) ==> final(self).consistent_with(final(store)),
            forall|a: Seq<char>| #[trigger]
                old(self).refs().contains_key(a) ==> final(store).chunks().contains_key(a)
                    == old(store).chunks().contains_key(a) && (old(store).chunks().contains_key(a)
                    ==> final(store).chunks()[a] == old(store).chunks()[a]),
            forall|a: Seq<char>| #[trigger]
                old(store).chunks().contains_key(a) ==> final(store).chunks().contains_key(a),
            forall|a: Seq<char>| #[trigger]
                final(store).chunks().contains_key(a) ==> old(store).chunks().contains_key(a)
                    || addresses(pieces(old(self).strategy(), data@)).contains(a),
            final(store).reliable() == old(store).reliable(),
            config_valid(old(self).strategy()) && counts_fit(
                old(self).refs(),
                addresses(pieces(old(self).strategy(), data@)),
            ) && (all_referenced(old(self).refs(), addresses(pieces(old(self).strategy(), data@)))
                || (old(store).reliable() && old(self).key() is None)) ==> r is Ok,
            r is Ok ==> final(self).stored_bytes() == stored_after(
                old(self).stored_bytes(),
                old(self).refs(),
                addresses(pieces(old(self).strategy(), data@)),
                pieces(old(self).strategy(), data@),
                old(self).algorithm(),
                old(self).key(),
                pieces(old(self).strategy(), data@).len() as int,
            ),
            r is Ok ==> forall|i: int|
                #[trigger] first_new(
                    old(self).refs(),
                    addresses(pieces(old(self).strategy(), data@)),
                    i,
                ) ==> final(store).chunks().contains_key(
                    addresses(pieces(old(self).strategy(), data@))[i],
                ) && blob_holds(
                    old(self).algorithm(),
                    old(self).key(),
                    final(store).chunks()[addresses(pieces(old(self).strategy(), data@))[i]],
                    pieces(old(self).strategy(), data@)[i],
                ),
    {
        if !self.check_config() {
            proof {
                let addrs0 = addresses(pieces(self.strategy(), data@));
                assert(addrs0.take(0) =~= Seq::<Seq<char>>::empty());
                assert(acquire_all(self.refs(), addrs0.take(0)) == self.refs());
            }
            return Err(Error::InvalidConfig("configuration cannot drive the pipeline".to_string()));
        }
        let ghost s = self.strategy();
        let ghost ps = pieces(s, data@);
        let ghost addrs = addresses(ps);
        let ghost refs0 = self.refs();
        let ghost chunks0 = store.chunks();
        let ghost ok0 = self.consistent_with(&*store);
        proof {
            lemma_pieces_from_bounded(s, data@, 0);
            assert(acquire_all(refs0, addrs.take(0)) == refs0) by {
                assert(addrs.take(0) =~= Seq::<Seq<char>>::empty());
            }
        }
        let chunks = match self.chunker.chunk_data(data) {
            Ok(cs) => cs,
            Err(e) => {
                return Err(e);
            },
        };
        let mut chunk_ids: Vec<ChunkId> = Vec::new();
        let mut j: usize = 0;
        while j < chunks.len()
            invariant
                self.wf(),
                store.inv(),
                self.same_config(old(self)),
                s == self.strategy(),
                ps == pieces(s, data@),
                addrs == addresses(ps),
                crate::chunker::chunks_of(chunks@, ps),
                forall|i: int| 0 <= i < ps.len() ==> (#[trigger] ps[i]).len() <= max_chunk(s),
                config_valid(s),
                j <= chunks@.len(),
                refs0 == old(self).refs(),
                chunks0 == old(store).chunks(),
                ok0 == old(self).consistent_with(old(store)),
                store.metadata() == old(store).metadata(),
                ids_view(chunk_ids@) == addrs.take(j as int),
                self.refs() == acquire_all(refs0, addrs.take(j as int)),
                ok0 ==> self.consistent_with(&*store),
                forall|a: Seq<char>| #[trigger]
                    refs0.contains_key(a) ==> self.refs().contains_key(a),
                forall|a: Seq<char>| #[trigger]
                    refs0.contains_key(a) ==> store.chunks().contains_key(a)
                        == chunks0.contains_key(a) && (chunks0.contains_key(a)
                        ==> store.chunks()[a] == chunks0[a]),
                forall|a: Seq<char>| #[trigger]
                    chunks0.contains_key(a) ==> store.chunks().contains_key(a),
                forall|a: Seq<char>| #[trigger]
                    store.chunks().contains_key(a) ==> chunks0.contains_key(a) || addrs.take(
                        j as int,
                    ).contains(a),
                addrs.len() == chunks@.len(),
                store.reliable() == old(store).reliable(),
                self.stored_bytes() == stored_after(
                    old(self).stored_bytes(),
                    refs0,
                    addrs,
                    ps,
                    self.algorithm(),
                    self.key(),
                    j as int,
                ),
                forall|b: Seq<char>| #[trigger] count_in(self.refs(), b) <= count_in(refs0, b) + j,
                forall|i: int| 0 <= i < j ==> self.refs().contains_key(#[trigger] addrs[i]),
                forall|b: Seq<char>| #[trigger]
                    self.refs().contains_key(b) ==> refs0.contains_key(b) || addrs.take(
                        j as int,
                    ).contains(b),
                forall|i: int|
                    0 <= i < j && #[trigger] first_new(refs0, addrs, i) ==> store.chunks().contains_key(
                        addrs[i],
                    ) && blob_holds(self.algorithm(), self.key(), store.chunks()[addrs[i]], ps[i]),
            decreases chunks@.len() - j,
        {
            let chunk = &chunks[j];
            let ghost p = ps[j as int];
            let ghost a = addrs[j as int];
            proof {
                assert(chunk.describes(p));
                assert(chunk.id@ == a);
                assert(addrs.take(j + 1).drop_last() =~= addrs.take(j as int));
                assert(addrs.take(j + 1).last() == a);
            }
            let ghost refs_before = self.refs();
            let ghost chunks_before = store.chunks();
            proof {
                assert(addrs.take(j as int) == addrs.take(j as int));
                if refs_before.contains_key(a) {
                    assert(!first_new(refs0, addrs, j as int));
                } else {
                    if addrs.take(j as int).contains(a) {
                        let k = choose|k: int|
                            0 <= k < addrs.take(j as int).len() && addrs.take(j as int)[k] == a;
                        assert(addrs[k] == a);
                    }
                    assert(first_new(refs0, addrs, j as int));
                }
            }
            if self.dedup_store.is_duplicate(&chunk.id) {
                if self.dedup_store.index().get_ref_count(&chunk.id) == u64::MAX {
                    proof {
                        self.lemma_refs_prefix_err(ps, addrs, refs0, j as int);
                        if counts_fit(refs0, addrs) {
                            assert(count_in(refs0, addrs[j as int]) + addrs.len() <= u64::MAX);
                            assert(count_in(self.refs(), a) <= count_in(refs0, a) + j);
                        }
                    }
                    return Err(Error::Deduplication("reference count overflow".to_string()));
                }
                proof {
                    self.dedup_store.lemma_counts_bounded(a);
                }
                self.dedup_store.register_chunk(ChunkId(chunk.id.0.clone()));
            } else {
                let payload = match self.encode_chunk(chunk.data.as_slice()) {
                    Ok(b) => b,
                    Err(e) => {
                        proof {
                            self.lemma_refs_prefix_err(ps, addrs, refs0, j as int);
                            if all_referenced(refs0, addrs) {
                                assert(refs0.contains_key(addrs[j as int]));
                            }
                        }
                        return Err(e);
                    },
                };
                let ghost blob = payload@;
                let payload_len = payload.len() as u64;
                match store.put_chunk(&chunk.id, payload) {
                    Ok(()) => {},
                    Err(e) => {
                        proof {
                            self.lemma_refs_prefix_err(ps, addrs, refs0, j as int);
                            if all_referenced(refs0, addrs) {
                                assert(refs0.contains_key(addrs[j as int]));
                            }
                        }
                        return Err(e);
                    },
                }
                self.dedup_store.register_chunk(ChunkId(chunk.id.0.clone()));
                self.stored_bytes = self.stored_bytes.saturating_add(payload_len);
                proof {
                    assert(address_of(p) == a);
                    assert(blob_holds(self.algorithm(), self.key(), store.chunks()[a], p));
                    if ok0 {
                        assert forall|b: Seq<char>| #[trigger]
                            self.refs().contains_key(b) implies store.chunks().contains_key(b)
                            && exists|q: Seq<u8>|
                            address_of(q) == b && q.len() <= MAX_DECOMPRESSED && #[trigger] blob_holds(
                                self.algorithm(),
                                self.key(),
                                store.chunks()[b],
                                q,
                            ) by {
                            if b != a {
                                assert(refs_before.contains_key(b));
                                let q = choose|q: Seq<u8>|
                                    address_of(q) == b && q.len() <= MAX_DECOMPRESSED
                                        && #[trigger] blob_holds(
                                        self.algorithm(),
                                        self.key(),
                                        chunks_before[b],
                                        q,
                                    );
                                assert(blob_holds(self.algorithm(), self.key(), store.chunks()[b], q));
                            } else {
                                assert(blob_holds(self.algorithm(), self.key(), store.chunks()[b], p));
                            }
                        }
                    }
                }
            }
            chunk_ids.push(ChunkId(chunk.id.0.clone()));
            proof {
                assert(self.refs() == acquired(refs_before, a));
                assert forall|b: Seq<char>| #[trigger]
                    count_in(self.refs(), b) <= count_in(refs0, b) + (j + 1) by {
                    assert(count_in(refs_before, b) <= count_in(refs0, b) + j);
                }
                assert forall|i: int| 0 <= i < j + 1 implies self.refs().contains_key(
                    #[trigger] addrs[i],
                ) by {
                    if i < j {
                        assert(refs_before.contains_key(addrs[i]));
                    }
                }
                assert forall|b: Seq<char>| #[trigger]
                    self.refs().contains_key(b) implies refs0.contains_key(b) || addrs.take(
                    j + 1,
                ).contains(b) by {
                    if b == a {
                        assert(addrs.take(j + 1)[j as int] == a);
                    } else if !refs0.contains_key(b) {
                        assert(refs_before.contains_key(b));
                        let k = choose|k: int|
                            0 <= k < addrs.take(j as int).len() && addrs.take(j as int)[k] == b;
                        assert(addrs.take(j + 1)[k] == b);
                    }
                }
                assert forall|i: int|
                    0 <= i < j + 1 && #[trigger] first_new(refs0, addrs, i) implies store.chunks().contains_key(
                    addrs[i],
                ) && blob_holds(self.algorithm(), self.key(), store.chunks()[addrs[i]], ps[i]) by {
                    if i < j {
                        assert(refs_before.contains_key(addrs[i]));
                        if addrs[i] == a {
                            assert(store.chunks() == chunks_before);
                        }
                    } else {
                        assert(addrs.take(j as int) == addrs.take(i));
                        if refs_before.contains_key(a) {
                            if !refs0.contains_key(a) {
                                assert(addrs.take(j as int).contains(a));
                            }
                        }
                    }
                }
                assert(ids_view(chunk_ids@) =~= addrs.take(j + 1));
                assert forall|b: Seq<char>| #[trigger]
                    store.chunks().contains_key(b) implies chunks0.contains_key(b) || addrs.take(
                    j + 1,
                ).contains(b) by {
                    if b == a {
                        assert(addrs.take(j + 1)[j as int] == a);
                    } else if !chunks0.contains_key(b) {
                        assert(chunks_before.contains_key(b));
                        let k = choose|k: int| 0 <= k < addrs.take(j as int).len() && addrs.take(j as int)[k] == b;
                        assert(addrs.take(j + 1)[k] == b);
                    }
                }
            }
            j = j + 1;
        }
        proof {
            assert(addrs.take(j as int) =~= addrs);
        }
        Ok(chunk_ids)
    }

    /// Restore the bytes behind a sequence of addresses: fetch each blob,
    /// decrypt, decompress, check that the plaintext hashes to its address
    /// (`Integrity` if not), and concatenate. A missing blob fails with
    /// `ChunkNotFound`, any other backend failure with `Storage`. On a
    /// consistent repository the plaintexts are those the stored blobs hold,
    /// only the backend can make restoring referenced addresses fail, and a
    /// backend that never fails makes it succeed.
    pub fn restore_data<S: StorageBackend>(&self, store: &S, chunk_ids: &[ChunkId]) -> (r: Result<
        Vec<u8>,
        Error,
    >)
        requires
            self.wf(),
            store.inv(),
        ensures
            r matches Ok(out) ==> restored_from(out@, ids_view(chunk_ids@)),
            r is Ok ==> forall|i: int|
                0 <= i < chunk_ids@.len() ==> store.chunks().contains_key(#[trigger] chunk_ids@[i]@),
            r matches Err(e) ==> e is ChunkNotFound || e is Storage || e is Encryption
                || e is Decompression || e is Integrity,
            self.consistent_with(store) && all_referenced(self.refs(), ids_view(chunk_ids@)) ==> (
            r matches Err(e) ==> e is ChunkNotFound || e is Storage),
            self.consistent_with(store) && all_referenced(self.refs(), ids_view(chunk_ids@)) ==> (
            r matches Ok(out) ==> restored_from_blobs(
                out@,
                ids_view(chunk_ids@),
                self.algorithm(),
                self.key(),
                store.chunks(),
            )),
            self.consistent_with(store) && store.reliable() && all_referenced(
                self.refs(),
                ids_view(chunk_ids@),
            ) ==> r is Ok,
    {
        let ghost ids = ids_view(chunk_ids@);
        let ghost ok = self.consistent_with(store) && all_referenced(self.refs(), ids);
        let mut result: Vec<u8> = Vec::new();
        let ghost mut done: Seq<Seq<u8>> = Seq::empty();
        let mut i: usize = 0;
        while i < chunk_ids.len()
            invariant
                self.wf(),
                store.inv(),
                ids == ids_view(chunk_ids@),
                ok == (self.consistent_with(store) && all_referenced(self.refs(), ids)),
                i <= chunk_ids@.len(),
                done.len() == i,
                forall|k: int| 0 <= k < i ==> address_of(#[trigger] done[k]) == chunk_ids@[k]@,
                forall|k: int| 0 <= k < i ==> store.chunks().contains_key(#[trigger] chunk_ids@[k]@),
                ok ==> forall|k: int|
                    0 <= k < i ==> #[trigger] blob_holds(
                        self.algorithm(),
                        self.key(),
                        store.chunks()[ids[k]],
                        done[k],
                    ),
                result@ == done.flatten(),
            decreases chunk_ids@.len() - i,
        {
            let chunk_id = &chunk_ids[i];
            let ghost a = chunk_id@;
            proof {
                assert(ids[i as int] == a);
            }
            let payload = match store.get_chunk(chunk_id) {
                Ok(v) => v,
                Err(e) => {
                    return match e {
                        Error::ChunkNotFound(m) => Err(Error::ChunkNotFound(m)),
                        _ => Err(Error::Storage("backend read failed".to_string())),
                    };
                },
            };
            let ghost mut q: Seq<u8> = Seq::empty();
            proof {
                if ok {
                    assert(self.refs().contains_key(ids[i as int]));
                    q = choose|q: Seq<u8>|
                        address_of(q) == a && q.len() <= MAX_DECOMPRESSED && #[trigger] blob_holds(
                            self.algorithm(),
                            self.key(),
                            store.chunks()[a],
                            q,
                        );
                    assert(blob_holds(self.algorithm(), self.key(), payload@, q));
                }
            }
            let plain = match self.decode_blob(payload.as_slice()) {
                Ok(v) => v,
                Err(e) => {
                    return Err(e);
                },
            };
            let h = hash_data_hex(plain.as_slice());
            if !(h == chunk_id.0) {
                return Err(Error::Integrity("restored chunk does not match its address".to_string()));
            }
            proof {
                done.lemma_flatten_push(plain@);
                done = done.push(plain@);
            }
            result.extend_from_slice(plain.as_slice());
            proof {
                assert(result@ =~= done.flatten());
            }
            i = i + 1;
        }
        proof {
            assert(done.len() == ids_view(chunk_ids@).len());
        }
        Ok(result)
    }

    /// Drop one reference to each address of `ids`, in order, and delete the
    /// blob of every address whose count reaches zero. Returns the addresses
    /// whose blob could not be deleted.
    fn release_and_sweep<S: StorageBackend>(&mut self, store: &mut S, ids: &[ChunkId]) -> (r: Vec<
        ChunkId,
    >)
        requires
            old(self).wf(),
            old(store).inv(),
        ensures
            final(self).wf(),
            final(store).inv(),
            final(self).same_config(old(self)),
            final(self).stored_bytes() == old(self).stored_bytes(),
            final(self).refs() == release_all(old(self).refs(), ids_view(ids@)),
            final(store).metadata() == old(store).metadata(),
            final(store).reliable() == old(store).reliable(),
            old(store).reliable() ==> r@.len() == 0,
            old(self).consistent_with(old(store)) ==> final(self).consistent_with(final(store)),
            forall|a: Seq<char>| #[trigger]
                final(self).refs().contains_key(a) ==> old(self).refs().contains_key(a),
            forall|a: Seq<char>| #[trigger]
                final(store).chunks().contains_key(a) ==> old(store).chunks().contains_key(a)
                    && final(store).chunks()[a] == old(store).chunks()[a],
            forall|a: Seq<char>| #[trigger]
                old(store).chunks().contains_key(a) && !final(store).chunks().contains_key(a)
                    ==> !final(self).refs().contains_key(a),
            forall|a: Seq<char>| #[trigger]
                old(self).refs().contains_key(a) && !final(self).refs().contains_key(a) ==> (
                !final(store).chunks().contains_key(a) || ids_view(r@).contains(a)),
            old(store).reliable() ==> forall|a: Seq<char>| #[trigger]
                old(self).refs().contains_key(a) && !final(self).refs().contains_key(a)
                    ==> !final(store).chunks().contains_key(a),
    {
        let ghost refs0 = self.refs();
        let ghost chunks0 = store.chunks();
        let ghost ok0 = self.consistent_with(&*store);
        let ghost u = ids_view(ids@);
        let mut residue: Vec<ChunkId> = Vec::new();
        let mut i: usize = 0;
        proof {
            assert(u.take(0) =~= Seq::<Seq<char>>::empty());
        }
        while i < ids.len()
            invariant
                self.wf(),
                store.inv(),
                self.same_config(old(self)),
                self.stored_bytes() == old(self).stored_bytes(),
                i <= ids@.len(),
                u == ids_view(ids@),
                refs0 == old(self).refs(),
                chunks0 == old(store).chunks(),
                ok0 == old(self).consistent_with(old(store)),
                self.refs() == release_all(refs0, u.take(i as int)),
                store.metadata() == old(store).metadata(),
                store.reliable() == old(store).reliable(),
                old(store).reliable() ==> residue@.len() == 0,
                ok0 ==> self.consistent_with(&*store),
                forall|b: Seq<char>| #[trigger]
                    self.refs().contains_key(b) ==> refs0.contains_key(b),
                forall|a: Seq<char>| #[trigger]
                    store.chunks().contains_key(a) ==> chunks0.contains_key(a)
                        && store.chunks()[a] == chunks0[a],
                forall|a: Seq<char>| #[trigger]
                    chunks0.contains_key(a) && !store.chunks().contains_key(a)
                        ==> !self.refs().contains_key(a),
                forall|a: Seq<char>| #[trigger]
                    refs0.contains_key(a) && !self.refs().contains_key(a) ==> (
                    !store.chunks().contains_key(a) || ids_view(residue@).contains(a)),
            decreases ids@.len() - i,
        {
            let id = &ids[i];
            let ghost a = id@;
            let ghost refs_before = self.refs();
            let ghost chunks_before = store.chunks();
            let ghost residue_before = ids_view(residue@);
            proof {
                assert(u.take(i + 1).drop_last() =~= u.take(i as int));
                assert(u.take(i + 1).last() == a);
            }
            proof {
                self.dedup_store.lemma_counts_bounded(a);
            }
            let zeroed = self.dedup_store.unregister_chunk(id);
            if zeroed {
                match store.delete_chunk(id) {
                    Ok(()) => {},
                    Err(_) => {
                        residue.push(ChunkId(id.0.clone()));
                        proof {
                            assert(ids_view(residue@) =~= residue_before.push(a));
                            assert(ids_view(residue@)[residue_before.len() as int] == a);
                            assert forall|b: Seq<char>| #[trigger] residue_before.contains(b)
                                implies ids_view(residue@).contains(b) by {
                                let k = choose|k: int| 0 <= k < residue_before.len() && residue_before[k] == b;
                                assert(ids_view(residue@)[k] == b);
                            }
                        }
                    },
                }
            }
            proof {
                assert forall|b: Seq<char>| #[trigger] residue_before.contains(b) implies ids_view(
                    residue@,
                ).contains(b) by {
                    let k = choose|k: int| 0 <= k < residue_before.len() && residue_before[k] == b;
                    assert(ids_view(residue@)[k] == b);
                }
                assert forall|b: Seq<char>| #[trigger]
                    refs0.contains_key(b) && !self.refs().contains_key(b) implies (
                    !store.chunks().contains_key(b) || ids_view(residue@).contains(b)) by {
                    if b == a {
                        if zeroed {
                            if store.chunks().contains_key(b) {
                                assert(ids_view(residue@)[residue_before.len() as int] == a);
                            }
                        } else {
                            assert(!refs_before.contains_key(b));
                        }
                    } else {
                        assert(!refs_before.contains_key(b));
                    }
                }
                if ok0 {
                    assert forall|b: Seq<char>| #[trigger]
                        self.refs().contains_key(b) implies store.chunks().contains_key(b)
                        && exists|q: Seq<u8>|
                        address_of(q) == b && q.len() <= MAX_DECOMPRESSED && #[trigger] blob_holds(
                            self.algorithm(),
                            self.key(),
                            store.chunks()[b],
                            q,
                        ) by {
                        assert(refs_before.contains_key(b));
                        let q = choose|q: Seq<u8>|
                            address_of(q) == b && q.len() <= MAX_DECOMPRESSED
                                && #[trigger] blob_holds(
                                self.algorithm(),
                                self.key(),
                                chunks_before[b],
                                q,
                            );
                        assert(blob_holds(self.algorithm(), self.key(), store.chunks()[b], q));
                    }
                }
            }
            i = i + 1;
        }
        proof {
            assert(u.take(i as int) =~= u);
            if old(store).reliable() {
                assert(residue@.len() == 0);
                assert(ids_view(residue@) =~= Seq::<Seq<char>>::empty());
            }
        }
        residue
    }

    /// Record a backup of `file_metadatas` taken at `created_at` (seconds since
    /// the Unix epoch): totals, every address the files reference (file after
    /// file, duplicates kept) and a fresh identifier. The stored-bytes counter
    /// moves into the snapshot and restarts. Fails when the total size does
    /// not fit in a `u64` (`Unknown`), or when no random identifier can be
    /// drawn (`Io`). The manifest is written by `commit_snapshot`.
    pub fn create_snapshot(
        &mut self,
        name: String,
        source_path: String,
        file_metadatas: Vec<FileMetadata>,
        created_at: i64,
    ) -> (r: Result<Snapshot, Error>)
        requires
            old(self).wf(),
        ensures
            final(self).wf(),
            final(self).same_config(old(self)),
            final(self).refs() == old(self).refs(),
            total_size_of(file_metadatas@) > u64::MAX ==> (r matches Err(e) && e is Unknown),
            total_size_of(file_metadatas@) <= u64::MAX ==> (r matches Err(e) ==> e is Io),
            r is Err ==> final(self).stored_bytes() == old(self).stored_bytes(),
            r matches Ok(snap) ==> {
                &&& snap.id@.len() == 36
                &&& snap.created_at == created_at
                &&& snap.name@ == name@
                &&& snap.source_path@ == source_path@
                &&& snap.total_size == total_size_of(file_metadatas@)
                &&& snap.compressed_size == old(self).stored_bytes()
                &&& snap.file_count == file_metadatas@.len()
                &&& ids_view(snap.chunk_ids@) == union_of(file_metadatas@)
                &&& snap.parent_snapshot is None
                &&& snap.tags@.len() == 0
                &&& final(self).stored_bytes() == 0
            },
    {
        let mut total: u64 = 0;
        let mut chunk_ids: Vec<ChunkId> = Vec::new();
        let mut i: usize = 0;
        let ghost files = file_metadatas@;
        while i < file_metadatas.len()
            invariant
                self.wf(),
                self.same_config(old(self)),
                self.refs() == old(self).refs(),
                self.stored_bytes() == old(self).stored_bytes(),
                files == file_metadatas@,
                i <= files.len(),
                total == total_size_of(files.take(i as int)),
                ids_view(chunk_ids@) == union_of(files.take(i as int)),
            decreases files.len() - i,
        {
            let f = &file_metadatas[i];
            proof {
                assert(files.take(i + 1).drop_last() =~= files.take(i as int));
                assert(files.take(i + 1).last() == *f);
            }
            total = match total.checked_add(f.size) {
                Some(t) => t,
                None => {
                    proof {
                        self.lemma_total_grows(files, i as int + 1);
                    }
                    return Err(Error::Unknown("total size does not fit in 64 bits".to_string()));
                },
            };
            let ghost before = ids_view(chunk_ids@);
            let mut k: usize = 0;
            while k < f.chunk_ids.len()
                invariant
                    k <= f.chunk_ids@.len(),
                    ids_view(chunk_ids@) == before + ids_view(f.chunk_ids@).take(k as int),
                decreases f.chunk_ids@.len() - k,
            {
                let ghost prev = ids_view(chunk_ids@);
                chunk_ids.push(ChunkId(f.chunk_ids[k].0.clone()));
                proof {
                    let fv = ids_view(f.chunk_ids@);
                    assert(ids_view(chunk_ids@) =~= prev.push(f.chunk_ids@[k as int]@));
                    assert(fv.take(k + 1) =~= fv.take(k as int).push(f.chunk_ids@[k as int]@));
                    assert(ids_view(chunk_ids@) =~= before + fv.take(k + 1));
                }
                k = k + 1;
            }
            proof {
                assert(ids_view(f.chunk_ids@).take(k as int) =~= ids_view(f.chunk_ids@));
            }
            i = i + 1;
        }
        proof {
            assert(files.take(i as int) =~= files);
        }
        let id = match SnapshotId::new() {
            Ok(id) => id,
            Err(e) => {
                return Err(e);
            },
        };
        let compressed_size = self.stored_bytes;
        self.stored_bytes = 0;
        Ok(Snapshot {
            id,
            name,
            created_at,
            source_path,
            total_size: total,
            compressed_size,
            file_count: file_metadatas.len() as u64,
            chunk_ids,
            parent_snapshot: None,
            tags: Vec::new(),
        })
    }

    /// The total of a prefix never exceeds the total of the whole.
    proof fn lemma_total_grows(&self, files: Seq<FileMetadata>, n: int)
        requires
            0 <= n <= files.len(),
            total_size_of(files.take(n)) > u64::MAX,
        ensures
            total_size_of(files) > u64::MAX,
        decreases files.len() - n,
    {
        if n < files.len() {
            assert(files.take(n + 1).drop_last() =~= files.take(n));
            self.lemma_total_grows(files, n + 1);
        } else {
            assert(files.take(n) =~= files);
        }
    }

    /// Commit a snapshot: each address it references keeps one reference for
    /// it (the references of repeated occurrences are dropped), then the
    /// manifest is written under `snapshots/<id>`. If that write fails, the
    /// snapshot's references are dropped too, and blobs left unreferenced are
    /// deleted.
    pub fn commit_snapshot<S: StorageBackend>(
        &mut self,
        store: &mut S,
        snapshot: &Snapshot,
        manifest: Vec<u8>,
    ) -> (r: Result<(), Error>)
        requires
            old(self).wf(),
            old(store).inv(),
        ensures
            final(self).wf(),
            final(store).inv(),
            final(self).same_config(old(self)),
            final(store).reliable() == old(store).reliable(),
            old(store).reliable() ==> r is Ok,
            old(self).consistent_with(old(store)) ==> final(self).consistent_with(final(store)),
            r is Ok ==> final(self).refs() == release_all(
                old(self).refs(),
                repeats(ids_view(snapshot.chunk_ids@)),
            ),
            r is Ok ==> final(store).metadata() == old(store).metadata().insert(
                manifest_key(snapshot.id@),
                manifest@,
            ),
            r is Err ==> final(self).refs() == release_all(
                release_all(old(self).refs(), repeats(ids_view(snapshot.chunk_ids@))),
                distinct(ids_view(snapshot.chunk_ids@)),
            ),
            r is Err ==> final(store).metadata() == old(store).metadata(),
            forall|a: Seq<char>| #[trigger]
                final(store).chunks().contains_key(a) ==> old(store).chunks().contains_key(a)
                    && final(store).chunks()[a] == old(store).chunks()[a],
            forall|a: Seq<char>| #[trigger]
                old(store).chunks().contains_key(a) && !final(store).chunks().contains_key(a)
                    ==> !final(self).refs().contains_key(a),
            old(store).reliable() ==> forall|a: Seq<char>| #[trigger]
                old(self).refs().contains_key(a) && !final(self).refs().contains_key(a)
                    ==> !final(store).chunks().contains_key(a),
    {
        let (firsts, repeated) = split_occurrences(snapshot.chunk_ids.as_slice());
        let _ = self.release_and_sweep(store, repeated.as_slice());
        let key = concat_str("snapshots/", snapshot.id.0.as_str());
        match store.put_metadata(key.as_str(), manifest) {
            Ok(()) => Ok(()),
            Err(e) => {
                let _ = self.release_and_sweep(store, firsts.as_slice());
                Err(e)
            },
        }
    }

    /// Delete a snapshot: drop one reference to each distinct address it
    /// references, delete each blob left unreferenced, then remove the
    /// manifest. Returns the addresses whose blob could not be deleted.
    pub fn drop_snapshot<S: StorageBackend>(&mut self, store: &mut S, snapshot: &Snapshot) -> (r:
        Result<Vec<ChunkId>, Error>)
        requires
            old(self).wf(),
            old(store).inv(),
        ensures
            final(self).wf(),
            final(store).inv(),
            final(self).same_config(old(self)),
            final(store).reliable() == old(store).reliable(),
            old(store).reliable() ==> (r matches Ok(residue) && residue@.len() == 0),
            old(self).consistent_with(old(store)) ==> final(self).consistent_with(final(store)),
            final(self).refs() == release_all(
                old(self).refs(),
                distinct(ids_view(snapshot.chunk_ids@)),
            ),
            r is Ok ==> final(store).metadata() == old(store).metadata().remove(
                manifest_key(snapshot.id@),
            ),
            r is Err ==> final(store).metadata() == old(store).metadata(),
            forall|a: Seq<char>| #[trigger]
                final(store).chunks().contains_key(a) ==> old(store).chunks().contains_key(a)
                    && final(store).chunks()[a] == old(store).chunks()[a],
            forall|a: Seq<char>| #[trigger]
                old(store).chunks().contains_key(a) && !final(store).chunks().contains_key(a)
                    ==> !final(self).refs().contains_key(a),
old(store).reliable() ==> forall|a: Seq<char>| #[trigger]
                old(self).refs().contains_key(a) && !final(self).refs().contains_key(a)
                    ==> !final(store).chunks().contains_key(a),
            r matches Ok(residue) ==> forall|a: Seq<char>| #[trigger]
                old(self).refs().contains_key(a) && !final(self).refs().contains_key(a) ==> (
                !final(store).chunks().contains_key(a) || ids_view(residue@).contains(a)),
    {
        let (firsts, _) = split_occurrences(snapshot.chunk_ids.as_slice());
        let residue = self.release_and_sweep(store, firsts.as_slice());
        let key = concat_str("snapshots/", snapshot.id.0.as_str());
        match store.delete_metadata(key.as_str()) {
            Ok(()) => Ok(residue),
            Err(e) => Err(e),
        }
    }

    /// Back up one file whose bytes and attributes were read by the caller:
    /// a directory gets no chunks; a file's bytes go through `process_data`.
    pub fn backup_file<S: StorageBackend>(
        &mut self,
        store: &mut S,
        path: String,
        data: &[u8],
        modified: i64,
        permissions: u32,
        is_directory: bool,
    ) -> (r: Result<FileMetadata, Error>)
        requires
            old(self).wf(),
            old(store).inv(),
        ensures
            final(self).wf(),
            final(store).inv(),
            final(self).same_config(old(self)),
            final(store).metadata() == old(store).metadata(),
            old(self).consistent_with(old(store)) ==> final(self).consistent_with(final(store)),
            is_directory ==> (r matches Ok(m) && m.chunk_ids@.len() == 0 && final(self).refs()
                == old(self).refs()),
            r matches Ok(m) ==> {
                &&& m.path@ == path@
                &&& m.size == data@.len()
                &&& m.modified == modified
                &&& m.permissions == permissions
                &&& m.is_directory == is_directory
            },
            !is_directory ==> (r matches Ok(m) ==> ids_view(m.chunk_ids@) == addresses(
                pieces(old(self).strategy(), data@),
            ) && final(self).refs() == acquire_all(
                old(self).refs(),
                addresses(pieces(old(self).strategy(), data@)),
            )),
            final(store).reliable() == old(store).reliable(),
            final(store).chunks() == old(store).chunks() || !is_directory,
            is_directory || (config_valid(old(self).strategy()) && counts_fit(
                old(self).refs(),
                addresses(pieces(old(self).strategy(), data@)),
            ) && (all_referenced(old(self).refs(), addresses(pieces(old(self).strategy(), data@)))
                || (old(store).reliable() && old(self).key() is None))) ==> r is Ok,
            !is_directory && r is Ok ==> forall|i: int|
                #[trigger] first_new(
                    old(self).refs(),
                    addresses(pieces(old(self).strategy(), data@)),
                    i,
                ) ==> final(store).chunks().contains_key(
                    addresses(pieces(old(self).strategy(), data@))[i],
                ) && blob_holds(
                    old(self).algorithm(),
                    old(self).key(),
                    final(store).chunks()[addresses(pieces(old(self).strategy(), data@))[i]],
                    pieces(old(self).strategy(), data@)[i],
                ),
    {
        let chunk_ids = if is_directory {
            Vec::new()
        } else {
            match self.process_data(store, data) {
                Ok(ids) => ids,
                Err(e) => {
                    return Err(e);
                },
            }
        };
        Ok(FileMetadata {
            path,
            size: data.len() as u64,
            modified,
            permissions,
            is_directory,
            chunk_ids,
        })
    }

    /// Deduplication statistics.
    pub fn dedup_stats(&self) -> (r: Result<DedupStats, Error>)
        requires
            self.wf(),
        ensures
            r matches Ok(st) && st.total_chunks == self.refs().len(),
    {
        Ok(self.dedup_store.stats())
    }

    /// The deduplication store.
    pub fn dedup_store(&self) -> (r: &DedupStore)
        requires
            self.wf(),
        ensures
            r.wf(),
            r@ == self.refs(),
    {
        &self.dedup_store
    }

    /// On a failure at chunk `j`, the references added are those of the first `j` chunks.
    proof fn lemma_refs_prefix_err(
        &self,
        ps: Seq<Seq<u8>>,
        addrs: Seq<Seq<char>>,
        refs0: Map<Seq<char>, nat>,
        j: int,
    )
        requires
            0 <= j <= ps.len(),
            self.refs() == acquire_all(refs0, addrs.take(j)),
        ensures
            exists|n: int| 0 <= n <= ps.len() && self.refs() == acquire_all(refs0, addrs.take(n)),
    {
    }
}

} // verus!
