use vstd::prelude::*;
use crate::encryption::random_bytes;
use crate::error::Error;
use crate::hash::{address_of, blake3_of, hex_encode, hex_of};

verus! {

/// The content address of a chunk: the lowercase hex digest of its plaintext.
#[derive(Debug, Clone, Hash)]
pub struct ChunkId(pub String);

impl View for ChunkId {
    type V = Seq<char>;

    open spec fn view(&self) -> Seq<char> {
        self.0@
    }
}

impl PartialEq for ChunkId {
    fn eq(&self, other: &ChunkId) -> (r: bool)
        ensures
            r == (self@ == other@),
    {
        self.0 == other.0
    }
}

impl vstd::std_specs::cmp::PartialEqSpecImpl for ChunkId {
    open spec fn obeys_eq_spec() -> bool {
        true
    }

    open spec fn eq_spec(&self, other: &ChunkId) -> bool {
        self@ == other@
    }
}

impl Eq for ChunkId {
}

impl ChunkId {
    /// The address whose digest is `hash`.
    pub fn from_hash(hash: &[u8]) -> (r: ChunkId)
        ensures
            r@ == hex_of(hash@),
    {
        ChunkId(hex_encode(hash))
    }
}

/// Relies on `uuid::Builder::from_random_bytes`: the version-4 UUID made of 16
/// random bytes, in its 36-character hyphenated form.
#[verifier::external_body]
fn uuid_v4_text(bytes: &[u8]) -> (r: String)
    requires
        bytes@.len() == 16,
    ensures
        r@.len() == 36,
{
    let mut random = [0u8; 16];
    random.copy_from_slice(bytes);
    uuid::Builder::from_random_bytes(random).into_uuid().to_string()
}

/// The identifier of a snapshot: a fresh random UUID, not derived from content.
#[derive(Debug, Clone, Hash)]
pub struct SnapshotId(pub String);

impl View for SnapshotId {
    type V = Seq<char>;

    open spec fn view(&self) -> Seq<char> {
        self.0@
    }
}

impl PartialEq for SnapshotId {
    fn eq(&self, other: &SnapshotId) -> (r: bool)
        ensures
            r == (self@ == other@),
    {
        self.0 == other.0
    }
}

impl vstd::std_specs::cmp::PartialEqSpecImpl for SnapshotId {
    open spec fn obeys_eq_spec() -> bool {
        true
    }

    open spec fn eq_spec(&self, other: &SnapshotId) -> bool {
        self@ == other@
    }
}

impl Eq for SnapshotId {
}

impl SnapshotId {
    /// A fresh identifier; fails only if the system random generator does.
    pub fn new() -> (r: Result<SnapshotId, Error>)
        ensures
            r matches Ok(id) ==> id@.len() == 36,
            r matches Err(e) ==> e is Io,
    {
        match random_bytes(16) {
            Some(b) => Ok(SnapshotId(uuid_v4_text(b.as_slice()))),
            None => Err(Error::Io("random generator failed".to_string())),
        }
    }
}

/// A chunk inside the pipeline: its address, size, digest and plaintext.
#[derive(Debug, Clone)]
pub struct Chunk {
    pub id: ChunkId,
    pub size: u64,
    pub hash: Vec<u8>,
    pub data: Vec<u8>,
}

impl Chunk {
    /// `self` is the chunk whose plaintext is `p`: every field agrees with it.
    pub open spec fn describes(&self, p: Seq<u8>) -> bool {
        &&& self.data@ == p
        &&& self.size == p.len()
        &&& self.hash@ == blake3_of(p)
        &&& self.id@ == address_of(p)
    }
}

/// The persisted record of one backup.
#[derive(Debug, Clone)]
pub struct Snapshot {
    pub id: SnapshotId,
    pub name: String,
    /// Seconds since the Unix epoch, UTC.
    pub created_at: i64,
    pub source_path: String,
    /// Sum of the plaintext sizes of the files.
    pub total_size: u64,
    /// Sum of the sizes of the blobs this backup newly stored.
    pub compressed_size: u64,
    pub file_count: u64,
    /// Every address that the files reference, in file order; duplicates kept.
    pub chunk_ids: Vec<ChunkId>,
    pub parent_snapshot: Option<SnapshotId>,
    pub tags: Vec<String>,
}

/// What a backup records of one file.
#[derive(Debug, Clone)]
pub struct FileMetadata {
    pub path: String,
    pub size: u64,
    /// Seconds since the Unix epoch, UTC.
    pub modified: i64,
    pub permissions: u32,
    pub is_directory: bool,
    /// The addresses whose plaintexts, concatenated, give the file's bytes.
    pub chunk_ids: Vec<ChunkId>,
}

/// Where the bytes of a backup job come from.
#[derive(Debug, Clone)]
pub enum BackupSource {
    LocalPath { path: String, excludes: Vec<String> },
    RemoteSSH { host: String, port: u16, user: String, path: String },
    ProxmoxVM { node: String, vmid: String },
    LXC { node: String, ctid: String },
}

/// Counters reported after a backup.
#[derive(Debug, Clone, Copy, PartialEq, Eq, Default)]
pub struct BackupStats {
    pub total_files: u64,
    pub total_bytes: u64,
    pub new_chunks: u64,
    pub reused_chunks: u64,
    pub compressed_bytes: u64,
    pub duration_seconds: u64,
}

} // verus!
