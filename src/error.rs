use vstd::prelude::*;

verus! {

/// The error kinds of the backup core. Each carries a human-readable message;
/// the variant is the stable part.
#[derive(Debug, Clone)]
pub enum Error {
    /// An underlying read or write failed.
    Io(String),
    /// A record could not be encoded or decoded.
    Serialization(String),
    /// The storage backend reported a failure.
    Storage(String),
    /// Encryption failed, or decryption failed (bad tag, wrong key, truncated input).
    Encryption(String),
    /// The deduplication index refused an operation.
    Deduplication(String),
    /// No blob is stored under the requested address.
    ChunkNotFound(String),
    /// No manifest is stored for the requested snapshot.
    SnapshotNotFound(String),
    /// The configuration is malformed or does not fit the repository.
    InvalidConfig(String),
    /// A restored chunk does not hash to the address it was stored under.
    Integrity(String),
    /// A payload could not be decompressed, or expands beyond the ceiling.
    Decompression(String),
    /// Anything else.
    Unknown(String),
}

} // verus!
