use vstd::prelude::*;
use vstd::slice::slice_to_vec;
use crate::error::Error;

verus! {

/// The most bytes that one call of `decompress` may produce (128 MiB).
pub const MAX_DECOMPRESSED: usize = 134217728;

/// Compression algorithms.
#[derive(Debug, Clone, Copy, PartialEq, Eq)]
pub enum CompressionAlgorithm {
    /// Stored as is.
    Disabled,
    /// Zstandard at the given level (1 to 22).
    Zstd(i32),
    /// LZ4 frame format with default parameters.
    Lz4,
}

impl Default for CompressionAlgorithm {
    /// Zstandard at level 3.
    fn default() -> (r: CompressionAlgorithm)
        ensures
            r == CompressionAlgorithm::Zstd(3),
    {
        CompressionAlgorithm::Zstd(3)
    }
}

/// The zstd frame that `zstd::bulk::compress` makes of `data` at `level`.
pub uninterp spec fn zstd_frame(data: Seq<u8>, level: i32) -> Seq<u8>;

/// The LZ4 frame that `lz4::Encoder` with default settings makes of `data`.
pub uninterp spec fn lz4_frame(data: Seq<u8>) -> Seq<u8>;

/// The compressed form of `p` under `alg`.
pub open spec fn compressed(alg: CompressionAlgorithm, p: Seq<u8>) -> Seq<u8> {
    match alg {
        CompressionAlgorithm::Disabled => p,
        CompressionAlgorithm::Zstd(level) => zstd_frame(p, level),
        CompressionAlgorithm::Lz4 => lz4_frame(p),
    }
}

/// `r` holds exactly the bytes `p`.
pub open spec fn yields(r: Option<Vec<u8>>, p: Seq<u8>) -> bool {
    r matches Some(v) && v@ == p
}

/// `r` holds more than `n` bytes.
pub open spec fn yields_over(r: Option<Vec<u8>>, n: nat) -> bool {
    r matches Some(v) && v@.len() > n
}

/// Relies on `zstd::bulk::compress`: one zstd frame, a function of the data and
/// the level. It does not fail: the level is clamped and the output buffer is
/// sized by `compress_bound`.
#[verifier::external_body]
fn zstd_compress(data: &[u8], level: i32) -> (r: Option<Vec<u8>>)
    ensures
        yields(r, zstd_frame(data@, level)),
{
    zstd::bulk::compress(data, level).ok()
}

/// Relies on `zstd::bulk::decompress`: never more than `capacity` bytes; a frame
/// that `zstd::bulk::compress` made of `p` decodes to `p` when `p` fits in
/// `capacity`, and fails when it does not.
#[verifier::external_body]
fn zstd_decompress(data: &[u8], capacity: usize) -> (r: Option<Vec<u8>>)
    ensures
        r matches Some(v) ==> v@.len() <= capacity,
        forall|p: Seq<u8>, level: i32|
            #[trigger] zstd_frame(p, level) == data@ ==> (if p.len() <= capacity {
                yields(r, p)
            } else {
                r is None
            }),
{
    zstd::bulk::decompress(data, capacity).ok()
}

/// Relies on `lz4::EncoderBuilder` with its defaults, writing into a `Vec`:
/// one LZ4 frame, a function of the data; writing to memory does not fail.
#[verifier::external_body]
fn lz4_compress(data: &[u8]) -> (r: Option<Vec<u8>>)
    ensures
        yields(r, lz4_frame(data@)),
{
    let mut encoder = lz4::EncoderBuilder::new().build(Vec::new()).ok()?;
    std::io::Write::write_all(&mut encoder, data).ok()?;
    let (out, result) = encoder.finish();
    result.ok()?;
    Some(out)
}

/// Relies on `lz4::Decoder`, read through `std::io::Read::take`: at most
/// `read_limit` bytes of the frame's content; a frame that the encoder made of
/// `p` yields `p` when `p` is shorter than `read_limit`, and exactly
/// `read_limit` bytes otherwise.
#[verifier::external_body]
fn lz4_decompress(data: &[u8], read_limit: u64) -> (r: Option<Vec<u8>>)
    requires
        read_limit > 0,
    ensures
        r matches Some(v) ==> v@.len() <= read_limit,
        forall|p: Seq<u8>|
            #[trigger] lz4_frame(p) == data@ && p.len() < read_limit ==> yields(r, p),
        forall|p: Seq<u8>|
            #[trigger] lz4_frame(p) == data@ && p.len() >= read_limit ==> yields_over(
                r,
                (read_limit - 1) as nat,
            ),
{
    let decoder = lz4::Decoder::new(data).ok()?;
    let mut out = Vec::new();
    let mut limited = std::io::Read::take(decoder, read_limit);
    std::io::Read::read_to_end(&mut limited, &mut out).ok()?;
    Some(out)
}

/// Compresses and decompresses chunk payloads with one fixed algorithm.
pub struct Compressor {
    algorithm: CompressionAlgorithm,
}

impl Compressor {
    pub fn new(algorithm: CompressionAlgorithm) -> (r: Compressor)
        ensures
            r.algorithm() == algorithm,
    {
        Compressor { algorithm }
    }

    /// The algorithm in use.
    pub closed spec fn algorithm(&self) -> CompressionAlgorithm {
        self.algorithm
    }

    /// Compress `data`: the identity without an algorithm, else the codec's frame.
    pub fn compress(&self, data: &[u8]) -> (r: Result<Vec<u8>, Error>)
        ensures
            r matches Ok(c) && c@ == compressed(self.algorithm(), data@),
    {
        match self.algorithm {
            CompressionAlgorithm::Disabled => Ok(slice_to_vec(data)),
            CompressionAlgorithm::Zstd(level) => match zstd_compress(data, level) {
                Some(c) => Ok(c),
                None => Err(Error::Unknown("zstd compression failed".to_string())),
            },
            CompressionAlgorithm::Lz4 => match lz4_compress(data) {
                Some(c) => Ok(c),
                None => Err(Error::Io("lz4 compression failed".to_string())),
            },
        }
    }

    /// Decompress `data`. The output never exceeds `MAX_DECOMPRESSED` bytes
    /// under a codec; the compressed form of any `p` within that ceiling
    /// decodes to `p`, and under a codec one beyond it fails with `Decompression`.
    pub fn decompress(&self, data: &[u8]) -> (r: Result<Vec<u8>, Error>)
        ensures
            self.algorithm() == CompressionAlgorithm::Disabled ==> (r matches Ok(v) && v@
                == data@),
            self.algorithm() != CompressionAlgorithm::Disabled ==> (r matches Ok(v) ==> v@.len()
                <= MAX_DECOMPRESSED),
            r matches Err(e) ==> e is Decompression,
            forall|p: Seq<u8>|
                #[trigger] compressed(self.algorithm(), p) == data@ && p.len() <= MAX_DECOMPRESSED
                    ==> (r matches Ok(v) && v@ == p),
            forall|p: Seq<u8>|
                #[trigger] compressed(self.algorithm(), p) == data@ && p.len() > MAX_DECOMPRESSED
                    && self.algorithm() != CompressionAlgorithm::Disabled ==> r is Err,
    {
        match self.algorithm {
            CompressionAlgorithm::Disabled => Ok(slice_to_vec(data)),
            CompressionAlgorithm::Zstd(level) => {
                let out = zstd_decompress(data, MAX_DECOMPRESSED);
                proof {
                    assert forall|p: Seq<u8>|
                        #[trigger] compressed(self.algorithm, p) == data@ implies (if p.len()
                            <= MAX_DECOMPRESSED {
                            yields(out, p)
                        } else {
                            out is None
                        }) by {
                        assert(zstd_frame(p, level) == data@);
                    }
                }
                match out {
                    Some(v) => Ok(v),
                    None => Err(Error::Decompression("zstd decompression failed".to_string())),
                }
            },
            CompressionAlgorithm::Lz4 => {
                let read_limit: u64 = MAX_DECOMPRESSED as u64 + 1;
                let out = lz4_decompress(data, read_limit);
                proof {
                    assert forall|p: Seq<u8>|
                        #[trigger] compressed(self.algorithm, p) == data@ implies (if p.len()
                            <= MAX_DECOMPRESSED {
                            yields(out, p)
                        } else {
                            yields_over(out, MAX_DECOMPRESSED as nat)
                        }) by {
                        assert(lz4_frame(p) == data@);
                    }
                }
                match out {
                    Some(v) => {
                        if v.len() > MAX_DECOMPRESSED {
                            Err(Error::Decompression("output exceeds the ceiling".to_string()))
                        } else {
                            Ok(v)
                        }
                    },
                    None => Err(Error::Decompression("lz4 decompression failed".to_string())),
                }
            },
        }
    }
}

} // verus!
