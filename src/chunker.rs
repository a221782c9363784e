use vstd::prelude::*;
use vstd::slice::slice_to_vec;
use crate::error::Error;
use crate::hash::hash_data;
use crate::types::{Chunk, ChunkId};

verus! {

/// Odd multiplier that spreads a byte value over all 64 bits of a gear entry.
pub const GEAR_MULTIPLIER: u64 = 0x9E37_79B9_7F4A_7C15;

/// How a byte stream is cut into chunks.
#[derive(Debug, Clone, Copy, PartialEq, Eq)]
pub enum ChunkingStrategy {
    /// Chunks of exactly `size` bytes; the last one may be shorter.
    Fixed { size: usize },
    /// Content-defined chunks: no cut before `min_size` bytes, a cut where the
    /// rolling fingerprint has its low bits clear (`avg_size` sets how many),
    /// and a forced cut at `max_size` bytes.
    ContentDefined { min_size: usize, avg_size: usize, max_size: usize },
}

impl ChunkingStrategy {
    /// The parameters can drive a chunker: a positive fixed size, or
    /// `min_size <= avg_size <= max_size` with `avg_size` a power of two.
    pub open spec fn valid(&self) -> bool {
        match *self {
            ChunkingStrategy::Fixed { size } => size > 0,
            ChunkingStrategy::ContentDefined { min_size, avg_size, max_size } => {
                &&& min_size <= avg_size <= max_size
                &&& avg_size > 0
                &&& avg_size & ((avg_size - 1) as usize) == 0
            },
        }
    }

    /// Whether the parameters are valid.
    pub fn is_valid(&self) -> (r: bool)
        ensures
            r == self.valid(),
    {
        match *self {
            ChunkingStrategy::Fixed { size } => size > 0,
            ChunkingStrategy::ContentDefined { min_size, avg_size, max_size } => {
                min_size <= avg_size && avg_size <= max_size && avg_size > 0 && avg_size
                    & (avg_size - 1) == 0
            },
        }
    }
}

impl Default for ChunkingStrategy {
    /// Content-defined with 256 KiB minimum, 1 MiB average and 4 MiB maximum.
    fn default() -> (r: ChunkingStrategy)
        ensures
            r == (ChunkingStrategy::ContentDefined {
                min_size: 262144usize,
                avg_size: 1048576usize,
                max_size: 4194304usize,
            }),
    {
        ChunkingStrategy::ContentDefined {
            min_size: 256 * 1024,
            avg_size: 1024 * 1024,
            max_size: 4 * 1024 * 1024,
        }
    }
}

/// The gear entry of a byte.
pub open spec fn gear(b: u8) -> u64 {
    ((b as u64 + 1) as u64).wrapping_mul(GEAR_MULTIPLIER)
}

/// One step of the rolling fingerprint: shift the old state out by one bit and
/// add the gear entry of the next byte. The low `k` bits therefore depend on
/// the last `k` bytes only.
pub open spec fn roll(h: u64, b: u8) -> u64 {
    (h << 1u64).wrapping_add(gear(b))
}

/// Scanning `data` from `i` with fingerprint `h`: the position just after the
/// first byte at which the fingerprint has all `mask` bits clear, or `end` if
/// none before `end`.
pub open spec fn scan_cut(data: Seq<u8>, i: int, end: int, h: u64, mask: u64) -> int
    decreases end - i,
{
    if i >= end {
        end
    } else {
        let h2 = roll(h, data[i]);
        if h2 & mask == 0 {
            i + 1
        } else {
            scan_cut(data, i + 1, end, h2, mask)
        }
    }
}

/// End of the content-defined chunk starting at `offset`.
pub open spec fn cdc_cut(data: Seq<u8>, offset: int, min: int, avg: int, max: int) -> int {
    if data.len() - offset <= min {
        data.len() as int
    } else {
        let search_end = if offset + max < data.len() { offset + max } else { data.len() as int };
        scan_cut(data, offset + min, search_end, 0, (avg - 1) as u64)
    }
}

/// End of the chunk that the strategy starts at `offset`.
pub open spec fn next_cut(s: ChunkingStrategy, data: Seq<u8>, offset: int) -> int {
    match s {
        ChunkingStrategy::Fixed { size } => {
            if offset + size < data.len() { offset + size } else { data.len() as int }
        },
        ChunkingStrategy::ContentDefined { min_size, avg_size, max_size } => {
            cdc_cut(data, offset, min_size as int, avg_size as int, max_size as int)
        },
    }
}

/// The plaintexts of the chunks that the strategy cuts from `data[offset..]`,
/// in order.
pub open spec fn pieces_from(s: ChunkingStrategy, data: Seq<u8>, offset: int) -> Seq<Seq<u8>>
    decreases data.len() - offset,
{
    if offset >= data.len() {
        Seq::empty()
    } else {
        let end = next_cut(s, data, offset);
        if end <= offset || end > data.len() {
            Seq::empty()
        } else {
            seq![data.subrange(offset, end)] + pieces_from(s, data, end)
        }
    }
}

/// The plaintexts of the chunks that the strategy cuts from `data`.
pub open spec fn pieces(s: ChunkingStrategy, data: Seq<u8>) -> Seq<Seq<u8>> {
    pieces_from(s, data, 0)
}

/// `chunks` are the chunks of the plaintexts `ps`, in order.
pub open spec fn chunks_of(chunks: Seq<Chunk>, ps: Seq<Seq<u8>>) -> bool {
    &&& chunks.len() == ps.len()
    &&& forall|j: int| 0 <= j < ps.len() ==> (#[trigger] chunks[j]).describes(ps[j])
}

proof fn lemma_scan_cut_bounds(data: Seq<u8>, i: int, end: int, h: u64, mask: u64)
    requires
        i < end,
    ensures
        i < scan_cut(data, i, end, h, mask) <= end,
    decreases end - i,
{
    let h2 = roll(h, data[i]);
    if i + 1 < end {
        lemma_scan_cut_bounds(data, i + 1, end, h2, mask);
    } else {
        assert(scan_cut(data, i + 1, end, h2, mask) == end);
    }
}

/// On valid parameters every cut lies strictly after its start and within the data.
pub proof fn lemma_next_cut_progress(s: ChunkingStrategy, data: Seq<u8>, offset: int)
    requires
        s.valid(),
        0 <= offset < data.len(),
    ensures
        offset < next_cut(s, data, offset) <= data.len(),
{
    match s {
        ChunkingStrategy::Fixed { size } => {},
        ChunkingStrategy::ContentDefined { min_size, avg_size, max_size } => {
            if data.len() - offset > min_size {
                let search_end = if offset + max_size < data.len() {
                    offset + max_size
                } else {
                    data.len() as int
                };
                if offset + min_size < search_end {
                    lemma_scan_cut_bounds(
                        data,
                        offset + min_size,
                        search_end,
                        0,
                        (avg_size - 1) as u64,
                    );
                }
            }
        },
    }
}

/// Concatenating the chunk plaintexts from `offset` gives back `data[offset..]`.
pub proof fn lemma_pieces_from_concat(s: ChunkingStrategy, data: Seq<u8>, offset: int)
    requires
        s.valid(),
        0 <= offset <= data.len(),
    ensures
        pieces_from(s, data, offset).flatten() == data.subrange(offset, data.len() as int),
    decreases data.len() - offset,
{
    if offset < data.len() {
        lemma_next_cut_progress(s, data, offset);
        let end = next_cut(s, data, offset);
        lemma_pieces_from_concat(s, data, end);
        let ps = pieces_from(s, data, offset);
        assert(ps.drop_first() =~= pieces_from(s, data, end));
        assert(data.subrange(offset, data.len() as int) =~= data.subrange(offset, end)
            + data.subrange(end, data.len() as int));
    } else {
        assert(data.subrange(offset, data.len() as int) =~= Seq::<u8>::empty());
    }
}

/// Concatenating the chunk plaintexts gives back the data.
pub proof fn lemma_pieces_concat(s: ChunkingStrategy, data: Seq<u8>)
    requires
        s.valid(),
    ensures
        pieces(s, data).flatten() == data,
{
    lemma_pieces_from_concat(s, data, 0);
    assert(data.subrange(0, data.len() as int) =~= data);
}

/// The largest chunk the strategy can cut.
pub open spec fn max_chunk(s: ChunkingStrategy) -> int {
    match s {
        ChunkingStrategy::Fixed { size } => size as int,
        ChunkingStrategy::ContentDefined { max_size, .. } => max_size as int,
    }
}

/// On valid parameters every cut lies within `max_chunk` of its start.
pub proof fn lemma_next_cut_bounded(s: ChunkingStrategy, data: Seq<u8>, offset: int)
    requires
        s.valid(),
        0 <= offset < data.len(),
    ensures
        next_cut(s, data, offset) <= offset + max_chunk(s),
{
    match s {
        ChunkingStrategy::Fixed { size } => {},
        ChunkingStrategy::ContentDefined { min_size, avg_size, max_size } => {
            if data.len() - offset > min_size {
                let search_end = if offset + max_size < data.len() {
                    offset + max_size
                } else {
                    data.len() as int
                };
                if offset + min_size < search_end {
                    lemma_scan_cut_bounds(
                        data,
                        offset + min_size,
                        search_end,
                        0,
                        (avg_size - 1) as u64,
                    );
                }
            }
        },
    }
}

/// No chunk is longer than `max_chunk`.
pub proof fn lemma_pieces_from_bounded(s: ChunkingStrategy, data: Seq<u8>, offset: int)
    requires
        s.valid(),
        0 <= offset <= data.len(),
    ensures
        forall|i: int|
            0 <= i < pieces_from(s, data, offset).len() ==> (#[trigger] pieces_from(
                s,
                data,
                offset,
            )[i]).len() <= max_chunk(s),
    decreases data.len() - offset,
{
    if offset < data.len() {
        lemma_next_cut_progress(s, data, offset);
        lemma_next_cut_bounded(s, data, offset);
        let end = next_cut(s, data, offset);
        lemma_pieces_from_bounded(s, data, end);
        let ps = pieces_from(s, data, offset);
        assert forall|i: int| 0 <= i < ps.len() implies (#[trigger] ps[i]).len() <= max_chunk(s) by {
            if i > 0 {
                assert(ps[i] == pieces_from(s, data, end)[i - 1]);
            }
        }
    }
}

proof fn lemma_scan_cut_local(d1: Seq<u8>, d2: Seq<u8>, i: int, end: int, h: u64, mask: u64)
    requires
        0 <= i,
        end <= d1.len(),
        end <= d2.len(),
        forall|j: int| i <= j < end ==> d1[j] == d2[j],
    ensures
        scan_cut(d1, i, end, h, mask) == scan_cut(d2, i, end, h, mask),
    decreases end - i,
{
    if i < end {
        lemma_scan_cut_local(d1, d2, i + 1, end, roll(h, d1[i]), mask);
    }
}

/// A cut depends only on the `max_chunk` bytes after its start: inputs that
/// agree there, and are both at least that long, cut in the same place.
pub proof fn lemma_next_cut_local(s: ChunkingStrategy, d1: Seq<u8>, d2: Seq<u8>, offset: int)
    requires
        s.valid(),
        0 <= offset,
        offset + max_chunk(s) <= d1.len(),
        offset + max_chunk(s) <= d2.len(),
        forall|j: int| offset <= j < offset + max_chunk(s) ==> d1[j] == d2[j],
    ensures
        next_cut(s, d1, offset) == next_cut(s, d2, offset),
{
    match s {
        ChunkingStrategy::Fixed { size } => {},
        ChunkingStrategy::ContentDefined { min_size, avg_size, max_size } => {
            lemma_scan_cut_local(
                d1,
                d2,
                offset + min_size,
                offset + max_size,
                0,
                (avg_size - 1) as u64,
            );
        },
    }
}

/// Number of chunks cut from `data[offset..]` that start at or before `limit`.
pub open spec fn chunks_starting_by(s: ChunkingStrategy, data: Seq<u8>, offset: int, limit: int) -> nat
    decreases data.len() - offset,
{
    if offset >= data.len() || offset > limit {
        0
    } else {
        let end = next_cut(s, data, offset);
        if end <= offset || end > data.len() {
            0
        } else {
            1 + chunks_starting_by(s, data, end, limit)
        }
    }
}

proof fn lemma_chunks_starting_by_le(s: ChunkingStrategy, data: Seq<u8>, offset: int, limit: int)
    ensures
        chunks_starting_by(s, data, offset, limit) <= pieces_from(s, data, offset).len(),
    decreases data.len() - offset,
{
    if offset < data.len() && offset <= limit {
        let end = next_cut(s, data, offset);
        if end > offset && end <= data.len() {
            lemma_chunks_starting_by_le(s, data, end, limit);
        }
    }
}

/// The first `n` chunks of `xs` are also the first `n` chunks of `ys`.
pub open spec fn same_first_chunks(xs: Seq<Seq<u8>>, ys: Seq<Seq<u8>>, n: int) -> bool {
    &&& n <= xs.len()
    &&& n <= ys.len()
    &&& forall|i: int| 0 <= i < n ==> #[trigger] xs[i] == ys[i]
}

/// Inputs that agree on their first `q` bytes (an edit at `q` or later) cut
/// every chunk that starts at or before `q - max_chunk` identically.
pub proof fn lemma_chunks_before_edit_unchanged(
    s: ChunkingStrategy,
    d1: Seq<u8>,
    d2: Seq<u8>,
    offset: int,
    q: int,
)
    requires
        s.valid(),
        0 <= offset,
        q <= d1.len(),
        q <= d2.len(),
        forall|j: int| 0 <= j < q ==> d1[j] == d2[j],
    ensures
        same_first_chunks(
            pieces_from(s, d1, offset),
            pieces_from(s, d2, offset),
            chunks_starting_by(s, d1, offset, q - max_chunk(s)) as int,
        ),
    decreases d1.len() - offset,
{
    let limit = q - max_chunk(s);
    let xs = pieces_from(s, d1, offset);
    let ys = pieces_from(s, d2, offset);
    if offset < d1.len() && offset <= limit {
        lemma_next_cut_local(s, d1, d2, offset);
        lemma_next_cut_progress(s, d1, offset);
        lemma_next_cut_progress(s, d2, offset);
        lemma_next_cut_bounded(s, d1, offset);
        let end = next_cut(s, d1, offset);
        lemma_chunks_before_edit_unchanged(s, d1, d2, end, q);
        lemma_chunks_starting_by_le(s, d1, end, limit);
        let r1 = pieces_from(s, d1, end);
        let r2 = pieces_from(s, d2, end);
        let n = chunks_starting_by(s, d1, end, limit);
        assert(same_first_chunks(r1, r2, n as int));
        assert(d1.subrange(offset, end) =~= d2.subrange(offset, end));
        assert(xs == seq![d1.subrange(offset, end)] + r1);
        assert(ys == seq![d2.subrange(offset, end)] + r2);
        let m: int = n as int + 1;
        assert(chunks_starting_by(s, d1, offset, limit) == m);
        assert forall|i: int| 0 <= i < m implies #[trigger] xs[i] == ys[i] by {
            if i > 0 {
                assert(r1[i - 1] == r2[i - 1]);
                assert(xs[i] == r1[i - 1]);
                assert(ys[i] == r2[i - 1]);
            }
        }
        assert(same_first_chunks(xs, ys, m));
    } else {
        assert(chunks_starting_by(s, d1, offset, limit) == 0);
        assert(same_first_chunks(xs, ys, 0));
    }
}

/// Cuts a byte stream into chunks.
pub struct Chunker {
    strategy: ChunkingStrategy,
}

impl Chunker {
    pub fn new(strategy: ChunkingStrategy) -> (r: Chunker)
        ensures
            r.strategy() == strategy,
    {
        Chunker { strategy }
    }

    /// The strategy this chunker applies.
    pub closed spec fn strategy(&self) -> ChunkingStrategy {
        self.strategy
    }

    /// The strategy, as a value.
    pub fn strategy_value(&self) -> (r: ChunkingStrategy)
        ensures
            r == self.strategy(),
    {
        self.strategy
    }

    /// Split `data` into chunks. Fails with `InvalidConfig` exactly when the
    /// strategy's parameters are not valid.
    pub fn chunk_data(&self, data: &[u8]) -> (r: Result<Vec<Chunk>, Error>)
        ensures
            r is Ok <==> self.strategy().valid(),
            r matches Ok(cs) ==> chunks_of(cs@, pieces(self.strategy(), data@)),
    {
        if !self.strategy.is_valid() {
            return Err(Error::InvalidConfig("invalid chunking parameters".to_string()));
        }
        match self.strategy {
            ChunkingStrategy::Fixed { size } => self.chunk_fixed(data, size),
            ChunkingStrategy::ContentDefined { min_size, avg_size, max_size } => {
                self.chunk_cdc(data, min_size, avg_size, max_size)
            },
        }
    }

    /// Fixed-size chunking.
    fn chunk_fixed(&self, data: &[u8], size: usize) -> (r: Result<Vec<Chunk>, Error>)
        requires
            self.strategy == (ChunkingStrategy::Fixed { size }),
            size > 0,
        ensures
            r matches Ok(cs) && chunks_of(cs@, pieces(self.strategy, data@)),
    {
        let ghost s = self.strategy;
        let mut chunks: Vec<Chunk> = Vec::new();
        let mut offset: usize = 0;
        let ghost done: Seq<Seq<u8>> = Seq::empty();
        while offset < data.len()
            invariant
                s == self.strategy,
                s == (ChunkingStrategy::Fixed { size }),
                s.valid(),
                offset <= data@.len(),
                pieces(s, data@) == done + pieces_from(s, data@, offset as int),
                chunks_of(chunks@, done),
            decreases data@.len() - offset,
        {
            let end = if size < data.len() - offset {
                offset + size
            } else {
                data.len()
            };
            proof {
                lemma_next_cut_progress(s, data@, offset as int);
            }
            let chunk = make_chunk(data, offset, end);
            proof {
                let p = data@.subrange(offset as int, end as int);
                assert(pieces_from(s, data@, offset as int) =~= seq![p] + pieces_from(
                    s,
                    data@,
                    end as int,
                ));
                assert(done + pieces_from(s, data@, offset as int) =~= done.push(p)
                    + pieces_from(s, data@, end as int));
                done = done.push(p);
            }
            chunks.push(chunk);
            offset = end;
        }
        proof {
            assert(done + pieces_from(s, data@, offset as int) =~= done);
        }
        Ok(chunks)
    }

    /// Content-defined chunking with a gear-style rolling fingerprint.
    fn chunk_cdc(&self, data: &[u8], min_size: usize, avg_size: usize, max_size: usize) -> (r:
        Result<Vec<Chunk>, Error>)
        requires
            self.strategy == (ChunkingStrategy::ContentDefined { min_size, avg_size, max_size }),
            self.strategy.valid(),
        ensures
            r matches Ok(cs) && chunks_of(cs@, pieces(self.strategy, data@)),
    {
        let ghost s = self.strategy;
        let mut chunks: Vec<Chunk> = Vec::new();
        let mut offset: usize = 0;
        let ghost done: Seq<Seq<u8>> = Seq::empty();
        let mask: u64 = (avg_size - 1) as u64;
        let data_len = data.len();
        while offset < data_len
            invariant
                s == self.strategy,
                s == (ChunkingStrategy::ContentDefined { min_size, avg_size, max_size }),
                s.valid(),
                data_len == data@.len(),
                mask == (avg_size - 1) as u64,
                offset <= data@.len(),
                pieces(s, data@) == done + pieces_from(s, data@, offset as int),
                chunks_of(chunks@, done),
            decreases data@.len() - offset,
        {
            let remaining = data_len - offset;
            let chunk_end = if remaining <= min_size {
                data_len
            } else {
                let search_end = if max_size < remaining {
                    offset + max_size
                } else {
                    data_len
                };
                find_boundary(data, offset + min_size, search_end, mask)
            };
            proof {
                lemma_next_cut_progress(s, data@, offset as int);
            }
            let chunk = make_chunk(data, offset, chunk_end);
            proof {
                let p = data@.subrange(offset as int, chunk_end as int);
                assert(pieces_from(s, data@, offset as int) =~= seq![p] + pieces_from(
                    s,
                    data@,
                    chunk_end as int,
                ));
                assert(done + pieces_from(s, data@, offset as int) =~= done.push(p)
                    + pieces_from(s, data@, chunk_end as int));
                done = done.push(p);
            }
            chunks.push(chunk);
            offset = chunk_end;
        }
        proof {
            assert(done + pieces_from(s, data@, offset as int) =~= done);
        }
        Ok(chunks)
    }
}

/// The gear entry of a byte.
fn gear_of(b: u8) -> (r: u64)
    ensures
        r == gear(b),
{
    (b as u64 + 1).wrapping_mul(GEAR_MULTIPLIER)
}

/// Scan `data[start..end]` for the first content-defined cut.
fn find_boundary(data: &[u8], start: usize, end: usize, mask: u64) -> (r: usize)
    requires
        start <= end <= data@.len(),
    ensures
        r == scan_cut(data@, start as int, end as int, 0, mask),
{
    let mut h: u64 = 0;
    let mut i: usize = start;
    while i < end
        invariant
            start <= i <= end <= data@.len(),
            scan_cut(data@, start as int, end as int, 0, mask) == scan_cut(
                data@,
                i as int,
                end as int,
                h,
                mask,
            ),
        decreases end - i,
    {
        h = (h << 1u64).wrapping_add(gear_of(data[i]));
        if h & mask == 0 {
            return i + 1;
        }
        i = i + 1;
    }
    end
}

/// The chunk holding `data[start..end]`.
fn make_chunk(data: &[u8], start: usize, end: usize) -> (c: Chunk)
    requires
        start <= end <= data@.len(),
    ensures
        c.describes(data@.subrange(start as int, end as int)),
{
    let chunk_data = slice_to_vec(&data[start..end]);
    let hash = hash_data(chunk_data.as_slice());
    let id = ChunkId::from_hash(hash.as_slice());
    let size = chunk_data.len() as u64;
    Chunk { id, size, hash, data: chunk_data }
}

} // verus!
