//! Per-column chunk metadata of a blob and its byte layout.
use vstd::prelude::*;
use vstd::bytes::{spec_u64_to_le_bytes, spec_u32_to_le_bytes, spec_u16_to_le_bytes};
use crate::storage::le_bytes::{
    spec_u64_at, spec_u32_at, spec_u16_at, read_u64, read_u32, read_u16, write_u64, write_u32, write_u16,
    lemma_u64_at, lemma_u32_at, lemma_u16_at, lemma_le_lens,
};

verus! {

/// Statistics of a chunk of a column. The bounds are the bit patterns of
/// `f64` values.
#[derive(Debug, Clone, Copy, PartialEq, Eq, Structural)]
pub struct ColumnStats {
    pub min: Option<u64>,
    pub max: Option<u64>,
    pub null_count: usize,
}

/// The bytes of an optional value: a flag byte 1 and the value's eight
/// little-endian bytes, or a flag byte 0.
pub open spec fn spec_opt_bytes(v: Option<u64>) -> Seq<u8> {
    match v {
        Some(x) => seq![1u8] + spec_u64_to_le_bytes(x),
        None => seq![0u8],
    }
}

/// The bytes of column statistics: the bounds, then the null count as a
/// little-endian `u64`.
pub open spec fn spec_stats_bytes(s: ColumnStats) -> Seq<u8> {
    spec_opt_bytes(s.min) + spec_opt_bytes(s.max) + spec_u64_to_le_bytes(s.null_count as u64)
}

/// Reads an optional value at `pos`: a flag byte 1 followed by eight bytes
/// of value, or any other flag byte for none. Gives the value and the
/// position after it, or `None` where the bytes run out.
pub open spec fn spec_read_opt(b: Seq<u8>, pos: int) -> Option<(Option<u64>, int)> {
    if pos < 0 || pos >= b.len() {
        None
    } else if b[pos] == 1 {
        if pos + 9 <= b.len() {
            Some((Some(spec_u64_at(b, pos + 1)), pos + 9))
        } else {
            None
        }
    } else {
        Some((None, pos + 1))
    }
}

/// Reads column statistics at `pos`, giving them and the position after
/// them, or `None` where the bytes run out.
pub open spec fn spec_read_stats(b: Seq<u8>, pos: int) -> Option<(ColumnStats, int)> {
    match spec_read_opt(b, pos) {
        Some((min, p1)) => match spec_read_opt(b, p1) {
            Some((max, p2)) => if p2 + 8 <= b.len() {
                Some((ColumnStats { min, max, null_count: spec_u64_at(b, p2) as usize }, p2 + 8))
            } else {
                None
            },
            None => None,
        },
        None => None,
    }
}

fn write_opt(v: Option<u64>, buf: &mut Vec<u8>)
    ensures
        final(buf)@ == old(buf)@ + spec_opt_bytes(v),
{
    match v {
        Some(x) => {
            buf.push(1u8);
            write_u64(x, buf);
            assert(final(buf)@ =~= old(buf)@ + spec_opt_bytes(v));
        },
        None => {
            buf.push(0u8);
            assert(final(buf)@ =~= old(buf)@ + spec_opt_bytes(v));
        },
    }
}

fn read_opt(b: &[u8], pos: usize) -> (r: Option<(Option<u64>, usize)>)
    ensures
        match spec_read_opt(b@, pos as int) {
            Some((v, p)) => r matches Some((v2, p2)) && v2 == v && p2 == p,
            None => r is None,
        },
{
    if pos >= b.len() {
        None
    } else if b[pos] == 1 {
        if b.len() - pos >= 9 {
            Some((Some(read_u64(b, pos + 1)), pos + 9))
        } else {
            None
        }
    } else {
        Some((None, pos + 1))
    }
}

/// Reads column statistics at `pos`.
pub fn read_stats_at(b: &[u8], pos: usize) -> (r: Option<(ColumnStats, usize)>)
    ensures
        match spec_read_stats(b@, pos as int) {
            Some((s, p)) => r matches Some((s2, p2)) && s2 == s && p2 == p,
            None => r is None,
        },
{
    let (min, p1) = match read_opt(b, pos) {
        Some(x) => x,
        None => {
            return None;
        },
    };
    let (max, p2) = match read_opt(b, p1) {
        Some(x) => x,
        None => {
            return None;
        },
    };
    if b.len() - p2 < 8 {
        return None;
    }
    let n = read_u64(b, p2);
    Some((ColumnStats { min, max, null_count: n as usize }, p2 + 8))
}

impl ColumnStats {
    pub fn new(min: Option<u64>, max: Option<u64>, null_count: usize) -> (s: ColumnStats)
        ensures
            s == (ColumnStats { min, max, null_count }),
    {
        ColumnStats { min, max, null_count }
    }

    pub fn to_bytes(&self) -> (r: Vec<u8>)
        ensures
            r@ == spec_stats_bytes(*self),
    {
        let mut buf: Vec<u8> = Vec::new();
        write_opt(self.min, &mut buf);
        write_opt(self.max, &mut buf);
        write_u64(self.null_count as u64, &mut buf);
        assert(buf@ =~= spec_stats_bytes(*self));
        buf
    }

    /// The statistics at the start of `bytes` and how many bytes they take;
    /// `None` where the bytes run out.
    pub fn from_bytes(bytes: &[u8]) -> (r: Option<(ColumnStats, usize)>)
        ensures
            match spec_read_stats(bytes@, 0) {
                Some((s, p)) => r matches Some((s2, p2)) && s2 == s && p2 == p,
                None => r is None,
            },
    {
        read_stats_at(bytes, 0)
    }
}

proof fn lemma_read_opt(v: Option<u64>, b: Seq<u8>, pos: int)
    requires
        0 <= pos,
        pos + spec_opt_bytes(v).len() <= b.len(),
        b.subrange(pos, pos + spec_opt_bytes(v).len()) == spec_opt_bytes(v),
    ensures
        spec_read_opt(b, pos) == Some((v, pos + spec_opt_bytes(v).len())),
{
    lemma_le_lens(0, 0, 0);
    assert(b[pos] == b.subrange(pos, pos + spec_opt_bytes(v).len())[0]);
    match v {
        Some(x) => {
            lemma_le_lens(x, 0, 0);
            assert(b.subrange(pos + 1, pos + 9) =~= b.subrange(pos, pos + 9).subrange(1, 9));
            assert(spec_opt_bytes(v).subrange(1, 9) =~= spec_u64_to_le_bytes(x));
            lemma_u64_at(x, b, pos + 1);
        },
        None => {},
    }
}

/// Reading statistics back from their bytes, whatever follows them, gives
/// them and their length.
pub proof fn lemma_stats_roundtrip(s: ColumnStats, rest: Seq<u8>)
    ensures
        spec_read_stats(spec_stats_bytes(s) + rest, 0) == Some((s, spec_stats_bytes(s).len() as int)),
{
    lemma_stats_roundtrip_at(s, Seq::<u8>::empty(), rest);
    assert(Seq::<u8>::empty() + spec_stats_bytes(s) + rest =~= spec_stats_bytes(s) + rest);
}

/// Where the data of one chunk of one column lies in a blob, how it is
/// encoded, and its statistics.
#[derive(Debug, Clone, Copy, PartialEq, Eq, Structural)]
pub struct ChunkMeta {
    pub col_idx: u32,
    pub chunk_idx: u32,
    pub encoding: u16,
    pub offset: u64,
    pub compressed_size: u64,
    pub uncompressed_size: u64,
    pub stats: ColumnStats,
}

/// The bytes of chunk metadata: the fixed-width fields in order,
/// little-endian, then the statistics.
pub open spec fn spec_meta_bytes(m: ChunkMeta) -> Seq<u8> {
    spec_u32_to_le_bytes(m.col_idx) + spec_u32_to_le_bytes(m.chunk_idx) + spec_u16_to_le_bytes(m.encoding)
        + spec_u64_to_le_bytes(m.offset) + spec_u64_to_le_bytes(m.compressed_size) + spec_u64_to_le_bytes(
        m.uncompressed_size,
    ) + spec_stats_bytes(m.stats)
}

/// Reads chunk metadata at `pos`, giving it and the position after it, or
/// `None` where the bytes run out.
pub open spec fn spec_read_meta(b: Seq<u8>, pos: int) -> Option<(ChunkMeta, int)> {
    if pos < 0 || pos + 34 > b.len() {
        None
    } else {
        match spec_read_stats(b, pos + 34) {
            Some((stats, p)) => Some((
                ChunkMeta {
                    col_idx: spec_u32_at(b, pos),
                    chunk_idx: spec_u32_at(b, pos + 4),
                    encoding: spec_u16_at(b, pos + 8),
                    offset: spec_u64_at(b, pos + 10),
                    compressed_size: spec_u64_at(b, pos + 18),
                    uncompressed_size: spec_u64_at(b, pos + 26),
                    stats,
                },
                p,
            )),
            None => None,
        }
    }
}

/// Reads chunk metadata at `pos`.
pub fn read_meta_at(b: &[u8], pos: usize) -> (r: Option<(ChunkMeta, usize)>)
    ensures
        match spec_read_meta(b@, pos as int) {
            Some((m, p)) => r matches Some((m2, p2)) && m2 == m && p2 == p,
            None => r is None,
        },
{
    if pos > b.len() || b.len() - pos < 34 {
        return None;
    }
    let col_idx = read_u32(b, pos);
    let chunk_idx = read_u32(b, pos + 4);
    let encoding = read_u16(b, pos + 8);
    let offset = read_u64(b, pos + 10);
    let compressed_size = read_u64(b, pos + 18);
    let uncompressed_size = read_u64(b, pos + 26);
    match read_stats_at(b, pos + 34) {
        Some((stats, p)) => Some((
            ChunkMeta { col_idx, chunk_idx, encoding, offset, compressed_size, uncompressed_size, stats },
            p,
        )),
        None => None,
    }
}

impl ChunkMeta {
    pub fn to_bytes(&self) -> (r: Vec<u8>)
        ensures
            r@ == spec_meta_bytes(*self),
    {
        let mut buf: Vec<u8> = Vec::new();
        write_u32(self.col_idx, &mut buf);
        write_u32(self.chunk_idx, &mut buf);
        write_u16(self.encoding, &mut buf);
        write_u64(self.offset, &mut buf);
        write_u64(self.compressed_size, &mut buf);
        write_u64(self.uncompressed_size, &mut buf);
        let mut s = self.stats.to_bytes();
        buf.append(&mut s);
        assert(buf@ =~= spec_meta_bytes(*self));
        buf
    }

    /// The metadata at the start of `bytes` and how many bytes it takes;
    /// `None` where the bytes run out.
    pub fn from_bytes(bytes: &[u8]) -> (r: Option<(ChunkMeta, usize)>)
        ensures
            match spec_read_meta(bytes@, 0) {
                Some((m, p)) => r matches Some((m2, p2)) && m2 == m && p2 == p,
                None => r is None,
            },
    {
        read_meta_at(bytes, 0)
    }
}

/// Reading metadata back from its bytes, whatever follows them, gives it
/// and its length.
pub proof fn lemma_meta_roundtrip(m: ChunkMeta, rest: Seq<u8>)
    ensures
        spec_read_meta(spec_meta_bytes(m) + rest, 0) == Some((m, spec_meta_bytes(m).len() as int)),
{
    lemma_meta_roundtrip_at(m, Seq::<u8>::empty(), rest);
    assert(Seq::<u8>::empty() + spec_meta_bytes(m) + rest =~= spec_meta_bytes(m) + rest);
}

/// Metadata read back where it follows other bytes.
pub proof fn lemma_meta_roundtrip_at(m: ChunkMeta, before: Seq<u8>, rest: Seq<u8>)
    ensures
        spec_read_meta(before + spec_meta_bytes(m) + rest, before.len() as int) == Some((
            m,
            (before.len() + spec_meta_bytes(m).len()) as int,
        )),
{
    let s = spec_stats_bytes(m.stats);
    let b = before + spec_meta_bytes(m) + rest;
    let p = before.len() as int;
    lemma_le_lens(m.offset, m.col_idx, m.encoding);
    lemma_le_lens(m.compressed_size, m.chunk_idx, 0);
    lemma_le_lens(m.uncompressed_size, 0, 0);
    let head = spec_u32_to_le_bytes(m.col_idx) + spec_u32_to_le_bytes(m.chunk_idx) + spec_u16_to_le_bytes(m.encoding)
        + spec_u64_to_le_bytes(m.offset) + spec_u64_to_le_bytes(m.compressed_size) + spec_u64_to_le_bytes(
        m.uncompressed_size,
    );
    assert(head.len() == 34);
    assert(b =~= (before + head) + s + rest);
    assert(b.subrange(p, p + 4) =~= spec_u32_to_le_bytes(m.col_idx));
    lemma_u32_at(m.col_idx, b, p);
    assert(b.subrange(p + 4, p + 8) =~= spec_u32_to_le_bytes(m.chunk_idx));
    lemma_u32_at(m.chunk_idx, b, p + 4);
    assert(b.subrange(p + 8, p + 10) =~= spec_u16_to_le_bytes(m.encoding));
    lemma_u16_at(m.encoding, b, p + 8);
    assert(b.subrange(p + 10, p + 18) =~= spec_u64_to_le_bytes(m.offset));
    lemma_u64_at(m.offset, b, p + 10);
    assert(b.subrange(p + 18, p + 26) =~= spec_u64_to_le_bytes(m.compressed_size));
    lemma_u64_at(m.compressed_size, b, p + 18);
    assert(b.subrange(p + 26, p + 34) =~= spec_u64_to_le_bytes(m.uncompressed_size));
    lemma_u64_at(m.uncompressed_size, b, p + 26);
    lemma_stats_roundtrip_at(m.stats, before + head, rest);
}

/// Statistics read back where they follow other bytes.
proof fn lemma_stats_roundtrip_at(s: ColumnStats, before: Seq<u8>, rest: Seq<u8>)
    ensures
        spec_read_stats(before + spec_stats_bytes(s) + rest, before.len() as int) == Some((
            s,
            (before.len() + spec_stats_bytes(s).len()) as int,
        )),
{
    let b = before + spec_stats_bytes(s) + rest;
    let p0 = before.len() as int;
    let a = spec_opt_bytes(s.min);
    let c = spec_opt_bytes(s.max);
    let al = a.len() as int;
    let cl = c.len() as int;
    lemma_le_lens(s.null_count as u64, 0, 0);
    assert(b.subrange(p0, p0 + al) =~= a);
    lemma_read_opt(s.min, b, p0);
    assert(b.subrange(p0 + al, p0 + al + cl) =~= c);
    lemma_read_opt(s.max, b, p0 + al);
    let p2 = p0 + al + cl;
    assert(b.subrange(p2, p2 + 8) =~= spec_u64_to_le_bytes(s.null_count as u64));
    lemma_u64_at(s.null_count as u64, b, p2);
}

/// One encoded chunk of one column with its metadata.
#[derive(Debug)]
pub struct EncodedChunk {
    pub meta: ChunkMeta,
    pub data: Vec<u8>,
}

impl Clone for EncodedChunk {
    fn clone(&self) -> (r: Self)
        ensures
            r.meta == self.meta,
            r.data@ == self.data@,
    {
        let data = self.data.clone();
        assert(data@ =~= self.data@);
        EncodedChunk { meta: self.meta, data }
    }
}

impl EncodedChunk {
    pub fn new(meta: ChunkMeta, data: Vec<u8>) -> (c: EncodedChunk)
        ensures
            c.meta == meta,
            c.data@ == data@,
    {
        EncodedChunk { meta, data }
    }
}

} // verus!
