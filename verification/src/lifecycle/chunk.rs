//! Deterministic chunking of documents, and the chunk-level diff of a
//! document between two source versions.
use vstd::prelude::*;
use vstd::utf8::{
    encode_utf8, encode_scalar, char_is_scalar, is_char_boundary_start_end_of_seq, encode_utf8_valid_utf8,
    decode_utf8_encode_utf8, encode_utf8_decode_utf8,
};
use std::collections::HashMap;
use crate::text::{spec_views, spec_decimal, append_decimal_i64};
use crate::maps::keys_of;
use crate::lifecycle::state::{content_hash, spec_content_hash, spec_parts};
use crate::lifecycle::split::{
    spec_paragraphs, split_paragraphs, split_fixed, pieces_from, decode_all, lemma_pieces_total,
    lemma_pieces_bounded, lemma_paragraphs_nonempty, spec_visible, spec_visible_all, lemma_visible_all_add,
    lemma_visible_all_one, lemma_visible_pieces, lemma_visible_paragraphs,
};

verus! {

broadcast use vstd::std_specs::hash::group_hash_axioms;

/// Default maximum chunk length in bytes for deterministic chunking.
pub const DEFAULT_CHUNK_SIZE: usize = 512;

/// The chunks of one paragraph: the paragraph itself where it fits in `max`
/// bytes, else its pieces of at most `max` bytes.
pub open spec fn paragraph_chunks(p: Seq<char>, max: int) -> Option<Seq<Seq<char>>> {
    let pb = encode_utf8(p);
    if pb.len() <= max {
        Some(seq![p])
    } else {
        match pieces_from(pb, 0, max) {
            Some(pieces) => Some(decode_all(pieces)),
            None => None,
        }
    }
}

/// The chunks of the paragraphs, in order; `None` where the cutting of one
/// of them would never end.
pub open spec fn chunks_of_paragraphs(ps: Seq<Seq<char>>, max: int) -> Option<Seq<Seq<char>>>
    decreases ps.len(),
{
    if ps.len() == 0 {
        Some(seq![])
    } else {
        match (chunks_of_paragraphs(ps.drop_last(), max), paragraph_chunks(ps.last(), max)) {
            (Some(a), Some(c)) => Some(a + c),
            _ => None,
        }
    }
}

/// The chunks of a text: its paragraphs, those longer than `max` bytes cut
/// further at whitespace. `None` where the cutting would never end, which
/// happens only for a `max` too small to hold some character.
pub open spec fn spec_chunk_text(text: Seq<char>, max: int) -> Option<Seq<Seq<char>>> {
    chunks_of_paragraphs(spec_paragraphs(text), max)
}

proof fn lemma_chunks_prefix(ps: Seq<Seq<char>>, max: int, i: int)
    requires
        chunks_of_paragraphs(ps, max) is Some,
        0 <= i <= ps.len(),
    ensures
        chunks_of_paragraphs(ps.take(i), max) is Some,
    decreases ps.len(),
{
    if i == ps.len() {
        assert(ps.take(i) =~= ps);
    } else {
        assert(ps.drop_last().take(i) =~= ps.take(i));
        lemma_chunks_prefix(ps.drop_last(), max, i);
    }
}

/// The chunks of paragraphs hold what is visible in the paragraphs.
proof fn lemma_visible_chunks(ps: Seq<Seq<char>>, max: int)
    requires
        chunks_of_paragraphs(ps, max) is Some,
    ensures
        spec_visible_all(chunks_of_paragraphs(ps, max).unwrap()) == spec_visible_all(ps),
    decreases ps.len(),
{
    if ps.len() > 0 {
        let p = ps.last();
        lemma_visible_chunks(ps.drop_last(), max);
        let a = chunks_of_paragraphs(ps.drop_last(), max).unwrap();
        let c = paragraph_chunks(p, max).unwrap();
        lemma_visible_all_add(a, c);
        let pb = encode_utf8(p);
        if pb.len() <= max {
            lemma_visible_all_one(p);
        } else {
            encode_utf8_valid_utf8(p);
            is_char_boundary_start_end_of_seq(pb);
            lemma_visible_pieces(pb, 0, max);
            assert(pb.subrange(0, pb.len() as int) =~= pb);
            encode_utf8_decode_utf8(p);
        }
    }
}

/// Chunking loses only whitespace: the characters of the chunks that are
/// not whitespace are those of the text, in the same order.
pub proof fn lemma_chunking_keeps_visible_text(text: Seq<char>, max: int)
    requires
        spec_chunk_text(text, max) is Some,
    ensures
        spec_visible_all(spec_chunk_text(text, max).unwrap()) == spec_visible(text),
{
    let b = encode_utf8(text);
    lemma_visible_chunks(spec_paragraphs(text), max);
    encode_utf8_valid_utf8(text);
    is_char_boundary_start_end_of_seq(b);
    lemma_visible_paragraphs(b, 0);
    assert(b.subrange(0, b.len() as int) =~= b);
    encode_utf8_decode_utf8(text);
}

/// With room for any character (four bytes or more), chunking always ends.
pub proof fn lemma_chunk_text_total(text: Seq<char>, max: int)
    requires
        max >= 4,
    ensures
        spec_chunk_text(text, max) is Some,
{
    lemma_chunks_total(spec_paragraphs(text), max);
}

proof fn lemma_chunks_total(ps: Seq<Seq<char>>, max: int)
    requires
        max >= 4,
    ensures
        chunks_of_paragraphs(ps, max) is Some,
    decreases ps.len(),
{
    if ps.len() > 0 {
        lemma_chunks_total(ps.drop_last(), max);
        let pb = encode_utf8(ps.last());
        encode_utf8_valid_utf8(ps.last());
        is_char_boundary_start_end_of_seq(pb);
        lemma_pieces_total(pb, 0, max);
    }
}

/// Whether every chunk holds some bytes, and at most `max`.
pub open spec fn within_bytes(cs: Seq<Seq<char>>, max: int) -> bool {
    forall|i: int| 0 <= i < cs.len() ==> 0 < #[trigger] encode_utf8(cs[i]).len() <= max
}

proof fn lemma_encode_nonempty(s: Seq<char>)
    requires
        s.len() > 0,
    ensures
        encode_utf8(s).len() > 0,
{
    char_is_scalar(s[0]);
    assert(encode_utf8(s) == encode_scalar(s[0] as u32) + encode_utf8(s.drop_first()));
}

proof fn lemma_paragraph_chunks_bounded(p: Seq<char>, max: int)
    requires
        p.len() > 0,
        0 <= max,
        paragraph_chunks(p, max) is Some,
    ensures
        within_bytes(paragraph_chunks(p, max).unwrap(), max),
{
    let pb = encode_utf8(p);
    if pb.len() <= max {
        lemma_encode_nonempty(p);
    } else {
        encode_utf8_valid_utf8(p);
        is_char_boundary_start_end_of_seq(pb);
        lemma_pieces_bounded(pb, 0, max);
        let pieces = pieces_from(pb, 0, max).unwrap();
        let cs = decode_all(pieces);
        assert forall|i: int| 0 <= i < cs.len() implies 0 < #[trigger] encode_utf8(cs[i]).len() <= max by {
            let q = pieces[i];
            decode_utf8_encode_utf8(q);
        }
    }
}

proof fn lemma_chunks_of_paragraphs_bounded(ps: Seq<Seq<char>>, max: int)
    requires
        forall|i: int| 0 <= i < ps.len() ==> #[trigger] ps[i].len() > 0,
        0 <= max,
        chunks_of_paragraphs(ps, max) is Some,
    ensures
        within_bytes(chunks_of_paragraphs(ps, max).unwrap(), max),
    decreases ps.len(),
{
    if ps.len() > 0 {
        lemma_chunks_of_paragraphs_bounded(ps.drop_last(), max);
        assert(ps.last() == ps[ps.len() - 1]);
        lemma_paragraph_chunks_bounded(ps.last(), max);
        let a = chunks_of_paragraphs(ps.drop_last(), max).unwrap();
        let c = paragraph_chunks(ps.last(), max).unwrap();
        let all = chunks_of_paragraphs(ps, max).unwrap();
        assert(all == a + c);
        assert forall|i: int| 0 <= i < all.len() implies 0 < #[trigger] encode_utf8(all[i]).len() <= max by {
            if i < a.len() {
                assert(all[i] == a[i]);
            } else {
                assert(all[i] == c[i - a.len()]);
            }
        }
    }
}

/// Every chunk of a text holds some bytes and at most `max` of them.
pub proof fn lemma_chunk_text_bounded(text: Seq<char>, max: int)
    requires
        0 <= max,
        spec_chunk_text(text, max) is Some,
    ensures
        within_bytes(spec_chunk_text(text, max).unwrap(), max),
{
    lemma_paragraphs_nonempty(encode_utf8(text), 0);
    lemma_chunks_of_paragraphs_bounded(spec_paragraphs(text), max);
}

/// Deterministic chunking: the text is split into blank-line separated
/// paragraphs, and paragraphs longer than `max_chunk_len` bytes are further
/// split at whitespace.
pub fn chunk_text(text: &str, max_chunk_len: usize) -> (r: Vec<String>)
    requires
        spec_chunk_text(text@, max_chunk_len as int) is Some,
    ensures
        spec_views(r@) == spec_chunk_text(text@, max_chunk_len as int).unwrap(),
{
    let ghost max = max_chunk_len as int;
    let ghost ps = spec_paragraphs(text@);
    let paragraphs = split_paragraphs(text);
    let mut chunks: Vec<String> = Vec::new();
    let mut i: usize = 0;
    assert(ps.take(0) =~= Seq::<Seq<char>>::empty());
    while i < paragraphs.len()
        invariant
            paragraphs@.map_values(|p: &str| p@) == ps,
            max == max_chunk_len as int,
            i <= ps.len(),
            chunks_of_paragraphs(ps, max) is Some,
            chunks_of_paragraphs(ps.take(i as int), max) == Some(spec_views(chunks@)),
        decreases ps.len() - i,
    {
        let paragraph: &str = paragraphs[i];
        assert(paragraph@ == ps[i as int]);
        proof {
            lemma_chunks_prefix(ps, max, i + 1);
            assert(ps.take(i + 1).drop_last() =~= ps.take(i as int));
            assert(ps.take(i + 1).last() == ps[i as int]);
        }
        let ghost before = spec_views(chunks@);
        if paragraph.as_bytes().len() <= max_chunk_len {
            assert(encode_utf8(ps[i as int]).len() <= max);
            assert(paragraph_chunks(ps[i as int], max) == Some(seq![ps[i as int]]));
            chunks.push(paragraph.to_owned());
            assert(spec_views(chunks@) =~= before + seq![ps[i as int]]);
        } else {
            let mut pieces = split_fixed(paragraph, max_chunk_len);
            let ghost added = spec_views(pieces@);
            assert(paragraph_chunks(ps[i as int], max) == Some(added));
            chunks.append(&mut pieces);
            assert(spec_views(chunks@) =~= before + added);
        }
        i = i + 1;
    }
    assert(ps.take(i as int) =~= ps);
    chunks
}

proof fn lemma_id_hashes_numbered(cs: Seq<Chunk>)
    requires
        cs.len() <= 0x1_0000_0000,
        forall|i: int| 0 <= i < cs.len() ==> #[trigger] cs[i].chunk_id == i as u32,
    ensures
        forall|i: int|
            0 <= i < cs.len() ==> spec_id_hashes(cs).contains_key(#[trigger] cs[i].chunk_id)
                && spec_id_hashes(cs)[cs[i].chunk_id] == cs[i].content_hash,
    decreases cs.len(),
{
    if cs.len() > 0 {
        let init = cs.drop_last();
        assert forall|i: int| 0 <= i < init.len() implies #[trigger] init[i].chunk_id == i as u32 by {
            assert(init[i] == cs[i]);
        }
        lemma_id_hashes_numbered(init);
        assert(cs.last() == cs[cs.len() - 1]);
        assert forall|i: int| 0 <= i < cs.len() implies spec_id_hashes(cs).contains_key(#[trigger] cs[i].chunk_id)
            && spec_id_hashes(cs)[cs[i].chunk_id] == cs[i].content_hash by {
            if i < cs.len() - 1 {
                assert(cs[i] == init[i]);
                assert(cs[i].chunk_id != cs.last().chunk_id);
            }
        }
    }
}

proof fn lemma_no_process(diffs: Seq<ChunkDiff>)
    requires
        forall|i: int| 0 <= i < diffs.len() ==> #[trigger] diffs[i].change == ChunkChange::Skip,
    ensures
        spec_process_count(diffs) == 0,
    decreases diffs.len(),
{
    if diffs.len() > 0 {
        assert(diffs.last() == diffs[diffs.len() - 1]);
        assert forall|i: int| 0 <= i < diffs.drop_last().len() implies #[trigger] diffs.drop_last()[i].change
            == ChunkChange::Skip by {
            assert(diffs.drop_last()[i] == diffs[i]);
        }
        lemma_no_process(diffs.drop_last());
    }
}

/// Re-chunking content that did not change skips every chunk: against the
/// chunks of the same content at an earlier version, each decision is to
/// skip and none is to process (while chunk ids, which are `u32`, do not
/// wrap).
pub proof fn lemma_unchanged_content_skips_all(
    old_chunks: Seq<Chunk>,
    new_chunks: Seq<Chunk>,
    document_id: i64,
    old_version: u64,
    new_version: u64,
    content: Seq<char>,
)
    requires
        are_document_chunks(old_chunks, document_id, old_version, content),
        are_document_chunks(new_chunks, document_id, new_version, content),
        old_chunks.len() <= 0x1_0000_0000,
    ensures
        forall|i: int|
            0 <= i < new_chunks.len() ==> (#[trigger] spec_chunk_diff(spec_id_hashes(old_chunks), new_chunks[i])).change
                == ChunkChange::Skip,
        spec_process_count(new_chunks.map_values(|c: Chunk| spec_chunk_diff(spec_id_hashes(old_chunks), c))) == 0,
{
    lemma_id_hashes_numbered(old_chunks);
    let diffs = new_chunks.map_values(|c: Chunk| spec_chunk_diff(spec_id_hashes(old_chunks), c));
    assert forall|i: int| 0 <= i < new_chunks.len() implies (#[trigger] spec_chunk_diff(
        spec_id_hashes(old_chunks),
        new_chunks[i],
    )).change == ChunkChange::Skip by {
        assert(is_chunk(old_chunks[i], document_id, old_version, i, spec_chunk_text(content, DEFAULT_CHUNK_SIZE as int).unwrap()[i]));
        assert(is_chunk(new_chunks[i], document_id, new_version, i, spec_chunk_text(content, DEFAULT_CHUNK_SIZE as int).unwrap()[i]));
        assert(old_chunks[i].chunk_id == new_chunks[i].chunk_id);
    }
    assert forall|i: int| 0 <= i < diffs.len() implies #[trigger] diffs[i].change == ChunkChange::Skip by {
        assert(diffs[i] == spec_chunk_diff(spec_id_hashes(old_chunks), new_chunks[i]));
    }
    lemma_no_process(diffs);
}

/// The chunks of the same content at two source versions have the same
/// texts and content hashes, one for one.
pub proof fn lemma_chunk_hashes_ignore_version(
    a: Seq<Chunk>,
    b: Seq<Chunk>,
    document_id: i64,
    version_a: u64,
    version_b: u64,
    content: Seq<char>,
)
    requires
        are_document_chunks(a, document_id, version_a, content),
        are_document_chunks(b, document_id, version_b, content),
    ensures
        a.len() == b.len(),
        forall|i: int| 0 <= i < a.len() ==> (#[trigger] a[i]).content_hash == b[i].content_hash && a[i].content@ == b[i].content@,
{
    let texts = spec_chunk_text(content, DEFAULT_CHUNK_SIZE as int).unwrap();
    assert forall|i: int| 0 <= i < a.len() implies (#[trigger] a[i]).content_hash == b[i].content_hash && a[i].content@
        == b[i].content@ by {
        assert(is_chunk(a[i], document_id, version_a, i, texts[i]));
        assert(is_chunk(b[i], document_id, version_b, i, texts[i]));
    }
}

/// A chunk of a source document at a specific source version.
#[derive(Debug, PartialEq)]
pub struct Chunk {
    pub document_id: i64,
    pub source_version: u64,
    pub chunk_id: u32,
    pub content_hash: u64,
    pub content: String,
}

impl Clone for Chunk {
    fn clone(&self) -> (r: Self)
        ensures
            r == *self,
    {
        Chunk {
            document_id: self.document_id,
            source_version: self.source_version,
            chunk_id: self.chunk_id,
            content_hash: self.content_hash,
            content: self.content.clone(),
        }
    }
}

/// Whether `c` is chunk number `i`, with text `text`, of document
/// `document_id` at `source_version`.
pub open spec fn is_chunk(c: Chunk, document_id: i64, source_version: u64, i: int, text: Seq<char>) -> bool {
    &&& c.document_id == document_id
    &&& c.source_version == source_version
    &&& c.chunk_id == i as u32
    &&& c.content@ == text
    &&& c.content_hash == spec_content_hash(seq![text])
}

/// Whether `cs` are the chunks of `content` as document `document_id` at
/// `source_version`: one per chunk of the text, numbered in order.
pub open spec fn are_document_chunks(cs: Seq<Chunk>, document_id: i64, source_version: u64, content: Seq<char>) -> bool {
    let texts = spec_chunk_text(content, DEFAULT_CHUNK_SIZE as int).unwrap();
    &&& cs.len() == texts.len()
    &&& forall|i: int| 0 <= i < cs.len() ==> is_chunk(#[trigger] cs[i], document_id, source_version, i, texts[i])
}

/// Chunk a document at the given source version.
pub fn chunk_document(document_id: i64, source_version: u64, content: &str) -> (r: Vec<Chunk>)
    ensures
        are_document_chunks(r@, document_id, source_version, content@),
{
    proof {
        lemma_chunk_text_total(content@, DEFAULT_CHUNK_SIZE as int);
    }
    let texts = chunk_text(content, DEFAULT_CHUNK_SIZE);
    let ghost t = spec_views(texts@);
    let mut r: Vec<Chunk> = Vec::new();
    let mut i: usize = 0;
    while i < texts.len()
        invariant
            t == spec_views(texts@),
            t == spec_chunk_text(content@, DEFAULT_CHUNK_SIZE as int).unwrap(),
            i <= texts@.len(),
            r@.len() == i,
            forall|k: int| 0 <= k < i ==> is_chunk(#[trigger] r@[k], document_id, source_version, k, t[k]),
        decreases texts@.len() - i,
    {
        let text: &String = &texts[i];
        let parts: [&str; 1] = [text.as_str()];
        let h = content_hash(&parts);
        assert(spec_parts(parts@) =~= seq![t[i as int]]);
        r.push(Chunk {
            document_id,
            source_version,
            chunk_id: i as u32,
            content_hash: h,
            content: text.clone(),
        });
        i = i + 1;
    }
    r
}

/// Whether a chunk requires downstream processing.
#[derive(Debug, Clone, Copy, PartialEq, Eq, Structural)]
pub enum ChunkChange {
    /// Chunk is byte-identical to the previous source version.
    Skip,
    /// Chunk changed (or is new) and needs reprocessing.
    Process,
}

/// Decision for a single chunk in a document diff.
#[derive(Debug, Clone, Copy, PartialEq, Eq, Structural)]
pub struct ChunkDiff {
    pub chunk_id: u32,
    pub change: ChunkChange,
    pub previous_hash: u64,
    pub new_hash: u64,
}

/// Summary of a chunk lifecycle diff between two document versions.
#[derive(Debug, Clone, PartialEq)]
pub struct ChunkDiffReport {
    pub document_id: i64,
    pub diffs: Vec<ChunkDiff>,
    pub total_chunks: usize,
    pub changed_chunks: usize,
    pub unchanged_chunks: usize,
    pub reprocessed_chunks: usize,
}

/// The content hash of each chunk id; for an id that occurs more than once,
/// that of its last chunk.
pub open spec fn spec_id_hashes(cs: Seq<Chunk>) -> Map<u32, u64>
    decreases cs.len(),
{
    if cs.len() == 0 {
        Map::empty()
    } else {
        spec_id_hashes(cs.drop_last()).insert(cs.last().chunk_id, cs.last().content_hash)
    }
}

/// The decision for chunk `c` against the hashes of the previous version:
/// skipped where the chunk with its id had the same hash, else processed.
pub open spec fn spec_chunk_diff(old: Map<u32, u64>, c: Chunk) -> ChunkDiff {
    ChunkDiff {
        chunk_id: c.chunk_id,
        change: if old.contains_key(c.chunk_id) && old[c.chunk_id] == c.content_hash {
            ChunkChange::Skip
        } else {
            ChunkChange::Process
        },
        previous_hash: if old.contains_key(c.chunk_id) {
            old[c.chunk_id]
        } else {
            0
        },
        new_hash: c.content_hash,
    }
}

/// How many of the decisions are to process.
pub open spec fn spec_process_count(diffs: Seq<ChunkDiff>) -> nat
    decreases diffs.len(),
{
    if diffs.len() == 0 {
        0
    } else {
        spec_process_count(diffs.drop_last()) + if diffs.last().change == ChunkChange::Process {
            1nat
        } else {
            0nat
        }
    }
}

/// The tracker's map that entries give, a later entry for an id replacing
/// an earlier.
pub open spec fn spec_tracker_map(entries: Seq<(i64, u64, Vec<Chunk>)>) -> Map<i64, (u64, Seq<Chunk>)>
    decreases entries.len(),
{
    if entries.len() == 0 {
        Map::empty()
    } else {
        spec_tracker_map(entries.drop_last()).insert(
            entries.last().0,
            (entries.last().1, entries.last().2@),
        )
    }
}

/// The message of the error for a document that is not tracked.
pub open spec fn spec_untracked(document_id: i64) -> Seq<char> {
    "document "@ + spec_decimal(document_id as int) + " is not tracked"@
}

/// The message of the error for a document that is not tracked.
pub(crate) fn untracked_message(document_id: i64) -> (r: String)
    ensures
        r@ == spec_untracked(document_id),
{
    let mut m = String::from_str("document ");
    append_decimal_i64(&mut m, document_id);
    m.append(" is not tracked");
    m
}

/// The content hash of each chunk id, by a map.
fn id_hashes(cs: &Vec<Chunk>) -> (m: HashMap<u32, u64>)
    ensures
        m@ == spec_id_hashes(cs@),
{
    let mut m: HashMap<u32, u64> = HashMap::new();
    let mut i: usize = 0;
    while i < cs.len()
        invariant
            i <= cs@.len(),
            m@ == spec_id_hashes(cs@.take(i as int)),
        decreases cs@.len() - i,
    {
        assert(cs@.take(i + 1).drop_last() =~= cs@.take(i as int));
        m.insert(cs[i].chunk_id, cs[i].content_hash);
        i = i + 1;
    }
    assert(cs@.take(i as int) =~= cs@);
    m
}

/// A copy of each chunk.
fn clone_chunks(cs: &Vec<Chunk>) -> (r: Vec<Chunk>)
    ensures
        r@ == cs@,
{
    let mut r: Vec<Chunk> = Vec::new();
    let mut i: usize = 0;
    while i < cs.len()
        invariant
            i <= cs@.len(),
            r@ == cs@.take(i as int),
        decreases cs@.len() - i,
    {
        r.push(cs[i].clone());
        i = i + 1;
        assert(r@ =~= cs@.take(i as int));
    }
    assert(cs@.take(i as int) =~= cs@);
    r
}

/// Tracks the chunked representation of documents across source versions.
pub struct ChunkTracker {
    documents: HashMap<i64, (u64, Vec<Chunk>)>,
}

impl Default for ChunkTracker {
    fn default() -> (t: ChunkTracker)
        ensures
            t@ == Map::<i64, (u64, Seq<Chunk>)>::empty(),
    {
        ChunkTracker::new()
    }
}

impl View for ChunkTracker {
    type V = Map<i64, (u64, Seq<Chunk>)>;

    closed spec fn view(&self) -> Map<i64, (u64, Seq<Chunk>)> {
        self.documents@.map_values(|e: (u64, Vec<Chunk>)| (e.0, e.1@))
    }
}

impl ChunkTracker {
    pub fn new() -> (t: ChunkTracker)
        ensures
            t@ == Map::<i64, (u64, Seq<Chunk>)>::empty(),
    {
        let t = ChunkTracker { documents: HashMap::new() };
        assert(t@ =~= Map::<i64, (u64, Seq<Chunk>)>::empty());
        t
    }

    /// Register a new document version and return its chunks.
    pub fn register(&mut self, document_id: i64, source_version: u64, content: &str) -> (r: Vec<Chunk>)
        ensures
            are_document_chunks(r@, document_id, source_version, content@),
            final(self)@ == old(self)@.insert(document_id, (source_version, r@)),
    {
        let chunks = chunk_document(document_id, source_version, content);
        let copy = clone_chunks(&chunks);
        self.documents.insert(document_id, (source_version, copy));
        assert(self@ =~= old(self)@.insert(document_id, (source_version, chunks@)));
        chunks
    }

    /// Re-chunk an updated document and report which chunks changed: a
    /// chunk is skipped where the previous version had a chunk with its id
    /// and the same content hash. A document that is not tracked is an error.
    pub fn apply_update(&mut self, document_id: i64, new_source_version: u64, new_content: &str) -> (r: Result<ChunkDiffReport, String>)
        ensures
            match r {
                Ok(report) => {
                    let cs = final(self)@[document_id].1;
                    &&& old(self)@.contains_key(document_id)
                    &&& are_document_chunks(cs, document_id, new_source_version, new_content@)
                    &&& final(self)@ == old(self)@.insert(document_id, (new_source_version, cs))
                    &&& report.document_id == document_id
                    &&& report.diffs@ == cs.map_values(|c: Chunk| spec_chunk_diff(spec_id_hashes(old(self)@[document_id].1), c))
                    &&& report.total_chunks == cs.len()
                    &&& report.changed_chunks == spec_process_count(report.diffs@)
                    &&& report.unchanged_chunks == report.total_chunks - report.changed_chunks
                    &&& report.reprocessed_chunks == report.changed_chunks
                },
                Err(e) => e@ == spec_untracked(document_id) && !old(self)@.contains_key(document_id) && final(self)@
                    == old(self)@,
            },
    {
        let old_by_id = match self.documents.get(&document_id) {
            Some(entry) => id_hashes(&entry.1),
            None => {
                return Err(untracked_message(document_id));
            },
        };
        let ghost old_map = spec_id_hashes(old(self)@[document_id].1);
        let new_chunks = chunk_document(document_id, new_source_version, new_content);
        let mut diffs: Vec<ChunkDiff> = Vec::new();
        let mut changed: usize = 0;
        let mut i: usize = 0;
        while i < new_chunks.len()
            invariant
                old_by_id@ == old_map,
                i <= new_chunks@.len(),
                diffs@ == new_chunks@.take(i as int).map_values(|c: Chunk| spec_chunk_diff(old_map, c)),
                changed == spec_process_count(diffs@),
                changed <= i,
            decreases new_chunks@.len() - i,
        {
            let chunk = &new_chunks[i];
            let (change, previous_hash) = match old_by_id.get(&chunk.chunk_id) {
                Some(h) => {
                    if *h == chunk.content_hash {
                        (ChunkChange::Skip, *h)
                    } else {
                        (ChunkChange::Process, *h)
                    }
                },
                None => (ChunkChange::Process, 0),
            };
            if change == ChunkChange::Process {
                changed = changed + 1;
            }
            let ghost before = diffs@;
            diffs.push(ChunkDiff { chunk_id: chunk.chunk_id, change, previous_hash, new_hash: chunk.content_hash });
            assert(diffs@.drop_last() == before);
            assert(new_chunks@.take(i + 1) =~= new_chunks@.take(i as int).push(new_chunks@[i as int]));
            assert(diffs@ =~= new_chunks@.take(i + 1).map_values(|c: Chunk| spec_chunk_diff(old_map, c)));
            i = i + 1;
        }
        assert(new_chunks@.take(i as int) =~= new_chunks@);
        let total = new_chunks.len();
        let report = ChunkDiffReport {
            document_id,
            diffs,
            total_chunks: total,
            changed_chunks: changed,
            unchanged_chunks: total - changed,
            reprocessed_chunks: changed,
        };
        let ghost cs = new_chunks@;
        self.documents.insert(document_id, (new_source_version, new_chunks));
        assert(self@ =~= old(self)@.insert(document_id, (new_source_version, cs)));
        Ok(report)
    }

    /// Every tracked document with its source version and chunks, each
    /// once, in no set order.
    pub fn iter(&self) -> (r: Vec<(i64, u64, &[Chunk])>)
        ensures
            r@.len() == self@.dom().len(),
            forall|i: int|
                0 <= i < r@.len() ==> self@.contains_key(#[trigger] r@[i].0) && self@[r@[i].0].0 == r@[i].1
                    && self@[r@[i].0].1 == r@[i].2@,
            forall|id: i64| #[trigger] self@.contains_key(id) ==> exists|i: int| 0 <= i < r@.len() && r@[i].0 == id,
            forall|i: int, j: int| 0 <= i < j < r@.len() ==> r@[i].0 != r@[j].0,
    {
        let keys = keys_of(&self.documents);
        let mut r: Vec<(i64, u64, &[Chunk])> = Vec::new();
        let mut i: usize = 0;
        assert(self@.dom() =~= self.documents@.dom());
        while i < keys.len()
            invariant
                i <= keys.len(),
                keys@.to_set() == self@.dom(),
                self@.dom() == self.documents@.dom(),
                keys@.no_duplicates(),
                keys@.len() == self@.dom().len(),
                r@.len() == i,
                forall|j: int|
                    0 <= j < i ==> r@[j].0 == keys@[j] && self@.contains_key(keys@[j]) && self@[keys@[j]].0 == r@[j].1
                        && self@[keys@[j]].1 == r@[j].2@,
            decreases keys.len() - i,
        {
            let k = keys[i];
            assert(keys@.to_set().contains(k));
            match self.documents.get(&k) {
                Some(entry) => {
                    r.push((k, entry.0, entry.1.as_slice()));
                },
                None => {
                    assert(false);
                },
            }
            i = i + 1;
        }
        assert forall|i: int| 0 <= i < r@.len() implies self@.contains_key(#[trigger] r@[i].0) && self@[r@[i].0].0
            == r@[i].1 && self@[r@[i].0].1 == r@[i].2@ by {
            assert(r@[i].0 == keys@[i]);
        }
        assert forall|i: int, j: int| 0 <= i < j < r@.len() implies r@[i].0 != r@[j].0 by {
            assert(r@[i].0 == keys@[i]);
            assert(r@[j].0 == keys@[j]);
        }
        assert forall|id: i64| #[trigger] self@.contains_key(id) implies exists|i: int| 0 <= i < r@.len() && r@[i].0 == id by {
            assert(keys@.to_set().contains(id));
            let j = choose|j: int| 0 <= j < keys@.len() && keys@[j] == id;
            assert(r@[j].0 == id);
        }
        r
    }

    /// A tracker holding the given documents; a later entry for an id
    /// replaces an earlier one.
    pub fn from_entries(entries: Vec<(i64, u64, Vec<Chunk>)>) -> (t: ChunkTracker)
        ensures
            t@ == spec_tracker_map(entries@),
    {
        let ghost all = entries@;
        let documents: HashMap<i64, (u64, Vec<Chunk>)> = HashMap::new();
        let mut t = ChunkTracker { documents };
        assert(t@ =~= spec_tracker_map(all.take(0)));
        for e in it: entries.into_iter()
            invariant
                it.seq() == all,
                t@ == spec_tracker_map(all.take(it.index() as int)),
        {
            let ghost n = it.index();
            assert(all.take(n + 1).drop_last() =~= all.take(n as int));
            let (id, version, chunks) = e;
            t.documents.insert(id, (version, chunks));
            assert(t@ =~= spec_tracker_map(all.take(n as int)).insert(id, (version, chunks@)));
        }
        assert(all.take(all.len() as int) =~= all);
        t
    }

    /// The chunks of a tracked document.
    pub fn get(&self, document_id: i64) -> (r: Option<&[Chunk]>)
        ensures
            match r {
                Some(cs) => self@.contains_key(document_id) && cs@ == self@[document_id].1,
                None => !self@.contains_key(document_id),
            },
    {
        match self.documents.get(&document_id) {
            Some(entry) => Some(entry.1.as_slice()),
            None => None,
        }
    }

    /// Stops tracking a document, giving back its chunks.
    pub fn remove(&mut self, document_id: i64) -> (r: Option<Vec<Chunk>>)
        ensures
            final(self)@ == old(self)@.remove(document_id),
            match r {
                Some(cs) => old(self)@.contains_key(document_id) && cs@ == old(self)@[document_id].1,
                None => !old(self)@.contains_key(document_id),
            },
    {
        let r = match self.documents.remove(&document_id) {
            Some(entry) => Some(entry.1),
            None => None,
        };
        assert(self@ =~= old(self)@.remove(document_id));
        r
    }

    pub fn len(&self) -> (n: usize)
        ensures
            n == self@.dom().len(),
            self@.dom().finite(),
    {
        assert(self@.dom() =~= self.documents@.dom());
        self.documents.len()
    }

    pub fn is_empty(&self) -> (b: bool)
        ensures
            b == (self@.dom().len() == 0),
    {
        assert(self@.dom() =~= self.documents@.dom());
        self.documents.len() == 0
    }
}

} // verus!
