//! The byte form of the whole engine: lifecycle, chunks and embeddings.
use vstd::prelude::*;
use vstd::bytes::{spec_u64_to_le_bytes, spec_u32_to_le_bytes};
use crate::embedding::provider::EmbeddingProvider;
use crate::embedding::store::{EmbeddingStore, EmbeddingView, spec_read_store, spec_entries_map, spec_store_bytes, spec_fits, lemma_store_roundtrip};
use vstd::utf8::encode_utf8;
use crate::lifecycle::chunk::{Chunk, ChunkTracker};
use crate::lifecycle::state::{LifecycleManager, SourceState, LifecycleState, spec_map_of};
use crate::storage::le_bytes::{
    spec_u64_at, spec_u32_at, read_u64, read_u32, write_u64, write_u32, spec_str_bytes, spec_read_str, write_str,
    read_str_at, lemma_read_str, lemma_u64_between, lemma_u32_between, lemma_i64_u64_cast, lemma_le_lens,
};
use crate::text::append_bytes;
use crate::incremental::IncrementalEngine;

verus! {

/// Format version of the serialized engine.
pub const ENGINE_DB_VERSION: u32 = 1;

/// The magic bytes that open a serialized engine: "TKIE".
pub open spec fn spec_engine_magic() -> Seq<u8> {
    seq![0x54u8, 0x4bu8, 0x49u8, 0x45u8]
}

/// A chunk as plain values: its document, id, source version, content
/// hash and content.
pub open spec fn spec_record(c: Chunk) -> (i64, u32, u64, u64, Seq<char>) {
    (c.document_id, c.chunk_id, c.source_version, c.content_hash, c.content@)
}

/// The chunks of each document as plain values.
pub open spec fn spec_records_view(m: Map<i64, (u64, Seq<Chunk>)>) -> Map<i64, (u64, Seq<(i64, u32, u64, u64, Seq<char>)>)> {
    m.map_values(|e: (u64, Seq<Chunk>)| (e.0, e.1.map_values(|c: Chunk| spec_record(c))))
}

/// The bytes of a lifecycle entry: id, version and content hash, and the
/// state as 0 for active or 1 for stale.
pub open spec fn spec_state_bytes(e: (i64, SourceState)) -> Seq<u8> {
    spec_u64_to_le_bytes(e.0 as u64) + spec_u64_to_le_bytes(e.1.version) + spec_u64_to_le_bytes(e.1.content_hash) + seq![
        if e.1.state == LifecycleState::Active {
            0u8
        } else {
            1u8
        },
    ]
}

pub open spec fn spec_states_bytes(es: Seq<(i64, SourceState)>) -> Seq<u8>
    decreases es.len(),
{
    if es.len() == 0 {
        seq![]
    } else {
        spec_states_bytes(es.drop_last()) + spec_state_bytes(es.last())
    }
}

/// The bytes of a chunk of a document: id, source version, content hash,
/// and the content with its length.
pub open spec fn spec_chunk_bytes(c: (i64, u32, u64, u64, Seq<char>)) -> Seq<u8> {
    spec_u32_to_le_bytes(c.1) + spec_u64_to_le_bytes(c.2) + spec_u64_to_le_bytes(c.3) + spec_str_bytes(c.4)
}

pub open spec fn spec_chunks_bytes(cs: Seq<(i64, u32, u64, u64, Seq<char>)>) -> Seq<u8>
    decreases cs.len(),
{
    if cs.len() == 0 {
        seq![]
    } else {
        spec_chunks_bytes(cs.drop_last()) + spec_chunk_bytes(cs.last())
    }
}

/// The bytes of a document's chunks: id, source version, chunk count and
/// the chunks.
pub open spec fn spec_doc_bytes(d: (i64, u64, Seq<(i64, u32, u64, u64, Seq<char>)>)) -> Seq<u8> {
    spec_u64_to_le_bytes(d.0 as u64) + spec_u64_to_le_bytes(d.1) + spec_u32_to_le_bytes(d.2.len() as u32)
        + spec_chunks_bytes(d.2)
}

pub open spec fn spec_docs_bytes(ds: Seq<(i64, u64, Seq<(i64, u32, u64, u64, Seq<char>)>)>) -> Seq<u8>
    decreases ds.len(),
{
    if ds.len() == 0 {
        seq![]
    } else {
        spec_docs_bytes(ds.drop_last()) + spec_doc_bytes(ds.last())
    }
}

/// The bytes of an engine: magic, version, model id, lifecycle entries,
/// documents, and the store's bytes with their length.
pub open spec fn spec_engine_bytes(
    model: Seq<char>,
    states: Seq<(i64, SourceState)>,
    docs: Seq<(i64, u64, Seq<(i64, u32, u64, u64, Seq<char>)>)>,
    store: Seq<u8>,
) -> Seq<u8> {
    spec_engine_magic() + spec_u32_to_le_bytes(ENGINE_DB_VERSION) + spec_str_bytes(model) + spec_u32_to_le_bytes(
        states.len() as u32,
    ) + spec_states_bytes(states) + spec_u32_to_le_bytes(docs.len() as u32) + spec_docs_bytes(docs)
        + spec_u32_to_le_bytes(store.len() as u32) + store
}

/// Reads a lifecycle entry at `pos`.
pub open spec fn spec_read_state(b: Seq<u8>, pos: int) -> Option<((i64, SourceState), int)> {
    if pos < 0 || pos + 25 > b.len() {
        None
    } else {
        let id = spec_u64_at(b, pos) as i64;
        Some((
            (
                id,
                SourceState {
                    document_id: id,
                    version: spec_u64_at(b, pos + 8),
                    content_hash: spec_u64_at(b, pos + 16),
                    state: if b[pos + 24] == 0 {
                        LifecycleState::Active
                    } else {
                        LifecycleState::Stale
                    },
                },
            ),
            pos + 25,
        ))
    }
}

pub open spec fn spec_read_states(b: Seq<u8>, pos: int, k: nat) -> Option<(Seq<(i64, SourceState)>, int)>
    decreases k,
{
    if k == 0 {
        Some((seq![], pos))
    } else {
        match spec_read_states(b, pos, (k - 1) as nat) {
            Some((es, p)) => match spec_read_state(b, p) {
                Some((e, q)) => Some((es.push(e), q)),
                None => None,
            },
            None => None,
        }
    }
}

/// Reads a chunk of document `id` at `pos`.
pub open spec fn spec_read_chunk(b: Seq<u8>, pos: int, id: i64) -> Option<((i64, u32, u64, u64, Seq<char>), int)> {
    if pos < 0 || pos + 20 > b.len() {
        None
    } else {
        match spec_read_str(b, pos + 20) {
            Some((content, p)) => Some(
                ((id, spec_u32_at(b, pos), spec_u64_at(b, pos + 4), spec_u64_at(b, pos + 12), content), p),
            ),
            None => None,
        }
    }
}

pub open spec fn spec_read_chunks(b: Seq<u8>, pos: int, id: i64, k: nat) -> Option<(Seq<(i64, u32, u64, u64, Seq<char>)>, int)>
    decreases k,
{
    if k == 0 {
        Some((seq![], pos))
    } else {
        match spec_read_chunks(b, pos, id, (k - 1) as nat) {
            Some((cs, p)) => match spec_read_chunk(b, p, id) {
                Some((c, q)) => Some((cs.push(c), q)),
                None => None,
            },
            None => None,
        }
    }
}

/// Reads a document's chunks at `pos`.
pub open spec fn spec_read_doc(b: Seq<u8>, pos: int) -> Option<((i64, u64, Seq<(i64, u32, u64, u64, Seq<char>)>), int)> {
    if pos < 0 || pos + 20 > b.len() {
        None
    } else {
        let id = spec_u64_at(b, pos) as i64;
        match spec_read_chunks(b, pos + 20, id, spec_u32_at(b, pos + 16) as nat) {
            Some((cs, p)) => Some(((id, spec_u64_at(b, pos + 8), cs), p)),
            None => None,
        }
    }
}

pub open spec fn spec_read_docs(b: Seq<u8>, pos: int, k: nat) -> Option<(Seq<(i64, u64, Seq<(i64, u32, u64, u64, Seq<char>)>)>, int)>
    decreases k,
{
    if k == 0 {
        Some((seq![], pos))
    } else {
        match spec_read_docs(b, pos, (k - 1) as nat) {
            Some((ds, p)) => match spec_read_doc(b, p) {
                Some((d, q)) => Some((ds.push(d), q)),
                None => None,
            },
            None => None,
        }
    }
}

/// What the bytes of an engine hold: model id, lifecycle entries,
/// documents and embeddings. `None` without the magic bytes, or where the
/// bytes run out, a string is not UTF-8, or the store cannot be read.
pub open spec fn spec_read_engine(b: Seq<u8>) -> Option<
    (Seq<char>, Seq<(i64, SourceState)>, Seq<(i64, u64, Seq<(i64, u32, u64, u64, Seq<char>)>)>, Seq<EmbeddingView>),
> {
    if b.len() < 8 || b.subrange(0, 4) != spec_engine_magic() {
        None
    } else {
        match spec_read_str(b, 8) {
            Some((model, p1)) => if p1 + 4 > b.len() {
                None
            } else {
                match spec_read_states(b, p1 + 4, spec_u32_at(b, p1) as nat) {
                    Some((states, p2)) => if p2 + 4 > b.len() {
                        None
                    } else {
                        match spec_read_docs(b, p2 + 4, spec_u32_at(b, p2) as nat) {
                            Some((docs, p3)) => if p3 + 4 > b.len() || p3 + 4 + spec_u32_at(b, p3) > b.len() {
                                None
                            } else {
                                match spec_read_store(b.subrange(p3 + 4, p3 + 4 + spec_u32_at(b, p3))) {
                                    Some(es) => Some((model, states, docs, es)),
                                    None => None,
                                }
                            },
                            None => None,
                        }
                    },
                    None => None,
                }
            },
            None => None,
        }
    }
}

/// The documents' chunks that the entries give, a later entry for an id
/// replacing an earlier.
pub open spec fn spec_docs_map(ds: Seq<(i64, u64, Seq<(i64, u32, u64, u64, Seq<char>)>)>) -> Map<i64, (u64, Seq<(i64, u32, u64, u64, Seq<char>)>)>
    decreases ds.len(),
{
    if ds.len() == 0 {
        Map::empty()
    } else {
        spec_docs_map(ds.drop_last()).insert(ds.last().0, (ds.last().1, ds.last().2))
    }
}

proof fn lemma_read_states_fails(b: Seq<u8>, pos: int, k: nat, m: nat)
    requires
        spec_read_states(b, pos, k) is None,
        k <= m,
    ensures
        spec_read_states(b, pos, m) is None,
    decreases m - k,
{
    if k < m {
        lemma_read_states_fails(b, pos, k + 1, m);
    }
}

proof fn lemma_read_chunks_fails(b: Seq<u8>, pos: int, id: i64, k: nat, m: nat)
    requires
        spec_read_chunks(b, pos, id, k) is None,
        k <= m,
    ensures
        spec_read_chunks(b, pos, id, m) is None,
    decreases m - k,
{
    if k < m {
        lemma_read_chunks_fails(b, pos, id, k + 1, m);
    }
}

proof fn lemma_read_docs_fails(b: Seq<u8>, pos: int, k: nat, m: nat)
    requires
        spec_read_docs(b, pos, k) is None,
        k <= m,
    ensures
        spec_read_docs(b, pos, m) is None,
    decreases m - k,
{
    if k < m {
        lemma_read_docs_fails(b, pos, k + 1, m);
    }
}

/// Reads a document's chunks at `pos`.
fn read_doc_at(b: &[u8], pos: usize) -> (r: Option<((i64, u64, Vec<Chunk>), usize)>)
    ensures
        match spec_read_doc(b@, pos as int) {
            Some((d, p)) => r matches Some((x, p2)) && x.0 == d.0 && x.1 == d.1 && x.2@.map_values(|c: Chunk| spec_record(c))
                == d.2 && p2 == p,
            None => r is None,
        },
{
    if pos > b.len() || b.len() - pos < 20 {
        return None;
    }
    let id = read_u64(b, pos) as i64;
    let version = read_u64(b, pos + 8);
    let n = read_u32(b, pos + 16);
    let mut chunks: Vec<Chunk> = Vec::new();
    let mut q: usize = pos + 20;
    let mut k: u32 = 0;
    while k < n
        invariant
            k <= n,
            0 <= pos,
            pos + 20 <= b@.len(),
            id == spec_u64_at(b@, pos as int) as i64,
            version == spec_u64_at(b@, pos + 8),
            n == spec_u32_at(b@, pos + 16),
            spec_read_chunks(b@, pos + 20, id, k as nat) == Some((chunks@.map_values(|c: Chunk| spec_record(c)), q as int)),
        decreases n - k,
    {
        assert(spec_read_chunks(b@, pos + 20, id, (k + 1) as nat) == match spec_read_chunk(b@, q as int, id) {
            Some((c, q2)) => Some((chunks@.map_values(|c: Chunk| spec_record(c)).push(c), q2)),
            None => None::<(Seq<(i64, u32, u64, u64, Seq<char>)>, int)>,
        });
        if q > b.len() || b.len() - q < 20 {
            proof {
                lemma_read_chunks_fails(b@, pos + 20, id, (k + 1) as nat, n as nat);
            }
            return None;
        }
        let chunk_id = read_u32(b, q);
        let source_version = read_u64(b, q + 4);
        let content_hash = read_u64(b, q + 12);
        let (content, p) = match read_str_at(b, q + 20) {
            Some(x) => x,
            None => {
                proof {
                    lemma_read_chunks_fails(b@, pos + 20, id, (k + 1) as nat, n as nat);
                }
                return None;
            },
        };
        let ghost before = chunks@;
        chunks.push(Chunk { document_id: id, source_version, chunk_id, content_hash, content });
        assert(chunks@.map_values(|c: Chunk| spec_record(c)) =~= before.map_values(|c: Chunk| spec_record(c)).push(
            spec_record(chunks@.last()),
        ));
        q = p;
        k = k + 1;
    }
    Some(((id, version, chunks), q))
}

impl<P: EmbeddingProvider> IncrementalEngine<P> {
    /// The engine that `bytes` hold, labelling new embeddings with the
    /// stored model id, with the provider that `provider_for` gives for it; `None` without the magic bytes, or
    /// where the bytes run out, a string is not UTF-8, or the store cannot
    /// be read.
    pub fn from_bytes<F: FnOnce(&str) -> P>(bytes: &[u8], provider_for: F) -> (r: Option<IncrementalEngine<P>>)
        requires
            forall|s: &str| provider_for.requires((s,)),
        ensures
            match spec_read_engine(bytes@) {
                Some((model, states, docs, es)) => r matches Some(e) && e.lifecycle_view() == spec_map_of(states)
                    && spec_records_view(e.chunks_view()) == spec_docs_map(docs) && e.store_view() == spec_entries_map(
                    es,
                ) && e.model() == model && (exists|s: &str| s@ == model && #[trigger] call_ensures(provider_for, (s,), e.provider())),
                None => r is None,
            },
    {
        if bytes.len() < 8 || bytes[0] != 0x54u8 || bytes[1] != 0x4bu8 || bytes[2] != 0x49u8 || bytes[3] != 0x45u8 {
            proof {
                if bytes@.len() >= 8 {
                    assert(bytes@.subrange(0, 4) != spec_engine_magic()) by {
                        if bytes@.subrange(0, 4) == spec_engine_magic() {
                            assert(bytes@.subrange(0, 4)[0] == bytes@[0]);
                            assert(bytes@.subrange(0, 4)[1] == bytes@[1]);
                            assert(bytes@.subrange(0, 4)[2] == bytes@[2]);
                            assert(bytes@.subrange(0, 4)[3] == bytes@[3]);
                        }
                    }
                }
            }
            return None;
        }
        assert(bytes@.subrange(0, 4) =~= spec_engine_magic());
        let (model_id, p1) = match read_str_at(bytes, 8) {
            Some(x) => x,
            None => {
                return None;
            },
        };
        if bytes.len() - p1 < 4 {
            return None;
        }
        // Lifecycle entries.
        let lc = read_u32(bytes, p1);
        let mut pos: usize = p1 + 4;
        let mut lifecycle: Vec<(i64, SourceState)> = Vec::new();
        let mut k: u32 = 0;
        while k < lc
            invariant
                k <= lc,
                bytes@.len() >= 8,
                bytes@.subrange(0, 4) == spec_engine_magic(),
                spec_read_str(bytes@, 8) matches Some((m, pp)) && m == model_id@ && pp == p1,
                p1 + 4 <= bytes@.len(),
                lc == spec_u32_at(bytes@, p1 as int),
                spec_read_states(bytes@, p1 + 4, k as nat) == Some((lifecycle@, pos as int)),
            decreases lc - k,
        {
            assert(spec_read_states(bytes@, p1 + 4, (k + 1) as nat) == match spec_read_state(bytes@, pos as int) {
                Some((e, q)) => Some((lifecycle@.push(e), q)),
                None => None::<(Seq<(i64, SourceState)>, int)>,
            });
            if pos > bytes.len() || bytes.len() - pos < 25 {
                proof {
                    lemma_read_states_fails(bytes@, p1 + 4, (k + 1) as nat, lc as nat);
                }
                return None;
            }
            let id = read_u64(bytes, pos) as i64;
            let version = read_u64(bytes, pos + 8);
            let content_hash = read_u64(bytes, pos + 16);
            let state = if bytes[pos + 24] == 0 {
                LifecycleState::Active
            } else {
                LifecycleState::Stale
            };
            lifecycle.push((id, SourceState { document_id: id, version, content_hash, state }));
            pos = pos + 25;
            k = k + 1;
        }
        if bytes.len() - pos < 4 {
            return None;
        }
        let p2 = pos;
        // Documents.
        let dc = read_u32(bytes, p2);
        pos = p2 + 4;
        let mut docs: Vec<(i64, u64, Vec<Chunk>)> = Vec::new();
        let ghost mut dv: Seq<(i64, u64, Seq<(i64, u32, u64, u64, Seq<char>)>)> = seq![];
        let mut k: u32 = 0;
        while k < dc
            invariant
                k <= dc,
                bytes@.len() >= 8,
                bytes@.subrange(0, 4) == spec_engine_magic(),
                spec_read_str(bytes@, 8) matches Some((m, pp)) && m == model_id@ && pp == p1,
                p1 + 4 <= bytes@.len(),
                lc == spec_u32_at(bytes@, p1 as int),
                spec_read_states(bytes@, p1 + 4, lc as nat) == Some((lifecycle@, p2 as int)),
                p2 + 4 <= bytes@.len(),
                dc == spec_u32_at(bytes@, p2 as int),
                docs@.len() == dv.len(),
                forall|j: int| 0 <= j < dv.len() ==> (#[trigger] docs@[j]).0 == dv[j].0 && docs@[j].1 == dv[j].1 && docs@[j].2@.map_values(
                    |c: Chunk| spec_record(c),
                ) == dv[j].2,
                spec_read_docs(bytes@, p2 + 4, k as nat) == Some((dv, pos as int)),
            decreases dc - k,
        {
            assert(spec_read_docs(bytes@, p2 + 4, (k + 1) as nat) == match spec_read_doc(bytes@, pos as int) {
                Some((d, q)) => Some((dv.push(d), q)),
                None => None::<(Seq<(i64, u64, Seq<(i64, u32, u64, u64, Seq<char>)>)>, int)>,
            });
            match read_doc_at(bytes, pos) {
                Some((d, q)) => {
                    proof {
                        dv = dv.push((d.0, d.1, d.2@.map_values(|c: Chunk| spec_record(c))));
                    }
                    docs.push(d);
                    pos = q;
                },
                None => {
                    proof {
                        lemma_read_docs_fails(bytes@, p2 + 4, (k + 1) as nat, dc as nat);
                    }
                    return None;
                },
            }
            k = k + 1;
        }
        let p3 = pos;
        if bytes.len() - p3 < 4 {
            return None;
        }
        let store_len = read_u32(bytes, p3) as usize;
        if bytes.len() - p3 - 4 < store_len {
            return None;
        }
        let store = match EmbeddingStore::from_bytes(vstd::slice::slice_subrange(bytes, p3 + 4, p3 + 4 + store_len)) {
            Some(s) => s,
            None => {
                return None;
            },
        };
        let ghost ds = dv;
        let chunks = ChunkTracker::from_entries(docs);
        proof {
            lemma_records_of_tracker(docs@, ds);
        }
        let stored_model = model_id.as_str();
        let provider = provider_for(stored_model);
        assert(spec_read_str(bytes@, 8) matches Some((m, pp)) && m == stored_model@);
        assert(call_ensures(provider_for, (stored_model,), provider));
        let model_id = model_id.clone();
        let e = IncrementalEngine { lifecycle: LifecycleManager::from_entries(lifecycle), chunks, store, provider, model_id };
        assert(call_ensures(provider_for, (stored_model,), e.provider()));
        Some(e)
    }
}

/// The plain values of a tracker built from entries are the documents the
/// entries' values give.
proof fn lemma_records_of_tracker(
    entries: Seq<(i64, u64, Vec<Chunk>)>,
    ds: Seq<(i64, u64, Seq<(i64, u32, u64, u64, Seq<char>)>)>,
)
    requires
        entries.len() == ds.len(),
        forall|j: int| 0 <= j < ds.len() ==> (#[trigger] entries[j]).0 == ds[j].0 && entries[j].1 == ds[j].1 && entries[j].2@.map_values(
            |c: Chunk| spec_record(c),
        ) == ds[j].2,
    ensures
        spec_records_view(crate::lifecycle::chunk::spec_tracker_map(entries)) == spec_docs_map(ds),
    decreases entries.len(),
{
    if entries.len() > 0 {
        let ei = entries.drop_last();
        let di = ds.drop_last();
        assert forall|j: int| 0 <= j < di.len() implies (#[trigger] ei[j]).0 == di[j].0 && ei[j].1 == di[j].1 && ei[j].2@.map_values(
            |c: Chunk| spec_record(c),
        ) == di[j].2 by {
            assert(ei[j] == entries[j]);
            assert(di[j] == ds[j]);
        }
        lemma_records_of_tracker(ei, di);
        assert(entries.last() == entries[entries.len() - 1]);
        assert(ds.last() == ds[ds.len() - 1]);
        assert(spec_records_view(crate::lifecycle::chunk::spec_tracker_map(entries)) =~= spec_docs_map(ds));
    }
}

impl<P: EmbeddingProvider> IncrementalEngine<P> {
    /// The bytes of the whole engine: its model id, every lifecycle entry,
    /// every document's chunks and every embedding, each once, in no set
    /// order.
    pub fn to_bytes(&self) -> (r: Vec<u8>)
        ensures
            exists|
                states: Seq<(i64, SourceState)>,
                docs: Seq<(i64, u64, Seq<(i64, u32, u64, u64, Seq<char>)>)>,
                es: Seq<EmbeddingView>,
            |
                #![trigger spec_engine_bytes(self.model(), states, docs, spec_store_bytes(es))]
                {
                    &&& states.len() == self.lifecycle_view().dom().len()
                    &&& forall|i: int|
                        0 <= i < states.len() ==> self.lifecycle_view().contains_key(#[trigger] states[i].0)
                            && self.lifecycle_view()[states[i].0] == states[i].1
                    &&& forall|i: int, j: int| 0 <= i < j < states.len() ==> states[i].0 != states[j].0
                    &&& docs.len() == self.chunks_view().dom().len()
                    &&& forall|i: int|
                        0 <= i < docs.len() ==> spec_records_view(self.chunks_view()).contains_key(#[trigger] docs[i].0)
                            && spec_records_view(self.chunks_view())[docs[i].0] == (docs[i].1, docs[i].2)
                    &&& forall|i: int, j: int| 0 <= i < j < docs.len() ==> docs[i].0 != docs[j].0
                    &&& spec_entries_map(es) == self.store_view()
                    &&& es.len() == self.store_view().dom().len()
                    &&& r@ == spec_engine_bytes(self.model(), states, docs, spec_store_bytes(es))
                },
    {
        let mut buf: Vec<u8> = Vec::new();
        buf.push(0x54u8);
        buf.push(0x4bu8);
        buf.push(0x49u8);
        buf.push(0x45u8);
        write_u32(ENGINE_DB_VERSION, &mut buf);
        write_str(self.model_id.as_str(), &mut buf);
        let lifecycle = self.lifecycle.iter();
        write_u32(lifecycle.len() as u32, &mut buf);
        let ghost head1 = buf@;
        let mut i: usize = 0;
        while i < lifecycle.len()
            invariant
                i <= lifecycle@.len(),
                buf@ == head1 + spec_states_bytes(lifecycle@.take(i as int)),
            decreases lifecycle@.len() - i,
        {
            assert(lifecycle@.take(i + 1).drop_last() =~= lifecycle@.take(i as int));
            let (id, s) = lifecycle[i];
            let ghost before = buf@;
            write_u64(id as u64, &mut buf);
            write_u64(s.version, &mut buf);
            write_u64(s.content_hash, &mut buf);
            buf.push(
                match s.state {
                    LifecycleState::Active => 0u8,
                    LifecycleState::Stale => 1u8,
                },
            );
            assert(buf@ =~= before + spec_state_bytes(lifecycle@[i as int]));
            i = i + 1;
        }
        assert(lifecycle@.take(i as int) =~= lifecycle@);
        let docs = self.chunks.iter();
        let ghost dv = docs@.map_values(
            |d: (i64, u64, &[Chunk])| (d.0, d.1, d.2@.map_values(|c: Chunk| spec_record(c))),
        );
        write_u32(docs.len() as u32, &mut buf);
        let ghost head2 = buf@;
        let mut i: usize = 0;
        while i < docs.len()
            invariant
                i <= docs@.len(),
                dv == docs@.map_values(|d: (i64, u64, &[Chunk])| (d.0, d.1, d.2@.map_values(|c: Chunk| spec_record(c)))),
                buf@ == head2 + spec_docs_bytes(dv.take(i as int)),
            decreases docs@.len() - i,
        {
            assert(dv.take(i + 1).drop_last() =~= dv.take(i as int));
            let (id, version, chunks) = docs[i];
            let ghost before = buf@;
            let ghost cv = chunks@.map_values(|c: Chunk| spec_record(c));
            write_u64(id as u64, &mut buf);
            write_u64(version, &mut buf);
            write_u32(chunks.len() as u32, &mut buf);
            let ghost mid = buf@;
            let mut j: usize = 0;
            while j < chunks.len()
                invariant
                    j <= chunks@.len(),
                    cv == chunks@.map_values(|c: Chunk| spec_record(c)),
                    buf@ == mid + spec_chunks_bytes(cv.take(j as int)),
                decreases chunks@.len() - j,
            {
                assert(cv.take(j + 1).drop_last() =~= cv.take(j as int));
                let c = &chunks[j];
                let ghost b2 = buf@;
                write_u32(c.chunk_id, &mut buf);
                write_u64(c.source_version, &mut buf);
                write_u64(c.content_hash, &mut buf);
                write_str(c.content.as_str(), &mut buf);
                assert(buf@ =~= b2 + spec_chunk_bytes(cv[j as int]));
                j = j + 1;
            }
            assert(cv.take(j as int) =~= cv);
            assert(buf@ =~= before + spec_doc_bytes(dv[i as int]));
            i = i + 1;
        }
        assert(dv.take(i as int) =~= dv);
        let store_bytes = self.store.to_bytes();
        write_u32(store_bytes.len() as u32, &mut buf);
        append_bytes(&mut buf, store_bytes.as_slice());
        proof {
            let es = self.store.entries();
            let states = lifecycle@;
            assert(buf@ =~= spec_engine_bytes(self.model(), states, dv, spec_store_bytes(es)));
            assert forall|i: int| 0 <= i < dv.len() implies spec_records_view(self.chunks_view()).contains_key(#[trigger] dv[i].0)
                && spec_records_view(self.chunks_view())[dv[i].0] == (dv[i].1, dv[i].2) by {
                assert(dv[i].0 == docs@[i].0);
            }
            assert forall|i: int, j: int| 0 <= i < j < dv.len() implies dv[i].0 != dv[j].0 by {
                assert(dv[i].0 == docs@[i].0);
                assert(dv[j].0 == docs@[j].0);
            }
        }
        buf
    }

    /// The embedding store, to change in place.
    pub fn store_mut(&mut self) -> (s: &mut EmbeddingStore)
        ensures
            s@ == old(self).store_view(),
            final(self).store_view() == final(s)@,
            final(self).lifecycle_view() == old(self).lifecycle_view(),
            final(self).chunks_view() == old(self).chunks_view(),
            final(self).model() == old(self).model(),
    {
        &mut self.store
    }
}

/// Whether a lifecycle entry's state names its document.
pub open spec fn spec_state_fits(e: (i64, SourceState)) -> bool {
    e.1.document_id == e.0
}

/// Whether a document's chunks can be written and read back: fewer than
/// 2^32 of them, each of the document, each content's UTF-8 shorter than
/// 2^32 bytes.
pub open spec fn spec_doc_fits(d: (i64, u64, Seq<(i64, u32, u64, u64, Seq<char>)>)) -> bool {
    &&& d.2.len() <= u32::MAX
    &&& forall|j: int| 0 <= j < d.2.len() ==> (#[trigger] d.2[j]).0 == d.0 && encode_utf8(d.2[j].4).len() <= u32::MAX
}

proof fn lemma_read_state(e: (i64, SourceState), pre: Seq<u8>, rest: Seq<u8>)
    requires
        spec_state_fits(e),
    ensures
        spec_read_state(pre + spec_state_bytes(e) + rest, pre.len() as int) == Some((e, pre.len() + 25int)),
{
    let b = pre + spec_state_bytes(e) + rest;
    let id = spec_u64_to_le_bytes(e.0 as u64);
    let v = spec_u64_to_le_bytes(e.1.version);
    let h = spec_u64_to_le_bytes(e.1.content_hash);
    let st: Seq<u8> = seq![if e.1.state == LifecycleState::Active { 0u8 } else { 1u8 }];
    lemma_le_lens(e.0 as u64, 0, 0);
    lemma_le_lens(e.1.version, 0, 0);
    lemma_le_lens(e.1.content_hash, 0, 0);
    assert(b =~= pre + id + (v + h + st + rest));
    lemma_u64_between(e.0 as u64, pre, v + h + st + rest);
    lemma_i64_u64_cast(e.0);
    assert(b =~= (pre + id) + v + (h + st + rest));
    lemma_u64_between(e.1.version, pre + id, h + st + rest);
    assert(b =~= (pre + id + v) + h + (st + rest));
    lemma_u64_between(e.1.content_hash, pre + id + v, st + rest);
    assert(b[pre.len() + 24int] == st[0]);
    let got = (spec_read_state(b, pre.len() as int)->0).0;
    assert(got.1 == e.1) by {
        match e.1.state {
            LifecycleState::Active => {},
            LifecycleState::Stale => {},
        }
    }
}

proof fn lemma_read_states(es: Seq<(i64, SourceState)>, pre: Seq<u8>, rest: Seq<u8>)
    requires
        forall|i: int| 0 <= i < es.len() ==> spec_state_fits(#[trigger] es[i]),
    ensures
        spec_read_states(pre + spec_states_bytes(es) + rest, pre.len() as int, es.len()) == Some((
            es,
            (pre.len() + spec_states_bytes(es).len()) as int,
        )),
    decreases es.len(),
{
    if es.len() > 0 {
        let init = es.drop_last();
        let last = es.last();
        assert(last == es[es.len() - 1]);
        assert forall|i: int| 0 <= i < init.len() implies spec_state_fits(#[trigger] init[i]) by {
            assert(init[i] == es[i]);
        }
        let b = pre + spec_states_bytes(es) + rest;
        assert(b =~= pre + spec_states_bytes(init) + (spec_state_bytes(last) + rest));
        lemma_read_states(init, pre, spec_state_bytes(last) + rest);
        assert(b =~= (pre + spec_states_bytes(init)) + spec_state_bytes(last) + rest);
        lemma_read_state(last, pre + spec_states_bytes(init), rest);
        lemma_le_lens(last.0 as u64, 0, 0);
        lemma_le_lens(last.1.version, 0, 0);
        lemma_le_lens(last.1.content_hash, 0, 0);
        assert(init.push(last) =~= es);
    }
}

proof fn lemma_read_chunk(c: (i64, u32, u64, u64, Seq<char>), id: i64, pre: Seq<u8>, rest: Seq<u8>)
    requires
        c.0 == id,
        encode_utf8(c.4).len() <= u32::MAX,
    ensures
        spec_read_chunk(pre + spec_chunk_bytes(c) + rest, pre.len() as int, id) == Some((
            c,
            (pre.len() + spec_chunk_bytes(c).len()) as int,
        )),
{
    let b = pre + spec_chunk_bytes(c) + rest;
    let k = spec_u32_to_le_bytes(c.1);
    let v = spec_u64_to_le_bytes(c.2);
    let h = spec_u64_to_le_bytes(c.3);
    let t = spec_str_bytes(c.4);
    lemma_le_lens(c.2, c.1, 0);
    lemma_le_lens(c.3, 0, 0);
    assert(b =~= pre + k + (v + h + t + rest));
    lemma_u32_between(c.1, pre, v + h + t + rest);
    assert(b =~= (pre + k) + v + (h + t + rest));
    lemma_u64_between(c.2, pre + k, h + t + rest);
    assert(b =~= (pre + k + v) + h + (t + rest));
    lemma_u64_between(c.3, pre + k + v, t + rest);
    assert(b =~= (pre + k + v + h) + t + rest);
    lemma_read_str(c.4, pre + k + v + h, rest);
}

proof fn lemma_read_chunks(cs: Seq<(i64, u32, u64, u64, Seq<char>)>, id: i64, pre: Seq<u8>, rest: Seq<u8>)
    requires
        forall|j: int| 0 <= j < cs.len() ==> (#[trigger] cs[j]).0 == id && encode_utf8(cs[j].4).len() <= u32::MAX,
    ensures
        spec_read_chunks(pre + spec_chunks_bytes(cs) + rest, pre.len() as int, id, cs.len()) == Some((
            cs,
            (pre.len() + spec_chunks_bytes(cs).len()) as int,
        )),
    decreases cs.len(),
{
    if cs.len() > 0 {
        let init = cs.drop_last();
        let last = cs.last();
        assert(last == cs[cs.len() - 1]);
        assert forall|j: int| 0 <= j < init.len() implies (#[trigger] init[j]).0 == id && encode_utf8(init[j].4).len()
            <= u32::MAX by {
            assert(init[j] == cs[j]);
        }
        let b = pre + spec_chunks_bytes(cs) + rest;
        assert(b =~= pre + spec_chunks_bytes(init) + (spec_chunk_bytes(last) + rest));
        lemma_read_chunks(init, id, pre, spec_chunk_bytes(last) + rest);
        assert(b =~= (pre + spec_chunks_bytes(init)) + spec_chunk_bytes(last) + rest);
        lemma_read_chunk(last, id, pre + spec_chunks_bytes(init), rest);
        assert(init.push(last) =~= cs);
    }
}

proof fn lemma_read_doc(d: (i64, u64, Seq<(i64, u32, u64, u64, Seq<char>)>), pre: Seq<u8>, rest: Seq<u8>)
    requires
        spec_doc_fits(d),
    ensures
        spec_read_doc(pre + spec_doc_bytes(d) + rest, pre.len() as int) == Some((
            d,
            (pre.len() + spec_doc_bytes(d).len()) as int,
        )),
{
    let b = pre + spec_doc_bytes(d) + rest;
    let i = spec_u64_to_le_bytes(d.0 as u64);
    let v = spec_u64_to_le_bytes(d.1);
    let n = spec_u32_to_le_bytes(d.2.len() as u32);
    let cs = spec_chunks_bytes(d.2);
    lemma_le_lens(d.0 as u64, d.2.len() as u32, 0);
    lemma_le_lens(d.1, 0, 0);
    assert(b =~= pre + i + (v + n + cs + rest));
    lemma_u64_between(d.0 as u64, pre, v + n + cs + rest);
    lemma_i64_u64_cast(d.0);
    assert(b =~= (pre + i) + v + (n + cs + rest));
    lemma_u64_between(d.1, pre + i, n + cs + rest);
    assert(b =~= (pre + i + v) + n + (cs + rest));
    lemma_u32_between(d.2.len() as u32, pre + i + v, cs + rest);
    assert(b =~= (pre + i + v + n) + cs + rest);
    lemma_read_chunks(d.2, d.0, pre + i + v + n, rest);
}

proof fn lemma_read_docs(ds: Seq<(i64, u64, Seq<(i64, u32, u64, u64, Seq<char>)>)>, pre: Seq<u8>, rest: Seq<u8>)
    requires
        forall|i: int| 0 <= i < ds.len() ==> spec_doc_fits(#[trigger] ds[i]),
    ensures
        spec_read_docs(pre + spec_docs_bytes(ds) + rest, pre.len() as int, ds.len()) == Some((
            ds,
            (pre.len() + spec_docs_bytes(ds).len()) as int,
        )),
    decreases ds.len(),
{
    if ds.len() > 0 {
        let init = ds.drop_last();
        let last = ds.last();
        assert(last == ds[ds.len() - 1]);
        assert forall|i: int| 0 <= i < init.len() implies spec_doc_fits(#[trigger] init[i]) by {
            assert(init[i] == ds[i]);
        }
        let b = pre + spec_docs_bytes(ds) + rest;
        assert(b =~= pre + spec_docs_bytes(init) + (spec_doc_bytes(last) + rest));
        lemma_read_docs(init, pre, spec_doc_bytes(last) + rest);
        assert(b =~= (pre + spec_docs_bytes(init)) + spec_doc_bytes(last) + rest);
        lemma_read_doc(last, pre + spec_docs_bytes(init), rest);
        assert(init.push(last) =~= ds);
    }
}

/// An engine's bytes read back as its model id, lifecycle entries,
/// documents and embeddings, where each entry's state names its document,
/// each chunk belongs to its document, and every count and length fits
/// its field.
pub proof fn lemma_engine_roundtrip(
    model: Seq<char>,
    states: Seq<(i64, SourceState)>,
    docs: Seq<(i64, u64, Seq<(i64, u32, u64, u64, Seq<char>)>)>,
    es: Seq<EmbeddingView>,
)
    requires
        encode_utf8(model).len() <= u32::MAX,
        states.len() <= u32::MAX,
        forall|i: int| 0 <= i < states.len() ==> spec_state_fits(#[trigger] states[i]),
        docs.len() <= u32::MAX,
        forall|i: int| 0 <= i < docs.len() ==> spec_doc_fits(#[trigger] docs[i]),
        es.len() <= u32::MAX,
        forall|i: int| 0 <= i < es.len() ==> spec_fits(#[trigger] es[i]),
        spec_store_bytes(es).len() <= u32::MAX,
    ensures
        spec_read_engine(spec_engine_bytes(model, states, docs, spec_store_bytes(es))) == Some((model, states, docs, es)),
{
    let store = spec_store_bytes(es);
    let b = spec_engine_bytes(model, states, docs, store);
    let magic = spec_engine_magic();
    let ver = spec_u32_to_le_bytes(ENGINE_DB_VERSION);
    let m = spec_str_bytes(model);
    let ns = spec_u32_to_le_bytes(states.len() as u32);
    let sb = spec_states_bytes(states);
    let nd = spec_u32_to_le_bytes(docs.len() as u32);
    let db = spec_docs_bytes(docs);
    let nb = spec_u32_to_le_bytes(store.len() as u32);
    lemma_le_lens(0, ENGINE_DB_VERSION, 0);
    lemma_le_lens(0, states.len() as u32, 0);
    lemma_le_lens(0, docs.len() as u32, 0);
    lemma_le_lens(0, store.len() as u32, 0);
    assert(b.subrange(0, 4) =~= magic);
    assert(b =~= (magic + ver) + m + (ns + sb + nd + db + nb + store));
    lemma_read_str(model, magic + ver, ns + sb + nd + db + nb + store);
    let p1 = (magic + ver + m).len() as int;
    assert(b =~= (magic + ver + m) + ns + (sb + nd + db + nb + store));
    lemma_u32_between(states.len() as u32, magic + ver + m, sb + nd + db + nb + store);
    assert(b =~= (magic + ver + m + ns) + sb + (nd + db + nb + store));
    lemma_read_states(states, magic + ver + m + ns, nd + db + nb + store);
    let p2 = (magic + ver + m + ns + sb).len() as int;
    assert(b =~= (magic + ver + m + ns + sb) + nd + (db + nb + store));
    lemma_u32_between(docs.len() as u32, magic + ver + m + ns + sb, db + nb + store);
    assert(b =~= (magic + ver + m + ns + sb + nd) + db + (nb + store));
    lemma_read_docs(docs, magic + ver + m + ns + sb + nd, nb + store);
    let p3 = (magic + ver + m + ns + sb + nd + db).len() as int;
    assert(b =~= (magic + ver + m + ns + sb + nd + db) + nb + store);
    lemma_u32_between(store.len() as u32, magic + ver + m + ns + sb + nd + db, store);
    assert(b.subrange(p3 + 4, p3 + 4 + store.len()) =~= store);
    lemma_store_roundtrip(es);
}

} // verus!
