//! The incremental engine: document lifecycle, chunking and embeddings
//! kept in step, so that an update re-embeds only the chunks it changed.
pub mod persist;

use vstd::prelude::*;
use crate::embedding::provider::EmbeddingProvider;
use crate::embedding::store::{Embedding, EmbeddingStore, EmbeddingView};
use crate::lifecycle::chunk::{
    spec_untracked, untracked_message, Chunk, ChunkChange, ChunkTracker, are_document_chunks, is_chunk, spec_chunk_text, spec_chunk_diff, spec_id_hashes,
    spec_process_count, DEFAULT_CHUNK_SIZE,
};
use crate::lifecycle::state::{
    LifecycleManager, SourceState, LifecycleState, spec_content_hash, spec_parts, spec_after_update, spec_untracked_update,
};

verus! {

/// Result of ingesting a new document into the incremental engine.
#[derive(Debug, Clone, Copy, PartialEq, Eq, Structural)]
pub struct IngestReport {
    pub document_id: i64,
    pub chunks: usize,
}

/// Result of an incremental document update.
#[derive(Debug, Clone, Copy, PartialEq, Eq, Structural)]
pub struct IncrementalReport {
    pub document_id: i64,
    pub total_chunks: usize,
    pub changed_chunks: usize,
    pub embeddings_generated: usize,
    pub embeddings_skipped: usize,
    pub embeddings_removed: usize,
}

/// Result of deleting a document and its derived data.
#[derive(Debug, Clone, Copy, PartialEq, Eq, Structural)]
pub struct DeleteReport {
    pub document_id: i64,
    pub affected_chunks: usize,
    pub affected_vectors: usize,
    pub vectors_remaining: usize,
    pub cleanup_work: usize,
}

/// Result of migrating embeddings to a new embedding model.
#[derive(Debug, Clone, PartialEq)]
pub struct MigrateReport {
    pub old_model: String,
    pub new_model: String,
    pub total_vectors: usize,
    pub candidates: usize,
    pub migrated: usize,
    pub skipped: usize,
}

/// Whether `e` is the embedding of chunk `c` of document `document_id`
/// with model `model` by its key, source version and model; what its
/// vector is, `embeds_contents` says.
pub open spec fn embeds(e: EmbeddingView, document_id: i64, c: Chunk, model: Seq<char>) -> bool {
    &&& e.document_id == document_id
    &&& e.chunk_id == c.chunk_id
    &&& e.source_version == c.source_version
    &&& e.model_id == model
}

/// The store keys of the chunks of document `document_id`.
pub open spec fn chunk_keys(document_id: i64, cs: Seq<Chunk>) -> Seq<(i64, u32)> {
    cs.map_values(|c: Chunk| (document_id, c.chunk_id))
}

/// Whether `new` is `old` with an embedding by `model` for each chunk in
/// `cs` of document `document_id`, and nothing else changed.
pub open spec fn embeds_all(
    old: Map<(i64, u32), EmbeddingView>,
    new: Map<(i64, u32), EmbeddingView>,
    document_id: i64,
    cs: Seq<Chunk>,
    model: Seq<char>,
) -> bool {
    &&& forall|i: int|
        0 <= i < cs.len() ==> new.contains_key(#[trigger] chunk_keys(document_id, cs)[i]) && embeds(
            new[chunk_keys(document_id, cs)[i]],
            document_id,
            cs[i],
            model,
        )
    &&& forall|k: (i64, u32)|
        !chunk_keys(document_id, cs).contains(k) ==> (#[trigger] new.contains_key(k) == old.contains_key(k) && (
        old.contains_key(k) ==> new[k] == old[k]))
}

/// Whether the vector stored under each chunk in `cs` of document
/// `document_id` is an embedding of that chunk's text by `provider`, of the
/// provider's dimension.
pub open spec fn embeds_contents<P: EmbeddingProvider>(
    store: Map<(i64, u32), EmbeddingView>,
    document_id: i64,
    cs: Seq<Chunk>,
    provider: P,
) -> bool {
    forall|i: int|
        0 <= i < cs.len() ==> provider.embeds_text(
            cs[i].content@,
            store[#[trigger] chunk_keys(document_id, cs)[i]].vector,
        ) && (provider.obeys_provider_spec() ==> store[chunk_keys(document_id, cs)[i]].vector.len()
            == provider.dim_spec())
}

/// Whether no two of the chunks share a chunk id.
pub open spec fn distinct_ids(cs: Seq<Chunk>) -> bool {
    forall|a: int, b: int| 0 <= a < b < cs.len() ==> (#[trigger] cs[a]).chunk_id != (#[trigger] cs[b]).chunk_id
}

/// Connects the lifecycle engine to the vector engine.
///
/// On update it detects the content change, diffs the document's chunks, and
/// regenerates embeddings only for the changed chunks. Unchanged chunks and
/// their vectors are left untouched.
pub struct IncrementalEngine<P: EmbeddingProvider> {
    lifecycle: LifecycleManager,
    chunks: ChunkTracker,
    store: EmbeddingStore,
    provider: P,
    model_id: String,
}

impl<P: EmbeddingProvider> IncrementalEngine<P> {
    /// The lifecycle state of each document.
    pub closed spec fn lifecycle_view(&self) -> Map<i64, SourceState> {
        self.lifecycle@
    }

    /// The source version and chunks of each document.
    pub closed spec fn chunks_view(&self) -> Map<i64, (u64, Seq<Chunk>)> {
        self.chunks@
    }

    /// The embeddings, by document and chunk.
    pub closed spec fn store_view(&self) -> Map<(i64, u32), EmbeddingView> {
        self.store@
    }

    /// The provider that embeds new chunks.
    pub closed spec fn provider(&self) -> P {
        self.provider
    }

    /// The model id that the current provider reported when it was handed
    /// to the engine; new embeddings carry it.
    pub closed spec fn model(&self) -> Seq<char> {
        self.model_id@
    }

    pub fn new(provider: P) -> (e: IncrementalEngine<P>)
        ensures
            e.lifecycle_view() == Map::<i64, SourceState>::empty(),
            e.chunks_view() == Map::<i64, (u64, Seq<Chunk>)>::empty(),
            e.store_view() == Map::<(i64, u32), EmbeddingView>::empty(),
            e.provider() == provider,
            provider.obeys_provider_spec() ==> e.model() == provider.model_spec(),
    {
        let model_id = provider.model_id().to_owned();
        IncrementalEngine {
            lifecycle: LifecycleManager::new(),
            chunks: ChunkTracker::new(),
            store: EmbeddingStore::new(),
            provider,
            model_id,
        }
    }

    pub fn store(&self) -> (s: &EmbeddingStore)
        ensures
            s@ == self.store_view(),
    {
        &self.store
    }

    pub fn chunks(&self) -> (t: &ChunkTracker)
        ensures
            t@ == self.chunks_view(),
    {
        &self.chunks
    }

    pub fn lifecycle(&self) -> (m: &LifecycleManager)
        ensures
            m@ == self.lifecycle_view(),
    {
        &self.lifecycle
    }

    /// Embeds chunk `c` of `document_id` with the current provider and
    /// stores the embedding.
    fn embed_chunk(&mut self, document_id: i64, c: &Chunk)
        ensures
            final(self).store@ == old(self).store@.insert(
                (document_id, c.chunk_id),
                final(self).store@[(document_id, c.chunk_id)],
            ),
            embeds(final(self).store@[(document_id, c.chunk_id)], document_id, *c, old(self).model()),
            old(self).provider.embeds_text(c.content@, final(self).store@[(document_id, c.chunk_id)].vector),
            old(self).provider.obeys_provider_spec() ==> final(self).store@[(document_id, c.chunk_id)].vector.len()
                == old(self).provider.dim_spec(),
            final(self).lifecycle@ == old(self).lifecycle@,
            final(self).chunks@ == old(self).chunks@,
            final(self).provider == old(self).provider,
            final(self).model_id == old(self).model_id,
    {
        let vector = self.provider.embed(c.content.as_str());
        let model_id = self.model_id.clone();
        self.store.insert(Embedding {
            document_id,
            chunk_id: c.chunk_id,
            source_version: c.source_version,
            model_id,
            vector,
        });
    }

    /// Embeds each of the chunks of `document_id` with the current provider.
    fn embed_chunks(&mut self, document_id: i64, cs: &Vec<Chunk>)
        requires
            forall|a: int, b: int| 0 <= a < cs@.len() && 0 <= b < cs@.len() ==> (#[trigger] cs@[a]).source_version == (#[trigger] cs@[b]).source_version,
        ensures
            embeds_all(old(self).store@, final(self).store@, document_id, cs@, old(self).model()),
            distinct_ids(cs@) ==> embeds_contents(final(self).store@, document_id, cs@, old(self).provider),
            final(self).lifecycle@ == old(self).lifecycle@,
            final(self).chunks@ == old(self).chunks@,
            final(self).provider == old(self).provider,
            final(self).model_id == old(self).model_id,
    {
        let mut i: usize = 0;
        while i < cs.len()
            invariant
                i <= cs@.len(),
                forall|a: int, b: int| 0 <= a < cs@.len() && 0 <= b < cs@.len() ==> (#[trigger] cs@[a]).source_version == (#[trigger] cs@[b]).source_version,
                embeds_all(old(self).store@, self.store@, document_id, cs@.take(i as int), old(self).model()),
                distinct_ids(cs@) ==> embeds_contents(self.store@, document_id, cs@.take(i as int), old(self).provider),
                self.lifecycle@ == old(self).lifecycle@,
                self.chunks@ == old(self).chunks@,
                self.provider == old(self).provider,
                self.model_id == old(self).model_id,
            decreases cs@.len() - i,
        {
            let ghost before = self.store@;
            self.embed_chunk(document_id, &cs[i]);
            proof {
                let ks = chunk_keys(document_id, cs@.take(i + 1));
                let pks = chunk_keys(document_id, cs@.take(i as int));
                assert(ks =~= pks.push((document_id, cs@[i as int].chunk_id)));
                assert forall|j: int| 0 <= j < i + 1 implies self.store@.contains_key(#[trigger] ks[j]) && embeds(
                    self.store@[ks[j]],
                    document_id,
                    cs@.take(i + 1)[j],
                    old(self).model(),
                ) by {
                    if j < i {
                        assert(ks[j] == pks[j]);
                        assert(cs@.take(i + 1)[j] == cs@.take(i as int)[j]);
                        assert(cs@[j].source_version == cs@[i as int].source_version);
                    }
                }
                assert forall|k: (i64, u32)| !ks.contains(k) implies (#[trigger] self.store@.contains_key(k) == old(
                    self,
                ).store@.contains_key(k) && (old(self).store@.contains_key(k) ==> self.store@[k] == old(self).store@[k])) by {
                    if pks.contains(k) {
                        let j = choose|j: int| 0 <= j < pks.len() && pks[j] == k;
                        assert(ks[j] == k);
                    }
                    assert(k != ks[i as int]);
                }
                if distinct_ids(cs@) {
                    assert forall|j: int| 0 <= j < i + 1 implies old(self).provider.embeds_text(
                        cs@.take(i + 1)[j].content@,
                        self.store@[#[trigger] ks[j]].vector,
                    ) && (old(self).provider.obeys_provider_spec() ==> self.store@[ks[j]].vector.len() == old(self).provider.dim_spec()) by {
                        if j < i {
                            assert(ks[j] == pks[j]);
                            assert(cs@.take(i + 1)[j] == cs@.take(i as int)[j]);
                            assert(cs@[j].chunk_id != cs@[i as int].chunk_id);
                        }
                    }
                }
            }
            i = i + 1;
        }
        assert(cs@.take(i as int) =~= cs@);
    }

    /// Register a document and embed all of its chunks into the vector
    /// store. A document that is already tracked keeps its lifecycle state
    /// and is chunked again at its version.
    pub fn ingest(&mut self, document_id: i64, content: &str) -> (r: IngestReport)
        ensures
            old(self).lifecycle_view().contains_key(document_id) ==> final(self).lifecycle_view() == old(
                self,
            ).lifecycle_view(),
            !old(self).lifecycle_view().contains_key(document_id) ==> final(self).lifecycle_view() == old(
                self,
            ).lifecycle_view().insert(
                document_id,
                SourceState {
                    document_id,
                    version: 1,
                    content_hash: spec_content_hash(seq![content@]),
                    state: LifecycleState::Active,
                },
            ),
            ({
                let version = final(self).lifecycle_view()[document_id].version;
                let cs = final(self).chunks_view()[document_id].1;
                &&& final(self).chunks_view() == old(self).chunks_view().insert(document_id, (version, cs))
                &&& are_document_chunks(cs, document_id, version, content@)
                &&& embeds_all(old(self).store_view(), final(self).store_view(), document_id, cs, old(self).model())
                &&& cs.len() <= 0x1_0000_0000 ==> embeds_contents(final(self).store_view(), document_id, cs, old(self).provider())
                &&& r == (IngestReport { document_id, chunks: cs.len() as usize })
            }),
            final(self).model() == old(self).model(),
            final(self).provider() == old(self).provider(),
    {
        let parts: [&str; 1] = [content];
        assert(spec_parts(parts@) =~= seq![content@]);
        let state = self.lifecycle.register(document_id, &parts);
        let version = state.version;
        let chunks = self.chunks.register(document_id, version, content);
        assert forall|a: int, b: int| 0 <= a < chunks@.len() && 0 <= b < chunks@.len() implies (#[trigger] chunks@[a]).source_version
            == (#[trigger] chunks@[b]).source_version by {
            let texts = crate::lifecycle::chunk::spec_chunk_text(content@, crate::lifecycle::chunk::DEFAULT_CHUNK_SIZE as int).unwrap();
            assert(crate::lifecycle::chunk::is_chunk(chunks@[a], document_id, version, a, texts[a]));
            assert(crate::lifecycle::chunk::is_chunk(chunks@[b], document_id, version, b, texts[b]));
        }
        proof {
            if chunks@.len() <= 0x1_0000_0000 {
                let texts = crate::lifecycle::chunk::spec_chunk_text(content@, crate::lifecycle::chunk::DEFAULT_CHUNK_SIZE as int).unwrap();
                assert forall|i: int| 0 <= i < chunks@.len() implies (#[trigger] chunks@[i]).chunk_id == i as u32 by {
                    assert(crate::lifecycle::chunk::is_chunk(chunks@[i], document_id, version, i, texts[i]));
                }
                lemma_chunk_ids_distinct(chunks@);
            }
        }
        self.embed_chunks(document_id, &chunks);
        IngestReport { document_id, chunks: chunks.len() }
    }
}

/// Chunks numbered by their positions have distinct ids while there are
/// at most 2^32 of them.
proof fn lemma_chunk_ids_distinct(cs: Seq<Chunk>)
    requires
        forall|i: int| 0 <= i < cs.len() ==> (#[trigger] cs[i]).chunk_id == i as u32,
        cs.len() <= 0x1_0000_0000,
    ensures
        distinct_ids(cs),
{
    assert forall|a: int, b: int| 0 <= a < b < cs.len() implies (#[trigger] cs[a]).chunk_id != (#[trigger] cs[b]).chunk_id by {
        assert(cs[a].chunk_id == a as u32);
        assert(cs[b].chunk_id == b as u32);
    }
}


impl<P: EmbeddingProvider> IncrementalEngine<P> {
    /// Delete a document, cleaning only its derived data: its lifecycle
    /// state, its chunks and the embeddings of its chunks. A document whose
    /// chunks are not tracked is an error, and nothing changes.
    pub fn delete(&mut self, document_id: i64) -> (r: Result<DeleteReport, String>)
        ensures
            match r {
                Ok(report) => {
                    let cs = old(self).chunks_view()[document_id].1;
                    let removed = chunk_keys(document_id, cs).to_set();
                    &&& old(self).chunks_view().contains_key(document_id)
                    &&& final(self).chunks_view() == old(self).chunks_view().remove(document_id)
                    &&& final(self).lifecycle_view() == old(self).lifecycle_view().remove(document_id)
                    &&& final(self).store_view() == old(self).store_view().remove_keys(removed)
                    &&& report == DeleteReport {
                        document_id,
                        affected_chunks: cs.len() as usize,
                        affected_vectors: old(self).store_view().dom().intersect(removed).len() as usize,
                        vectors_remaining: final(self).store_view().dom().len() as usize,
                        cleanup_work: old(self).store_view().dom().intersect(removed).len() as usize,
                    }
                },
                Err(e) => {
                    &&& e@ == spec_untracked(document_id)
                    &&& !old(self).chunks_view().contains_key(document_id)
                    &&& final(self).chunks_view() == old(self).chunks_view()
                    &&& final(self).lifecycle_view() == old(self).lifecycle_view()
                    &&& final(self).store_view() == old(self).store_view()
                },
            },
            final(self).model() == old(self).model(),
            final(self).provider() == old(self).provider(),
    {
        let chunks = match self.chunks.remove(document_id) {
            Some(cs) => cs,
            None => {
                return Err(untracked_message(document_id));
            },
        };
        let affected_chunks = chunks.len();
        // Asking the store for its length establishes that its keys are finitely many.
        let _ = self.store.len();
        let ghost ks = chunk_keys(document_id, chunks@);
        let ghost old_store = self.store@;
        let mut affected_vectors: usize = 0;
        let mut i: usize = 0;
        assert(ks.take(0).to_set() =~= Set::<(i64, u32)>::empty());
        assert(old_store.remove_keys(Set::<(i64, u32)>::empty()) =~= old_store);
        assert(old_store.dom().intersect(Set::<(i64, u32)>::empty()) =~= Set::<(i64, u32)>::empty());
        while i < chunks.len()
            invariant
                ks == chunk_keys(document_id, chunks@),
                i <= chunks@.len(),
                old_store.dom().finite(),
                self.store@ == old_store.remove_keys(ks.take(i as int).to_set()),
                affected_vectors == old_store.dom().intersect(ks.take(i as int).to_set()).len(),
                affected_vectors <= i,
                self.model() == old(self).model(),
                self.provider == old(self).provider,
                self.chunks@ == old(self).chunks@.remove(document_id),
                self.lifecycle@ == old(self).lifecycle@,
                chunks@ == old(self).chunks@[document_id].1,
                old(self).chunks@.contains_key(document_id),
                old_store == old(self).store@,
            decreases chunks@.len() - i,
        {
            let ghost before = ks.take(i as int).to_set();
            let ghost k = ks[i as int];
            assert(ks.take(i + 1) =~= ks.take(i as int).push(k));
            proof {
                lemma_push_to_set(ks.take(i as int), k);
            }
            let removed = self.store.remove(document_id, chunks[i].chunk_id);
            proof {
                assert(old_store.remove_keys(before.insert(k)) =~= old_store.remove_keys(before).remove(k));
                let a = old_store.dom().intersect(before);
                let b = old_store.dom().intersect(before.insert(k));
                if old_store.dom().contains(k) && !before.contains(k) {
                    assert(b =~= a.insert(k));
                } else {
                    assert(b =~= a);
                }
                assert(old_store.remove_keys(before).contains_key(k) == (old_store.dom().contains(k) && !before.contains(k)));
            }
            if removed.is_some() {
                affected_vectors = affected_vectors + 1;
            }
            i = i + 1;
        }
        assert(ks.take(i as int) =~= ks);
        self.lifecycle.remove(document_id);
        let vectors_remaining = self.store.len();
        Ok(DeleteReport {
            document_id,
            affected_chunks,
            affected_vectors,
            vectors_remaining,
            cleanup_work: affected_vectors,
        })
    }
}

/// The elements of a sequence with one more pushed.
proof fn lemma_push_to_set<A>(s: Seq<A>, a: A)
    ensures
        s.push(a).to_set() == s.to_set().insert(a),
{
    let t = s.push(a);
    assert forall|x: A| #[trigger] t.to_set().contains(x) == s.to_set().insert(a).contains(x) by {
        if t.contains(x) {
            let j = choose|j: int| 0 <= j < t.len() && t[j] == x;
            if j < s.len() {
                assert(s[j] == x);
            }
        }
        if s.contains(x) {
            let j = choose|j: int| 0 <= j < s.len() && s[j] == x;
            assert(t[j] == x);
        }
        assert(t[s.len() as int] == a);
    }
    assert(t.to_set() =~= s.to_set().insert(a));
}

/// The chunk ids of the chunks, in order.
pub open spec fn chunk_ids(cs: Seq<Chunk>) -> Seq<u32> {
    cs.map_values(|c: Chunk| c.chunk_id)
}

/// The chunks to embed again: those that, against the content hashes of
/// the previous version, are to be processed.
pub open spec fn changed_chunks(old_hashes: Map<u32, u64>, cs: Seq<Chunk>) -> Seq<Chunk> {
    cs.filter(|c: Chunk| spec_chunk_diff(old_hashes, c).change == ChunkChange::Process)
}

/// The store keys of the previous chunks of a document whose ids the new
/// chunks no longer have.
pub open spec fn dropped_keys(document_id: i64, old_cs: Seq<Chunk>, new_cs: Seq<Chunk>) -> Set<(i64, u32)> {
    Set::new(
        |k: (i64, u32)| k.0 == document_id && chunk_ids(old_cs).contains(k.1) && !chunk_ids(new_cs).contains(k.1),
    )
}

/// One more embedding, of a chunk whose source version all the earlier
/// ones share, keeps the store embedding all of them.
proof fn lemma_embeds_all_push(
    old: Map<(i64, u32), EmbeddingView>,
    mid: Map<(i64, u32), EmbeddingView>,
    document_id: i64,
    xs: Seq<Chunk>,
    c: Chunk,
    e: EmbeddingView,
    model: Seq<char>,
)
    requires
        embeds_all(old, mid, document_id, xs, model),
        embeds(e, document_id, c, model),
        forall|i: int| 0 <= i < xs.len() ==> (#[trigger] xs[i]).source_version == c.source_version,
    ensures
        embeds_all(old, mid.insert((document_id, c.chunk_id), e), document_id, xs.push(c), model),
{
    let new = mid.insert((document_id, c.chunk_id), e);
    let ks = chunk_keys(document_id, xs.push(c));
    let pks = chunk_keys(document_id, xs);
    assert(ks =~= pks.push((document_id, c.chunk_id)));
    assert forall|j: int| 0 <= j < xs.len() + 1 implies new.contains_key(#[trigger] ks[j]) && embeds(
        new[ks[j]],
        document_id,
        xs.push(c)[j],
        model,
    ) by {
        if j < xs.len() {
            assert(ks[j] == pks[j]);
            assert(xs.push(c)[j] == xs[j]);
        }
    }
    assert forall|k: (i64, u32)| !ks.contains(k) implies (#[trigger] new.contains_key(k) == old.contains_key(k) && (
    old.contains_key(k) ==> new[k] == old[k])) by {
        if pks.contains(k) {
            let j = choose|j: int| 0 <= j < pks.len() && pks[j] == k;
            assert(ks[j] == k);
        }
        assert(k != ks[xs.len() as int]);
    }
}

/// Whether `x` is among `v`.
fn contains_id(v: &Vec<u32>, x: u32) -> (r: bool)
    ensures
        r == v@.contains(x),
{
    let mut i: usize = 0;
    while i < v.len()
        invariant
            i <= v@.len(),
            forall|j: int| 0 <= j < i ==> v@[j] != x,
        decreases v@.len() - i,
    {
        if v[i] == x {
            return true;
        }
        i = i + 1;
    }
    false
}

/// The chunk ids of the chunks.
fn ids_of(cs: &[Chunk]) -> (r: Vec<u32>)
    ensures
        r@ == chunk_ids(cs@),
{
    let mut r: Vec<u32> = Vec::new();
    let mut i: usize = 0;
    while i < cs.len()
        invariant
            i <= cs@.len(),
            r@ == chunk_ids(cs@.take(i as int)),
        decreases cs@.len() - i,
    {
        r.push(cs[i].chunk_id);
        i = i + 1;
        assert(r@ =~= chunk_ids(cs@.take(i as int)));
    }
    assert(cs@.take(i as int) =~= cs@);
    r
}

impl<P: EmbeddingProvider> IncrementalEngine<P> {
    /// Update a document's content, re-embedding only the changed chunks:
    /// identical content changes no chunk and no embedding; otherwise the
    /// document moves to its next version, is chunked again, the chunks
    /// that changed are embedded again, and the embeddings of chunk ids the
    /// document no longer has are removed. A document that is not tracked
    /// is an error.
    pub fn update(&mut self, document_id: i64, new_content: &str) -> (r: Result<IncrementalReport, String>)
        requires
            old(self).lifecycle_view().contains_key(document_id) ==> old(self).lifecycle_view()[document_id].version
                < u64::MAX,
        ensures
            final(self).model() == old(self).model(),
            final(self).provider() == old(self).provider(),
            ({
                let h = spec_content_hash(seq![new_content@]);
                let s = old(self).lifecycle_view()[document_id];
                match r {
                    Err(e) => {
                        ||| {
                            &&& e@ == spec_untracked_update(document_id)
                            &&& !old(self).lifecycle_view().contains_key(document_id)
                            &&& final(self).lifecycle_view() == old(self).lifecycle_view()
                            &&& final(self).chunks_view() == old(self).chunks_view()
                            &&& final(self).store_view() == old(self).store_view()
                        }
                        ||| {
                            &&& e@ == spec_untracked(document_id)
                            &&& old(self).lifecycle_view().contains_key(document_id)
                            &&& h != s.content_hash
                            &&& !old(self).chunks_view().contains_key(document_id)
                            &&& final(self).lifecycle_view() == spec_after_update(old(self).lifecycle_view(), document_id, h)
                            &&& final(self).chunks_view() == old(self).chunks_view()
                            &&& final(self).store_view() == old(self).store_view()
                        }
                    },
                    Ok(report) => {
                        &&& old(self).lifecycle_view().contains_key(document_id)
                        &&& final(self).lifecycle_view() == spec_after_update(old(self).lifecycle_view(), document_id, h)
                        &&& if h == s.content_hash {
                            let n = if old(self).chunks_view().contains_key(document_id) {
                                old(self).chunks_view()[document_id].1.len()
                            } else {
                                0
                            };
                            &&& final(self).chunks_view() == old(self).chunks_view()
                            &&& final(self).store_view() == old(self).store_view()
                            &&& report == IncrementalReport {
                                document_id,
                                total_chunks: n as usize,
                                changed_chunks: 0,
                                embeddings_generated: 0,
                                embeddings_skipped: n as usize,
                                embeddings_removed: 0,
                            }
                        } else {
                            let old_cs = old(self).chunks_view()[document_id].1;
                            let v = (s.version + 1) as u64;
                            let cs = final(self).chunks_view()[document_id].1;
                            let changed = changed_chunks(spec_id_hashes(old_cs), cs);
                            let dropped = dropped_keys(document_id, old_cs, cs);
                            &&& old(self).chunks_view().contains_key(document_id)
                            &&& are_document_chunks(cs, document_id, v, new_content@)
                            &&& final(self).chunks_view() == old(self).chunks_view().insert(document_id, (v, cs))
                            &&& embeds_all(old(self).store_view().remove_keys(dropped), final(self).store_view(), document_id, changed, old(self).model())
                            &&& cs.len() <= 0x1_0000_0000 ==> embeds_contents(final(self).store_view(), document_id, changed, old(self).provider())
                            &&& report == IncrementalReport {
                                document_id,
                                total_chunks: cs.len() as usize,
                                changed_chunks: changed.len() as usize,
                                embeddings_generated: changed.len() as usize,
                                embeddings_skipped: (cs.len() - changed.len()) as usize,
                                embeddings_removed: old(self).store_view().dom().intersect(dropped).len() as usize,
                            }
                        }
                    },
                }
            }),
    {
        let parts: [&str; 1] = [new_content];
        assert(spec_parts(parts@) =~= seq![new_content@]);
        let change = match self.lifecycle.apply_update(document_id, &parts) {
            Ok(c) => c,
            Err(e) => {
                return Err(e);
            },
        };
        let old_ids: Vec<u32> = match self.chunks.get(document_id) {
            Some(cs) => ids_of(cs),
            None => Vec::new(),
        };
        if !change.content_changed {
            let total = old_ids.len();
            return Ok(IncrementalReport {
                document_id,
                total_chunks: total,
                changed_chunks: 0,
                embeddings_generated: 0,
                embeddings_skipped: total,
                embeddings_removed: 0,
            });
        }
        let ghost old_cs = old(self).chunks@[document_id].1;
        let ghost hashes = spec_id_hashes(old_cs);
        let diff = match self.chunks.apply_update(document_id, change.new_version, new_content) {
            Ok(d) => d,
            Err(e) => {
                return Err(e);
            },
        };
        let ghost model = self.model();
        let ghost old_store = self.store@;
        let new_chunks: &[Chunk] = match self.chunks.get(document_id) {
            Some(cs) => cs,
            None => {
                return Err(untracked_message(document_id));
            },
        };
        let ghost cs = new_chunks@;
        let ghost version = change.new_version;
        let ghost lc = self.lifecycle@;
        let ghost ct = self.chunks@;
        proof {
            let texts = spec_chunk_text(new_content@, DEFAULT_CHUNK_SIZE as int).unwrap();
            assert forall|i: int| 0 <= i < cs.len() implies (#[trigger] cs[i]).source_version == version && cs[i].chunk_id == i as u32 by {
                assert(is_chunk(cs[i], document_id, version, i, texts[i]));
            }
        }
        let mut generated: usize = 0;
        let mut i: usize = 0;
        proof {
            reveal(Seq::filter);
        }
        assert(changed_chunks(hashes, cs.take(0)) =~= Seq::<Chunk>::empty());
        assert(embeds_all(old_store, old_store, document_id, Seq::<Chunk>::empty(), model));
        while i < diff.diffs.len()
            invariant
                cs == new_chunks@,
                diff.diffs@ == cs.map_values(|c: Chunk| spec_chunk_diff(hashes, c)),
                forall|j: int| 0 <= j < cs.len() ==> (#[trigger] cs[j]).source_version == version && cs[j].chunk_id == j as u32,
                i <= cs.len(),
                embeds_all(old_store, self.store@, document_id, changed_chunks(hashes, cs.take(i as int)), model),
                generated == changed_chunks(hashes, cs.take(i as int)).len(),
                forall|q: int| 0 <= q < changed_chunks(hashes, cs.take(i as int)).len() ==> (#[trigger] changed_chunks(hashes, cs.take(i as int))[q]).source_version == version
                    && chunk_ids(cs).contains(changed_chunks(hashes, cs.take(i as int))[q].chunk_id),
                generated <= i,
                cs.len() <= 0x1_0000_0000 ==> forall|q: int| 0 <= q < changed_chunks(hashes, cs.take(i as int)).len()
                    ==> (#[trigger] changed_chunks(hashes, cs.take(i as int))[q]).chunk_id < i,
                cs.len() <= 0x1_0000_0000 ==> embeds_contents(self.store@, document_id, changed_chunks(hashes, cs.take(i as int)), old(self).provider),
                self.provider == old(self).provider,
                model == self.model(),
                self.lifecycle@ == lc,
                self.chunks@ == ct,
            decreases cs.len() - i,
        {
            proof {
                reveal(Seq::filter);
            }
            let ghost xs = changed_chunks(hashes, cs.take(i as int));
            let d = diff.diffs[i];
            assert(d == spec_chunk_diff(hashes, cs[i as int]));
            assert(cs.take(i + 1).drop_last() =~= cs.take(i as int));
            assert(cs.take(i + 1).last() == cs[i as int]);
            if d.change == ChunkChange::Process {
                let idx = d.chunk_id as usize;
                assert(d.chunk_id == i as u32);
                assert((i as u32) as usize <= i) by (bit_vector);
                let chunk = &new_chunks[idx];
                assert(chunk.chunk_id == d.chunk_id) by {
                    assert(((i as u32) as usize) as u32 == i as u32) by (bit_vector);
                }
                assert(i < 0x1_0000_0000 ==> (i as u32) as usize == i) by (bit_vector);
                let vector = self.provider.embed(chunk.content.as_str());
                let model_id = self.model_id.clone();
                let ghost before = self.store@;
                let e = Embedding {
                    document_id,
                    chunk_id: chunk.chunk_id,
                    source_version: chunk.source_version,
                    model_id,
                    vector,
                };
                proof {
                    assert forall|j: int| 0 <= j < xs.len() implies (#[trigger] xs[j]).source_version == cs[i as int].source_version by {
                    }
                    lemma_embeds_all_push(old_store, before, document_id, xs, cs[i as int], e@, model);
                }
                self.store.insert(e);
                generated = generated + 1;
                proof {
                    let ys = changed_chunks(hashes, cs.take(i + 1));
                    assert(ys == xs.push(cs[i as int]));
                    assert(chunk_ids(cs)[i as int] == cs[i as int].chunk_id);
                    assert forall|q: int| 0 <= q < ys.len() implies (#[trigger] ys[q]).source_version == version
                        && chunk_ids(cs).contains(ys[q].chunk_id) by {
                        if q < xs.len() {
                            assert(ys[q] == xs[q]);
                        }
                    }
                    if cs.len() <= 0x1_0000_0000 {
                        let yks = chunk_keys(document_id, ys);
                        let xks = chunk_keys(document_id, xs);
                        assert(cs[i as int].chunk_id == i as u32);
                        assert((i as u32) as int == i);
                        assert forall|q: int| 0 <= q < ys.len() implies (#[trigger] ys[q]).chunk_id < i + 1 by {
                            if q < xs.len() {
                                assert(ys[q] == xs[q]);
                            }
                        }
                        assert forall|q: int| 0 <= q < ys.len() implies old(self).provider.embeds_text(
                            ys[q].content@,
                            self.store@[#[trigger] yks[q]].vector,
                        ) && (old(self).provider.obeys_provider_spec() ==> self.store@[yks[q]].vector.len() == old(self).provider.dim_spec()) by {
                            if q < xs.len() {
                                assert(ys[q] == xs[q]);
                                assert(yks[q] == xks[q]);
                                assert(xs[q].chunk_id < i);
                            }
                        }
                    }
                }
            } else {
                assert(changed_chunks(hashes, cs.take(i + 1)) == xs);
            }
            i = i + 1;
        }
        assert(cs.take(i as int) =~= cs);
        assert(cs.len() <= 0x1_0000_0000 ==> embeds_contents(self.store@, document_id, changed_chunks(hashes, cs), old(self).provider));
        let ghost mid = self.store@;
        let ghost changed = changed_chunks(hashes, cs);
        let new_ids = ids_of(new_chunks);
        let total = new_chunks.len();
        let mut removed: usize = 0;
        let mut j: usize = 0;
        // Asking the store for its length establishes that its keys are finitely many.
        let _ = self.store.len();
        let ghost dropped = dropped_keys(document_id, old_cs, cs);
        assert(old_ids@ == chunk_ids(old_cs));
        proof {
            let s0 = Set::new(|k: (i64, u32)| k.0 == document_id && old_ids@.take(0).contains(k.1) && !new_ids@.contains(k.1));
            assert(s0 =~= Set::<(i64, u32)>::empty());
            assert(mid.remove_keys(s0) =~= mid);
            assert(mid.dom().intersect(s0) =~= Set::<(i64, u32)>::empty());
        }
        while j < old_ids.len()
            invariant
                new_ids@ == chunk_ids(cs),
                old_ids@ == chunk_ids(old_cs),
                j <= old_ids@.len(),
                mid.dom().finite(),
                self.store@ == mid.remove_keys(Set::new(|k: (i64, u32)| k.0 == document_id && old_ids@.take(j as int).contains(k.1) && !new_ids@.contains(k.1))),
                removed == mid.dom().intersect(Set::new(|k: (i64, u32)| k.0 == document_id && old_ids@.take(j as int).contains(k.1) && !new_ids@.contains(k.1))).len(),
                removed <= j,
                self.provider == old(self).provider,
                model == self.model(),
                self.lifecycle@ == lc,
                self.chunks@ == ct,
            decreases old_ids@.len() - j,
        {
            let oid = old_ids[j];
            let ghost before = Set::new(|k: (i64, u32)| k.0 == document_id && old_ids@.take(j as int).contains(k.1) && !new_ids@.contains(k.1));
            let ghost after = Set::new(|k: (i64, u32)| k.0 == document_id && old_ids@.take(j + 1).contains(k.1) && !new_ids@.contains(k.1));
            proof {
                assert(old_ids@.take(j + 1) =~= old_ids@.take(j as int).push(oid));
                lemma_push_to_set(old_ids@.take(j as int), oid);
                assert forall|x: u32| #[trigger] old_ids@.take(j + 1).contains(x) == (old_ids@.take(j as int).contains(x) || x == oid) by {
                    assert(old_ids@.take(j + 1).to_set().contains(x) == old_ids@.take(j + 1).contains(x));
                    assert(old_ids@.take(j as int).to_set().contains(x) == old_ids@.take(j as int).contains(x));
                }
            }
            if !contains_id(&new_ids, oid) {
                let k = (document_id, oid);
                proof {
                    assert(after =~= before.insert(k));
                    assert(mid.remove_keys(after) =~= mid.remove_keys(before).remove(k));
                    let a = mid.dom().intersect(before);
                    let b = mid.dom().intersect(after);
                    if mid.dom().contains(k) && !before.contains(k) {
                        assert(b =~= a.insert(k));
                    } else {
                        assert(b =~= a);
                    }
                }
                if self.store.remove(document_id, oid).is_some() {
                    removed = removed + 1;
                }
            } else {
                proof {
                    assert(after =~= before);
                }
            }
            j = j + 1;
        }
        proof {
            assert(old_ids@.take(j as int) =~= old_ids@);
            let fin = Set::new(|k: (i64, u32)| k.0 == document_id && old_ids@.take(j as int).contains(k.1) && !new_ids@.contains(k.1));
            assert(fin =~= dropped);
            // The embedded keys are of new chunk ids, none of them dropped.
            assert forall|k: (i64, u32)| dropped.contains(k) implies !chunk_keys(document_id, changed).contains(k) by {
                if chunk_keys(document_id, changed).contains(k) {
                    let q = choose|q: int| 0 <= q < chunk_keys(document_id, changed).len() && chunk_keys(document_id, changed)[q] == k;
                    assert(chunk_ids(cs).contains(changed[q].chunk_id));
                }
            }
            assert(mid.dom().intersect(dropped) =~= old_store.dom().intersect(dropped));
            assert forall|k: (i64, u32)| !chunk_keys(document_id, changed).contains(k) implies (#[trigger] mid.remove_keys(dropped).contains_key(k)
                == old_store.remove_keys(dropped).contains_key(k) && (old_store.remove_keys(dropped).contains_key(k) ==> mid.remove_keys(dropped)[k]
                == old_store.remove_keys(dropped)[k])) by {
            }
            assert forall|q: int| 0 <= q < changed.len() implies mid.remove_keys(dropped).contains_key(#[trigger] chunk_keys(document_id, changed)[q]) && embeds(
                mid.remove_keys(dropped)[chunk_keys(document_id, changed)[q]],
                document_id,
                changed[q],
                model,
            ) by {
                let k = chunk_keys(document_id, changed)[q];
                assert(chunk_keys(document_id, changed).contains(k));
            }
            lemma_process_count(hashes, cs);
            if cs.len() <= 0x1_0000_0000 {
                let cks = chunk_keys(document_id, changed);
                assert forall|q: int| 0 <= q < changed.len() implies old(self).provider.embeds_text(
                    changed[q].content@,
                    self.store@[#[trigger] cks[q]].vector,
                ) && (old(self).provider.obeys_provider_spec() ==> self.store@[cks[q]].vector.len() == old(self).provider.dim_spec()) by {
                    assert(cks.contains(cks[q]));
                    assert(!dropped.contains(cks[q]));
                }
            }
        }
        Ok(IncrementalReport {
            document_id,
            total_chunks: total,
            changed_chunks: diff.changed_chunks,
            embeddings_generated: generated,
            embeddings_skipped: total.saturating_sub(generated),
            embeddings_removed: removed,
        })
    }
}

/// The decisions to process are as many as the changed chunks.
proof fn lemma_process_count(hashes: Map<u32, u64>, cs: Seq<Chunk>)
    ensures
        spec_process_count(cs.map_values(|c: Chunk| spec_chunk_diff(hashes, c))) == changed_chunks(hashes, cs).len(),
        changed_chunks(hashes, cs).len() <= cs.len(),
    decreases cs.len(),
{
    reveal(Seq::filter);
    if cs.len() > 0 {
        lemma_process_count(hashes, cs.drop_last());
        assert(cs.map_values(|c: Chunk| spec_chunk_diff(hashes, c)).drop_last() =~= cs.drop_last().map_values(
            |c: Chunk| spec_chunk_diff(hashes, c),
        ));
    }
}

/// Whether the embedding `e` at key `k` moves to model `model`: it is on
/// another model, and the tracked chunks of its document have its chunk id
/// as a position.
pub open spec fn migrates(e: EmbeddingView, chunks: Map<i64, (u64, Seq<Chunk>)>, k: (i64, u32), model: Seq<char>) -> bool {
    &&& e.model_id != model
    &&& chunks.contains_key(k.0)
    &&& (k.1 as int) < chunks[k.0].1.len()
}

/// Whether `new` is `old` with each embedding among `done` that migrates
/// to `model` computed again by `provider` from the text of its chunk, at
/// its source version, and every other one kept.
pub open spec fn migrated_store<P: EmbeddingProvider>(
    old: Map<(i64, u32), EmbeddingView>,
    new: Map<(i64, u32), EmbeddingView>,
    chunks: Map<i64, (u64, Seq<Chunk>)>,
    model: Seq<char>,
    done: Set<(i64, u32)>,
    provider: P,
) -> bool {
    &&& new.dom() == old.dom()
    &&& forall|k: (i64, u32)|
        #[trigger] old.contains_key(k) ==> if done.contains(k) && migrates(old[k], chunks, k, model) {
            &&& new[k] == (EmbeddingView {
                document_id: k.0,
                chunk_id: k.1,
                source_version: old[k].source_version,
                model_id: model,
                vector: new[k].vector,
            })
            &&& provider.embeds_text(chunks[k.0].1[k.1 as int].content@, new[k].vector)
            &&& provider.obeys_provider_spec() ==> new[k].vector.len() == provider.dim_spec()
        } else {
            new[k] == old[k]
        }
}

impl<P: EmbeddingProvider> IncrementalEngine<P> {
    /// Migrate embeddings to a new embedding model. Every embedding on
    /// another model whose chunk is tracked is computed again by the new
    /// provider, keeping its source version; the others are skipped. The
    /// engine's provider becomes the new one.
    pub fn migrate_model(&mut self, new_provider: P) -> (r: MigrateReport)
        ensures
            final(self).model() == r.new_model@,
            final(self).lifecycle_view() == old(self).lifecycle_view(),
            final(self).chunks_view() == old(self).chunks_view(),
            migrated_store(
                old(self).store_view(),
                final(self).store_view(),
                old(self).chunks_view(),
                r.new_model@,
                old(self).store_view().dom(),
                new_provider,
            ),
            final(self).provider() == new_provider,
            new_provider.obeys_provider_spec() ==> r.new_model@ == new_provider.model_spec(),
            r.old_model@ == old(self).model(),
            r.total_vectors == old(self).store_view().dom().len(),
            r.migrated == old(self).store_view().dom().filter(
                |k: (i64, u32)| migrates(old(self).store_view()[k], old(self).chunks_view(), k, r.new_model@),
            ).len(),
            r.candidates == r.migrated,
            r.skipped == r.total_vectors - r.migrated,
    {
        let new_model = new_provider.model_id().to_owned();
        let old_model = self.model_id.clone();
        let ghost old_store = self.store@;
        let ghost chunks_v = self.chunks@;
        let ghost m = new_model@;
        let ghost p = |k: (i64, u32)| migrates(old_store[k], chunks_v, k, m);
        // Asking the store for its length establishes that its keys are finitely many.
        let _ = self.store.len();
        let all = self.store.iter();
        let mut keys: Vec<(i64, u32)> = Vec::new();
        let mut i: usize = 0;
        while i < all.len()
            invariant
                i <= all@.len(),
                keys@ == crate::embedding::store::spec_keys(all@.take(i as int)),
            decreases all@.len() - i,
        {
            keys.push((all[i].document_id, all[i].chunk_id));
            i = i + 1;
            assert(keys@ =~= crate::embedding::store::spec_keys(all@.take(i as int)));
        }
        assert(all@.take(i as int) =~= all@);
        let ghost ks = keys@;
        proof {
            assert forall|k: (i64, u32)| #[trigger] ks.to_set().contains(k) == old_store.dom().contains(k) by {
                if ks.contains(k) {
                    let j = choose|j: int| 0 <= j < ks.len() && ks[j] == k;
                    assert(ks[j] == crate::embedding::store::spec_key(all@[j]));
                }
                if old_store.contains_key(k) {
                    let j = choose|j: int| 0 <= j < all@.len() && crate::embedding::store::spec_key(all@[j]) == k;
                    assert(ks[j] == k);
                }
            }
            assert(ks.to_set() =~= old_store.dom());
            assert(ks.take(0).to_set() =~= Set::<(i64, u32)>::empty());
            assert(Set::<(i64, u32)>::empty().filter(p) =~= Set::<(i64, u32)>::empty());
        }
        let mut migrated: usize = 0;
        let mut skipped: usize = 0;
        let mut i: usize = 0;
        while i < keys.len()
            invariant
                ks == keys@,
                ks.no_duplicates(),
                ks.to_set() == old_store.dom(),
                ks.len() == old_store.dom().len(),
                i <= ks.len(),
                chunks_v == self.chunks@,
                self.lifecycle@ == old(self).lifecycle@,
                m == new_model@,
                p == (|k: (i64, u32)| migrates(old_store[k], chunks_v, k, m)),
                migrated_store(old_store, self.store@, chunks_v, m, ks.take(i as int).to_set(), new_provider),
                migrated == ks.take(i as int).to_set().filter(p).len(),
                migrated + skipped == i,
            decreases ks.len() - i,
        {
            let (document_id, chunk_id) = keys[i];
            let ghost k = (document_id, chunk_id);
            let ghost done = ks.take(i as int).to_set();
            proof {
                assert(ks.take(i + 1) =~= ks.take(i as int).push(k));
                lemma_push_to_set(ks.take(i as int), k);
                assert(!done.contains(k)) by {
                    if ks.take(i as int).contains(k) {
                        let j = choose|j: int| 0 <= j < i && ks.take(i as int)[j] == k;
                        assert(ks[j] == ks[i as int]);
                    }
                }
                assert(ks.to_set().contains(k)) by {
                    assert(ks[i as int] == k);
                }
            }
            let embedding = match self.store.get(document_id, chunk_id) {
                Some(e) => e,
                None => {
                    assert(false);
                    i = i + 1;
                    continue;
                },
            };
            assert(embedding@ == old_store[k]);
            if embedding.model_id == new_model {
                skipped = skipped + 1;
                proof {
                    assert(done.insert(k).filter(p) =~= done.filter(p));
                }
                i = i + 1;
                continue;
            }
            let source_version = embedding.source_version;
            let chunk = match self.chunks.get(document_id) {
                Some(cc) => {
                    if (chunk_id as usize) < cc.len() {
                        &cc[chunk_id as usize]
                    } else {
                        skipped = skipped + 1;
                        proof {
                            assert(done.insert(k).filter(p) =~= done.filter(p));
                        }
                        i = i + 1;
                        continue;
                    }
                },
                None => {
                    skipped = skipped + 1;
                    proof {
                        assert(done.insert(k).filter(p) =~= done.filter(p));
                    }
                    i = i + 1;
                    continue;
                },
            };
            let vector = new_provider.embed(chunk.content.as_str());
            let ghost before = self.store@;
            self.store.insert(Embedding {
                document_id,
                chunk_id,
                source_version,
                model_id: new_model.clone(),
                vector,
            });
            migrated = migrated + 1;
            proof {
                assert(done.insert(k).filter(p) =~= done.filter(p).insert(k));
                assert(self.store@.dom() =~= old_store.dom());
            }
            i = i + 1;
        }
        assert(ks.take(i as int) =~= ks);
        self.provider = new_provider;
        self.model_id = new_model.clone();
        let total_vectors = self.store.len();
        MigrateReport {
            old_model,
            new_model,
            total_vectors,
            candidates: migrated,
            migrated,
            skipped,
        }
    }
}

} // verus!
