//! Embeddings of chunks, keyed by document and chunk, and their byte form.
use vstd::prelude::*;
use vstd::bytes::{spec_u64_to_le_bytes, spec_u32_to_le_bytes};
use vstd::utf8::{valid_utf8, encode_utf8, decode_utf8, encode_utf8_valid_utf8, encode_utf8_decode_utf8};
use crate::storage::le_bytes::{
    spec_u64_at, spec_u32_at, read_u64, read_u32, write_u64, write_u32, lemma_u64_at, lemma_u32_at, lemma_le_lens,
    lemma_i64_u64_cast, spec_str_bytes, spec_read_str, write_str, read_str_at, lemma_read_str, lemma_u64_between,
    lemma_u32_between,
};
use crate::text::{string_bytes, string_from_utf8, append_bytes, copy_range};

verus! {

/// Format version of the serialized embedding store.
pub const VECTOR_DB_VERSION: u32 = 1;

/// An embedding vector for a specific chunk at a specific source version,
/// produced by a specific embedding model. The vector holds the bit
/// patterns of `f64` values.
#[derive(Debug, PartialEq)]
pub struct Embedding {
    pub document_id: i64,
    pub chunk_id: u32,
    pub source_version: u64,
    pub model_id: String,
    pub vector: Vec<u64>,
}

/// An embedding as plain values.
pub struct EmbeddingView {
    pub document_id: i64,
    pub chunk_id: u32,
    pub source_version: u64,
    pub model_id: Seq<char>,
    pub vector: Seq<u64>,
}

impl View for Embedding {
    type V = EmbeddingView;

    open spec fn view(&self) -> EmbeddingView {
        EmbeddingView {
            document_id: self.document_id,
            chunk_id: self.chunk_id,
            source_version: self.source_version,
            model_id: self.model_id@,
            vector: self.vector@,
        }
    }
}

/// A copy of a vector.
fn copy_vector(v: &Vec<u64>) -> (r: Vec<u64>)
    ensures
        r@ == v@,
{
    let mut r: Vec<u64> = Vec::new();
    let mut i: usize = 0;
    while i < v.len()
        invariant
            i <= v@.len(),
            r@ == v@.take(i as int),
        decreases v@.len() - i,
    {
        r.push(v[i]);
        i = i + 1;
        assert(r@ =~= v@.take(i as int));
    }
    assert(v@.take(i as int) =~= v@);
    r
}

impl Clone for Embedding {
    fn clone(&self) -> (r: Self)
        ensures
            r@ == self@,
    {
        Embedding {
            document_id: self.document_id,
            chunk_id: self.chunk_id,
            source_version: self.source_version,
            model_id: self.model_id.clone(),
            vector: copy_vector(&self.vector),
        }
    }
}

/// The key of an embedding: its document and chunk.
pub open spec fn spec_key(e: Embedding) -> (i64, u32) {
    (e.document_id, e.chunk_id)
}

/// The keys of the embeddings, in order.
pub open spec fn spec_keys(es: Seq<Embedding>) -> Seq<(i64, u32)> {
    es.map_values(|e: Embedding| spec_key(e))
}

/// Stores embeddings keyed by (document_id, chunk_id).
///
/// The embeddings are a `Vec` with distinct keys: vstd specifies `HashMap`
/// only for keys with a key model (integers, `bool`, and boxes of them),
/// which the pair `(i64, u32)` lacks.
pub struct EmbeddingStore {
    embeddings: Vec<Embedding>,
}

impl View for EmbeddingStore {
    type V = Map<(i64, u32), EmbeddingView>;

    closed spec fn view(&self) -> Map<(i64, u32), EmbeddingView> {
        Map::new(
            |k: (i64, u32)| spec_keys(self.embeddings@).contains(k),
            |k: (i64, u32)| self.embeddings@[spec_keys(self.embeddings@).index_of(k)]@,
        )
    }
}

impl EmbeddingStore {
    #[verifier::type_invariant]
    closed spec fn wf(&self) -> bool {
        spec_keys(self.embeddings@).no_duplicates()
    }

    /// The embeddings in the store's order, each key once.
    pub closed spec fn entries(&self) -> Seq<EmbeddingView> {
        self.embeddings@.map_values(|e: Embedding| e@)
    }

    pub fn new() -> (s: EmbeddingStore)
        ensures
            s@ == Map::<(i64, u32), EmbeddingView>::empty(),
    {
        let s = EmbeddingStore { embeddings: Vec::new() };
        assert(s@ =~= Map::<(i64, u32), EmbeddingView>::empty());
        s
    }

    /// The position of the embedding with key `(document_id, chunk_id)`.
    fn find(&self, document_id: i64, chunk_id: u32) -> (r: Option<usize>)
        ensures
            match r {
                Some(i) => i < self.embeddings@.len() && spec_key(self.embeddings@[i as int]) == (document_id, chunk_id),
                None => !spec_keys(self.embeddings@).contains((document_id, chunk_id)),
            },
    {
        let mut i: usize = 0;
        while i < self.embeddings.len()
            invariant
                i <= self.embeddings@.len(),
                forall|j: int| 0 <= j < i ==> spec_key(#[trigger] self.embeddings@[j]) != (document_id, chunk_id),
            decreases self.embeddings@.len() - i,
        {
            if self.embeddings[i].document_id == document_id && self.embeddings[i].chunk_id == chunk_id {
                return Some(i);
            }
            i = i + 1;
        }
        proof {
            if spec_keys(self.embeddings@).contains((document_id, chunk_id)) {
                let j = choose|j: int| 0 <= j < spec_keys(self.embeddings@).len() && spec_keys(self.embeddings@)[j] == (document_id, chunk_id);
                assert(spec_key(self.embeddings@[j]) == (document_id, chunk_id));
            }
        }
        None
    }

    proof fn lemma_index(&self, i: int)
        requires
            self.wf(),
            0 <= i < self.embeddings@.len(),
        ensures
            self@.contains_key(spec_key(self.embeddings@[i])),
            self@[spec_key(self.embeddings@[i])] == self.embeddings@[i]@,
    {
        let ks = spec_keys(self.embeddings@);
        let k = spec_key(self.embeddings@[i]);
        assert(ks[i] == k);
        assert(ks.contains(k));
        let j = ks.index_of(k);
        assert(ks[j] == k);
        assert(j == i);
    }

    /// Adds an embedding, replacing the one with its key.
    pub fn insert(&mut self, embedding: Embedding)
        ensures
            final(self)@ == old(self)@.insert((embedding.document_id, embedding.chunk_id), embedding@),
    {
        proof {
            use_type_invariant(&*self);
        }
        let ghost k = spec_key(embedding);
        let ghost old_es = self.embeddings@;
        match self.find(embedding.document_id, embedding.chunk_id) {
            Some(i) => {
                let ghost e = embedding@;
                proof {
                    assert(spec_keys(old_es.update(i as int, embedding)) =~= spec_keys(old_es));
                }
                let mut es: Vec<Embedding> = Vec::new();
                std::mem::swap(&mut es, &mut self.embeddings);
                es.set(i, embedding);
                self.embeddings = es;
                proof {
                    assert(spec_keys(old_es)[i as int] == k);
                    assert forall|kk: (i64, u32)| #[trigger] self@.contains_key(kk) == old(self)@.insert(k, e).contains_key(kk) by {
                        assert(spec_keys(self.embeddings@) == spec_keys(old_es));
                    }
                    assert forall|kk: (i64, u32)| self@.contains_key(kk) implies #[trigger] self@[kk] == old(self)@.insert(k, e)[kk] by {
                        let ks = spec_keys(self.embeddings@);
                        let j = ks.index_of(kk);
                        assert(ks[j] == kk);
                        if kk == k {
                            assert(ks[i as int] == k);
                            assert(j == i);
                        } else {
                            assert(j != i);
                            old(self).lemma_index(j);
                            assert(old_es[j] == self.embeddings@[j]);
                        }
                    }
                    assert(self@ =~= old(self)@.insert(k, e));
                }
            },
            None => {
                let ghost e = embedding@;
                let mut es: Vec<Embedding> = Vec::new();
                std::mem::swap(&mut es, &mut self.embeddings);
                es.push(embedding);
                assert(spec_keys(es@) =~= spec_keys(old_es).push(k));
                self.embeddings = es;
                proof {
                    let ks = spec_keys(self.embeddings@);
                    let oks = spec_keys(old_es);
                    assert(ks =~= oks.push(k));
                    assert(ks[oks.len() as int] == k);
                    assert forall|kk: (i64, u32)| #[trigger] self@.contains_key(kk) == old(self)@.insert(k, e).contains_key(kk) by {
                        if ks.contains(kk) {
                            let j = choose|j: int| 0 <= j < ks.len() && ks[j] == kk;
                            if j < oks.len() {
                                assert(oks[j] == kk);
                            }
                        }
                        if oks.contains(kk) {
                            let j = choose|j: int| 0 <= j < oks.len() && oks[j] == kk;
                            assert(ks[j] == kk);
                        }
                    }
                    assert forall|kk: (i64, u32)| self@.contains_key(kk) implies #[trigger] self@[kk] == old(self)@.insert(k, e)[kk] by {
                        let j = ks.index_of(kk);
                        assert(ks[j] == kk);
                        if kk == k {
                            assert(j == old_es.len());
                        } else {
                            assert(j < old_es.len());
                            old(self).lemma_index(j);
                            assert(old_es[j] == self.embeddings@[j]);
                        }
                    }
                    assert(self@ =~= old(self)@.insert(k, e));
                }
            },
        }
    }

    pub fn get(&self, document_id: i64, chunk_id: u32) -> (r: Option<&Embedding>)
        ensures
            match r {
                Some(e) => self@.contains_key((document_id, chunk_id)) && e@ == self@[(document_id, chunk_id)],
                None => !self@.contains_key((document_id, chunk_id)),
            },
    {
        proof {
            use_type_invariant(self);
        }
        match self.find(document_id, chunk_id) {
            Some(i) => {
                proof {
                    self.lemma_index(i as int);
                }
                Some(&self.embeddings[i])
            },
            None => None,
        }
    }

    pub fn remove(&mut self, document_id: i64, chunk_id: u32) -> (r: Option<Embedding>)
        ensures
            final(self)@ == old(self)@.remove((document_id, chunk_id)),
            old(self)@.dom().finite(),
            r is Some ==> final(self)@.dom().len() + 1 == old(self)@.dom().len(),
            match r {
                Some(e) => old(self)@.contains_key((document_id, chunk_id)) && e@ == old(self)@[(document_id, chunk_id)],
                None => !old(self)@.contains_key((document_id, chunk_id)),
            },
    {
        proof {
            use_type_invariant(&*self);
            self.lemma_len();
        }
        let ghost k = (document_id, chunk_id);
        let ghost old_es = self.embeddings@;
        match self.find(document_id, chunk_id) {
            Some(i) => {
                proof {
                    self.lemma_index(i as int);
                    assert(spec_keys(old_es.remove(i as int)) =~= spec_keys(old_es).remove(i as int));
                }
                let mut es: Vec<Embedding> = Vec::new();
                std::mem::swap(&mut es, &mut self.embeddings);
                let e = es.remove(i);
                proof {
                    let oks = spec_keys(old_es);
                    assert(spec_keys(es@) =~= oks.remove(i as int));
                    assert forall|a: int, b: int| 0 <= a < es@.len() && 0 <= b < es@.len() && a != b implies spec_keys(es@)[a] != spec_keys(es@)[b] by {
                        let a2 = if a < i { a } else { a + 1 };
                        let b2 = if b < i { b } else { b + 1 };
                        assert(spec_keys(es@)[a] == oks[a2]);
                        assert(spec_keys(es@)[b] == oks[b2]);
                    }
                }
                self.embeddings = es;
                proof {
                    let ks = spec_keys(self.embeddings@);
                    let oks = spec_keys(old_es);
                    assert(oks.no_duplicates());
                    assert(oks[i as int] == k);
                    assert forall|kk: (i64, u32)| #[trigger] self@.contains_key(kk) == old(self)@.remove(k).contains_key(kk) by {
                        if ks.contains(kk) {
                            let j = choose|j: int| 0 <= j < ks.len() && ks[j] == kk;
                            if j < i {
                                assert(oks[j] == kk);
                            } else {
                                assert(oks[j + 1] == kk);
                            }
                        }
                        if oks.contains(kk) && kk != k {
                            let j = choose|j: int| 0 <= j < oks.len() && oks[j] == kk;
                            assert(j != i);
                            if j < i {
                                assert(ks[j] == kk);
                            } else {
                                assert(ks[j - 1] == kk);
                            }
                        }
                    }
                    assert forall|kk: (i64, u32)| self@.contains_key(kk) implies #[trigger] self@[kk] == old(self)@.remove(k)[kk] by {
                        let j = ks.index_of(kk);
                        assert(ks[j] == kk);
                        if j < i {
                            old(self).lemma_index(j);
                            assert(old_es[j] == self.embeddings@[j]);
                        } else {
                            old(self).lemma_index(j + 1);
                            assert(old_es[j + 1] == self.embeddings@[j]);
                        }
                    }
                    assert(self@ =~= old(self)@.remove(k));
                    use_type_invariant(&*self);
                    self.lemma_len();
                }
                Some(e)
            },
            None => {
                assert(self@ =~= old(self)@.remove(k));
                None
            },
        }
    }

    pub fn len(&self) -> (n: usize)
        ensures
            n == self@.dom().len(),
            self@.dom().finite(),
    {
        proof {
            use_type_invariant(self);
            self.lemma_len();
        }
        self.embeddings.len()
    }

    pub fn is_empty(&self) -> (b: bool)
        ensures
            b == (self@.dom().len() == 0),
    {
        proof {
            use_type_invariant(self);
            self.lemma_len();
        }
        self.embeddings.len() == 0
    }

    proof fn lemma_len(&self)
        requires
            self.wf(),
        ensures
            self@.dom().len() == self.embeddings@.len(),
            self@.dom().finite(),
    {
        let ks = spec_keys(self.embeddings@);
        ks.unique_seq_to_set();
        assert(self@.dom() =~= ks.to_set());
    }

    /// Every embedding, each key once, in the store's order.
    pub fn iter(&self) -> (r: &[Embedding])
        ensures
            r@.map_values(|e: Embedding| e@) == self.entries(),
            r@.len() == self@.dom().len(),
            forall|i: int| 0 <= i < r@.len() ==> self@.contains_key(#[trigger] spec_key(r@[i])) && self@[spec_key(r@[i])] == r@[i]@,
            forall|k: (i64, u32)| #[trigger] self@.contains_key(k) ==> exists|i: int| 0 <= i < r@.len() && spec_key(r@[i]) == k,
            spec_keys(r@).no_duplicates(),
    {
        proof {
            use_type_invariant(self);
            self.lemma_len();
            assert forall|i: int| 0 <= i < self.embeddings@.len() implies self@.contains_key(#[trigger] spec_key(self.embeddings@[i]))
                && self@[spec_key(self.embeddings@[i])] == self.embeddings@[i]@ by {
                self.lemma_index(i);
            }
            assert forall|k: (i64, u32)| #[trigger] self@.contains_key(k) implies exists|i: int|
                0 <= i < self.embeddings@.len() && spec_key(self.embeddings@[i]) == k by {
                let ks = spec_keys(self.embeddings@);
                let j = choose|j: int| 0 <= j < ks.len() && ks[j] == k;
                assert(spec_key(self.embeddings@[j]) == k);
            }
        }
        self.embeddings.as_slice()
    }
}

impl Default for EmbeddingStore {
    fn default() -> (s: EmbeddingStore)
        ensures
            s@ == Map::<(i64, u32), EmbeddingView>::empty(),
    {
        EmbeddingStore::new()
    }
}

/// The magic bytes that open a serialized store: "TKVB".
pub open spec fn spec_store_magic() -> Seq<u8> {
    seq![0x54u8, 0x4bu8, 0x56u8, 0x42u8]
}

/// The little-endian bytes of the values, one after another.
pub open spec fn spec_vector_bytes(v: Seq<u64>) -> Seq<u8>
    decreases v.len(),
{
    if v.len() == 0 {
        seq![]
    } else {
        spec_vector_bytes(v.drop_last()) + spec_u64_to_le_bytes(v.last())
    }
}

/// The bytes of an embedding: document id, chunk id and source version,
/// the model id with its length, and the vector with its length.
pub open spec fn spec_embedding_bytes(e: EmbeddingView) -> Seq<u8> {
    spec_u64_to_le_bytes(e.document_id as u64) + spec_u32_to_le_bytes(e.chunk_id) + spec_u64_to_le_bytes(e.source_version)
        + spec_str_bytes(e.model_id) + spec_u32_to_le_bytes(e.vector.len() as u32) + spec_vector_bytes(e.vector)
}

/// The bytes of the embeddings, one after another.
pub open spec fn spec_embeddings_bytes(es: Seq<EmbeddingView>) -> Seq<u8>
    decreases es.len(),
{
    if es.len() == 0 {
        seq![]
    } else {
        spec_embeddings_bytes(es.drop_last()) + spec_embedding_bytes(es.last())
    }
}

/// The bytes of a store holding the embeddings: magic, version, count and
/// the embeddings.
pub open spec fn spec_store_bytes(es: Seq<EmbeddingView>) -> Seq<u8> {
    spec_store_magic() + spec_u32_to_le_bytes(VECTOR_DB_VERSION) + spec_u32_to_le_bytes(es.len() as u32)
        + spec_embeddings_bytes(es)
}

/// Reads `k` little-endian `u64` values from `pos`.
pub open spec fn spec_read_vector(b: Seq<u8>, pos: int, k: nat) -> Option<(Seq<u64>, int)>
    decreases k,
{
    if k == 0 {
        Some((seq![], pos))
    } else {
        match spec_read_vector(b, pos, (k - 1) as nat) {
            Some((v, p)) => if 0 <= p && p + 8 <= b.len() {
                Some((v.push(spec_u64_at(b, p)), p + 8))
            } else {
                None
            },
            None => None,
        }
    }
}

/// Reads an embedding at `pos`, giving it and the position after it;
/// `None` where the bytes run out or the model id is not UTF-8.
pub open spec fn spec_read_embedding(b: Seq<u8>, pos: int) -> Option<(EmbeddingView, int)> {
    if pos < 0 || pos + 20 > b.len() {
        None
    } else {
        match spec_read_str(b, pos + 20) {
            Some((model_id, p)) => if p + 4 > b.len() {
                None
            } else {
                match spec_read_vector(b, p + 4, spec_u32_at(b, p) as nat) {
                    Some((vector, q)) => Some((
                        EmbeddingView {
                            document_id: spec_u64_at(b, pos) as i64,
                            chunk_id: spec_u32_at(b, pos + 8),
                            source_version: spec_u64_at(b, pos + 12),
                            model_id,
                            vector,
                        },
                        q,
                    )),
                    None => None,
                }
            },
            None => None,
        }
    }
}

/// Reads `k` embeddings one after another from `pos`.
pub open spec fn spec_read_embeddings(b: Seq<u8>, pos: int, k: nat) -> Option<(Seq<EmbeddingView>, int)>
    decreases k,
{
    if k == 0 {
        Some((seq![], pos))
    } else {
        match spec_read_embeddings(b, pos, (k - 1) as nat) {
            Some((es, p)) => match spec_read_embedding(b, p) {
                Some((e, q)) => Some((es.push(e), q)),
                None => None,
            },
            None => None,
        }
    }
}

/// The embeddings that the bytes of a store hold; `None` without the magic
/// bytes, or where the bytes run out or a model id is not UTF-8.
pub open spec fn spec_read_store(b: Seq<u8>) -> Option<Seq<EmbeddingView>> {
    if b.len() < 12 || b.subrange(0, 4) != spec_store_magic() {
        None
    } else {
        match spec_read_embeddings(b, 12, spec_u32_at(b, 8) as nat) {
            Some((es, _)) => Some(es),
            None => None,
        }
    }
}

/// The store that holds the embeddings, a later one replacing an earlier
/// one with its key.
pub open spec fn spec_entries_map(es: Seq<EmbeddingView>) -> Map<(i64, u32), EmbeddingView>
    decreases es.len(),
{
    if es.len() == 0 {
        Map::empty()
    } else {
        spec_entries_map(es.drop_last()).insert((es.last().document_id, es.last().chunk_id), es.last())
    }
}

proof fn lemma_read_vector_fails(b: Seq<u8>, pos: int, k: nat, m: nat)
    requires
        spec_read_vector(b, pos, k) is None,
        k <= m,
    ensures
        spec_read_vector(b, pos, m) is None,
    decreases m - k,
{
    if k < m {
        lemma_read_vector_fails(b, pos, k + 1, m);
    }
}

proof fn lemma_read_embeddings_fails(b: Seq<u8>, pos: int, k: nat, m: nat)
    requires
        spec_read_embeddings(b, pos, k) is None,
        k <= m,
    ensures
        spec_read_embeddings(b, pos, m) is None,
    decreases m - k,
{
    if k < m {
        lemma_read_embeddings_fails(b, pos, k + 1, m);
    }
}

/// Appends the little-endian bytes of the values.
fn write_vector(v: &Vec<u64>, buf: &mut Vec<u8>)
    ensures
        final(buf)@ == old(buf)@ + spec_vector_bytes(v@),
{
    let mut i: usize = 0;
    while i < v.len()
        invariant
            i <= v@.len(),
            buf@ == old(buf)@ + spec_vector_bytes(v@.take(i as int)),
        decreases v@.len() - i,
    {
        assert(v@.take(i + 1).drop_last() =~= v@.take(i as int));
        write_u64(v[i], buf);
        i = i + 1;
    }
    assert(v@.take(i as int) =~= v@);
}

/// Reads an embedding at `pos`.
fn read_embedding_at(b: &[u8], pos: usize) -> (r: Option<(Embedding, usize)>)
    ensures
        match spec_read_embedding(b@, pos as int) {
            Some((e, p)) => r matches Some((e2, p2)) && e2@ == e && p2 == p,
            None => r is None,
        },
{
    if pos > b.len() || b.len() - pos < 20 {
        return None;
    }
    let document_id = read_u64(b, pos) as i64;
    let chunk_id = read_u32(b, pos + 8);
    let source_version = read_u64(b, pos + 12);
    let (model_id, p) = match read_str_at(b, pos + 20) {
        Some(x) => x,
        None => {
            return None;
        },
    };
    if b.len() - p < 4 {
        return None;
    }
    let n = read_u32(b, p);
    let mut q: usize = p + 4;
    let mut vector: Vec<u64> = Vec::new();
    let mut k: u32 = 0;
    while k < n
        invariant
            k <= n,
            0 <= pos,
            pos + 20 <= b@.len(),
            p + 4 <= b@.len(),
            n == spec_u32_at(b@, p as int),
            spec_read_str(b@, pos + 20) matches Some((mid, pp)) && mid == model_id@ && pp == p,
            spec_read_vector(b@, p + 4, k as nat) == Some((vector@, q as int)),
        decreases n - k,
    {
        assert(spec_read_vector(b@, p + 4, (k + 1) as nat) == (if q + 8 <= b@.len() {
            Some((vector@.push(spec_u64_at(b@, q as int)), q + 8))
        } else {
            None::<(Seq<u64>, int)>
        }));
        if q > b.len() || b.len() - q < 8 {
            proof {
                lemma_read_vector_fails(b@, p + 4, (k + 1) as nat, n as nat);
            }
            return None;
        }
        vector.push(read_u64(b, q));
        q = q + 8;
        k = k + 1;
    }
    Some((Embedding { document_id, chunk_id, source_version, model_id, vector }, q))
}

impl EmbeddingStore {
    /// The bytes of the store: its embeddings in the store's order.
    pub fn to_bytes(&self) -> (r: Vec<u8>)
        ensures
            r@ == spec_store_bytes(self.entries()),
            spec_entries_map(self.entries()) == self@,
            self.entries().len() == self@.dom().len(),
    {
        proof {
            use_type_invariant(self);
            self.lemma_len();
            lemma_entries_map(self.embeddings@);
        }
        let ghost es = self.entries();
        let mut buf: Vec<u8> = Vec::new();
        buf.push(0x54u8);
        buf.push(0x4bu8);
        buf.push(0x56u8);
        buf.push(0x42u8);
        write_u32(VECTOR_DB_VERSION, &mut buf);
        write_u32(self.embeddings.len() as u32, &mut buf);
        let ghost head = buf@;
        let mut i: usize = 0;
        while i < self.embeddings.len()
            invariant
                es == self.entries(),
                es.len() == self.embeddings@.len(),
                i <= es.len(),
                buf@ == head + spec_embeddings_bytes(es.take(i as int)),
            decreases es.len() - i,
        {
            let e = &self.embeddings[i];
            assert(es[i as int] == e@);
            assert(es.take(i + 1).drop_last() =~= es.take(i as int));
            let ghost before = buf@;
            write_u64(e.document_id as u64, &mut buf);
            write_u32(e.chunk_id, &mut buf);
            write_u64(e.source_version, &mut buf);
            write_str(e.model_id.as_str(), &mut buf);
            write_u32(e.vector.len() as u32, &mut buf);
            write_vector(&e.vector, &mut buf);
            assert(buf@ =~= before + spec_embedding_bytes(e@));
            i = i + 1;
        }
        assert(es.take(i as int) =~= es);
        assert(buf@ =~= spec_store_bytes(es));
        buf
    }

    /// The store that `bytes` hold; `None` without the magic bytes, or
    /// where the bytes run out or a model id is not UTF-8.
    pub fn from_bytes(bytes: &[u8]) -> (r: Option<EmbeddingStore>)
        ensures
            match spec_read_store(bytes@) {
                Some(es) => r matches Some(s) && s@ == spec_entries_map(es),
                None => r is None,
            },
    {
        if bytes.len() < 12 || bytes[0] != 0x54u8 || bytes[1] != 0x4bu8 || bytes[2] != 0x56u8 || bytes[3] != 0x42u8 {
            proof {
                if bytes@.len() >= 12 {
                    assert(bytes@.subrange(0, 4) != spec_store_magic()) by {
                        if bytes@.subrange(0, 4) == spec_store_magic() {
                            assert(bytes@.subrange(0, 4)[0] == bytes@[0]);
                            assert(bytes@.subrange(0, 4)[1] == bytes@[1]);
                            assert(bytes@.subrange(0, 4)[2] == bytes@[2]);
                            assert(bytes@.subrange(0, 4)[3] == bytes@[3]);
                        }
                    }
                }
            }
            return None;
        }
        assert(bytes@.subrange(0, 4) =~= spec_store_magic());
        let count = read_u32(bytes, 8);
        let mut pos: usize = 12;
        let mut store = EmbeddingStore::new();
        let ghost mut es: Seq<EmbeddingView> = seq![];
        let mut k: u32 = 0;
        while k < count
            invariant
                k <= count,
                count == spec_u32_at(bytes@, 8),
                spec_read_embeddings(bytes@, 12, k as nat) == Some((es, pos as int)),
                store@ == spec_entries_map(es),
            decreases count - k,
        {
            assert(spec_read_embeddings(bytes@, 12, (k + 1) as nat) == match spec_read_embedding(bytes@, pos as int) {
                Some((e, q)) => Some((es.push(e), q)),
                None => None::<(Seq<EmbeddingView>, int)>,
            });
            match read_embedding_at(bytes, pos) {
                Some((e, p)) => {
                    proof {
                        assert(es.push(e@).drop_last() =~= es);
                        es = es.push(e@);
                    }
                    store.insert(e);
                    pos = p;
                },
                None => {
                    proof {
                        lemma_read_embeddings_fails(bytes@, 12, (k + 1) as nat, count as nat);
                    }
                    return None;
                },
            }
            k = k + 1;
        }
        Some(store)
    }
}

/// The map of a sequence of embeddings with distinct keys is the map that
/// inserting them one by one gives.
proof fn lemma_entries_map(es: Seq<Embedding>)
    requires
        spec_keys(es).no_duplicates(),
    ensures
        spec_entries_map(es.map_values(|e: Embedding| e@)) == Map::new(
            |k: (i64, u32)| spec_keys(es).contains(k),
            |k: (i64, u32)| es[spec_keys(es).index_of(k)]@,
        ),
    decreases es.len(),
{
    let m = Map::new(|k: (i64, u32)| spec_keys(es).contains(k), |k: (i64, u32)| es[spec_keys(es).index_of(k)]@);
    if es.len() == 0 {
        assert(m =~= Map::empty());
    } else {
        let init = es.drop_last();
        let ks = spec_keys(es);
        let iks = spec_keys(init);
        assert(iks =~= ks.drop_last());
        assert(iks.no_duplicates());
        lemma_entries_map(init);
        assert(es.map_values(|e: Embedding| e@).drop_last() =~= init.map_values(|e: Embedding| e@));
        let last = es.last();
        let k = spec_key(last);
        assert(ks[es.len() - 1] == k);
        let mi = Map::new(|kk: (i64, u32)| iks.contains(kk), |kk: (i64, u32)| init[iks.index_of(kk)]@);
        assert forall|kk: (i64, u32)| #[trigger] m.contains_key(kk) == mi.insert(k, last@).contains_key(kk) by {
            if ks.contains(kk) && kk != k {
                let j = choose|j: int| 0 <= j < ks.len() && ks[j] == kk;
                assert(j < es.len() - 1);
                assert(iks[j] == kk);
            }
            if iks.contains(kk) {
                let j = choose|j: int| 0 <= j < iks.len() && iks[j] == kk;
                assert(ks[j] == kk);
            }
        }
        assert forall|kk: (i64, u32)| m.contains_key(kk) implies #[trigger] m[kk] == mi.insert(k, last@)[kk] by {
            let j = ks.index_of(kk);
            assert(ks[j] == kk);
            if kk == k {
                assert(j == es.len() - 1);
            } else {
                assert(j < es.len() - 1);
                assert(iks[j] == kk);
                assert(iks.contains(kk));
                let j2 = iks.index_of(kk);
                assert(iks[j2] == kk);
                assert(ks[j2] == kk);
                assert(j2 == j);
                assert(init[j] == es[j]);
            }
        }
        assert(m =~= mi.insert(k, last@));
    }
}

proof fn lemma_read_vector(v: Seq<u64>, pre: Seq<u8>, rest: Seq<u8>)
    ensures
        spec_read_vector(pre + spec_vector_bytes(v) + rest, pre.len() as int, v.len()) == Some((
            v,
            (pre.len() + spec_vector_bytes(v).len()) as int,
        )),
    decreases v.len(),
{
    if v.len() > 0 {
        let init = v.drop_last();
        let b = pre + spec_vector_bytes(v) + rest;
        lemma_le_lens(v.last(), 0, 0);
        assert(b =~= pre + spec_vector_bytes(init) + (spec_u64_to_le_bytes(v.last()) + rest));
        lemma_read_vector(init, pre, spec_u64_to_le_bytes(v.last()) + rest);
        assert(b =~= (pre + spec_vector_bytes(init)) + spec_u64_to_le_bytes(v.last()) + rest);
        lemma_u64_between(v.last(), pre + spec_vector_bytes(init), rest);
        assert(init.push(v.last()) =~= v);
    }
}

/// Whether an embedding's lengths fit the `u32` length fields.
pub open spec fn spec_fits(e: EmbeddingView) -> bool {
    encode_utf8(e.model_id).len() <= u32::MAX && e.vector.len() <= u32::MAX
}

proof fn lemma_read_embedding(e: EmbeddingView, pre: Seq<u8>, rest: Seq<u8>)
    requires
        spec_fits(e),
    ensures
        spec_read_embedding(pre + spec_embedding_bytes(e) + rest, pre.len() as int) == Some((
            e,
            (pre.len() + spec_embedding_bytes(e).len()) as int,
        )),
{
    let b = pre + spec_embedding_bytes(e) + rest;
    let p0 = pre.len() as int;
    let d = spec_u64_to_le_bytes(e.document_id as u64);
    let c = spec_u32_to_le_bytes(e.chunk_id);
    let v = spec_u64_to_le_bytes(e.source_version);
    let m = spec_str_bytes(e.model_id);
    let n = spec_u32_to_le_bytes(e.vector.len() as u32);
    let vb = spec_vector_bytes(e.vector);
    lemma_le_lens(e.document_id as u64, e.chunk_id, 0);
    lemma_le_lens(e.source_version, e.vector.len() as u32, 0);
    assert(b =~= pre + d + (c + v + m + n + vb + rest));
    lemma_u64_between(e.document_id as u64, pre, c + v + m + n + vb + rest);
    lemma_i64_u64_cast(e.document_id);
    assert(b =~= (pre + d) + c + (v + m + n + vb + rest));
    lemma_u32_between(e.chunk_id, pre + d, v + m + n + vb + rest);
    assert(b =~= (pre + d + c) + v + (m + n + vb + rest));
    lemma_u64_between(e.source_version, pre + d + c, m + n + vb + rest);
    assert(b =~= (pre + d + c + v) + m + (n + vb + rest));
    lemma_read_str(e.model_id, pre + d + c + v, n + vb + rest);
    assert(b =~= (pre + d + c + v + m) + n + (vb + rest));
    lemma_u32_between(e.vector.len() as u32, pre + d + c + v + m, vb + rest);
    assert(b =~= (pre + d + c + v + m + n) + vb + rest);
    lemma_read_vector(e.vector, pre + d + c + v + m + n, rest);
}

proof fn lemma_read_embeddings(es: Seq<EmbeddingView>, pre: Seq<u8>, rest: Seq<u8>)
    requires
        forall|i: int| 0 <= i < es.len() ==> spec_fits(#[trigger] es[i]),
    ensures
        spec_read_embeddings(pre + spec_embeddings_bytes(es) + rest, pre.len() as int, es.len()) == Some((
            es,
            (pre.len() + spec_embeddings_bytes(es).len()) as int,
        )),
    decreases es.len(),
{
    if es.len() > 0 {
        let init = es.drop_last();
        let last = es.last();
        assert(last == es[es.len() - 1]);
        assert forall|i: int| 0 <= i < init.len() implies spec_fits(#[trigger] init[i]) by {
            assert(init[i] == es[i]);
        }
        let b = pre + spec_embeddings_bytes(es) + rest;
        assert(b =~= pre + spec_embeddings_bytes(init) + (spec_embedding_bytes(last) + rest));
        lemma_read_embeddings(init, pre, spec_embedding_bytes(last) + rest);
        assert(b =~= (pre + spec_embeddings_bytes(init)) + spec_embedding_bytes(last) + rest);
        lemma_read_embedding(last, pre + spec_embeddings_bytes(init), rest);
        assert(init.push(last) =~= es);
    }
}

/// Reading the bytes of a store gives back its embeddings, in order,
/// where there are fewer than 2^32 of them and each model id and vector
/// fits its `u32` length.
pub proof fn lemma_store_roundtrip(es: Seq<EmbeddingView>)
    requires
        es.len() <= u32::MAX,
        forall|i: int| 0 <= i < es.len() ==> spec_fits(#[trigger] es[i]),
    ensures
        spec_read_store(spec_store_bytes(es)) == Some(es),
{
    let b = spec_store_bytes(es);
    let head = spec_store_magic() + spec_u32_to_le_bytes(VECTOR_DB_VERSION) + spec_u32_to_le_bytes(es.len() as u32);
    lemma_le_lens(0, VECTOR_DB_VERSION, 0);
    lemma_le_lens(0, es.len() as u32, 0);
    assert(b.subrange(0, 4) =~= spec_store_magic());
    assert(b =~= (spec_store_magic() + spec_u32_to_le_bytes(VECTOR_DB_VERSION)) + spec_u32_to_le_bytes(es.len() as u32)
        + spec_embeddings_bytes(es));
    lemma_u32_between(es.len() as u32, spec_store_magic() + spec_u32_to_le_bytes(VECTOR_DB_VERSION), spec_embeddings_bytes(es));
    lemma_read_embeddings(es, head, Seq::<u8>::empty());
    assert(head + spec_embeddings_bytes(es) + Seq::<u8>::empty() =~= b);
}

} // verus!
