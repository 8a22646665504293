//! A size-bounded cache of encoded chunks, keyed by blob, column and chunk.
use vstd::prelude::*;
use crate::storage::chunk::{ChunkMeta, EncodedChunk};

verus! {

/// Which cached chunk makes room when the cache is full.
#[derive(Debug, Clone, Copy, PartialEq, Eq, Structural)]
pub enum EvictionPolicy {
    /// The chunk used least recently.
    LRU,
    /// The chunk used least often; of those, the one used least recently.
    LFU,
}

/// A cached chunk as plain values: its key, the chunk and how often it was
/// used since it was stored.
pub struct CachedChunk {
    pub blob_id: Seq<char>,
    pub col_idx: u32,
    pub chunk_idx: u32,
    pub meta: ChunkMeta,
    pub data: Seq<u8>,
    pub hits: u64,
}

/// The key of a cached chunk.
pub open spec fn spec_key(c: CachedChunk) -> (Seq<char>, u32, u32) {
    (c.blob_id, c.col_idx, c.chunk_idx)
}

/// The keys of `cs`, in order.
pub open spec fn spec_cache_keys(cs: Seq<CachedChunk>) -> Seq<(Seq<char>, u32, u32)> {
    cs.map_values(|c: CachedChunk| spec_key(c))
}

/// The size a chunk is charged with.
pub open spec fn spec_size(c: CachedChunk) -> int {
    c.meta.compressed_size as int
}

/// The position of the first chunk used least often.
pub open spec fn spec_least_used(cs: Seq<CachedChunk>) -> int
    decreases cs.len(),
{
    if cs.len() <= 1 {
        0
    } else {
        let rest = spec_least_used(cs.drop_last());
        if cs.last().hits < cs[rest].hits {
            cs.len() - 1
        } else {
            rest
        }
    }
}

/// The chunk used least often is one of the chunks, none is used less
/// often, and every chunk before it is used more often: of the chunks used
/// least often, it is the one used least recently.
pub proof fn lemma_least_used_is_least(cs: Seq<CachedChunk>)
    requires
        cs.len() > 0,
    ensures
        0 <= spec_least_used(cs) < cs.len(),
        forall|j: int| 0 <= j < cs.len() ==> cs[spec_least_used(cs)].hits <= (#[trigger] cs[j]).hits,
        forall|j: int| 0 <= j < spec_least_used(cs) ==> cs[spec_least_used(cs)].hits < (#[trigger] cs[j]).hits,
    decreases cs.len(),
{
    if cs.len() > 1 {
        let d = cs.drop_last();
        lemma_least_used_is_least(d);
        let rest = spec_least_used(d);
        assert(d[rest] == cs[rest]);
        assert forall|j: int| 0 <= j < cs.len() - 1 implies #[trigger] cs[j] == d[j] by {}
    }
}

/// The chunk that eviction takes: under `LRU` the one used least recently,
/// the first held; under `LFU` one with the fewest uses of all cached
/// chunks, and of those the one used least recently.
pub proof fn lemma_victim_choice(cs: Seq<CachedChunk>, policy: EvictionPolicy)
    requires
        cs.len() > 0,
    ensures
        0 <= spec_victim(cs, policy) < cs.len(),
        policy == EvictionPolicy::LRU ==> spec_victim(cs, policy) == 0,
        policy == EvictionPolicy::LFU ==> forall|j: int|
            0 <= j < cs.len() ==> cs[spec_victim(cs, policy)].hits <= (#[trigger] cs[j]).hits,
        policy == EvictionPolicy::LFU ==> forall|j: int|
            0 <= j < spec_victim(cs, policy) ==> cs[spec_victim(cs, policy)].hits < (#[trigger] cs[j]).hits,
{
    lemma_least_used_is_least(cs);
}

/// The position of the chunk that `policy` evicts; chunks are held from
/// the least recently used to the most recently used.
pub open spec fn spec_victim(cs: Seq<CachedChunk>, policy: EvictionPolicy) -> int {
    match policy {
        EvictionPolicy::LRU => 0,
        EvictionPolicy::LFU => spec_least_used(cs),
    }
}

/// The chunks and the charged size left after evicting until `need` more
/// fits under `max_size` or nothing is left; `None` where an eviction
/// would take the charged size below zero.
pub open spec fn spec_evict(
    cs: Seq<CachedChunk>,
    size: int,
    need: int,
    max_size: int,
    policy: EvictionPolicy,
) -> Option<(Seq<CachedChunk>, int)>
    decreases cs.len(),
{
    if size + need > max_size && cs.len() > 0 {
        let v = spec_victim(cs, policy);
        if 0 <= v < cs.len() && size >= spec_size(cs[v]) {
            spec_evict(cs.remove(v), size - spec_size(cs[v]), need, max_size, policy)
        } else {
            None
        }
    } else {
        Some((cs, size))
    }
}

/// The sizes of the chunks, summed.
pub open spec fn spec_charged(cs: Seq<CachedChunk>) -> int
    decreases cs.len(),
{
    if cs.len() == 0 {
        0
    } else {
        spec_charged(cs.drop_last()) + spec_size(cs.last())
    }
}

/// Chunks are charged at least nothing, and at least the size of each.
proof fn lemma_charged_bounds(cs: Seq<CachedChunk>)
    ensures
        spec_charged(cs) >= 0,
        forall|i: int| 0 <= i < cs.len() ==> spec_charged(cs) >= spec_size(#[trigger] cs[i]),
    decreases cs.len(),
{
    if cs.len() > 0 {
        lemma_charged_bounds(cs.drop_last());
        assert forall|i: int| 0 <= i < cs.len() implies spec_charged(cs) >= spec_size(#[trigger] cs[i]) by {
            if i < cs.len() - 1 {
                assert(cs.drop_last()[i] == cs[i]);
            }
        }
    }
}

/// Removing a chunk takes its size off the sum.
proof fn lemma_charged_remove(cs: Seq<CachedChunk>, i: int)
    requires
        0 <= i < cs.len(),
    ensures
        spec_charged(cs.remove(i)) == spec_charged(cs) - spec_size(cs[i]),
    decreases cs.len(),
{
    if i == cs.len() - 1 {
        assert(cs.remove(i) =~= cs.drop_last());
    } else {
        lemma_charged_remove(cs.drop_last(), i);
        assert(cs.remove(i).drop_last() =~= cs.drop_last().remove(i));
        assert(cs.remove(i).last() == cs.last());
        assert(cs.drop_last()[i] == cs[i]);
    }
}

/// Adding a chunk adds its size to the sum.
proof fn lemma_charged_push(cs: Seq<CachedChunk>, c: CachedChunk)
    ensures
        spec_charged(cs.push(c)) == spec_charged(cs) + spec_size(c),
{
    assert(cs.push(c).drop_last() =~= cs);
}

/// The chunk used least often is one of the chunks.
proof fn lemma_least_used_in_range(cs: Seq<CachedChunk>)
    requires
        cs.len() > 0,
    ensures
        0 <= spec_least_used(cs) < cs.len(),
    decreases cs.len(),
{
    if cs.len() > 1 {
        lemma_least_used_in_range(cs.drop_last());
    }
}

/// Where the charged size covers the sizes of the chunks, eviction never
/// takes it below zero, and what is left still covers what stays.
pub proof fn lemma_evict_covered(cs: Seq<CachedChunk>, size: int, need: int, max_size: int, policy: EvictionPolicy)
    requires
        size >= spec_charged(cs),
    ensures
        spec_evict(cs, size, need, max_size, policy) matches Some((left, s)) && s >= spec_charged(left),
    decreases cs.len(),
{
    lemma_charged_bounds(cs);
    if size + need > max_size && cs.len() > 0 {
        let v = spec_victim(cs, policy);
        if policy == EvictionPolicy::LFU {
            lemma_least_used_in_range(cs);
        }
        lemma_charged_remove(cs, v);
        lemma_evict_covered(cs.remove(v), size - spec_size(cs[v]), need, max_size, policy);
    }
}

struct CacheEntry {
    blob_id: String,
    col_idx: u32,
    chunk_idx: u32,
    chunk: EncodedChunk,
    hit_count: u64,
}

/// An entry as plain values.
spec fn entry_view(e: CacheEntry) -> CachedChunk {
    CachedChunk {
        blob_id: e.blob_id@,
        col_idx: e.col_idx,
        chunk_idx: e.chunk_idx,
        meta: e.chunk.meta,
        data: e.chunk.data@,
        hits: e.hit_count,
    }
}

spec fn entries_view(es: Seq<CacheEntry>) -> Seq<CachedChunk> {
    es.map_values(|e: CacheEntry| entry_view(e))
}

/// Encoded chunks up to a total size, from the least recently used to the
/// most recently used.
///
/// The entries are a `Vec` with distinct keys, which also keeps the order
/// of use: vstd specifies `HashMap` only for keys with a key model
/// (integers, `bool`, and boxes of them), and the key here is a string with
/// two integers.
pub struct DataCache {
    max_size: usize,
    policy: EvictionPolicy,
    entries: Vec<CacheEntry>,
    current_size: usize,
}

/// The first chunk used least often.
fn least_used(entries: &Vec<CacheEntry>) -> (r: usize)
    requires
        entries.len() > 0,
    ensures
        r == spec_least_used(entries_view(entries@)),
        r < entries.len(),
{
    let ghost cs = entries_view(entries@);
    let mut best: usize = 0;
    let mut i: usize = 1;
    while i < entries.len()
        invariant
            1 <= i <= entries.len(),
            cs == entries_view(entries@),
            best < i,
            best == spec_least_used(cs.take(i as int)),
        decreases entries.len() - i,
    {
        proof {
            assert(cs.take(i + 1).drop_last() =~= cs.take(i as int));
            assert(cs.take(i + 1).last() == cs[i as int]);
            assert(cs.take(i as int)[best as int] == cs[best as int]);
        }
        if entries[i].hit_count < entries[best].hit_count {
            best = i;
        }
        i = i + 1;
    }
    assert(cs.take(i as int) =~= cs);
    best
}

/// The position of the entry under the key, if there is one.
fn find_entry(entries: &Vec<CacheEntry>, blob_id: &str, col_idx: u32, chunk_idx: u32) -> (r: Option<usize>)
    ensures
        match r {
            Some(i) => i < entries@.len() && spec_key(entries_view(entries@)[i as int]) == (blob_id@, col_idx, chunk_idx),
            None => !spec_cache_keys(entries_view(entries@)).contains((blob_id@, col_idx, chunk_idx)),
        },
{
    let wanted = blob_id.to_owned();
    let ghost cs = entries_view(entries@);
    let mut i: usize = 0;
    while i < entries.len()
        invariant
            i <= entries@.len(),
            cs == entries_view(entries@),
            wanted@ == blob_id@,
            forall|j: int| 0 <= j < i ==> spec_key(cs[j]) != (blob_id@, col_idx, chunk_idx),
        decreases entries@.len() - i,
    {
        let e = &entries[i];
        if e.blob_id == wanted && e.col_idx == col_idx && e.chunk_idx == chunk_idx {
            return Some(i);
        }
        i = i + 1;
    }
    proof {
        let ks = spec_cache_keys(cs);
        assert forall|j: int| 0 <= j < ks.len() implies ks[j] != (blob_id@, col_idx, chunk_idx) by {
            assert(ks[j] == spec_key(cs[j]));
        }
    }
    None
}

impl DataCache {
    #[verifier::type_invariant]
    spec fn keys_distinct(self) -> bool {
        spec_cache_keys(entries_view(self.entries@)).no_duplicates()
    }

    /// The cached chunks, from the least recently used to the most recently
    /// used.
    pub closed spec fn chunks(&self) -> Seq<CachedChunk> {
        entries_view(self.entries@)
    }

    /// The size the cached chunks are charged with.
    pub closed spec fn size(&self) -> nat {
        self.current_size as nat
    }

    /// The size above which chunks are evicted.
    pub closed spec fn max_size(&self) -> nat {
        self.max_size as nat
    }

    /// The policy that chooses which chunk is evicted.
    pub closed spec fn policy(&self) -> EvictionPolicy {
        self.policy
    }

    pub fn new(max_size: usize, policy: EvictionPolicy) -> (c: DataCache)
        ensures
            c.chunks() == Seq::<CachedChunk>::empty(),
            c.size() == 0,
            c.max_size() == max_size,
            c.policy() == policy,
    {
        let c = DataCache { max_size, policy, entries: Vec::new(), current_size: 0 };
        assert(c.chunks() =~= Seq::<CachedChunk>::empty());
        c
    }

    /// The position of the chunk under the key, if it is cached.
    fn position(&self, blob_id: &str, col_idx: u32, chunk_idx: u32) -> (r: Option<usize>)
        ensures
            match r {
                Some(i) => i < self.chunks().len() && spec_key(self.chunks()[i as int]) == (blob_id@, col_idx, chunk_idx),
                None => !spec_cache_keys(self.chunks()).contains((blob_id@, col_idx, chunk_idx)),
            },
    {
        find_entry(&self.entries, blob_id, col_idx, chunk_idx)
    }

    /// The chunk under the key, if it is cached; a hit counts as a use and
    /// makes it the most recently used.
    pub fn get(&mut self, blob_id: &str, col_idx: u32, chunk_idx: u32) -> (r: Option<EncodedChunk>)
        requires
            forall|i: int|
                0 <= i < old(self).chunks().len() ==> (#[trigger] old(self).chunks()[i]).hits < u64::MAX,
        ensures
            final(self).size() == old(self).size(),
            final(self).max_size() == old(self).max_size(),
            final(self).policy() == old(self).policy(),
            spec_charged(final(self).chunks()) == spec_charged(old(self).chunks()),
            match r {
                Some(c) => {
                    let k = spec_cache_keys(old(self).chunks()).index_of((blob_id@, col_idx, chunk_idx));
                    let e = old(self).chunks()[k];
                    &&& spec_cache_keys(old(self).chunks()).contains((blob_id@, col_idx, chunk_idx))
                    &&& c.meta == e.meta
                    &&& c.data@ == e.data
                    &&& final(self).chunks() == old(self).chunks().remove(k).push(CachedChunk { hits: (e.hits + 1) as u64, ..e })
                },
                None => !spec_cache_keys(old(self).chunks()).contains((blob_id@, col_idx, chunk_idx))
                    && final(self).chunks() == old(self).chunks(),
            },
    {
        proof {
            use_type_invariant(&*self);
        }
        let ghost cs = self.chunks();
        match self.position(blob_id, col_idx, chunk_idx) {
            None => None,
            Some(i) => {
                let mut entries: Vec<CacheEntry> = Vec::new();
                std::mem::swap(&mut entries, &mut self.entries);
                let mut entry = entries.remove(i);
                entry.hit_count = entry.hit_count + 1;
                let chunk = entry.chunk.clone();
                let ghost e = cs[i as int];
                let ghost rest = entries_view(entries@);
                proof {
                    assert(rest =~= cs.remove(i as int));
                    let ks = spec_cache_keys(cs);
                    assert(ks[i as int] == (blob_id@, col_idx, chunk_idx));
                    assert(ks.index_of((blob_id@, col_idx, chunk_idx)) == i as int);
                }
                entries.push(entry);
                proof {
                    let now = entries_view(entries@);
                    assert(now =~= rest.push(CachedChunk { hits: (e.hits + 1) as u64, ..e }));
                    lemma_charged_remove(cs, i as int);
                    lemma_charged_push(rest, CachedChunk { hits: (e.hits + 1) as u64, ..e });
                    let ks = spec_cache_keys(cs);
                    let ks2 = spec_cache_keys(now);
                    assert(spec_cache_keys(rest) =~= ks.remove(i as int));
                    assert(ks2 =~= spec_cache_keys(rest).push(ks[i as int]));
                    assert forall|a: int, b: int| 0 <= a < ks2.len() && 0 <= b < ks2.len() && a != b implies ks2[a]
                        != ks2[b] by {
                        let ia = if a < i { a } else if a < ks2.len() - 1 { a + 1 } else { i as int };
                        let ib = if b < i { b } else if b < ks2.len() - 1 { b + 1 } else { i as int };
                        assert(ks2[a] == ks[ia]);
                        assert(ks2[b] == ks[ib]);
                    }
                }
                self.entries = entries;
                Some(chunk)
            },
        }
    }

    /// Stores `chunk` under the key. First, while the charged size and the
    /// chunk's size together exceed the maximum and something is cached, the
    /// policy's chunk is evicted. The chunk then becomes the most recently
    /// used, with one use; the charged size grows by the chunk's size unless
    /// the key was still cached. While the charged size covers the sizes of
    /// the cached chunks, which holds from `new` on unless a cached key is
    /// stored again with a larger chunk, the eviction cannot fail
    /// (`lemma_evict_covered`) and the cover is kept.
    pub fn insert(&mut self, blob_id: &str, col_idx: u32, chunk_idx: u32, chunk: EncodedChunk)
        requires
            chunk.meta.compressed_size <= usize::MAX,
            old(self).size() + chunk.meta.compressed_size <= usize::MAX,
            spec_evict(
                old(self).chunks(),
                old(self).size() as int,
                chunk.meta.compressed_size as int,
                old(self).max_size() as int,
                old(self).policy(),
            ) is Some,
        ensures
            final(self).max_size() == old(self).max_size(),
            final(self).policy() == old(self).policy(),
            ({
                let (left, size) = spec_evict(
                    old(self).chunks(),
                    old(self).size() as int,
                    chunk.meta.compressed_size as int,
                    old(self).max_size() as int,
                    old(self).policy(),
                )->0;
                let key = (blob_id@, col_idx, chunk_idx);
                let c = CachedChunk {
                    blob_id: blob_id@,
                    col_idx,
                    chunk_idx,
                    meta: chunk.meta,
                    data: chunk.data@,
                    hits: 1,
                };
                &&& if spec_cache_keys(left).contains(key) {
                    &&& final(self).chunks() == left.remove(spec_cache_keys(left).index_of(key)).push(c)
                    &&& final(self).size() == size
                } else {
                    &&& final(self).chunks() == left.push(c)
                    &&& final(self).size() == size + chunk.meta.compressed_size
                }
                &&& old(self).size() >= spec_charged(old(self).chunks()) && (spec_cache_keys(left).contains(key)
                    ==> chunk.meta.compressed_size <= spec_size(left[spec_cache_keys(left).index_of(key)]))
                    ==> final(self).size() >= spec_charged(final(self).chunks())
            }),
    {
        proof {
            use_type_invariant(&*self);
        }
        let size = chunk.meta.compressed_size as usize;
        let ghost need = size as int;
        let ghost max = self.max_size as int;
        let ghost policy = self.policy;
        let ghost goal = spec_evict(self.chunks(), self.current_size as int, need, max, policy);
        let mut entries: Vec<CacheEntry> = Vec::new();
        std::mem::swap(&mut entries, &mut self.entries);
        let mut current = self.current_size;
        while current + size > self.max_size && entries.len() > 0
            invariant
                size as int == need,
                self.max_size as int == max,
                self.policy == policy,
                spec_evict(entries_view(entries@), current as int, need, max, policy) == goal,
                goal is Some,
                current + size <= usize::MAX,
                spec_cache_keys(entries_view(entries@)).no_duplicates(),
            decreases entries.len(),
        {
            let ghost cs = entries_view(entries@);
            let v = match self.policy {
                EvictionPolicy::LRU => 0,
                EvictionPolicy::LFU => least_used(&entries),
            };
            let victim = entries.remove(v);
            proof {
                assert(entries_view(entries@) =~= cs.remove(v as int));
                let ks = spec_cache_keys(cs);
                let ks2 = spec_cache_keys(entries_view(entries@));
                assert(ks2 =~= ks.remove(v as int));
                assert forall|a: int, b: int| 0 <= a < ks2.len() && 0 <= b < ks2.len() && a != b implies ks2[a]
                    != ks2[b] by {
                    let ia = if a < v { a } else { a + 1 };
                    let ib = if b < v { b } else { b + 1 };
                    assert(ks2[a] == ks[ia]);
                    assert(ks2[b] == ks[ib]);
                }
            }
            current = current - victim.chunk.meta.compressed_size as usize;
        }
        let ghost left = entries_view(entries@);
        assert(goal == Some((left, current as int)));
        proof {
            if old(self).size() >= spec_charged(old(self).chunks()) {
                lemma_evict_covered(old(self).chunks(), old(self).size() as int, need, max, policy);
            }
        }
        let ghost key = (blob_id@, col_idx, chunk_idx);
        let found = find_entry(&entries, blob_id, col_idx, chunk_idx);
        let ks = Ghost(spec_cache_keys(left));
        let c = CacheEntry { blob_id: blob_id.to_owned(), col_idx, chunk_idx, chunk, hit_count: 1 };
        let ghost cv = entry_view(c);
        match found {
            Some(j) => {
                proof {
                    assert(ks@[j as int] == key);
                    assert(ks@.index_of(key) == j as int);
                }
                entries.remove(j);
                proof {
                    assert(entries_view(entries@) =~= left.remove(j as int));
                    assert(spec_cache_keys(entries_view(entries@)) =~= ks@.remove(j as int));
                }
                let ghost rest = entries_view(entries@);
                entries.push(c);
                proof {
                    assert(entries_view(entries@) =~= rest.push(cv));
                    lemma_charged_remove(left, j as int);
                    lemma_charged_push(rest, cv);
                    let ks2 = spec_cache_keys(entries_view(entries@));
                    assert(ks2 =~= ks@.remove(j as int).push(key));
                    assert forall|a: int, b: int| 0 <= a < ks2.len() && 0 <= b < ks2.len() && a != b implies ks2[a]
                        != ks2[b] by {
                        let ia = if a < j { a } else if a < ks2.len() - 1 { a + 1 } else { j as int };
                        let ib = if b < j { b } else if b < ks2.len() - 1 { b + 1 } else { j as int };
                        assert(ks2[a] == ks@[ia]);
                        assert(ks2[b] == ks@[ib]);
                    }
                }
            },
            None => {
                proof {
                    assert(!ks@.contains(key));
                }
                current = current + size;
                entries.push(c);
                proof {
                    assert(entries_view(entries@) =~= left.push(cv));
                    lemma_charged_push(left, cv);
                    let ks2 = spec_cache_keys(entries_view(entries@));
                    assert(ks2 =~= ks@.push(key));
                    assert forall|a: int, b: int| 0 <= a < ks2.len() && 0 <= b < ks2.len() && a != b implies ks2[a]
                        != ks2[b] by {
                        if a == ks2.len() - 1 {
                            assert(ks@[b] == ks2[b]);
                        } else if b == ks2.len() - 1 {
                            assert(ks@[a] == ks2[a]);
                        }
                    }
                }
            },
        }
        self.entries = entries;
        self.current_size = current;
    }

    /// Drops every cached chunk.
    pub fn clear(&mut self)
        ensures
            final(self).chunks() == Seq::<CachedChunk>::empty(),
            final(self).size() == 0,
            final(self).max_size() == old(self).max_size(),
            final(self).policy() == old(self).policy(),
    {
        self.entries = Vec::new();
        self.current_size = 0;
        assert(self.chunks() =~= Seq::<CachedChunk>::empty());
    }

    /// The number of cached chunks.
    pub fn len(&self) -> (n: usize)
        ensures
            n == self.chunks().len(),
    {
        self.entries.len()
    }

    /// Whether nothing is cached.
    pub fn is_empty(&self) -> (b: bool)
        ensures
            b == (self.chunks().len() == 0),
    {
        self.entries.len() == 0
    }
}

/// Eviction stops once the new chunk fits under the maximum, or once
/// nothing is left to evict.
pub proof fn lemma_evict_makes_room(
    cs: Seq<CachedChunk>,
    size: int,
    need: int,
    max_size: int,
    policy: EvictionPolicy,
)
    ensures
        spec_evict(cs, size, need, max_size, policy) matches Some((left, s)) ==> s + need <= max_size || left.len()
            == 0,
    decreases cs.len(),
{
    if size + need > max_size && cs.len() > 0 {
        let v = spec_victim(cs, policy);
        if 0 <= v < cs.len() && size >= spec_size(cs[v]) {
            lemma_evict_makes_room(cs.remove(v), size - spec_size(cs[v]), need, max_size, policy);
        }
    }
}

} // verus!
