//! Query results cached under the query and the version of the data.
use vstd::prelude::*;
use crate::exec::batch::RecordBatch;

verus! {

/// A query's results are cached under the hash of the query and the
/// version of the data it read.
#[derive(Debug, Clone, Copy, Hash, PartialEq, Eq, Structural)]
pub struct QueryKey {
    pub query_hash: u64,
    pub data_version: u64,
}

/// The keys of `entries`, in order.
pub open spec fn spec_keys(entries: Seq<(QueryKey, Seq<RecordBatch>)>) -> Seq<QueryKey> {
    entries.map_values(|e: (QueryKey, Seq<RecordBatch>)| e.0)
}

/// The cache after storing `results` under `key`: an entry already under
/// `key` gets the new results in its place; otherwise, when `max_entries`
/// entries or more are held, the oldest entry goes first, and the new one
/// comes last.
pub open spec fn spec_after_insert(
    entries: Seq<(QueryKey, Seq<RecordBatch>)>,
    max_entries: nat,
    key: QueryKey,
    results: Seq<RecordBatch>,
) -> Seq<(QueryKey, Seq<RecordBatch>)> {
    if spec_keys(entries).contains(key) {
        entries.update(spec_keys(entries).index_of(key), (key, results))
    } else if entries.len() >= max_entries && entries.len() > 0 {
        entries.drop_first().push((key, results))
    } else {
        entries.push((key, results))
    }
}

/// Results of earlier queries, at most `max_entries` of them once one has
/// been evicted, oldest first.
///
/// The entries are a `Vec` with distinct keys: vstd specifies `HashMap`
/// only for keys with a key model (integers, `bool`, and boxes of them), and
/// a `QueryKey` is a struct of two integers.
pub struct ResultCache {
    max_entries: usize,
    entries: Vec<(QueryKey, Vec<RecordBatch>)>,
}

impl ResultCache {
    #[verifier::type_invariant]
    spec fn keys_distinct(self) -> bool {
        spec_keys(self.entries()).no_duplicates()
    }

    /// The cached results, oldest first.
    pub closed spec fn entries(&self) -> Seq<(QueryKey, Seq<RecordBatch>)> {
        self.entries@.map_values(|e: (QueryKey, Vec<RecordBatch>)| (e.0, e.1@))
    }

    /// How many entries it holds before it evicts one for a new key.
    pub closed spec fn capacity(&self) -> nat {
        self.max_entries as nat
    }

    pub fn new(max_entries: usize) -> (c: ResultCache)
        ensures
            c.entries() == Seq::<(QueryKey, Seq<RecordBatch>)>::empty(),
            c.capacity() == max_entries,
    {
        let c = ResultCache { max_entries, entries: Vec::new() };
        assert(c.entries() =~= Seq::<(QueryKey, Seq<RecordBatch>)>::empty());
        c
    }

    /// The position of `key`, if it is cached.
    fn position(&self, key: &QueryKey) -> (r: Option<usize>)
        ensures
            match r {
                Some(i) => i < self.entries().len() && self.entries()[i as int].0 == *key
                    && spec_keys(self.entries()).index_of(*key) == i,
                None => !spec_keys(self.entries()).contains(*key),
            },
    {
        proof {
            use_type_invariant(self);
        }
        let mut i: usize = 0;
        while i < self.entries.len()
            invariant
                i <= self.entries@.len(),
                spec_keys(self.entries()).no_duplicates(),
                forall|j: int| 0 <= j < i ==> self.entries@[j].0 != *key,
            decreases self.entries@.len() - i,
        {
            if self.entries[i].0 == *key {
                proof {
                    let ks = spec_keys(self.entries());
                    assert(ks[i as int] == *key);
                    assert(ks.contains(*key));
                    let f = ks.index_of(*key);
                    assert(ks[f] == *key && 0 <= f < ks.len());
                    assert(f == i as int);
                }
                return Some(i);
            }
            i = i + 1;
        }
        proof {
            let ks = spec_keys(self.entries());
            assert forall|j: int| 0 <= j < ks.len() implies ks[j] != *key by {
                assert(ks[j] == self.entries@[j].0);
            }
        }
        None
    }

    /// The results cached under `key`.
    pub fn get(&self, key: &QueryKey) -> (r: Option<&Vec<RecordBatch>>)
        ensures
            match r {
                Some(v) => spec_keys(self.entries()).contains(*key) && v@ == self.entries()[spec_keys(
                    self.entries(),
                ).index_of(*key)].1,
                None => !spec_keys(self.entries()).contains(*key),
            },
    {
        match self.position(key) {
            Some(i) => {
                assert(self.entries()[i as int] == (self.entries@[i as int].0, self.entries@[i as int].1@));
                assert(spec_keys(self.entries())[i as int] == *key);
                Some(&self.entries[i].1)
            },
            None => None,
        }
    }

    /// Stores `results` under `key`; when the cache is full and `key` is
    /// new, the oldest entry is evicted first.
    pub fn insert(&mut self, key: QueryKey, results: Vec<RecordBatch>)
        ensures
            final(self).entries() == spec_after_insert(old(self).entries(), old(self).capacity(), key, results@),
            final(self).capacity() == old(self).capacity(),
    {
        proof {
            use_type_invariant(&*self);
        }
        let ghost olds = self.entries();
        let ghost rs = results@;
        let ghost expected = spec_after_insert(olds, self.max_entries as nat, key, rs);
        let pos = self.position(&key);
        let mut entries: Vec<(QueryKey, Vec<RecordBatch>)> = Vec::new();
        std::mem::swap(&mut entries, &mut self.entries);
        assert(entries@.map_values(|e: (QueryKey, Vec<RecordBatch>)| (e.0, e.1@)) == olds);
        match pos {
            Some(i) => {
                entries.remove(i);
                entries.insert(i, (key, results));
                proof {
                    let news = entries@.map_values(|e: (QueryKey, Vec<RecordBatch>)| (e.0, e.1@));
                    assert(news =~= olds.update(i as int, (key, rs)));
                    assert(spec_keys(news) =~= spec_keys(olds));
                    assert(spec_keys(olds)[i as int] == key);
                    assert(news == expected);
                }
            },
            None => {
                if entries.len() >= self.max_entries && entries.len() > 0 {
                    entries.remove(0);
                    proof {
                        let mid = entries@.map_values(|e: (QueryKey, Vec<RecordBatch>)| (e.0, e.1@));
                        assert(mid =~= olds.drop_first());
                        assert(spec_keys(mid) =~= spec_keys(olds).drop_first());
                        assert(!spec_keys(mid).contains(key)) by {
                            if spec_keys(mid).contains(key) {
                                let j = choose|j: int| 0 <= j < spec_keys(mid).len() && spec_keys(mid)[j] == key;
                                assert(spec_keys(olds)[j + 1] == key);
                            }
                        }
                    }
                }
                let ghost mid = entries@.map_values(|e: (QueryKey, Vec<RecordBatch>)| (e.0, e.1@));
                proof {
                    assert(spec_keys(mid).no_duplicates()) by {
                        if entries@.len() < olds.len() {
                            assert(spec_keys(mid) =~= spec_keys(olds).drop_first());
                        } else {
                            assert(spec_keys(mid) =~= spec_keys(olds));
                        }
                    }
                    assert(!spec_keys(mid).contains(key)) by {
                        if entries@.len() == olds.len() {
                            assert(spec_keys(mid) =~= spec_keys(olds));
                        }
                    }
                }
                entries.push((key, results));
                proof {
                    let news = entries@.map_values(|e: (QueryKey, Vec<RecordBatch>)| (e.0, e.1@));
                    assert(news =~= mid.push((key, rs)));
                    assert(spec_keys(news) =~= spec_keys(mid).push(key));
                    if olds.len() >= self.max_entries && olds.len() > 0 {
                        assert(mid =~= olds.drop_first());
                    } else {
                        assert(mid =~= olds);
                    }
                    assert(news == expected);
                }
            },
        }
        self.entries = entries;
    }

    /// Drops every cached result.
    pub fn invalidate(&mut self)
        ensures
            final(self).entries() == Seq::<(QueryKey, Seq<RecordBatch>)>::empty(),
            final(self).capacity() == old(self).capacity(),
    {
        self.entries = Vec::new();
        assert(self.entries() =~= Seq::<(QueryKey, Seq<RecordBatch>)>::empty());
    }

    /// The number of cached results.
    pub fn len(&self) -> (n: usize)
        ensures
            n == self.entries().len(),
    {
        self.entries.len()
    }
}

/// A cache that holds at most its capacity, of at least one entry, still
/// does after an insertion.
pub proof fn lemma_insert_keeps_capacity(
    entries: Seq<(QueryKey, Seq<RecordBatch>)>,
    max_entries: nat,
    key: QueryKey,
    results: Seq<RecordBatch>,
)
    requires
        entries.len() <= max_entries,
        max_entries > 0,
    ensures
        spec_after_insert(entries, max_entries, key, results).len() <= max_entries,
        spec_keys(spec_after_insert(entries, max_entries, key, results)).contains(key),
{
    let r = spec_after_insert(entries, max_entries, key, results);
    if spec_keys(entries).contains(key) {
        let i = spec_keys(entries).index_of(key);
        assert(spec_keys(r)[i] == key);
    } else {
        assert(spec_keys(r)[r.len() - 1] == key);
    }
}

} // verus!
