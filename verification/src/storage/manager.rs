//! Tables stored as blobs under a base directory, with the schema and the
//! number of writes of each table written so far.
use vstd::prelude::*;
use crate::exec::batch::RecordBatch;
use crate::schema::{Field, Schema, spec_fields_view};
use crate::storage::chunk::ColumnStats;
use crate::storage::format::{BlobWriter, spec_blob, spec_flat_columns};
use crate::text::str_starts_with;

verus! {

/// The path of the blob of table `name` under `base`: `name.tuck` joined to
/// `base` as a path, with a separator where `base` lacks one; a name that
/// starts with `/` stands alone.
pub open spec fn spec_blob_path(base: Seq<char>, name: Seq<char>) -> Seq<char> {
    let file = name + seq!['.', 't', 'u', 'c', 'k'];
    if name.len() > 0 && name[0] == '/' {
        file
    } else if base.len() == 0 || base.last() == '/' {
        base + file
    } else {
        base + seq!['/'] + file
    }
}

/// The names of named entries, in order.
pub open spec fn spec_names<V>(entries: Seq<(String, V)>) -> Seq<Seq<char>> {
    entries.map_values(|e: (String, V)| e.0@)
}

/// The entry under `name`, if there is one.
fn find_name<V>(entries: &Vec<(String, V)>, name: &str) -> (r: Option<usize>)
    ensures
        match r {
            Some(i) => i < entries@.len() && spec_names(entries@)[i as int] == name@,
            None => !spec_names(entries@).contains(name@),
        },
{
    let wanted = name.to_owned();
    let ghost ns = spec_names(entries@);
    let mut i: usize = 0;
    while i < entries.len()
        invariant
            i <= entries@.len(),
            ns == spec_names(entries@),
            wanted@ == name@,
            forall|j: int| 0 <= j < i ==> ns[j] != name@,
        decreases entries@.len() - i,
    {
        assert(ns[i as int] == entries@[i as int].0@);
        if entries[i].0 == wanted {
            return Some(i);
        }
        i = i + 1;
    }
    None
}

/// The path of the blob of table `name` under `base`.
pub(crate) fn join_blob_path(base: &str, name: &str) -> (r: String)
    ensures
        r@ == spec_blob_path(base@, name@),
{
    let mut file = name.to_owned();
    file.append(".tuck");
    proof {
        reveal_strlit(".tuck");
        assert(".tuck"@ =~= seq!['.', 't', 'u', 'c', 'k']);
    }
    let starts = str_starts_with(name, "/");
    proof {
        reveal_strlit("/");
        assert("/"@ =~= seq!['/']);
        if name@.len() > 0 && name@[0] == '/' {
            assert("/"@ =~= name@.subrange(0, 1));
        }
        if starts {
            assert(name@.subrange(0, 1)[0] == name@[0]);
        }
    }
    if starts {
        return file;
    }
    let n = base.unicode_len();
    if n == 0 || base.get_char(n - 1) == '/' {
        let mut path = base.to_owned();
        path.append(file.as_str());
        path
    } else {
        let mut path = base.to_owned();
        path.append("/");
        path.append(file.as_str());
        path
    }
}

/// The schema and the number of writes of the tables under a base path.
/// The version of table `name` among `versions`: zero for a table never
/// written.
pub open spec fn spec_version_in(versions: Map<Seq<char>, u64>, name: Seq<char>) -> u64 {
    if versions.contains_key(name) {
        versions[name]
    } else {
        0
    }
}

/// The versions after one more completed write of table `name`.
pub open spec fn spec_after_write(versions: Map<Seq<char>, u64>, name: Seq<char>) -> Map<Seq<char>, u64> {
    versions.insert(name, (spec_version_in(versions, name) + 1) as u64)
}

/// The versions after the completed writes of the tables `writes`, in
/// order.
pub open spec fn spec_versions_after(versions: Map<Seq<char>, u64>, writes: Seq<Seq<char>>) -> Map<Seq<char>, u64>
    decreases writes.len(),
{
    if writes.len() == 0 {
        versions
    } else {
        spec_after_write(spec_versions_after(versions, writes.drop_last()), writes.last())
    }
}

/// How many of `writes` are of table `name`.
pub open spec fn spec_write_count(writes: Seq<Seq<char>>, name: Seq<char>) -> nat
    decreases writes.len(),
{
    if writes.len() == 0 {
        0
    } else {
        spec_write_count(writes.drop_last(), name) + if writes.last() == name {
            1nat
        } else {
            0nat
        }
    }
}

/// From a manager with no table written, the data version of each table
/// after any sequence of completed writes is the number of writes of that
/// table among them: zero for a table never written, and a write of
/// another table leaves it as it is.
pub proof fn lemma_data_version_counts_writes(writes: Seq<Seq<char>>, name: Seq<char>)
    requires
        writes.len() <= u64::MAX,
    ensures
        spec_version_in(spec_versions_after(Map::empty(), writes), name) == spec_write_count(writes, name),
    decreases writes.len(),
{
    if writes.len() > 0 {
        let rest = writes.drop_last();
        lemma_data_version_counts_writes(rest, name);
        lemma_write_count_bounded(rest, writes.last());
    }
}

/// A table is written no more often than there are writes.
proof fn lemma_write_count_bounded(writes: Seq<Seq<char>>, name: Seq<char>)
    ensures
        spec_write_count(writes, name) <= writes.len(),
    decreases writes.len(),
{
    if writes.len() > 0 {
        lemma_write_count_bounded(writes.drop_last(), name);
    }
}

/// Tables under a base path: the schema last written for each and the
/// number of its writes.
///
/// Both caches are `Vec`s with distinct names: vstd specifies `HashMap`
/// only for keys with a key model (integers, `bool`, and boxes of them),
/// which a `String` name lacks.
pub struct TableManager {
    base_path: String,
    schema_cache: Vec<(String, Schema)>,
    version_counter: Vec<(String, u64)>,
}

impl TableManager {
    #[verifier::type_invariant]
    spec fn names_distinct(self) -> bool {
        &&& spec_names(self.schema_cache@).no_duplicates()
        &&& spec_names(self.version_counter@).no_duplicates()
    }

    /// The base path.
    pub closed spec fn base(&self) -> Seq<char> {
        self.base_path@
    }

    /// The fields of the schema last written for each table.
    pub closed spec fn schemas(&self) -> Map<Seq<char>, Seq<Field>> {
        Map::new(
            |n: Seq<char>| spec_names(self.schema_cache@).contains(n),
            |n: Seq<char>| self.schema_cache@[spec_names(self.schema_cache@).index_of(n)].1.fields@,
        )
    }

    /// The number of writes of each table written at least once.
    pub closed spec fn versions(&self) -> Map<Seq<char>, u64> {
        Map::new(
            |n: Seq<char>| spec_names(self.version_counter@).contains(n),
            |n: Seq<char>| self.version_counter@[spec_names(self.version_counter@).index_of(n)].1,
        )
    }

    /// The number of writes of table `name`; zero for a table never written.
    pub open spec fn version_of(&self, name: Seq<char>) -> u64 {
        if self.versions().contains_key(name) {
            self.versions()[name]
        } else {
            0
        }
    }

    pub fn new(base_path: &str) -> (m: TableManager)
        ensures
            m.base() == base_path@,
            m.schemas() == Map::<Seq<char>, Seq<Field>>::empty(),
            m.versions() == Map::<Seq<char>, u64>::empty(),
    {
        let m = TableManager { base_path: base_path.to_owned(), schema_cache: Vec::new(), version_counter: Vec::new() };
        assert(m.schemas() =~= Map::<Seq<char>, Seq<Field>>::empty());
        assert(m.versions() =~= Map::<Seq<char>, u64>::empty());
        m
    }

    /// The path of the blob of table `name`.
    pub fn blob_path(&self, name: &str) -> (r: String)
        ensures
            r@ == spec_blob_path(self.base(), name@),
    {
        join_blob_path(self.base_path.as_str(), name)
    }

    /// Encodes `batches` as the blob of table `name`, with the statistics
    /// of each column chunk, and returns the blob's path and bytes for the
    /// caller to store. The table's schema becomes that of the
    /// first batch, if there is one, and its number of writes grows by one.
    pub fn write_table(&mut self, name: &str, batches: &[RecordBatch], stats: &[ColumnStats]) -> (r: (String, Vec<u8>))
        requires
            batches@.len() <= u32::MAX,
            forall|b: int| 0 <= b < batches@.len() ==> (#[trigger] batches@[b]).columns@.len() <= batches@[0].schema.fields@.len(),
            stats@.len() == spec_flat_columns(batches@).len(),
            old(self).version_of(name@) < u64::MAX,
        ensures
            final(self).base() == old(self).base(),
            r.0@ == spec_blob_path(old(self).base(), name@),
            batches@.len() == 0 ==> r.1@.len() == 0,
            batches@.len() > 0 ==> r.1@ == spec_blob(
                spec_fields_view(batches@[0].schema.fields@),
                spec_flat_columns(batches@),
                stats@,
            ),
            final(self).schemas() == if batches@.len() > 0 {
                old(self).schemas().insert(name@, batches@[0].schema.fields@)
            } else {
                old(self).schemas()
            },
            final(self).versions() == spec_after_write(old(self).versions(), name@),
    {
        proof {
            use_type_invariant(&*self);
        }
        let blob = BlobWriter::write(batches, stats);
        let path = self.blob_path(name);
        let ghost old_schemas = self.schemas();
        let ghost old_versions = self.versions();
        if batches.len() > 0 {
            let schema = batches[0].schema.clone();
            let mut cache: Vec<(String, Schema)> = Vec::new();
            std::mem::swap(&mut cache, &mut self.schema_cache);
            let ghost ns = spec_names(cache@);
            match find_name(&cache, name) {
                Some(i) => {
                    cache.remove(i);
                    cache.insert(i, (name.to_owned(), schema));
                    proof {
                        assert(spec_names(cache@) =~= ns);
                        lemma_index_of_unique(ns, name@, i as int);
                    }
                },
                None => {
                    cache.push((name.to_owned(), schema));
                    proof {
                        assert(spec_names(cache@) =~= ns.push(name@));
                        lemma_push_distinct(ns, name@);
                    }
                },
            }
            self.schema_cache = cache;
            proof {
                let m = old_schemas.insert(name@, batches@[0].schema.fields@);
                let ns2 = spec_names(self.schema_cache@);
                assert forall|n: Seq<char>| #[trigger] self.schemas().contains_key(n) == m.contains_key(n) by {
                    if n == name@ {
                        assert(ns2.contains(n)) by {
                            if ns.contains(n) {
                                let j = choose|j: int| 0 <= j < ns.len() && ns[j] == n;
                                assert(ns2[j] == n);
                            } else {
                                assert(ns2[ns2.len() - 1] == n);
                            }
                        }
                    } else {
                        if ns.contains(n) {
                            let j = choose|j: int| 0 <= j < ns.len() && ns[j] == n;
                            assert(ns2[j] == n);
                        }
                        if ns2.contains(n) {
                            let j = choose|j: int| 0 <= j < ns2.len() && ns2[j] == n;
                            assert(ns[j] == n);
                        }
                    }
                }
                assert forall|n: Seq<char>| #[trigger] self.schemas().contains_key(n) implies self.schemas()[n]
                    == m[n] by {
                    let j = ns2.index_of(n);
                    assert(0 <= j < ns2.len() && ns2[j] == n);
                    if n != name@ {
                        assert(ns[j] == n);
                        lemma_index_of_unique(ns, n, j);
                    }
                }
                assert(self.schemas() =~= m);
            }
        }
        let ghost before = self.version_of(name@);
        let mut counters: Vec<(String, u64)> = Vec::new();
        std::mem::swap(&mut counters, &mut self.version_counter);
        let ghost vs = spec_names(counters@);
        match find_name(&counters, name) {
            Some(i) => {
                let (n, v) = counters.remove(i);
                proof {
                    lemma_index_of_unique(vs, name@, i as int);
                    assert(v == before);
                }
                counters.insert(i, (n, v + 1));
                proof {
                    assert(spec_names(counters@) =~= vs);
                }
            },
            None => {
                counters.push((name.to_owned(), 1));
                proof {
                    assert(spec_names(counters@) =~= vs.push(name@));
                    lemma_push_distinct(vs, name@);
                }
            },
        }
        self.version_counter = counters;
        proof {
            let m = old_versions.insert(name@, (before + 1) as u64);
            let vs2 = spec_names(self.version_counter@);
            assert forall|n: Seq<char>| #[trigger] self.versions().contains_key(n) == m.contains_key(n) by {
                if n == name@ {
                    assert(vs2.contains(n)) by {
                        if vs.contains(n) {
                            let j = choose|j: int| 0 <= j < vs.len() && vs[j] == n;
                            assert(vs2[j] == n);
                        } else {
                            assert(vs2[vs2.len() - 1] == n);
                        }
                    }
                } else {
                    if vs.contains(n) {
                        let j = choose|j: int| 0 <= j < vs.len() && vs[j] == n;
                        assert(vs2[j] == n);
                    }
                    if vs2.contains(n) {
                        let j = choose|j: int| 0 <= j < vs2.len() && vs2[j] == n;
                        assert(vs[j] == n);
                    }
                }
            }
            assert forall|n: Seq<char>| #[trigger] self.versions().contains_key(n) implies self.versions()[n] == m[n] by {
                let j = vs2.index_of(n);
                assert(0 <= j < vs2.len() && vs2[j] == n);
                if n != name@ {
                    assert(vs[j] == n);
                    lemma_index_of_unique(vs, n, j);
                } else {
                    lemma_index_of_unique(vs2, n, j);
                }
            }
            assert(self.versions() =~= m);
        }
        (path, blob)
    }

    /// The schema last written for table `name`.
    pub fn get_schema(&self, name: &str) -> (r: Option<&Schema>)
        ensures
            match r {
                Some(s) => self.schemas().contains_key(name@) && s.fields@ == self.schemas()[name@],
                None => !self.schemas().contains_key(name@),
            },
    {
        proof {
            use_type_invariant(self);
        }
        match find_name(&self.schema_cache, name) {
            Some(i) => {
                proof {
                    let ns = spec_names(self.schema_cache@);
                    assert(ns.contains(name@));
                    lemma_index_of_unique(ns, name@, i as int);
                }
                Some(&self.schema_cache[i].1)
            },
            None => None,
        }
    }

    /// The number of writes of table `name`.
    pub fn data_version(&self, name: &str) -> (v: u64)
        ensures
            v == self.version_of(name@),
    {
        proof {
            use_type_invariant(self);
        }
        match find_name(&self.version_counter, name) {
            Some(i) => {
                proof {
                    let ns = spec_names(self.version_counter@);
                    assert(ns.contains(name@));
                    lemma_index_of_unique(ns, name@, i as int);
                }
                self.version_counter[i].1
            },
            None => 0,
        }
    }
}

/// In a sequence without duplicates, a value occurs at one position only.
proof fn lemma_index_of_unique(ns: Seq<Seq<char>>, n: Seq<char>, i: int)
    requires
        ns.no_duplicates(),
        0 <= i < ns.len(),
        ns[i] == n,
    ensures
        ns.index_of(n) == i,
        ns.contains(n),
{
    assert(ns.contains(n));
}

/// Adding a value not yet present keeps a sequence free of duplicates.
proof fn lemma_push_distinct(ns: Seq<Seq<char>>, n: Seq<char>)
    requires
        ns.no_duplicates(),
        !ns.contains(n),
    ensures
        ns.push(n).no_duplicates(),
{
    let s = ns.push(n);
    assert forall|a: int, b: int| 0 <= a < s.len() && 0 <= b < s.len() && a != b implies s[a] != s[b] by {
        if a == ns.len() {
            assert(s[b] == ns[b]);
        } else if b == ns.len() {
            assert(s[a] == ns[a]);
        }
    }
}

} // verus!
