//! A table: its schema, the batches inserted into it, and the blob it was
//! last stored as.
use vstd::prelude::*;
use crate::api::result::ResultSet;
use crate::cache::data_cache::{DataCache, EvictionPolicy};
use crate::cache::result_cache::{QueryKey, ResultCache};
use crate::exec::batch::RecordBatch;
use crate::exec::physical::{copy_batches, spec_same_batch};
use crate::schema::{DataType, Field, Schema, spec_fields_view};
use crate::storage::chunk::ColumnStats;
use crate::storage::format::{BlobReader, BlobWriter, spec_blob, spec_flat_columns, spec_read_header, spec_read_batches, spec_chunk_keys, spec_batch_is};
use crate::storage::manager::{join_blob_path, spec_blob_path};

verus! {

/// The size of the chunk cache of a table, in bytes.
pub const DATA_CACHE_BYTES: usize = 67108864;

/// How many query results a table caches.
pub const RESULT_CACHE_ENTRIES: usize = 128;

/// The total number of rows of the batches.
pub open spec fn spec_total_rows(bs: Seq<RecordBatch>) -> int
    decreases bs.len(),
{
    if bs.len() == 0 {
        0
    } else {
        spec_total_rows(bs.drop_last()) + bs.last().num_rows
    }
}

/// A table of batches under one schema.
pub struct Table {
    name: String,
    schema: Schema,
    batches: Vec<RecordBatch>,
    persisted: bool,
    blob_bytes: Option<Vec<u8>>,
    data_version: u64,
    data_cache: DataCache,
    result_cache: ResultCache,
    base_path: String,
}

impl Table {
    /// Its name.
    pub closed spec fn name_view(&self) -> Seq<char> {
        self.name@
    }

    /// The fields of its schema.
    pub closed spec fn fields(&self) -> Seq<Field> {
        self.schema.fields@
    }

    /// The batches it holds.
    pub closed spec fn batches_view(&self) -> Seq<RecordBatch> {
        self.batches@
    }

    /// Whether it has been stored or read from storage.
    pub closed spec fn persisted_view(&self) -> bool {
        self.persisted
    }

    /// The bytes of the blob it was last stored as or read from.
    pub closed spec fn blob_view(&self) -> Option<Seq<u8>> {
        match self.blob_bytes {
            Some(b) => Some(b@),
            None => None,
        }
    }

    /// The version of its data; each insertion makes a new one.
    pub closed spec fn version(&self) -> u64 {
        self.data_version
    }

    /// The directory its blob is stored under.
    pub closed spec fn base(&self) -> Seq<char> {
        self.base_path@
    }

    /// The number of query results it caches.
    pub closed spec fn cached_results(&self) -> nat {
        self.result_cache.entries().len()
    }

    /// An empty table, not stored yet.
    pub fn create(name: &str, schema: Schema, base_path: &str) -> (t: Table)
        ensures
            t.name_view() == name@,
            t.fields() == schema.fields@,
            t.batches_view() == Seq::<RecordBatch>::empty(),
            !t.persisted_view(),
            t.blob_view() is None,
            t.version() == 0,
            t.base() == base_path@,
            t.cached_results() == 0,
    {
        let t = Table {
            name: name.to_owned(),
            schema,
            batches: Vec::new(),
            persisted: false,
            blob_bytes: None,
            data_version: 0,
            data_cache: DataCache::new(DATA_CACHE_BYTES, EvictionPolicy::LRU),
            result_cache: ResultCache::new(RESULT_CACHE_ENTRIES),
            base_path: base_path.to_owned(),
        };
        assert(t.batches_view() =~= Seq::<RecordBatch>::empty());
        t
    }

    /// The table stored as `stored`, the bytes of its blob, or an empty one
    /// where no blob is stored; `None` where the bytes are not a blob.
    pub fn open(name: &str, base_path: &str, stored: Option<Vec<u8>>) -> (r: Option<Table>)
        ensures
            match stored {
                None => r matches Some(t) && t.fields().len() == 0 && t.batches_view().len() == 0
                    && t.blob_view() is None,
                Some(bytes) => match spec_read_header(bytes@) {
                    None => r is None,
                    Some((fs, ms)) => if ms.len() == 0 {
                        r matches Some(t) && spec_fields_view(t.fields()) == fs && t.batches_view().len() == 0
                            && t.blob_view() == Some(bytes@)
                    } else {
                        match spec_read_batches(bytes@, fs, ms, spec_chunk_keys(ms, bytes@.len() as int)) {
                            Some(bs) => r matches Some(t) && spec_fields_view(t.fields()) == fs
                                && t.blob_view() == Some(bytes@) && t.batches_view().len() == bs.len()
                                && forall|i: int| 0 <= i < bs.len() ==> spec_batch_is(#[trigger] t.batches_view()[i], fs, bs[i]),
                            None => r is None,
                        }
                    },
                },
            },
            r matches Some(t) ==> t.name_view() == name@ && t.persisted_view() && t.version() == 1 && t.base()
                == base_path@ && t.cached_results() == 0,
    {
        let (schema, batches, blob_bytes) = match stored {
            None => (Schema::new(Vec::new()), Vec::new(), None),
            Some(bytes) => {
                let schema = match BlobReader::read_header(bytes.as_slice()) {
                    Some((s, _chunks)) => s,
                    None => {
                        return None;
                    },
                };
                let batches = match BlobReader::read_all(bytes.as_slice()) {
                    Some(bs) => bs,
                    None => {
                        return None;
                    },
                };
                (schema, batches, Some(bytes))
            },
        };
        Some(
            Table {
                name: name.to_owned(),
                schema,
                batches,
                persisted: true,
                blob_bytes,
                data_version: 1,
                data_cache: DataCache::new(DATA_CACHE_BYTES, EvictionPolicy::LRU),
                result_cache: ResultCache::new(RESULT_CACHE_ENTRIES),
                base_path: base_path.to_owned(),
            },
        )
    }

    pub fn name(&self) -> (r: &str)
        ensures
            r@ == self.name_view(),
    {
        self.name.as_str()
    }

    pub fn schema(&self) -> (r: &Schema)
        ensures
            r.fields@ == self.fields(),
    {
        &self.schema
    }

    /// The batches it holds, for running a query over them.
    pub fn batches(&self) -> (r: &Vec<RecordBatch>)
        ensures
            r@ == self.batches_view(),
    {
        &self.batches
    }

    /// Whether it has been stored or read from storage.
    pub fn is_persisted(&self) -> (b: bool)
        ensures
            b == self.persisted_view(),
    {
        self.persisted
    }

    /// The bytes of the blob it was last stored as or read from.
    pub fn blob_bytes(&self) -> (r: Option<&Vec<u8>>)
        ensures
            match r {
                Some(b) => self.blob_view() == Some(b@),
                None => self.blob_view() is None,
            },
    {
        match &self.blob_bytes {
            Some(b) => Some(b),
            None => None,
        }
    }

    /// Appends a batch under the table's schema; the data gets a new
    /// version and cached query results are dropped.
    pub fn insert_batch(&mut self, batch: RecordBatch)
        requires
            spec_fields_view(batch.schema.fields@) == spec_fields_view(old(self).fields()),
            old(self).version() < u64::MAX,
        ensures
            final(self).batches_view() == old(self).batches_view().push(batch),
            final(self).version() == old(self).version() + 1,
            final(self).cached_results() == 0,
            final(self).name_view() == old(self).name_view(),
            final(self).fields() == old(self).fields(),
            final(self).persisted_view() == old(self).persisted_view(),
            final(self).blob_view() == old(self).blob_view(),
            final(self).base() == old(self).base(),
    {
        self.batches.push(batch);
        self.data_version = self.data_version + 1;
        self.result_cache.invalidate();
    }

    /// A result of copies of all the batches.
    pub fn scan_all(&self) -> (r: ResultSet)
        ensures
            r.position() == 0,
            r.all().len() == self.batches_view().len(),
            forall|i: int| 0 <= i < self.batches_view().len() ==> spec_same_batch(#[trigger] r.all()[i], self.batches_view()[i]),
    {
        ResultSet::new(copy_batches(&self.batches))
    }

    /// The total number of rows.
    pub fn num_rows(&self) -> (n: usize)
        requires
            spec_total_rows(self.batches_view()) <= usize::MAX,
        ensures
            n == spec_total_rows(self.batches_view()),
    {
        let ghost bs = self.batches@;
        let mut total: usize = 0;
        let mut i: usize = 0;
        while i < self.batches.len()
            invariant
                i <= bs.len(),
                bs == self.batches@,
                spec_total_rows(bs) <= usize::MAX,
                total == spec_total_rows(bs.take(i as int)),
            decreases bs.len() - i,
        {
            proof {
                assert(bs.take(i + 1).drop_last() =~= bs.take(i as int));
                lemma_total_rows_prefix(bs, i + 1);
            }
            total = total + self.batches[i].num_rows;
            i = i + 1;
        }
        assert(bs.take(i as int) =~= bs);
        total
    }

    /// Encodes the batches as the table's blob, with the statistics of each
    /// column chunk, and returns the blob's path and bytes for the caller
    /// to store; the table then counts as stored, with that blob.
    pub fn flush(&mut self, stats: &[ColumnStats]) -> (r: (String, Vec<u8>))
        requires
            old(self).batches_view().len() <= u32::MAX,
            forall|b: int|
                0 <= b < old(self).batches_view().len() ==> (#[trigger] old(self).batches_view()[b]).columns@.len()
                    <= old(self).batches_view()[0].schema.fields@.len(),
            stats@.len() == spec_flat_columns(old(self).batches_view()).len(),
        ensures
            final(self).batches_view() == old(self).batches_view(),
            final(self).name_view() == old(self).name_view(),
            final(self).fields() == old(self).fields(),
            final(self).version() == old(self).version(),
            final(self).base() == old(self).base(),
            r.0@ == spec_blob_path(old(self).base(), old(self).name_view()),
            old(self).batches_view().len() == 0 ==> r.1@.len() == 0,
            old(self).batches_view().len() > 0 ==> r.1@ == spec_blob(
                spec_fields_view(old(self).batches_view()[0].schema.fields@),
                spec_flat_columns(old(self).batches_view()),
                stats@,
            ),
            final(self).persisted_view(),
            final(self).blob_view() == Some(r.1@),
    {
        let blob = BlobWriter::write(self.batches.as_slice(), stats);
        let kept = blob.clone();
        assert(kept@ =~= blob@);
        let path = join_blob_path(self.base_path.as_str(), self.name.as_str());
        self.persisted = true;
        self.blob_bytes = Some(kept);
        (path, blob)
    }

    pub fn data_version(&self) -> (v: u64)
        ensures
            v == self.version(),
    {
        self.data_version
    }
}

/// The rows of a prefix are at most those of the whole.
proof fn lemma_total_rows_prefix(bs: Seq<RecordBatch>, n: int)
    requires
        0 <= n <= bs.len(),
    ensures
        spec_total_rows(bs.take(n)) <= spec_total_rows(bs),
    decreases bs.len(),
{
    if n < bs.len() {
        assert(bs.drop_last().take(n) =~= bs.take(n));
        lemma_total_rows_prefix(bs.drop_last(), n);
    } else {
        assert(bs.take(n) =~= bs);
    }
}

} // verus!
