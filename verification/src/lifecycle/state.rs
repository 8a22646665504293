//! Per-document lifecycle state: a version that advances only when the
//! content actually changes, and whether derived data is up to date.
use vstd::prelude::*;
use std::collections::HashMap;
use crate::text::{spec_utf8, spec_decimal, append_decimal_i64};
use crate::maps::keys_of;

verus! {

broadcast use vstd::std_specs::hash::group_hash_axioms;

/// Whether a document's derived representations are current.
#[derive(Debug, Clone, Copy, PartialEq, Eq, Structural)]
pub enum LifecycleState {
    /// Derived representations are up to date with the source content.
    Active,
    /// The source changed; derived representations need reprocessing.
    Stale,
}

/// Lifecycle metadata of one document.
#[derive(Debug, Clone, Copy, PartialEq, Eq, Structural)]
pub struct SourceState {
    pub document_id: i64,
    pub version: u64,
    pub content_hash: u64,
    pub state: LifecycleState,
}

impl SourceState {
    /// A freshly registered document: version 1, up to date.
    pub fn new_active(document_id: i64, content_hash: u64) -> (s: SourceState)
        ensures
            s == (SourceState { document_id, version: 1, content_hash, state: LifecycleState::Active }),
    {
        SourceState { document_id, version: 1, content_hash, state: LifecycleState::Active }
    }
}

/// The FNV-1a offset basis.
pub const FNV_OFFSET: u64 = 0xcbf2_9ce4_8422_2325;
/// The FNV-1a prime.
pub const FNV_PRIME: u64 = 0x0000_0100_0000_01b3;

/// The 64-bit FNV-1a hash of `bytes`.
pub open spec fn spec_fnv1a(bytes: Seq<u8>) -> u64
    decreases bytes.len(),
{
    if bytes.len() == 0 {
        FNV_OFFSET
    } else {
        vstd::wrapping::u64_specs::wrapping_mul(spec_fnv1a(bytes.drop_last()) ^ (bytes.last() as u64), FNV_PRIME)
    }
}

/// FNV-1a, 64 bits: deterministic and dependency-free.
pub fn fnv1a(bytes: &[u8]) -> (h: u64)
    ensures
        h == spec_fnv1a(bytes@),
{
    let mut hash: u64 = FNV_OFFSET;
    let mut i: usize = 0;
    while i < bytes.len()
        invariant
            i <= bytes@.len(),
            hash == spec_fnv1a(bytes@.take(i as int)),
        decreases bytes@.len() - i,
    {
        assert(bytes@.take(i + 1).drop_last() =~= bytes@.take(i as int));
        hash = hash ^ (bytes[i] as u64);
        hash = hash.wrapping_mul(FNV_PRIME);
        i = i + 1;
    }
    assert(bytes@.take(i as int) =~= bytes@);
    hash
}

/// The bytes hashed for a document: each part's UTF-8 bytes followed by
/// the unit separator 0x1f.
pub open spec fn spec_content_bytes(parts: Seq<Seq<char>>) -> Seq<u8>
    decreases parts.len(),
{
    if parts.len() == 0 {
        Seq::empty()
    } else {
        spec_content_bytes(parts.drop_last()) + spec_utf8(parts.last()) + seq![0x1fu8]
    }
}

/// The characters of each part.
pub open spec fn spec_parts(parts: Seq<&str>) -> Seq<Seq<char>> {
    parts.map_values(|p: &str| p@)
}

/// The content hash of a document made of `parts`.
pub open spec fn spec_content_hash(parts: Seq<Seq<char>>) -> u64 {
    spec_fnv1a(spec_content_bytes(parts))
}

/// Hashes a document's content (one or more text parts).
pub fn content_hash(parts: &[&str]) -> (h: u64)
    ensures
        h == spec_content_hash(spec_parts(parts@)),
{
    let mut buf: Vec<u8> = Vec::new();
    let mut i: usize = 0;
    while i < parts.len()
        invariant
            i <= parts@.len(),
            buf@ == spec_content_bytes(spec_parts(parts@).take(i as int)),
        decreases parts@.len() - i,
    {
        let part: &str = parts[i];
        crate::text::append_bytes(&mut buf, part.as_bytes());
        buf.push(0x1f);
        assert(spec_parts(parts@).take(i + 1).drop_last() =~= spec_parts(parts@).take(i as int));
        i = i + 1;
    }
    assert(spec_parts(parts@).take(i as int) =~= spec_parts(parts@));
    fnv1a(buf.as_slice())
}

/// The outcome of applying an update to a tracked document.
#[derive(Debug, Clone, Copy, PartialEq, Eq, Structural)]
pub struct ChangeReport {
    pub document_id: i64,
    pub previous_version: u64,
    pub new_version: u64,
    pub previous_hash: u64,
    pub new_hash: u64,
    pub content_changed: bool,
    pub derived_state: LifecycleState,
}

/// Lifecycle metadata of documents, by document id.
pub struct LifecycleManager {
    documents: HashMap<i64, SourceState>,
}

impl View for LifecycleManager {
    type V = Map<i64, SourceState>;

    closed spec fn view(&self) -> Map<i64, SourceState> {
        self.documents@
    }
}

/// What an update of `id` with content hash `new_hash` leaves behind: no
/// change for identical content, else the next version, marked stale.
pub open spec fn spec_after_update(m: Map<i64, SourceState>, id: i64, new_hash: u64) -> Map<i64, SourceState> {
    let s = m[id];
    if new_hash == s.content_hash {
        m
    } else {
        m.insert(id, SourceState { version: (s.version + 1) as u64, content_hash: new_hash, state: LifecycleState::Stale, ..s })
    }
}

/// The map that entries give, a later entry for an id replacing an earlier.
pub open spec fn spec_map_of<V>(entries: Seq<(i64, V)>) -> Map<i64, V>
    decreases entries.len(),
{
    if entries.len() == 0 {
        Map::empty()
    } else {
        spec_map_of(entries.drop_last()).insert(entries.last().0, entries.last().1)
    }
}

/// The message of the error for an update of a document that is not tracked.
pub open spec fn spec_untracked_update(document_id: i64) -> Seq<char> {
    "document "@ + spec_decimal(document_id as int) + " is not tracked; register it before update"@
}

/// The message of the error for an update of a document that is not tracked.
fn untracked_update_message(document_id: i64) -> (r: String)
    ensures
        r@ == spec_untracked_update(document_id),
{
    let mut m = String::from_str("document ");
    append_decimal_i64(&mut m, document_id);
    m.append(" is not tracked; register it before update");
    m
}

impl LifecycleManager {
    pub fn new() -> (m: LifecycleManager)
        ensures
            m@ == Map::<i64, SourceState>::empty(),
    {
        LifecycleManager { documents: HashMap::new() }
    }

    /// Records a new document at version 1, up to date. A document that is
    /// already tracked keeps its state.
    pub fn register(&mut self, document_id: i64, content: &[&str]) -> (s: SourceState)
        ensures
            old(self)@.contains_key(document_id) ==> final(self)@ == old(self)@,
            !old(self)@.contains_key(document_id) ==> final(self)@ == old(self)@.insert(
                document_id,
                SourceState {
                    document_id,
                    version: 1,
                    content_hash: spec_content_hash(spec_parts(content@)),
                    state: LifecycleState::Active,
                },
            ),
            s == final(self)@[document_id],
    {
        let hash = content_hash(content);
        match self.documents.get(&document_id) {
            Some(s) => *s,
            None => {
                let s = SourceState::new_active(document_id, hash);
                self.documents.insert(document_id, s);
                s
            },
        }
    }

    /// Applies an update. Identical content changes nothing and reports no
    /// change; changed content moves to the next version and marks derived
    /// data stale. A document that is not tracked is an error.
    pub fn apply_update(&mut self, document_id: i64, content: &[&str]) -> (r: Result<ChangeReport, String>)
        requires
            old(self)@.contains_key(document_id) ==> old(self)@[document_id].version < u64::MAX,
        ensures
            match r {
                Ok(report) => {
                    let s = old(self)@[document_id];
                    let h = spec_content_hash(spec_parts(content@));
                    &&& old(self)@.contains_key(document_id)
                    &&& final(self)@ == spec_after_update(old(self)@, document_id, h)
                    &&& report == ChangeReport {
                        document_id,
                        previous_version: s.version,
                        new_version: final(self)@[document_id].version,
                        previous_hash: s.content_hash,
                        new_hash: h,
                        content_changed: h != s.content_hash,
                        derived_state: final(self)@[document_id].state,
                    }
                },
                Err(e) => e@ == spec_untracked_update(document_id) && !old(self)@.contains_key(document_id) && final(self)@
                    == old(self)@,
            },
    {
        let new_hash = content_hash(content);
        let s = match self.documents.get(&document_id) {
            Some(s) => *s,
            None => {
                return Err(untracked_update_message(document_id));
            },
        };
        let previous_version = s.version;
        let previous_hash = s.content_hash;
        if new_hash == previous_hash {
            Ok(ChangeReport {
                document_id,
                previous_version,
                new_version: previous_version,
                previous_hash,
                new_hash,
                content_changed: false,
                derived_state: s.state,
            })
        } else {
            let updated = SourceState {
                version: s.version + 1,
                content_hash: new_hash,
                state: LifecycleState::Stale,
                ..s
            };
            self.documents.insert(document_id, updated);
            Ok(ChangeReport {
                document_id,
                previous_version,
                new_version: updated.version,
                previous_hash,
                new_hash,
                content_changed: true,
                derived_state: LifecycleState::Stale,
            })
        }
    }

    pub fn get(&self, document_id: i64) -> (r: Option<&SourceState>)
        ensures
            match r {
                Some(s) => self@.contains_key(document_id) && *s == self@[document_id],
                None => !self@.contains_key(document_id),
            },
    {
        self.documents.get(&document_id)
    }

    /// Every tracked document with its state, each once, in no set order.
    pub fn iter(&self) -> (r: Vec<(i64, SourceState)>)
        ensures
            r@.len() == self@.dom().len(),
            forall|i: int| 0 <= i < r@.len() ==> self@.contains_key(#[trigger] r@[i].0) && self@[r@[i].0] == r@[i].1,
            forall|id: i64| #[trigger] self@.contains_key(id) ==> exists|i: int| 0 <= i < r@.len() && r@[i].0 == id,
            forall|i: int, j: int| 0 <= i < j < r@.len() ==> r@[i].0 != r@[j].0,
    {
        let keys = keys_of(&self.documents);
        let mut r: Vec<(i64, SourceState)> = Vec::new();
        let mut i: usize = 0;
        while i < keys.len()
            invariant
                i <= keys.len(),
                keys@.to_set() == self@.dom(),
                keys@.no_duplicates(),
                keys@.len() == self@.dom().len(),
                r@.len() == i,
                forall|j: int| 0 <= j < i ==> r@[j].0 == keys@[j] && self@.contains_key(keys@[j]) && self@[keys@[j]] == r@[j].1,
            decreases keys.len() - i,
        {
            let k = keys[i];
            assert(keys@.to_set().contains(k));
            let s = match self.documents.get(&k) {
                Some(s) => *s,
                None => {
                    assert(false);
                    return r;
                },
            };
            r.push((k, s));
            i = i + 1;
        }
        assert forall|i: int| 0 <= i < r@.len() implies self@.contains_key(#[trigger] r@[i].0) && self@[r@[i].0] == r@[i].1 by {
            assert(r@[i].0 == keys@[i]);
        }
        assert forall|i: int, j: int| 0 <= i < j < r@.len() implies r@[i].0 != r@[j].0 by {
            assert(r@[i].0 == keys@[i]);
            assert(r@[j].0 == keys@[j]);
        }
        assert forall|id: i64| #[trigger] self@.contains_key(id) implies exists|i: int| 0 <= i < r@.len() && r@[i].0 == id by {
            assert(keys@.to_set().contains(id));
            let j = choose|j: int| 0 <= j < keys@.len() && keys@[j] == id;
            assert(r@[j].0 == id);
        }
        r
    }

    /// A manager holding the given entries; a later entry for an id
    /// replaces an earlier one.
    pub fn from_entries(entries: Vec<(i64, SourceState)>) -> (m: LifecycleManager)
        ensures
            m@ == spec_map_of(entries@),
    {
        let mut documents: HashMap<i64, SourceState> = HashMap::new();
        let mut i: usize = 0;
        while i < entries.len()
            invariant
                i <= entries.len(),
                documents@ == spec_map_of(entries@.take(i as int)),
            decreases entries.len() - i,
        {
            assert(entries@.take(i + 1).drop_last() =~= entries@.take(i as int));
            let (id, s) = entries[i];
            documents.insert(id, s);
            i = i + 1;
        }
        assert(entries@.take(i as int) =~= entries@);
        LifecycleManager { documents }
    }

    /// Stops tracking a document, giving back its state.
    pub fn remove(&mut self, document_id: i64) -> (r: Option<SourceState>)
        ensures
            final(self)@ == old(self)@.remove(document_id),
            match r {
                Some(s) => old(self)@.contains_key(document_id) && s == old(self)@[document_id],
                None => !old(self)@.contains_key(document_id),
            },
    {
        self.documents.remove(&document_id)
    }

    pub fn len(&self) -> (n: usize)
        ensures
            n == self@.dom().len(),
            self@.dom().finite(),
    {
        self.documents.len()
    }

    pub fn is_empty(&self) -> (b: bool)
        ensures
            b == (self@.dom().len() == 0),
    {
        self.documents.len() == 0
    }
}

} // verus!
