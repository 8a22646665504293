//! Exact-content deduplication, keyed by content hash.
use vstd::prelude::*;
use std::collections::HashMap;
use crate::lifecycle::state::{content_hash, spec_content_hash, spec_parts};
use crate::text::{strings_of, spec_views};

verus! {

broadcast use vstd::std_specs::hash::group_hash_axioms;

/// What inserting content found.
#[derive(Debug, Clone, Copy, PartialEq, Eq, Structural)]
pub enum DedupOutcome {
    /// The first time this exact content is seen.
    NewUnique,
    /// An exact duplicate of content seen before.
    Duplicate,
}

/// Counts over everything inserted so far.
#[derive(Debug, Clone, Copy, PartialEq, Eq, Structural)]
pub struct DedupReport {
    pub total_inputs: usize,
    pub unique_contents: usize,
    pub duplicates_detected: usize,
    pub processing_avoided: usize,
}

/// A registry of content by hash: the first content seen for each hash,
/// and how many insertions there were.
pub struct ContentDedup {
    canonical: HashMap<u64, Vec<String>>,
    total: usize,
}

/// The registry as mathematics: first-seen content by hash, and the number
/// of insertions.
pub struct DedupView {
    pub canonical: Map<u64, Seq<Seq<char>>>,
    pub total: nat,
}

/// The registry after inserting `content`, given as its parts: its hash
/// keeps the first content seen with it, and one more insertion counts.
pub open spec fn spec_dedup_insert(d: DedupView, content: Seq<Seq<char>>) -> DedupView {
    let h = spec_content_hash(content);
    DedupView {
        canonical: if d.canonical.contains_key(h) {
            d.canonical
        } else {
            d.canonical.insert(h, content)
        },
        total: d.total + 1,
    }
}

/// What inserting `content` into `d` finds.
pub open spec fn spec_dedup_outcome(d: DedupView, content: Seq<Seq<char>>) -> DedupOutcome {
    if d.canonical.contains_key(spec_content_hash(content)) {
        DedupOutcome::Duplicate
    } else {
        DedupOutcome::NewUnique
    }
}

/// The registry after inserting each of `contents` into `d`, in order.
pub open spec fn spec_dedup_history(d: DedupView, contents: Seq<Seq<Seq<char>>>) -> DedupView
    decreases contents.len(),
{
    if contents.len() == 0 {
        d
    } else {
        spec_dedup_insert(spec_dedup_history(d, contents.drop_last()), contents.last())
    }
}

/// How many of the insertions of `contents` into `d`, in order, find a
/// duplicate.
pub open spec fn spec_duplicates_found(d: DedupView, contents: Seq<Seq<Seq<char>>>) -> nat
    decreases contents.len(),
{
    if contents.len() == 0 {
        0
    } else {
        spec_duplicates_found(d, contents.drop_last()) + if spec_dedup_outcome(
            spec_dedup_history(d, contents.drop_last()),
            contents.last(),
        ) == DedupOutcome::Duplicate {
            1nat
        } else {
            0nat
        }
    }
}

/// The empty registry.
pub open spec fn spec_empty_dedup() -> DedupView {
    DedupView { canonical: Map::empty(), total: 0 }
}

/// The hashes registered after a history of insertions into an empty
/// registry are those of the contents inserted, finitely many; the
/// insertions are as many as the contents, and those that found a
/// duplicate are as many as insertions less distinct hashes.
proof fn lemma_history_counts(contents: Seq<Seq<Seq<char>>>)
    ensures
        ({
            let v = spec_dedup_history(spec_empty_dedup(), contents);
            &&& v.total == contents.len()
            &&& v.canonical.dom().finite()
            &&& v.canonical.dom().len() <= v.total
            &&& v.total - v.canonical.dom().len() == spec_duplicates_found(spec_empty_dedup(), contents)
            &&& forall|h: u64|
                v.canonical.contains_key(h) <==> exists|j: int|
                    0 <= j < contents.len() && #[trigger] spec_content_hash(contents[j]) == h
        }),
    decreases contents.len(),
{
    let e = spec_empty_dedup();
    if contents.len() > 0 {
        let rest = contents.drop_last();
        lemma_history_counts(rest);
        let p = spec_dedup_history(e, rest);
        let h = spec_content_hash(contents.last());
        let v = spec_dedup_history(e, contents);
        assert forall|g: u64| v.canonical.contains_key(g) <==> exists|j: int|
            0 <= j < contents.len() && #[trigger] spec_content_hash(contents[j]) == g by {
            if v.canonical.contains_key(g) && g != h {
                assert(p.canonical.contains_key(g));
                let j = choose|j: int| 0 <= j < rest.len() && #[trigger] spec_content_hash(rest[j]) == g;
                assert(contents[j] == rest[j]);
            }
            if v.canonical.contains_key(g) && g == h {
                assert(spec_content_hash(contents[contents.len() - 1]) == g);
            }
            if exists|j: int| 0 <= j < contents.len() && #[trigger] spec_content_hash(contents[j]) == g {
                let j = choose|j: int| 0 <= j < contents.len() && #[trigger] spec_content_hash(contents[j]) == g;
                if j < rest.len() {
                    assert(rest[j] == contents[j]);
                    assert(spec_content_hash(rest[j]) == g);
                }
            }
        }
    } else {
        assert(spec_dedup_history(e, contents).canonical.dom() =~= Set::<u64>::empty());
    }
}

/// Over any history of insertions into an empty registry: there are as
/// many insertions as contents; an insertion finds a duplicate exactly
/// where an earlier content has its hash, so an exact repeat always does;
/// the duplicates detected, insertions less distinct hashes, are the
/// insertions that found one; and each hash keeps the first content
/// inserted with it.
pub proof fn lemma_dedup_history(contents: Seq<Seq<Seq<char>>>)
    ensures
        ({
            let e = spec_empty_dedup();
            let v = spec_dedup_history(e, contents);
            &&& v.total == contents.len()
            &&& v.canonical.dom().finite()
            &&& v.canonical.dom().len() <= v.total
            &&& v.total - v.canonical.dom().len() == spec_duplicates_found(e, contents)
            &&& forall|i: int|
                0 <= i < contents.len() ==> (spec_dedup_outcome(
                    #[trigger] spec_dedup_history(e, contents.take(i)),
                    contents[i],
                ) == DedupOutcome::Duplicate <==> exists|j: int|
                    0 <= j < i && spec_content_hash(contents[j]) == spec_content_hash(contents[i]))
            &&& forall|j: int|
                0 <= j < contents.len() && (forall|k: int|
                    0 <= k < j ==> spec_content_hash(contents[k]) != spec_content_hash(#[trigger] contents[j]))
                    ==> v.canonical.contains_key(spec_content_hash(contents[j])) && v.canonical[spec_content_hash(
                    contents[j],
                )] == contents[j]
        }),
    decreases contents.len(),
{
    let e = spec_empty_dedup();
    lemma_history_counts(contents);
    assert forall|i: int| 0 <= i < contents.len() implies (spec_dedup_outcome(
        #[trigger] spec_dedup_history(e, contents.take(i)),
        contents[i],
    ) == DedupOutcome::Duplicate <==> exists|j: int|
        0 <= j < i && spec_content_hash(contents[j]) == spec_content_hash(contents[i])) by {
        let pre = contents.take(i);
        lemma_history_counts(pre);
        let h = spec_content_hash(contents[i]);
        if exists|j: int| 0 <= j < i && spec_content_hash(contents[j]) == h {
            let j = choose|j: int| 0 <= j < i && spec_content_hash(contents[j]) == h;
            assert(pre[j] == contents[j]);
            assert(spec_content_hash(pre[j]) == h);
        }
        if spec_dedup_history(e, pre).canonical.contains_key(h) {
            let j = choose|j: int| 0 <= j < pre.len() && #[trigger] spec_content_hash(pre[j]) == h;
            assert(pre[j] == contents[j]);
        }
    }
    if contents.len() > 0 {
        let rest = contents.drop_last();
        let n = contents.len() - 1;
        lemma_dedup_history(rest);
        lemma_history_counts(rest);
        let p = spec_dedup_history(e, rest);
        let v = spec_dedup_history(e, contents);
        assert forall|j: int|
            0 <= j < contents.len() && (forall|k: int|
                0 <= k < j ==> spec_content_hash(contents[k]) != spec_content_hash(#[trigger] contents[j]))
                implies v.canonical.contains_key(spec_content_hash(contents[j])) && v.canonical[spec_content_hash(
                contents[j],
            )] == contents[j] by {
            let h = spec_content_hash(contents[j]);
            if j < n {
                assert(rest[j] == contents[j]);
                assert forall|k: int| 0 <= k < j implies spec_content_hash(rest[k]) != spec_content_hash(#[trigger] rest[j]) by {
                    assert(rest[k] == contents[k]);
                }
                assert(p.canonical.contains_key(h) && p.canonical[h] == contents[j]);
            } else {
                if p.canonical.contains_key(h) {
                    let k = choose|k: int| 0 <= k < rest.len() && #[trigger] spec_content_hash(rest[k]) == h;
                    assert(rest[k] == contents[k]);
                    assert(spec_content_hash(contents[k]) != spec_content_hash(contents[j]));
                }
            }
        }
    }
}

impl View for ContentDedup {
    type V = DedupView;

    closed spec fn view(&self) -> DedupView {
        DedupView { canonical: self.canonical@.map_values(|v: Vec<String>| spec_views(v@)), total: self.total as nat }
    }
}

impl ContentDedup {
    /// Insertions are at least as many as distinct hashes.
    pub open spec fn wf(&self) -> bool {
        self@.canonical.dom().len() <= self@.total
    }

    proof fn lemma_view_dom(&self)
        ensures
            self@.canonical.dom() == self.canonical@.dom(),
            self@.canonical.dom().finite(),
    {
        assert(self@.canonical.dom() =~= self.canonical@.dom());
    }

    pub fn new() -> (d: ContentDedup)
        ensures
            d.wf(),
            d@.canonical == Map::<u64, Seq<Seq<char>>>::empty(),
            d@.total == 0,
    {
        let d = ContentDedup { canonical: HashMap::new(), total: 0 };
        assert(d@.canonical =~= Map::<u64, Seq<Seq<char>>>::empty());
        d
    }

    /// Registers content: `Duplicate` where content with the same hash was
    /// seen before (the first-seen content stays), else `NewUnique`.
    pub fn insert(&mut self, content: &[&str]) -> (r: DedupOutcome)
        requires
            old(self).wf(),
            old(self)@.total < usize::MAX,
        ensures
            final(self).wf(),
            final(self)@ == spec_dedup_insert(old(self)@, spec_parts(content@)),
            r == spec_dedup_outcome(old(self)@, spec_parts(content@)),
            final(self)@.total == old(self)@.total + 1,
            ({
                let h = spec_content_hash(spec_parts(content@));
                if old(self)@.canonical.contains_key(h) {
                    &&& r == DedupOutcome::Duplicate
                    &&& final(self)@.canonical == old(self)@.canonical
                } else {
                    &&& r == DedupOutcome::NewUnique
                    &&& final(self)@.canonical == old(self)@.canonical.insert(h, spec_parts(content@))
                }
            }),
    {
        let hash = content_hash(content);
        proof {
            self.lemma_view_dom();
        }
        let outcome = if self.canonical.contains_key(&hash) {
            DedupOutcome::Duplicate
        } else {
            let parts = strings_of(content);
            self.canonical.insert(hash, parts);
            DedupOutcome::NewUnique
        };
        self.total = self.total + 1;
        proof {
            self.lemma_view_dom();
            assert(self@.canonical =~= (if outcome == DedupOutcome::Duplicate { old(self)@.canonical } else {
                old(self)@.canonical.insert(hash, spec_parts(content@)) }));
        }
        outcome
    }

    /// The first-seen content with the same hash as `content`, if any.
    pub fn lookup(&self, content: &[&str]) -> (r: Option<&[String]>)
        ensures
            ({
                let h = spec_content_hash(spec_parts(content@));
                match r {
                    Some(v) => self@.canonical.contains_key(h) && spec_views(v@) == self@.canonical[h],
                    None => !self@.canonical.contains_key(h),
                }
            }),
    {
        let hash = content_hash(content);
        match self.canonical.get(&hash) {
            Some(v) => Some(v.as_slice()),
            None => None,
        }
    }

    pub fn total(&self) -> (n: usize)
        ensures
            n == self@.total,
    {
        self.total
    }

    pub fn unique_count(&self) -> (n: usize)
        ensures
            n == self@.canonical.dom().len(),
    {
        proof {
            self.lemma_view_dom();
        }
        self.canonical.len()
    }

    /// Insertions that found content already registered.
    pub fn duplicates_detected(&self) -> (n: usize)
        requires
            self.wf(),
        ensures
            n == self@.total - self@.canonical.dom().len(),
    {
        proof {
            self.lemma_view_dom();
        }
        self.total - self.canonical.len()
    }

    /// The counts so far; each duplicate is processing avoided.
    pub fn report(&self) -> (r: DedupReport)
        requires
            self.wf(),
        ensures
            r.total_inputs == self@.total,
            r.unique_contents == self@.canonical.dom().len(),
            r.duplicates_detected == self@.total - self@.canonical.dom().len(),
            r.processing_avoided == r.duplicates_detected,
    {
        proof {
            self.lemma_view_dom();
        }
        let duplicates = self.duplicates_detected();
        DedupReport {
            total_inputs: self.total,
            unique_contents: self.canonical.len(),
            duplicates_detected: duplicates,
            processing_avoided: duplicates,
        }
    }
}

} // verus!
