//! The parts of running a plan that are not arithmetic: the groups of an
//! aggregation, each distinct key once in the order first seen, and the
//! chunk indices of a stored blob with the metadata of each.
use vstd::prelude::*;
use crate::storage::chunk::ChunkMeta;
use crate::text::spec_views;

verus! {

/// The group keys as plain values.
pub open spec fn spec_keys_view(groups: Seq<Vec<String>>) -> Seq<Seq<Seq<char>>> {
    groups.map_values(|g: Vec<String>| spec_views(g@))
}

/// Whether two keys hold the same strings.
fn same_key(a: &Vec<String>, b: &Vec<String>) -> (r: bool)
    ensures
        r == (spec_views(a@) == spec_views(b@)),
{
    if a.len() != b.len() {
        assert(spec_views(a@).len() != spec_views(b@).len());
        return false;
    }
    let mut i: usize = 0;
    while i < a.len()
        invariant
            i <= a@.len(),
            a@.len() == b@.len(),
            forall|j: int| 0 <= j < i ==> a@[j]@ == b@[j]@,
        decreases a@.len() - i,
    {
        if a[i] != b[i] {
            assert(spec_views(a@)[i as int] != spec_views(b@)[i as int]);
            return false;
        }
        i = i + 1;
    }
    assert(spec_views(a@) =~= spec_views(b@));
    true
}

/// The group of `key`: its position among `groups`, which gain it at the
/// end where it is new. The keys stay distinct.
pub fn group_index(groups: &mut Vec<Vec<String>>, key: Vec<String>) -> (i: usize)
    requires
        spec_keys_view(old(groups)@).no_duplicates(),
    ensures
        spec_keys_view(final(groups)@).no_duplicates(),
        i < final(groups)@.len(),
        spec_keys_view(final(groups)@)[i as int] == spec_views(key@),
        if spec_keys_view(old(groups)@).contains(spec_views(key@)) {
            final(groups)@ == old(groups)@
        } else {
            &&& spec_keys_view(final(groups)@) == spec_keys_view(old(groups)@).push(spec_views(key@))
            &&& i == old(groups)@.len()
        },
{
    let ghost ks = spec_keys_view(groups@);
    let mut i: usize = 0;
    while i < groups.len()
        invariant
            i <= groups@.len(),
            ks == spec_keys_view(groups@),
            ks.no_duplicates(),
            groups@ == old(groups)@,
            forall|j: int| 0 <= j < i ==> ks[j] != spec_views(key@),
        decreases groups@.len() - i,
    {
        if same_key(&groups[i], &key) {
            assert(ks.contains(spec_views(key@))) by {
                assert(ks[i as int] == spec_views(key@));
            }
            return i;
        }
        i = i + 1;
    }
    assert(!ks.contains(spec_views(key@)));
    let n = groups.len();
    groups.push(key);
    proof {
        let ks2 = spec_keys_view(groups@);
        assert(ks2 =~= ks.push(ks2[n as int]));
        assert forall|a: int, b: int| 0 <= a < ks2.len() && 0 <= b < ks2.len() && a != b implies ks2[a] != ks2[b] by {
            if a < n && b < n {
                assert(ks2[a] == ks[a] && ks2[b] == ks[b]);
            } else if a == n {
                assert(ks2[b] == ks[b]);
            } else {
                assert(ks2[a] == ks[a]);
            }
        }
    }
    n
}

/// Whether a chunk belongs to index `chunk_idx`.
pub open spec fn spec_of_chunk(m: ChunkMeta, chunk_idx: u32) -> bool {
    m.chunk_idx == chunk_idx
}

/// The metadata of the chunks of index `chunk_idx`, in order.
pub fn metas_of_chunk(metas: &[ChunkMeta], chunk_idx: u32) -> (r: Vec<ChunkMeta>)
    ensures
        r@ == metas@.filter(|m: ChunkMeta| spec_of_chunk(m, chunk_idx)),
{
    let ghost p = |m: ChunkMeta| spec_of_chunk(m, chunk_idx);
    let mut r: Vec<ChunkMeta> = Vec::new();
    let mut i: usize = 0;
    proof {
        reveal(Seq::filter);
        assert(metas@.take(0).filter(p) =~= Seq::<ChunkMeta>::empty());
    }
    while i < metas.len()
        invariant
            i <= metas@.len(),
            p == (|m: ChunkMeta| spec_of_chunk(m, chunk_idx)),
            r@ == metas@.take(i as int).filter(p),
        decreases metas@.len() - i,
    {
        proof {
            reveal(Seq::filter);
            assert(metas@.take(i + 1).drop_last() =~= metas@.take(i as int));
            assert(metas@.take(i + 1).last() == metas@[i as int]);
        }
        if metas[i].chunk_idx == chunk_idx {
            r.push(metas[i]);
        }
        i = i + 1;
    }
    assert(metas@.take(i as int) =~= metas@);
    r
}

/// The largest chunk index among the metadata, or 0 without any.
pub open spec fn spec_max_chunk_idx(metas: Seq<ChunkMeta>) -> u32
    decreases metas.len(),
{
    if metas.len() == 0 {
        0
    } else {
        let m = spec_max_chunk_idx(metas.drop_last());
        if metas.last().chunk_idx > m {
            metas.last().chunk_idx
        } else {
            m
        }
    }
}

/// One past the largest chunk index, the end of the indices a scan walks.
pub fn chunk_index_end(metas: &[ChunkMeta]) -> (r: u64)
    ensures
        r == spec_max_chunk_idx(metas@) + 1,
{
    let mut m: u32 = 0;
    let mut i: usize = 0;
    while i < metas.len()
        invariant
            i <= metas@.len(),
            m == spec_max_chunk_idx(metas@.take(i as int)),
        decreases metas@.len() - i,
    {
        assert(metas@.take(i + 1).drop_last() =~= metas@.take(i as int));
        assert(metas@.take(i + 1).last() == metas@[i as int]);
        if metas[i].chunk_idx > m {
            m = metas[i].chunk_idx;
        }
        i = i + 1;
    }
    assert(metas@.take(i as int) =~= metas@);
    m as u64 + 1
}

} // verus!
