//! Blobs kept in memory, in the order of their paths.
use vstd::prelude::*;
use crate::backend::BlobBackend;
use crate::text::{
    spec_str_lt, str_lt, str_starts_with, lemma_str_lt_total, lemma_str_lt_transitive, lemma_str_lt_irreflexive,
    spec_decimal_nat, append_decimal,
};

verus! {

/// The paths of `blobs`, in order.
pub open spec fn spec_paths(blobs: Seq<(Seq<char>, Seq<u8>)>) -> Seq<Seq<char>> {
    blobs.map_values(|b: (Seq<char>, Seq<u8>)| b.0)
}

/// Each path comes before the next.
pub open spec fn spec_sorted(ps: Seq<Seq<char>>) -> bool {
    forall|i: int, j: int| 0 <= i < j < ps.len() ==> spec_str_lt(#[trigger] ps[i], #[trigger] ps[j])
}

/// Blobs by path, held in memory.
///
/// The blobs are a `Vec` sorted by path: vstd specifies `HashMap` only for
/// keys with a key model (integers, `bool`, and boxes of them), which a
/// `String` path lacks.
pub struct InMemoryBackend {
    blobs: Vec<(String, Vec<u8>)>,
}

impl InMemoryBackend {
    #[verifier::type_invariant]
    spec fn paths_sorted(self) -> bool {
        spec_sorted(spec_paths(self.blobs()))
    }

    /// The blobs, in the order of their paths.
    pub closed spec fn blobs(&self) -> Seq<(Seq<char>, Seq<u8>)> {
        self.blobs@.map_values(|b: (String, Vec<u8>)| (b.0@, b.1@))
    }

    pub fn new() -> (b: InMemoryBackend)
        ensures
            b@ == Map::<Seq<char>, Seq<u8>>::empty(),
    {
        let b = InMemoryBackend { blobs: Vec::new() };
        assert(b@ =~= Map::<Seq<char>, Seq<u8>>::empty());
        b
    }

    /// The position of the first blob whose path is not before `path`.
    fn lower_bound(&self, path: &str) -> (r: usize)
        ensures
            r <= self.blobs().len(),
            forall|j: int| 0 <= j < r ==> spec_str_lt(#[trigger] spec_paths(self.blobs())[j], path@),
            r < self.blobs().len() ==> !spec_str_lt(spec_paths(self.blobs())[r as int], path@),
    {
        let ghost ps = spec_paths(self.blobs());
        let mut i: usize = 0;
        while i < self.blobs.len()
            invariant
                i <= self.blobs@.len(),
                ps == spec_paths(self.blobs()),
                forall|j: int| 0 <= j < i ==> spec_str_lt(#[trigger] ps[j], path@),
            decreases self.blobs@.len() - i,
        {
            assert(ps[i as int] == self.blobs@[i as int].0@);
            if !str_lt(self.blobs[i].0.as_str(), path) {
                return i;
            }
            i = i + 1;
        }
        i
    }

    /// The position of the blob at `path`, if there is one.
    fn position(&self, path: &str) -> (r: Option<usize>)
        ensures
            match r {
                Some(i) => i < self.blobs().len() && spec_paths(self.blobs())[i as int] == path@,
                None => !spec_paths(self.blobs()).contains(path@),
            },
    {
        proof {
            use_type_invariant(self);
        }
        let ghost ps = spec_paths(self.blobs());
        let i = self.lower_bound(path);
        if i < self.blobs.len() {
            assert(ps[i as int] == self.blobs@[i as int].0@);
            let found = self.blobs[i].0.as_str();
            if !str_lt(path, found) {
                proof {
                    lemma_str_lt_total(ps[i as int], path@);
                }
                return Some(i);
            }
        }
        proof {
            assert forall|j: int| 0 <= j < ps.len() implies ps[j] != path@ by {
                lemma_str_lt_irreflexive(path@);
                if j >= i && i < ps.len() {
                    if j > i {
                        lemma_str_lt_transitive(path@, ps[i as int], ps[j]);
                    }
                }
            }
        }
        None
    }
}

impl View for InMemoryBackend {
    type V = Map<Seq<char>, Seq<u8>>;

    /// The bytes of each stored blob, by path.
    closed spec fn view(&self) -> Map<Seq<char>, Seq<u8>> {
        Map::new(
            |p: Seq<char>| spec_paths(self.blobs()).contains(p),
            |p: Seq<char>| self.blobs()[spec_paths(self.blobs()).index_of(p)].1,
        )
    }
}

impl Default for InMemoryBackend {
    fn default() -> (b: Self)
        ensures
            b@ == Map::<Seq<char>, Seq<u8>>::empty(),
    {
        InMemoryBackend::new()
    }
}

/// The message for a read past the end of a blob: the offset, the length
/// and the blob's size in decimal.
pub open spec fn spec_out_of_bounds(offset: u64, len: u64, size: nat) -> Seq<char> {
    "read out of bounds: offset="@ + spec_decimal_nat(offset as nat) + " len="@ + spec_decimal_nat(len as nat)
        + " file_size="@ + spec_decimal_nat(size)
}

/// The message for a read past the end of a blob.
fn out_of_bounds_message(offset: u64, len: u64, size: usize) -> (r: String)
    ensures
        r@ == spec_out_of_bounds(offset, len, size as nat),
{
    let mut m = String::from_str("read out of bounds: offset=");
    append_decimal(&mut m, offset);
    m.append(" len=");
    append_decimal(&mut m, len);
    m.append(" file_size=");
    append_decimal(&mut m, size as u64);
    m
}

impl BlobBackend for InMemoryBackend {
    /// `len` bytes of the blob at `path` from `offset` on; an error where no
    /// blob is there or the blob ends before `offset + len`.
    fn read(&self, path: &str, offset: u64, len: u64) -> (r: Result<Vec<u8>, String>)
        ensures
            !self@.contains_key(path@) ==> (r matches Err(e) && e@ == "not found: "@ + path@),
            self@.contains_key(path@) && offset + len > self@[path@].len() ==> (r matches Err(e) && e@
                == spec_out_of_bounds(offset, len, self@[path@].len())),
            self@.contains_key(path@) && offset + len <= self@[path@].len() ==> (r matches Ok(v) && v@
                == self@[path@].subrange(offset as int, offset + len)),
    {
        proof {
            use_type_invariant(self);
        }
        match self.position(path) {
            None => {
                let mut e = String::from_str("not found: ");
                e.append(path);
                proof {
                    reveal_strlit("not found: ");
                }
                Err(e)
            },
            Some(i) => {
                let ghost ps = spec_paths(self.blobs());
                proof {
                    assert(ps[i as int] == path@);
                    assert(ps.contains(path@));
                    lemma_unique_position(ps, path@, i as int);
                }
                let bytes = &self.blobs[i].1;
                let size = bytes.len();
                if offset > size as u64 || len > size as u64 - offset {
                    return Err(out_of_bounds_message(offset, len, size));
                }
                let start = offset as usize;
                let end = start + len as usize;
                let mut out: Vec<u8> = Vec::new();
                let mut k: usize = start;
                while k < end
                    invariant
                        start <= k <= end,
                        end <= bytes@.len(),
                        out@ == bytes@.subrange(start as int, k as int),
                    decreases end - k,
                {
                    out.push(bytes[k]);
                    k = k + 1;
                    assert(out@ =~= bytes@.subrange(start as int, k as int));
                }
                Ok(out)
            },
        }
    }

    /// Stores `data` at `path`, in place of any blob there.
    fn write(&mut self, path: &str, data: &[u8]) -> (r: Result<(), String>)
        ensures
            r is Ok,
            final(self)@ == old(self)@.insert(path@, data@),
    {
        proof {
            use_type_invariant(&*self);
        }
        let ghost olds = self.blobs();
        let ghost ps = spec_paths(olds);
        let i = self.lower_bound(path);
        let mut copy: Vec<u8> = Vec::new();
        let mut k: usize = 0;
        while k < data.len()
            invariant
                k <= data@.len(),
                copy@ == data@.take(k as int),
            decreases data@.len() - k,
        {
            copy.push(data[k]);
            k = k + 1;
            assert(copy@ =~= data@.take(k as int));
        }
        assert(data@.take(k as int) =~= data@);
        let mut blobs: Vec<(String, Vec<u8>)> = Vec::new();
        std::mem::swap(&mut blobs, &mut self.blobs);
        let replace = i < blobs.len() && !str_lt(path, blobs[i].0.as_str());
        let ghost nb = (path@, data@);
        if replace {
            proof {
                assert(ps[i as int] == blobs@[i as int].0@);
                lemma_str_lt_total(ps[i as int], path@);
            }
            blobs.remove(i);
            blobs.insert(i, (path.to_owned(), copy));
            proof {
                let news = blobs@.map_values(|b: (String, Vec<u8>)| (b.0@, b.1@));
                assert(news =~= olds.update(i as int, nb));
                assert(spec_paths(news) =~= ps);
            }
        } else {
            proof {
                if i < ps.len() {
                    assert(ps[i as int] == blobs@[i as int].0@);
                    lemma_str_lt_total(ps[i as int], path@);
                }
            }
            blobs.insert(i, (path.to_owned(), copy));
            proof {
                let news = blobs@.map_values(|b: (String, Vec<u8>)| (b.0@, b.1@));
                assert(news =~= olds.insert(i as int, nb));
                let nps = spec_paths(news);
                assert(nps =~= ps.insert(i as int, path@));
                assert forall|a: int, b: int| 0 <= a < b < nps.len() implies spec_str_lt(
                    #[trigger] nps[a],
                    #[trigger] nps[b],
                ) by {
                    if b < i {
                        assert(nps[a] == ps[a] && nps[b] == ps[b]);
                    } else if b == i {
                        assert(nps[a] == ps[a]);
                    } else if a > i {
                        assert(nps[a] == ps[a - 1] && nps[b] == ps[b - 1]);
                    } else if a == i {
                        assert(nps[b] == ps[b - 1]);
                        if b - 1 > i {
                            lemma_str_lt_transitive(path@, ps[i as int], ps[b - 1]);
                        }
                    } else {
                        assert(nps[a] == ps[a] && nps[b] == ps[b - 1]);
                    }
                }
            }
        }
        self.blobs = blobs;
        proof {
            let news = self.blobs();
            let nps = spec_paths(news);
            let m = old(self)@.insert(path@, data@);
            assert(nps[i as int] == path@);
            assert forall|p: Seq<char>| #[trigger] self@.contains_key(p) == m.contains_key(p) by {
                if p == path@ {
                    assert(nps.contains(p));
                } else if ps.contains(p) {
                    let j = choose|j: int| 0 <= j < ps.len() && ps[j] == p;
                    if replace {
                        assert(nps[j] == p);
                    } else if j < i {
                        assert(nps[j] == p);
                    } else {
                        assert(nps[j + 1] == p);
                    }
                } else if nps.contains(p) {
                    let j = choose|j: int| 0 <= j < nps.len() && nps[j] == p;
                    if replace {
                        assert(ps[j] == p);
                    } else if j < i {
                        assert(ps[j] == p);
                    } else if j > i {
                        assert(ps[j - 1] == p);
                    }
                }
            }
            assert forall|p: Seq<char>| #[trigger] self@.contains_key(p) implies self@[p] == m[p] by {
                let j = nps.index_of(p);
                lemma_unique_position(nps, p, j);
                if p == path@ {
                    lemma_unique_position(nps, p, i as int);
                } else {
                    let oj = if replace || j < i { j } else { j - 1 };
                    assert(ps[oj] == p);
                    lemma_unique_position(ps, p, oj);
                }
            }
            assert(self@ =~= m);
        }
        Ok(())
    }

    /// Whether a blob is stored at `path`.
    fn blob_exists(&self, path: &str) -> (r: bool)
        ensures
            r == self@.contains_key(path@),
    {
        self.position(path).is_some()
    }

    /// The paths that start with `prefix`, in order.
    fn list(&self, prefix: &str) -> (r: Result<Vec<String>, String>)
        ensures
            r matches Ok(v) && {
                let vs = v@.map_values(|s: String| s@);
                &&& spec_sorted(vs)
                &&& forall|p: Seq<char>| vs.contains(p) <==> self@.contains_key(p) && prefix@.is_prefix_of(p)
            },
    {
        proof {
            use_type_invariant(self);
        }
        let ghost ps = spec_paths(self.blobs());
        let mut out: Vec<String> = Vec::new();
        let ghost mut src: Seq<int> = Seq::empty();
        let mut i: usize = 0;
        while i < self.blobs.len()
            invariant
                i <= self.blobs@.len(),
                ps == spec_paths(self.blobs()),
                spec_sorted(ps),
                src.len() == out@.len(),
                forall|a: int| 0 <= a < src.len() ==> 0 <= #[trigger] src[a] < i && out@[a]@ == ps[src[a]]
                    && prefix@.is_prefix_of(ps[src[a]]),
                forall|a: int, b: int| 0 <= a < b < src.len() ==> #[trigger] src[a] < #[trigger] src[b],
                forall|j: int| 0 <= j < i && prefix@.is_prefix_of(ps[j]) ==> exists|a: int| 0 <= a < src.len() && #[trigger] src[a] == j,
            decreases self.blobs@.len() - i,
        {
            assert(ps[i as int] == self.blobs@[i as int].0@);
            let ghost old_src = src;
            if str_starts_with(self.blobs[i].0.as_str(), prefix) {
                let s = self.blobs[i].0.clone();
                proof {
                    src = src.push(i as int);
                }
                out.push(s);
                assert(src[src.len() - 1] == i as int);
            }
            proof {
                assert forall|j: int| 0 <= j < i + 1 && prefix@.is_prefix_of(ps[j]) implies exists|a: int|
                    0 <= a < src.len() && #[trigger] src[a] == j by {
                    if j < i {
                        let a = choose|a: int| 0 <= a < old_src.len() && #[trigger] old_src[a] == j;
                        assert(src[a] == old_src[a]);
                    } else {
                        assert(src[src.len() - 1] == j);
                    }
                }
            }
            i = i + 1;
        }
        proof {
            let vs = out@.map_values(|s: String| s@);
            assert forall|a: int, b: int| 0 <= a < b < vs.len() implies spec_str_lt(#[trigger] vs[a], #[trigger] vs[b]) by {
                assert(vs[a] == ps[src[a]]);
                assert(vs[b] == ps[src[b]]);
            }
            assert forall|p: Seq<char>| vs.contains(p) <==> self@.contains_key(p) && prefix@.is_prefix_of(p) by {
                if vs.contains(p) {
                    let a = choose|a: int| 0 <= a < vs.len() && vs[a] == p;
                    assert(vs[a] == ps[src[a]]);
                    assert(ps.contains(p));
                }
                if self@.contains_key(p) && prefix@.is_prefix_of(p) {
                    let j = choose|j: int| 0 <= j < ps.len() && ps[j] == p;
                    let a = choose|a: int| 0 <= a < src.len() && #[trigger] src[a] == j;
                    assert(vs[a] == p);
                }
            }
        }
        Ok(out)
    }
}

/// In a sorted sequence of paths, a path occurs at one position only.
proof fn lemma_unique_position(ps: Seq<Seq<char>>, p: Seq<char>, i: int)
    requires
        spec_sorted(ps),
        0 <= i < ps.len(),
        ps[i] == p,
    ensures
        ps.index_of(p) == i,
{
    assert(ps.contains(p));
    let j = ps.index_of(p);
    lemma_str_lt_irreflexive(p);
    if j < i {
        assert(spec_str_lt(ps[j], ps[i]));
    } else if j > i {
        assert(spec_str_lt(ps[i], ps[j]));
    }
}

/// Reading a blob whole after writing it gives back the bytes written, and
/// a write leaves every other blob as it was.
pub proof fn lemma_read_after_write(before: Map<Seq<char>, Seq<u8>>, path: Seq<char>, data: Seq<u8>)
    ensures
        before.insert(path, data).contains_key(path),
        before.insert(path, data)[path].subrange(0, data.len() as int) == data,
        forall|p: Seq<char>|
            p != path ==> (#[trigger] before.insert(path, data).contains_key(p)) == before.contains_key(p) && (
            before.contains_key(p) ==> before.insert(path, data)[p] == before[p]),
{
    assert(before.insert(path, data)[path].subrange(0, data.len() as int) =~= data);
}

} // verus!
