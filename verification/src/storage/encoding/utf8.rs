//! Dictionary encoding of string columns, compressed with zstd. The
//! uncompressed payload is the number of distinct strings (a varint), each
//! distinct string in order of first appearance (its byte length as a varint,
//! then its UTF-8 bytes), and then, for every value, the position of that
//! value in the dictionary (a varint).
use vstd::prelude::*;
use vstd::utf8::{encode_utf8, decode_utf8, valid_utf8, encode_utf8_valid_utf8, encode_utf8_decode_utf8};
use crate::exec::batch::ColumnData;
use crate::text::{spec_views, spec_utf8, string_from_utf8, string_bytes, append_bytes, copy_range};
use crate::varint::{spec_decode_varint_from, spec_encode_varint, lemma_decode_varint_at, lemma_decode_advances, encode_varint, decode_varint};
use crate::storage::compress::{zstd_encode_all, zstd_decode_all, zstd_compress, zstd_decompress};

verus! {

/// The distinct values in order of first appearance.
pub open spec fn spec_dict(values: Seq<Seq<char>>) -> Seq<Seq<char>>
    decreases values.len(),
{
    if values.len() == 0 {
        Seq::empty()
    } else {
        let d = spec_dict(values.drop_last());
        if d.contains(values.last()) {
            d
        } else {
            d.push(values.last())
        }
    }
}

/// The first position of `v` in `d`.
#[verifier::opaque]
pub open spec fn spec_first_index(d: Seq<Seq<char>>, v: Seq<char>) -> int {
    choose|i: int| 0 <= i < d.len() && d[i] == v && forall|j: int| 0 <= j < i ==> d[j] != v
}

/// The dictionary entries from position `i` on.
pub open spec fn spec_dict_entries(d: Seq<Seq<char>>, i: int) -> Seq<u8>
    decreases d.len() - i,
{
    if i < 0 || i >= d.len() {
        Seq::empty()
    } else {
        spec_encode_varint(spec_utf8(d[i]).len() as u64) + spec_utf8(d[i]) + spec_dict_entries(d, i + 1)
    }
}

/// The dictionary positions of the values from position `k` on.
pub open spec fn spec_dict_indices(values: Seq<Seq<char>>, d: Seq<Seq<char>>, k: int) -> Seq<u8>
    decreases values.len() - k,
{
    if k < 0 || k >= values.len() {
        Seq::empty()
    } else {
        spec_encode_varint(spec_first_index(d, values[k]) as u64) + spec_dict_indices(values, d, k + 1)
    }
}

/// The uncompressed payload for `values`.
pub open spec fn spec_dict_payload(values: Seq<Seq<char>>) -> Seq<u8> {
    let d = spec_dict(values);
    spec_encode_varint(d.len() as u64) + spec_dict_entries(d, 0) + spec_dict_indices(values, d, 0)
}

/// Reading `n` dictionary entries from `pos` on: the strings and the
/// position after them.
pub open spec fn spec_parse_entries(p: Seq<u8>, pos: int, n: nat) -> Option<(Seq<Seq<char>>, int)>
    decreases n,
{
    if n == 0 {
        Some((Seq::empty(), pos))
    } else {
        match spec_decode_varint_from(p, pos, 0, 0) {
            None => None,
            Some((len, e)) => if e + len > p.len() || !valid_utf8(p.subrange(e, e + len)) {
                None
            } else {
                match spec_parse_entries(p, e + len, (n - 1) as nat) {
                    None => None,
                    Some((rest, end)) => Some((seq![decode_utf8(p.subrange(e, e + len))] + rest, end)),
                }
            },
        }
    }
}

/// Reading `n` dictionary positions from `pos` on, as the strings they name.
pub open spec fn spec_parse_indices(p: Seq<u8>, pos: int, d: Seq<Seq<char>>, n: nat) -> Option<Seq<Seq<char>>>
    decreases n,
{
    if n == 0 {
        Some(Seq::empty())
    } else {
        match spec_decode_varint_from(p, pos, 0, 0) {
            None => None,
            Some((idx, e)) => if idx >= d.len() {
                None
            } else {
                match spec_parse_indices(p, e, d, (n - 1) as nat) {
                    None => None,
                    Some(rest) => Some(seq![d[idx as int]] + rest),
                }
            },
        }
    }
}

/// The `count` strings that an uncompressed payload holds.
pub open spec fn spec_dict_decode(p: Seq<u8>, count: nat) -> Option<Seq<Seq<char>>> {
    match spec_decode_varint_from(p, 0, 0, 0) {
        None => None,
        Some((dl, e)) => match spec_parse_entries(p, e, dl as nat) {
            None => None,
            Some((d, e2)) => spec_parse_indices(p, e2, d, count),
        },
    }
}

/// The encoding of `values`: nothing for no values, else the compressed
/// payload.
pub open spec fn spec_utf8_encode(values: Seq<Seq<char>>) -> Seq<u8> {
    if values.len() == 0 {
        Seq::empty()
    } else {
        zstd_encode_all(spec_dict_payload(values), 3)
    }
}

/// The `count` strings that an encoding holds.
pub open spec fn spec_utf8_decode(bytes: Seq<u8>, count: nat) -> Option<Seq<Seq<char>>> {
    if count == 0 {
        Some(Seq::empty())
    } else {
        match zstd_decode_all(bytes) {
            None => None,
            Some(p) => spec_dict_decode(p, count),
        }
    }
}

/// Every value is in the dictionary, which holds nothing twice and nothing
/// but values.
pub proof fn lemma_dict(values: Seq<Seq<char>>)
    ensures
        forall|k: int| 0 <= k < values.len() ==> spec_dict(values).contains(#[trigger] values[k]),
        forall|i: int, j: int| 0 <= i < j < spec_dict(values).len() ==> spec_dict(values)[i] != spec_dict(values)[j],
        forall|i: int| 0 <= i < spec_dict(values).len() ==> values.contains(#[trigger] spec_dict(values)[i]),
        spec_dict(values).len() <= values.len(),
    decreases values.len(),
{
    if values.len() > 0 {
        let prefix = values.drop_last();
        lemma_dict(prefix);
        let d = spec_dict(prefix);
        assert forall|k: int| 0 <= k < values.len() implies spec_dict(values).contains(#[trigger] values[k]) by {
            if k < values.len() - 1 {
                assert(prefix[k] == values[k]);
                assert(d.contains(prefix[k]));
                if !d.contains(values.last()) {
                    let i = choose|i: int| 0 <= i < d.len() && d[i] == prefix[k];
                    assert(d.push(values.last())[i] == values[k]);
                }
            } else {
                if !d.contains(values.last()) {
                    assert(d.push(values.last())[d.len() as int] == values.last());
                }
            }
        }
        assert forall|i: int| 0 <= i < spec_dict(values).len() implies values.contains(#[trigger] spec_dict(values)[i]) by {
            if i < d.len() {
                assert(prefix.contains(d[i]));
                let k = choose|k: int| 0 <= k < prefix.len() && prefix[k] == d[i];
                assert(values[k] == d[i]);
            } else {
                assert(values[values.len() - 1] == values.last());
            }
        }
    }
}

proof fn lemma_first_index(d: Seq<Seq<char>>, v: Seq<char>)
    requires
        d.contains(v),
    ensures
        0 <= spec_first_index(d, v) < d.len(),
        d[spec_first_index(d, v)] == v,
{
    let k = choose|k: int| 0 <= k < d.len() && d[k] == v;
    lemma_first_exists(d, v, k);
    reveal(spec_first_index);
}

proof fn lemma_first_exists(d: Seq<Seq<char>>, v: Seq<char>, k: int)
    requires
        0 <= k < d.len(),
        d[k] == v,
    ensures
        exists|i: int| 0 <= i < d.len() && d[i] == v && forall|j: int| 0 <= j < i ==> d[j] != v,
    decreases k,
{
    if exists|j: int| 0 <= j < k && d[j] == v {
        let j = choose|j: int| 0 <= j < k && d[j] == v;
        lemma_first_exists(d, v, j);
    } else {
        assert(forall|j: int| 0 <= j < k ==> d[j] != v);
    }
}

proof fn lemma_parse_entries(d: Seq<Seq<char>>, i: int, p: Seq<u8>, pos: int)
    requires
        0 <= i <= d.len(),
        0 <= pos,
        forall|j: int| 0 <= j < d.len() ==> spec_utf8(#[trigger] d[j]).len() <= u64::MAX,
        pos + spec_dict_entries(d, i).len() <= p.len(),
        p.subrange(pos, pos + spec_dict_entries(d, i).len()) == spec_dict_entries(d, i),
    ensures
        spec_parse_entries(p, pos, (d.len() - i) as nat)
            == Some((d.subrange(i, d.len() as int), pos + spec_dict_entries(d, i).len())),
    decreases d.len() - i,
{
    if i < d.len() {
        let bytes = spec_utf8(d[i]);
        let e1 = spec_encode_varint(bytes.len() as u64);
        let tail = spec_dict_entries(d, i + 1);
        let all = e1 + bytes + tail;
        assert(spec_dict_entries(d, i) == all);
        assert(p.subrange(pos, pos + e1.len()) =~= all.subrange(0, e1.len() as int));
        assert(all.subrange(0, e1.len() as int) =~= e1);
        lemma_decode_varint_at(bytes.len() as u64, p, pos);
        let e = pos + e1.len();
        assert(p.subrange(e, e + bytes.len()) =~= all.subrange(e1.len() as int, (e1.len() + bytes.len()) as int));
        assert(all.subrange(e1.len() as int, (e1.len() + bytes.len()) as int) =~= bytes);
        encode_utf8_valid_utf8(d[i]);
        encode_utf8_decode_utf8(d[i]);
        assert(p.subrange(e + bytes.len(), e + bytes.len() + tail.len()) =~= all.subrange((e1.len() + bytes.len()) as int, all.len() as int));
        assert(all.subrange((e1.len() + bytes.len()) as int, all.len() as int) =~= tail);
        lemma_parse_entries(d, i + 1, p, e + bytes.len());
        assert(d.subrange(i, d.len() as int) =~= seq![d[i]] + d.subrange(i + 1, d.len() as int));
    } else {
        assert(d.subrange(i, d.len() as int) =~= Seq::<Seq<char>>::empty());
    }
}

#[verifier::rlimit(30)]
proof fn lemma_parse_indices(values: Seq<Seq<char>>, d: Seq<Seq<char>>, k: int, p: Seq<u8>, pos: int)
    requires
        0 <= k <= values.len(),
        0 <= pos,
        d.len() <= u64::MAX,
        forall|j: int| 0 <= j < values.len() ==> 0 <= #[trigger] spec_first_index(d, values[j]) < d.len()
            && d[spec_first_index(d, values[j])] == values[j],
        pos + spec_dict_indices(values, d, k).len() <= p.len(),
        p.subrange(pos, pos + spec_dict_indices(values, d, k).len()) == spec_dict_indices(values, d, k),
    ensures
        spec_parse_indices(p, pos, d, (values.len() - k) as nat) == Some(values.subrange(k, values.len() as int)),
    decreases values.len() - k,
{
    if k < values.len() {
        let idx = spec_first_index(d, values[k]);
        let e1 = spec_encode_varint(idx as u64);
        let tail = spec_dict_indices(values, d, k + 1);
        let all = e1 + tail;
        assert(spec_dict_indices(values, d, k) == all);
        assert(p.subrange(pos, pos + e1.len()) =~= all.subrange(0, e1.len() as int));
        assert(all.subrange(0, e1.len() as int) =~= e1);
        lemma_decode_varint_at(idx as u64, p, pos);
        assert(spec_decode_varint_from(p, pos, 0, 0) == Some((idx as u64, pos + e1.len())));
        assert((idx as u64) as int == idx);
        assert(d[idx] == values[k]);
        assert(p.subrange(pos + e1.len(), pos + e1.len() + tail.len()) =~= all.subrange(e1.len() as int, all.len() as int));
        assert(all.subrange(e1.len() as int, all.len() as int) =~= tail);
        lemma_parse_indices(values, d, k + 1, p, pos + e1.len());
        let rest = values.subrange(k + 1, values.len() as int);
        assert(spec_parse_indices(p, pos + e1.len(), d, (values.len() - k - 1) as nat) == Some(rest));
        assert(values.subrange(k, values.len() as int) =~= seq![values[k]] + values.subrange(k + 1, values.len() as int));
    } else {
        assert(values.subrange(k, values.len() as int) =~= Seq::<Seq<char>>::empty());
    }
}

/// The payload of `values` decodes to `values`.
pub proof fn lemma_dict_roundtrip(values: Seq<Seq<char>>)
    requires
        values.len() <= u64::MAX,
        forall|j: int| 0 <= j < values.len() ==> spec_utf8(#[trigger] values[j]).len() <= u64::MAX,
    ensures
        spec_dict_decode(spec_dict_payload(values), values.len()) == Some(values),
{
    let d = spec_dict(values);
    lemma_dict(values);
    let h = spec_encode_varint(d.len() as u64);
    let en = spec_dict_entries(d, 0);
    let ix = spec_dict_indices(values, d, 0);
    let p = h + en + ix;
    assert(p.subrange(0, h.len() as int) =~= h);
    lemma_decode_varint_at(d.len() as u64, p, 0);
    assert forall|j: int| 0 <= j < d.len() implies spec_utf8(#[trigger] d[j]).len() <= u64::MAX by {
        assert(values.contains(d[j]));
        let k = choose|k: int| 0 <= k < values.len() && values[k] == d[j];
        assert(spec_utf8(values[k]).len() <= u64::MAX);
    }
    assert(p.subrange(h.len() as int, (h.len() + en.len()) as int) =~= en);
    lemma_parse_entries(d, 0, p, h.len() as int);
    assert(d.subrange(0, d.len() as int) =~= d);
    assert(p.subrange((h.len() + en.len()) as int, p.len() as int) =~= ix);
    assert forall|j: int| 0 <= j < values.len() implies 0 <= #[trigger] spec_first_index(d, values[j]) < d.len()
        && d[spec_first_index(d, values[j])] == values[j] by {
        lemma_first_index(d, values[j]);
    }
    lemma_parse_indices(values, d, 0, p, (h.len() + en.len()) as int);
    assert(values.subrange(0, values.len() as int) =~= values);
}

/// The encoding of `values` decodes to `values`.
pub proof fn lemma_utf8_roundtrip(values: Seq<Seq<char>>)
    requires
        values.len() <= u64::MAX,
        forall|j: int| 0 <= j < values.len() ==> spec_utf8(#[trigger] values[j]).len() <= u64::MAX,
        values.len() > 0 ==> zstd_decode_all(zstd_encode_all(spec_dict_payload(values), 3)) == Some(spec_dict_payload(values)),
    ensures
        spec_utf8_decode(spec_utf8_encode(values), values.len()) == Some(values),
{
    if values.len() > 0 {
        lemma_dict_roundtrip(values);
    }
}

proof fn lemma_first_index_unique(d: Seq<Seq<char>>, v: Seq<char>, i: int)
    requires
        0 <= i < d.len(),
        d[i] == v,
        forall|j: int| 0 <= j < i ==> d[j] != v,
    ensures
        spec_first_index(d, v) == i,
{
    lemma_first_index(d, v);
    reveal(spec_first_index);
    let f = spec_first_index(d, v);
    assert(forall|j: int| 0 <= j < f ==> d[j] != v);
}

/// The first position in `d` of a string equal to `v`. The dictionary is
/// searched in a `Vec`: vstd specifies `HashMap` only for keys with a key
/// model (integers, `bool`, and boxes of them), which a string lacks.
fn find_string(d: &Vec<String>, v: &String) -> (r: Option<usize>)
    ensures
        match r {
            Some(i) => i < d.len() && d@[i as int]@ == v@ && forall|j: int| 0 <= j < i ==> d@[j]@ != v@,
            None => forall|j: int| 0 <= j < d.len() ==> d@[j]@ != v@,
        },
{
    let mut i: usize = 0;
    while i < d.len()
        invariant
            i <= d.len(),
            forall|j: int| 0 <= j < i ==> d@[j]@ != v@,
        decreases d.len() - i,
    {
        if d[i] == *v {
            return Some(i);
        }
        i = i + 1;
    }
    None
}

/// Dictionary encoder for `Utf8` columns.
pub struct DictZstdEncoder;

impl DictZstdEncoder {
    /// The encoding of a `Utf8` column: nothing for no values, else the
    /// zstd frame of the dictionary payload. It decodes to the values.
    pub fn encode(&self, data: &ColumnData) -> (r: Vec<u8>)
        requires
            data is Utf8,
        ensures
            r@ == spec_utf8_encode(spec_views(data->Utf8_0@)),
            spec_utf8_decode(r@, data->Utf8_0@.len()) == Some(spec_views(data->Utf8_0@)),
    {
        let values = match data {
            ColumnData::Utf8(values) => values,
            _ => {
                return Vec::new();
            },
        };
        let ghost views = spec_views(values@);
        if values.len() == 0 {
            return Vec::new();
        }
        let mut dict: Vec<String> = Vec::new();
        let mut i: usize = 0;
        while i < values.len()
            invariant
                i <= values.len(),
                views == spec_views(values@),
                spec_views(dict@) == spec_dict(views.take(i as int)),
            decreases values.len() - i,
        {
            let ghost before = spec_views(dict@);
            assert(views.take(i + 1).drop_last() =~= views.take(i as int));
            match find_string(&dict, &values[i]) {
                Some(idx) => {
                    assert(before[idx as int] == views[i as int]);
                    assert(before.contains(views[i as int]));
                },
                None => {
                    assert forall|j: int| 0 <= j < before.len() implies before[j] != views[i as int] by {
                        assert(before[j] == dict@[j]@);
                    }
                    assert(!before.contains(views[i as int]));
                    dict.push(values[i].clone());
                    assert(spec_views(dict@) =~= before.push(views[i as int]));
                },
            }
            i = i + 1;
        }
        assert(views.take(values.len() as int) =~= views);
        let ghost d = spec_dict(views);
        proof {
            lemma_dict(views);
        }
        let mut buf: Vec<u8> = Vec::new();
        encode_varint(dict.len() as u64, &mut buf);
        let ghost head = buf@;
        let mut j: usize = 0;
        while j < dict.len()
            invariant
                j <= dict.len(),
                spec_views(dict@) == d,
                buf@ + spec_dict_entries(d, j as int) == head + spec_dict_entries(d, 0),
                forall|jj: int| 0 <= jj < j ==> spec_utf8(#[trigger] d[jj]).len() <= usize::MAX,
            decreases dict.len() - j,
        {
            let ghost before = buf@;
            let b = string_bytes(&dict[j]);
            let blen = b.len();
            encode_varint(blen as u64, &mut buf);
            append_bytes(&mut buf, b);
            assert(d[j as int] == dict@[j as int]@);
            assert(buf@ + spec_dict_entries(d, j + 1) =~= before + spec_dict_entries(d, j as int));
            j = j + 1;
        }
        assert(buf@ =~= buf@ + spec_dict_entries(d, j as int));
        let ghost mid = buf@;
        let mut k: usize = 0;
        while k < values.len()
            invariant
                k <= values.len(),
                views == spec_views(values@),
                spec_views(dict@) == d,
                d == spec_dict(views),
                forall|m: int| 0 <= m < views.len() ==> d.contains(#[trigger] views[m]),
                forall|jj: int| 0 <= jj < d.len() ==> spec_utf8(#[trigger] d[jj]).len() <= usize::MAX,
                buf@ + spec_dict_indices(views, d, k as int) == mid + spec_dict_indices(views, d, 0),
            decreases values.len() - k,
        {
            let ghost before = buf@;
            assert(d.contains(views[k as int]));
            let idx = match find_string(&dict, &values[k]) {
                Some(idx) => idx,
                None => {
                    assert(false);
                    0
                },
            };
            proof {
                lemma_first_index_unique(d, views[k as int], idx as int);
            }
            encode_varint(idx as u64, &mut buf);
            assert(buf@ + spec_dict_indices(views, d, k + 1) =~= before + spec_dict_indices(views, d, k as int));
            k = k + 1;
        }
        assert(buf@ =~= buf@ + spec_dict_indices(views, d, k as int));
        assert(buf@ =~= spec_dict_payload(views));
        match zstd_compress(buf.as_slice(), 3) {
            Ok(frame) => {
                proof {
                    assert forall|m: int| 0 <= m < views.len() implies spec_utf8(#[trigger] views[m]).len() <= u64::MAX by {
                        assert(d.contains(views[m]));
                        let jj = choose|jj: int| 0 <= jj < d.len() && d[jj] == views[m];
                        assert(spec_utf8(d[jj]).len() <= usize::MAX);
                    }
                    lemma_utf8_roundtrip(views);
                }
                frame
            },
            Err(_) => {
                assert(false);
                Vec::new()
            },
        }
    }

    pub fn encoding_id(&self) -> (id: u16)
        ensures
            id == 3,
    {
        3
    }
}

/// Dictionary decoder for `Utf8` columns.
pub struct DictZstdDecoder;

impl DictZstdDecoder {
    /// The `count` strings that `bytes` holds, or `None` where the frame does
    /// not decompress or the payload cannot be read.
    pub fn decode(&self, bytes: &[u8], count: usize) -> (r: Option<ColumnData>)
        ensures
            match r {
                Some(c) => (c matches ColumnData::Utf8(v) && spec_utf8_decode(bytes@, count as nat) == Some(spec_views(v@))),
                None => spec_utf8_decode(bytes@, count as nat) is None,
            },
    {
        if count == 0 {
            let v: Vec<String> = Vec::new();
            assert(spec_views(v@) =~= Seq::<Seq<char>>::empty());
            return Some(ColumnData::Utf8(v));
        }
        let payload = match zstd_decompress(bytes) {
            Ok(p) => p,
            Err(_) => {
                return None;
            },
        };
        match parse_dict_payload(payload.as_slice(), count) {
            Some(v) => Some(ColumnData::Utf8(v)),
            None => None,
        }
    }

    pub fn decoding_id(&self) -> (id: u16)
        ensures
            id == 3,
    {
        3
    }
}

/// The `count` strings that an uncompressed payload holds.
pub fn parse_dict_payload(p: &[u8], count: usize) -> (r: Option<Vec<String>>)
    ensures
        match r {
            Some(v) => spec_dict_decode(p@, count as nat) == Some(spec_views(v@)),
            None => spec_dict_decode(p@, count as nat) is None,
        },
{
    let plen = p.len();
    let (dict_len, mut pos) = match decode_varint(p, 0) {
        Some(x) => x,
        None => {
            return None;
        },
    };
    let ghost e0 = pos as int;
    let mut dict: Vec<String> = Vec::new();
    let mut i: u64 = 0;
    while i < dict_len
        invariant
            plen == p@.len(),
            i <= dict_len,
            spec_decode_varint_from(p@, 0, 0, 0) == Some((dict_len, e0)),
            spec_parse_entries(p@, e0, dict_len as nat) == (match spec_parse_entries(p@, pos as int, (dict_len - i) as nat) {
                None => None,
                Some((rest, end)) => Some((spec_views(dict@) + rest, end)),
            }),
        decreases dict_len - i,
    {
        let ghost old_dict = spec_views(dict@);
        let ghost old_pos = pos;
        let (s_len, e) = match decode_varint(p, pos) {
            Some(x) => x,
            None => {
                return None;
            },
        };
        proof {
            lemma_decode_advances(p@, old_pos as int);
        }
        if s_len > (plen - e) as u64 {
            return None;
        }
        let end = e + s_len as usize;
        let raw = copy_range(p, e, end);
        let s = match string_from_utf8(raw) {
            Some(s) => s,
            None => {
                return None;
            },
        };
        dict.push(s);
        pos = end;
        i = i + 1;
        proof {
            match spec_parse_entries(p@, pos as int, (dict_len - i) as nat) {
                None => {},
                Some((rest, fin)) => {
                    assert(spec_views(dict@) + rest =~= old_dict + (seq![decode_utf8(p@.subrange(e as int, end as int))] + rest));
                },
            }
        }
    }
    let ghost d = spec_views(dict@);
    assert(spec_parse_entries(p@, e0, dict_len as nat) == Some((d, pos as int))) by {
        assert(d + Seq::<Seq<char>>::empty() =~= d);
    }
    let ghost e2 = pos as int;
    let mut values: Vec<String> = Vec::new();
    let mut k: usize = 0;
    while k < count
        invariant
            k <= count,
            spec_views(dict@) == d,
            spec_dict_decode(p@, count as nat) == spec_parse_indices(p@, e2, d, count as nat),
            spec_parse_indices(p@, e2, d, count as nat) == (match spec_parse_indices(p@, pos as int, d, (count - k) as nat) {
                None => None,
                Some(rest) => Some(spec_views(values@) + rest),
            }),
        decreases count - k,
    {
        let ghost old_values = spec_views(values@);
        let (idx, e) = match decode_varint(p, pos) {
            Some(x) => x,
            None => {
                return None;
            },
        };
        if idx >= dict.len() as u64 {
            return None;
        }
        values.push(dict[idx as usize].clone());
        pos = e;
        k = k + 1;
        proof {
            match spec_parse_indices(p@, pos as int, d, (count - k) as nat) {
                None => {},
                Some(rest) => {
                    assert(spec_views(values@) + rest =~= old_values + (seq![d[idx as int]] + rest));
                },
            }
        }
    }
    assert(spec_views(values@) =~= spec_views(values@) + Seq::<Seq<char>>::empty());
    Some(values)
}

} // verus!
