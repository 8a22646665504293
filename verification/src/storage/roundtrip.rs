//! Batches written as a blob read back as the same batches.
use vstd::prelude::*;
use vstd::utf8::encode_utf8;
use vstd::arithmetic::div_mod::{
    lemma_fundamental_div_mod, lemma_fundamental_div_mod_converse_div, lemma_fundamental_div_mod_converse_mod,
    lemma_mod_pos_bound,
};
use crate::exec::batch::{Column, ColumnValues, RecordBatch};
use crate::schema::{DataType, spec_fields_view};
use crate::storage::chunk::{ChunkMeta, ColumnStats};
use crate::storage::encoding::{spec_encode_column, spec_decode_column, spec_values_len, spec_decodes_back};
use crate::storage::format::{
    spec_flat_columns, spec_batch_columns, spec_count_col, spec_data_bytes, spec_entry_meta, spec_entry_metas,
    spec_blob, spec_blob_prefix, spec_header_len, spec_metas_bytes, spec_schema_bytes, spec_read_header, spec_read_batches,
    spec_chunk_keys, spec_group, spec_group_columns, spec_chunk_column, spec_insert_key, spec_insert_by_col, spec_in_blob,
    spec_values_type, spec_same_len, lemma_blob_header_roundtrip, lemma_metas_len, lemma_data_bytes_prefix,
    lemma_count_batch, lemma_count_concat, lemma_flat_take_len,
};

verus! {

/// `k` split by `nf`: its quotient and remainder.
proof fn lemma_split_index(k: int, nf: int, nb: int)
    requires
        nf > 0,
        0 <= k < nb * nf,
    ensures
        0 <= k / nf < nb,
        0 <= k % nf < nf,
        k == (k / nf) * nf + k % nf,
{
    lemma_fundamental_div_mod(k, nf);
    lemma_mod_pos_bound(k, nf);
    let q = k / nf;
    let r = k % nf;
    assert(q * nf == nf * q) by (nonlinear_arith);
    assert(0 <= q) by (nonlinear_arith)
        requires
            k >= 0,
            nf > 0,
            k == nf * q + r,
            0 <= r < nf,
    ;
    assert(q < nb) by (nonlinear_arith)
        requires
            k < nb * nf,
            k == nf * q + r,
            r >= 0,
            nf > 0,
    ;
}

/// The quotient and remainder of `q * nf + c`.
proof fn lemma_divmod(q: int, nf: int, c: int)
    requires
        nf > 0,
        0 <= c < nf,
    ensures
        (q * nf + c) / nf == q,
        (q * nf + c) % nf == c,
{
    lemma_fundamental_div_mod_converse_div(q * nf + c, nf, q, c);
    lemma_fundamental_div_mod_converse_mod(q * nf + c, nf, q, c);
}

/// Every batch has `nf` columns.
pub open spec fn spec_widths(bs: Seq<RecordBatch>, nf: int) -> bool {
    forall|b: int| 0 <= b < bs.len() ==> (#[trigger] bs[b]).columns@.len() == nf
}

/// The entries of batches of `nf` columns: entry `k` is column `k % nf` of
/// batch `k / nf`.
proof fn lemma_flat_shape(bs: Seq<RecordBatch>, nf: int)
    requires
        nf > 0,
        spec_widths(bs, nf),
    ensures
        spec_flat_columns(bs).len() == bs.len() * nf,
        forall|k: int|
            0 <= k < bs.len() * nf ==> #[trigger] spec_flat_columns(bs)[k] == (k % nf, bs[k / nf].columns@[k % nf].data@),
    decreases bs.len(),
{
    let nb = bs.len() as int;
    if nb == 0 {
        assert(nb * nf == 0) by (nonlinear_arith)
            requires
                nb == 0,
        ;
    } else {
        let init = bs.drop_last();
        assert(spec_widths(init, nf)) by {
            assert forall|b: int| 0 <= b < init.len() implies (#[trigger] init[b]).columns@.len() == nf by {
                assert(init[b] == bs[b]);
            }
        }
        lemma_flat_shape(init, nf);
        let f0 = spec_flat_columns(init);
        let cols = spec_batch_columns(bs.last());
        assert(bs.last().columns@.len() == nf);
        assert((nb - 1) * nf + nf == nb * nf) by (nonlinear_arith);
        assert forall|k: int| 0 <= k < nb * nf implies #[trigger] spec_flat_columns(bs)[k] == (
        k % nf, bs[k / nf].columns@[k % nf].data@) by {
            if k < (nb - 1) * nf {
                lemma_split_index(k, nf, nb - 1);
                assert(spec_flat_columns(bs)[k] == f0[k]);
                assert(init[k / nf] == bs[k / nf]);
            } else {
                let c = k - (nb - 1) * nf;
                lemma_divmod(nb - 1, nf, c);
                assert(spec_flat_columns(bs)[k] == cols[c]);
            }
        }
    }
}

/// Each batch of `nf` columns adds one entry of each column.
proof fn lemma_count_uniform(bs: Seq<RecordBatch>, nf: int, c: int)
    requires
        spec_widths(bs, nf),
        0 <= c < nf,
    ensures
        spec_count_col(spec_flat_columns(bs), c) == bs.len(),
    decreases bs.len(),
{
    if bs.len() > 0 {
        let init = bs.drop_last();
        assert(spec_widths(init, nf)) by {
            assert forall|b: int| 0 <= b < init.len() implies (#[trigger] init[b]).columns@.len() == nf by {
                assert(init[b] == bs[b]);
            }
        }
        lemma_count_uniform(init, nf, c);
        let cols = spec_batch_columns(bs.last());
        assert(bs.last().columns@.len() == nf);
        lemma_count_concat(spec_flat_columns(init), cols, c);
        lemma_count_batch(cols, nf, c);
        assert(cols.take(nf) =~= cols);
    }
}

/// Entry `q * nf + c` has `q` entries of its column before it.
proof fn lemma_chunk_index(bs: Seq<RecordBatch>, nf: int, q: int, c: int)
    requires
        nf > 0,
        spec_widths(bs, nf),
        0 <= q < bs.len(),
        0 <= c < nf,
    ensures
        spec_count_col(spec_flat_columns(bs).take(q * nf + c), c) == q,
{
    let flat = spec_flat_columns(bs);
    let pre = bs.take(q);
    assert(spec_widths(pre, nf)) by {
        assert forall|b: int| 0 <= b < pre.len() implies (#[trigger] pre[b]).columns@.len() == nf by {
            assert(pre[b] == bs[b]);
        }
    }
    lemma_flat_shape(bs, nf);
    lemma_flat_shape(pre, nf);
    lemma_flat_take_len(bs, q);
    lemma_count_uniform(pre, nf, c);
    let cols = spec_batch_columns(bs[q]);
    assert(bs[q].columns@.len() == nf);
    assert(q * nf + c < bs.len() * nf) by (nonlinear_arith)
        requires
            q < bs.len(),
            c < nf,
            nf > 0,
    ;
    assert(flat.take(q * nf + c) =~= spec_flat_columns(pre) + cols.take(c)) by {
        assert forall|i: int| 0 <= i < q * nf + c implies flat.take(q * nf + c)[i] == (spec_flat_columns(pre)
            + cols.take(c))[i] by {
            if i < q * nf {
                assert(flat.take(q * nf)[i] == flat[i]);
            } else {
                let j = i - q * nf;
                lemma_divmod(q, nf, j);
                assert(flat[i] == cols[j]);
            }
        }
    }
    lemma_count_concat(spec_flat_columns(pre), cols.take(c), c);
    lemma_count_batch(cols, c, c);
}

/// The data of the first `j` entries starts the data of all of them.
proof fn lemma_data_prefix(flat: Seq<(int, ColumnValues)>, j: int)
    requires
        0 <= j <= flat.len(),
    ensures
        spec_data_bytes(flat.take(j)).len() <= spec_data_bytes(flat).len(),
        spec_data_bytes(flat).take(spec_data_bytes(flat.take(j)).len() as int) == spec_data_bytes(flat.take(j)),
    decreases flat.len(),
{
    if j < flat.len() {
        assert(flat.drop_last().take(j) =~= flat.take(j));
        lemma_data_prefix(flat.drop_last(), j);
        let d = spec_data_bytes(flat.drop_last());
        let n = spec_data_bytes(flat.take(j)).len() as int;
        assert((d + spec_encode_column(flat.last().1).1).take(n) =~= d.take(n));
    } else {
        assert(flat.take(j) =~= flat);
        assert(spec_data_bytes(flat).take(spec_data_bytes(flat).len() as int) =~= spec_data_bytes(flat));
    }
}

/// Where the data of entry `k` lies in the data of all entries.
proof fn lemma_entry_data(flat: Seq<(int, ColumnValues)>, k: int)
    requires
        0 <= k < flat.len(),
    ensures
        ({
            let d = spec_data_bytes(flat.take(k)).len() as int;
            let e = spec_encode_column(flat[k].1).1;
            &&& d + e.len() <= spec_data_bytes(flat).len()
            &&& spec_data_bytes(flat).subrange(d, d + e.len()) == e
        }),
{
    let d = spec_data_bytes(flat.take(k)).len() as int;
    let e = spec_encode_column(flat[k].1).1;
    assert(flat.take(k + 1).drop_last() =~= flat.take(k));
    assert(flat.take(k + 1).last() == flat[k]);
    assert(spec_data_bytes(flat.take(k + 1)) == spec_data_bytes(flat.take(k)) + e);
    lemma_data_prefix(flat, k + 1);
    let all = spec_data_bytes(flat);
    assert(all.subrange(d, d + e.len()) =~= (spec_data_bytes(flat.take(k)) + e).subrange(d, d + e.len()));
}

/// A blob is its header followed by the data of its entries.
proof fn lemma_blob_layout(
    fields: Seq<(Seq<char>, DataType, bool)>,
    flat: Seq<(int, ColumnValues)>,
    stats: Seq<ColumnStats>,
)
    requires
        stats.len() == flat.len(),
    ensures
        ({
            let hl = spec_header_len(fields, flat, stats);
            let blob = spec_blob(fields, flat, stats);
            &&& blob.len() == hl + spec_data_bytes(flat).len()
            &&& blob.subrange(hl, blob.len() as int) == spec_data_bytes(flat)
        }),
{
    let hl = spec_header_len(fields, flat, stats);
    let ms = spec_entry_metas(flat, stats, hl);
    let ms0 = spec_entry_metas(flat, stats, 0);
    assert forall|i: int| 0 <= i < ms.len() implies (#[trigger] ms[i]).stats == ms0[i].stats by {
    }
    lemma_metas_len(ms, ms0);
    let head = spec_blob_prefix(fields, flat.len()) + spec_metas_bytes(ms);
    let blob = spec_blob(fields, flat, stats);
    assert(blob == head + spec_data_bytes(flat));
    assert(blob.subrange(hl, blob.len() as int) =~= spec_data_bytes(flat));
}

/// The metadata of entry `q * nf + c` of batches of `nf` columns: column
/// `c`, chunk `q`, its encoding, and data within the blob at the place of
/// its encoded values.
proof fn lemma_meta_facts(
    fields: Seq<(Seq<char>, DataType, bool)>,
    bs: Seq<RecordBatch>,
    stats: Seq<ColumnStats>,
    nf: int,
    q: int,
    c: int,
)
    requires
        nf > 0,
        spec_widths(bs, nf),
        0 <= q < bs.len(),
        0 <= c < nf,
        stats.len() == spec_flat_columns(bs).len(),
        spec_flat_columns(bs).len() <= u32::MAX,
        spec_blob(fields, spec_flat_columns(bs), stats).len() <= u64::MAX,
        spec_values_len(bs[q].columns@[c].data@) <= u64::MAX,
    ensures
        ({
            let flat = spec_flat_columns(bs);
            let hl = spec_header_len(fields, flat, stats);
            let blob = spec_blob(fields, flat, stats);
            let m = spec_entry_metas(flat, stats, hl)[q * nf + c];
            let v = bs[q].columns@[c].data@;
            &&& 0 <= q * nf + c < flat.len()
            &&& m.col_idx == c
            &&& m.chunk_idx == q
            &&& m.encoding == spec_encode_column(v).0
            &&& m.uncompressed_size == spec_values_len(v)
            &&& spec_in_blob(m, blob.len() as int)
            &&& blob.subrange(m.offset as int, m.offset + m.compressed_size) == spec_encode_column(v).1
        }),
{
    let flat = spec_flat_columns(bs);
    let hl = spec_header_len(fields, flat, stats);
    let blob = spec_blob(fields, flat, stats);
    let k = q * nf + c;
    lemma_flat_shape(bs, nf);
    assert(k < bs.len() * nf) by (nonlinear_arith)
        requires
            k == q * nf + c,
            q < bs.len(),
            c < nf,
            nf > 0,
    ;
    assert(q <= k) by (nonlinear_arith)
        requires
            k == q * nf + c,
            q >= 0,
            c >= 0,
            nf > 0,
    ;
    lemma_divmod(q, nf, c);
    assert(flat[k] == (c, bs[q].columns@[c].data@));
    lemma_chunk_index(bs, nf, q, c);
    lemma_entry_data(flat, k);
    lemma_blob_layout(fields, flat, stats);
    let d = spec_data_bytes(flat.take(k)).len() as int;
    let e = spec_encode_column(flat[k].1).1;
    let m = spec_entry_metas(flat, stats, hl)[k];
    assert(m == spec_entry_meta(flat, stats, k, hl));
    assert(m.offset == hl + d);
    assert(m.compressed_size == e.len());
    assert(blob.subrange(hl + d, hl + d + e.len()) =~= spec_data_bytes(flat).subrange(d, d + e.len()));
    assert(nf <= flat.len()) by (nonlinear_arith)
        requires
            flat.len() == bs.len() * nf,
            bs.len() > q,
            q >= 0,
    ;
    assert(m.col_idx == c);
    assert(m.chunk_idx == q);
    assert(m.uncompressed_size == spec_values_len(flat[k].1));
    assert(spec_in_blob(m, blob.len() as int));
}

/// The indices below `n`, ascending.
pub open spec fn spec_range(n: int) -> Seq<u32> {
    Seq::new(n as nat, |i: int| i as u32)
}

/// Each entry is below the next.
spec fn spec_ascending(s: Seq<u32>) -> bool {
    forall|i: int, j: int| 0 <= i < j < s.len() ==> s[i] < s[j]
}

/// A key above every key is added at the end.
proof fn lemma_insert_greater(s: Seq<u32>, x: u32)
    requires
        forall|i: int| 0 <= i < s.len() ==> s[i] < x,
    ensures
        spec_insert_key(s, x) == s.push(x),
    decreases s.len(),
{
    if s.len() > 0 {
        lemma_insert_greater(s.drop_first(), x);
        assert(seq![s[0]] + s.drop_first().push(x) =~= s.push(x));
    } else {
        assert(seq![x] =~= s.push(x));
    }
}

/// A key that is the last of ascending keys is there already.
proof fn lemma_insert_last(s: Seq<u32>, x: u32)
    requires
        spec_ascending(s),
        s.len() > 0,
        s.last() == x,
    ensures
        spec_insert_key(s, x) == s,
    decreases s.len(),
{
    if s.len() > 1 {
        assert(s[0] < s[s.len() - 1]);
        let t = s.drop_first();
        assert(spec_ascending(t)) by {
            assert forall|i: int, j: int| 0 <= i < j < t.len() implies t[i] < t[j] by {
                assert(t[i] == s[i + 1] && t[j] == s[j + 1]);
            }
        }
        lemma_insert_last(t, x);
        assert(seq![s[0]] + t =~= s);
    }
}

/// The keys of the first `m` chunks, where chunk `k` has index `k / nf`:
/// the indices up to that of the last of them.
proof fn lemma_keys_prefix(ms: Seq<ChunkMeta>, len: int, nf: int, nb: int, m: int)
    requires
        nf > 0,
        0 <= nb <= u32::MAX,
        ms.len() == nb * nf,
        0 <= m <= ms.len(),
        forall|k: int| 0 <= k < ms.len() ==> spec_in_blob(#[trigger] ms[k], len) && ms[k].chunk_idx == k / nf,
    ensures
        spec_chunk_keys(ms.take(m), len) == spec_range(if m == 0 { 0 } else { (m - 1) / nf + 1 }),
    decreases m,
{
    if m == 0 {
        assert(ms.take(0) =~= Seq::<ChunkMeta>::empty());
        assert(spec_range(0) =~= Seq::<u32>::empty());
    } else {
        lemma_keys_prefix(ms, len, nf, nb, m - 1);
        let t = ms.take(m);
        assert(t.drop_last() =~= ms.take(m - 1));
        assert(t.last() == ms[m - 1]);
        let x = ms[m - 1].chunk_idx;
        lemma_split_index(m - 1, nf, nb);
        let q = (m - 1) / nf;
        let r = (m - 1) % nf;
        assert(x == q);
        if m == 1 {
            assert(spec_range(0) =~= Seq::<u32>::empty());
            assert(spec_insert_key(Seq::<u32>::empty(), x) == seq![x]);
            lemma_divmod(0, nf, 0);
            assert(spec_range(1) =~= seq![0u32]);
        } else {
            lemma_split_index(m - 2, nf, nb);
            let p = (m - 2) / nf;
            let prev = spec_range(p + 1);
            assert(spec_ascending(prev));
            if r == 0 {
                // The first chunk of a new index.
                assert(m - 2 == (q - 1) * nf + (nf - 1)) by (nonlinear_arith)
                    requires
                        m - 1 == q * nf + r,
                        r == 0,
                ;
                lemma_divmod(q - 1, nf, nf - 1);
                assert(p == q - 1);
                assert forall|i: int| 0 <= i < prev.len() implies prev[i] < x by {
                }
                lemma_insert_greater(prev, x);
                assert(prev.push(x) =~= spec_range(q + 1));
            } else {
                assert(m - 2 == q * nf + (r - 1));
                lemma_divmod(q, nf, r - 1);
                assert(p == q);
                assert(prev.last() == x);
                lemma_insert_last(prev, x);
            }
        }
    }
}

/// The keys of `nb` groups of `nf` chunks, where chunk `k` has index
/// `k / nf`: the indices below `nb`.
proof fn lemma_keys(ms: Seq<ChunkMeta>, len: int, nf: int, nb: int)
    requires
        nf > 0,
        0 <= nb <= u32::MAX,
        ms.len() == nb * nf,
        forall|k: int| 0 <= k < ms.len() ==> spec_in_blob(#[trigger] ms[k], len) && ms[k].chunk_idx == k / nf,
    ensures
        spec_chunk_keys(ms, len) == spec_range(nb),
{
    lemma_keys_prefix(ms, len, nf, nb, ms.len() as int);
    assert(ms.take(ms.len() as int) =~= ms);
    if nb > 0 {
        assert(ms.len() - 1 == (nb - 1) * nf + (nf - 1)) by (nonlinear_arith)
            requires
                ms.len() == nb * nf,
        ;
        lemma_divmod(nb - 1, nf, nf - 1);
    } else {
        assert(ms.len() == 0) by (nonlinear_arith)
            requires
                ms.len() == nb * nf,
                nb == 0,
        ;
    }
}

/// Where chunk `k` of chunks with index `k / nf` and column `k % nf` lies
/// in its group.
spec fn spec_chunk_shape(ms: Seq<ChunkMeta>, len: int, nf: int) -> bool {
    forall|k: int|
        0 <= k < ms.len() ==> spec_in_blob(#[trigger] ms[k], len) && ms[k].chunk_idx == k / nf && ms[k].col_idx == k
            % nf
}

/// The end of group `g` within the first `m` chunks.
spec fn spec_clamp(m: int, g: int, nf: int) -> int {
    if m <= g * nf {
        g * nf
    } else if m >= g * nf + nf {
        g * nf + nf
    } else {
        m
    }
}

/// The group of index `g` among the first `m` chunks: those of its
/// positions among them, in order.
proof fn lemma_group_prefix(ms: Seq<ChunkMeta>, len: int, nf: int, nb: int, g: int, m: int)
    requires
        nf > 0,
        0 <= nb <= u32::MAX,
        ms.len() == nb * nf,
        0 <= g < nb,
        0 <= m <= ms.len(),
        spec_chunk_shape(ms, len, nf),
    ensures
        spec_group(ms.take(m), len, g as u32) == ms.subrange(g * nf, spec_clamp(m, g, nf)),
    decreases m,
{
    assert(0 <= g * nf) by (nonlinear_arith)
        requires
            g >= 0,
            nf > 0,
    ;
    assert(g * nf + nf <= ms.len()) by (nonlinear_arith)
        requires
            g < nb,
            ms.len() == nb * nf,
            nf > 0,
    ;
    if m == 0 {
        assert(ms.take(0) =~= Seq::<ChunkMeta>::empty());
        assert(ms.subrange(g * nf, g * nf) =~= Seq::<ChunkMeta>::empty());
    } else {
        lemma_group_prefix(ms, len, nf, nb, g, m - 1);
        let t = ms.take(m);
        assert(t.drop_last() =~= ms.take(m - 1));
        assert(t.last() == ms[m - 1]);
        lemma_split_index(m - 1, nf, nb);
        let q = (m - 1) / nf;
        let r = (m - 1) % nf;
        let last = ms[m - 1];
        assert(last.chunk_idx == q && last.col_idx == r);
        if q == g {
            assert(g * nf <= m - 1 < g * nf + nf);
            assert(last.chunk_idx == g as u32);
            let prev = ms.subrange(g * nf, m - 1);
            assert(spec_clamp(m - 1, g, nf) == m - 1);
            if m - 1 == g * nf {
                assert(prev =~= Seq::<ChunkMeta>::empty());
                assert(spec_insert_by_col(prev, last) == seq![last]);
            } else {
                lemma_split_index(m - 2, nf, nb);
                assert(m - 2 == g * nf + (r - 1));
                lemma_divmod(g, nf, r - 1);
                assert(prev.last() == ms[m - 2]);
                assert(ms[m - 2].col_idx == r - 1);
                assert(spec_insert_by_col(prev, last) == prev.push(last));
            }
            assert(prev.push(last) =~= ms.subrange(g * nf, m));
        } else {
            assert(last.chunk_idx != g as u32);
            if q < g {
                assert(m - 1 < g * nf) by (nonlinear_arith)
                    requires
                        m - 1 == q * nf + r,
                        r < nf,
                        q < g,
                        nf > 0,
                ;
            } else {
                assert(m - 1 >= g * nf + nf) by (nonlinear_arith)
                    requires
                        m - 1 == q * nf + r,
                        r >= 0,
                        q > g,
                        nf > 0,
                ;
            }
        }
    }
}

/// The columns of a batch under the given fields: each field with the
/// values of the column at its position.
pub open spec fn spec_batch_view(b: RecordBatch, fields: Seq<(Seq<char>, DataType, bool)>) -> Seq<
    ((Seq<char>, DataType, bool), ColumnValues),
> {
    Seq::new(fields.len(), |c: int| (fields[c], b.columns@[c].data@))
}

/// Whether a batch can be written under the fields and read back: a column
/// of each field's type, all as long as the first and no longer than an
/// index can count, each of whose encodings reads back.
pub open spec fn spec_batch_fits(b: RecordBatch, fields: Seq<(Seq<char>, DataType, bool)>) -> bool {
    &&& b.columns@.len() == fields.len()
    &&& forall|c: int|
        0 <= c < fields.len() ==> {
            let v = (#[trigger] b.columns@[c]).data@;
            &&& spec_values_type(v) == fields[c].1
            &&& spec_values_len(v) == spec_values_len(b.columns@[0].data@)
            &&& spec_values_len(v) <= usize::MAX
            &&& spec_decodes_back(v)
        }
}

/// Chunk `c` of group `g` reads back as column `c` of batch `g`.
proof fn lemma_chunk_column(
    fields: Seq<(Seq<char>, DataType, bool)>,
    bs: Seq<RecordBatch>,
    stats: Seq<ColumnStats>,
    g: int,
    c: int,
)
    requires
        fields.len() > 0,
        spec_widths(bs, fields.len() as int),
        0 <= g < bs.len(),
        0 <= c < fields.len(),
        spec_values_type(bs[g].columns@[c].data@) == fields[c].1,
        spec_values_len(bs[g].columns@[c].data@) <= usize::MAX,
        spec_decodes_back(bs[g].columns@[c].data@),
        stats.len() == spec_flat_columns(bs).len(),
        spec_flat_columns(bs).len() <= u32::MAX,
        spec_blob(fields, spec_flat_columns(bs), stats).len() <= u64::MAX,
    ensures
        ({
            let nf = fields.len() as int;
            let flat = spec_flat_columns(bs);
            let blob = spec_blob(fields, flat, stats);
            let ms = spec_entry_metas(flat, stats, spec_header_len(fields, flat, stats));
            spec_chunk_column(blob, fields, ms[g * nf + c]) == Some((fields[c], bs[g].columns@[c].data@))
        }),
{
    let nf = fields.len() as int;
    let flat = spec_flat_columns(bs);
    let ms = spec_entry_metas(flat, stats, spec_header_len(fields, flat, stats));
    let v = bs[g].columns@[c].data@;
    lemma_meta_facts(fields, bs, stats, nf, g, c);
    let m = ms[g * nf + c];
    assert(((m.uncompressed_size as usize) as nat) == spec_values_len(v));
}

/// The first `j` chunks of a group whose chunks each read back as the
/// column at their position read back as the first `j` columns.
proof fn lemma_group_columns(
    blob: Seq<u8>,
    fields: Seq<(Seq<char>, DataType, bool)>,
    group: Seq<ChunkMeta>,
    view: Seq<((Seq<char>, DataType, bool), ColumnValues)>,
    j: int,
)
    requires
        0 <= j <= group.len(),
        group.len() == view.len(),
        forall|c: int| 0 <= c < group.len() ==> spec_chunk_column(blob, fields, #[trigger] group[c]) == Some(view[c]),
    ensures
        spec_group_columns(blob, fields, group.take(j)) == Some(view.take(j)),
    decreases j,
{
    if j == 0 {
        assert(group.take(0) =~= Seq::<ChunkMeta>::empty());
        assert(view.take(0) =~= Seq::<((Seq<char>, DataType, bool), ColumnValues)>::empty());
    } else {
        lemma_group_columns(blob, fields, group, view, j - 1);
        assert(group.take(j).drop_last() =~= group.take(j - 1));
        assert(group.take(j).last() == group[j - 1]);
        assert(view.take(j - 1).push(view[j - 1]) =~= view.take(j));
    }
}

/// The batches of the first `n` indices read back as the first `n`
/// batches.
proof fn lemma_read_prefix(
    fields: Seq<(Seq<char>, DataType, bool)>,
    bs: Seq<RecordBatch>,
    stats: Seq<ColumnStats>,
    n: int,
)
    requires
        fields.len() > 0,
        0 <= n <= bs.len(),
        bs.len() <= u32::MAX,
        forall|b: int| 0 <= b < bs.len() ==> spec_batch_fits(#[trigger] bs[b], fields),
        stats.len() == spec_flat_columns(bs).len(),
        spec_flat_columns(bs).len() <= u32::MAX,
        spec_blob(fields, spec_flat_columns(bs), stats).len() <= u64::MAX,
    ensures
        ({
            let flat = spec_flat_columns(bs);
            let blob = spec_blob(fields, flat, stats);
            let ms = spec_entry_metas(flat, stats, spec_header_len(fields, flat, stats));
            spec_read_batches(blob, fields, ms, spec_range(n)) == Some(
                Seq::new(n as nat, |b: int| spec_batch_view(bs[b], fields)),
            )
        }),
    decreases n,
{
    let nf = fields.len() as int;
    let nb = bs.len() as int;
    let flat = spec_flat_columns(bs);
    let blob = spec_blob(fields, flat, stats);
    let hl = spec_header_len(fields, flat, stats);
    let ms = spec_entry_metas(flat, stats, hl);
    let want = Seq::new(n as nat, |b: int| spec_batch_view(bs[b], fields));
    assert(spec_widths(bs, nf)) by {
        assert forall|b: int| 0 <= b < bs.len() implies (#[trigger] bs[b]).columns@.len() == nf by {
            assert(spec_batch_fits(bs[b], fields));
        }
    }
    if n == 0 {
        assert(spec_range(0) =~= Seq::<u32>::empty());
        assert(want =~= Seq::<Seq<((Seq<char>, DataType, bool), ColumnValues)>>::empty());
    } else {
        lemma_read_prefix(fields, bs, stats, n - 1);
        let g = n - 1;
        assert(spec_range(n).drop_last() =~= spec_range(n - 1));
        assert(spec_range(n).last() == g as u32);
        lemma_flat_shape(bs, nf);
        assert(spec_chunk_shape(ms, blob.len() as int, nf)) by {
            assert forall|k: int| 0 <= k < ms.len() implies spec_in_blob(#[trigger] ms[k], blob.len() as int)
                && ms[k].chunk_idx == k / nf && ms[k].col_idx == k % nf by {
                lemma_split_index(k, nf, nb);
                let q = k / nf;
                let c = k % nf;
                assert(spec_batch_fits(bs[q], fields));
                assert(spec_values_len(bs[q].columns@[c].data@) <= usize::MAX);
                lemma_meta_facts(fields, bs, stats, nf, q, c);
            }
        }
        lemma_group_prefix(ms, blob.len() as int, nf, nb, g, ms.len() as int);
        assert(ms.take(ms.len() as int) =~= ms);
        assert(g * nf + nf <= ms.len()) by (nonlinear_arith)
            requires
                g < nb,
                ms.len() == nb * nf,
                nf > 0,
        ;
        assert(spec_group(ms, blob.len() as int, g as u32) == ms.subrange(g * nf, g * nf + nf));
        assert(spec_batch_fits(bs[g], fields));
        let view = spec_batch_view(bs[g], fields);
        let group = ms.subrange(g * nf, g * nf + nf);
        assert forall|c: int| 0 <= c < group.len() implies spec_chunk_column(blob, fields, #[trigger] group[c])
            == Some(view[c]) by {
            let col = bs[g].columns@[c];
            assert(spec_values_type(col.data@) == fields[c].1 && spec_values_len(col.data@) <= usize::MAX
                && spec_decodes_back(col.data@));
            lemma_chunk_column(fields, bs, stats, g, c);
            assert(group[c] == ms[g * nf + c]);
        }
        lemma_group_columns(blob, fields, group, view, nf);
        assert(group.take(nf) =~= group);
        assert(view.take(nf) =~= view);
        assert(spec_same_len(view));
        assert(Seq::new((n - 1) as nat, |b: int| spec_batch_view(bs[b], fields)).push(view) =~= want);
    }
}

/// Batches written as a blob read back as the same batches, each with its
/// columns under the schema of the first: the header gives the schema and
/// the metadata of every chunk, and the chunks of each index give the
/// columns of one batch, in order. It holds where every batch has a column
/// of each field's type, all of one length, whose encodings read back (as
/// those of every column that a write encodes do), and the
/// counts and sizes fit their fields in the blob.
pub proof fn lemma_blob_roundtrip(bs: Seq<RecordBatch>, stats: Seq<ColumnStats>)
    requires
        bs.len() > 0,
        spec_fields_view(bs[0].schema.fields@).len() > 0,
        forall|b: int|
            0 <= b < bs.len() ==> spec_batch_fits(#[trigger] bs[b], spec_fields_view(bs[0].schema.fields@)),
        stats.len() == spec_flat_columns(bs).len(),
        spec_fields_view(bs[0].schema.fields@).len() <= u32::MAX,
        forall|i: int|
            0 <= i < bs[0].schema.fields@.len() ==> encode_utf8(
                (#[trigger] spec_fields_view(bs[0].schema.fields@)[i]).0,
            ).len() <= u32::MAX,
        spec_schema_bytes(spec_fields_view(bs[0].schema.fields@)).len() <= u32::MAX,
        spec_flat_columns(bs).len() <= u32::MAX,
        spec_blob(spec_fields_view(bs[0].schema.fields@), spec_flat_columns(bs), stats).len() <= u64::MAX,
    ensures
        ({
            let fields = spec_fields_view(bs[0].schema.fields@);
            let flat = spec_flat_columns(bs);
            let blob = spec_blob(fields, flat, stats);
            let ms = spec_entry_metas(flat, stats, spec_header_len(fields, flat, stats));
            &&& spec_read_header(blob) == Some((fields, ms))
            &&& ms.len() > 0
            &&& spec_read_batches(blob, fields, ms, spec_chunk_keys(ms, blob.len() as int)) == Some(
                Seq::new(bs.len(), |b: int| spec_batch_view(bs[b], fields)),
            )
        }),
{
    let fields = spec_fields_view(bs[0].schema.fields@);
    let nf = fields.len() as int;
    let nb = bs.len() as int;
    let flat = spec_flat_columns(bs);
    let blob = spec_blob(fields, flat, stats);
    let ms = spec_entry_metas(flat, stats, spec_header_len(fields, flat, stats));
    lemma_blob_header_roundtrip(fields, flat, stats);
    assert(spec_widths(bs, nf)) by {
        assert forall|b: int| 0 <= b < bs.len() implies (#[trigger] bs[b]).columns@.len() == nf by {
            assert(spec_batch_fits(bs[b], fields));
        }
    }
    lemma_flat_shape(bs, nf);
    assert(nb <= flat.len()) by (nonlinear_arith)
        requires
            flat.len() == nb * nf,
            nf > 0,
            nb >= 0,
    ;
    assert(ms.len() > 0) by (nonlinear_arith)
        requires
            ms.len() == nb * nf,
            nf > 0,
            nb > 0,
    ;
    assert(spec_chunk_shape(ms, blob.len() as int, nf)) by {
        assert forall|k: int| 0 <= k < ms.len() implies spec_in_blob(#[trigger] ms[k], blob.len() as int)
            && ms[k].chunk_idx == k / nf && ms[k].col_idx == k % nf by {
            lemma_split_index(k, nf, nb);
            let q = k / nf;
            let c = k % nf;
            assert(spec_batch_fits(bs[q], fields));
            assert(spec_values_len(bs[q].columns@[c].data@) <= usize::MAX);
            lemma_meta_facts(fields, bs, stats, nf, q, c);
        }
    }
    lemma_keys(ms, blob.len() as int, nf, nb);
    lemma_read_prefix(fields, bs, stats, nb);
}

} // verus!
