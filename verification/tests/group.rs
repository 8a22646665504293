use tuckdb::exec::group::{chunk_index_end, group_index, metas_of_chunk};
use tuckdb::storage::chunk::{ChunkMeta, ColumnStats};

fn meta(col_idx: u32, chunk_idx: u32) -> ChunkMeta {
    ChunkMeta {
        col_idx,
        chunk_idx,
        encoding: 1,
        offset: 0,
        compressed_size: 0,
        uncompressed_size: 0,
        stats: ColumnStats::new(None, None, 0),
    }
}

fn key(parts: &[&str]) -> Vec<String> {
    parts.iter().map(|p| p.to_string()).collect()
}

#[test]
fn groups_are_numbered_in_first_seen_order() {
    let mut groups: Vec<Vec<String>> = Vec::new();
    assert_eq!(group_index(&mut groups, key(&["a", "1"])), 0);
    assert_eq!(group_index(&mut groups, key(&["b", "1"])), 1);
    assert_eq!(group_index(&mut groups, key(&["a", "1"])), 0);
    assert_eq!(group_index(&mut groups, key(&["a"])), 2);
    assert_eq!(groups, vec![key(&["a", "1"]), key(&["b", "1"]), key(&["a"])]);
}

#[test]
fn chunk_indices_and_their_metadata() {
    let metas = vec![meta(0, 0), meta(1, 0), meta(0, 2), meta(1, 2)];
    assert_eq!(chunk_index_end(&metas), 3);
    assert_eq!(chunk_index_end(&[]), 1);
    assert_eq!(metas_of_chunk(&metas, 2), vec![meta(0, 2), meta(1, 2)]);
    assert!(metas_of_chunk(&metas, 1).is_empty());
}
