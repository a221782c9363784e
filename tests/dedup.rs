use backupforge::dedup::{DedupIndex, DedupStore};
use backupforge::types::ChunkId;

#[test]
fn test_dedup_index() {
    let mut index = DedupIndex::new();
    let chunk_id = ChunkId("test123".to_string());

    assert!(!index.contains(&chunk_id));

    index.insert(chunk_id.clone());
    assert!(index.contains(&chunk_id));
    assert_eq!(index.get_ref_count(&chunk_id), 1);

    index.insert(chunk_id.clone());
    assert_eq!(index.get_ref_count(&chunk_id), 2);

    assert!(!index.remove(&chunk_id));
    assert_eq!(index.get_ref_count(&chunk_id), 1);

    assert!(index.remove(&chunk_id));
    assert!(!index.contains(&chunk_id));
}

#[test]
fn test_dedup_store() {
    let mut store = DedupStore::new();
    let chunk_id = ChunkId("chunk1".to_string());

    assert!(!store.is_duplicate(&chunk_id));

    store.register_chunk(chunk_id.clone());
    assert!(store.is_duplicate(&chunk_id));

    let stats = store.stats();
    assert_eq!(stats.total_chunks, 1);
}

#[test]
fn releasing_an_unknown_address_is_a_no_op() {
    let mut index = DedupIndex::new();
    let a = ChunkId("aa".to_string());
    let b = ChunkId("bb".to_string());
    index.insert(a.clone());
    assert!(!index.remove(&b));
    assert_eq!(index.len(), 1);
    assert_eq!(index.get_ref_count(&b), 0);
    assert!(!index.is_empty());
}

#[test]
fn len_counts_distinct_addresses() {
    let mut index = DedupIndex::new();
    assert!(index.is_empty());
    for name in ["a", "b", "a", "c", "b", "a"] {
        index.insert(ChunkId(name.to_string()));
    }
    assert_eq!(index.len(), 3);
    assert_eq!(index.get_ref_count(&ChunkId("a".to_string())), 3);
    assert_eq!(index.get_ref_count(&ChunkId("b".to_string())), 2);
    assert!(!index.remove(&ChunkId("b".to_string())));
    assert!(index.remove(&ChunkId("b".to_string())));
    assert_eq!(index.len(), 2);
    assert!(index.contains(&ChunkId("c".to_string())));
    assert!(index.contains(&ChunkId("a".to_string())));
}

#[test]
fn unregister_reports_when_a_chunk_may_go() {
    let mut store = DedupStore::new();
    let id = ChunkId("x".to_string());
    store.register_chunk(id.clone());
    store.register_chunk(id.clone());
    assert!(!store.unregister_chunk(&id));
    assert!(store.unregister_chunk(&id));
    assert_eq!(store.stats().total_chunks, 0);
    assert!(store.index().is_empty());
}

#[test]
fn length_tracks_new_and_removed_entries() {
    let mut index = DedupIndex::new();
    let a = ChunkId("a".to_string());
    index.insert(a.clone());
    assert_eq!(index.len(), 1);
    index.insert(a.clone());
    assert_eq!(index.len(), 1);
    assert!(!index.remove(&a));
    assert_eq!(index.len(), 1);
    assert!(index.remove(&a));
    assert_eq!(index.len(), 0);
}
