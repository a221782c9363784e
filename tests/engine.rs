use backupforge::chunker::ChunkingStrategy;
use backupforge::compression::CompressionAlgorithm;
use backupforge::encryption::EncryptionKey;
use backupforge::engine::{split_occurrences, BackupConfig, BackupEngine};
use backupforge::error::Error;
use backupforge::hash::hash_data_hex;
use backupforge::storage::{MemoryStorage, StorageBackend};
use backupforge::types::ChunkId;

#[test]
fn test_process_data_no_encryption() {
    let config = BackupConfig::default();
    let mut engine = BackupEngine::new(config);
    let mut store = MemoryStorage::new();

    let data = b"Hello, World!".repeat(1000).to_vec();
    let chunk_ids = engine.process_data(&mut store, &data).unwrap();

    assert!(!chunk_ids.is_empty());
}

#[test]
fn test_process_data_with_encryption() {
    let mut config = BackupConfig::default();
    config.encryption_key = Some(EncryptionKey::generate().unwrap());

    let mut engine = BackupEngine::new(config);
    let mut store = MemoryStorage::new();

    let data = b"Secret data!".repeat(1000).to_vec();
    let chunk_ids = engine.process_data(&mut store, &data).unwrap();

    assert!(!chunk_ids.is_empty());
}

#[test]
fn test_deduplication() {
    let config = BackupConfig::default();
    let mut engine = BackupEngine::new(config);
    let mut store = MemoryStorage::new();

    let data = b"Same data".repeat(1000).to_vec();

    let chunk_ids1 = engine.process_data(&mut store, &data).unwrap();
    let chunk_ids2 = engine.process_data(&mut store, &data).unwrap();

    assert_eq!(chunk_ids1, chunk_ids2);

    let stats = engine.dedup_stats().unwrap();
    assert!(stats.total_chunks > 0);
}

fn small_config(compression: CompressionAlgorithm, key: Option<EncryptionKey>) -> BackupConfig {
    BackupConfig {
        chunking_strategy: ChunkingStrategy::Fixed { size: 4 },
        compression,
        encryption_key: key,
    }
}

#[test]
fn restore_round_trips_under_every_transform() {
    let data = b"abcdefghijabcdefghij-xyz".to_vec();
    let configs = vec![
        small_config(CompressionAlgorithm::Disabled, None),
        small_config(CompressionAlgorithm::Zstd(3), None),
        small_config(CompressionAlgorithm::Lz4, None),
        small_config(CompressionAlgorithm::Zstd(3), Some(EncryptionKey::from_bytes(&[5u8; 32]).unwrap())),
    ];
    for config in configs {
        let mut engine = BackupEngine::new(config);
        let mut store = MemoryStorage::new();
        let ids = engine.process_data(&mut store, &data).unwrap();
        assert_eq!(ids.len(), 6);
        assert_eq!(engine.restore_data(&store, &ids).unwrap(), data);
    }
}

#[test]
fn stored_blob_is_the_pipeline_output() {
    let mut engine = BackupEngine::new(small_config(CompressionAlgorithm::Disabled, None));
    let mut store = MemoryStorage::new();
    let ids = engine.process_data(&mut store, b"wxyz").unwrap();
    assert_eq!(ids, vec![ChunkId(hash_data_hex(b"wxyz"))]);
    assert_eq!(store.get_chunk(&ids[0]).unwrap(), b"wxyz".to_vec());
}

#[test]
fn invalid_configuration_is_refused() {
    let config = BackupConfig {
        chunking_strategy: ChunkingStrategy::Fixed { size: 0 },
        compression: CompressionAlgorithm::Disabled,
        encryption_key: None,
    };
    let mut engine = BackupEngine::new(config);
    let mut store = MemoryStorage::new();
    assert!(matches!(engine.process_data(&mut store, b"abc"), Err(Error::InvalidConfig(_))));
    assert_eq!(store.chunk_count(), 0);
    let huge = BackupConfig {
        chunking_strategy: ChunkingStrategy::Fixed { size: 200 * 1024 * 1024 },
        compression: CompressionAlgorithm::Disabled,
        encryption_key: None,
    };
    let mut engine = BackupEngine::new(huge);
    assert!(matches!(engine.process_data(&mut store, b"abc"), Err(Error::InvalidConfig(_))));
}

#[test]
fn restoring_an_absent_address_fails() {
    let engine = BackupEngine::new(small_config(CompressionAlgorithm::Disabled, None));
    let store = MemoryStorage::new();
    let missing = vec![ChunkId(hash_data_hex(b"nothing"))];
    assert!(matches!(engine.restore_data(&store, &missing), Err(Error::ChunkNotFound(_))));
}

#[test]
fn occurrences_split_into_first_and_repeated() {
    let ids: Vec<ChunkId> = ["a", "b", "a", "c", "b", "a"].iter().map(|s| ChunkId(s.to_string())).collect();
    let (firsts, repeated) = split_occurrences(&ids);
    let names = |v: &Vec<ChunkId>| v.iter().map(|c| c.0.clone()).collect::<Vec<String>>();
    assert_eq!(names(&firsts), vec!["a", "b", "c"]);
    assert_eq!(names(&repeated), vec!["a", "b", "a"]);
}

#[test]
fn directories_have_no_chunks() {
    let mut engine = BackupEngine::new(BackupConfig::default());
    let mut store = MemoryStorage::new();
    let m = engine
        .backup_file(&mut store, "dir".to_string(), b"", 5, 0o755, true)
        .unwrap();
    assert!(m.chunk_ids.is_empty());
    assert!(m.is_directory);
    let f = engine
        .backup_file(&mut store, "dir/f".to_string(), b"content", 6, 0o644, false)
        .unwrap();
    assert_eq!(f.size, 7);
    assert_eq!(f.chunk_ids, vec![ChunkId(hash_data_hex(b"content"))]);
    assert_eq!(f.path, "dir/f");
    assert_eq!(f.modified, 6);
    assert_eq!(f.permissions, 0o644);
}

#[test]
fn snapshot_totals_and_union() {
    let mut engine = BackupEngine::new(small_config(CompressionAlgorithm::Disabled, None));
    let mut store = MemoryStorage::new();
    let f1 = engine.backup_file(&mut store, "a".to_string(), b"aaaabbbb", 0, 0o644, false).unwrap();
    let f2 = engine.backup_file(&mut store, "b".to_string(), b"aaaa", 0, 0o644, false).unwrap();
    let snap = engine
        .create_snapshot("nightly".to_string(), "/src".to_string(), vec![f1, f2], 1_700_000_000)
        .unwrap();
    assert_eq!(snap.total_size, 12);
    assert_eq!(snap.file_count, 2);
    assert_eq!(snap.chunk_ids.len(), 3);
    assert_eq!(snap.compressed_size, 8);
    assert_eq!(snap.name, "nightly");
    assert_eq!(snap.source_path, "/src");
    assert_eq!(snap.id.0.len(), 36);
    assert_eq!(snap.created_at, 1_700_000_000);
    assert!(snap.parent_snapshot.is_none());
    let again = engine.create_snapshot("x".to_string(), "/".to_string(), Vec::new(), 1_700_000_001).unwrap();
    assert_eq!(again.compressed_size, 0);
    assert_ne!(again.id, snap.id);
}

#[test]
fn snapshot_total_overflow_is_an_error() {
    let mut engine = BackupEngine::new(BackupConfig::default());
    let file = |size: u64| backupforge::types::FileMetadata {
        path: "f".to_string(),
        size,
        modified: 0,
        permissions: 0,
        is_directory: false,
        chunk_ids: Vec::new(),
    };
    let r = engine.create_snapshot("s".to_string(), "/".to_string(), vec![file(u64::MAX), file(1)], 0);
    assert!(matches!(r, Err(Error::Unknown(_))));
}

#[test]
fn commit_writes_the_manifest_and_canonicalises() {
    let mut engine = BackupEngine::new(small_config(CompressionAlgorithm::Disabled, None));
    let mut store = MemoryStorage::new();
    let f = engine.backup_file(&mut store, "f".to_string(), b"aaaaaaaabbbb", 0, 0o644, false).unwrap();
    let a = ChunkId(hash_data_hex(b"aaaa"));
    assert_eq!(engine.dedup_store().index().get_ref_count(&a), 2);
    let snap = engine.create_snapshot("s".to_string(), "/".to_string(), vec![f], 5).unwrap();
    engine.commit_snapshot(&mut store, &snap, b"manifest".to_vec()).unwrap();
    assert_eq!(engine.dedup_store().index().get_ref_count(&a), 1);
    let key = format!("snapshots/{}", snap.id.0);
    assert_eq!(store.get_metadata(&key).unwrap(), b"manifest".to_vec());
}
