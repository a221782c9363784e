use backupforge::error::Error;
use backupforge::storage::{MemoryStorage, StorageBackend, StorageConfig};
use backupforge::types::ChunkId;

#[test]
fn memory_storage_chunks() {
    let mut storage = MemoryStorage::new();
    let chunk_id = ChunkId("test123".to_string());
    let data = b"test data".to_vec();

    storage.put_chunk(&chunk_id, data.clone()).unwrap();
    assert!(storage.chunk_exists(&chunk_id).unwrap());
    assert_eq!(storage.get_chunk(&chunk_id).unwrap(), data);
    assert_eq!(storage.list_chunks().unwrap().len(), 1);

    storage.delete_chunk(&chunk_id).unwrap();
    assert!(!storage.chunk_exists(&chunk_id).unwrap());
    assert!(matches!(storage.get_chunk(&chunk_id), Err(Error::ChunkNotFound(_))));
    storage.delete_chunk(&chunk_id).unwrap();
}

#[test]
fn memory_storage_metadata() {
    let mut storage = MemoryStorage::new();
    let data = b"metadata content".to_vec();
    storage.put_metadata("test_metadata", data.clone()).unwrap();
    assert_eq!(storage.get_metadata("test_metadata").unwrap(), data);
    storage.delete_metadata("test_metadata").unwrap();
    assert!(storage.get_metadata("test_metadata").is_err());
}

#[test]
fn listing_names_every_chunk_once() {
    let mut storage = MemoryStorage::new();
    for name in ["c", "a", "b", "a"] {
        storage.put_chunk(&ChunkId(name.to_string()), name.as_bytes().to_vec()).unwrap();
    }
    let mut names: Vec<String> = storage.list_chunks().unwrap().into_iter().map(|c| c.0).collect();
    names.sort();
    assert_eq!(names, vec!["a", "b", "c"]);
}

#[test]
fn test_ssh_backup_creation() {
    let _engine = backupforge::engine::BackupEngine::new(Default::default());
    let storage_config = StorageConfig::Local { path: "/tmp/test".to_string() };
    assert!(matches!(storage_config, StorageConfig::Local { .. }));
}
