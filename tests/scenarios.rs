use backupforge::chunker::{Chunker, ChunkingStrategy};
use backupforge::compression::CompressionAlgorithm;
use backupforge::encryption::{EncryptionKey, Encryptor};
use backupforge::engine::{BackupConfig, BackupEngine};
use backupforge::error::Error;
use backupforge::hash::hash_data_hex;
use backupforge::storage::{MemoryStorage, StorageBackend};
use backupforge::types::ChunkId;
use rand::{RngCore, SeedableRng};

fn pseudorandom(len: usize, seed: u64) -> Vec<u8> {
    let mut rng = rand::rngs::StdRng::seed_from_u64(seed);
    let mut data = vec![0u8; len];
    rng.fill_bytes(&mut data);
    data
}

#[test]
fn empty_file_has_no_addresses() {
    let mut engine = BackupEngine::new(BackupConfig::default());
    let mut store = MemoryStorage::new();
    let ids = engine.process_data(&mut store, b"").unwrap();
    assert!(ids.is_empty());
    assert_eq!(engine.restore_data(&store, &ids).unwrap(), Vec::<u8>::new());
}

#[test]
fn small_file_is_one_chunk() {
    let data = vec![0x41u8; 1024];
    let mut engine = BackupEngine::new(BackupConfig::default());
    let mut store = MemoryStorage::new();
    let ids = engine.process_data(&mut store, &data).unwrap();
    assert_eq!(ids, vec![ChunkId(hash_data_hex(&data))]);
    assert_eq!(engine.restore_data(&store, &ids).unwrap(), data);
}

#[test]
fn dedup_across_files() {
    let f = vec![0u8; 4 * 1024 * 1024];
    let mut engine = BackupEngine::new(BackupConfig::default());
    let mut store = MemoryStorage::new();
    let ids1 = engine.process_data(&mut store, &f).unwrap();
    let count1 = store.list_chunks().unwrap().len();
    let ids2 = engine.process_data(&mut store, &f).unwrap();
    assert_eq!(ids1, ids2);
    assert_eq!(store.list_chunks().unwrap().len(), count1);
}

#[test]
fn mid_file_edit_keeps_most_chunks() {
    let f = pseudorandom(16 * 1024 * 1024, 42);
    let mut edited = f.clone();
    edited.splice(8_000_000..8_000_000, [0xFFu8; 7]);
    let config = || BackupConfig {
        chunking_strategy: ChunkingStrategy::default(),
        compression: CompressionAlgorithm::Disabled,
        encryption_key: None,
    };
    let mut engine = BackupEngine::new(config());
    let mut store = MemoryStorage::new();
    let ids = engine.process_data(&mut store, &f).unwrap();
    let after_first = store.chunk_count();
    let ids2 = engine.process_data(&mut store, &edited).unwrap();
    let kept = ids.iter().filter(|a| ids2.contains(a)).count();
    assert!(kept * 2 >= ids.len());
    let fresh: std::collections::HashSet<&ChunkId> =
        ids2.iter().filter(|a| !ids.contains(a)).collect();
    assert_eq!(store.chunk_count(), after_first + fresh.len());
    assert_eq!(engine.restore_data(&store, &ids2).unwrap(), edited);
}

#[test]
fn encrypted_round_trip() {
    let key = EncryptionKey::from_password("correct horse battery staple", &[0u8; 16]).unwrap();
    let config = BackupConfig {
        chunking_strategy: ChunkingStrategy::default(),
        compression: CompressionAlgorithm::Zstd(3),
        encryption_key: Some(key),
    };
    let mut engine = BackupEngine::new(config);
    let mut store = MemoryStorage::new();
    let ids1 = engine.process_data(&mut store, b"hello world").unwrap();
    let ids2 = engine.process_data(&mut store, b"hello world").unwrap();
    assert_eq!(ids1, ids2);
    assert_eq!(store.chunk_count(), 1);
    assert_eq!(engine.restore_data(&store, &ids1).unwrap(), b"hello world".to_vec());
    assert_eq!(engine.restore_data(&store, &ids2).unwrap(), b"hello world".to_vec());
}

#[test]
fn snapshot_lifecycle() {
    let config = || BackupConfig {
        chunking_strategy: ChunkingStrategy::Fixed { size: 8 },
        compression: CompressionAlgorithm::Zstd(3),
        encryption_key: None,
    };
    let mut engine = BackupEngine::new(config());
    let mut store = MemoryStorage::new();
    let f = b"0123456789abcdef0123456789abcdefXYZ".to_vec();

    let m1 = engine.backup_file(&mut store, "f".to_string(), &f, 0, 0o644, false).unwrap();
    let s1 = engine.create_snapshot("S1".to_string(), "/".to_string(), vec![m1.clone()], 10).unwrap();
    engine.commit_snapshot(&mut store, &s1, b"s1".to_vec()).unwrap();
    let m2 = engine.backup_file(&mut store, "f".to_string(), &f, 0, 0o644, false).unwrap();
    let s2 = engine.create_snapshot("S2".to_string(), "/".to_string(), vec![m2], 20).unwrap();
    engine.commit_snapshot(&mut store, &s2, b"s2".to_vec()).unwrap();

    let residue = engine.drop_snapshot(&mut store, &s1).unwrap();
    assert!(residue.is_empty());
    for a in &m1.chunk_ids {
        assert_eq!(engine.dedup_store().index().get_ref_count(a), 1);
        assert!(store.chunk_exists(a).unwrap());
    }
    assert!(store.get_metadata(&format!("snapshots/{}", s1.id.0)).is_err());
    assert_eq!(engine.restore_data(&store, &m1.chunk_ids).unwrap(), f);

    engine.drop_snapshot(&mut store, &s2).unwrap();
    for a in &m1.chunk_ids {
        assert_eq!(engine.dedup_store().index().get_ref_count(a), 0);
        assert!(!store.chunk_exists(a).unwrap());
    }
    assert_eq!(store.chunk_count(), 0);
}

#[test]
fn fresh_repositories_agree_on_addresses() {
    let data = pseudorandom(300_000, 7);
    let config = || BackupConfig {
        chunking_strategy: ChunkingStrategy::ContentDefined {
            min_size: 1024,
            avg_size: 4096,
            max_size: 16384,
        },
        compression: CompressionAlgorithm::Lz4,
        encryption_key: None,
    };
    let mut e1 = BackupEngine::new(config());
    let mut e2 = BackupEngine::new(config());
    let mut s1 = MemoryStorage::new();
    let mut s2 = MemoryStorage::new();
    assert_eq!(
        e1.process_data(&mut s1, &data).unwrap(),
        e2.process_data(&mut s2, &data).unwrap()
    );
}

#[test]
fn encrypting_twice_gives_different_blobs() {
    let enc = Encryptor::new(EncryptionKey::generate().unwrap());
    let c1 = enc.encrypt(b"same plaintext").unwrap();
    let c2 = enc.encrypt(b"same plaintext").unwrap();
    assert_ne!(c1, c2);
    assert_eq!(enc.decrypt(&c1).unwrap(), b"same plaintext".to_vec());
    assert_eq!(enc.decrypt(&c2).unwrap(), b"same plaintext".to_vec());
}

fn boundaries(chunker: &Chunker, data: &[u8]) -> Vec<usize> {
    let mut out = Vec::new();
    let mut at = 0usize;
    for c in chunker.chunk_data(data).unwrap() {
        at += c.size as usize;
        out.push(at);
    }
    out
}

#[test]
fn cdc_boundaries_move_only_near_an_insertion() {
    let (min, avg, max) = (256usize, 1024usize, 4096usize);
    let chunker = Chunker::new(ChunkingStrategy::ContentDefined {
        min_size: min,
        avg_size: avg,
        max_size: max,
    });
    let data = pseudorandom(200_000, 11);
    for p in [0usize, 5_000, 77_777, 150_001] {
        let mut edited = data.clone();
        edited.insert(p, 0x5a);
        let before = boundaries(&chunker, &data);
        let after: Vec<usize> = boundaries(&chunker, &edited)
            .into_iter()
            .map(|b| if b > p { b - 1 } else { b })
            .collect();
        let lo = p.saturating_sub(max);
        let hi = p + 2 * max;
        for b in &before {
            if *b < lo || *b > hi {
                assert!(after.contains(b), "boundary {} lost for insertion at {}", b, p);
            }
        }
        for b in &after {
            if *b < lo || *b > hi {
                assert!(before.contains(b), "boundary {} new for insertion at {}", b, p);
            }
        }
    }
}

#[test]
fn corrupted_blob_fails_restore() {
    let key = EncryptionKey::from_bytes(&[3u8; 32]).unwrap();
    for (compression, key) in [
        (CompressionAlgorithm::Zstd(3), Some(key)),
        (CompressionAlgorithm::Disabled, None),
    ] {
        let mut engine = BackupEngine::new(BackupConfig {
            chunking_strategy: ChunkingStrategy::default(),
            compression,
            encryption_key: key,
        });
        let mut store = MemoryStorage::new();
        let ids = engine.process_data(&mut store, b"precious bytes").unwrap();
        let blob = store.get_chunk(&ids[0]).unwrap();
        for i in 0..blob.len() {
            let mut bad = blob.clone();
            bad[i] ^= 0x01;
            store.put_chunk(&ids[0], bad).unwrap();
            let r = engine.restore_data(&store, &ids);
            assert!(matches!(r, Err(Error::Integrity(_)) | Err(Error::Encryption(_))));
        }
    }
}

#[test]
fn repeated_put_changes_nothing() {
    let mut store = MemoryStorage::new();
    let a = ChunkId(hash_data_hex(b"x"));
    store.put_chunk(&a, b"blob".to_vec()).unwrap();
    let listed = store.list_chunks().unwrap();
    store.put_chunk(&a, b"blob".to_vec()).unwrap();
    assert_eq!(store.list_chunks().unwrap(), listed);
    assert_eq!(store.get_chunk(&a).unwrap(), b"blob".to_vec());
    assert_eq!(store.stats().unwrap().total_chunks, 1);
    assert_eq!(store.stats().unwrap().total_bytes, 4);
}
