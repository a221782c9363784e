use backupforge::chunker::{Chunker, ChunkingStrategy};
use backupforge::error::Error;
use backupforge::hash::hash_data_hex;

#[test]
fn test_fixed_chunking() {
    let data = vec![0u8; 10000];
    let chunker = Chunker::new(ChunkingStrategy::Fixed { size: 1000 });
    let chunks = chunker.chunk_data(&data).unwrap();

    assert_eq!(chunks.len(), 10);
    for chunk in &chunks {
        assert_eq!(chunk.size, 1000);
    }
}

#[test]
fn test_cdc_chunking() {
    let data = vec![0u8; 10000];
    let chunker = Chunker::new(ChunkingStrategy::default());
    let chunks = chunker.chunk_data(&data).unwrap();

    assert!(!chunks.is_empty());
    assert!(chunks.len() >= 1);
}

#[test]
fn test_chunk_id_consistency() {
    let data = b"test data for chunking";
    let chunker = Chunker::new(ChunkingStrategy::Fixed { size: 10 });

    let chunks1 = chunker.chunk_data(data).unwrap();
    let chunks2 = chunker.chunk_data(data).unwrap();

    assert_eq!(chunks1.len(), chunks2.len());
    for (c1, c2) in chunks1.iter().zip(chunks2.iter()) {
        assert_eq!(c1.id, c2.id);
    }
}

#[test]
fn fixed_chunking_keeps_a_short_last_chunk() {
    let data: Vec<u8> = (0..25u8).collect();
    let chunker = Chunker::new(ChunkingStrategy::Fixed { size: 10 });
    let chunks = chunker.chunk_data(&data).unwrap();
    let sizes: Vec<u64> = chunks.iter().map(|c| c.size).collect();
    assert_eq!(sizes, vec![10, 10, 5]);
    assert_eq!(chunks[2].data, (20..25u8).collect::<Vec<u8>>());
    assert_eq!(chunks[0].id.0, hash_data_hex(&data[0..10]));
}

#[test]
fn chunks_concatenate_to_the_input() {
    let mut data = Vec::new();
    let mut x: u32 = 7;
    for _ in 0..50_000 {
        x = x.wrapping_mul(1_103_515_245).wrapping_add(12_345);
        data.push((x >> 16) as u8);
    }
    let chunker = Chunker::new(ChunkingStrategy::ContentDefined {
        min_size: 256,
        avg_size: 1024,
        max_size: 4096,
    });
    let chunks = chunker.chunk_data(&data).unwrap();
    let joined: Vec<u8> = chunks.iter().flat_map(|c| c.data.clone()).collect();
    assert_eq!(joined, data);
    assert!(chunks.len() > 1);
    for (i, c) in chunks.iter().enumerate() {
        assert!(c.size <= 4096);
        if i + 1 < chunks.len() {
            assert!(c.size >= 256);
        }
        assert_eq!(c.id.0, hash_data_hex(&c.data));
    }
}

#[test]
fn empty_input_gives_no_chunks() {
    let chunker = Chunker::new(ChunkingStrategy::default());
    assert_eq!(chunker.chunk_data(&[]).unwrap().len(), 0);
}

#[test]
fn invalid_strategies_are_refused() {
    let zero = Chunker::new(ChunkingStrategy::Fixed { size: 0 });
    assert!(matches!(zero.chunk_data(b"abc"), Err(Error::InvalidConfig(_))));
    let not_pow2 = Chunker::new(ChunkingStrategy::ContentDefined {
        min_size: 10,
        avg_size: 1000,
        max_size: 4000,
    });
    assert!(matches!(not_pow2.chunk_data(b"abc"), Err(Error::InvalidConfig(_))));
    let unordered = Chunker::new(ChunkingStrategy::ContentDefined {
        min_size: 2048,
        avg_size: 1024,
        max_size: 4096,
    });
    assert!(matches!(unordered.chunk_data(b"abc"), Err(Error::InvalidConfig(_))));
}

#[test]
fn input_below_min_size_is_one_chunk() {
    let data = vec![0x41u8; 1024];
    let chunker = Chunker::new(ChunkingStrategy::default());
    let chunks = chunker.chunk_data(&data).unwrap();
    assert_eq!(chunks.len(), 1);
    assert_eq!(chunks[0].size, 1024);
}
