use backupforge::compression::{CompressionAlgorithm, Compressor, MAX_DECOMPRESSED};
use backupforge::error::Error;

#[test]
fn test_zstd_compression() {
    let compressor = Compressor::new(CompressionAlgorithm::Zstd(3));
    let original = b"Hello, World! This is a test of compression. ".repeat(100);

    let compressed = compressor.compress(&original).unwrap();
    assert!(compressed.len() < original.len());

    let decompressed = compressor.decompress(&compressed).unwrap();
    assert_eq!(original.to_vec(), decompressed);
}

#[test]
fn test_lz4_compression() {
    let compressor = Compressor::new(CompressionAlgorithm::Lz4);
    let original = b"Hello, World! This is a test of compression. ".repeat(100);

    let compressed = compressor.compress(&original).unwrap();
    let decompressed = compressor.decompress(&compressed).unwrap();
    assert_eq!(original.to_vec(), decompressed);
}

#[test]
fn test_no_compression() {
    let compressor = Compressor::new(CompressionAlgorithm::Disabled);
    let data = b"test data";

    let compressed = compressor.compress(data).unwrap();
    assert_eq!(data.to_vec(), compressed);

    let decompressed = compressor.decompress(&compressed).unwrap();
    assert_eq!(data.to_vec(), decompressed);
}

#[test]
fn lz4_output_differs_from_input() {
    let compressor = Compressor::new(CompressionAlgorithm::Lz4);
    let original = vec![7u8; 4096];
    let compressed = compressor.compress(&original).unwrap();
    assert_ne!(compressed, original);
    assert!(compressed.len() < original.len());
}

#[test]
fn decompressing_foreign_bytes_fails() {
    let zstd = Compressor::new(CompressionAlgorithm::Zstd(3));
    let lz4 = Compressor::new(CompressionAlgorithm::Lz4);
    let framed = lz4.compress(b"some bytes, some bytes, some bytes").unwrap();
    assert!(matches!(zstd.decompress(&framed), Err(Error::Decompression(_))));
    let framed = zstd.compress(b"some bytes, some bytes, some bytes").unwrap();
    assert!(matches!(lz4.decompress(&framed), Err(Error::Decompression(_))));
    assert!(matches!(zstd.decompress(b"not a frame"), Err(Error::Decompression(_))));
}

#[test]
fn zstd_bomb_is_refused() {
    let zstd = Compressor::new(CompressionAlgorithm::Zstd(3));
    let big = vec![0u8; MAX_DECOMPRESSED + 1];
    let framed = zstd.compress(&big).unwrap();
    drop(big);
    assert!(framed.len() < 1_000_000);
    assert!(matches!(zstd.decompress(&framed), Err(Error::Decompression(_))));
}

#[test]
fn lz4_bomb_is_refused() {
    let lz4 = Compressor::new(CompressionAlgorithm::Lz4);
    let big = vec![0u8; MAX_DECOMPRESSED + 1];
    let framed = lz4.compress(&big).unwrap();
    drop(big);
    assert!(matches!(lz4.decompress(&framed), Err(Error::Decompression(_))));
}

#[test]
fn default_algorithm_is_zstd_level_three() {
    assert_eq!(CompressionAlgorithm::default(), CompressionAlgorithm::Zstd(3));
}
