use backupforge::hash::{hash_data, hash_data_hex};
use backupforge::types::ChunkId;

#[test]
fn test_hash_consistency() {
    let data = b"test data";
    let hash1 = hash_data(data);
    let hash2 = hash_data(data);
    assert_eq!(hash1, hash2);
}

#[test]
fn test_hash_different_data() {
    let hash1 = hash_data(b"data1");
    let hash2 = hash_data(b"data2");
    assert_ne!(hash1, hash2);
}

#[test]
fn digest_of_abc_is_blake3() {
    assert_eq!(
        hash_data_hex(b"abc"),
        "6437b3ac38465133ffb63b75273a8db548c558465d79db03fd359c6cd5bd9d85"
    );
    assert_eq!(hash_data(b"abc").len(), 32);
}

#[test]
fn address_is_lowercase_hex_of_the_digest() {
    let id = ChunkId::from_hash(&[0x00, 0x0f, 0xa0, 0xff]);
    assert_eq!(id.0, "000fa0ff");
    let empty = hash_data_hex(b"");
    assert_eq!(empty, "af1349b9f5f9a1a6a0404dea36dcc9499bcb25c9adc112b7cc9a93cae41f3262");
}
