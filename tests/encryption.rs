use backupforge::encryption::{EncryptionKey, Encryptor};
use backupforge::error::Error;

#[test]
fn test_key_generation() {
    let key1 = EncryptionKey::generate().unwrap();
    let key2 = EncryptionKey::generate().unwrap();

    assert_ne!(key1.as_bytes(), key2.as_bytes());
}

#[test]
fn test_key_from_password() {
    let salt = b"test_salt_123456";
    let key = EncryptionKey::from_password("my_password", salt).unwrap();
    assert_eq!(key.as_bytes().len(), 32);

    let key2 = EncryptionKey::from_password("my_password", salt).unwrap();
    assert_eq!(key.as_bytes(), key2.as_bytes());
}

#[test]
fn test_encryption_decryption() {
    let key = EncryptionKey::generate().unwrap();
    let encryptor = Encryptor::new(key);

    let plaintext = b"Hello, World! This is secret data.";
    let encrypted = encryptor.encrypt(plaintext).unwrap();

    assert_ne!(plaintext.to_vec(), encrypted);
    assert!(encrypted.len() > plaintext.len());

    let decrypted = encryptor.decrypt(&encrypted).unwrap();
    assert_eq!(plaintext.to_vec(), decrypted);
}

#[test]
fn test_encryption_different_each_time() {
    let key = EncryptionKey::generate().unwrap();
    let encryptor = Encryptor::new(key);

    let plaintext = b"test data";
    let encrypted1 = encryptor.encrypt(plaintext).unwrap();
    let encrypted2 = encryptor.encrypt(plaintext).unwrap();

    assert_ne!(encrypted1, encrypted2);

    assert_eq!(
        encryptor.decrypt(&encrypted1).unwrap(),
        encryptor.decrypt(&encrypted2).unwrap()
    );
}

#[test]
fn test_decrypt_invalid_data() {
    let key = EncryptionKey::generate().unwrap();
    let encryptor = Encryptor::new(key);

    let result = encryptor.decrypt(b"short");
    assert!(result.is_err());

    let plaintext = b"test";
    let mut encrypted = encryptor.encrypt(plaintext).unwrap();
    encrypted[20] ^= 0xFF;

    let result = encryptor.decrypt(&encrypted);
    assert!(result.is_err());
}

#[test]
fn ciphertext_layout_is_nonce_body_tag() {
    let encryptor = Encryptor::new(EncryptionKey::from_bytes(&[9u8; 32]).unwrap());
    let c = encryptor.encrypt(b"abcdef").unwrap();
    assert_eq!(c.len(), 12 + 6 + 16);
    assert_ne!(&c[12..18], b"abcdef");
}

#[test]
fn wrong_key_fails_to_decrypt() {
    let a = Encryptor::new(EncryptionKey::from_bytes(&[1u8; 32]).unwrap());
    let b = Encryptor::new(EncryptionKey::from_bytes(&[2u8; 32]).unwrap());
    let c = a.encrypt(b"payload").unwrap();
    assert!(matches!(b.decrypt(&c), Err(Error::Encryption(_))));
}

#[test]
fn key_bytes_round_trip() {
    let bytes: Vec<u8> = (0..32u8).collect();
    let key = EncryptionKey::from_bytes(&bytes).unwrap();
    assert_eq!(key.as_bytes(), &bytes[..]);
    assert!(matches!(EncryptionKey::from_bytes(&bytes[..31]), Err(Error::Encryption(_))));
}

#[test]
fn password_key_differs_from_password() {
    let key = EncryptionKey::from_password("correct horse battery staple", &[0u8; 16]).unwrap();
    assert_eq!(key.as_bytes().len(), 32);
    let other = EncryptionKey::from_password("correct horse battery stapl", &[0u8; 16]).unwrap();
    assert_ne!(key.as_bytes(), other.as_bytes());
}

#[test]
fn sealing_with_a_given_nonce_prefixes_it() {
    let enc = Encryptor::new(EncryptionKey::from_bytes(&[4u8; 32]).unwrap());
    let n1 = [1u8; 12];
    let n2 = [2u8; 12];
    let c1 = enc.seal_with_nonce(&n1, b"same").unwrap();
    let c2 = enc.seal_with_nonce(&n2, b"same").unwrap();
    assert_eq!(&c1[..12], &n1);
    assert_eq!(&c2[..12], &n2);
    assert_ne!(c1, c2);
    assert_eq!(c1, enc.seal_with_nonce(&n1, b"same").unwrap());
    assert_eq!(enc.decrypt(&c1).unwrap(), b"same".to_vec());
    assert_eq!(enc.decrypt(&c2).unwrap(), b"same".to_vec());
}

#[test]
fn salts_argon2_refuses_fail() {
    assert!(matches!(EncryptionKey::from_password("pw", b"short"), Err(Error::Encryption(_))));
    assert!(matches!(EncryptionKey::from_password("pw", &[0u8; 49]), Err(Error::Encryption(_))));
}
