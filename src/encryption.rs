use vstd::prelude::*;
use vstd::slice::slice_to_vec;
use crate::error::Error;
use aes_gcm::aead::{Aead, KeyInit};
use argon2::PasswordHasher;

verus! {

/// Length in bytes of an AES-256-GCM nonce.
pub const NONCE_SIZE: usize = 12;

/// Length in bytes of an AES-256 key.
pub const KEY_SIZE: usize = 32;

/// Length in bytes of the authentication tag appended to a ciphertext.
pub const TAG_SIZE: usize = 16;

/// The longest plaintext AES-GCM accepts, in bytes.
pub const MAX_PLAINTEXT: u64 = 68719476736;

/// The longest password, in characters, whose UTF-8 form surely fits Argon2's limit.
pub const MAX_PASSWORD_CHARS: usize = 1073741823;

/// The shortest salt Argon2 accepts, in bytes.
pub const MIN_SALT: usize = 8;

/// The longest salt whose base64 form fits a salt string, in bytes.
pub const MAX_SALT: usize = 48;

/// The AES-256-GCM output (ciphertext, then tag) for `key`, `nonce` and plaintext `p`,
/// with empty associated data.
pub uninterp spec fn aes_gcm_seal(key: Seq<u8>, nonce: Seq<u8>, p: Seq<u8>) -> Seq<u8>;

/// The first 32 bytes of the default Argon2id hash of `password` under `salt`.
pub uninterp spec fn argon2_hash(password: Seq<char>, salt: Seq<u8>) -> Seq<u8>;

/// `c` is `nonce || AES-256-GCM(key, nonce, p)`: the stored layout of an encrypted payload.
pub open spec fn sealed(key: Seq<u8>, c: Seq<u8>, p: Seq<u8>) -> bool {
    &&& c.len() >= NONCE_SIZE
    &&& c.subrange(NONCE_SIZE as int, c.len() as int) == aes_gcm_seal(
        key,
        c.subrange(0, NONCE_SIZE as int),
        p,
    )
}

/// `r` holds exactly the bytes `p`.
pub open spec fn opened_to(r: Option<Vec<u8>>, p: Seq<u8>) -> bool {
    r matches Some(v) && v@ == p
}

/// Relies on `rand::rngs::OsRng::try_fill_bytes`: `n` bytes from the operating
/// system's generator, or nothing if it fails.
#[verifier::external_body]
pub(crate) fn random_bytes(n: usize) -> (r: Option<Vec<u8>>)
    ensures
        r matches Some(v) ==> v@.len() == n,
{
    let mut bytes = vec![0u8; n];
    rand::RngCore::try_fill_bytes(&mut rand::rngs::OsRng, &mut bytes).ok()?;
    Some(bytes)
}

/// Relies on `argon2::Argon2::default().hash_password` over the salt encoded by
/// `SaltString::encode_b64`: a 32-byte hash that depends on password and salt
/// alone. Only a salt outside 8 to 48 bytes, or a password longer than
/// 2^32 - 1 bytes, is refused.
#[verifier::external_body]
fn argon2_derive(password: &str, salt: &[u8]) -> (r: Option<Vec<u8>>)
    ensures
        r matches Some(k) ==> k@ == argon2_hash(password@, salt@),
        r matches Some(k) ==> k@.len() == KEY_SIZE,
        MIN_SALT <= salt@.len() <= MAX_SALT && password@.len() <= MAX_PASSWORD_CHARS ==> r is Some,
{
    let salt = argon2::password_hash::SaltString::encode_b64(salt).ok()?;
    let hash = argon2::Argon2::default().hash_password(password.as_bytes(), &salt).ok()?;
    Some(hash.hash?.as_bytes().to_vec())
}

/// Relies on `aes_gcm::Aes256Gcm::encrypt`: the ciphertext followed by a 16-byte
/// tag, a function of key, nonce and plaintext. With a 32-byte key it fails
/// only on a plaintext longer than `P_MAX` (2^36 bytes).
#[verifier::external_body]
fn aes_gcm_encrypt(key: &[u8], nonce: &[u8], data: &[u8]) -> (r: Option<Vec<u8>>)
    requires
        nonce@.len() == NONCE_SIZE,
    ensures
        r matches Some(c) ==> c@ == aes_gcm_seal(key@, nonce@, data@),
        r matches Some(c) ==> c@.len() == data@.len() + TAG_SIZE,
        key@.len() == KEY_SIZE && data@.len() <= MAX_PLAINTEXT ==> r is Some,
{
    let cipher = aes_gcm::Aes256Gcm::new_from_slice(key).ok()?;
    cipher.encrypt(aes_gcm::Nonce::from_slice(nonce), data).ok()
}

/// Relies on `aes_gcm::Aes256Gcm::decrypt` with a 32-byte key: what `encrypt`
/// made of `p` under the same key and nonce decrypts to `p`, and decryption
/// succeeds only where the tag checks, that is where encrypting the result
/// gives back the input.
#[verifier::external_body]
fn aes_gcm_decrypt(key: &[u8], nonce: &[u8], data: &[u8]) -> (r: Option<Vec<u8>>)
    requires
        key@.len() == KEY_SIZE,
        nonce@.len() == NONCE_SIZE,
    ensures
        forall|p: Seq<u8>| #[trigger] aes_gcm_seal(key@, nonce@, p) == data@ ==> opened_to(r, p),
        r matches Some(v) ==> aes_gcm_seal(key@, nonce@, v@) == data@,
{
    let cipher = aes_gcm::Aes256Gcm::new_from_slice(key).ok()?;
    cipher.decrypt(aes_gcm::Nonce::from_slice(nonce), data).ok()
}

/// A 256-bit key for AES-256-GCM.
#[derive(Clone)]
pub struct EncryptionKey {
    key: Vec<u8>,
}

impl View for EncryptionKey {
    type V = Seq<u8>;

    closed spec fn view(&self) -> Seq<u8> {
        self.key@
    }
}

impl EncryptionKey {
    /// A key is exactly 32 bytes long.
    pub closed spec fn wf(&self) -> bool {
        self.key@.len() == KEY_SIZE
    }

    /// A fresh random key; fails only if the system generator does.
    pub fn generate() -> (r: Result<EncryptionKey, Error>)
        ensures
            r matches Ok(k) ==> k.wf() && k@.len() == KEY_SIZE,
            r matches Err(e) ==> e is Encryption,
    {
        match random_bytes(KEY_SIZE) {
            Some(key) => Ok(EncryptionKey { key }),
            None => Err(Error::Encryption("random generator failed".to_string())),
        }
    }

    /// Derive a key from a password and a salt with Argon2id. Succeeds
    /// exactly where Argon2 accepts the salt (8 to 48 bytes) and the password.
    pub fn from_password(password: &str, salt: &[u8]) -> (r: Result<EncryptionKey, Error>)
        ensures
            r matches Ok(k) ==> k.wf() && k@ == argon2_hash(password@, salt@),
            r matches Err(e) ==> e is Encryption,
            MIN_SALT <= salt@.len() <= MAX_SALT && password@.len() <= MAX_PASSWORD_CHARS ==> r is Ok,
    {
        match argon2_derive(password, salt) {
            Some(key) => Ok(EncryptionKey { key }),
            None => Err(Error::Encryption("password hashing failed".to_string())),
        }
    }

    /// Load a key from its bytes; fails unless there are exactly 32.
    pub fn from_bytes(bytes: &[u8]) -> (r: Result<EncryptionKey, Error>)
        ensures
            r is Ok <==> bytes@.len() == KEY_SIZE,
            r matches Ok(k) ==> k.wf() && k@ == bytes@,
            r matches Err(e) ==> e is Encryption,
    {
        if bytes.len() != KEY_SIZE {
            return Err(Error::Encryption("Key must be exactly 32 bytes".to_string()));
        }
        Ok(EncryptionKey { key: slice_to_vec(bytes) })
    }

    /// Export the key's bytes.
    pub fn as_bytes(&self) -> (r: &[u8])
        ensures
            r@ == self@,
    {
        self.key.as_slice()
    }
}

/// Encrypts and decrypts payloads with AES-256-GCM and a fresh nonce per message.
pub struct Encryptor {
    key: EncryptionKey,
}

impl Encryptor {
    pub fn new(key: EncryptionKey) -> (r: Encryptor)
        requires
            key.wf(),
        ensures
            r.wf(),
            r.key() == key@,
    {
        Encryptor { key }
    }

    /// The key in use.
    pub closed spec fn key(&self) -> Seq<u8> {
        self.key@
    }

    /// The key is 32 bytes long.
    pub closed spec fn wf(&self) -> bool {
        self.key.wf()
    }

    /// A well-formed encryptor has a 32-byte key.
    pub proof fn lemma_key_len(&self)
        requires
            self.wf(),
        ensures
            self.key().len() == KEY_SIZE,
    {
    }

    /// Encrypt `plaintext` under the given nonce: `nonce || ciphertext || tag`.
    /// Fails only on a plaintext longer than AES-GCM accepts.
    pub fn seal_with_nonce(&self, nonce: &[u8], plaintext: &[u8]) -> (r: Result<Vec<u8>, Error>)
        requires
            self.wf(),
            nonce@.len() == NONCE_SIZE,
        ensures
            r matches Ok(c) ==> c@ == nonce@ + aes_gcm_seal(self.key(), nonce@, plaintext@),
            r matches Ok(c) ==> sealed(self.key(), c@, plaintext@),
            r matches Ok(c) ==> c@.len() == NONCE_SIZE + plaintext@.len() + TAG_SIZE,
            r is Ok <==> plaintext@.len() <= MAX_PLAINTEXT,
            r matches Err(e) ==> e is Encryption,
    {
        if plaintext.len() as u64 > MAX_PLAINTEXT {
            return Err(Error::Encryption("plaintext too long".to_string()));
        }
        let sealed_part = match aes_gcm_encrypt(self.key.as_bytes(), nonce, plaintext) {
            Some(c) => c,
            None => {
                return Err(Error::Encryption("Encryption failed".to_string()));
            },
        };
        let mut result: Vec<u8> = Vec::new();
        result.extend_from_slice(nonce);
        result.extend_from_slice(sealed_part.as_slice());
        proof {
            assert(result@ =~= nonce@ + sealed_part@);
            assert(result@.subrange(0, NONCE_SIZE as int) =~= nonce@);
            assert(result@.subrange(NONCE_SIZE as int, result@.len() as int) =~= sealed_part@);
        }
        Ok(result)
    }

    /// Encrypt `plaintext` under a fresh random nonce; the result is
    /// `nonce || ciphertext || tag`.
    pub fn encrypt(&self, plaintext: &[u8]) -> (r: Result<Vec<u8>, Error>)
        requires
            self.wf(),
        ensures
            r matches Ok(c) ==> sealed(self.key(), c@, plaintext@),
            r matches Ok(c) ==> c@.len() == NONCE_SIZE + plaintext@.len() + TAG_SIZE,
            plaintext@.len() > MAX_PLAINTEXT ==> r is Err,
            r matches Err(e) ==> e is Encryption,
    {
        let nonce = match random_bytes(NONCE_SIZE) {
            Some(n) => n,
            None => {
                return Err(Error::Encryption("random generator failed".to_string()));
            },
        };
        self.seal_with_nonce(nonce.as_slice(), plaintext)
    }

    /// Decrypt `nonce || ciphertext || tag`. Input shorter than a nonce fails;
    /// what `encrypt` produced under the same key decrypts to its plaintext,
    /// and whatever decrypts is such an output.
    pub fn decrypt(&self, data: &[u8]) -> (r: Result<Vec<u8>, Error>)
        requires
            self.wf(),
        ensures
            data@.len() < NONCE_SIZE ==> r is Err,
            r matches Err(e) ==> e is Encryption,
            r matches Ok(v) ==> sealed(self.key(), data@, v@),
            forall|p: Seq<u8>| #[trigger] sealed(self.key(), data@, p) ==> (r matches Ok(v) && v@ == p),
    {
        if data.len() < NONCE_SIZE {
            return Err(Error::Encryption("Data too short".to_string()));
        }
        let nonce = &data[0..NONCE_SIZE];
        let body = &data[NONCE_SIZE..data.len()];
        let out = aes_gcm_decrypt(self.key.as_bytes(), nonce, body);
        proof {
            assert forall|p: Seq<u8>| #[trigger] sealed(self.key(), data@, p) implies opened_to(out, p) by {
                assert(aes_gcm_seal(self.key(), nonce@, p) == body@);
            }
        }
        match out {
            Some(v) => Ok(v),
            None => Err(Error::Encryption("Decryption failed".to_string())),
        }
    }
}

/// An encrypted payload split into its nonce and the rest.
#[derive(Debug, Clone)]
pub struct EncryptedMetadata {
    pub nonce: Vec<u8>,
    pub ciphertext: Vec<u8>,
}

} // verus!
