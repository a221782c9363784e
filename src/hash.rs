use vstd::prelude::*;

verus! {

/// Length in bytes of a content digest.
pub const DIGEST_LEN: usize = 32;

/// The BLAKE3 digest of a byte sequence.
pub uninterp spec fn blake3_of(data: Seq<u8>) -> Seq<u8>;

/// The lowercase hexadecimal digit for a value below 16.
pub open spec fn hex_digit(n: u8) -> char {
    seq!['0', '1', '2', '3', '4', '5', '6', '7', '8', '9', 'a', 'b', 'c', 'd', 'e', 'f'][n as int]
}

/// Lowercase hexadecimal rendering of a byte sequence: two digits per byte,
/// high nibble first, no separators.
pub open spec fn hex_of(b: Seq<u8>) -> Seq<char>
    decreases b.len(),
{
    if b.len() == 0 {
        Seq::empty()
    } else {
        seq![hex_digit(b[0] / 16), hex_digit(b[0] % 16)] + hex_of(b.drop_first())
    }
}

/// The content address of a plaintext: its digest, rendered in hex.
pub open spec fn address_of(data: Seq<u8>) -> Seq<char> {
    hex_of(blake3_of(data))
}

/// Relies on `blake3::Hasher`: a 32-byte digest that depends on the input alone.
#[verifier::external_body]
fn blake3_digest(data: &[u8]) -> (r: Vec<u8>)
    ensures
        r@ == blake3_of(data@),
        r@.len() == DIGEST_LEN,
{
    blake3::Hasher::new().update(data).finalize().as_bytes().to_vec()
}

/// Relies on `hex::encode`: lowercase hex, two digits per byte, high nibble first.
#[verifier::external_body]
pub(crate) fn hex_encode(b: &[u8]) -> (r: String)
    ensures
        r@ == hex_of(b@),
{
    hex::encode(b)
}

/// Hash data with BLAKE3.
pub fn hash_data(data: &[u8]) -> (r: Vec<u8>)
    ensures
        r@ == blake3_of(data@),
        r@.len() == DIGEST_LEN,
{
    blake3_digest(data)
}

/// Hash data and render the digest as lowercase hex: the content address.
pub fn hash_data_hex(data: &[u8]) -> (r: String)
    ensures
        r@ == address_of(data@),
{
    let h = hash_data(data);
    hex_encode(h.as_slice())
}

} // verus!
