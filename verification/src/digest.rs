//! The word from which the chaotic sequence starts: the first eight bytes of
//! the SHA-256 digest of the seed.

use sha2::Digest;
use sha2::Sha256;
use vstd::prelude::*;

verus! {

/// The SHA-256 digest of `data`, as `sha2` computes it: 32 bytes.
pub uninterp spec fn sha256_of(data: Seq<u8>) -> Seq<u8>;

/// `Sha256::digest`: hashes `data` in one call. The result is the SHA-256
/// digest of `data`, which is not spelled out here but named.
#[verifier::external_body]
fn sha256(data: &[u8]) -> (digest: [u8; 32])
    ensures
        digest@ == sha256_of(data@),
{
    Sha256::digest(data).into()
}

/// The eight bytes of `word`, least significant first.
pub open spec fn le_bytes(word: u64) -> Seq<u8> {
    seq![
        (word & 0xff) as u8,
        ((word >> 8) & 0xff) as u8,
        ((word >> 16) & 0xff) as u8,
        ((word >> 24) & 0xff) as u8,
        ((word >> 32) & 0xff) as u8,
        ((word >> 40) & 0xff) as u8,
        ((word >> 48) & 0xff) as u8,
        ((word >> 56) & 0xff) as u8,
    ]
}

/// The word whose bytes, least significant first, are the first eight of
/// `bytes`.
pub open spec fn le_word(bytes: Seq<u8>) -> u64 {
    (bytes[0] as u64) | (bytes[1] as u64) << 8 | (bytes[2] as u64) << 16 | (bytes[3] as u64) << 24
        | (bytes[4] as u64) << 32 | (bytes[5] as u64) << 40 | (bytes[6] as u64) << 48 | (
    bytes[7] as u64) << 56
}

/// The bits that seed the chaotic sequence: the SHA-256 digest of the
/// seed's eight little-endian bytes, its first eight bytes read as a
/// little-endian word.
pub open spec fn chaotic_bits_of(seed: u64) -> u64 {
    le_word(sha256_of(le_bytes(seed)))
}

/// Reading back the bytes of a word gives the word.
pub proof fn lemma_le_word_of_le_bytes(word: u64)
    ensures
        le_word(le_bytes(word)) == word,
{
    let b = le_bytes(word);
    assert(b[0] == (word & 0xff) as u8);
    assert(b[1] == ((word >> 8) & 0xff) as u8);
    assert(b[2] == ((word >> 16) & 0xff) as u8);
    assert(b[3] == ((word >> 24) & 0xff) as u8);
    assert(b[4] == ((word >> 32) & 0xff) as u8);
    assert(b[5] == ((word >> 40) & 0xff) as u8);
    assert(b[6] == ((word >> 48) & 0xff) as u8);
    assert(b[7] == ((word >> 56) & 0xff) as u8);
    assert(((word & 0xff) as u8 as u64) | (((word >> 8) & 0xff) as u8 as u64) << 8 | (((word >> 16)
        & 0xff) as u8 as u64) << 16 | (((word >> 24) & 0xff) as u8 as u64) << 24 | (((word >> 32)
        & 0xff) as u8 as u64) << 32 | (((word >> 40) & 0xff) as u8 as u64) << 40 | (((word >> 48)
        & 0xff) as u8 as u64) << 48 | (((word >> 56) & 0xff) as u8 as u64) << 56 == word)
        by (bit_vector);
}

/// Computes the bits that seed the chaotic sequence for `seed`.
pub fn chaotic_seed_bits(seed: u64) -> (bits: u64)
    ensures
        bits == chaotic_bits_of(seed),
{
    let mut message: Vec<u8> = Vec::new();
    message.push((seed & 0xff) as u8);
    message.push(((seed >> 8) & 0xff) as u8);
    message.push(((seed >> 16) & 0xff) as u8);
    message.push(((seed >> 24) & 0xff) as u8);
    message.push(((seed >> 32) & 0xff) as u8);
    message.push(((seed >> 40) & 0xff) as u8);
    message.push(((seed >> 48) & 0xff) as u8);
    message.push(((seed >> 56) & 0xff) as u8);
    assert(message@ =~= le_bytes(seed));
    let digest = sha256(message.as_slice());
    (digest[0] as u64) | (digest[1] as u64) << 8 | (digest[2] as u64) << 16 | (digest[3] as u64)
        << 24 | (digest[4] as u64) << 32 | (digest[5] as u64) << 40 | (digest[6] as u64) << 48 | (
    digest[7] as u64) << 56
}

} // verus!
