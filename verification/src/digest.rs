//! The content hash of a file: the SHA-256 digest of its bytes, written in
//! hexadecimal.

use vstd::prelude::*;
use sha2::Digest;
use sha2::Sha256;

verus! {

/// The SHA-256 digest of a sequence of bytes.
pub uninterp spec fn sha256(data: Seq<u8>) -> Seq<u8>;

/// Feeds the bytes to a fresh `sha2::Sha256` hasher and hands out the
/// digest it ends with, which depends on the bytes alone and has 32
/// bytes, the output size in the type of the hasher.
#[verifier::external_body]
fn sha256_raw(data: &[u8]) -> (digest: Vec<u8>)
    ensures
        digest@ == sha256(data@),
        digest@.len() == 32,
{
    let mut hasher = Sha256::new();
    hasher.update(data);
    hasher.finalize().to_vec()
}

/// The lowercase hexadecimal digit of a number below sixteen.
pub open spec fn hex_digit(v: int) -> char {
    if v == 0 {
        '0'
    } else if v == 1 {
        '1'
    } else if v == 2 {
        '2'
    } else if v == 3 {
        '3'
    } else if v == 4 {
        '4'
    } else if v == 5 {
        '5'
    } else if v == 6 {
        '6'
    } else if v == 7 {
        '7'
    } else if v == 8 {
        '8'
    } else if v == 9 {
        '9'
    } else if v == 10 {
        'a'
    } else if v == 11 {
        'b'
    } else if v == 12 {
        'c'
    } else if v == 13 {
        'd'
    } else if v == 14 {
        'e'
    } else {
        'f'
    }
}

/// The bytes in lowercase hexadecimal: two digits for each byte, the
/// upper half of the byte first.
pub open spec fn hex_lower(data: Seq<u8>) -> Seq<char> {
    Seq::new(
        2 * data.len(),
        |i: int|
            if i % 2 == 0 {
                hex_digit(data[i / 2] as int / 16)
            } else {
                hex_digit(data[i / 2] as int % 16)
            },
    )
}

/// `hex::encode` writes each byte as two lowercase hexadecimal digits,
/// the upper half of the byte first.
#[verifier::external_body]
fn hex_encode(data: &Vec<u8>) -> (text: String)
    ensures
        text@ == hex_lower(data@),
{
    hex::encode(data)
}

/// The content hash of a file with the given bytes.
pub open spec fn content_hash_of(data: Seq<u8>) -> Seq<char> {
    hex_lower(sha256(data))
}

/// The content hash of a file with the given bytes.
pub fn content_hash(data: &[u8]) -> (hash: String)
    ensures
        hash@ == content_hash_of(data@),
        hash@.len() == 64,
{
    let digest = sha256_raw(data);
    hex_encode(&digest)
}

/// A digest in hexadecimal.
pub fn digest_text(digest: &Vec<u8>) -> (text: String)
    ensures
        text@ == hex_lower(digest@),
        text@.len() == 2 * digest@.len(),
{
    hex_encode(digest)
}

} // verus!
