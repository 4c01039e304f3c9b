//! SHA-256 digests in hexadecimal notation.

use crate::chars::is_digit;
use crate::docx::shape::hex_tag;
use sha2::{Digest, Sha256};
use vstd::prelude::*;

verus! {

/// The SHA-256 digest of a byte string.
pub uninterp spec fn sha256(data: Seq<u8>) -> Seq<u8>;

/// `sha2::Sha256::digest`: the digest of `data`, which is 32 bytes long.
#[verifier::external_body]
fn sha256_digest(data: &[u8]) -> (r: Vec<u8>)
    ensures
        r@ == sha256(data@),
        r@.len() == 32,
{
    Sha256::digest(data).to_vec()
}

/// The lower-case hexadecimal digit of value `d`.
pub open spec fn hex_digit(d: int) -> char {
    if d < 10 {
        ((48 + d) as u8) as char
    } else {
        ((87 + d) as u8) as char
    }
}

/// Two lower-case hexadecimal digits for each byte, the high one first.
pub open spec fn hex_text(data: Seq<u8>) -> Seq<char> {
    Seq::new(
        2 * data.len(),
        |i: int|
            if i % 2 == 0 {
                hex_digit(data[i / 2] as int / 16)
            } else {
                hex_digit(data[i / 2] as int % 16)
            },
    )
}

/// Every character of a hexadecimal text is a digit or one of the letters from `a` to `f`.
pub proof fn law_hex_text(data: Seq<u8>)
    ensures
        hex_tag(hex_text(data)),
{
    let t = hex_text(data);
    assert forall|i: int| 0 <= i < t.len() implies is_digit(#[trigger] t[i]) || 'a' <= t[i] <= 'f' by {
        let b = data[i / 2] as int;
        assert(0 <= b / 16 < 16 && 0 <= b % 16 < 16);
    }
}

/// `hex::encode`: two lower-case hexadecimal digits for each byte, the high one first.
#[verifier::external_body]
fn hex_encode(data: &[u8]) -> (r: String)
    ensures
        r@ == hex_text(data@),
{
    hex::encode(data)
}

/// The digest of `data` in hexadecimal notation.
pub open spec fn sha256_hex_of(data: Seq<u8>) -> Seq<char> {
    hex_text(sha256(data))
}

/// The digest of `data` in hexadecimal notation, which is 64 characters long.
pub fn sha256_hex_bytes(data: &[u8]) -> (r: String)
    ensures
        r@ == sha256_hex_of(data@),
        r@.len() == 64,
{
    let d: Vec<u8> = sha256_digest(data);
    hex_encode(d.as_slice())
}

} // verus!
