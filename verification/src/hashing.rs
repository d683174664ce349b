//! Content hashes, hexadecimal text and random identifiers.

use rand::RngCore;
use sha2::{Digest, Sha256};
use vstd::prelude::*;

verus! {

/// The SHA-256 digest of `data`.
pub uninterp spec fn sha256_of(data: Seq<u8>) -> Seq<u8>;

/// `sha2::Sha256::digest`: the digest, named by `sha256_of`; it is 32 bytes long.
#[verifier::external_body]
fn sha256_digest(data: &[u8]) -> (r: Vec<u8>)
    ensures
        r@ == sha256_of(data@),
        r@.len() == 32,
{
    Sha256::digest(data).to_vec()
}

pub open spec fn hex_digit(n: nat) -> char {
    if n < 10 {
        ((n + '0' as nat) as char)
    } else {
        ((n - 10 + 'a' as nat) as char)
    }
}

/// Lowercase hexadecimal, two digits per byte, high nibble first.
pub open spec fn hex_of(bytes: Seq<u8>) -> Seq<char>
    decreases bytes.len(),
{
    if bytes.len() == 0 {
        Seq::<char>::empty()
    } else {
        hex_of(bytes.drop_last()) + seq![
            hex_digit((bytes.last() / 16) as nat),
            hex_digit((bytes.last() % 16) as nat),
        ]
    }
}

/// `hex::encode`: lowercase hexadecimal, two digits per byte.
#[verifier::external_body]
fn hex_encode(bytes: &[u8]) -> (r: String)
    ensures
        r@ == hex_of(bytes@),
{
    hex::encode(bytes)
}

/// `rand::thread_rng().fill_bytes`: `n` random bytes. Nothing is claimed of their values.
#[verifier::external_body]
fn random_bytes(n: usize) -> (r: Vec<u8>)
    ensures
        r@.len() == n,
{
    let mut value = vec![0_u8; n];
    rand::thread_rng().fill_bytes(&mut value);
    value
}

/// `n` random bytes as lowercase hexadecimal.
pub fn random_hex(n: usize) -> (r: String)
    ensures
        exists|b: Seq<u8>| b.len() == n && r@ == hex_of(b),
{
    let bytes = random_bytes(n);
    hex_encode(bytes.as_slice())
}

pub open spec fn spec_sha256_hex(data: Seq<u8>) -> Seq<char> {
    "sha256:"@ + hex_of(sha256_of(data))
}

/// Whether `c` is a lowercase hexadecimal digit.
pub open spec fn is_hex_digit(c: char) -> bool {
    ('0' <= c && c <= '9') || ('a' <= c && c <= 'f')
}

/// Hexadecimal text has two digits per byte, each a lowercase hexadecimal digit.
pub proof fn lemma_hex_of_digits(bytes: Seq<u8>)
    ensures
        hex_of(bytes).len() == 2 * bytes.len(),
        forall|i: int| 0 <= i < hex_of(bytes).len() ==> is_hex_digit(#[trigger] hex_of(bytes)[i]),
    decreases bytes.len(),
{
    if bytes.len() > 0 {
        lemma_hex_of_digits(bytes.drop_last());
        let hi = (bytes.last() / 16) as nat;
        let lo = (bytes.last() % 16) as nat;
        assert(is_hex_digit(hex_digit(hi)) && is_hex_digit(hex_digit(lo)));
        let prev = hex_of(bytes.drop_last());
        let h = hex_of(bytes);
        assert(h == prev + seq![hex_digit(hi), hex_digit(lo)]);
        assert forall|i: int| 0 <= i < h.len() implies is_hex_digit(#[trigger] h[i]) by {
            if i < prev.len() {
                assert(h[i] == prev[i]);
            }
        }
    }
}

/// `sha256:` followed by the hexadecimal SHA-256 digest of `bytes`: 64 lowercase
/// hexadecimal digits.
pub fn sha256_hex(bytes: &[u8]) -> (r: String)
    ensures
        r@ == spec_sha256_hex(bytes@),
        r@.len() == 71,
        r@.subrange(0, 7) == "sha256:"@,
        forall|i: int| 7 <= i < 71 ==> is_hex_digit(#[trigger] r@[i]),
{
    let digest = sha256_digest(bytes);
    let hex = hex_encode(digest.as_slice());
    let mut out = String::new();
    crate::text::push_str(&mut out, "sha256:");
    crate::text::push_str(&mut out, hex.as_str());
    assert(out@ =~= spec_sha256_hex(bytes@));
    proof {
        reveal_strlit("sha256:");
        lemma_hex_of_digits(digest@);
        assert(out@.subrange(0, 7) =~= "sha256:"@);
        assert forall|i: int| 7 <= i < 71 implies is_hex_digit(#[trigger] out@[i]) by {
            assert(out@[i] == hex@[i - 7]);
        }
    }
    out
}

} // verus!
