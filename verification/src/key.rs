//! Key derivation: one deterministic 16-byte symmetric key from an
//! operator-supplied passphrase, by hashing the passphrase bytes followed by a
//! fixed salt and keeping the first 16 digest bytes.

use sha2::Digest;
use vstd::prelude::*;

verus! {

/// What the SHA-256 hash primitive returns for an input byte sequence.
pub uninterp spec fn sha256_of(data: Seq<u8>) -> Seq<u8>;

/// Relies on `sha2::Sha256` through `digest::Digest`: the 32-byte digest is a
/// function of the input bytes alone.
#[verifier::external_body]
pub(crate) fn sha256(data: &[u8]) -> (r: Vec<u8>)
    ensures
        r@ == sha256_of(data@),
        r@.len() == 32,
{
    let mut h = sha2::Sha256::new();
    h.update(data);
    h.finalize().to_vec()
}

/// The fixed salt fed to the hash after the passphrase bytes.
pub open spec fn salt() -> Seq<u8> {
    seq![
        83u8, 68, 70, 83, 77, 70, 79, 87, 82, 78, 194, 164, 35, 84, 73, 81, 78, 35, 84, 194, 164,
        77, 84, 194, 164, 61, 82, 33, 69, 51, 50, 114, 50, 51, 114, 51, 50, 114, 51, 50, 102, 110,
        119, 97, 101,
    ]
}

/// The salt as bytes.
fn salt_bytes() -> (r: Vec<u8>)
    ensures
        r@ == salt(),
{
    let r: Vec<u8> = vec![
        83u8, 68, 70, 83, 77, 70, 79, 87, 82, 78, 194, 164, 35, 84, 73, 81, 78, 35, 84, 194, 164,
        77, 84, 194, 164, 61, 82, 33, 69, 51, 50, 114, 50, 51, 114, 51, 50, 114, 51, 50, 102, 110,
        119, 97, 101,
    ];
    proof {
        assert(r@ =~= salt());
    }
    r
}

/// The key derived from a passphrase: the first 16 bytes of the SHA-256
/// digest of the passphrase bytes followed by the fixed salt.
pub open spec fn derived_key(passphrase: Seq<u8>) -> Seq<u8> {
    sha256_of(passphrase + salt()).take(16)
}

/// Derives the store's 16-byte symmetric key from a passphrase.
/// Deterministic: the same passphrase always yields the same key; there is no
/// per-boot randomness and no error path.
pub fn make_key(passphrase: &[u8]) -> (key: Vec<u8>)
    ensures
        key@ == derived_key(passphrase@),
        key@.len() == 16,
{
    let mut data: Vec<u8> = vstd::slice::slice_to_vec(passphrase);
    let mut s = salt_bytes();
    data.append(&mut s);
    let mut digest = sha256(data.as_slice());
    digest.truncate(16);
    proof {
        assert(digest@ =~= derived_key(passphrase@));
    }
    digest
}

} // verus!
