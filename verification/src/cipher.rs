//! The block cipher primitive: AES-128 over single 16-byte blocks.
//!
//! Each block is enciphered independently (no chaining mode), so identical
//! plaintext blocks produce identical ciphertext blocks anywhere in the store.

use aes::cipher::{BlockDecrypt, BlockEncrypt, KeyInit};
use vstd::prelude::*;

verus! {

/// What AES-128 block encryption returns for a 16-byte key and a 16-byte
/// plaintext block.
pub uninterp spec fn aes_enc(key: Seq<u8>, block: Seq<u8>) -> Seq<u8>;

/// What AES-128 block decryption returns for a 16-byte key and a 16-byte
/// ciphertext block.
pub uninterp spec fn aes_dec(key: Seq<u8>, block: Seq<u8>) -> Seq<u8>;

/// Relies on `aes::Aes128` through `cipher::BlockEncrypt::encrypt_block`: the
/// ciphertext is a function of the key and the plaintext block alone, it is 16
/// bytes long, and AES-128 decryption under the same key inverts it.
#[verifier::external_body]
pub(crate) fn encrypt_block(key: &[u8], block: &[u8]) -> (r: Vec<u8>)
    requires
        key@.len() == 16,
        block@.len() == 16,
    ensures
        r@ == aes_enc(key@, block@),
        r@.len() == 16,
        aes_dec(key@, r@) == block@,
{
    let c = aes::Aes128::new_from_slice(key).unwrap();
    let mut b = aes::Block::clone_from_slice(block);
    c.encrypt_block(&mut b);
    b.to_vec()
}

/// Relies on `aes::Aes128` through `cipher::BlockDecrypt::decrypt_block`: the
/// plaintext is a function of the key and the ciphertext block alone and is 16
/// bytes long.
#[verifier::external_body]
pub(crate) fn decrypt_block(key: &[u8], block: &[u8]) -> (r: Vec<u8>)
    requires
        key@.len() == 16,
        block@.len() == 16,
    ensures
        r@ == aes_dec(key@, block@),
        r@.len() == 16,
{
    let c = aes::Aes128::new_from_slice(key).unwrap();
    let mut b = aes::Block::clone_from_slice(block);
    c.decrypt_block(&mut b);
    b.to_vec()
}

} // verus!
