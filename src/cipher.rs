//! The block permutation and the key-derivation hashes, provided by outside
//! crates.
use vstd::prelude::*;
use aes_soft::cipher::generic_array::GenericArray;
use aes_soft::cipher::{BlockCipher, NewBlockCipher};
use aes_soft::Aes192;

verus! {

/// The AES-192 encryption of one 16-byte block under a 24-byte key.
pub uninterp spec fn aes192_encrypt_of(key: Seq<u8>, block: Seq<u8>) -> Seq<u8>;

/// The AES-192 decryption of one 16-byte block under a 24-byte key.
pub uninterp spec fn aes192_decrypt_of(key: Seq<u8>, block: Seq<u8>) -> Seq<u8>;

/// The 16-byte MD5 digest of the UTF-8 encoding of a string.
pub uninterp spec fn md5_of(s: Seq<char>) -> Seq<u8>;

/// The 24-byte Tiger digest of the UTF-8 encoding of a string.
pub uninterp spec fn tiger_of(s: Seq<char>) -> Seq<u8>;

/// Relies on aes_soft::Aes192 (`NewBlockCipher::new`, `BlockCipher::encrypt_block`):
/// encrypts one block, a function of key and block alone.
#[verifier::external_body]
pub(crate) fn aes192_encrypt_block(key: &[u8], block: &[u8]) -> (r: Vec<u8>)
    requires
        key@.len() == 24,
        block@.len() == 16,
    ensures
        r@ == aes192_encrypt_of(key@, block@),
        r@.len() == 16,
{
    let cipher = Aes192::new(GenericArray::from_slice(key));
    let mut b = GenericArray::clone_from_slice(block);
    cipher.encrypt_block(&mut b);
    b.to_vec()
}

/// Relies on aes_soft::Aes192 (`NewBlockCipher::new`, `BlockCipher::decrypt_block`):
/// decrypts one block, a function of key and block alone.
#[verifier::external_body]
pub(crate) fn aes192_decrypt_block(key: &[u8], block: &[u8]) -> (r: Vec<u8>)
    requires
        key@.len() == 24,
        block@.len() == 16,
    ensures
        r@ == aes192_decrypt_of(key@, block@),
        r@.len() == 16,
{
    let cipher = Aes192::new(GenericArray::from_slice(key));
    let mut b = GenericArray::clone_from_slice(block);
    cipher.decrypt_block(&mut b);
    b.to_vec()
}

/// Relies on md5::Md5 (`Digest::digest`, digest 0.8): the 16-byte MD5 digest of
/// the string's bytes.
#[verifier::external_body]
pub(crate) fn md5_digest(s: &str) -> (r: Vec<u8>)
    ensures
        r@ == md5_of(s@),
        r@.len() == 16,
{
    <md5::Md5 as md5::Digest>::digest(s.as_bytes()).to_vec()
}

/// Relies on tiger_digest::Tiger (`Digest::digest`, digest 0.7): the 24-byte
/// Tiger digest of the string's bytes.
#[verifier::external_body]
pub(crate) fn tiger_digest(s: &str) -> (r: Vec<u8>)
    ensures
        r@ == tiger_of(s@),
        r@.len() == 24,
{
    <tiger_digest::Tiger as tiger_digest::Digest>::digest(s.as_bytes()).to_vec()
}

} // verus!
