//! The AES-128 block cipher, as the `aes` crate computes it.

use aes::cipher::generic_array::GenericArray;
use aes::cipher::{BlockDecrypt, BlockEncrypt, KeyInit};
use aes::Aes128;
use vstd::prelude::*;

use crate::block::BLOCK_SIZE;

verus! {

/// Number of bytes in a key.
pub const KEY_SIZE: usize = 16;

/// `aes::Aes128`: a cipher with its key schedule.
#[verifier::external_type_specification]
#[verifier::external_body]
pub struct ExAes128(Aes128);

/// The key that `cipher` was made from.
pub uninterp spec fn cipher_key(cipher: Aes128) -> Seq<u8>;

/// The sixteen bytes that AES-128 under `key` turns `block` into.
pub uninterp spec fn aes128_encrypted(key: Seq<u8>, block: Seq<u8>) -> Seq<u8>;

/// The sixteen bytes that the inverse of AES-128 under `key` turns `block` into.
pub uninterp spec fn aes128_decrypted(key: Seq<u8>, block: Seq<u8>) -> Seq<u8>;

/// AES-128 under `key` and its inverse map blocks to blocks, and each takes back
/// what the other one does.
pub open spec fn reversible(key: Seq<u8>) -> bool {
    &&& forall|block: Seq<u8>|
        block.len() == BLOCK_SIZE ==> {
            &&& (#[trigger] aes128_encrypted(key, block)).len() == BLOCK_SIZE
            &&& aes128_decrypted(key, aes128_encrypted(key, block)) == block
        }
    &&& forall|block: Seq<u8>|
        block.len() == BLOCK_SIZE ==> {
            &&& (#[trigger] aes128_decrypted(key, block)).len() == BLOCK_SIZE
            &&& aes128_encrypted(key, aes128_decrypted(key, block)) == block
        }
}

/// Calls `Aes128::new` (of `KeyInit`), which expands a key. The contract says
/// that the cipher is the one of that key, and that it is a block cipher: a
/// permutation of the blocks, with decryption as its inverse.
#[verifier::external_body]
pub(crate) fn new_cipher(key: &[u8; KEY_SIZE]) -> (cipher: Aes128)
    ensures
        cipher_key(cipher) == key@,
        reversible(cipher_key(cipher)),
{
    Aes128::new(GenericArray::from_slice(key))
}

/// Calls `encrypt_block` (of `BlockEncrypt`), which enciphers one block in
/// place. The contract says that what it leaves depends on the key of `cipher`
/// and on the block alone, and calls it `aes128_encrypted`.
#[verifier::external_body]
pub(crate) fn encrypt_block(cipher: &Aes128, block: &mut [u8; BLOCK_SIZE])
    ensures
        final(block)@ == aes128_encrypted(cipher_key(*cipher), old(block)@),
{
    cipher.encrypt_block(GenericArray::from_mut_slice(block))
}

/// Calls `decrypt_block` (of `BlockDecrypt`), which deciphers one block in
/// place. The contract says that what it leaves depends on the key of `cipher`
/// and on the block alone, and calls it `aes128_decrypted`.
#[verifier::external_body]
pub(crate) fn decrypt_block(cipher: &Aes128, block: &mut [u8; BLOCK_SIZE])
    ensures
        final(block)@ == aes128_decrypted(cipher_key(*cipher), old(block)@),
{
    cipher.decrypt_block(GenericArray::from_mut_slice(block))
}

} // verus!
