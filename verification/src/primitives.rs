//! The AES block ciphers and the GHASH universal hash, as the `aes` and
//! `ghash` crates provide them.
//!
//! Nothing here is proved. A cipher is described by the key that it holds, a
//! GHASH computation by its hash key and the blocks that it has taken in. What
//! AES computes has a name and no definition; what GHASH computes is defined in
//! `field`.

use vstd::prelude::*;

use aes::cipher::generic_array::GenericArray;
use aes::cipher::{BlockEncrypt, KeyInit};
use aes::{Aes128, Aes192, Aes256};
use ghash::universal_hash::UniversalHash;
use ghash::GHash;

use crate::field;

verus! {

/// AES with an expanded 128-bit key.
#[verifier::external_type_specification]
#[verifier::external_body]
pub struct ExAes128(aes::Aes128);

/// AES with an expanded 192-bit key.
#[verifier::external_type_specification]
#[verifier::external_body]
pub struct ExAes192(aes::Aes192);

/// AES with an expanded 256-bit key.
#[verifier::external_type_specification]
#[verifier::external_body]
pub struct ExAes256(aes::Aes256);

/// The error of a cipher constructor that was given a key of another length.
#[verifier::external_type_specification]
#[verifier::external_body]
pub struct ExInvalidLength(aes::cipher::InvalidLength);

/// A GHASH computation under way.
#[verifier::external_type_specification]
#[verifier::external_body]
pub struct ExGHash(ghash::GHash);

/// The key bytes that an AES-128 cipher holds in expanded form.
pub uninterp spec fn aes128_key(cipher: aes::Aes128) -> Seq<u8>;

/// The key bytes that an AES-192 cipher holds in expanded form.
pub uninterp spec fn aes192_key(cipher: aes::Aes192) -> Seq<u8>;

/// The key bytes that an AES-256 cipher holds in expanded form.
pub uninterp spec fn aes256_key(cipher: aes::Aes256) -> Seq<u8>;

/// What AES-128 under `key` makes of the 16-byte `block`.
pub uninterp spec fn aes128_block(key: Seq<u8>, block: Seq<u8>) -> Seq<u8>;

/// What AES-192 under `key` makes of the 16-byte `block`.
pub uninterp spec fn aes192_block(key: Seq<u8>, block: Seq<u8>) -> Seq<u8>;

/// What AES-256 under `key` makes of the 16-byte `block`.
pub uninterp spec fn aes256_block(key: Seq<u8>, block: Seq<u8>) -> Seq<u8>;

/// The hash key that a GHASH computation was started with.
pub uninterp spec fn ghash_key(mac: ghash::GHash) -> Seq<u8>;

/// The blocks that a GHASH computation has taken in, first one first.
pub uninterp spec fn ghash_blocks(mac: ghash::GHash) -> Seq<Seq<u8>>;

/// `Aes128::new_from_slice`: expands a key of 16 bytes, and fails on a key of
/// any other length.
#[verifier::external_body]
pub(crate) fn aes128_new_from_slice(key: &[u8]) -> (r: Result<aes::Aes128, aes::cipher::InvalidLength>)
    ensures
        r is Ok <==> key@.len() == 16,
        r matches Ok(cipher) ==> aes128_key(cipher) == key@,
{
    Aes128::new_from_slice(key)
}

/// `Aes192::new_from_slice`: expands a key of 24 bytes, and fails on a key of
/// any other length.
#[verifier::external_body]
pub(crate) fn aes192_new_from_slice(key: &[u8]) -> (r: Result<aes::Aes192, aes::cipher::InvalidLength>)
    ensures
        r is Ok <==> key@.len() == 24,
        r matches Ok(cipher) ==> aes192_key(cipher) == key@,
{
    Aes192::new_from_slice(key)
}

/// `Aes256::new_from_slice`: expands a key of 32 bytes, and fails on a key of
/// any other length.
#[verifier::external_body]
pub(crate) fn aes256_new_from_slice(key: &[u8]) -> (r: Result<aes::Aes256, aes::cipher::InvalidLength>)
    ensures
        r is Ok <==> key@.len() == 32,
        r matches Ok(cipher) ==> aes256_key(cipher) == key@,
{
    Aes256::new_from_slice(key)
}

/// `Aes128::encrypt_block`: one block through AES-128, which depends on the
/// cipher's key and on the block alone. A block cipher permutes the blocks: under
/// the same key no other block of 16 bytes gives the same result.
#[verifier::external_body]
pub(crate) fn aes128_encrypt_block(cipher: &aes::Aes128, input: &[u8; 16]) -> (r: [u8; 16])
    ensures
        r@ == aes128_block(aes128_key(*cipher), input@),
        forall|other: Seq<u8>|
            other.len() == 16 && #[trigger] aes128_block(aes128_key(*cipher), other) == r@
                ==> other == input@,
{
    let mut block = GenericArray::clone_from_slice(input);
    cipher.encrypt_block(&mut block);
    block.into()
}

/// `Aes192::encrypt_block`: one block through AES-192, which depends on the
/// cipher's key and on the block alone. A block cipher permutes the blocks: under
/// the same key no other block of 16 bytes gives the same result.
#[verifier::external_body]
pub(crate) fn aes192_encrypt_block(cipher: &aes::Aes192, input: &[u8; 16]) -> (r: [u8; 16])
    ensures
        r@ == aes192_block(aes192_key(*cipher), input@),
        forall|other: Seq<u8>|
            other.len() == 16 && #[trigger] aes192_block(aes192_key(*cipher), other) == r@
                ==> other == input@,
{
    let mut block = GenericArray::clone_from_slice(input);
    cipher.encrypt_block(&mut block);
    block.into()
}

/// `Aes256::encrypt_block`: one block through AES-256, which depends on the
/// cipher's key and on the block alone. A block cipher permutes the blocks: under
/// the same key no other block of 16 bytes gives the same result.
#[verifier::external_body]
pub(crate) fn aes256_encrypt_block(cipher: &aes::Aes256, input: &[u8; 16]) -> (r: [u8; 16])
    ensures
        r@ == aes256_block(aes256_key(*cipher), input@),
        forall|other: Seq<u8>|
            other.len() == 16 && #[trigger] aes256_block(aes256_key(*cipher), other) == r@
                ==> other == input@,
{
    let mut block = GenericArray::clone_from_slice(input);
    cipher.encrypt_block(&mut block);
    block.into()
}

/// `GHash::new`: a GHASH computation under the hash key `h`, with nothing
/// taken in yet.
#[verifier::external_body]
pub(crate) fn ghash_new(h: &[u8; 16]) -> (mac: ghash::GHash)
    ensures
        ghash_key(mac) == h@,
        ghash_blocks(mac) == Seq::<Seq<u8>>::empty(),
{
    GHash::new(h.into())
}

/// `GHash::update` on a single block: takes the block in behind those that
/// came before it, and keeps the hash key.
#[verifier::external_body]
pub(crate) fn ghash_update(mac: &mut ghash::GHash, block: &[u8; 16])
    ensures
        ghash_key(*final(mac)) == ghash_key(*old(mac)),
        ghash_blocks(*final(mac)) == ghash_blocks(*old(mac)).push(block@),
{
    mac.update(&[(*block).into()]);
}

/// `GHash::finalize`: the GHASH of all blocks taken in, in their order, under
/// the hash key. GHASH starts from zero; for each block it adds the block in
/// GF(2^128), modulo x^128 + x^7 + x^2 + x + 1, and multiplies by the hash key.
#[verifier::external_body]
pub(crate) fn ghash_finalize(mac: ghash::GHash) -> (r: [u8; 16])
    ensures
        r@ == field::ghash_digest(ghash_key(mac), ghash_blocks(mac)),
{
    mac.finalize().into()
}

} // verus!
