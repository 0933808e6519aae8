//! AES with a key of any of its three lengths.

use vstd::prelude::*;

use crate::primitives;
use crate::block::BLOCK;
use crate::error::GcmError;
use crate::primitives::{
    aes128_encrypt_block, aes128_new_from_slice, aes192_encrypt_block, aes192_new_from_slice,
    aes256_encrypt_block, aes256_new_from_slice,
};

verus! {

/// The lengths, in bytes, of an AES key.
pub open spec fn is_key_len(len: nat) -> bool {
    len == 16 || len == 24 || len == 32
}

/// What AES under `key` makes of the 16-byte `block`. The length of the key
/// selects AES-128, AES-192 or AES-256.
pub open spec fn aes_block(key: Seq<u8>, block: Seq<u8>) -> Seq<u8> {
    if key.len() == 16 {
        primitives::aes128_block(key, block)
    } else if key.len() == 24 {
        primitives::aes192_block(key, block)
    } else {
        primitives::aes256_block(key, block)
    }
}

/// AES with an expanded key. Its view is the key.
pub enum AesCipher {
    Aes128(aes::Aes128),
    Aes192(aes::Aes192),
    Aes256(aes::Aes256),
}

impl View for AesCipher {
    type V = Seq<u8>;

    open spec fn view(&self) -> Seq<u8> {
        match self {
            AesCipher::Aes128(c) => primitives::aes128_key(*c),
            AesCipher::Aes192(c) => primitives::aes192_key(*c),
            AesCipher::Aes256(c) => primitives::aes256_key(*c),
        }
    }
}

impl AesCipher {
    /// The key has the length that goes with the variant.
    pub open spec fn wf(&self) -> bool {
        match self {
            AesCipher::Aes128(_) => self@.len() == 16,
            AesCipher::Aes192(_) => self@.len() == 24,
            AesCipher::Aes256(_) => self@.len() == 32,
        }
    }

    /// Expands `key`, which must have 16, 24 or 32 bytes.
    pub fn new(key: &[u8]) -> (r: Result<AesCipher, GcmError>)
        ensures
            match r {
                Ok(cipher) => is_key_len(key@.len()) && cipher.wf() && cipher@ == key@,
                Err(e) => !is_key_len(key@.len()) && e == GcmError::InvalidKeyLength(
                    key@.len() as usize,
                ),
            },
    {
        let invalid = GcmError::InvalidKeyLength(key.len());
        match key.len() {
            16 => match aes128_new_from_slice(key) {
                Ok(c) => Ok(AesCipher::Aes128(c)),
                Err(_) => Err(invalid),
            },
            24 => match aes192_new_from_slice(key) {
                Ok(c) => Ok(AesCipher::Aes192(c)),
                Err(_) => Err(invalid),
            },
            32 => match aes256_new_from_slice(key) {
                Ok(c) => Ok(AesCipher::Aes256(c)),
                Err(_) => Err(invalid),
            },
            _ => Err(invalid),
        }
    }

    /// Encrypts one block. Under one key different blocks encrypt differently.
    pub fn encrypt_block(&self, input: &[u8; BLOCK]) -> (r: [u8; BLOCK])
        requires
            self.wf(),
        ensures
            r@ == aes_block(self@, input@),
            forall|other: Seq<u8>|
                other.len() == 16 ==> (#[trigger] aes_block(self@, other) == r@ <==> other
                    == input@),
    {
        match self {
            AesCipher::Aes128(c) => aes128_encrypt_block(c, input),
            AesCipher::Aes192(c) => aes192_encrypt_block(c, input),
            AesCipher::Aes256(c) => aes256_encrypt_block(c, input),
        }
    }
}

} // verus!
