//! Handoff / Universal Clipboard advertisements that tell nearby devices that a
//! copy is available here.
//!
//! This module builds the bytes of an advertisement: a ten-byte payload, sealed
//! with AES-GCM under the advertisement counter, in a TLV of the Apple
//! manufacturer data.
//!
//! Not validated: sealing shares the GCM framing of the receiving side, which
//! has not been held against real Apple traffic, and whether Apple devices
//! accept such an advertisement at all is untested.

use vstd::prelude::*;

use crate::{aes_cipher, gcm};
use crate::gcm::{seal_truncated, GcmError};

verus! {

/// Flag bit in the payload: the clipboard holds a copy.
pub const FLAG_CLIPBOARD_AVAILABLE: u8 = 0x08;

/// The TLV type of a Handoff advertisement.
pub const HANDOFF_TYPE: u8 = 0x0c;

/// The plaintext status byte: data was copied.
pub const STATUS_COPIED: u8 = 0x08;

/// The IV of the advertisement with the given counter: the counter, its low
/// byte first.
pub open spec fn counter_iv(counter: u16) -> Seq<u8> {
    seq![(counter % 256) as u8, (counter / 256) as u8]
}

/// The payload: status, activity hash, flags and an unused byte.
pub open spec fn payload(activity_hash: Seq<u8>, flags: u8) -> Seq<u8> {
    seq![STATUS_COPIED] + activity_hash + seq![flags, 0u8]
}

/// The TLV: type, length of the rest, status, IV, tag and ciphertext.
pub open spec fn tlv(iv: Seq<u8>, tag: Seq<u8>, ciphertext: Seq<u8>) -> Seq<u8> {
    seq![HANDOFF_TYPE, (4 + ciphertext.len()) as u8, STATUS_COPIED] + iv + tag + ciphertext
}

/// The advertisement that a key and a counter give.
pub open spec fn advert(
    key: Seq<u8>,
    counter: u16,
    activity_hash: Seq<u8>,
    flags: u8,
) -> Result<Seq<u8>, GcmError> {
    let iv = counter_iv(counter);
    match gcm::sealed(key, iv, seq![STATUS_COPIED], payload(activity_hash, flags), 1) {
        Ok((ciphertext, tag)) => Ok(tlv(iv, tag, ciphertext)),
        Err(e) => Err(e),
    }
}

/// The counter that follows `counter`.
pub open spec fn next_counter(counter: u16) -> u16 {
    ((counter + 1) % 0x1_0000) as u16
}

/// The plaintext of an advertisement.
pub fn build_payload(activity_hash: &[u8; 7], flags: u8) -> (r: Vec<u8>)
    ensures
        r@ == payload(activity_hash@, flags),
{
    let mut plaintext: Vec<u8> = Vec::with_capacity(10);
    plaintext.push(STATUS_COPIED);
    plaintext.extend_from_slice(activity_hash);
    plaintext.push(flags);
    plaintext.push(0x00);
    assert(plaintext@ == payload(activity_hash@, flags));
    plaintext
}

/// Lays out a sealed payload as the TLV `0c len status iv tag ct`.
pub fn build_tlv(iv: &[u8; 2], tag: &[u8], ciphertext: &[u8]) -> (r: Vec<u8>)
    requires
        tag@.len() == 1,
        4 + ciphertext@.len() <= u8::MAX,
    ensures
        r@ == tlv(iv@, tag@, ciphertext@),
{
    let mut out: Vec<u8> = Vec::with_capacity(6 + ciphertext.len());
    out.push(HANDOFF_TYPE);
    out.push((1 + 2 + 1 + ciphertext.len()) as u8);  // status + iv + tag + ct
    out.push(STATUS_COPIED);
    out.extend_from_slice(iv);
    out.extend_from_slice(tag);
    out.extend_from_slice(ciphertext);
    assert(out@ == tlv(iv@, tag@, ciphertext@));
    out
}

/// Builds one advertisement after the other, each under the next counter.
pub struct HandoffAdvertBuilder {
    /// BLE key: 16, 24 or 32 bytes.
    key: Vec<u8>,
    /// Advertisement counter, used as the GCM IV. It goes up by one with each
    /// advertisement and wraps around at its two bytes.
    counter: u16,
}

impl HandoffAdvertBuilder {
    /// The Apple company id, under which the manufacturer data is registered.
    pub const APPLE_COMPANY_ID: u16 = 0x004c;

    /// The key that payloads are sealed with.
    pub closed spec fn key(self) -> Seq<u8> {
        self.key@
    }

    /// The counter of the next advertisement.
    pub closed spec fn counter(self) -> u16 {
        self.counter
    }

    /// Starts at counter zero.
    pub fn new(key: Vec<u8>) -> (r: HandoffAdvertBuilder)
        ensures
            r.key() == key@,
            r.counter() == 0,
    {
        HandoffAdvertBuilder { key, counter: 0 }
    }

    /// Build one advert's Apple manufacturer-data TLV: `0c len status iv tag ct`.
    /// `activity_hash` is the 7-byte truncated SHA-512 of the activity string;
    /// `flags` is the payload flag byte (set `FLAG_CLIPBOARD_AVAILABLE`).
    ///
    /// Fails only on a bad key length, and then keeps its counter.
    pub fn build(&mut self, activity_hash: [u8; 7], flags: u8) -> (r: Result<Vec<u8>, GcmError>)
        ensures
            final(self).key() == old(self).key(),
            old(self).key().len() <= usize::MAX,
            match r {
                Ok(bytes) => {
                    &&& aes_cipher::is_key_len(old(self).key().len())
                    &&& advert(old(self).key(), old(self).counter(), activity_hash@, flags) == Ok::<
                        _,
                        GcmError,
                    >(bytes@)
                    &&& final(self).counter() == next_counter(old(self).counter())
                },
                Err(e) => {
                    &&& !aes_cipher::is_key_len(old(self).key().len())
                    &&& e == GcmError::InvalidKeyLength(old(self).key().len() as usize)
                    &&& *final(self) == *old(self)
                },
            },
    {
        assert(self.key@.len() == self.key.len());
        let iv: [u8; 2] = [(self.counter % 256) as u8, (self.counter / 256) as u8];
        assert(iv@ == counter_iv(self.counter));
        let plaintext: Vec<u8> = build_payload(&activity_hash, flags);
        let aad: [u8; 1] = [STATUS_COPIED];
        assert(aad@ == seq![STATUS_COPIED]);

        let sealed = seal_truncated(self.key.as_slice(), &iv, &aad, plaintext.as_slice(), 1);
        let (ct, tag) = match sealed {
            Ok(parts) => parts,
            Err(e) => return Err(e),
        };
        let bytes: Vec<u8> = build_tlv(&iv, tag.as_slice(), ct.as_slice());

        self.counter = self.counter.wrapping_add(1);
        Ok(bytes)
    }
}

} // verus!
