//! AES-GCM for IVs that are not 96 bits long, with tags cut short.
//!
//! Handoff and Universal Clipboard advertisements use a two-byte IV (the
//! advertisement counter) and a one-byte tag. The construction is GCM as it is
//! for any IV but one of 96 bits: the first counter block is the GHASH of the
//! IV, the text goes through AES in counter mode, and the tag is the GHASH of
//! the additional data and the ciphertext under the mask of the first counter
//! block. An IV of 96 bits is treated like any other.
//!
//! The use of GCM with such an IV is derived from its definition, and has not
//! been validated against packets captured from Apple devices. What is proved
//! here is the construction, not that it matches Apple's framing.

use vstd::prelude::*;
use vstd::slice::{slice_subrange, slice_to_vec};

use crate::{aes_cipher, block, field, laws, primitives};
use crate::block::{inc32, len_block, pad_blocks, xor_into, BLOCK};
use crate::aes_cipher::AesCipher;
use crate::primitives::{ghash_finalize, ghash_new, ghash_update};

pub use crate::error::GcmError;

verus! {

/// The bits of a string of `len` bytes can be counted in 64 bits.
pub open spec fn bits_fit(len: nat) -> bool {
    8 * len <= u64::MAX
}

/// A tag may have from one byte up to a whole block.
pub open spec fn is_tag_len(len: nat) -> bool {
    1 <= len <= 16
}

/// The blocks whose GHASH is the first counter block for `iv`.
pub open spec fn iv_input(iv: Seq<u8>) -> Seq<Seq<u8>> {
    block::zero_padded(iv).push(block::length_block(0, iv.len()))
}

/// The blocks whose GHASH the tag is made of.
pub open spec fn tag_input(aad: Seq<u8>, ciphertext: Seq<u8>) -> Seq<Seq<u8>> {
    (block::zero_padded(aad) + block::zero_padded(ciphertext)).push(
        block::length_block(aad.len(), ciphertext.len()),
    )
}

/// The hash key that goes with an AES key: a block of zeros, encrypted.
pub open spec fn hash_key(key: Seq<u8>) -> Seq<u8> {
    aes_cipher::aes_block(key, block::zero_block())
}

/// The first counter block for `iv` under the hash key `h`.
pub open spec fn first_counter(h: Seq<u8>, iv: Seq<u8>) -> Seq<u8> {
    field::ghash_digest(h, iv_input(iv))
}

/// The byte that counter mode lays over byte `i` of a text. The first block of
/// text uses the counter one step behind `j0`.
pub open spec fn keystream_byte(key: Seq<u8>, j0: Seq<u8>, i: int) -> u8 {
    aes_cipher::aes_block(key, block::counter_block(j0, (i / 16 + 1) as nat))[i % 16]
}

/// AES under `key` makes something of `block` that it makes of no other block.
pub open spec fn stands_alone(key: Seq<u8>, block: Seq<u8>) -> bool {
    &&& aes_cipher::aes_block(key, block).len() == 16
    &&& forall|other: Seq<u8>|
        other.len() == 16 && #[trigger] aes_cipher::aes_block(key, other)
            == aes_cipher::aes_block(key, block) ==> other == block
}

/// No two sixteen bytes of `text`, at multiples of 16 and less than 2 to the
/// power of 32 blocks apart, are the same both here and in `other`.
pub open spec fn hides_repeats(text: Seq<u8>, other: Seq<u8>) -> bool {
    forall|b: int, c: int|
        #![trigger block::nth_block(other, b), block::nth_block(other, c)]
        0 <= b < c < b + 0x1_0000_0000 && 16 * c + 16 <= text.len() && block::nth_block(text, b)
            == block::nth_block(text, c) ==> block::nth_block(other, b) != block::nth_block(
            other,
            c,
        )
}

/// `data` in counter mode, encrypted or decrypted alike.
pub open spec fn counter_mode(key: Seq<u8>, j0: Seq<u8>, data: Seq<u8>) -> Seq<u8> {
    Seq::new(data.len(), |i: int| data[i] ^ keystream_byte(key, j0, i))
}

/// The text for `iv` in counter mode, encrypted or decrypted alike.
pub open spec fn crypted(key: Seq<u8>, iv: Seq<u8>, data: Seq<u8>) -> Seq<u8> {
    counter_mode(key, first_counter(hash_key(key), iv), data)
}

/// The tag before it is cut short.
pub open spec fn full_tag(key: Seq<u8>, iv: Seq<u8>, aad: Seq<u8>, ciphertext: Seq<u8>) -> Seq<u8> {
    let h = hash_key(key);
    block::block_xor(
        aes_cipher::aes_block(key, first_counter(h, iv)),
        field::ghash_digest(h, tag_input(aad, ciphertext)),
    )
}

/// The error that a key and a tag of the given lengths meet, if any.
pub open spec fn length_error(key_len: nat, tag_len: nat) -> Option<GcmError> {
    if !is_tag_len(tag_len) {
        Some(GcmError::InvalidTagLength(tag_len as usize))
    } else if !aes_cipher::is_key_len(key_len) {
        Some(GcmError::InvalidKeyLength(key_len as usize))
    } else {
        None
    }
}

/// What sealing gives: the ciphertext, and as much of the tag as was asked for.
pub open spec fn sealed(
    key: Seq<u8>,
    iv: Seq<u8>,
    aad: Seq<u8>,
    plaintext: Seq<u8>,
    tag_len: nat,
) -> Result<(Seq<u8>, Seq<u8>), GcmError> {
    match length_error(key.len(), tag_len) {
        Some(e) => Err(e),
        None => {
            let ciphertext = crypted(key, iv, plaintext);
            Ok((ciphertext, full_tag(key, iv, aad, ciphertext).take(tag_len as int)))
        },
    }
}

/// What opening gives: the plaintext, or nothing where `tag` is not the front
/// of the tag that belongs there.
pub open spec fn opened(
    key: Seq<u8>,
    iv: Seq<u8>,
    aad: Seq<u8>,
    ciphertext: Seq<u8>,
    tag: Seq<u8>,
) -> Result<Option<Seq<u8>>, GcmError> {
    match length_error(key.len(), tag.len()) {
        Some(e) => Err(e),
        None => if tag == full_tag(key, iv, aad, ciphertext).take(tag.len() as int) {
            Ok(Some(crypted(key, iv, ciphertext)))
        } else {
            Ok(None)
        },
    }
}

/// Check that `key` is a length this module accepts.
pub fn validate_key(key: &[u8]) -> (r: Result<(), GcmError>)
    ensures
        r == (if aes_cipher::is_key_len(key@.len()) {
            Ok::<(), GcmError>(())
        } else {
            Err(GcmError::InvalidKeyLength(key@.len() as usize))
        }),
{
    match AesCipher::new(key) {
        Ok(_) => Ok(()),
        Err(e) => Err(e),
    }
}

/// GHASH over a sequence of already-zero-padded 16-byte blocks. Of no blocks it
/// is zeros; each further block is taken in once, by exclusive-or into the GHASH
/// of those before it, which is then hashed as a single block.
pub fn ghash(h: &[u8; BLOCK], blocks: &[[u8; BLOCK]]) -> (r: [u8; BLOCK])
    ensures
        r@ == field::ghash_digest(h@, block::contents(blocks@)),
        blocks@.len() == 0 ==> r@ == block::zero_block(),
        blocks@.len() > 0 ==> r@ == field::ghash_digest(
            h@,
            seq![
                block::block_xor(
                    field::ghash_digest(h@, block::contents(blocks@.drop_last())),
                    blocks@.last()@,
                ),
            ],
        ),
{
    let mut mac = ghash_new(h);
    let mut i: usize = 0;
    assert(block::contents(blocks@).take(0) == Seq::<Seq<u8>>::empty());
    while i < blocks.len()
        invariant
            i <= blocks@.len(),
            primitives::ghash_key(mac) == h@,
            primitives::ghash_blocks(mac) == block::contents(blocks@).take(i as int),
        decreases blocks@.len() - i,
    {
        ghash_update(&mut mac, &blocks[i]);
        i += 1;
        assert(block::contents(blocks@).take(i as int) == block::contents(
            blocks@,
        ).take(i - 1).push(blocks@[i - 1]@));
    }
    assert(block::contents(blocks@).take(i as int) == block::contents(blocks@));
    proof {
        let input = block::contents(blocks@);
        if blocks@.len() > 0 {
            assert(input.drop_last() == block::contents(blocks@.drop_last()));
            field::lemma_ghash_step(h@, input);
        } else {
            field::lemma_ghash_empty(h@);
            assert(input == Seq::<Seq<u8>>::empty());
        }
    }
    ghash_finalize(mac)
}

/// The GHASH input for an IV whose length is not 96 bits: the IV, filled up
/// with zeros, and a block with its length.
pub fn iv_blocks(iv: &[u8]) -> (blocks: Vec<[u8; BLOCK]>)
    requires
        bits_fit(iv@.len()),
    ensures
        block::contents(blocks@) == iv_input(iv@),
{
    let mut blocks: Vec<[u8; BLOCK]> = Vec::new();
    pad_blocks(iv, &mut blocks);
    let ghost padded = blocks@;
    blocks.push(len_block(0, iv.len()));
    assert(block::contents(padded) == block::zero_padded(iv@));
    assert(block::contents(blocks@) == iv_input(iv@));
    blocks
}

/// The GHASH input of a tag: the additional data and the ciphertext, each
/// filled up with zeros, and a block with both lengths.
pub fn tag_blocks(aad: &[u8], ciphertext: &[u8]) -> (blocks: Vec<[u8; BLOCK]>)
    requires
        bits_fit(aad@.len()),
        bits_fit(ciphertext@.len()),
    ensures
        block::contents(blocks@) == tag_input(aad@, ciphertext@),
{
    let mut blocks: Vec<[u8; BLOCK]> = Vec::new();
    pad_blocks(aad, &mut blocks);
    pad_blocks(ciphertext, &mut blocks);
    let ghost padded = blocks@;
    blocks.push(len_block(aad.len(), ciphertext.len()));
    assert(block::contents(padded) == block::zero_padded(aad@)
        + block::zero_padded(ciphertext@));
    assert(block::contents(blocks@) == tag_input(aad@, ciphertext@));
    blocks
}

/// Build J0 for an IV whose length is not 96 bits:
///   J0 = GHASH_H(IV || 0^(s+64) || [len(IV)]_64)
pub fn j0_short_iv(h: &[u8; BLOCK], iv: &[u8]) -> (r: [u8; BLOCK])
    requires
        bits_fit(iv@.len()),
    ensures
        r@ == first_counter(h@, iv@),
{
    let blocks = iv_blocks(iv);
    ghash(h, blocks.as_slice())
}

/// Encrypts or decrypts `data` in counter mode, starting one step behind `j0`.
pub fn ctr_crypt(cipher: &AesCipher, j0: [u8; BLOCK], data: &[u8]) -> (out: Vec<u8>)
    requires
        cipher.wf(),
    ensures
        out@ == counter_mode(cipher@, j0@, data@),
        hides_repeats(data@, out@),
{
    let mut out: Vec<u8> = Vec::with_capacity(data.len());
    let mut counter: [u8; BLOCK] = inc32(j0);
    let mut pos: usize = 0;
    while pos < data.len()
        invariant
            cipher.wf(),
            pos <= data.len(),
            pos % 16 == 0 || pos == data.len(),
            pos < data.len() ==> counter@ == block::counter_block(
                j0@,
                (pos / 16 + 1) as nat,
            ),
            out@ == counter_mode(cipher@, j0@, data@).take(pos as int),
            forall|b: int|
                0 <= b && 16 * b < pos ==> stands_alone(
                    cipher@,
                    #[trigger] block::counter_block(j0@, (b + 1) as nat),
                ),
        decreases data.len() - pos,
    {
        let left: usize = data.len() - pos;
        let n: usize = if left < BLOCK {
            left
        } else {
            BLOCK
        };
        let ks: [u8; BLOCK] = cipher.encrypt_block(&counter);
        let mut block: Vec<u8> = slice_to_vec(slice_subrange(data, pos, pos + n));
        xor_into(block.as_mut_slice(), slice_subrange(&ks, 0, n));
        out.extend_from_slice(block.as_slice());
        proof {
            let text = counter_mode(cipher@, j0@, data@);
            assert forall|k: int| 0 <= k < n implies block@[k] == text[pos + k] by {
                assert((pos + k) / 16 == pos as int / 16);
                assert((pos + k) % 16 == k);
            }
            assert(out@ == text.take(pos + n));
            block::lemma_counter_block_step(j0@, (pos / 16 + 1) as nat);
        }
        counter = inc32(counter);
        pos = pos + n;
    }
    assert(counter_mode(cipher@, j0@, data@).take(pos as int) == counter_mode(
        cipher@,
        j0@,
        data@,
    ));
    assert forall|b: int, c: int|
        #![trigger block::nth_block(out@, b), block::nth_block(out@, c)]
        0 <= b < c < b + 0x1_0000_0000 && 16 * c + 16 <= data@.len() && block::nth_block(data@, b)
            == block::nth_block(data@, c) implies block::nth_block(out@, b) != block::nth_block(
        out@,
        c,
    ) by {
        assert(stands_alone(cipher@, block::counter_block(j0@, (b + 1) as nat)));
        assert(stands_alone(cipher@, block::counter_block(j0@, (c + 1) as nat)));
        laws::lemma_repeat_hidden(cipher@, j0@, data@, b, c);
    }
    out
}

/// The tag of `ciphertext` before it is cut short: E_K(J0) xor
/// GHASH_H(A_padded || C_padded || [len(A)]_64 || [len(C)]_64).
fn whole_tag(
    cipher: &AesCipher,
    h: &[u8; BLOCK],
    j0: &[u8; BLOCK],
    aad: &[u8],
    ciphertext: &[u8],
) -> (tag: [u8; BLOCK])
    requires
        cipher.wf(),
        bits_fit(aad@.len()),
        bits_fit(ciphertext@.len()),
    ensures
        tag@ == block::block_xor(
            aes_cipher::aes_block(cipher@, j0@),
            field::ghash_digest(h@, tag_input(aad@, ciphertext@)),
        ),
{
    let blocks = tag_blocks(aad, ciphertext);
    let s: [u8; BLOCK] = ghash(h, blocks.as_slice());
    let mut tag: [u8; BLOCK] = cipher.encrypt_block(j0);
    let ghost mask = tag@;
    xor_into(&mut tag, &s);
    assert(tag@ == block::block_xor(mask, s@));
    tag
}

/// Whether `tag` is the front of `full`.
pub fn tag_matches(full: &[u8; BLOCK], tag: &[u8]) -> (r: bool)
    requires
        tag@.len() <= 16,
    ensures
        r == (tag@ == full@.take(tag@.len() as int)),
{
    let mut i: usize = 0;
    while i < tag.len()
        invariant
            tag@.len() <= 16,
            i <= tag@.len(),
            tag@.take(i as int) == full@.take(i as int),
        decreases tag@.len() - i,
    {
        if full[i] != tag[i] {
            assert(tag@[i as int] != full@.take(tag@.len() as int)[i as int]);
            return false;
        }
        assert(tag@.take(i + 1) == tag@.take(i as int).push(tag@[i as int]));
        assert(full@.take(i + 1) == full@.take(i as int).push(full@[i as int]));
        i += 1;
    }
    assert(tag@.take(i as int) == tag@);
    true
}

/// Decrypt-and-verify with a truncated tag.
///
/// * `key` - 16, 24 or 32 bytes (AES-128/192/256).
/// * `iv` - the advertisement counter, exactly as it stands in the packet.
/// * `aad` - the plaintext status byte.
/// * `ciphertext` - the encrypted payload (10 bytes for a Handoff advert).
/// * `tag` - the truncated authentication tag from the packet (1 byte).
///
/// Returns `Ok(Some(plaintext))` if the truncated tag matches, `Ok(None)` if
/// it does not, and `Err` for a key or tag length this module cannot use. The
/// strings must be short enough that their bits can be counted in 64 bits.
pub fn open_truncated(
    key: &[u8],
    iv: &[u8],
    aad: &[u8],
    ciphertext: &[u8],
    tag: &[u8],
) -> (r: Result<Option<Vec<u8>>, GcmError>)
    requires
        length_error(key@.len(), tag@.len()) is None ==> bits_fit(iv@.len()) && bits_fit(aad@.len())
            && bits_fit(ciphertext@.len()),
    ensures
        match r {
            Ok(Some(plaintext)) => opened(key@, iv@, aad@, ciphertext@, tag@) == Ok::<_, GcmError>(
                Some(plaintext@),
            ) && hides_repeats(ciphertext@, plaintext@),
            Ok(None) => opened(key@, iv@, aad@, ciphertext@, tag@) == Ok::<
                Option<Seq<u8>>,
                GcmError,
            >(None),
            Err(e) => opened(key@, iv@, aad@, ciphertext@, tag@) == Err::<Option<Seq<u8>>, _>(e),
        },
{
    if tag.is_empty() || tag.len() > BLOCK {
        return Err(GcmError::InvalidTagLength(tag.len()));
    }
    let cipher = match AesCipher::new(key) {
        Ok(cipher) => cipher,
        Err(e) => return Err(e),
    };

    // H = E_K(0^128)
    let zeros: [u8; BLOCK] = [0u8;BLOCK];
    assert(zeros@ == block::zero_block());
    let h: [u8; BLOCK] = cipher.encrypt_block(&zeros);
    let j0: [u8; BLOCK] = j0_short_iv(&h, iv);

    let full: [u8; BLOCK] = whole_tag(&cipher, &h, &j0, aad, ciphertext);
    if !tag_matches(&full, tag) {
        return Ok(None);
    }
    Ok(Some(ctr_crypt(&cipher, j0, ciphertext)))
}

/// Encrypt-and-tag with a truncated tag, the inverse of [`open_truncated`].
/// Returns `(ciphertext, tag)` where `tag` is `tag_len` bytes (1 for a Handoff
/// advert). The strings must be short enough that their bits can be counted in
/// 64 bits.
///
/// Like opening, this has not been validated against real Apple traffic.
pub fn seal_truncated(
    key: &[u8],
    iv: &[u8],
    aad: &[u8],
    plaintext: &[u8],
    tag_len: usize,
) -> (r: Result<(Vec<u8>, Vec<u8>), GcmError>)
    requires
        length_error(key@.len(), tag_len as nat) is None ==> bits_fit(iv@.len()) && bits_fit(
            aad@.len(),
        ) && bits_fit(plaintext@.len()),
    ensures
        match r {
            Ok((ciphertext, tag)) => sealed(key@, iv@, aad@, plaintext@, tag_len as nat) == Ok::<
                _,
                GcmError,
            >((ciphertext@, tag@)) && hides_repeats(plaintext@, ciphertext@),
            Err(e) => sealed(key@, iv@, aad@, plaintext@, tag_len as nat) == Err::<
                (Seq<u8>, Seq<u8>),
                _,
            >(e),
        },
{
    if tag_len == 0 || tag_len > BLOCK {
        return Err(GcmError::InvalidTagLength(tag_len));
    }
    let cipher = match AesCipher::new(key) {
        Ok(cipher) => cipher,
        Err(e) => return Err(e),
    };

    // H = E_K(0^128)
    let zeros: [u8; BLOCK] = [0u8;BLOCK];
    assert(zeros@ == block::zero_block());
    let h: [u8; BLOCK] = cipher.encrypt_block(&zeros);
    let j0: [u8; BLOCK] = j0_short_iv(&h, iv);

    let ciphertext: Vec<u8> = ctr_crypt(&cipher, j0, plaintext);
    let full: [u8; BLOCK] = whole_tag(&cipher, &h, &j0, aad, ciphertext.as_slice());
    let tag: Vec<u8> = slice_to_vec(slice_subrange(&full, 0, tag_len));
    Ok((ciphertext, tag))
}

} // verus!
