//! What holds across the functions of this crate.

use vstd::arithmetic::div_mod::{lemma_add_mod_noop_right, lemma_mod_add_multiples_vanish, lemma_small_mod};
use vstd::arithmetic::power::pow;
use vstd::prelude::*;

use crate::{advertise, aes_cipher, block, error, field, gcm, primitives};
use crate::gcm::GcmError;

verus! {

/// Exclusive-oring the same bytes in twice changes nothing.
pub proof fn xor_twice_is_identity(dst: Seq<u8>, src: Seq<u8>)
    ensures
        block::xored(block::xored(dst, src), src) == dst,
{
    assert forall|i: int| 0 <= i < dst.len() implies #[trigger] block::xored(
        block::xored(dst, src),
        src,
    )[i] == dst[i] by {
        if i < src.len() {
            let (a, b) = (dst[i], src[i]);
            block::lemma_byte_xor(a, b);
        }
    }
    assert(block::xored(block::xored(dst, src), src) =~= dst);
}

/// Exclusive-or works on each byte of `dst` that `src` reaches, and on no other: a
/// byte and its image differ by the byte of `src`. Of a string with itself it
/// leaves zeros.
pub proof fn xor_goes_byte_by_byte(dst: Seq<u8>, src: Seq<u8>, i: int)
    requires
        0 <= i < dst.len(),
    ensures
        block::xored(dst, src).len() == dst.len(),
        i < src.len() ==> block::xored(dst, src)[i] ^ dst[i] == src[i],
        i >= src.len() ==> block::xored(dst, src)[i] == dst[i],
        block::xored(dst, dst)[i] == 0,
        dst.len() == 16 && src.len() == 16 ==> block::block_xor(dst, src)
            == block::xored(dst, src),
{
    let d = dst[i];
    block::lemma_byte_xor(d, d);
    if i < src.len() {
        let s = src[i];
        block::lemma_byte_xor(d, s);
    }
    if dst.len() == 16 && src.len() == 16 {
        assert(block::block_xor(dst, src) =~= block::xored(dst, src));
    }
}

/// The contents of blocks are their bytes, in order.
pub proof fn contents_keep_order(blocks: Seq<[u8; 16]>, next: [u8; 16])
    ensures
        block::contents(Seq::empty()) == Seq::<Seq<u8>>::empty(),
        block::contents(blocks.push(next)) == block::contents(blocks).push(next@),
{
    assert(block::contents(Seq::empty()) =~= Seq::<Seq<u8>>::empty());
    assert(block::contents(blocks.push(next)) =~= block::contents(blocks).push(next@));
}

/// Counter mode undoes itself.
pub proof fn counter_mode_is_involution(key: Seq<u8>, j0: Seq<u8>, data: Seq<u8>)
    ensures
        gcm::counter_mode(key, j0, gcm::counter_mode(key, j0, data)) == data,
{
    let once = gcm::counter_mode(key, j0, data);
    assert forall|i: int| 0 <= i < data.len() implies #[trigger] gcm::counter_mode(
        key,
        j0,
        once,
    )[i] == data[i] by {
        let (a, b) = (data[i], gcm::keystream_byte(key, j0, i));
        block::lemma_byte_xor(a, b);
    }
    assert(gcm::counter_mode(key, j0, once) =~= data);
}

/// Byte `k` of block `b` in counter mode: the counter is `b + 1` steps behind `j0`.
pub proof fn lemma_counter_mode_byte(key: Seq<u8>, j0: Seq<u8>, data: Seq<u8>, b: int, k: int)
    requires
        0 <= b,
        0 <= k < 16,
        16 * b + k < data.len(),
    ensures
        gcm::counter_mode(key, j0, data)[16 * b + k] == data[16 * b + k] ^ aes_cipher::aes_block(
            key,
            block::counter_block(j0, (b + 1) as nat),
        )[k],
{
    assert((16 * b + k) / 16 == b && (16 * b + k) % 16 == k);
}

/// Blocks that are the same before and after counter mode had the same mask.
proof fn lemma_same_mask(key: Seq<u8>, j0: Seq<u8>, data: Seq<u8>, b: int, c: int, k: int)
    requires
        0 <= b,
        0 <= c,
        0 <= k < 16,
        16 * b + 16 <= data.len(),
        16 * c + 16 <= data.len(),
        data[16 * b + k] == data[16 * c + k],
        gcm::counter_mode(key, j0, data)[16 * b + k] == gcm::counter_mode(key, j0, data)[16 * c
            + k],
    ensures
        aes_cipher::aes_block(key, block::counter_block(j0, (b + 1) as nat))[k]
            == aes_cipher::aes_block(key, block::counter_block(j0, (c + 1) as nat))[k],
{
    lemma_counter_mode_byte(key, j0, data, b, k);
    lemma_counter_mode_byte(key, j0, data, c, k);
    let d = data[16 * b + k];
    let p = aes_cipher::aes_block(key, block::counter_block(j0, (b + 1) as nat))[k];
    let q = aes_cipher::aes_block(key, block::counter_block(j0, (c + 1) as nat))[k];
    block::lemma_byte_xor(d, p);
    block::lemma_byte_xor(d, q);
}

proof fn lemma_same_masks(key: Seq<u8>, j0: Seq<u8>, data: Seq<u8>, b: int, c: int)
    requires
        0 <= b,
        0 <= c,
        16 * b + 16 <= data.len(),
        16 * c + 16 <= data.len(),
        block::nth_block(data, b) == block::nth_block(data, c),
        block::nth_block(gcm::counter_mode(key, j0, data), b) == block::nth_block(
            gcm::counter_mode(key, j0, data),
            c,
        ),
    ensures
        forall|k: int|
            0 <= k < 16 ==> #[trigger] aes_cipher::aes_block(
                key,
                block::counter_block(j0, (b + 1) as nat),
            )[k] == aes_cipher::aes_block(key, block::counter_block(j0, (c + 1) as nat))[k],
{
    let out = gcm::counter_mode(key, j0, data);
    assert forall|k: int| 0 <= k < 16 implies #[trigger] aes_cipher::aes_block(
        key,
        block::counter_block(j0, (b + 1) as nat),
    )[k] == aes_cipher::aes_block(key, block::counter_block(j0, (c + 1) as nat))[k] by {
        assert(block::nth_block(data, b)[k] == data[16 * b + k]);
        assert(block::nth_block(data, c)[k] == data[16 * c + k]);
        assert(block::nth_block(out, b)[k] == out[16 * b + k]);
        assert(block::nth_block(out, c)[k] == out[16 * c + k]);
        lemma_same_mask(key, j0, data, b, c, k);
    }
}

/// Sixteen bytes that stand twice in a text, less than 2 to the power of 32 blocks
/// apart, come out of counter mode differently.
pub proof fn lemma_repeat_hidden(key: Seq<u8>, j0: Seq<u8>, data: Seq<u8>, b: int, c: int)
    requires
        j0.len() == 16,
        0 <= b < c < b + 0x1_0000_0000,
        16 * c + 16 <= data.len(),
        block::nth_block(data, b) == block::nth_block(data, c),
        gcm::stands_alone(key, block::counter_block(j0, (b + 1) as nat)),
        gcm::stands_alone(key, block::counter_block(j0, (c + 1) as nat)),
    ensures
        block::nth_block(gcm::counter_mode(key, j0, data), b) != block::nth_block(
            gcm::counter_mode(key, j0, data),
            c,
        ),
{
    let m = block::counter_block(j0, (b + 1) as nat);
    let n = block::counter_block(j0, (c + 1) as nat);
    assert(m != n && m.len() == 16) by {
        counter_blocks_do_not_repeat(j0, (b + 1) as nat, (c + 1) as nat);
        block::lemma_counter_block_step(j0, (b + 1) as nat);
    }
    if block::nth_block(gcm::counter_mode(key, j0, data), b) == block::nth_block(
        gcm::counter_mode(key, j0, data),
        c,
    ) {
        lemma_same_masks(key, j0, data, b, c);
        assert(aes_cipher::aes_block(key, m) =~= aes_cipher::aes_block(key, n));
    }
}

/// Where AES under the key permutes the blocks, no text shows where it repeats
/// itself: two equal blocks of it, less than 2 to the power of 32 apart, come out
/// of counter mode differently.
pub proof fn counter_mode_hides_repeats(key: Seq<u8>, j0: Seq<u8>, data: Seq<u8>, b: int, c: int)
    requires
        forall|x: Seq<u8>| x.len() == 16 ==> (#[trigger] aes_cipher::aes_block(key, x)).len() == 16,
        forall|x: Seq<u8>, y: Seq<u8>|
            x.len() == 16 && y.len() == 16 && #[trigger] aes_cipher::aes_block(key, x)
                == #[trigger] aes_cipher::aes_block(key, y) ==> x == y,
        j0.len() == 16,
        0 <= b < c < b + 0x1_0000_0000,
        16 * c + 16 <= data.len(),
        data.subrange(16 * b, 16 * b + 16) == data.subrange(16 * c, 16 * c + 16),
    ensures
        gcm::counter_mode(key, j0, data).subrange(16 * b, 16 * b + 16) != gcm::counter_mode(
            key,
            j0,
            data,
        ).subrange(16 * c, 16 * c + 16),
{
    block::lemma_counter_block_step(j0, (b + 1) as nat);
    block::lemma_counter_block_step(j0, (c + 1) as nat);
    lemma_repeat_hidden(key, j0, data, b, c);
}

/// The first block of a text takes the counter one step behind `j0`, and what is
/// behind that block comes out as a text of its own whose `j0` is that counter.
pub proof fn counter_mode_goes_block_by_block(key: Seq<u8>, j0: Seq<u8>, data: Seq<u8>)
    requires
        j0.len() == 16,
    ensures
        gcm::counter_mode(key, j0, data).len() == data.len(),
        data.len() >= 16 ==> gcm::counter_mode(key, j0, data).skip(16) == gcm::counter_mode(
            key,
            block::counter_block(j0, 1),
            data.skip(16),
        ),
        forall|i: int|
            0 <= i < 16 && i < data.len() ==> #[trigger] gcm::counter_mode(key, j0, data)[i] == data[i]
                ^ aes_cipher::aes_block(key, block::counter_block(j0, 1))[i],
{
    let next = block::counter_block(j0, 1);
    let out = gcm::counter_mode(key, j0, data);
    if data.len() >= 16 {
        let rest = gcm::counter_mode(key, next, data.skip(16));
        assert forall|i: int| 0 <= i < data.len() - 16 implies out.skip(16)[i] == rest[i] by {
            assert((i + 16) / 16 == i / 16 + 1 && (i + 16) % 16 == i % 16);
            counter_steps_add_up(j0, 1, (i / 16 + 1) as nat);
        }
        assert(out.skip(16) =~= rest);
    }
}

/// What was sealed is opened again: with key and tag lengths that are
/// accepted, the ciphertext and the tag give back the plaintext.
pub proof fn seal_then_open(
    key: Seq<u8>,
    iv: Seq<u8>,
    aad: Seq<u8>,
    plaintext: Seq<u8>,
    tag_len: nat,
)
    requires
        aes_cipher::is_key_len(key.len()),
        gcm::is_tag_len(tag_len),
    ensures
        gcm::sealed(key, iv, aad, plaintext, tag_len) matches Ok((ciphertext, tag))
            && gcm::opened(key, iv, aad, ciphertext, tag) == Ok::<_, GcmError>(Some(plaintext)),
{
    counter_mode_is_involution(key, gcm::first_counter(gcm::hash_key(key), iv), plaintext);
}

/// What was opened is sealed again to the same ciphertext and the same tag, so
/// only what sealing can give is ever opened.
pub proof fn open_then_seal(
    key: Seq<u8>,
    iv: Seq<u8>,
    aad: Seq<u8>,
    ciphertext: Seq<u8>,
    tag: Seq<u8>,
    plaintext: Seq<u8>,
)
    requires
        gcm::opened(key, iv, aad, ciphertext, tag) == Ok::<_, GcmError>(Some(plaintext)),
    ensures
        gcm::sealed(key, iv, aad, plaintext, tag.len()) == Ok::<_, GcmError>((ciphertext, tag)),
{
    counter_mode_is_involution(key, gcm::first_counter(gcm::hash_key(key), iv), ciphertext);
}

/// Opening gives a plaintext exactly where sealing that plaintext gives the
/// ciphertext and the tag.
pub proof fn opens_what_sealing_gives(
    key: Seq<u8>,
    iv: Seq<u8>,
    aad: Seq<u8>,
    plaintext: Seq<u8>,
    ciphertext: Seq<u8>,
    tag: Seq<u8>,
)
    ensures
        gcm::opened(key, iv, aad, ciphertext, tag) == Ok::<_, GcmError>(Some(plaintext))
            <==> gcm::sealed(key, iv, aad, plaintext, tag.len()) == Ok::<_, GcmError>(
            (ciphertext, tag),
        ),
{
    counter_mode_is_involution(key, gcm::first_counter(gcm::hash_key(key), iv), plaintext);
    counter_mode_is_involution(key, gcm::first_counter(gcm::hash_key(key), iv), ciphertext);
}

/// A tag of the right length that is not the sealed one is rejected.
pub proof fn wrong_tag_is_rejected(
    key: Seq<u8>,
    iv: Seq<u8>,
    aad: Seq<u8>,
    plaintext: Seq<u8>,
    ciphertext: Seq<u8>,
    tag: Seq<u8>,
    wrong: Seq<u8>,
)
    requires
        gcm::sealed(key, iv, aad, plaintext, tag.len()) == Ok::<_, GcmError>((ciphertext, tag)),
        wrong.len() == tag.len(),
        wrong != tag,
    ensures
        gcm::opened(key, iv, aad, ciphertext, wrong) == Ok::<Option<Seq<u8>>, GcmError>(None),
{
}

/// The ciphertext is as long as the plaintext, and the tag as long as asked for.
pub proof fn sealing_keeps_lengths(
    key: Seq<u8>,
    iv: Seq<u8>,
    aad: Seq<u8>,
    plaintext: Seq<u8>,
    tag_len: nat,
)
    ensures
        gcm::sealed(key, iv, aad, plaintext, tag_len) matches Ok((ciphertext, tag))
            ==> ciphertext.len() == plaintext.len() && tag.len() == tag_len,
{
}

/// A shorter tag is the front of a longer one, over the same ciphertext.
pub proof fn shorter_tag_is_prefix(
    key: Seq<u8>,
    iv: Seq<u8>,
    aad: Seq<u8>,
    plaintext: Seq<u8>,
    short: nat,
    long: nat,
)
    requires
        aes_cipher::is_key_len(key.len()),
        1 <= short <= long <= 16,
    ensures
        gcm::sealed(key, iv, aad, plaintext, long) matches Ok((ciphertext, tag)) && gcm::sealed(
            key,
            iv,
            aad,
            plaintext,
            short,
        ) == Ok::<_, GcmError>((ciphertext, tag.take(short as int))),
{
    let full = gcm::full_tag(key, iv, aad, gcm::crypted(key, iv, plaintext));
    assert(full.take(long as int).take(short as int) =~= full.take(short as int));
}

/// Whatever a tag opens, each of its fronts opens to the same plaintext.
pub proof fn tag_prefix_opens(
    key: Seq<u8>,
    iv: Seq<u8>,
    aad: Seq<u8>,
    ciphertext: Seq<u8>,
    tag: Seq<u8>,
    plaintext: Seq<u8>,
    short: nat,
)
    requires
        gcm::opened(key, iv, aad, ciphertext, tag) == Ok::<_, GcmError>(Some(plaintext)),
        1 <= short <= tag.len(),
    ensures
        gcm::opened(key, iv, aad, ciphertext, tag.take(short as int)) == Ok::<_, GcmError>(
            Some(plaintext),
        ),
{
    let full = gcm::full_tag(key, iv, aad, ciphertext);
    assert(tag.take(short as int) =~= full.take(short as int));
}

/// Sealing and opening fail alike, on lengths alone: first on the length of
/// the tag, then on the length of the key.
pub proof fn lengths_decide_errors(
    key: Seq<u8>,
    iv: Seq<u8>,
    aad: Seq<u8>,
    text: Seq<u8>,
    tag: Seq<u8>,
)
    ensures
        gcm::sealed(key, iv, aad, text, tag.len()) is Ok <==> gcm::is_tag_len(tag.len())
            && aes_cipher::is_key_len(key.len()),
        gcm::opened(key, iv, aad, text, tag) is Ok <==> gcm::is_tag_len(tag.len())
            && aes_cipher::is_key_len(key.len()),
        !gcm::is_tag_len(tag.len()) ==> gcm::sealed(key, iv, aad, text, tag.len()) == Err::<
            (Seq<u8>, Seq<u8>),
            _,
        >(GcmError::InvalidTagLength(tag.len() as usize)) && gcm::opened(key, iv, aad, text, tag)
            == Err::<Option<Seq<u8>>, _>(GcmError::InvalidTagLength(tag.len() as usize)),
        gcm::is_tag_len(tag.len()) && !aes_cipher::is_key_len(key.len()) ==> gcm::sealed(
            key,
            iv,
            aad,
            text,
            tag.len(),
        ) == Err::<(Seq<u8>, Seq<u8>), _>(GcmError::InvalidKeyLength(key.len() as usize))
            && gcm::opened(key, iv, aad, text, tag) == Err::<Option<Seq<u8>>, _>(
            GcmError::InvalidKeyLength(key.len() as usize),
        ),
{
}

/// Sealing and opening take keys of 16, 24 and 32 bytes and tags of 1 to 16, and
/// IVs, additional data and texts of any length. The bits of a string can be
/// counted up to 2 to the power of 61 less one bytes.
pub proof fn accepted_lengths(
    key: Seq<u8>,
    iv: Seq<u8>,
    aad: Seq<u8>,
    text: Seq<u8>,
    tag: Seq<u8>,
)
    ensures
        gcm::sealed(key, iv, aad, text, tag.len()) is Ok <==> 0 < tag.len() <= 16 && (key.len()
            == 16 || key.len() == 24 || key.len() == 32),
        gcm::opened(key, iv, aad, text, tag) is Ok <==> 0 < tag.len() <= 16 && (key.len() == 16
            || key.len() == 24 || key.len() == 32),
        aes_cipher::is_key_len(key.len()) <==> gcm::sealed(key, iv, aad, text, 1) is Ok,
        tag.len() == 0 || tag.len() > 16 ==> gcm::sealed(key, iv, aad, text, tag.len()) == Err::<
            (Seq<u8>, Seq<u8>),
            _,
        >(GcmError::InvalidTagLength(tag.len() as usize)),
        0 < tag.len() <= 16 && key.len() != 16 && key.len() != 24 && key.len() != 32
            ==> gcm::sealed(key, iv, aad, text, tag.len()) == Err::<(Seq<u8>, Seq<u8>), _>(
            GcmError::InvalidKeyLength(key.len() as usize),
        ),
        gcm::sealed(key, iv, aad, text, tag.len()) matches Err(e) ==> gcm::opened(
            key,
            iv,
            aad,
            text,
            tag,
        ) == Err::<Option<Seq<u8>>, _>(e),
        gcm::bits_fit(text.len()) <==> text.len() <= 0x1fff_ffff_ffff_ffff,
{
}

/// The length of a key selects the AES that it is used with.
pub proof fn key_length_selects_aes(key: Seq<u8>, block: Seq<u8>)
    ensures
        key.len() == 16 ==> aes_cipher::aes_block(key, block) == primitives::aes128_block(
            key,
            block,
        ),
        key.len() == 24 ==> aes_cipher::aes_block(key, block) == primitives::aes192_block(
            key,
            block,
        ),
        key.len() == 32 ==> aes_cipher::aes_block(key, block) == primitives::aes256_block(
            key,
            block,
        ),
{
}

/// Two counts less than `m` steps apart differ modulo `m`.
proof fn lemma_counts_differ(start: nat, a: nat, b: nat, m: nat)
    requires
        a < b < a + m,
    ensures
        (start + a) % m != (start + b) % m,
{
    let x = ((start + a) % m) as int;
    let d = (b - a) as int;
    lemma_add_mod_noop_right(d, (start + a) as int, m as int);
    assert(d + (start + a) == start + b);
    assert(((start + b) % m) as int == (d + x) % (m as int));
    if d + x < m {
        lemma_small_mod((d + x) as nat, m);
    } else {
        lemma_mod_add_multiples_vanish(d + x - m, m as int);
        lemma_small_mod((d + x - m) as nat, m);
    }
}

/// The block counter leaves the first twelve bytes alone, does not come back to
/// a value within 2 to the power of 32 steps, and then does.
pub proof fn counter_blocks_do_not_repeat(start: Seq<u8>, m: nat, n: nat)
    requires
        start.len() == 16,
        m < n < m + 0x1_0000_0000,
    ensures
        block::counter_block(start, n).len() == 16,
        block::counter_block(start, n).take(12) == start.take(12),
        block::counter_block(start, m) != block::counter_block(start, n),
        block::counter_block(start, m + 0x1_0000_0000) == block::counter_block(start, m),
        block::counter_block(start, 0) == start,
{
    let base = block::be_value(start.skip(12));
    let a = (base + m) % 0x1_0000_0000;
    let b = (base + n) % 0x1_0000_0000;
    assert(pow(256, 4) == 0x1_0000_0000) by {
        reveal_with_fuel(pow, 5);
    }
    block::lemma_be_bytes_len(a, 4);
    block::lemma_be_bytes_len(b, 4);
    block::lemma_be_bytes_value(a, 4);
    block::lemma_be_bytes_value(b, 4);
    assert(block::counter_block(start, n).take(12) =~= start.take(12));
    assert(block::counter_block(start, m).skip(12) =~= block::be_bytes(a, 4));
    assert(block::counter_block(start, n).skip(12) =~= block::be_bytes(b, 4));
    lemma_counts_differ(base, m, n, 0x1_0000_0000);
    lemma_mod_add_multiples_vanish((base + m) as int, 0x1_0000_0000);
    block::lemma_be_value_bound(start.skip(12));
    lemma_small_mod(base, 0x1_0000_0000);
    block::lemma_be_value_bytes(start.skip(12));
    assert(block::counter_block(start, 0) =~= start);
}

/// Counting on from a counter block counts on from where it started.
pub proof fn counter_steps_add_up(start: Seq<u8>, m: nat, n: nat)
    requires
        start.len() == 16,
    ensures
        block::counter_block(block::counter_block(start, m), n) == block::counter_block(
            start,
            m + n,
        ),
{
    let base = block::be_value(start.skip(12));
    let now = (base + m) % 0x1_0000_0000;
    assert(pow(256, 4) == 0x1_0000_0000) by {
        reveal_with_fuel(pow, 5);
    }
    block::lemma_be_bytes_len(now, 4);
    block::lemma_be_bytes_value(now, 4);
    let there = block::counter_block(start, m);
    assert(there.take(12) =~= start.take(12));
    assert(there.skip(12) =~= block::be_bytes(now, 4));
    lemma_add_mod_noop_right(n as int, (base + m) as int, 0x1_0000_0000);
}

/// One step puts the number in the last four bytes, the most significant byte
/// first, up by one modulo 2 to the power of 32, and leaves the other bytes alone.
pub proof fn counter_counts_in_last_four(start: Seq<u8>, n: nat)
    requires
        start.len() == 16,
    ensures
        ({
            let then = block::counter_block(start, n);
            &&& then.len() == 16
            &&& forall|i: int| 0 <= i < 12 ==> then[i] == start[i]
            &&& ((then[12] * 256 + then[13]) * 256 + then[14]) * 256 + then[15] == (((start[12]
                * 256 + start[13]) * 256 + start[14]) * 256 + start[15] + n) % 0x1_0000_0000
        }),
{
    let base = block::be_value(start.skip(12));
    let now = (base + n) % 0x1_0000_0000;
    let then = block::counter_block(start, n);
    assert(pow(256, 4) == 0x1_0000_0000) by {
        reveal_with_fuel(pow, 5);
    }
    block::lemma_be_bytes_len(now, 4);
    block::lemma_be_bytes_value(now, 4);
    assert(then.skip(12) =~= block::be_bytes(now, 4));
    block::lemma_last_four(start);
    block::lemma_last_four(then);
}

/// Zero padding gives whole blocks that hold the data in order and zeros behind
/// it.
pub proof fn padding_keeps_data(data: Seq<u8>)
    ensures
        16 * block::zero_padded(data).len() >= data.len(),
        16 * block::zero_padded(data).len() < data.len() + 16,
        forall|i: int|
            0 <= i < block::zero_padded(data).len() ==> (#[trigger] block::zero_padded(data)[i]).len()
                == 16,
        forall|i: int|
            0 <= i < data.len() ==> #[trigger] data[i] == block::zero_padded(data)[i / 16][i % 16],
        forall|i: int|
            data.len() <= i < 16 * block::zero_padded(data).len()
                ==> #[trigger] block::zero_padded(data)[i / 16][i % 16] == 0,
{
    assert forall|i: int| 0 <= i < data.len() implies #[trigger] data[i] == block::zero_padded(
        data,
    )[i / 16][i % 16] by {
        assert(16 * (i / 16) + i % 16 == i);
    }
    assert forall|i: int|
        data.len() <= i < 16 * block::zero_padded(
            data,
        ).len() implies #[trigger] block::zero_padded(data)[i / 16][i % 16] == 0 by {
        assert(16 * (i / 16) + i % 16 == i);
    }
}

/// Data of one length are told apart by their padded blocks.
proof fn lemma_padding_injective(a: Seq<u8>, b: Seq<u8>)
    requires
        a.len() == b.len(),
        block::zero_padded(a) == block::zero_padded(b),
    ensures
        a == b,
{
    padding_keeps_data(a);
    padding_keeps_data(b);
    assert forall|i: int| 0 <= i < a.len() implies a[i] == b[i] by {
        assert(a[i] == block::zero_padded(a)[i / 16][i % 16]);
        assert(b[i] == block::zero_padded(b)[i / 16][i % 16]);
    }
    assert(a =~= b);
}

/// Lengths whose bits fit in 64 bits are told apart by their length block.
pub proof fn lemma_length_block_injective(a1: nat, c1: nat, a2: nat, c2: nat)
    requires
        gcm::bits_fit(a1),
        gcm::bits_fit(c1),
        gcm::bits_fit(a2),
        gcm::bits_fit(c2),
        block::length_block(a1, c1) == block::length_block(a2, c2),
    ensures
        a1 == a2,
        c1 == c2,
{
    assert(pow(256, 8) == 0x1_0000_0000_0000_0000) by {
        reveal_with_fuel(pow, 9);
    }
    block::lemma_be_bytes_len(8 * a1, 8);
    block::lemma_be_bytes_len(8 * a2, 8);
    block::lemma_be_bytes_value(8 * a1, 8);
    block::lemma_be_bytes_value(8 * c1, 8);
    block::lemma_be_bytes_value(8 * a2, 8);
    block::lemma_be_bytes_value(8 * c2, 8);
    let one = block::length_block(a1, c1);
    let two = block::length_block(a2, c2);
    assert(one.take(8) =~= block::be_bytes(8 * a1, 8));
    assert(two.take(8) =~= block::be_bytes(8 * a2, 8));
    assert(one.skip(8) =~= block::be_bytes(8 * c1, 8));
    assert(two.skip(8) =~= block::be_bytes(8 * c2, 8));
}

/// Different pairs of additional data and ciphertext are hashed as different
/// blocks: no byte can move from one to the other unnoticed.
pub proof fn tag_input_is_injective(aad1: Seq<u8>, text1: Seq<u8>, aad2: Seq<u8>, text2: Seq<u8>)
    requires
        gcm::bits_fit(aad1.len()),
        gcm::bits_fit(text1.len()),
        gcm::bits_fit(aad2.len()),
        gcm::bits_fit(text2.len()),
        gcm::tag_input(aad1, text1) == gcm::tag_input(aad2, text2),
    ensures
        aad1 == aad2,
        text1 == text2,
{
    let one = gcm::tag_input(aad1, text1);
    let two = gcm::tag_input(aad2, text2);
    assert(one.last() == block::length_block(aad1.len(), text1.len()));
    assert(two.last() == block::length_block(aad2.len(), text2.len()));
    lemma_length_block_injective(aad1.len(), text1.len(), aad2.len(), text2.len());
    let n = block::zero_padded(aad1).len() as int;
    let m = one.len() - 1;
    assert(one.take(n) =~= block::zero_padded(aad1));
    assert(two.take(n) =~= block::zero_padded(aad2));
    assert(one.subrange(n, m) =~= block::zero_padded(text1));
    assert(two.subrange(n, m) =~= block::zero_padded(text2));
    lemma_padding_injective(aad1, aad2);
    lemma_padding_injective(text1, text2);
}

/// Different IVs are hashed as different blocks.
pub proof fn iv_input_is_injective(iv1: Seq<u8>, iv2: Seq<u8>)
    requires
        gcm::bits_fit(iv1.len()),
        gcm::bits_fit(iv2.len()),
        gcm::iv_input(iv1) == gcm::iv_input(iv2),
    ensures
        iv1 == iv2,
{
    let one = gcm::iv_input(iv1);
    let two = gcm::iv_input(iv2);
    assert(one.last() == block::length_block(0, iv1.len()));
    assert(two.last() == block::length_block(0, iv2.len()));
    lemma_length_block_injective(0, iv1.len(), 0, iv2.len());
    assert(one.drop_last() =~= block::zero_padded(iv1));
    assert(two.drop_last() =~= block::zero_padded(iv2));
    lemma_padding_injective(iv1, iv2);
}

/// GHASH takes blocks in one by one: of none it is zeros, and one more is
/// exclusive-ored into the GHASH of those before it, which is then hashed as a
/// single block.
pub proof fn ghash_absorbs_block_by_block(h: Seq<u8>, blocks: Seq<Seq<u8>>, next: Seq<u8>)
    requires
        next.len() == 16,
    ensures
        field::ghash_digest(h, Seq::empty()) == block::zero_block(),
        field::ghash_digest(h, blocks.push(next)) == field::ghash_digest(
            h,
            seq![block::block_xor(field::ghash_digest(h, blocks), next)],
        ),
{
    field::lemma_ghash_empty(h);
    assert(blocks.push(next).drop_last() =~= blocks);
    field::lemma_ghash_step(h, blocks.push(next));
}

/// The GHASH of a single block is its product with the hash key.
pub proof fn ghash_of_one_block(h: Seq<u8>, x: Seq<u8>)
    requires
        x.len() == 16,
    ensures
        field::ghash_digest(h, seq![x]).len() == 16,
        field::element(field::ghash_digest(h, seq![x])) == field::product(
            field::element(x),
            field::element(h),
        ),
{
    let (e, k) = (field::element(x), field::element(h));
    assert(seq![x].drop_last() =~= Seq::<Seq<u8>>::empty());
    assert(field::ghash_sum(k, seq![x].drop_last()) == 0);
    block::lemma_xor_zero(e);
    field::lemma_element_bytes(field::product(e, k));
}

/// The GHASH of the blockwise exclusive-or of two inputs is the exclusive-or of
/// their GHASHes.
pub proof fn ghash_is_linear(h: Seq<u8>, a: Seq<Seq<u8>>, b: Seq<Seq<u8>>, c: Seq<Seq<u8>>)
    requires
        a.len() == b.len() == c.len(),
        field::whole_blocks(a),
        field::whole_blocks(b),
        forall|i: int| 0 <= i < c.len() ==> #[trigger] c[i] == block::block_xor(a[i], b[i]),
    ensures
        field::ghash_digest(h, c) == block::block_xor(
            field::ghash_digest(h, a),
            field::ghash_digest(h, b),
        ),
{
    let k = field::element(h);
    field::lemma_ghash_sum_linear(k, a, b, c);
    field::lemma_bytes_xor(field::ghash_sum(k, a), field::ghash_sum(k, b));
}

/// Zero blocks hash to zeros, and in front of other blocks they do not change
/// the hash.
pub proof fn leading_zero_blocks_do_not_count(
    h: Seq<u8>,
    zeros: Seq<Seq<u8>>,
    blocks: Seq<Seq<u8>>,
)
    requires
        forall|i: int| 0 <= i < zeros.len() ==> #[trigger] zeros[i] == block::zero_block(),
    ensures
        field::ghash_digest(h, zeros) == block::zero_block(),
        field::ghash_digest(h, zeros + blocks) == field::ghash_digest(h, blocks),
{
    field::lemma_ghash_sum_zeros(field::element(h), zeros);
    field::lemma_ghash_sum_after_zeros(field::element(h), zeros, blocks);
    block::lemma_be_bytes_zero(16);
    assert(block::be_bytes(0, 16) =~= block::zero_block());
}

/// Under the hash key 1 a single block is its own GHASH.
pub proof fn hash_key_one_keeps_block(h: Seq<u8>, x: Seq<u8>)
    requires
        field::element(h) == field::one(),
        x.len() == 16,
    ensures
        field::ghash_digest(h, seq![x]) == x,
{
    let e = field::element(x);
    assert(seq![x].drop_last() =~= Seq::<Seq<u8>>::empty());
    assert(field::ghash_sum(field::one(), seq![x].drop_last()) == 0);
    block::lemma_xor_zero(e);
    field::lemma_product_by_one(e);
    field::lemma_element_is_number(x);
    block::lemma_be_value_bytes(x);
}

/// The payload is the status 8, the activity hash, the flags and a zero.
pub proof fn payload_layout(activity_hash: Seq<u8>, flags: u8)
    ensures
        ({
            let plain = advertise::payload(activity_hash, flags);
            let n = activity_hash.len() as int;
            &&& plain.len() == n + 3
            &&& plain[0] == 8
            &&& forall|i: int| 0 <= i < n ==> plain[1 + i] == #[trigger] activity_hash[i]
            &&& plain[n + 1] == flags
            &&& plain[n + 2] == 0
        }),
{
}

/// The flag for a copy on the clipboard is one bit, the fourth from below.
pub proof fn clipboard_flag_is_one_bit(flags: u8)
    ensures
        flags & advertise::FLAG_CLIPBOARD_AVAILABLE != 0 <==> (flags / 8) % 2 == 1,
{
    assert(flags & 0x08 != 0 <==> (flags / 8) % 2 == 1) by (bit_vector);
}

/// The TLV is the type 12, the count of the bytes that follow, the status 8, the
/// IV, the tag and the ciphertext.
pub proof fn tlv_layout(iv: Seq<u8>, tag: Seq<u8>, ciphertext: Seq<u8>)
    requires
        iv.len() == 2,
        tag.len() == 1,
        ciphertext.len() <= 251,
    ensures
        ({
            let bytes = advertise::tlv(iv, tag, ciphertext);
            &&& bytes.len() == ciphertext.len() + 6
            &&& bytes[0] == 12
            &&& bytes[1] == bytes.len() - 2
            &&& bytes[2] == 8
            &&& bytes[3] == iv[0]
            &&& bytes[4] == iv[1]
            &&& bytes[5] == tag[0]
            &&& forall|i: int| 0 <= i < ciphertext.len() ==> bytes[6 + i] == #[trigger] ciphertext[i]
        }),
{
}

/// The IV of an advertisement is its counter, whatever it is, in two bytes with the
/// low one first, and what it carries was sealed with that IV and the status 8.
pub proof fn advert_carries_sealed_payload(
    key: Seq<u8>,
    counter: u16,
    activity_hash: Seq<u8>,
    flags: u8,
    iv: Seq<u8>,
    plain: Seq<u8>,
)
    requires
        activity_hash.len() == 7,
        iv.len() == 2,
        iv[0] + 256 * iv[1] == counter,
        plain == seq![8u8] + activity_hash + seq![flags, 0u8],
    ensures
        match gcm::sealed(key, iv, seq![8u8], plain, 1) {
            Ok((ciphertext, tag)) => advertise::advert(key, counter, activity_hash, flags) == Ok::<
                _,
                GcmError,
            >(seq![12u8, 14u8, 8u8, iv[0], iv[1], tag[0]] + ciphertext),
            Err(e) => advertise::advert(key, counter, activity_hash, flags) == Err::<
                Seq<u8>,
                _,
            >(e),
        },
{
    assert(iv =~= advertise::counter_iv(counter));
    assert(plain =~= advertise::payload(activity_hash, flags));
    if let Ok((ciphertext, tag)) = gcm::sealed(key, iv, seq![8u8], plain, 1) {
        assert(seq![12u8, 14u8, 8u8, iv[0], iv[1], tag[0]] + ciphertext =~= advertise::tlv(
            iv,
            tag,
            ciphertext,
        ));
    }
}

/// An advertisement is built whenever the key has a length that is accepted,
/// and is laid out as `0c len status iv tag ct` with ten bytes of ciphertext.
pub proof fn advert_layout(key: Seq<u8>, counter: u16, activity_hash: Seq<u8>, flags: u8)
    requires
        activity_hash.len() == 7,
    ensures
        advertise::advert(key, counter, activity_hash, flags) is Ok <==> aes_cipher::is_key_len(
            key.len(),
        ),
        advertise::advert(key, counter, activity_hash, flags) matches Ok(bytes) ==> {
            &&& bytes.len() == 16
            &&& bytes[0] == 0x0c
            &&& bytes[1] == bytes.len() - 2
            &&& bytes[2] == 0x08
            &&& bytes.subrange(3, 5) == advertise::counter_iv(counter)
        },
{
    if let Ok(bytes) = advertise::advert(key, counter, activity_hash, flags) {
        assert(bytes.subrange(3, 5) =~= advertise::counter_iv(counter));
    }
}

/// A receiver that takes an advertisement apart by its layout and opens it with
/// the same key gets the status, the activity hash and the flags back.
pub proof fn advert_opens_to_payload(key: Seq<u8>, counter: u16, activity_hash: Seq<u8>, flags: u8)
    requires
        aes_cipher::is_key_len(key.len()),
        activity_hash.len() == 7,
    ensures
        advertise::advert(key, counter, activity_hash, flags) matches Ok(bytes) && gcm::opened(
            key,
            bytes.subrange(3, 5),
            bytes.subrange(2, 3),
            bytes.skip(6),
            bytes.subrange(5, 6),
        ) matches Ok(Some(plain)) && plain.len() == 10 && plain[0] == advertise::STATUS_COPIED
            && plain.subrange(1, 8) == activity_hash && plain[8] == flags && plain[9] == 0,
{
    let iv = advertise::counter_iv(counter);
    let aad = seq![advertise::STATUS_COPIED];
    let plain = advertise::payload(activity_hash, flags);
    seal_then_open(key, iv, aad, plain, 1);
    let (ciphertext, tag) = gcm::sealed(key, iv, aad, plain, 1)->Ok_0;
    let bytes = advertise::tlv(iv, tag, ciphertext);
    assert(bytes.subrange(3, 5) =~= iv);
    assert(bytes.subrange(2, 3) =~= aad);
    assert(bytes.subrange(5, 6) =~= tag);
    assert(bytes.skip(6) =~= ciphertext);
    assert(plain.subrange(1, 8) =~= activity_hash);
}

/// The counter of a builder after `n` advertisements.
pub open spec fn counter_after(counter: u16, n: nat) -> u16
    decreases n,
{
    if n == 0 {
        counter
    } else {
        advertise::next_counter(counter_after(counter, (n - 1) as nat))
    }
}

/// The counter counts the advertisements, modulo 65536.
pub proof fn counter_counts_adverts(counter: u16, n: nat)
    ensures
        counter_after(counter, n) == (counter + n) % 0x1_0000,
    decreases n,
{
    if n == 0 {
        lemma_small_mod(counter as nat, 0x1_0000);
    } else {
        counter_counts_adverts(counter, (n - 1) as nat);
        lemma_add_mod_noop_right(1, counter + n - 1, 0x1_0000);
    }
}

/// The IV of advertisement `n` of a fresh builder, counted from zero and below
/// 65536, is `n` in two bytes, the low one first.
pub proof fn fresh_builder_ivs_count_up(key: Seq<u8>, n: nat, activity_hash: Seq<u8>, flags: u8)
    requires
        n < 0x1_0000,
        activity_hash.len() == 7,
    ensures
        counter_after(0, n) == n,
        advertise::advert(key, counter_after(0, n), activity_hash, flags) matches Ok(bytes)
            ==> bytes[3] + 256 * bytes[4] == n,
{
    counter_counts_adverts(0, n);
    lemma_small_mod(n, 0x1_0000);
}

/// The advertisements of one builder have different IVs, up to 65536 of them;
/// the next one starts over.
pub proof fn advert_ivs_do_not_repeat(counter: u16, m: nat, n: nat)
    requires
        m < n < m + 0x1_0000,
    ensures
        advertise::counter_iv(counter_after(counter, m)) != advertise::counter_iv(
            counter_after(counter, n),
        ),
        counter_after(counter, m + 0x1_0000) == counter_after(counter, m),
{
    counter_counts_adverts(counter, m);
    counter_counts_adverts(counter, n);
    counter_counts_adverts(counter, m + 0x1_0000);
    lemma_counts_differ(counter as nat, m, n, 0x1_0000);
    lemma_mod_add_multiples_vanish((counter + m) as int, 0x1_0000);
    let (a, b) = (counter_after(counter, m), counter_after(counter, n));
    let (x, y) = (advertise::counter_iv(a), advertise::counter_iv(b));
    assert(x[0] == a % 256 && x[1] == a / 256 && y[0] == b % 256 && y[1] == b / 256);
}

/// The number that decimal digits stand for.
pub open spec fn read_decimal(digits: Seq<char>) -> int
    decreases digits.len(),
{
    if digits.len() == 0 {
        0
    } else {
        10 * read_decimal(digits.drop_last()) + (digits.last() as int - '0' as int)
    }
}

/// `digits` are the decimal digits of `n`, with no zero in front of others.
pub open spec fn writes_decimal(digits: Seq<char>, n: nat) -> bool {
    &&& digits.len() > 0
    &&& forall|i: int| 0 <= i < digits.len() ==> '0' <= #[trigger] digits[i] <= '9'
    &&& digits[0] == '0' ==> digits.len() == 1
    &&& read_decimal(digits) == n
}

proof fn lemma_decimal_writes(n: nat)
    ensures
        writes_decimal(error::decimal(n), n),
        error::decimal(n)[0] == '0' ==> n == 0,
    decreases n,
{
    let digits = error::decimal(n);
    if n < 10 {
        assert(digits.drop_last() =~= Seq::<char>::empty());
        assert(read_decimal(digits.drop_last()) == 0);
    } else {
        lemma_decimal_writes(n / 10);
        assert(digits.drop_last() =~= error::decimal(n / 10));
    }
}

proof fn lemma_read_positive(digits: Seq<char>)
    requires
        digits.len() > 0,
        forall|i: int| 0 <= i < digits.len() ==> '0' <= #[trigger] digits[i] <= '9',
        digits[0] != '0',
    ensures
        read_decimal(digits) > 0,
    decreases digits.len(),
{
    if digits.len() == 1 {
        assert(digits.drop_last() =~= Seq::<char>::empty());
        assert(read_decimal(digits.drop_last()) == 0);
    } else {
        lemma_read_positive(digits.drop_last());
    }
}

/// There is one way to write a number in decimal digits.
pub proof fn decimal_is_unique(n: nat, digits: Seq<char>)
    ensures
        writes_decimal(digits, n) <==> digits == error::decimal(n),
    decreases n,
{
    lemma_decimal_writes(n);
    if writes_decimal(digits, n) {
        let front = digits.drop_last();
        let d = digits.last() as int - '0' as int;
        assert('0' <= digits[digits.len() - 1] <= '9');
        if digits.len() == 1 {
            assert(front =~= Seq::<char>::empty());
            assert(read_decimal(front) == 0);
            assert(n == d);
            assert(digits =~= error::decimal(n));
        } else {
            lemma_read_positive(front);
            assert(n / 10 == read_decimal(front) && n % 10 == d);
            assert(writes_decimal(front, n / 10));
            decimal_is_unique(n / 10, front);
            assert(digits =~= error::decimal(n));
        }
    }
}

/// A message says what was wrong and ends in the length that was given, in decimal
/// digits.
pub proof fn messages_end_in_length(n: usize, digits: Seq<char>)
    requires
        writes_decimal(digits, n as nat),
    ensures
        GcmError::InvalidKeyLength(n).text() == "AES key must be 16, 24 or 32 bytes, got "@ + digits,
        GcmError::InvalidTagLength(n).text() == "GCM tag must be 1..=16 bytes, got "@ + digits,
{
    decimal_is_unique(n as nat, digits);
}

/// Different errors have different messages.
pub proof fn messages_differ(a: GcmError, b: GcmError)
    requires
        a != b,
    ensures
        a.text() != b.text(),
{
    reveal_strlit("AES key must be 16, 24 or 32 bytes, got ");
    reveal_strlit("GCM tag must be 1..=16 bytes, got ");
    let x = "AES key must be 16, 24 or 32 bytes, got "@;
    let y = "GCM tag must be 1..=16 bytes, got "@;
    let m = match a {
        GcmError::InvalidKeyLength(n) => n as nat,
        GcmError::InvalidTagLength(n) => n as nat,
    };
    let n = match b {
        GcmError::InvalidKeyLength(n) => n as nat,
        GcmError::InvalidTagLength(n) => n as nat,
    };
    let (d, e) = (error::decimal(m), error::decimal(n));
    lemma_decimal_writes(m);
    lemma_decimal_writes(n);
    assert((x + d).skip(x.len() as int) =~= d && (x + e).skip(x.len() as int) =~= e);
    assert((y + d).skip(y.len() as int) =~= d && (y + e).skip(y.len() as int) =~= e);
    assert((x + d)[0] == 'A' && (x + e)[0] == 'A');
    assert((y + d)[0] == 'G' && (y + e)[0] == 'G');
}

} // verus!
