//! The bytes that are hashed and counted, one by one.
//!
//! What goes into GHASH is described here by what stands at each place of it, and
//! what comes out of sealing by the AES blocks and the hashes that each byte of it
//! is made of.

use vstd::arithmetic::div_mod::lemma_div_denominator;
use vstd::arithmetic::power::{lemma_pow_positive, pow};
use vstd::prelude::*;

use crate::{aes_cipher, block, field, gcm, integrity};
use crate::gcm::GcmError;

verus! {

/// The blocks from `from` up to `to` hold `data`, byte by byte, with zeros behind
/// it in the last of them.
pub open spec fn holds(blocks: Seq<Seq<u8>>, from: int, to: int, data: Seq<u8>) -> bool {
    &&& 0 <= from <= to <= blocks.len()
    &&& data.len() <= 16 * (to - from) < data.len() + 16
    &&& forall|i: int| from <= i < to ==> (#[trigger] blocks[i]).len() == 16
    &&& forall|i: int| 0 <= i < data.len() ==> #[trigger] data[i] == blocks[from + i / 16][i % 16]
    &&& forall|i: int|
        data.len() <= i < 16 * (to - from) ==> #[trigger] blocks[from + i / 16][i % 16] == 0
}

/// Eight bytes of `block`, from `at` on, are the digits of `value` to the base
/// 256, the most significant one first.
pub open spec fn holds_number(block: Seq<u8>, at: int, value: nat) -> bool {
    forall|i: int|
        at <= i < at + 8 ==> #[trigger] block[i] == (value as int / pow(
            256,
            (at + 7 - i) as nat,
        )) % 256
}

/// A block with two numbers of 64 bits.
pub open spec fn holds_lengths(block: Seq<u8>, a: nat, c: nat) -> bool {
    block.len() == 16 && holds_number(block, 0, a) && holds_number(block, 8, c)
}

/// `blocks` hold the IV and, in the last one, its length in bits.
pub open spec fn holds_iv(blocks: Seq<Seq<u8>>, iv: Seq<u8>) -> bool {
    &&& blocks.len() > 0
    &&& holds(blocks, 0, blocks.len() - 1, iv)
    &&& holds_lengths(blocks.last(), 0, 8 * iv.len())
}

/// `blocks` hold the additional data in the first `n`, the ciphertext from there
/// on, and in the last one their lengths in bits.
pub open spec fn holds_message(blocks: Seq<Seq<u8>>, n: int, aad: Seq<u8>, text: Seq<u8>) -> bool {
    &&& blocks.len() > 0
    &&& holds(blocks, 0, n, aad)
    &&& holds(blocks, n, blocks.len() - 1, text)
    &&& holds_lengths(blocks.last(), 8 * aad.len(), 8 * text.len())
}

/// The number in the last four bytes of a block.
pub open spec fn last_four(block: Seq<u8>) -> int {
    ((block[12] * 256 + block[13]) * 256 + block[14]) * 256 + block[15]
}

/// The bytes of a number are its digits to the base 256, the most significant one
/// first.
pub proof fn bytes_are_digits(value: nat, width: nat, i: int)
    requires
        0 <= i < width,
    ensures
        block::be_bytes(value, width).len() == width,
        block::be_bytes(value, width)[i] == (value as int / pow(256, (width - 1 - i) as nat)) % 256,
    decreases width,
{
    block::lemma_be_bytes_len(value, width);
    block::lemma_be_bytes_len(value / 256, (width - 1) as nat);
    reveal(pow);
    if i == width - 1 {
        assert(pow(256, 0) == 1);
    } else {
        bytes_are_digits(value / 256, (width - 1) as nat, i);
        let p = pow(256, (width - 2 - i) as nat);
        lemma_pow_positive(256, (width - 2 - i) as nat);
        assert(pow(256, (width - 1 - i) as nat) == 256 * p);
        lemma_div_denominator(value as int, 256, p);
    }
}

/// The first byte of a number counts the highest power of 256, and the others are
/// a number of their own.
pub proof fn first_byte_counts_most(bytes: Seq<u8>)
    requires
        bytes.len() > 0,
    ensures
        block::be_value(Seq::empty()) == 0,
        block::be_value(bytes) == bytes[0] * pow(256, (bytes.len() - 1) as nat) + block::be_value(
            bytes.skip(1),
        ),
    decreases bytes.len(),
{
    reveal(pow);
    if bytes.len() == 1 {
        assert(bytes.drop_last() =~= Seq::<u8>::empty());
        assert(bytes.skip(1) =~= Seq::<u8>::empty());
        assert(pow(256, 0) == 1);
    } else {
        let front = bytes.drop_last();
        first_byte_counts_most(front);
        assert(bytes.skip(1).drop_last() =~= front.skip(1));
        let p = pow(256, (bytes.len() - 2) as nat);
        assert(pow(256, (bytes.len() - 1) as nat) == 256 * p);
        let d = bytes[0] as int;
        assert((d * p) * 256 == d * (256 * p)) by (nonlinear_arith);
    }
}

proof fn lemma_lengths_block(a: nat, c: nat)
    ensures
        holds_lengths(block::length_block(a, c), 8 * a, 8 * c),
{
    let b = block::length_block(a, c);
    block::lemma_be_bytes_len(8 * a, 8);
    block::lemma_be_bytes_len(8 * c, 8);
    assert forall|i: int| 0 <= i < 8 implies #[trigger] b[i] == ((8 * a) as int / pow(
        256,
        (7 - i) as nat,
    )) % 256 by {
        bytes_are_digits(8 * a, 8, i);
    }
    assert forall|i: int| 8 <= i < 16 implies #[trigger] b[i] == ((8 * c) as int / pow(
        256,
        (8 + 7 - i) as nat,
    )) % 256 by {
        bytes_are_digits(8 * c, 8, i - 8);
    }
}

/// The closing block of a hash input holds the two lengths in bits, and no other
/// block does.
pub proof fn length_block_counts_bits(a: nat, c: nat, other: Seq<u8>)
    ensures
        holds_lengths(other, 8 * a, 8 * c) <==> other == block::length_block(a, c),
{
    let b = block::length_block(a, c);
    lemma_lengths_block(a, c);
    if holds_lengths(other, 8 * a, 8 * c) {
        assert forall|i: int| 0 <= i < 16 implies other[i] == b[i] by {
            if i < 8 {
                assert(other[i] == b[i]);
            } else {
                assert(other[i] == b[i]);
            }
        }
        assert(other =~= b);
    }
}

proof fn lemma_holds_is_padded(blocks: Seq<Seq<u8>>, from: int, to: int, data: Seq<u8>)
    requires
        holds(blocks, from, to, data),
    ensures
        blocks.subrange(from, to) == block::zero_padded(data),
{
    let p = block::zero_padded(data);
    assert(p.len() == to - from);
    assert forall|i: int| 0 <= i < p.len() implies blocks[from + i] == p[i] by {
        assert(blocks[from + i].len() == 16);
        assert forall|j: int| 0 <= j < 16 implies blocks[from + i][j] == p[i][j] by {
            let at = 16 * i + j;
            assert(at / 16 == i && at % 16 == j);
            if at < data.len() {
                assert(data[at] == blocks[from + at / 16][at % 16]);
            } else {
                assert(blocks[from + at / 16][at % 16] == 0);
            }
        }
        assert(blocks[from + i] =~= p[i]);
    }
    assert(blocks.subrange(from, to) =~= p);
}

proof fn lemma_padded_holds(blocks: Seq<Seq<u8>>, from: int, to: int, data: Seq<u8>)
    requires
        0 <= from <= to <= blocks.len(),
        blocks.subrange(from, to) == block::zero_padded(data),
    ensures
        holds(blocks, from, to, data),
{
    let p = block::zero_padded(data);
    assert(blocks.subrange(from, to).len() == p.len());
    assert forall|i: int| from <= i < to implies #[trigger] blocks[i] == p[i - from] by {
        assert(blocks.subrange(from, to)[i - from] == blocks[i]);
    }
    assert forall|i: int| 0 <= i < data.len() implies #[trigger] data[i] == blocks[from + i / 16][i
        % 16] by {
        assert(16 * (i / 16) + i % 16 == i);
        assert(blocks[from + i / 16] == p[i / 16]);
    }
    assert forall|i: int|
        data.len() <= i < 16 * (to - from) implies #[trigger] blocks[from + i / 16][i % 16] == 0 by {
        assert(16 * (i / 16) + i % 16 == i);
        assert(blocks[from + i / 16] == p[i / 16]);
    }
}

/// The hash input of an IV is the one sequence of blocks that holds it.
pub proof fn iv_input_holds_iv(iv: Seq<u8>, blocks: Seq<Seq<u8>>)
    ensures
        holds_iv(blocks, iv) <==> blocks == gcm::iv_input(iv),
{
    let input = gcm::iv_input(iv);
    assert(input.subrange(0, input.len() - 1) =~= block::zero_padded(iv));
    lemma_padded_holds(input, 0, input.len() - 1, iv);
    length_block_counts_bits(0, iv.len(), input.last());
    if holds_iv(blocks, iv) {
        lemma_holds_is_padded(blocks, 0, blocks.len() - 1, iv);
        length_block_counts_bits(0, iv.len(), blocks.last());
        assert(blocks =~= blocks.subrange(0, blocks.len() - 1).push(blocks.last()));
    }
}

/// The hash input of a tag is the one sequence of blocks that holds the additional
/// data and the ciphertext.
pub proof fn tag_input_holds_message(
    aad: Seq<u8>,
    text: Seq<u8>,
    n: int,
    blocks: Seq<Seq<u8>>,
)
    ensures
        holds_message(blocks, n, aad, text) ==> blocks == gcm::tag_input(aad, text),
        holds_message(gcm::tag_input(aad, text), (aad.len() as int + 15) / 16, aad, text),
{
    let input = gcm::tag_input(aad, text);
    let m = (aad.len() as int + 15) / 16;
    let last = input.len() - 1;
    assert(input.subrange(0, m) =~= block::zero_padded(aad));
    assert(input.subrange(m, last) =~= block::zero_padded(text));
    lemma_padded_holds(input, 0, m, aad);
    lemma_padded_holds(input, m, last, text);
    length_block_counts_bits(aad.len(), text.len(), input.last());
    if holds_message(blocks, n, aad, text) {
        lemma_holds_is_padded(blocks, 0, n, aad);
        lemma_holds_is_padded(blocks, n, blocks.len() - 1, text);
        length_block_counts_bits(aad.len(), text.len(), blocks.last());
        assert(blocks =~= (blocks.subrange(0, n) + blocks.subrange(n, blocks.len() - 1)).push(
            blocks.last(),
        ));
    }
}

/// The first counter block for an IV is the GHASH of the blocks that hold the IV
/// and its length.
pub proof fn first_counter_hashes_iv(h: Seq<u8>, iv: Seq<u8>, blocks: Seq<Seq<u8>>)
    requires
        holds_iv(blocks, iv),
    ensures
        gcm::first_counter(h, iv) == field::ghash_digest(h, blocks),
{
    iv_input_holds_iv(iv, blocks);
}

proof fn lemma_counter_found(j0: Seq<u8>, c: Seq<u8>, n: nat)
    requires
        j0.len() == 16,
        c.len() == 16,
        forall|k: int| 0 <= k < 12 ==> c[k] == j0[k],
        last_four(c) == (last_four(j0) + n) % 0x1_0000_0000,
    ensures
        c == block::counter_block(j0, n),
{
    block::lemma_last_four(j0);
    block::lemma_last_four(c);
    block::lemma_be_value_bytes(c.skip(12));
    assert(c =~= c.take(12) + c.skip(12));
    assert(c.take(12) =~= j0.take(12));
}

/// Each byte of a ciphertext is the byte of the plaintext under a byte of the
/// encrypted counter. The counter of byte `i` has the front of the first counter
/// block, and counts `i / 16 + 1` further in its last four bytes; the first counter
/// block is the GHASH of the IV under the encrypted zeros.
pub proof fn sealed_text_byte(
    key: Seq<u8>,
    zeros: Seq<u8>,
    iv: Seq<u8>,
    blocks: Seq<Seq<u8>>,
    aad: Seq<u8>,
    plaintext: Seq<u8>,
    tag_len: nat,
    j0: Seq<u8>,
    c: Seq<u8>,
    i: int,
)
    requires
        key.len() == 16 || key.len() == 24 || key.len() == 32,
        1 <= tag_len <= 16,
        integrity::all_zero(zeros),
        holds_iv(blocks, iv),
        j0 == field::ghash_digest(aes_cipher::aes_block(key, zeros), blocks),
        0 <= i < plaintext.len(),
        c.len() == 16,
        forall|k: int| 0 <= k < 12 ==> c[k] == j0[k],
        last_four(c) == (last_four(j0) + i / 16 + 1) % 0x1_0000_0000,
    ensures
        gcm::sealed(key, iv, aad, plaintext, tag_len) matches Ok((ciphertext, tag))
            && ciphertext.len() == plaintext.len() && tag.len() == tag_len && ciphertext[i]
            == plaintext[i] ^ aes_cipher::aes_block(key, c)[i % 16],
{
    let h = aes_cipher::aes_block(key, zeros);
    integrity::hash_key_is_encrypted_zeros(key, zeros);
    first_counter_hashes_iv(h, iv, blocks);
    field::lemma_element_bytes(field::ghash_sum(field::element(h), blocks));
    lemma_counter_found(j0, c, (i / 16 + 1) as nat);
}

/// Each byte of a tag is a byte of the encrypted first counter block under a byte
/// of the GHASH of the message.
pub proof fn sealed_tag_byte(
    key: Seq<u8>,
    zeros: Seq<u8>,
    iv: Seq<u8>,
    blocks: Seq<Seq<u8>>,
    aad: Seq<u8>,
    plaintext: Seq<u8>,
    ciphertext: Seq<u8>,
    tag: Seq<u8>,
    n: int,
    message: Seq<Seq<u8>>,
    i: int,
)
    requires
        integrity::all_zero(zeros),
        holds_iv(blocks, iv),
        gcm::sealed(key, iv, aad, plaintext, tag.len()) == Ok::<_, GcmError>((ciphertext, tag)),
        holds_message(message, n, aad, ciphertext),
        0 <= i < tag.len(),
    ensures
        tag[i] == aes_cipher::aes_block(
            key,
            field::ghash_digest(aes_cipher::aes_block(key, zeros), blocks),
        )[i] ^ field::ghash_digest(aes_cipher::aes_block(key, zeros), message)[i],
{
    let h = aes_cipher::aes_block(key, zeros);
    integrity::hash_key_is_encrypted_zeros(key, zeros);
    first_counter_hashes_iv(h, iv, blocks);
    tag_input_holds_message(aad, ciphertext, n, message);
}

} // verus!
