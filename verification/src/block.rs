//! Sixteen-byte blocks: big-endian numbers in them, zero padding, the block
//! counter and exclusive-or.

use vstd::arithmetic::div_mod::lemma_add_mod_noop_right;
use vstd::arithmetic::power::pow;
use vstd::prelude::*;

verus! {

/// The bytes of a block.
pub const BLOCK: usize = 16;

/// `value`, modulo 2 to the power of `8 * width`, as `width` bytes with the
/// most significant one first.
pub open spec fn be_bytes(value: nat, width: nat) -> Seq<u8>
    decreases width,
{
    if width == 0 {
        Seq::empty()
    } else {
        be_bytes(value / 256, (width - 1) as nat).push((value % 256) as u8)
    }
}

/// The number that `bytes` stand for, the most significant one first.
pub open spec fn be_value(bytes: Seq<u8>) -> nat
    decreases bytes.len(),
{
    if bytes.len() == 0 {
        0
    } else {
        be_value(bytes.drop_last()) * 256 + bytes.last() as nat
    }
}

/// The contents of a sequence of blocks.
pub open spec fn contents(blocks: Seq<[u8; 16]>) -> Seq<Seq<u8>> {
    Seq::new(blocks.len(), |i: int| blocks[i]@)
}

/// `data` cut into blocks, the last one filled up with zeros.
pub open spec fn zero_padded(data: Seq<u8>) -> Seq<Seq<u8>> {
    Seq::new(
        (data.len() + 15) / 16,
        |i: int|
            Seq::new(
                16,
                |j: int|
                    if 16 * i + j < data.len() {
                        data[16 * i + j]
                    } else {
                        0u8
                    },
            ),
    )
}

/// The block of two 64-bit numbers that closes a GHASH input: the lengths, in
/// bits, of two strings of `a_len` and `c_len` bytes.
pub open spec fn length_block(a_len: nat, c_len: nat) -> Seq<u8> {
    be_bytes(8 * a_len, 8) + be_bytes(8 * c_len, 8)
}

/// The counter block `n` steps behind `block`: its last four bytes count
/// modulo 2 to the power of 32, the others stay.
pub open spec fn counter_block(block: Seq<u8>, n: nat) -> Seq<u8> {
    block.take(12) + be_bytes((be_value(block.skip(12)) + n) % 0x1_0000_0000, 4)
}

/// A block of zeros.
pub open spec fn zero_block() -> Seq<u8> {
    Seq::new(16, |i: int| 0u8)
}

/// The sixteen bytes of `text` from `16 * b` on.
pub open spec fn nth_block(text: Seq<u8>, b: int) -> Seq<u8> {
    text.subrange(16 * b, 16 * b + 16)
}

/// The exclusive-or of two blocks.
pub open spec fn block_xor(a: Seq<u8>, b: Seq<u8>) -> Seq<u8> {
    Seq::new(16, |i: int| a[i] ^ b[i])
}

/// `dst` with the bytes of `src` exclusive-ored into its front. What either has
/// more than the other is left alone.
pub open spec fn xored(dst: Seq<u8>, src: Seq<u8>) -> Seq<u8> {
    Seq::new(
        dst.len(),
        |i: int|
            if i < src.len() {
                dst[i] ^ src[i]
            } else {
                dst[i]
            },
    )
}

pub proof fn lemma_byte_xor(a: u8, b: u8)
    ensures
        (a ^ b) ^ b == a,
        (a ^ b) ^ a == b,
        a ^ 0 == a,
        a ^ a == 0,
{
    assert((a ^ b) ^ b == a && (a ^ b) ^ a == b && a ^ 0 == a && a ^ a == 0) by (bit_vector);
}

pub proof fn lemma_mask_drops(mask: u8, a: u8, b: u8)
    ensures
        (mask ^ a) ^ (mask ^ b) == a ^ b,
{
    assert((mask ^ a) ^ (mask ^ b) == a ^ b) by (bit_vector);
}

pub proof fn lemma_xor_zero(a: u128)
    ensures
        a ^ 0 == a,
        0 ^ a == a,
        a ^ a == 0,
{
    assert(a ^ 0 == a && 0 ^ a == a && a ^ a == 0) by (bit_vector);
}

pub proof fn lemma_xor_swap(a: u128, b: u128, c: u128, d: u128)
    ensures
        (a ^ b) ^ (c ^ d) == (a ^ c) ^ (b ^ d),
{
    assert((a ^ b) ^ (c ^ d) == (a ^ c) ^ (b ^ d)) by (bit_vector);
}

pub proof fn lemma_xor_assoc(a: u128, b: u128, c: u128)
    ensures
        (a ^ b) ^ c == (a ^ c) ^ b,
        (a ^ b) ^ c == a ^ (b ^ c),
{
    assert((a ^ b) ^ c == (a ^ c) ^ b && (a ^ b) ^ c == a ^ (b ^ c)) by (bit_vector);
}

pub proof fn lemma_xor_cancel(a: u128, b: u128, c: u128)
    ensures
        a ^ b == 0 ==> a == b,
        a ^ c == b ^ c ==> a == b,
        c ^ a == c ^ b ==> a == b,
{
    assert((a ^ b == 0 ==> a == b) && (a ^ c == b ^ c ==> a == b) && (c ^ a == c ^ b ==> a == b))
        by (bit_vector);
}

pub proof fn lemma_be_bytes_len(value: nat, width: nat)
    ensures
        be_bytes(value, width).len() == width,
    decreases width,
{
    if width > 0 {
        lemma_be_bytes_len(value / 256, (width - 1) as nat);
    }
}

pub proof fn lemma_be_bytes_zero(width: nat)
    ensures
        be_bytes(0, width) == Seq::new(width, |i: int| 0u8),
    decreases width,
{
    if width > 0 {
        lemma_be_bytes_zero((width - 1) as nat);
    }
    assert(be_bytes(0, width) =~= Seq::new(width, |i: int| 0u8));
}

/// A number that fits in `width` bytes is read back from them.
pub proof fn lemma_be_bytes_value(value: nat, width: nat)
    requires
        value < pow(256, width),
    ensures
        be_value(be_bytes(value, width)) == value,
    decreases width,
{
    reveal(pow);
    if width > 0 {
        lemma_be_bytes_value(value / 256, (width - 1) as nat);
        let front = be_bytes(value / 256, (width - 1) as nat);
        assert(be_bytes(value, width).drop_last() == front);
    }
}

pub proof fn lemma_be_value_bound(bytes: Seq<u8>)
    ensures
        be_value(bytes) < pow(256, bytes.len()),
    decreases bytes.len(),
{
    reveal(pow);
    if bytes.len() > 0 {
        lemma_be_value_bound(bytes.drop_last());
    }
}

/// The bytes that a number was read from come back from it.
pub proof fn lemma_be_value_bytes(bytes: Seq<u8>)
    ensures
        be_bytes(be_value(bytes), bytes.len()) == bytes,
    decreases bytes.len(),
{
    if bytes.len() > 0 {
        lemma_be_value_bytes(bytes.drop_last());
        assert(bytes.drop_last().push(bytes.last()) == bytes);
    }
}

/// The number in the last four bytes of a block.
pub proof fn lemma_last_four(block: Seq<u8>)
    requires
        block.len() == 16,
    ensures
        be_value(block.skip(12)) == ((block[12] * 256 + block[13]) * 256 + block[14]) * 256
            + block[15],
{
    reveal_with_fuel(be_value, 5);
    let tail = block.skip(12);
    assert(tail == seq![block[12], block[13], block[14], block[15]]);
    assert(tail.drop_last() == seq![block[12], block[13], block[14]]);
    assert(tail.drop_last().drop_last() == seq![block[12], block[13]]);
    assert(tail.drop_last().drop_last().drop_last() == seq![block[12]]);
}

/// The counter is one step further after one more step.
pub proof fn lemma_counter_block_step(block: Seq<u8>, n: nat)
    requires
        block.len() == 16,
    ensures
        counter_block(counter_block(block, n), 1) == counter_block(block, n + 1),
        counter_block(block, n).len() == 16,
{
    let start = be_value(block.skip(12));
    let now = (start + n) % 0x1_0000_0000;
    lemma_be_bytes_len(now, 4);
    assert(pow(256, 4) == 0x1_0000_0000) by {
        reveal_with_fuel(pow, 5);
    }
    lemma_be_bytes_value(now, 4);
    let there = counter_block(block, n);
    assert(there.take(12) == block.take(12));
    assert(there.skip(12) == be_bytes(now, 4));
    lemma_add_mod_noop_right(1, (start + n) as int, 0x1_0000_0000);
}

/// `value` as `N` big-endian bytes.
fn be_array<const N: usize>(value: u64) -> (out: [u8; N])
    ensures
        out@ == be_bytes(value as nat, N as nat),
{
    let mut out: [u8; N] = [0u8;N];
    let mut rest: u64 = value;
    let mut i: usize = N;
    assert(be_bytes(rest as nat, N as nat) + out@.skip(N as int) == be_bytes(rest as nat, N as nat));
    while i > 0
        invariant
            i <= N,
            be_bytes(value as nat, N as nat) == be_bytes(rest as nat, i as nat) + out@.skip(i as int),
        decreases i,
    {
        let ghost before = out@;
        let ghost front = be_bytes(rest as nat / 256, (i - 1) as nat);
        i = i - 1;
        out[i] = (rest % 256) as u8;
        proof {
            assert(out@.skip(i as int) == seq![(rest % 256) as u8] + before.skip(i + 1));
            assert(front.push((rest % 256) as u8) + before.skip(i + 1) == front + (seq![
                (rest % 256) as u8,
            ] + before.skip(i + 1)));
        }
        rest = rest / 256;
    }
    assert(be_bytes(rest as nat, 0) + out@.skip(0) == out@);
    out
}

/// Exclusive-ors the bytes of `src` into `dst`, as far as both reach.
pub fn xor_into(dst: &mut [u8], src: &[u8])
    ensures
        final(dst)@ == xored(old(dst)@, src@),
{
    let ghost before = dst@;
    let mut i: usize = 0;
    while i < dst.len() && i < src.len()
        invariant
            dst@.len() == before.len(),
            i <= before.len(),
            i <= src@.len(),
            forall|k: int| 0 <= k < i ==> dst@[k] == before[k] ^ src@[k],
            forall|k: int| i <= k < before.len() ==> dst@[k] == before[k],
        decreases before.len() - i,
    {
        dst[i] = dst[i] ^ src[i];
        i += 1;
    }
    assert(dst@ == xored(before, src@));
}

/// Appends `data` to `out` in whole blocks, the last one filled up with zeros.
pub fn pad_blocks(data: &[u8], out: &mut Vec<[u8; BLOCK]>)
    ensures
        contents(final(out)@) == contents(old(out)@) + zero_padded(data@),
{
    let ghost before = out@;
    let mut pos: usize = 0;
    assert(contents(out@) == contents(before) + zero_padded(data@).take(0));
    while pos < data.len()
        invariant
            pos <= data@.len(),
            pos % 16 == 0 || pos == data@.len(),
            contents(out@) == contents(before) + zero_padded(data@).take((pos + 15) / 16),
        decreases data@.len() - pos,
    {
        let left: usize = data.len() - pos;
        let n: usize = if left < BLOCK {
            left
        } else {
            BLOCK
        };
        let mut b: [u8; BLOCK] = [0u8;BLOCK];
        let mut j: usize = 0;
        while j < n
            invariant
                n <= 16,
                pos + n <= data.len(),
                j <= n,
                forall|k: int| 0 <= k < j ==> b@[k] == data@[pos + k],
                forall|k: int| j <= k < 16 ==> b@[k] == 0,
            decreases n - j,
        {
            b[j] = data[pos + j];
            j += 1;
        }
        let ghost done = out@;
        out.push(b);
        proof {
            let i = pos as int / 16;
            let padded = zero_padded(data@);
            assert(padded[i] == b@);
            assert(contents(out@) == contents(done).push(b@));
            assert(padded.take(i + 1) == padded.take(i).push(b@));
        }
        pos = pos + n;
    }
    assert(zero_padded(data@).take((pos + 15) / 16) == zero_padded(data@));
}

/// The block of the two lengths, in bits, that closes a GHASH input.
pub fn len_block(a_len: usize, c_len: usize) -> (b: [u8; BLOCK])
    requires
        8 * a_len <= u64::MAX,
        8 * c_len <= u64::MAX,
    ensures
        b@ == length_block(a_len as nat, c_len as nat),
{
    let a: [u8; 8] = be_array((a_len as u64) * 8);
    let c: [u8; 8] = be_array((c_len as u64) * 8);
    let mut b: [u8; BLOCK] = [0u8;BLOCK];
    let mut i: usize = 0;
    while i < 8
        invariant
            i <= 8,
            forall|k: int| 0 <= k < i ==> b@[k] == a@[k] && b@[8 + k] == c@[k],
        decreases 8 - i,
    {
        b[i] = a[i];
        b[8 + i] = c[i];
        i += 1;
    }
    assert(b@ == a@ + c@);
    b
}

/// One step of the block counter: the last four bytes, read as a big-endian
/// number, go up by one and wrap around to zero.
pub fn inc32(j: [u8; BLOCK]) -> (r: [u8; BLOCK])
    ensures
        r@ == counter_block(j@, 1),
{
    let mut r: [u8; BLOCK] = j;
    let ctr: u32 = ((j[12] as u32 * 256 + j[13] as u32) * 256 + j[14] as u32) * 256 + j[15] as u32;
    proof {
        lemma_last_four(j@);
    }
    let next: [u8; 4] = be_array(ctr.wrapping_add(1) as u64);
    r[12] = next[0];
    r[13] = next[1];
    r[14] = next[2];
    r[15] = next[3];
    assert(r@ == j@.take(12) + next@);
    r
}

} // verus!
