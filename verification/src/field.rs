//! The field that GHASH computes in, and what GHASH is.
//!
//! A block stands for a polynomial over GF(2): the first bit of the block is the
//! coefficient of 1, the last one that of x^127. Products are taken modulo
//! x^128 + x^7 + x^2 + x + 1. A field element is written as the big-endian
//! number of its block, so its first bit is the top bit of the number.

use vstd::arithmetic::power::pow;
use vstd::prelude::*;

use crate::block;

verus! {

/// Whether x^i occurs in the polynomial `a`, for `i` from 0 to 127.
pub open spec fn has_power(a: u128, i: nat) -> bool {
    (a >> ((127 - i) as u128)) & 1 == 1
}

/// The product of `a` and x: every coefficient moves one place on, and x^128 is
/// replaced by x^7 + x^2 + x + 1.
pub open spec fn times_x(a: u128) -> u128 {
    if a & 1 == 1 {
        (a >> 1) ^ 0xe100_0000_0000_0000_0000_0000_0000_0000
    } else {
        a >> 1
    }
}

/// The product of `a` and x^i.
pub open spec fn times_power(a: u128, i: nat) -> u128
    decreases i,
{
    if i == 0 {
        a
    } else {
        times_x(times_power(a, (i - 1) as nat))
    }
}

/// The product of `b` and those terms of `a` that are below x^n: the sum of
/// `b` times x^i over all x^i in `a`.
pub open spec fn partial_product(a: u128, b: u128, n: nat) -> u128
    decreases n,
{
    if n == 0 {
        0
    } else {
        let rest = partial_product(a, b, (n - 1) as nat);
        if has_power(a, (n - 1) as nat) {
            rest ^ times_power(b, (n - 1) as nat)
        } else {
            rest
        }
    }
}

/// The product of two field elements.
pub open spec fn product(a: u128, b: u128) -> u128 {
    partial_product(a, b, 128)
}

/// The field element that a block of 16 bytes stands for.
pub open spec fn element(bytes: Seq<u8>) -> u128 {
    block::be_value(bytes) as u128
}

/// The GHASH accumulator after `blocks`: each block is added to it, and the sum
/// is multiplied by the hash key `h`.
pub open spec fn ghash_sum(h: u128, blocks: Seq<Seq<u8>>) -> u128
    decreases blocks.len(),
{
    if blocks.len() == 0 {
        0
    } else {
        product(ghash_sum(h, blocks.drop_last()) ^ element(blocks.last()), h)
    }
}

/// The GHASH of `blocks` under the hash key `h`.
pub open spec fn ghash_digest(h: Seq<u8>, blocks: Seq<Seq<u8>>) -> Seq<u8> {
    block::be_bytes(ghash_sum(element(h), blocks) as nat, 16)
}

/// Blocks of 16 bytes.
pub open spec fn whole_blocks(blocks: Seq<Seq<u8>>) -> bool {
    forall|i: int| 0 <= i < blocks.len() ==> (#[trigger] blocks[i]).len() == 16
}

proof fn lemma_pow_256_16()
    ensures
        pow(256, 16) == 0x1_0000_0000_0000_0000_0000_0000_0000_0000,
{
    reveal_with_fuel(pow, 17);
}

/// The number of a block fits in its field element.
pub proof fn lemma_element_is_number(bytes: Seq<u8>)
    requires
        bytes.len() == 16,
    ensures
        element(bytes) == block::be_value(bytes),
{
    lemma_pow_256_16();
    block::lemma_be_value_bound(bytes);
}

/// A field element is read back from its block.
pub proof fn lemma_element_bytes(a: u128)
    ensures
        element(block::be_bytes(a as nat, 16)) == a,
        block::be_bytes(a as nat, 16).len() == 16,
{
    lemma_pow_256_16();
    block::lemma_be_bytes_value(a as nat, 16);
    block::lemma_be_bytes_len(a as nat, 16);
}

/// The number of a front of a block, as bytes are exclusive-ored one by one.
proof fn lemma_value_xor(a: Seq<u8>, b: Seq<u8>)
    requires
        a.len() == b.len(),
        a.len() <= 16,
    ensures
        block::be_value(Seq::new(a.len(), |i: int| a[i] ^ b[i])) == (block::be_value(a) as u128)
            ^ (block::be_value(b) as u128),
    decreases a.len(),
{
    let c = Seq::new(a.len(), |i: int| a[i] ^ b[i]);
    if a.len() == 0 {
        block::lemma_xor_zero(0);
    } else {
        let (a0, b0) = (a.drop_last(), b.drop_last());
        lemma_value_xor(a0, b0);
        assert(c.drop_last() =~= Seq::new(a0.len(), |i: int| a0[i] ^ b0[i]));
        block::lemma_be_value_bound(a0);
        block::lemma_be_value_bound(b0);
        assert(pow(256, a0.len()) <= pow(256, 15)) by {
            vstd::arithmetic::power::lemma_pow_increases(256, a0.len(), 15);
        }
        assert(pow(256, 15) == 0x1_00_0000_0000_0000_0000_0000_0000_0000) by {
            reveal_with_fuel(pow, 16);
        }
        let (p, q) = (block::be_value(a0) as u128, block::be_value(b0) as u128);
        let (x, y) = (a.last(), b.last());
        assert(p < 0x1_00_0000_0000_0000_0000_0000_0000_0000u128);
        assert(((p * 256 + x) as u128) ^ ((q * 256 + y) as u128) == (p ^ q) * 256 + (x ^ y))
            by (bit_vector)
            requires
                p < 0x1_00_0000_0000_0000_0000_0000_0000_0000u128,
                q < 0x1_00_0000_0000_0000_0000_0000_0000_0000u128,
        ;
    }
}

/// The exclusive-or of two blocks is the sum of their field elements.
pub proof fn lemma_element_xor(a: Seq<u8>, b: Seq<u8>)
    requires
        a.len() == 16,
        b.len() == 16,
    ensures
        element(block::block_xor(a, b)) == element(a) ^ element(b),
{
    lemma_value_xor(a, b);
    assert(block::block_xor(a, b) =~= Seq::new(a.len(), |i: int| a[i] ^ b[i]));
    block::lemma_be_value_bound(block::block_xor(a, b));
    lemma_pow_256_16();
}

/// The block of a sum is the exclusive-or of the blocks.
pub proof fn lemma_bytes_xor(a: u128, b: u128)
    ensures
        block::be_bytes((a ^ b) as nat, 16) == block::block_xor(
            block::be_bytes(a as nat, 16),
            block::be_bytes(b as nat, 16),
        ),
{
    let (x, y) = (block::be_bytes(a as nat, 16), block::be_bytes(b as nat, 16));
    lemma_element_bytes(a);
    lemma_element_bytes(b);
    lemma_element_xor(x, y);
    let z = block::block_xor(x, y);
    block::lemma_be_value_bound(z);
    lemma_pow_256_16();
    block::lemma_be_value_bytes(z);
}

/// Products distribute over sums in their first factor.
pub proof fn lemma_partial_product_sum(a: u128, b: u128, c: u128, n: nat)
    requires
        n <= 128,
    ensures
        partial_product(a ^ b, c, n) == partial_product(a, c, n) ^ partial_product(b, c, n),
    decreases n,
{
    if n == 0 {
        block::lemma_xor_zero(0);
    } else {
        let i = (n - 1) as nat;
        lemma_partial_product_sum(a, b, c, i);
        let k = (127 - i) as u128;
        let (p, q) = (partial_product(a, c, i), partial_product(b, c, i));
        let t = times_power(c, i);
        assert(((a ^ b) >> k) & 1 == ((a >> k) & 1) ^ ((b >> k) & 1)) by (bit_vector)
            requires
                k < 128,
        ;
        assert(((a >> k) & 1 == 0 || (a >> k) & 1 == 1) && ((b >> k) & 1 == 0 || (b >> k) & 1 == 1))
            by (bit_vector);
        block::lemma_xor_zero(0);
        block::lemma_xor_zero(1);
        block::lemma_xor_zero(t);
        block::lemma_xor_zero(p ^ q);
        block::lemma_xor_swap(p, t, q, t);
        block::lemma_xor_assoc(p, t, q);
        block::lemma_xor_assoc(p, q, t);
    }
}

/// Nothing times anything is nothing.
pub proof fn lemma_partial_product_zero(b: u128, n: nat)
    requires
        n <= 128,
    ensures
        partial_product(0, b, n) == 0,
    decreases n,
{
    if n > 0 {
        lemma_partial_product_zero(b, (n - 1) as nat);
        let k = (127 - (n - 1)) as u128;
        assert((0u128 >> k) & 1 == 0) by (bit_vector)
            requires
                k < 128,
        ;
    }
}

/// The GHASH of no blocks is zeros.
pub proof fn lemma_ghash_empty(h: Seq<u8>)
    ensures
        ghash_digest(h, Seq::empty()) == block::zero_block(),
{
    block::lemma_be_bytes_zero(16);
    assert(block::be_bytes(0, 16) =~= block::zero_block());
}

/// The last block is taken in as a single block is, on top of the GHASH of
/// those before it.
pub proof fn lemma_ghash_step(h: Seq<u8>, blocks: Seq<Seq<u8>>)
    requires
        blocks.len() > 0,
        blocks.last().len() == 16,
    ensures
        ghash_digest(h, blocks) == ghash_digest(
            h,
            seq![block::block_xor(ghash_digest(h, blocks.drop_last()), blocks.last())],
        ),
{
    let before = ghash_sum(element(h), blocks.drop_last());
    let one = seq![block::block_xor(ghash_digest(h, blocks.drop_last()), blocks.last())];
    lemma_element_bytes(before);
    lemma_element_xor(ghash_digest(h, blocks.drop_last()), blocks.last());
    assert(one.drop_last() =~= Seq::<Seq<u8>>::empty());
    assert(ghash_sum(element(h), one.drop_last()) == 0);
    let x = element(one.last());
    block::lemma_xor_zero(x);
}

/// The accumulator of a blockwise sum is the sum of the accumulators.
pub proof fn lemma_ghash_sum_linear(
    h: u128,
    a: Seq<Seq<u8>>,
    b: Seq<Seq<u8>>,
    c: Seq<Seq<u8>>,
)
    requires
        a.len() == b.len() == c.len(),
        whole_blocks(a),
        whole_blocks(b),
        forall|i: int| 0 <= i < c.len() ==> #[trigger] c[i] == block::block_xor(a[i], b[i]),
    ensures
        ghash_sum(h, c) == ghash_sum(h, a) ^ ghash_sum(h, b),
    decreases a.len(),
{
    if a.len() == 0 {
        block::lemma_xor_zero(0);
    } else {
        lemma_ghash_sum_linear(h, a.drop_last(), b.drop_last(), c.drop_last());
        lemma_element_xor(a.last(), b.last());
        let (p, q) = (ghash_sum(h, a.drop_last()), ghash_sum(h, b.drop_last()));
        let (x, y) = (element(a.last()), element(b.last()));
        block::lemma_xor_swap(p, q, x, y);
        lemma_partial_product_sum(p ^ x, q ^ y, h, 128);
    }
}

/// Zero blocks leave the accumulator at zero.
pub proof fn lemma_ghash_sum_zeros(h: u128, zeros: Seq<Seq<u8>>)
    requires
        forall|i: int| 0 <= i < zeros.len() ==> #[trigger] zeros[i] == block::zero_block(),
    ensures
        ghash_sum(h, zeros) == 0,
    decreases zeros.len(),
{
    if zeros.len() > 0 {
        lemma_ghash_sum_zeros(h, zeros.drop_last());
        block::lemma_be_bytes_zero(16);
        assert(block::be_bytes(0, 16) =~= block::zero_block());
        lemma_element_bytes(0);
        block::lemma_xor_zero(0);
        lemma_partial_product_zero(h, 128);
    }
}

/// Zero blocks in front of others make no difference.
pub proof fn lemma_ghash_sum_after_zeros(h: u128, zeros: Seq<Seq<u8>>, blocks: Seq<Seq<u8>>)
    requires
        forall|i: int| 0 <= i < zeros.len() ==> #[trigger] zeros[i] == block::zero_block(),
    ensures
        ghash_sum(h, zeros + blocks) == ghash_sum(h, blocks),
    decreases blocks.len(),
{
    if blocks.len() == 0 {
        assert(zeros + blocks =~= zeros);
        lemma_ghash_sum_zeros(h, zeros);
    } else {
        lemma_ghash_sum_after_zeros(h, zeros, blocks.drop_last());
        assert((zeros + blocks).drop_last() =~= zeros + blocks.drop_last());
    }
}

/// The field element 1: the block whose first bit alone is set.
pub open spec fn one() -> u128 {
    0x8000_0000_0000_0000_0000_0000_0000_0000
}

pub proof fn lemma_powers_of_one(i: nat)
    requires
        i < 128,
    ensures
        times_power(one(), i) == one() >> (i as u128),
    decreases i,
{
    let u: u128 = 0x8000_0000_0000_0000_0000_0000_0000_0000;
    if i == 0 {
        assert(u >> 0u128 == u) by (bit_vector)
            requires
                u == 0x8000_0000_0000_0000_0000_0000_0000_0000u128,
        ;
    } else {
        lemma_powers_of_one((i - 1) as nat);
        let k = (i - 1) as u128;
        let k1 = i as u128;
        assert((u >> k) & 1 == 0 && (u >> k) >> 1 == u >> k1) by (bit_vector)
            requires
                u == 0x8000_0000_0000_0000_0000_0000_0000_0000u128,
                k < 127,
                k1 == k + 1,
        ;
    }
}

/// One more bit of `a` is added to those under the mask `m`.
proof fn lemma_mask_step(a: u128, i: u128, m: u128, t: u128)
    requires
        i < 128,
        m == !(0xffff_ffff_ffff_ffff_ffff_ffff_ffff_ffffu128 >> i),
        t == 0x8000_0000_0000_0000_0000_0000_0000_0000u128 >> i,
    ensures
        (a >> ((127 - i) as u128)) & 1 == 1 ==> (a & m) ^ t == a & (m | t),
        (a >> ((127 - i) as u128)) & 1 != 1 ==> a & m == a & (m | t),
{
    let k = (127 - i) as u128;
    assert((a >> k) & 1 == 1 ==> a & t == t) by (bit_vector)
        requires
            i < 128,
            k == 127 - i,
            t == 0x8000_0000_0000_0000_0000_0000_0000_0000u128 >> i,
    ;
    assert((a >> k) & 1 != 1 ==> a & t == 0) by (bit_vector)
        requires
            i < 128,
            k == 127 - i,
            t == 0x8000_0000_0000_0000_0000_0000_0000_0000u128 >> i,
    ;
    assert(m & t == 0) by (bit_vector)
        requires
            i < 128,
            m == !(0xffff_ffff_ffff_ffff_ffff_ffff_ffff_ffffu128 >> i),
            t == 0x8000_0000_0000_0000_0000_0000_0000_0000u128 >> i,
    ;
    assert(m & t == 0 && a & t == t ==> (a & m) ^ t == a & (m | t)) by (bit_vector);
    assert(a & t == 0 ==> a & m == a & (m | t)) by (bit_vector);
}

proof fn lemma_partial_product_by_one(a: u128, n: nat)
    requires
        n < 128,
    ensures
        partial_product(a, one(), n) == a & !(0xffff_ffff_ffff_ffff_ffff_ffff_ffff_ffffu128 >> (
        n as u128)),
    decreases n,
{
    if n == 0 {
        assert(a & !(0xffff_ffff_ffff_ffff_ffff_ffff_ffff_ffffu128 >> 0u128) == 0) by (bit_vector);
    } else {
        let (i, j) = ((n - 1) as u128, n as u128);
        lemma_partial_product_by_one(a, (n - 1) as nat);
        lemma_powers_of_one((n - 1) as nat);
        let m = !(0xffff_ffff_ffff_ffff_ffff_ffff_ffff_ffffu128 >> i);
        let t = one() >> i;
        lemma_mask_step(a, i, m, t);
        assert(m | t == !(0xffff_ffff_ffff_ffff_ffff_ffff_ffff_ffffu128 >> j)) by (bit_vector)
            requires
                i < 127,
                j == i + 1,
                m == !(0xffff_ffff_ffff_ffff_ffff_ffff_ffff_ffffu128 >> i),
                t == 0x8000_0000_0000_0000_0000_0000_0000_0000u128 >> i,
        ;
    }
}

/// Multiplying by 1 changes nothing.
pub proof fn lemma_product_by_one(a: u128)
    ensures
        product(a, one()) == a,
{
    let m = !(0xffff_ffff_ffff_ffff_ffff_ffff_ffff_ffffu128 >> 127u128);
    let t = one() >> 127u128;
    lemma_partial_product_by_one(a, 127);
    lemma_powers_of_one(127);
    lemma_mask_step(a, 127, m, t);
    assert(a & (m | t) == a) by (bit_vector)
        requires
            m == !(0xffff_ffff_ffff_ffff_ffff_ffff_ffff_ffffu128 >> 127u128),
            t == 0x8000_0000_0000_0000_0000_0000_0000_0000u128 >> 127u128,
    ;
}

} // verus!
