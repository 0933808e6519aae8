//! Squares in GF(2^128), worked out on the bits of an element.
//!
//! Two facts are found here by computation: no elements but 0 and 1 are their
//! own squares, and none but 0 has the square 0.

use vstd::prelude::*;

use crate::{block, field, ring};

verus! {

/// Moves bit i of the lower half to bit 2 i + 1.
spec fn spread(a: u128) -> u128 {
    let b = (a | (a << 32)) & 0x0000_0000_ffff_ffff_0000_0000_ffff_ffff;
    let c = (b | (b << 16)) & 0x0000_ffff_0000_ffff_0000_ffff_0000_ffff;
    let d = (c | (c << 8)) & 0x00ff_00ff_00ff_00ff_00ff_00ff_00ff_00ff;
    let e = (d | (d << 4)) & 0x0f0f_0f0f_0f0f_0f0f_0f0f_0f0f_0f0f_0f0f;
    let f = (e | (e << 2)) & 0x3333_3333_3333_3333_3333_3333_3333_3333;
    ((f | (f << 1)) & 0x5555_5555_5555_5555_5555_5555_5555_5555) << 1
}

/// The square of `a`: its powers of x doubled, and x^128 replaced.
spec fn square_bits(a: u128) -> u128 {
    let s = spread(a & 0xffff_ffff_ffff_ffff);
    let s1 = field::times_x(s);
    let s2 = field::times_x(s1);
    let s7 = field::times_x(
        field::times_x(field::times_x(field::times_x(field::times_x(s2)))),
    );
    spread(a >> 64) ^ s ^ s1 ^ s2 ^ s7
}

proof fn lemma_power_bits(i: nat)
    requires
        i < 128,
    ensures
        ring::power(i) == field::one() >> (i as u128),
{
    field::lemma_powers_of_one(i);
}

proof fn lemma_power_128()
    ensures
        ring::power(128) == ring::power(7) ^ ring::power(2) ^ ring::power(1) ^ ring::power(0),
{
    lemma_power_bits(127);
    lemma_power_bits(7);
    lemma_power_bits(2);
    lemma_power_bits(1);
    lemma_power_bits(0);
    let u: u128 = 0x8000_0000_0000_0000_0000_0000_0000_0000;
    assert(field::times_x(u >> 127u128) == (u >> 7u128) ^ (u >> 2u128) ^ (u >> 1u128) ^ (u
        >> 0u128)) by (bit_vector)
        requires
            u == 0x8000_0000_0000_0000_0000_0000_0000_0000u128,
    ;
}

/// x^(128 + r) by lower powers.
proof fn lemma_power_over_128(r: nat)
    ensures
        ring::power(128 + r) == ring::power(7 + r) ^ ring::power(2 + r) ^ ring::power(1 + r) ^ ring::power(r),
{
    let (p7, p2, p1, p0) = (ring::power(7), ring::power(2), ring::power(1), ring::power(0));
    lemma_power_128();
    ring::lemma_times_power_add(field::one(), 128, r);
    ring::lemma_times_power_sum(p7 ^ p2 ^ p1, p0, r);
    ring::lemma_times_power_sum(p7 ^ p2, p1, r);
    ring::lemma_times_power_sum(p7, p2, r);
    ring::lemma_times_power_add(field::one(), 7, r);
    ring::lemma_times_power_add(field::one(), 2, r);
    ring::lemma_times_power_add(field::one(), 1, r);
    ring::lemma_times_power_add(field::one(), 0, r);
}

proof fn lemma_square_power(i: nat)
    ensures
        field::product(ring::power(i), ring::power(i)) == ring::power(2 * i),
{
    ring::lemma_product_times_power(ring::power(i), field::one(), i);
    field::lemma_product_by_one(ring::power(i));
    ring::lemma_times_power_add(field::one(), i, i);
}

proof fn lemma_spread_power(i: u128, u: u128)
    requires
        i < 128,
        u == 0x8000_0000_0000_0000_0000_0000_0000_0000u128,
    ensures
        i < 64 ==> spread((u >> i) & 0xffff_ffff_ffff_ffff) == 0 && spread((u >> i) >> 64) == u >> (
        (2 * i) as u128),
        i >= 64 ==> spread((u >> i) & 0xffff_ffff_ffff_ffff) == u >> ((2 * i - 128) as u128)
            && spread((u >> i) >> 64) == 0,
{
    if i < 64 {
        let k = (2 * i) as u128;
        assert(spread((u >> i) & 0xffff_ffff_ffff_ffff) == 0 && spread((u >> i) >> 64) == u >> k)
            by (bit_vector)
            requires
                i < 64,
                k == 2 * i,
                u == 0x8000_0000_0000_0000_0000_0000_0000_0000u128,
        ;
    } else {
        let k = (2 * i - 128) as u128;
        assert(spread((u >> i) & 0xffff_ffff_ffff_ffff) == u >> k && spread((u >> i) >> 64) == 0)
            by (bit_vector)
            requires
                64 <= i < 128,
                k == 2 * i - 128,
                u == 0x8000_0000_0000_0000_0000_0000_0000_0000u128,
        ;
    }
}

proof fn lemma_square_bits_power(i: nat)
    requires
        i < 128,
    ensures
        square_bits(ring::power(i)) == field::product(ring::power(i), ring::power(i)),
{
    lemma_square_power(i);
    lemma_power_bits(i);
    lemma_spread_power(i as u128, field::one());
    if i < 64 {
        lemma_power_bits(2 * i);
        assert(field::times_x(0) == 0) by (bit_vector);
        block::lemma_xor_zero(ring::power(2 * i));
    } else {
        let r = (2 * i - 128) as nat;
        lemma_power_bits(r);
        lemma_power_over_128(r);
        lemma_times_power_seven(ring::power(r));
        ring::lemma_times_power_add(field::one(), r, 1);
        ring::lemma_times_power_add(field::one(), r, 2);
        ring::lemma_times_power_add(field::one(), r, 7);
        let (p0, p1, p2, p7) = (ring::power(r), ring::power(1 + r), ring::power(2 + r), ring::power(7 + r));
        assert(0 ^ p0 ^ p1 ^ p2 ^ p7 == p7 ^ p2 ^ p1 ^ p0) by (bit_vector);
    }
}

proof fn lemma_spread_sum(a: u128, b: u128)
    ensures
        spread((a ^ b) & 0xffff_ffff_ffff_ffff) == spread(a & 0xffff_ffff_ffff_ffff) ^ spread(
            b & 0xffff_ffff_ffff_ffff,
        ),
        spread((a ^ b) >> 64) == spread(a >> 64) ^ spread(b >> 64),
{
    assert(spread((a ^ b) & 0xffff_ffff_ffff_ffff) == spread(a & 0xffff_ffff_ffff_ffff) ^ spread(
        b & 0xffff_ffff_ffff_ffff,
    ) && spread((a ^ b) >> 64) == spread(a >> 64) ^ spread(b >> 64)) by (bit_vector);
}

proof fn lemma_square_bits_sum(a: u128, b: u128)
    ensures
        square_bits(a ^ b) == square_bits(a) ^ square_bits(b),
{
    lemma_spread_sum(a, b);
    let (ah, bh) = (spread(a >> 64), spread(b >> 64));
    let (al, bl) = (spread(a & 0xffff_ffff_ffff_ffff), spread(b & 0xffff_ffff_ffff_ffff));
    ring::lemma_times_power_sum(al, bl, 1);
    ring::lemma_times_power_sum(al, bl, 2);
    ring::lemma_times_power_sum(al, bl, 7);
    lemma_times_power_seven(al);
    lemma_times_power_seven(bl);
    lemma_times_power_seven(al ^ bl);
    let (a1, b1) = (field::times_power(al, 1), field::times_power(bl, 1));
    let (a2, b2) = (field::times_power(al, 2), field::times_power(bl, 2));
    let (a7, b7) = (field::times_power(al, 7), field::times_power(bl, 7));
    block::lemma_xor_swap(ah, bh, al, bl);
    block::lemma_xor_swap(ah ^ al, bh ^ bl, a1, b1);
    block::lemma_xor_swap(ah ^ al ^ a1, bh ^ bl ^ b1, a2, b2);
    block::lemma_xor_swap(ah ^ al ^ a1 ^ a2, bh ^ bl ^ b1 ^ b2, a7, b7);
}

proof fn lemma_times_power_seven(a: u128)
    ensures
        field::times_power(a, 1) == field::times_x(a),
        field::times_power(a, 2) == field::times_x(field::times_x(a)),
        field::times_power(a, 7) == field::times_x(
            field::times_x(
                field::times_x(
                    field::times_x(field::times_x(field::times_x(field::times_x(a)))),
                ),
            ),
        ),
{
    reveal_with_fuel(field::times_power, 8);
}

proof fn lemma_square_bits_front(a: u128, n: nat)
    requires
        n <= 128,
    ensures
        ({
            let front = field::partial_product(a, field::one(), n);
            square_bits(front) == field::product(front, front)
        }),
    decreases n,
{
    if n == 0 {
        lemma_square_bits_sum(0, 0);
        block::lemma_xor_zero(0);
        block::lemma_xor_zero(square_bits(0));
        ring::product_units(0);
    } else {
        let i = (n - 1) as nat;
        let front = field::partial_product(a, field::one(), i);
        lemma_square_bits_front(a, i);
        lemma_square_bits_power(i);
        lemma_square_bits_sum(front, ring::power(i));
        ring::lemma_square_sum(front, ring::power(i));
    }
}

/// `square_bits` is the square.
proof fn lemma_square_bits(a: u128)
    ensures
        square_bits(a) == field::product(a, a),
{
    lemma_square_bits_front(a, 128);
    field::lemma_product_by_one(a);
}

/// Only 0 and 1 are their own squares.
pub proof fn lemma_own_square(e: u128)
    requires
        field::product(e, e) == e,
    ensures
        e == 0 || e == field::one(),
{
    lemma_square_bits(e);
    let h = spread(e >> 64);
    let s0 = spread(e & 0xffff_ffff_ffff_ffff);
    let s1 = field::times_x(s0);
    let s2 = field::times_x(s1);
    let s3 = field::times_x(s2);
    let s4 = field::times_x(s3);
    let s5 = field::times_x(s4);
    let s6 = field::times_x(s5);
    let s7 = field::times_x(s6);
    assert(e == 0 || e == 0x8000_0000_0000_0000_0000_0000_0000_0000u128) by (bit_vector)
        requires
            h == spread(e >> 64),
            s0 == spread(e & 0xffff_ffff_ffff_ffff),
            s1 == field::times_x(s0),
            s2 == field::times_x(s1),
            s3 == field::times_x(s2),
            s4 == field::times_x(s3),
            s5 == field::times_x(s4),
            s6 == field::times_x(s5),
            s7 == field::times_x(s6),
            h ^ s0 ^ s1 ^ s2 ^ s7 == e,
    ;
}

/// Only 0 has the square 0.
pub proof fn lemma_square_zero(e: u128)
    requires
        field::product(e, e) == 0,
    ensures
        e == 0,
{
    lemma_square_bits(e);
    let h = spread(e >> 64);
    let s0 = spread(e & 0xffff_ffff_ffff_ffff);
    let s1 = field::times_x(s0);
    let s2 = field::times_x(s1);
    let s3 = field::times_x(s2);
    let s4 = field::times_x(s3);
    let s5 = field::times_x(s4);
    let s6 = field::times_x(s5);
    let s7 = field::times_x(s6);
    assert(e == 0) by (bit_vector)
        requires
            h == spread(e >> 64),
            s0 == spread(e & 0xffff_ffff_ffff_ffff),
            s1 == field::times_x(s0),
            s2 == field::times_x(s1),
            s3 == field::times_x(s2),
            s4 == field::times_x(s3),
            s5 == field::times_x(s4),
            s6 == field::times_x(s5),
            s7 == field::times_x(s6),
            h ^ s0 ^ s1 ^ s2 ^ s7 == 0,
    ;
}

} // verus!
