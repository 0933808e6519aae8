//! The elements of GF(2^128) form a field.
//!
//! Products commute and associate. Squaring is additive and keeps different
//! elements apart, so an element that is squared over and over comes back, and
//! the product of all that it became on the way is its own square. Only 0 and 1
//! are their own squares, so that product is 1 for a nonzero element, which
//! therefore has an inverse.

use vstd::prelude::*;
use vstd::set_lib::{lemma_int_range, lemma_len_subset, set_int_range};

use crate::{block, field, squaring};

verus! {

/// The power x^i.
pub open spec fn power(i: nat) -> u128 {
    field::times_power(field::one(), i)
}

/// `a`, squared `n` times over.
pub open spec fn squared(a: u128, n: nat) -> u128
    decreases n,
{
    if n == 0 {
        a
    } else {
        field::product(squared(a, (n - 1) as nat), squared(a, (n - 1) as nat))
    }
}

/// The product of `a` and what it becomes when squared once, twice, and so on,
/// `n` factors in all.
pub open spec fn squares_product(a: u128, n: nat) -> u128
    decreases n,
{
    if n == 0 {
        field::one()
    } else {
        field::product(squares_product(a, (n - 1) as nat), squared(a, (n - 1) as nat))
    }
}

proof fn lemma_times_x_sum(a: u128, b: u128)
    ensures
        field::times_x(a ^ b) == field::times_x(a) ^ field::times_x(b),
{
    assert(field::times_x(a ^ b) == field::times_x(a) ^ field::times_x(b)) by (bit_vector);
}

pub proof fn lemma_times_power_sum(a: u128, b: u128, i: nat)
    ensures
        field::times_power(a ^ b, i) == field::times_power(a, i) ^ field::times_power(b, i),
    decreases i,
{
    if i > 0 {
        let j = (i - 1) as nat;
        lemma_times_power_sum(a, b, j);
        lemma_times_x_sum(field::times_power(a, j), field::times_power(b, j));
    }
}

pub proof fn lemma_times_power_add(a: u128, i: nat, j: nat)
    ensures
        field::times_power(field::times_power(a, i), j) == field::times_power(a, i + j),
    decreases j,
{
    if j > 0 {
        lemma_times_power_add(a, i, (j - 1) as nat);
    }
}

proof fn lemma_partial_right_sum(a: u128, b: u128, c: u128, n: nat)
    ensures
        field::partial_product(a, b ^ c, n) == field::partial_product(a, b, n)
            ^ field::partial_product(a, c, n),
    decreases n,
{
    if n == 0 {
        block::lemma_xor_zero(0);
    } else {
        let i = (n - 1) as nat;
        lemma_partial_right_sum(a, b, c, i);
        lemma_times_power_sum(b, c, i);
        block::lemma_xor_swap(
            field::partial_product(a, b, i),
            field::partial_product(a, c, i),
            field::times_power(b, i),
            field::times_power(c, i),
        );
    }
}

proof fn lemma_times_power_zero(i: nat)
    ensures
        field::times_power(0, i) == 0,
    decreases i,
{
    if i > 0 {
        lemma_times_power_zero((i - 1) as nat);
        assert(field::times_x(0) == 0) by (bit_vector);
    }
}

proof fn lemma_partial_right_zero(a: u128, n: nat)
    ensures
        field::partial_product(a, 0, n) == 0,
    decreases n,
{
    if n > 0 {
        lemma_partial_right_zero(a, (n - 1) as nat);
        lemma_times_power_zero((n - 1) as nat);
        block::lemma_xor_zero(0);
    }
}

/// A factor x can be taken out of the second factor.
proof fn lemma_partial_right_x(a: u128, b: u128, n: nat)
    ensures
        field::partial_product(a, field::times_x(b), n) == field::times_x(
            field::partial_product(a, b, n),
        ),
    decreases n,
{
    if n == 0 {
        assert(field::times_x(0) == 0) by (bit_vector);
    } else {
        let i = (n - 1) as nat;
        lemma_partial_right_x(a, b, i);
        lemma_times_power_add(b, 1, i);
        lemma_times_power_add(b, i, 1);
        assert(field::times_power(b, 1) == field::times_x(field::times_power(b, 0)));
        assert(field::times_power(field::times_x(b), i) == field::times_x(field::times_power(b, i)));
        lemma_times_x_sum(field::partial_product(a, b, i), field::times_power(b, i));
    }
}

pub proof fn lemma_product_times_power(a: u128, b: u128, i: nat)
    ensures
        field::product(a, field::times_power(b, i)) == field::times_power(field::product(a, b), i),
    decreases i,
{
    if i > 0 {
        let j = (i - 1) as nat;
        lemma_product_times_power(a, b, j);
        lemma_partial_right_x(a, field::times_power(b, j), 128);
    }
}

/// The terms of `b` can be taken one by one.
proof fn lemma_product_by_terms(a: u128, b: u128, c: u128, n: nat)
    requires
        n <= 128,
    ensures
        field::product(a, field::partial_product(b, c, n)) == field::partial_product(
            b,
            field::product(a, c),
            n,
        ),
    decreases n,
{
    if n == 0 {
        lemma_partial_right_zero(a, 128);
    } else {
        let i = (n - 1) as nat;
        lemma_product_by_terms(a, b, c, i);
        lemma_partial_right_sum(
            a,
            field::partial_product(b, c, i),
            field::times_power(c, i),
            128,
        );
        lemma_product_times_power(a, c, i);
    }
}

/// Products commute.
pub proof fn product_commutes(a: u128, b: u128)
    ensures
        field::product(a, b) == field::product(b, a),
{
    lemma_product_by_terms(a, b, field::one(), 128);
    field::lemma_product_by_one(b);
    field::lemma_product_by_one(a);
}

/// Products associate.
pub proof fn product_associates(a: u128, b: u128, c: u128)
    ensures
        field::product(field::product(a, b), c) == field::product(a, field::product(b, c)),
{
    product_commutes(field::product(a, b), c);
    lemma_product_by_terms(c, a, b, 128);
    product_commutes(c, b);
}

/// Products distribute over sums.
pub proof fn product_distributes(a: u128, b: u128, c: u128)
    ensures
        field::product(a ^ b, c) == field::product(a, c) ^ field::product(b, c),
        field::product(c, a ^ b) == field::product(c, a) ^ field::product(c, b),
{
    field::lemma_partial_product_sum(a, b, c, 128);
    lemma_partial_right_sum(c, a, b, 128);
}

/// Zero and one in a product.
pub proof fn product_units(a: u128)
    ensures
        field::product(a, 0) == 0,
        field::product(0, a) == 0,
        field::product(a, field::one()) == a,
        field::product(field::one(), a) == a,
{
    lemma_partial_right_zero(a, 128);
    field::lemma_partial_product_zero(a, 128);
    field::lemma_product_by_one(a);
    product_commutes(a, field::one());
}

pub proof fn lemma_square_sum(a: u128, b: u128)
    ensures
        field::product(a ^ b, a ^ b) == field::product(a, a) ^ field::product(b, b),
{
    product_distributes(a, b, a ^ b);
    product_distributes(a, b, a);
    product_distributes(a, b, b);
    product_commutes(a, b);
    let (p, q, r) = (field::product(a, a), field::product(a, b), field::product(b, b));
    assert((p ^ q) ^ (q ^ r) == p ^ r) by (bit_vector);
}

proof fn lemma_squared_add(a: u128, m: nat, n: nat)
    ensures
        squared(squared(a, m), n) == squared(a, m + n),
    decreases n,
{
    if n > 0 {
        lemma_squared_add(a, m, (n - 1) as nat);
    }
}

/// Squaring keeps different elements apart.
proof fn lemma_squared_injective(a: u128, b: u128, n: nat)
    requires
        squared(a, n) == squared(b, n),
    ensures
        a == b,
    decreases n,
{
    if n > 0 {
        let (p, q) = (squared(a, (n - 1) as nat), squared(b, (n - 1) as nat));
        lemma_square_sum(p, q);
        block::lemma_xor_zero(field::product(p, p));
        squaring::lemma_square_zero(p ^ q);
        block::lemma_xor_cancel(p, q, 0);
        lemma_squared_injective(a, b, (n - 1) as nat);
    }
}

/// Every element comes back when it is squared often enough, for there are only
/// 2 to the power of 128 of them.
proof fn lemma_comes_back(a: u128)
    ensures
        exists|k: nat| k > 0 && #[trigger] squared(a, k) == a,
{
    let count: nat = u128::MAX as nat + 1;
    let all = Seq::new(count + 1, |n: int| squared(a, n as nat) as int);
    if all.no_duplicates() {
        all.unique_seq_to_set();
        lemma_int_range(0, count as int);
        assert(all.to_set().subset_of(set_int_range(0, count as int)));
        lemma_len_subset(all.to_set(), set_int_range(0, count as int));
    }
    let (m, n) = choose|m: int, n: int| 0 <= m < n < all.len() && all[m] == all[n];
    let k = (n - m) as nat;
    lemma_squared_add(a, k, m as nat);
    lemma_squared_injective(a, squared(a, k), m as nat);
}

proof fn lemma_squares_product_times(a: u128, n: nat)
    ensures
        field::product(squares_product(a, n), a) == squared(a, n),
    decreases n,
{
    if n == 0 {
        product_units(a);
    } else {
        let i = (n - 1) as nat;
        let (p, q) = (squares_product(a, i), squared(a, i));
        lemma_squares_product_times(a, i);
        product_associates(p, q, a);
        product_commutes(q, a);
        product_associates(p, a, q);
    }
}

/// `a` is a factor of the product of its repeated squares.
proof fn lemma_squares_product_factor(a: u128, n: nat)
    requires
        n > 0,
    ensures
        exists|m: u128| #[trigger] field::product(a, m) == squares_product(a, n),
    decreases n,
{
    let i = (n - 1) as nat;
    if i == 0 {
        product_units(a);
        assert(squared(a, 0) == a);
        assert(squares_product(a, 0) == field::one());
        assert(field::product(a, field::one()) == squares_product(a, n));
    } else {
        lemma_squares_product_factor(a, i);
        let m = choose|m: u128| #[trigger] field::product(a, m) == squares_product(a, i);
        product_associates(a, m, squared(a, i));
        assert(field::product(a, field::product(m, squared(a, i))) == squares_product(a, n));
    }
}

/// Every nonzero element has an inverse.
pub proof fn nonzero_has_inverse(a: u128)
    requires
        a != 0,
    ensures
        exists|m: u128| #[trigger] field::product(a, m) == field::one(),
{
    lemma_comes_back(a);
    let k = choose|k: nat| k > 0 && #[trigger] squared(a, k) == a;
    let e = squares_product(a, k);
    lemma_squares_product_times(a, k);
    assert(field::product(e, a) == a);
    lemma_squares_product_factor(a, k);
    let m = choose|m: u128| #[trigger] field::product(a, m) == e;
    assert(field::product(e, e) == e) by {
        product_associates(e, a, m);
    }
    squaring::lemma_own_square(e);
    product_units(a);
}

/// The product of `a` and x: the coefficients move one place on, and x^128 is
/// x^7 + x^2 + x + 1. With the laws above, this is what all products follow from.
pub proof fn product_by_x(a: u128)
    ensures
        field::product(a, 0x4000_0000_0000_0000_0000_0000_0000_0000) == if a % 2 == 1 {
            ((a / 2) as u128) ^ 0xe100_0000_0000_0000_0000_0000_0000_0000
        } else {
            (a / 2) as u128
        },
        a == field::product(a, 0x8000_0000_0000_0000_0000_0000_0000_0000),
{
    let u: u128 = 0x8000_0000_0000_0000_0000_0000_0000_0000;
    assert(field::times_x(u) == 0x4000_0000_0000_0000_0000_0000_0000_0000u128) by (bit_vector)
        requires
            u == 0x8000_0000_0000_0000_0000_0000_0000_0000u128,
    ;
    reveal_with_fuel(field::times_power, 2);
    lemma_product_times_power(a, u, 1);
    product_units(a);
    assert(a & 1 == a % 2 && a >> 1 == a / 2) by (bit_vector);
}

/// A product is zero only where a factor is.
pub proof fn no_zero_divisors(a: u128, b: u128)
    requires
        field::product(a, b) == 0,
    ensures
        a == 0 || b == 0,
{
    if b != 0 {
        nonzero_has_inverse(b);
        let m = choose|m: u128| #[trigger] field::product(b, m) == field::one();
        product_associates(a, b, m);
        product_units(a);
        product_units(m);
    }
}

/// Multiplying by a nonzero element keeps different elements apart.
pub proof fn nonzero_cancels(a: u128, b: u128, h: u128)
    requires
        h != 0,
        field::product(a, h) == field::product(b, h),
    ensures
        a == b,
{
    product_distributes(a, b, h);
    block::lemma_xor_zero(field::product(a, h));
    no_zero_divisors(a ^ b, h);
    block::lemma_xor_cancel(a, b, 0);
}

} // verus!
