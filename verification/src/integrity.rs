//! What a change in an IV, in the additional data or in the ciphertext does to the
//! first counter block and to the tag.
//!
//! The hash key is the block of zeros under AES. Where it is not itself zero,
//! GHASH tells any two inputs apart that differ in a single block. So an IV, the
//! additional data and the ciphertext are all taken byte for byte, wherever in
//! them the difference is, and with their lengths.

use vstd::prelude::*;

use crate::{aes_cipher, block, field, gcm, laws, ring};
use crate::gcm::GcmError;

verus! {

/// Two different strings of one length that agree but within their sixteen
/// bytes from `16 * b` on.
pub open spec fn differ_in_block(x: Seq<u8>, y: Seq<u8>, b: int) -> bool {
    &&& x.len() == y.len()
    &&& x != y
    &&& forall|i: int| 0 <= i < x.len() && !(16 * b <= i < 16 * b + 16) ==> x[i] == y[i]
}

/// `y` is `x` with zeros behind it, as few as fit in the last sixteen bytes that
/// `x` has begun.
pub open spec fn zeros_appended(x: Seq<u8>, y: Seq<u8>) -> bool {
    &&& x.len() < y.len()
    &&& y.len() <= 16 * ((x.len() + 15) / 16)
    &&& forall|i: int| 0 <= i < x.len() ==> x[i] == y[i]
    &&& forall|i: int| x.len() <= i < y.len() ==> y[i] == 0
}

/// Strings that differ within sixteen bytes, or by zeros behind one of them.
pub open spec fn changed(x: Seq<u8>, y: Seq<u8>, b: int) -> bool {
    differ_in_block(x, y, b) || zeros_appended(x, y) || zeros_appended(y, x)
}

/// Sixteen zeros.
pub open spec fn all_zero(block: Seq<u8>) -> bool {
    block.len() == 16 && forall|i: int| 0 <= i < 16 ==> block[i] == 0
}

proof fn lemma_element_injective(a: Seq<u8>, b: Seq<u8>)
    requires
        a.len() == 16,
        b.len() == 16,
        field::element(a) == field::element(b),
    ensures
        a == b,
{
    field::lemma_element_is_number(a);
    field::lemma_element_is_number(b);
    block::lemma_be_value_bytes(a);
    block::lemma_be_value_bytes(b);
}

proof fn lemma_sums_differ(h: u128, a: Seq<Seq<u8>>, b: Seq<Seq<u8>>, k: int)
    requires
        h != 0,
        a.len() == b.len(),
        field::whole_blocks(a),
        field::whole_blocks(b),
        0 <= k < a.len(),
        a[k] != b[k],
        forall|i: int| 0 <= i < a.len() && i != k ==> a[i] == b[i],
    ensures
        field::ghash_sum(h, a) != field::ghash_sum(h, b),
    decreases a.len(),
{
    let (s, t) = (field::ghash_sum(h, a.drop_last()), field::ghash_sum(h, b.drop_last()));
    let (d, e) = (field::element(a.last()), field::element(b.last()));
    if k == a.len() - 1 {
        assert(a.drop_last() =~= b.drop_last());
        if d == e {
            lemma_element_injective(a.last(), b.last());
        }
        block::lemma_xor_cancel(d, e, s);
    } else {
        assert(a.last() == b.last());
        lemma_sums_differ(h, a.drop_last(), b.drop_last(), k);
        block::lemma_xor_cancel(s, t, d);
    }
    if field::product(s ^ d, h) == field::product(t ^ e, h) {
        ring::nonzero_cancels(s ^ d, t ^ e, h);
    }
}

/// Under a hash key that is not zero, GHASH tells two inputs apart that differ in
/// a single block, whichever it is.
pub proof fn ghash_tells_one_block(h: Seq<u8>, a: Seq<Seq<u8>>, b: Seq<Seq<u8>>, k: int)
    requires
        field::element(h) != 0,
        a.len() == b.len(),
        field::whole_blocks(a),
        field::whole_blocks(b),
        0 <= k < a.len(),
        a[k] != b[k],
        forall|i: int| 0 <= i < a.len() && i != k ==> a[i] == b[i],
    ensures
        field::ghash_digest(h, a) != field::ghash_digest(h, b),
{
    let e = field::element(h);
    lemma_sums_differ(e, a, b, k);
    field::lemma_element_bytes(field::ghash_sum(e, a));
    field::lemma_element_bytes(field::ghash_sum(e, b));
}

proof fn lemma_padded_differ(x: Seq<u8>, y: Seq<u8>, b: int)
    requires
        differ_in_block(x, y, b),
    ensures
        0 <= b < block::zero_padded(x).len(),
        block::zero_padded(x).len() == block::zero_padded(y).len(),
        block::zero_padded(x)[b] != block::zero_padded(y)[b],
        forall|i: int|
            0 <= i < block::zero_padded(x).len() && i != b ==> block::zero_padded(x)[i]
                == block::zero_padded(y)[i],
{
    let (p, q) = (block::zero_padded(x), block::zero_padded(y));
    assert(exists|i: int| 0 <= i < x.len() && x[i] != y[i]) by {
        if forall|i: int| 0 <= i < x.len() ==> x[i] == y[i] {
            assert(x =~= y);
        }
    }
    let i = choose|i: int| 0 <= i < x.len() && x[i] != y[i];
    assert(p[b][i - 16 * b] == x[i] && q[b][i - 16 * b] == y[i]);
    assert forall|j: int| 0 <= j < p.len() && j != b implies p[j] == q[j] by {
        assert(p[j] =~= q[j]);
    }
}

proof fn lemma_padded_same(x: Seq<u8>, y: Seq<u8>)
    requires
        zeros_appended(x, y),
    ensures
        block::zero_padded(x) == block::zero_padded(y),
{
    let (p, q) = (block::zero_padded(x), block::zero_padded(y));
    assert forall|j: int| 0 <= j < p.len() implies p[j] == q[j] by {
        assert(p[j] =~= q[j]);
    }
    assert(p =~= q);
}

proof fn lemma_length_block_len(a: nat, c: nat)
    ensures
        block::length_block(a, c).len() == 16,
{
    block::lemma_be_bytes_len(8 * a, 8);
    block::lemma_be_bytes_len(8 * c, 8);
}

/// Two IVs of one length that differ within sixteen bytes, wherever these are,
/// have different first counter blocks.
pub proof fn iv_change_moves_first_counter(h: Seq<u8>, iv1: Seq<u8>, iv2: Seq<u8>, b: int)
    requires
        field::element(h) != 0,
        differ_in_block(iv1, iv2, b),
    ensures
        gcm::first_counter(h, iv1) != gcm::first_counter(h, iv2),
{
    lemma_padded_differ(iv1, iv2, b);
    lemma_length_block_len(0, iv1.len());
    ghash_tells_one_block(h, gcm::iv_input(iv1), gcm::iv_input(iv2), b);
}

/// An IV and the same IV with zeros behind it have different first counter
/// blocks: the length counts.
pub proof fn iv_length_moves_first_counter(h: Seq<u8>, iv1: Seq<u8>, iv2: Seq<u8>)
    requires
        field::element(h) != 0,
        zeros_appended(iv1, iv2),
        8 * iv2.len() <= u64::MAX,
    ensures
        gcm::first_counter(h, iv1) != gcm::first_counter(h, iv2),
{
    lemma_padded_same(iv1, iv2);
    lemma_length_block_len(0, iv1.len());
    lemma_length_block_len(0, iv2.len());
    if block::length_block(0, iv1.len()) == block::length_block(0, iv2.len()) {
        laws::lemma_length_block_injective(0, iv1.len(), 0, iv2.len());
    }
    let k = block::zero_padded(iv1).len() as int;
    ghash_tells_one_block(h, gcm::iv_input(iv1), gcm::iv_input(iv2), k);
}

proof fn lemma_iv_change(h: Seq<u8>, iv1: Seq<u8>, iv2: Seq<u8>, b: int)
    requires
        field::element(h) != 0,
        changed(iv1, iv2, b),
        8 * iv1.len() <= u64::MAX,
        8 * iv2.len() <= u64::MAX,
    ensures
        gcm::first_counter(h, iv1) != gcm::first_counter(h, iv2),
{
    if differ_in_block(iv1, iv2, b) {
        iv_change_moves_first_counter(h, iv1, iv2, b);
    } else if zeros_appended(iv1, iv2) {
        iv_length_moves_first_counter(h, iv1, iv2);
    } else {
        iv_length_moves_first_counter(h, iv2, iv1);
    }
}

/// The hash key of every key is what AES makes of sixteen zeros.
pub proof fn hash_key_is_encrypted_zeros(key: Seq<u8>, zeros: Seq<u8>)
    requires
        all_zero(zeros),
    ensures
        gcm::hash_key(key) == aes_cipher::aes_block(key, zeros),
{
    assert(zeros =~= block::zero_block());
}

/// Under every key that AES does not turn sixteen zeros into zeros with, changed
/// IVs have different first counter blocks.
pub proof fn key_separates_ivs(key: Seq<u8>, zeros: Seq<u8>, iv1: Seq<u8>, iv2: Seq<u8>, b: int)
    requires
        all_zero(zeros),
        field::element(aes_cipher::aes_block(key, zeros)) != 0,
        changed(iv1, iv2, b),
        8 * iv1.len() <= u64::MAX,
        8 * iv2.len() <= u64::MAX,
    ensures
        gcm::first_counter(gcm::hash_key(key), iv1) != gcm::first_counter(
            gcm::hash_key(key),
            iv2,
        ),
{
    hash_key_is_encrypted_zeros(key, zeros);
    lemma_iv_change(gcm::hash_key(key), iv1, iv2, b);
}

proof fn lemma_whole_tag_input(aad: Seq<u8>, text: Seq<u8>)
    ensures
        field::whole_blocks(gcm::tag_input(aad, text)),
{
    lemma_length_block_len(aad.len(), text.len());
}

proof fn lemma_mask_cancels(mask: Seq<u8>, x: Seq<u8>, y: Seq<u8>)
    requires
        x.len() == 16,
        y.len() == 16,
        block::block_xor(mask, x) == block::block_xor(mask, y),
    ensures
        x == y,
{
    assert forall|i: int| 0 <= i < 16 implies x[i] == y[i] by {
        let (m, p, q) = (mask[i], x[i], y[i]);
        assert(block::block_xor(mask, x)[i] == m ^ p);
        assert(block::block_xor(mask, y)[i] == m ^ q);
        block::lemma_byte_xor(m, p);
        block::lemma_byte_xor(m, q);
    }
    assert(x =~= y);
}

/// Tags over hash inputs that differ in block `k` alone are different.
proof fn lemma_tags_differ(
    key: Seq<u8>,
    zeros: Seq<u8>,
    iv: Seq<u8>,
    aad1: Seq<u8>,
    text1: Seq<u8>,
    aad2: Seq<u8>,
    text2: Seq<u8>,
    k: int,
)
    requires
        all_zero(zeros),
        field::element(aes_cipher::aes_block(key, zeros)) != 0,
        gcm::tag_input(aad1, text1).len() == gcm::tag_input(aad2, text2).len(),
        0 <= k < gcm::tag_input(aad1, text1).len(),
        gcm::tag_input(aad1, text1)[k] != gcm::tag_input(aad2, text2)[k],
        forall|i: int|
            0 <= i < gcm::tag_input(aad1, text1).len() && i != k ==> gcm::tag_input(aad1, text1)[i]
                == gcm::tag_input(aad2, text2)[i],
    ensures
        gcm::full_tag(key, iv, aad1, text1) != gcm::full_tag(key, iv, aad2, text2),
{
    let h = gcm::hash_key(key);
    let (one, two) = (gcm::tag_input(aad1, text1), gcm::tag_input(aad2, text2));
    hash_key_is_encrypted_zeros(key, zeros);
    lemma_whole_tag_input(aad1, text1);
    lemma_whole_tag_input(aad2, text2);
    ghash_tells_one_block(h, one, two, k);
    field::lemma_element_bytes(field::ghash_sum(field::element(h), one));
    field::lemma_element_bytes(field::ghash_sum(field::element(h), two));
    let mask = aes_cipher::aes_block(key, gcm::first_counter(h, iv));
    let (x, y) = (field::ghash_digest(h, one), field::ghash_digest(h, two));
    if block::block_xor(mask, x) == block::block_xor(mask, y) {
        lemma_mask_cancels(mask, x, y);
    }
}

/// Changed additional data over the same ciphertext have different tags.
pub proof fn aad_change_moves_tag(
    key: Seq<u8>,
    zeros: Seq<u8>,
    iv: Seq<u8>,
    aad1: Seq<u8>,
    aad2: Seq<u8>,
    text: Seq<u8>,
    b: int,
)
    requires
        all_zero(zeros),
        field::element(aes_cipher::aes_block(key, zeros)) != 0,
        changed(aad1, aad2, b),
        8 * aad1.len() <= u64::MAX,
        8 * aad2.len() <= u64::MAX,
        8 * text.len() <= u64::MAX,
    ensures
        gcm::full_tag(key, iv, aad1, text) != gcm::full_tag(key, iv, aad2, text),
{
    if differ_in_block(aad1, aad2, b) {
        lemma_padded_differ(aad1, aad2, b);
        lemma_tags_differ(key, zeros, iv, aad1, text, aad2, text, b);
    } else {
        if zeros_appended(aad1, aad2) {
            lemma_padded_same(aad1, aad2);
        } else {
            lemma_padded_same(aad2, aad1);
        }
        if block::length_block(aad1.len(), text.len()) == block::length_block(
            aad2.len(),
            text.len(),
        ) {
            laws::lemma_length_block_injective(aad1.len(), text.len(), aad2.len(), text.len());
        }
        let k = gcm::tag_input(aad1, text).len() - 1;
        lemma_tags_differ(key, zeros, iv, aad1, text, aad2, text, k);
    }
}

/// Changed ciphertexts under the same additional data have different tags.
pub proof fn text_change_moves_tag(
    key: Seq<u8>,
    zeros: Seq<u8>,
    iv: Seq<u8>,
    aad: Seq<u8>,
    text1: Seq<u8>,
    text2: Seq<u8>,
    b: int,
)
    requires
        all_zero(zeros),
        field::element(aes_cipher::aes_block(key, zeros)) != 0,
        changed(text1, text2, b),
        8 * aad.len() <= u64::MAX,
        8 * text1.len() <= u64::MAX,
        8 * text2.len() <= u64::MAX,
    ensures
        gcm::full_tag(key, iv, aad, text1) != gcm::full_tag(key, iv, aad, text2),
{
    let n = block::zero_padded(aad).len() as int;
    if differ_in_block(text1, text2, b) {
        lemma_padded_differ(text1, text2, b);
        let (one, two) = (gcm::tag_input(aad, text1), gcm::tag_input(aad, text2));
        assert(one[n + b] == block::zero_padded(text1)[b]);
        assert(two[n + b] == block::zero_padded(text2)[b]);
        lemma_tags_differ(key, zeros, iv, aad, text1, aad, text2, n + b);
    } else {
        if zeros_appended(text1, text2) {
            lemma_padded_same(text1, text2);
        } else {
            lemma_padded_same(text2, text1);
        }
        if block::length_block(aad.len(), text1.len()) == block::length_block(
            aad.len(),
            text2.len(),
        ) {
            laws::lemma_length_block_injective(aad.len(), text1.len(), aad.len(), text2.len());
        }
        let k = gcm::tag_input(aad, text1).len() - 1;
        lemma_tags_differ(key, zeros, iv, aad, text1, aad, text2, k);
    }
}

/// A whole tag that was sealed over some additional data is rejected over
/// changed ones.
pub proof fn aad_change_is_rejected(
    key: Seq<u8>,
    zeros: Seq<u8>,
    iv: Seq<u8>,
    aad1: Seq<u8>,
    aad2: Seq<u8>,
    plaintext: Seq<u8>,
    ciphertext: Seq<u8>,
    tag: Seq<u8>,
    b: int,
)
    requires
        all_zero(zeros),
        field::element(aes_cipher::aes_block(key, zeros)) != 0,
        gcm::sealed(key, iv, aad1, plaintext, 16) == Ok::<_, GcmError>((ciphertext, tag)),
        changed(aad1, aad2, b),
        8 * aad1.len() <= u64::MAX,
        8 * aad2.len() <= u64::MAX,
        8 * plaintext.len() <= u64::MAX,
    ensures
        gcm::opened(key, iv, aad2, ciphertext, tag) == Ok::<Option<Seq<u8>>, GcmError>(None),
{
    aad_change_moves_tag(key, zeros, iv, aad1, aad2, ciphertext, b);
    let (x, y) = (
        gcm::full_tag(key, iv, aad1, ciphertext),
        gcm::full_tag(key, iv, aad2, ciphertext),
    );
    assert(x.take(16) =~= x && y.take(16) =~= y);
}

/// A whole tag that was sealed over some ciphertext is rejected over a changed
/// one.
pub proof fn text_change_is_rejected(
    key: Seq<u8>,
    zeros: Seq<u8>,
    iv: Seq<u8>,
    aad: Seq<u8>,
    plaintext: Seq<u8>,
    ciphertext: Seq<u8>,
    tag: Seq<u8>,
    other: Seq<u8>,
    b: int,
)
    requires
        all_zero(zeros),
        field::element(aes_cipher::aes_block(key, zeros)) != 0,
        gcm::sealed(key, iv, aad, plaintext, 16) == Ok::<_, GcmError>((ciphertext, tag)),
        changed(ciphertext, other, b),
        8 * aad.len() <= u64::MAX,
        8 * plaintext.len() <= u64::MAX,
        8 * other.len() <= u64::MAX,
    ensures
        gcm::opened(key, iv, aad, other, tag) == Ok::<Option<Seq<u8>>, GcmError>(None),
{
    text_change_moves_tag(key, zeros, iv, aad, ciphertext, other, b);
    let (x, y) = (
        gcm::full_tag(key, iv, aad, ciphertext),
        gcm::full_tag(key, iv, aad, other),
    );
    assert(x.take(16) =~= x && y.take(16) =~= y);
}

/// `d` is the exclusive-or of `x` and `y`, byte by byte.
pub open spec fn difference(x: Seq<u8>, y: Seq<u8>, d: Seq<u8>) -> bool {
    &&& x.len() == y.len() == d.len()
    &&& forall|i: int| 0 <= i < d.len() ==> #[trigger] d[i] == x[i] ^ y[i]
}

proof fn lemma_padded_difference(x: Seq<u8>, y: Seq<u8>, d: Seq<u8>)
    requires
        difference(x, y, d),
    ensures
        block::zero_padded(d).len() == block::zero_padded(x).len() == block::zero_padded(y).len(),
        forall|i: int|
            0 <= i < block::zero_padded(d).len() ==> #[trigger] block::zero_padded(d)[i]
                == block::block_xor(block::zero_padded(x)[i], block::zero_padded(y)[i]),
{
    block::lemma_byte_xor(0, 0);
    assert forall|i: int|
        0 <= i < block::zero_padded(d).len() implies #[trigger] block::zero_padded(d)[i]
        == block::block_xor(block::zero_padded(x)[i], block::zero_padded(y)[i]) by {
        assert(block::zero_padded(d)[i] =~= block::block_xor(
            block::zero_padded(x)[i],
            block::zero_padded(y)[i],
        ));
    }
}

proof fn lemma_own_difference(x: Seq<u8>, zeros: Seq<u8>)
    requires
        all_zero(zeros),
    ensures
        zeros == block::block_xor(x, x),
{
    assert forall|i: int| 0 <= i < 16 implies zeros[i] == block::block_xor(x, x)[i] by {
        block::lemma_byte_xor(x[i], x[i]);
    }
    assert(zeros =~= block::block_xor(x, x));
}

/// The first counter blocks of two IVs of one length differ by the GHASH of the
/// difference of the IVs.
pub proof fn first_counters_differ_as_ivs(
    h: Seq<u8>,
    zeros: Seq<u8>,
    iv1: Seq<u8>,
    iv2: Seq<u8>,
    d: Seq<u8>,
)
    requires
        all_zero(zeros),
        difference(iv1, iv2, d),
    ensures
        block::block_xor(gcm::first_counter(h, iv1), gcm::first_counter(h, iv2))
            == field::ghash_digest(h, block::zero_padded(d).push(zeros)),
{
    lemma_padded_difference(iv1, iv2, d);
    lemma_length_block_len(0, iv1.len());
    lemma_own_difference(block::length_block(0, iv1.len()), zeros);
    laws::ghash_is_linear(
        h,
        gcm::iv_input(iv1),
        gcm::iv_input(iv2),
        block::zero_padded(d).push(zeros),
    );
}

/// Under one key and IV, the tags of two messages with the same lengths differ by
/// the GHASH of the difference of the messages.
pub proof fn tags_differ_as_messages(
    key: Seq<u8>,
    zeros: Seq<u8>,
    iv: Seq<u8>,
    aad1: Seq<u8>,
    text1: Seq<u8>,
    aad2: Seq<u8>,
    text2: Seq<u8>,
    da: Seq<u8>,
    dt: Seq<u8>,
)
    requires
        all_zero(zeros),
        difference(aad1, aad2, da),
        difference(text1, text2, dt),
    ensures
        block::block_xor(
            gcm::full_tag(key, iv, aad1, text1),
            gcm::full_tag(key, iv, aad2, text2),
        ) == field::ghash_digest(
            aes_cipher::aes_block(key, zeros),
            (block::zero_padded(da) + block::zero_padded(dt)).push(zeros),
        ),
{
    let h = gcm::hash_key(key);
    hash_key_is_encrypted_zeros(key, zeros);
    lemma_padded_difference(aad1, aad2, da);
    lemma_padded_difference(text1, text2, dt);
    lemma_whole_tag_input(aad1, text1);
    lemma_whole_tag_input(aad2, text2);
    lemma_own_difference(block::length_block(aad1.len(), text1.len()), zeros);
    let (one, two) = (gcm::tag_input(aad1, text1), gcm::tag_input(aad2, text2));
    laws::ghash_is_linear(
        h,
        one,
        two,
        (block::zero_padded(da) + block::zero_padded(dt)).push(zeros),
    );
    let mask = aes_cipher::aes_block(key, gcm::first_counter(h, iv));
    let (x, y) = (field::ghash_digest(h, one), field::ghash_digest(h, two));
    let (s, t) = (block::block_xor(mask, x), block::block_xor(mask, y));
    assert forall|i: int| 0 <= i < 16 implies block::block_xor(s, t)[i] == block::block_xor(x, y)[i] by {
        block::lemma_mask_drops(mask[i], x[i], y[i]);
    }
    assert(block::block_xor(s, t) =~= block::block_xor(x, y));
}

proof fn lemma_next_counters_differ(x: Seq<u8>, y: Seq<u8>)
    requires
        x.len() == 16,
        y.len() == 16,
        x != y,
    ensures
        block::counter_block(x, 1) != block::counter_block(y, 1),
{
    laws::counter_steps_add_up(x, 1, 0xffff_ffff);
    laws::counter_steps_add_up(y, 1, 0xffff_ffff);
    laws::counter_blocks_do_not_repeat(x, 0, 1);
    laws::counter_blocks_do_not_repeat(y, 0, 1);
}

proof fn lemma_first_masks_differ(key: Seq<u8>, x: Seq<u8>, y: Seq<u8>, data: Seq<u8>)
    requires
        data.len() >= 16,
        aes_cipher::aes_block(key, block::counter_block(x, 1)).len() == 16,
        aes_cipher::aes_block(key, block::counter_block(y, 1)).len() == 16,
        aes_cipher::aes_block(key, block::counter_block(x, 1)) != aes_cipher::aes_block(
            key,
            block::counter_block(y, 1),
        ),
    ensures
        gcm::counter_mode(key, x, data).take(16) != gcm::counter_mode(key, y, data).take(16),
{
    let (p, q) = (gcm::counter_mode(key, x, data), gcm::counter_mode(key, y, data));
    let m = aes_cipher::aes_block(key, block::counter_block(x, 1));
    let n = aes_cipher::aes_block(key, block::counter_block(y, 1));
    if p.take(16) == q.take(16) {
        assert forall|k: int| 0 <= k < 16 implies m[k] == n[k] by {
            assert(p.take(16)[k] == p[k] && q.take(16)[k] == q[k]);
            laws::lemma_counter_mode_byte(key, x, data, 0, k);
            laws::lemma_counter_mode_byte(key, y, data, 0, k);
            block::lemma_byte_xor(data[k], m[k]);
            block::lemma_byte_xor(data[k], n[k]);
        }
        assert(m =~= n);
    }
}

/// Where AES under the key permutes the blocks and does not keep the zeros, a text
/// of a block or more is sealed differently, in its first block, under changed IVs.
pub proof fn iv_change_moves_text(
    key: Seq<u8>,
    zeros: Seq<u8>,
    iv1: Seq<u8>,
    iv2: Seq<u8>,
    aad: Seq<u8>,
    plaintext: Seq<u8>,
    tag_len: nat,
    b: int,
)
    requires
        key.len() == 16 || key.len() == 24 || key.len() == 32,
        1 <= tag_len <= 16,
        forall|x: Seq<u8>| x.len() == 16 ==> (#[trigger] aes_cipher::aes_block(key, x)).len() == 16,
        forall|x: Seq<u8>, y: Seq<u8>|
            x.len() == 16 && y.len() == 16 && #[trigger] aes_cipher::aes_block(key, x)
                == #[trigger] aes_cipher::aes_block(key, y) ==> x == y,
        all_zero(zeros),
        field::element(aes_cipher::aes_block(key, zeros)) != 0,
        changed(iv1, iv2, b),
        8 * iv1.len() <= u64::MAX,
        8 * iv2.len() <= u64::MAX,
        plaintext.len() >= 16,
    ensures
        gcm::sealed(key, iv1, aad, plaintext, tag_len) matches Ok((one, _)) && gcm::sealed(
            key,
            iv2,
            aad,
            plaintext,
            tag_len,
        ) matches Ok((two, _)) && one.take(16) != two.take(16),
{
    let h = gcm::hash_key(key);
    let (x, y) = (gcm::first_counter(h, iv1), gcm::first_counter(h, iv2));
    key_separates_ivs(key, zeros, iv1, iv2, b);
    field::lemma_element_bytes(field::ghash_sum(field::element(h), gcm::iv_input(iv1)));
    field::lemma_element_bytes(field::ghash_sum(field::element(h), gcm::iv_input(iv2)));
    lemma_next_counters_differ(x, y);
    block::lemma_counter_block_step(x, 1);
    block::lemma_counter_block_step(y, 1);
    lemma_first_masks_differ(key, x, y, plaintext);
}

} // verus!
