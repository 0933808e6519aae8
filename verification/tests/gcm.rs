use handoff_gcm::aes_cipher::AesCipher;
use handoff_gcm::block::{inc32, len_block, pad_blocks, xor_into, BLOCK};
use handoff_gcm::gcm::{
    ctr_crypt, ghash, iv_blocks, j0_short_iv, open_truncated, seal_truncated, tag_blocks,
    tag_matches, validate_key, GcmError,
};

/// Round-trip: encrypt with the same primitive path, confirm the truncated
/// tag verifies and the plaintext comes back.
#[test]
fn truncated_roundtrip() {
    let key = [0x11u8; 16];
    let iv = [0x00u8, 0x2a];
    let aad = [0x08u8];
    let plaintext = b"0123456789"; // 10 bytes, like a Handoff payload

    // Encrypt by hand using the same helpers.
    let cipher = AesCipher::new(&key).unwrap();
    let h = cipher.encrypt_block(&[0u8; BLOCK]);
    let j0 = j0_short_iv(&h, &iv);
    let mut ct = Vec::new();
    let mut counter = inc32(j0);
    for chunk in plaintext.chunks(BLOCK) {
        let ks = cipher.encrypt_block(&counter);
        let mut b = chunk.to_vec();
        xor_into(&mut b, &ks[..chunk.len()]);
        ct.extend_from_slice(&b);
        counter = inc32(counter);
    }
    let mut blocks: Vec<[u8; BLOCK]> = Vec::new();
    pad_blocks(&aad, &mut blocks);
    pad_blocks(&ct, &mut blocks);
    let mut len_block = [0u8; BLOCK];
    len_block[..8].copy_from_slice(&((aad.len() as u64) * 8).to_be_bytes());
    len_block[8..].copy_from_slice(&((ct.len() as u64) * 8).to_be_bytes());
    blocks.push(len_block);
    let s = ghash(&h, &blocks);
    let mut full_tag = cipher.encrypt_block(&j0);
    xor_into(&mut full_tag, &s);
    let tag = [full_tag[0]]; // 1-byte truncated tag

    let out = open_truncated(&key, &iv, &aad, &ct, &tag)
        .expect("valid key")
        .expect("tag should verify");
    assert_eq!(out, plaintext);

    // A wrong tag must be rejected.
    assert_eq!(
        open_truncated(&key, &iv, &aad, &ct, &[tag[0] ^ 0xff]),
        Ok(None)
    );
}

#[test]
fn seal_then_open() {
    let key = [0x22u8; 16];
    let iv = [0x13u8, 0x37];
    let aad = [0x08u8];
    let plaintext = b"clipboard!"; // 10 bytes
    let (ct, tag) = seal_truncated(&key, &iv, &aad, plaintext, 1).expect("seal");
    assert_eq!(tag.len(), 1);
    let out = open_truncated(&key, &iv, &aad, &ct, &tag)
        .expect("valid key")
        .expect("open");
    assert_eq!(out, plaintext);
}

/// FIPS-197 Appendix C known-answer vectors, one per key length, so the
/// variant selected for each length is pinned to an external reference.
#[test]
fn fips197_block_vectors() {
    let plaintext: [u8; 16] = hex::decode("00112233445566778899aabbccddeeff")
        .unwrap()
        .try_into()
        .unwrap();
    for (len, expected) in [
        (16usize, "69c4e0d86a7b0430d8cdb78070b4c55a"),
        (24, "dda97ca4864cdfe06eaf70a0ec0d7191"),
        (32, "8ea2b7ca516745bfeafc49904b496089"),
    ] {
        let key: Vec<u8> = (0..len as u8).collect();
        let out = AesCipher::new(&key).unwrap().encrypt_block(&plaintext);
        assert_eq!(hex::encode(out), expected, "key length {len}");
    }
}

/// Whole-GCM known answers for the 2-byte IV, 1-byte AAD and 10-byte
/// payload shape, one per key length. PyCryptodome gives the same values
/// (`AES.MODE_GCM` with a 2-byte nonce), so J0, GHASH, CTR and the tag are
/// pinned by more than a seal/open round-trip.
#[test]
fn gcm_short_iv_known_answers() {
    let iv = [0x13u8, 0x37];
    let aad = [0x08u8];
    let plaintext = b"clipboard!";
    for (len, ct_hex, tag_hex) in [
        (
            16usize,
            "6b65dc989f527c6a32ff",
            "b8040c394e628aff2c2af656daca2b02",
        ),
        (
            24,
            "7fececf8584770360bd2",
            "1d6571935dc6d955a0466365d007c02d",
        ),
        (
            32,
            "49422145a746e8324ae6",
            "b46ae9e3e05f9bc6d46684ad8b7c7fbe",
        ),
    ] {
        let key: Vec<u8> = (0..len as u8).collect();
        let (ct, tag) = seal_truncated(&key, &iv, &aad, plaintext, 16).expect("seal");
        assert_eq!(hex::encode(&ct), ct_hex, "ciphertext, key length {len}");
        assert_eq!(hex::encode(&tag), tag_hex, "tag, key length {len}");

        let tag = hex::decode(tag_hex).unwrap();
        let out = open_truncated(&key, &iv, &aad, &ct, &tag[..1])
            .expect("valid key")
            .expect("1-byte tag verifies");
        assert_eq!(out, plaintext, "key length {len}");
    }
}

/// AES-192 and AES-256 keys must round-trip exactly like AES-128.
#[test]
fn seal_then_open_aes192_and_aes256() {
    let iv = [0x13u8, 0x37];
    let aad = [0x08u8];
    let plaintext = b"clipboard!";
    for len in [24usize, 32] {
        let key: Vec<u8> = (0..len as u8).collect();
        let (ct, tag) = seal_truncated(&key, &iv, &aad, plaintext, 1).expect("seal");
        assert_eq!(tag.len(), 1);
        let out = open_truncated(&key, &iv, &aad, &ct, &tag)
            .expect("valid key")
            .expect("open");
        assert_eq!(out, plaintext, "key length {len}");
        assert_eq!(
            open_truncated(&key, &iv, &aad, &ct, &[tag[0] ^ 0xff]),
            Ok(None),
            "wrong tag must be rejected for key length {len}"
        );
    }
}

/// A 32-byte key is AES-256, not a 16-byte key with 16 ignored bytes.
#[test]
fn aes256_key_is_not_truncated_to_aes128() {
    let key: Vec<u8> = (0..32u8).collect();
    let iv = [0x00u8, 0x01];
    let aad = [0x08u8];
    let (ct, tag) = seal_truncated(&key, &iv, &aad, b"clipboard!", 16).expect("seal");
    assert_eq!(open_truncated(&key[..16], &iv, &aad, &ct, &tag), Ok(None));
}

#[test]
fn invalid_key_length_is_an_error() {
    let iv = [0x00u8, 0x01];
    let aad = [0x08u8];
    for len in [0usize, 15, 20, 33] {
        let key = vec![0u8; len];
        assert_eq!(
            open_truncated(&key, &iv, &aad, &[0u8; 10], &[0]),
            Err(GcmError::InvalidKeyLength(len))
        );
        assert_eq!(
            seal_truncated(&key, &iv, &aad, &[0u8; 10], 1),
            Err(GcmError::InvalidKeyLength(len))
        );
        assert_eq!(validate_key(&key), Err(GcmError::InvalidKeyLength(len)));
    }
    for len in [16usize, 24, 32] {
        assert_eq!(validate_key(&vec![0u8; len]), Ok(()));
    }
}

#[test]
fn invalid_tag_length_is_an_error() {
    let key = [0u8; 16];
    assert_eq!(
        open_truncated(&key, &[0, 1], &[8], &[0u8; 10], &[]),
        Err(GcmError::InvalidTagLength(0))
    );
    assert_eq!(
        seal_truncated(&key, &[0, 1], &[8], &[0u8; 10], 17),
        Err(GcmError::InvalidTagLength(17))
    );
}

#[test]
fn tag_length_is_checked_before_key_length() {
    assert_eq!(
        open_truncated(&[0u8; 5], &[0, 1], &[8], &[0u8; 10], &[0u8; 17]),
        Err(GcmError::InvalidTagLength(17))
    );
    assert_eq!(
        seal_truncated(&[0u8; 5], &[0, 1], &[8], &[0u8; 10], 0),
        Err(GcmError::InvalidTagLength(0))
    );
}

#[test]
fn error_messages() {
    assert_eq!(
        GcmError::InvalidKeyLength(20).message(),
        "AES key must be 16, 24 or 32 bytes, got 20"
    );
    assert_eq!(
        GcmError::InvalidKeyLength(0).message(),
        "AES key must be 16, 24 or 32 bytes, got 0"
    );
    assert_eq!(
        GcmError::InvalidTagLength(1234567890).message(),
        "GCM tag must be 1..=16 bytes, got 1234567890"
    );
}

#[test]
fn xor_stops_at_the_shorter_side() {
    let mut long = [0xf0u8, 0x0f, 0xaa];
    xor_into(&mut long, &[0xff, 0xff]);
    assert_eq!(long, [0x0f, 0xf0, 0xaa]);
    xor_into(&mut long, &[0xff, 0xff]);
    assert_eq!(long, [0xf0, 0x0f, 0xaa]);
    let mut short = [1u8];
    xor_into(&mut short, &[2, 3, 4]);
    assert_eq!(short, [3]);
}

#[test]
fn padding_fills_the_last_block() {
    let data: Vec<u8> = (1..=17u8).collect();
    let mut blocks: Vec<[u8; BLOCK]> = vec![[9u8; BLOCK]];
    pad_blocks(&data, &mut blocks);
    assert_eq!(blocks.len(), 3);
    assert_eq!(blocks[0], [9u8; BLOCK]);
    assert_eq!(blocks[1][..], data[..16]);
    assert_eq!(blocks[2], [17, 0, 0, 0, 0, 0, 0, 0, 0, 0, 0, 0, 0, 0, 0, 0]);

    pad_blocks(&[], &mut blocks);
    assert_eq!(blocks.len(), 3);
    pad_blocks(&data[..16], &mut blocks);
    assert_eq!(blocks.len(), 4);
}

#[test]
fn length_block_is_big_endian_bits() {
    assert_eq!(
        len_block(1, 0x0102_0304),
        [0, 0, 0, 0, 0, 0, 0, 8, 0, 0, 0, 0, 0x08, 0x10, 0x18, 0x20]
    );
}

#[test]
fn counter_wraps_in_its_last_four_bytes() {
    let mut j = [0xffu8; BLOCK];
    j[15] = 0xfe;
    let one = inc32(j);
    assert_eq!(one, [0xffu8; BLOCK]);
    let two = inc32(one);
    assert_eq!(two[..12], [0xffu8; 12]);
    assert_eq!(two[12..], [0u8; 4]);
    assert_eq!(inc32(two)[12..], [0, 0, 0, 1]);
    j[14] = 0;
    j[15] = 0xff;
    assert_eq!(inc32(j)[12..], [0xff, 0xff, 1, 0]);
}

#[test]
fn hash_inputs_end_in_the_lengths() {
    let iv = iv_blocks(&[0x13, 0x37]);
    assert_eq!(iv.len(), 2);
    assert_eq!(iv[0][..3], [0x13, 0x37, 0]);
    assert_eq!(iv[1], len_block(0, 2));

    let blocks = tag_blocks(&[8], &[7u8; 20]);
    assert_eq!(blocks.len(), 4);
    assert_eq!(blocks[0][..2], [8, 0]);
    assert_eq!(blocks[1], [7u8; BLOCK]);
    assert_eq!(blocks[2][..5], [7, 7, 7, 7, 0]);
    assert_eq!(blocks[3], len_block(1, 20));

    // Moving a byte from one input to the other is seen.
    assert_ne!(tag_blocks(&[8, 7], &[7u8; 19]), blocks);
}

/// The GHASH of test case 2 in the GCM proposal (McGrew and Viega).
#[test]
fn ghash_known_answer() {
    let h: [u8; BLOCK] = hex::decode("66e94bd4ef8a2c3b884cfa59ca342b2e")
        .unwrap()
        .try_into()
        .unwrap();
    let c: [u8; BLOCK] = hex::decode("0388dace60b6a392f328c2b971b2fe78")
        .unwrap()
        .try_into()
        .unwrap();
    assert_eq!(
        AesCipher::new(&[0u8; 16]).unwrap().encrypt_block(&[0u8; BLOCK]),
        h
    );
    assert_eq!(
        hex::encode(ghash(&h, &tag_blocks(&[], &c))),
        "f38cbb1ad69223dcc3457ae5b6b0f885"
    );
    assert_eq!(ghash(&h, &[]), [0u8; BLOCK]);
}

#[test]
fn ghash_absorbs_one_block_at_a_time() {
    let h = [0x42u8; BLOCK];
    let blocks = [[1u8; BLOCK], [2u8; BLOCK], [3u8; BLOCK]];
    for n in 0..3usize {
        let mut next = ghash(&h, &blocks[..n]);
        xor_into(&mut next, &blocks[n]);
        assert_eq!(ghash(&h, &blocks[..n + 1]), ghash(&h, &[next]));
    }
    assert_ne!(ghash(&h, &blocks[..1]), blocks[0]);
}

#[test]
fn ghash_adds_up() {
    let h = [0x42u8; BLOCK];
    let a = [[1u8; BLOCK], [0x20u8; BLOCK]];
    let b = [[0xf3u8; BLOCK], [7u8; BLOCK]];
    let mut c = a;
    for i in 0..2 {
        xor_into(&mut c[i], &b[i]);
    }
    let mut sum = ghash(&h, &a);
    xor_into(&mut sum, &ghash(&h, &b));
    assert_eq!(ghash(&h, &c), sum);

    assert_eq!(ghash(&h, &[[0u8; BLOCK]; 3]), [0u8; BLOCK]);
    assert_eq!(ghash(&h, &[[0u8; BLOCK], a[0], a[1]]), ghash(&h, &a));
}

/// The field element 1 has its first bit set; x^127 times x is
/// x^7 + x^2 + x + 1.
#[test]
fn ghash_multiplies_in_the_field() {
    let mut one = [0u8; BLOCK];
    one[0] = 0x80;
    let x = [0x5au8; BLOCK];
    assert_eq!(ghash(&one, &[x]), x);
    assert_eq!(ghash(&x, &[one]), x);

    let mut by_x = [0u8; BLOCK];
    by_x[0] = 0x40;
    let mut top = [0u8; BLOCK];
    top[15] = 1;
    let mut reduced = [0u8; BLOCK];
    reduced[0] = 0xe1;
    assert_eq!(ghash(&by_x, &[top]), reduced);
}

#[test]
fn different_blocks_encrypt_differently() {
    for len in [16usize, 24, 32] {
        let cipher = AesCipher::new(&vec![7u8; len]).unwrap();
        let x = [1u8; BLOCK];
        let mut y = x;
        y[15] = 2;
        assert_eq!(cipher.encrypt_block(&x), cipher.encrypt_block(&x));
        assert_ne!(cipher.encrypt_block(&x), cipher.encrypt_block(&y));
        assert_eq!(x, [1u8; BLOCK]);
    }
}

#[test]
fn counter_mode_runs_over_several_blocks() {
    let cipher = AesCipher::new(&[3u8; 24]).unwrap();
    let mut j0 = [7u8; BLOCK];
    j0[12..].copy_from_slice(&[0xff, 0xff, 0xff, 0xfe]);
    let data: Vec<u8> = (0..40u8).collect();
    let out = ctr_crypt(&cipher, j0, &data);
    assert_eq!(out.len(), 40);

    // The third block of text uses the counter three steps on, past the wrap.
    let mut third = [7u8; BLOCK];
    third[12..].copy_from_slice(&[0, 0, 0, 1]);
    let ks = cipher.encrypt_block(&third);
    for i in 32..40 {
        assert_eq!(out[i], data[i] ^ ks[i - 32]);
    }
    assert_eq!(ctr_crypt(&cipher, j0, &out), data);
    assert_eq!(ctr_crypt(&cipher, j0, &[]), Vec::<u8>::new());
}

#[test]
fn tag_prefixes_match() {
    let full: [u8; BLOCK] = [1, 2, 3, 4, 5, 6, 7, 8, 9, 10, 11, 12, 13, 14, 15, 16];
    assert!(tag_matches(&full, &full));
    assert!(tag_matches(&full, &[1, 2]));
    assert!(!tag_matches(&full, &[1, 3]));
    assert!(!tag_matches(&full, &[2]));
}

#[test]
fn shorter_tags_are_prefixes() {
    let key = [0x42u8; 32];
    let text = [5u8; 37];
    let (ct, long) = seal_truncated(&key, b"iv", b"aad", &text, 16).unwrap();
    for n in 1..=16usize {
        let (same, tag) = seal_truncated(&key, b"iv", b"aad", &text, n).unwrap();
        assert_eq!(same, ct);
        assert_eq!(tag[..], long[..n]);
        let plain = open_truncated(&key, b"iv", b"aad", &ct, &long[..n]).unwrap();
        assert_eq!(plain, Some(text.to_vec()));
    }
}

#[test]
fn opened_text_seals_to_the_same_packet() {
    let key = [0x42u8; 16];
    let (ct, tag) = seal_truncated(&key, &[1, 2], &[8], b"some text", 4).unwrap();
    let plain = open_truncated(&key, &[1, 2], &[8], &ct, &tag).unwrap().unwrap();
    assert_eq!(seal_truncated(&key, &[1, 2], &[8], &plain, 4), Ok((ct, tag)));
}

#[test]
fn changed_inputs_are_rejected() {
    let key = [0x42u8; 16];
    let (ct, tag) = seal_truncated(&key, &[1, 2], &[8], b"some text", 16).unwrap();
    assert_eq!(open_truncated(&key, &[1, 3], &[8], &ct, &tag), Ok(None));
    assert_eq!(open_truncated(&key, &[1, 2], &[9], &ct, &tag), Ok(None));
    let mut other = ct.clone();
    other[0] ^= 1;
    assert_eq!(open_truncated(&key, &[1, 2], &[8], &other, &tag), Ok(None));
}

#[test]
fn empty_text_is_only_tagged() {
    let key = [0x42u8; 16];
    let (ct, tag) = seal_truncated(&key, &[], &[], &[], 16).unwrap();
    assert_eq!(ct, Vec::<u8>::new());
    assert_eq!(tag.len(), 16);
    assert_eq!(open_truncated(&key, &[], &[], &ct, &tag), Ok(Some(vec![])));
}
