use handoff_gcm::advertise::{
    build_payload, build_tlv, HandoffAdvertBuilder, FLAG_CLIPBOARD_AVAILABLE,
};
use handoff_gcm::gcm::{open_truncated, GcmError};

/// A received Handoff TLV, taken apart.
struct HandoffBle {
    status: u8,
    counter_iv: [u8; 2],
    tag: [u8; 1],
    ciphertext: Vec<u8>,
}

fn parse(tlv: &[u8]) -> Option<HandoffBle> {
    if tlv.len() < 6 || tlv[0] != 0x0c || tlv[1] as usize != tlv.len() - 2 {
        return None;
    }
    Some(HandoffBle {
        status: tlv[2],
        counter_iv: [tlv[3], tlv[4]],
        tag: [tlv[5]],
        ciphertext: tlv[6..].to_vec(),
    })
}

#[test]
fn build_parses_and_decrypts_back() {
    // 16-, 24- and 32-byte keys (macOS 26.1 exports 32-byte keys).
    for len in [16usize, 24, 32] {
        let key = vec![0x5Au8; len];
        let mut b = HandoffAdvertBuilder::new(key.clone());
        let hash = [1, 2, 3, 4, 5, 6, 7];
        let tlv = b.build(hash, FLAG_CLIPBOARD_AVAILABLE).expect("build");

        // The receive side must accept it...
        let ble = parse(&tlv).expect("parse");
        // ...and the truncated tag must verify, yielding the payload we put in.
        let plain = open_truncated(
            &key,
            &ble.counter_iv,
            &[ble.status],
            &ble.ciphertext,
            &ble.tag,
        )
        .expect("valid key")
        .expect("decrypt");
        assert_eq!(&plain[1..8], &hash, "key length {len}");
        assert!(plain[8] & FLAG_CLIPBOARD_AVAILABLE != 0);
    }
}

#[test]
fn build_rejects_unsupported_key_length() {
    let mut b = HandoffAdvertBuilder::new(vec![0u8; 20]);
    assert_eq!(b.build([0; 7], 0), Err(GcmError::InvalidKeyLength(20)));
}

#[test]
fn counter_increments_across_adverts() {
    let mut b = HandoffAdvertBuilder::new(vec![0u8; 16]);
    let a1 = b.build([0; 7], 0).unwrap();
    let a2 = b.build([0; 7], 0).unwrap();
    // IV bytes (indices 3..5 of the TLV) must differ.
    assert_ne!(&a1[3..5], &a2[3..5]);
}

#[test]
fn iv_is_the_counter_in_little_endian() {
    let mut b = HandoffAdvertBuilder::new(vec![0u8; 16]);
    for n in 0..0x1_0002u32 {
        let tlv = b.build([0; 7], 0).unwrap();
        assert_eq!(tlv[3..5], (n as u16).to_le_bytes());
    }
}

#[test]
fn payload_layout() {
    assert_eq!(
        build_payload(&[1, 2, 3, 4, 5, 6, 7], 0x0a),
        [0x08, 1, 2, 3, 4, 5, 6, 7, 0x0a, 0]
    );
}

#[test]
fn tlv_layout() {
    assert_eq!(
        build_tlv(&[0xaa, 0xbb], &[0xcc], &[1, 2, 3]),
        [0x0c, 7, 0x08, 0xaa, 0xbb, 0xcc, 1, 2, 3]
    );
}

#[test]
fn advert_is_sixteen_bytes() {
    let mut b = HandoffAdvertBuilder::new(vec![0u8; 32]);
    let tlv = b.build([9; 7], FLAG_CLIPBOARD_AVAILABLE).unwrap();
    assert_eq!(tlv.len(), 16);
    assert_eq!(tlv[..5], [0x0c, 14, 0x08, 0, 0]);
}

#[test]
fn company_id_is_apple() {
    assert_eq!(HandoffAdvertBuilder::APPLE_COMPANY_ID, 0x004c);
}
