use baseflow::crypto::CryptoManager;
use baseflow::hexcode::{bin2hex, hex2bin};
use baseflow::CodecError;
use hmac::Mac;

#[test]
fn bin2hex_known_values() {
    assert_eq!(bin2hex(&[0xde, 0xad, 0xbe, 0xef]), "deadbeef");
    assert_eq!(bin2hex(&[]), "");
    assert_eq!(bin2hex(&[0x00, 0x01]), "0001");
}

#[test]
fn bin2hex_matches_hex_crate() {
    let data: Vec<u8> = (0u8..=255).collect();
    assert_eq!(bin2hex(&data), hex::encode(&data));
}

#[test]
fn hex2bin_known_values() {
    assert_eq!(hex2bin("deadbeef").unwrap(), vec![0xde, 0xad, 0xbe, 0xef]);
    assert_eq!(hex2bin("DEAD").unwrap(), vec![0xde, 0xad]);
    assert_eq!(hex2bin("abc").err(), Some(CodecError::DecodeError));
    assert_eq!(hex2bin("zz").err(), Some(CodecError::DecodeError));
    assert_eq!(hex2bin("").unwrap(), Vec::<u8>::new());
}

#[test]
fn pack_unpack_round_trip_32_bytes() {
    let mut key = [0u8; 32];
    for (i, b) in key.iter_mut().enumerate() {
        *b = (i as u8).wrapping_mul(7).wrapping_add(3);
    }
    key[0] = 0x47;
    let packed = CryptoManager::pack_key(&key).unwrap();
    let back = CryptoManager::unpack_key(&packed).unwrap();
    assert_eq!(back, key.to_vec());
}

#[test]
fn pack_low_leading_byte_does_not_round_trip() {
    // a first byte below 0x10 loses its leading zero digit in the packed
    // form, so the hex string read back has odd length
    let key = [0x0fu8; 32];
    let packed = CryptoManager::pack_key(&key).unwrap();
    assert_eq!(CryptoManager::unpack_key(&packed).err(), Some(CodecError::DecodeError));
}

#[test]
fn unpack_errors() {
    assert_eq!(CryptoManager::unpack_key("").err(), Some(CodecError::EmptyInput));
    assert_eq!(CryptoManager::unpack_key("ab$").err(), Some(CodecError::InvalidCharacter));
}

#[test]
fn pack_rejects_empty_key() {
    assert_eq!(CryptoManager::pack_key(&[]).err(), Some(CodecError::EmptyInput));
}

#[test]
fn master_key_unpacks_with_high_first_byte() {
    for _ in 0..8 {
        let packed = CryptoManager::generate_master_key().unwrap();
        let raw = CryptoManager::unpack_key(&packed).unwrap();
        assert_eq!(raw.len(), 32);
        assert!(raw[0] >= 0x10);
    }
}

#[test]
fn derive_key_is_deterministic() {
    let master = CryptoManager::generate_master_key().unwrap();
    let d1 = CryptoManager::derive_key(&master, Some("ctx")).unwrap();
    let d2 = CryptoManager::derive_key(&master, Some("ctx")).unwrap();
    assert_eq!(d1, d2);
    let d3 = CryptoManager::derive_key(&master, Some("other")).unwrap();
    assert_ne!(d1, d3);
    let d4 = CryptoManager::derive_key(&master, None).unwrap();
    assert_ne!(d1, d4);
}

#[test]
fn derive_key_matches_hand_hkdf() {
    let key = [0x42u8; 32];
    let packed = CryptoManager::pack_key(&key).unwrap();
    let derived = CryptoManager::derive_key(&packed, Some("ctx")).unwrap();

    let mut mac = hmac::Hmac::<sha2::Sha256>::new_from_slice(&[0u8; 32]).unwrap();
    mac.update(&key);
    let prk = mac.finalize().into_bytes();
    let mut mac2 = hmac::Hmac::<sha2::Sha256>::new_from_slice(&prk).unwrap();
    mac2.update(b"ctx");
    mac2.update(&[1u8]);
    let okm = mac2.finalize().into_bytes();
    let expected = CryptoManager::pack_key(&okm).unwrap();
    assert_eq!(derived, expected);
}

#[test]
fn sign_matches_hand_hmac() {
    let key = [0x21u8; 32];
    let packed = CryptoManager::pack_key(&key).unwrap();
    let sig = CryptoManager::sign(&packed, "chal", "{\"a\":1}", 12345).unwrap();

    let mut mac = hmac::Hmac::<sha2::Sha256>::new_from_slice(&key).unwrap();
    mac.update(b"{\"a\":1}|chal|12345");
    let tag = mac.finalize().into_bytes();
    assert_eq!(sig, hex::encode(tag));
}

fn fixed_derived(ctx: &str) -> String {
    // a fixed master key whose derived keys for the contexts used below
    // start with a byte of at least 0x10, so that they unpack
    let master = CryptoManager::pack_key(&[0x42u8; 32]).unwrap();
    CryptoManager::derive_key(&master, Some(ctx)).unwrap()
}

#[test]
fn sign_then_verify_same_window() {
    let derived = fixed_derived("ctx");
    let w = 174000u64;
    let sig = CryptoManager::sign(&derived, "chal", "{\"a\":1}", w).unwrap();
    assert!(CryptoManager::verify(&derived, "chal", "{\"a\":1}", &sig, w, None).unwrap());
    assert!(CryptoManager::verify(&derived, "chal", "{\"a\":1}", &sig, w, Some(false)).unwrap());
}

#[test]
fn verify_rejects_any_change() {
    let derived = fixed_derived("ctx");
    let w = 174000u64;
    let sig = CryptoManager::sign(&derived, "chal", "{\"a\":1}", w).unwrap();
    assert!(!CryptoManager::verify(&derived, "chal2", "{\"a\":1}", &sig, w, None).unwrap());
    assert!(!CryptoManager::verify(&derived, "chal", "{\"a\":2}", &sig, w, None).unwrap());
    let mut bad = sig.clone().into_bytes();
    bad[0] = if bad[0] == b'0' { b'1' } else { b'0' };
    let bad = String::from_utf8(bad).unwrap();
    assert!(!CryptoManager::verify(&derived, "chal", "{\"a\":1}", &bad, w, None).unwrap());
    let other = fixed_derived("alpha");
    assert!(!CryptoManager::verify(&other, "chal", "{\"a\":1}", &sig, w, None).unwrap());
}

#[test]
fn drift_accepts_previous_window_only_when_allowed() {
    let derived = fixed_derived("beta");
    let w = 174000u64;
    let prev_sig = CryptoManager::sign(&derived, "chal", "p", w - 1).unwrap();
    assert!(CryptoManager::verify(&derived, "chal", "p", &prev_sig, w, None).unwrap());
    assert!(CryptoManager::verify(&derived, "chal", "p", &prev_sig, w, Some(true)).unwrap());
    assert!(!CryptoManager::verify(&derived, "chal", "p", &prev_sig, w, Some(false)).unwrap());
    // two windows back is rejected even with drift
    let old_sig = CryptoManager::sign(&derived, "chal", "p", w - 2).unwrap();
    assert!(!CryptoManager::verify(&derived, "chal", "p", &old_sig, w, None).unwrap());
}

#[test]
fn verify_at_window_zero_has_no_previous_window() {
    let derived = fixed_derived("ctx");
    let sig = CryptoManager::sign(&derived, "c", "p", 0).unwrap();
    assert!(CryptoManager::verify(&derived, "c", "p", &sig, 0, None).unwrap());
    assert!(!CryptoManager::verify(&derived, "c", "p", &sig, 1, Some(false)).unwrap());
    assert!(CryptoManager::verify(&derived, "c", "p", &sig, 1, None).unwrap());
}
