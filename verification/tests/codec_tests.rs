use baseflow::codec::BaseFlow;
use baseflow::CodecError;

#[test]
fn base62_of_255_is_47() {
    let bf = BaseFlow::new("ff", 16).unwrap();
    assert_eq!(bf.to(62).unwrap(), "47");
}

#[test]
fn round_trip_all_bases() {
    let hex = "deadbeef1234567890abcdef";
    for base in 2u32..=62 {
        let bf = BaseFlow::new(hex, 16).unwrap();
        let rendered = bf.to(base).unwrap();
        let back = BaseFlow::new(&rendered, base).unwrap();
        assert_eq!(back.to(16).unwrap(), hex, "base {}", base);
    }
}

#[test]
fn round_trip_zero_and_small() {
    for base in 2u32..=62 {
        let bf = BaseFlow::new("0", 16).unwrap();
        let rendered = bf.to(base).unwrap();
        assert_eq!(rendered, "0");
        let back = BaseFlow::new(&rendered, base).unwrap();
        assert_eq!(back.to(16).unwrap(), "0");
    }
}

#[test]
fn z_rejected_below_36_accepted_above() {
    assert_eq!(BaseFlow::new("z", 10).err(), Some(CodecError::InvalidCharacter));
    assert_eq!(BaseFlow::new("z", 26).err(), Some(CodecError::InvalidCharacter));
    assert_eq!(BaseFlow::new("z", 35).err(), Some(CodecError::InvalidCharacter));
    assert!(BaseFlow::new("z", 36).is_ok());
    let bf = BaseFlow::new("z", 62).unwrap();
    assert_eq!(bf.to(16).unwrap(), "23");
}

#[test]
fn hex_path_keeps_string_verbatim() {
    let bf = BaseFlow::new("00ff", 16).unwrap();
    assert_eq!(bf.to(16).unwrap(), "00ff");
    let bf2 = BaseFlow::new("0xAB", 16).unwrap();
    assert_eq!(bf2.to(16).unwrap(), "ab");
    let bf3 = BaseFlow::new("0x0xff", 16).unwrap();
    assert_eq!(bf3.to(16).unwrap(), "ff");
}

#[test]
fn hex_path_has_no_width_limit() {
    let long = "1".repeat(100);
    let bf = BaseFlow::new(&long, 16).unwrap();
    let b62 = bf.to(62).unwrap();
    let back = BaseFlow::new(&b62, 62).unwrap();
    assert_eq!(back.to(16).unwrap(), long);
}

#[test]
fn binary_rendering() {
    let bf = BaseFlow::new("ff", 16).unwrap();
    assert_eq!(bf.to(2).unwrap(), "11111111");
    let bf2 = BaseFlow::new("101", 2).unwrap();
    assert_eq!(bf2.to(16).unwrap(), "5");
}

#[test]
fn invalid_base_rejected() {
    assert_eq!(BaseFlow::new("1", 1).err(), Some(CodecError::InvalidBase));
    assert_eq!(BaseFlow::new("1", 63).err(), Some(CodecError::InvalidBase));
    let bf = BaseFlow::new("ff", 16).unwrap();
    assert_eq!(bf.to(63).err(), Some(CodecError::InvalidBase));
    assert_eq!(bf.to(0).err(), Some(CodecError::InvalidBase));
}

#[test]
fn empty_input_rejected() {
    assert_eq!(BaseFlow::new("", 10).err(), Some(CodecError::EmptyInput));
    assert_eq!(BaseFlow::new("", 16).err(), Some(CodecError::EmptyInput));
    assert_eq!(BaseFlow::new("0x", 16).err(), Some(CodecError::EmptyInput));
    assert_eq!(BaseFlow::new("0x0x", 16).err(), Some(CodecError::EmptyInput));
}

#[test]
fn invalid_hex_rejected() {
    assert_eq!(BaseFlow::new("zz", 16).err(), Some(CodecError::InvalidCharacter));
    assert_eq!(BaseFlow::new("12g4", 16).err(), Some(CodecError::InvalidCharacter));
}

#[test]
fn from_alpha_ab_is_one_and_back_is_b() {
    let bf = BaseFlow::from_alpha("ab").unwrap();
    assert_eq!(bf.to(16).unwrap(), "1");
    assert_eq!(bf.to_alpha().unwrap(), "b");
}

#[test]
fn from_alpha_rejects_outside_lowercase() {
    assert_eq!(BaseFlow::from_alpha("aZb").err(), Some(CodecError::InvalidCharacter));
    assert_eq!(BaseFlow::from_alpha("a1b").err(), Some(CodecError::InvalidCharacter));
    assert_eq!(BaseFlow::from_alpha("a b").err(), Some(CodecError::InvalidCharacter));
    assert_eq!(BaseFlow::from_alpha("").err(), Some(CodecError::EmptyInput));
}

#[test]
fn alpha_round_trip_without_leading_a() {
    let bf = BaseFlow::from_alpha("hello").unwrap();
    assert_eq!(bf.to_alpha().unwrap(), "hello");
    let zero = BaseFlow::from_alpha("a").unwrap();
    assert_eq!(zero.to(16).unwrap(), "0");
    assert_eq!(zero.to_alpha().unwrap(), "a");
}
