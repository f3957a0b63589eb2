use byteorder::ByteOrder;
use mtl::error::ParseHashError;
use mtl::hash::{self, xxh3_contents};

#[test]
fn test_hash() {
    let actual = hash::Hash::new(0);
    let expected = "0000000000000000";
    assert_eq!(expected, actual.to_string());

    let actual = hash::Hash::from_contents("hello world".as_bytes());
    assert_eq!(actual, hash::Hash::from_hex("d447b1ea40e6988b").unwrap());
}

#[test]
fn test_hash_error() {
    let actual = hash::Hash::from_hex("g");
    assert!(actual.is_err());
    assert_eq!(actual.unwrap_err().to_string(), "invalid hash format");

    let actual = hash::Hash::from_hex("ghijklmnopqrstuv");
    assert!(actual.is_err());
    assert_eq!(
        actual.unwrap_err().to_string(),
        "invalid digit found in string"
    );
}

#[test]
fn hash_ref() {
    let a = vec![1, 2, 4, 8, 16, 32, 64, 128];
    let t = byteorder::LittleEndian::read_u64(&a);
    let hash = hash::Hash::new(t);

    assert_eq!(a, hash.to_bytes());
}

#[test]
fn hash_hex_round_trip() {
    for x in [0u64, 1, 0xf, 0x10, 0xd447b1ea40e6988b, u64::MAX] {
        let text = hash::Hash::new(x).to_string();
        assert_eq!(text.len(), 16);
        assert_eq!(hash::Hash::from_hex(&text).unwrap(), hash::Hash::new(x));
    }
    assert_eq!(hash::Hash::new(0xabc).to_string(), "0000000000000abc");
    assert_eq!(hash::Hash::new(u64::MAX).to_string(), "ffffffffffffffff");
}

#[test]
fn hash_hex_accepts_upper_case_digits() {
    assert_eq!(
        hash::Hash::from_hex("D447B1EA40E6988B").unwrap(),
        hash::Hash::new(0xd447b1ea40e6988b)
    );
}

#[test]
fn hash_hex_rejects_sign_and_wrong_length() {
    assert_eq!(
        hash::Hash::from_hex("+447b1ea40e6988b"),
        Err(ParseHashError::IntError)
    );
    assert_eq!(hash::Hash::from_hex(""), Err(ParseHashError::InvalidFormat));
    assert_eq!(
        hash::Hash::from_hex("d447b1ea40e6988b0"),
        Err(ParseHashError::InvalidFormat)
    );
    assert_eq!(
        hash::Hash::from_hex("d447b1ea40e6988"),
        Err(ParseHashError::InvalidFormat)
    );
}

#[test]
fn hash_error_messages() {
    assert_eq!(
        ParseHashError::InvalidToken("xyz".to_string()).to_string(),
        "invalid hash token: \"xyz\""
    );
}

#[test]
fn hash_of_empty_contents() {
    assert_eq!(hash::Hash::from_contents(&[]).as_u64(), 0x2d06800538d394c2);
    assert_eq!(xxh3_contents(&[]), 0x2d06800538d394c2);
}

#[test]
fn hash_to_bytes_is_little_endian() {
    assert_eq!(
        hash::Hash::new(0x0102030405060708).to_bytes(),
        vec![8, 7, 6, 5, 4, 3, 2, 1]
    );
    assert_eq!(hash::Hash::fixed_width(), 8);
}

#[test]
fn hashes_order_by_number() {
    assert!(hash::Hash::new(1) < hash::Hash::new(2));
    assert!(hash::Hash::new(0x0100) > hash::Hash::new(0x00ff));
}
