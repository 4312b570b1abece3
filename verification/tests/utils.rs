use uxnasm::utils::parse_hex;
use uxnasm::utils::set_vec;
use uxnasm::utils::until_macro_args;
use uxnasm::utils::ByteOrShort;
use uxnasm::utils::UxnHexErr;

#[test]
fn hex_bytes() {
    assert_eq!(parse_hex("ff").unwrap(), ByteOrShort::Byte(0xff));
    assert_eq!(parse_hex("0A").unwrap(), ByteOrShort::Byte(0x0a));
    assert_eq!(parse_hex("00").unwrap(), ByteOrShort::Byte(0));
    assert!(matches!(parse_hex("+f"), Err(UxnHexErr::InvalidHex(s)) if s == "+f"));
}

#[test]
fn hex_shorts() {
    assert_eq!(parse_hex("1234").unwrap(), ByteOrShort::Short(0x1234));
    assert_eq!(parse_hex("ffff").unwrap(), ByteOrShort::Short(0xffff));
    assert!(matches!(parse_hex("+abc"), Err(UxnHexErr::InvalidHex(s)) if s == "+abc"));
}

#[test]
fn hex_empty() {
    assert!(matches!(parse_hex(""), Err(UxnHexErr::EmptyHex)));
}

#[test]
fn hex_invalid() {
    assert!(matches!(parse_hex("zz"), Err(UxnHexErr::InvalidHex(s)) if s == "zz"));
    assert!(matches!(parse_hex("+"), Err(UxnHexErr::EmptyHex)) == false);
    assert!(matches!(parse_hex("-1"), Err(UxnHexErr::InvalidHex(s)) if s == "-1"));
    assert!(matches!(parse_hex("12g4"), Err(UxnHexErr::InvalidHex(s)) if s == "12g4"));
    // one two-byte character
    assert!(matches!(parse_hex("é"), Err(UxnHexErr::InvalidHex(s)) if s == "é"));
    assert!(matches!(parse_hex("++"), Err(UxnHexErr::InvalidHex(s)) if s == "++"));
}

#[test]
fn hex_wrong_size() {
    assert!(matches!(parse_hex("1"), Err(UxnHexErr::BigHex(s)) if s == "1"));
    assert!(matches!(parse_hex("123"), Err(UxnHexErr::BigHex(s)) if s == "123"));
    assert!(matches!(parse_hex("12345"), Err(UxnHexErr::BigHex(s)) if s == "12345"));
}

#[test]
fn hex_roundtrip_all_bytes_and_some_shorts() {
    for b in 0..=255u8 {
        assert_eq!(parse_hex(&format!("{:02x}", b)).unwrap(), ByteOrShort::Byte(b));
    }
    for v in [0u16, 1, 0x00ff, 0x0100, 0x1234, 0xabcd, 0xffff] {
        assert_eq!(parse_hex(&format!("{:04x}", v)).unwrap(), ByteOrShort::Short(v));
    }
}

#[test]
fn macro_names() {
    assert_eq!(until_macro_args("foo[bar]"), Some("foo"));
    assert_eq!(until_macro_args("[x"), Some(""));
    assert_eq!(until_macro_args("foo"), None);
    assert_eq!(until_macro_args(""), None);
    assert_eq!(until_macro_args("éa[x]"), Some("éa"));
    assert_eq!(until_macro_args("é["), Some("é"));
}

#[test]
fn set_vec_overwrites_in_place() {
    let mut v = vec![1u8, 2, 3];
    set_vec(&mut v, 5, 1);
    assert_eq!(v, vec![1, 5, 3]);
}

#[test]
fn set_vec_grows_with_defaults() {
    let mut v = vec![1u8, 2, 3];
    set_vec(&mut v, 9, 5);
    assert_eq!(v, vec![1, 2, 3, 0, 0, 9]);
    let mut e: Vec<u8> = Vec::new();
    set_vec(&mut e, 7, 0);
    assert_eq!(e, vec![7]);
}

#[test]
fn set_vec_twice_is_once() {
    let mut v = vec![1u8];
    set_vec(&mut v, 4, 3);
    let once = v.clone();
    set_vec(&mut v, 4, 3);
    assert_eq!(v, once);
}
