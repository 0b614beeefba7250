use bili_add_on::encoding::{cow_u8_to_str, decode_bytes};
use std::borrow::Cow;

#[test]
fn test_cow_u8_to_str_valid_utf8() {
    let input = Cow::Borrowed("hello".as_bytes());
    let result = cow_u8_to_str(input).unwrap();
    assert_eq!(result, Cow::Borrowed("hello"));
}

#[test]
fn test_cow_u8_to_str_invalid_utf8() {
    let input = Cow::Borrowed(&[0xFF, 0xFE, 0xFD][..]);
    assert!(cow_u8_to_str(input).is_err());
}

#[test]
fn test_cow_u8_to_str_owned() {
    let input = Cow::Owned(b"world".to_vec());
    let result = cow_u8_to_str(input).unwrap();
    assert_eq!(result, Cow::<'_, str>::Owned("world".to_string()));
}

#[test]
fn test_decode_bytes_utf8() {
    let result = decode_bytes("你好世界".as_bytes(), "text/plain");
    assert_eq!(result, "你好世界");
}

#[test]
fn test_decode_bytes_gbk_declared() {
    let input: Vec<u8> = vec![0xCE, 0xD2, 0xCA, 0xC7]; // "我是" in GBK
    let result = decode_bytes(&input, "text/xml; charset=gbk");
    assert_eq!(result, "我是");
}

#[test]
fn the_declared_charset_is_read_in_any_case() {
    let input: Vec<u8> = vec![0xCE, 0xD2, 0xCA, 0xC7];
    assert_eq!(decode_bytes(&input, "TEXT/XML; CHARSET=GBK"), "我是");
    assert_eq!(decode_bytes(&input, "text/xml; charset=GB2312"), "我是");
}
