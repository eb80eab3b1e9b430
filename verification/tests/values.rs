use planckdb::bytes::{bytes_equal, bytes_less, bytes_to_u16, bytes_to_u32, combine_bytes, u16_to_bytes, u32_to_bytes};
use planckdb::value::{KeyRow, Value};

#[test]
fn number_orders_before_larger_number() {
    assert!(Value::Number(3).lt(&Value::Number(4)));
    assert!(!Value::Number(4).lt(&Value::Number(4)));
    assert!(!Value::Number(5).lt(&Value::Number(4)));
}

#[test]
fn numbers_order_before_texts() {
    let text = Value::string("a".to_string());
    assert!(Value::Number(u32::MAX).lt(&text));
    assert!(!text.lt(&Value::Number(0)));
}

#[test]
fn texts_order_by_length_then_bytes() {
    let b = Value::string("b".to_string());
    let aa = Value::string("aa".to_string());
    let ab = Value::string("ab".to_string());
    assert!(b.lt(&aa));
    assert!(!aa.lt(&b));
    assert!(aa.lt(&ab));
    assert!(!ab.lt(&aa));
    assert!(!aa.lt(&aa));
}

#[test]
fn string_tags_text_with_byte_length() {
    match Value::string("héllo".to_string()) {
        Value::String(len, text) => {
            assert_eq!(len, 6);
            assert_eq!(text, "héllo");
        }
        Value::Number(_) => panic!("a text was asked for"),
    }
}

#[test]
fn extract_pointer_gives_the_number() {
    assert_eq!(Value::Number(77).extract_pointer(), 77);
    assert_eq!(Value::Number(77).pointer(), Some(77));
    assert_eq!(Value::string("x".to_string()).pointer(), None);
}

#[test]
fn values_compare_equal_by_content() {
    assert_eq!(Value::Number(9), Value::Number(9));
    assert_ne!(Value::Number(9), Value::Number(10));
    assert_eq!(Value::string("site".to_string()), Value::String(4, "site".to_string()));
    assert_ne!(Value::String(3, "site".to_string()), Value::String(4, "site".to_string()));
    assert_ne!(Value::Number(1), Value::string("1".to_string()));
}

#[test]
fn a_text_with_a_wrong_tag_is_not_well_formed() {
    assert!(Value::String(4, "site".to_string()).is_wf());
    assert!(!Value::String(3, "site".to_string()).is_wf());
    assert!(Value::Number(0).is_wf());
}

#[test]
fn ceiling_is_the_largest_number_or_eight_z() {
    assert_eq!(Value::Number(5).ceiling(), Value::Number(u32::MAX));
    assert_eq!(Value::string("abc".to_string()).ceiling(), Value::String(8, "zzzzzzzz".to_string()));
    assert!(Value::Number(u32::MAX).is_ceiling());
    assert!(!Value::Number(u32::MAX - 1).is_ceiling());
    assert!(Value::String(8, "zzzzzzzz".to_string()).is_ceiling());
    assert!(!Value::string("zzzzzzz".to_string()).is_ceiling());
}

#[test]
fn stored_length_counts_the_tag() {
    assert_eq!(Value::Number(1).stored_len(), 4);
    assert_eq!(Value::string("site".to_string()).stored_len(), 5);
    assert_eq!(Value::string(String::new()).stored_len(), 1);
}

#[test]
fn clone_keeps_key_and_row() {
    let kr = KeyRow { key: Value::Number(3), row: vec![Value::Number(30), Value::string("x".to_string())] };
    let copy = kr.clone();
    assert_eq!(copy.key, Value::Number(3));
    assert_eq!(copy.row.len(), 2);
    assert_eq!(copy.row[0], Value::Number(30));
    assert_eq!(copy.row[1], Value::string("x".to_string()));
}

#[test]
fn combine_bytes_is_big_endian() {
    assert_eq!(combine_bytes(0x0f, 0xfd), 0x0ffd);
    assert_eq!(combine_bytes(0, 0), 0);
    assert_eq!(combine_bytes(0xff, 0xff), 0xffff);
}

#[test]
fn four_bytes_read_big_endian() {
    let buffer = [9u8, 0x01, 0x02, 0x03, 0x04, 9];
    assert_eq!(bytes_to_u32(&buffer, 1), 0x0102_0304);
    assert_eq!(bytes_to_u16(&buffer, 1), 0x0102);
}

#[test]
fn integers_written_big_endian_read_back() {
    assert_eq!(u32_to_bytes(0x0102_0304), [1, 2, 3, 4]);
    assert_eq!(u16_to_bytes(4093), [0x0f, 0xfd]);
    assert_eq!(bytes_to_u32(&u32_to_bytes(u32::MAX - 7), 0), u32::MAX - 7);
    assert_eq!(bytes_to_u16(&u16_to_bytes(40_000), 0), 40_000);
}

#[test]
fn byte_strings_compare_lexicographically() {
    assert!(bytes_less(b"abc", b"abd"));
    assert!(bytes_less(b"ab", b"abc"));
    assert!(!bytes_less(b"abc", b"abc"));
    assert!(!bytes_less(b"b", b"abc"));
    assert!(bytes_less(b"", b"a"));
    assert!(bytes_equal(b"abc", b"abc"));
    assert!(!bytes_equal(b"abc", b"abd"));
    assert!(!bytes_equal(b"abc", b"ab"));
}
