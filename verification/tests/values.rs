use btree_codec::error::Error;
use btree_codec::node_type::{
    Key, KeyValuePair, NodeType, Offset, INTERNAL_TAG, LEAF_TAG, UNSPECIFIED_TAG,
};
use btree_codec::order::compare_bytes;
use btree_codec::slot::{pad_text, read_text, trimmed_len};
use std::cmp::Ordering;

fn key(text: &str) -> Key {
    Key(text.to_string())
}

fn pair(key: &str, value: &str) -> KeyValuePair {
    KeyValuePair::new(key.to_string(), value.to_string())
}

#[test]
fn node_type_of_a_tag() {
    assert_eq!(NodeType::from(0x01), NodeType::Internal(vec![], vec![]));
    assert_eq!(NodeType::from(0x02), NodeType::Leaf(vec![]));
    assert_eq!(NodeType::from(0x03), NodeType::Unspecified);
    assert_eq!(NodeType::from(0x00), NodeType::Unspecified);
    assert_eq!(NodeType::from(0x99), NodeType::Unspecified);
}

#[test]
fn tag_of_a_node_type() {
    assert_eq!(u8::from(&NodeType::Internal(vec![Offset(1)], vec![])), 0x01);
    assert_eq!(u8::from(&NodeType::Leaf(vec![pair("a", "b")])), 0x02);
    assert_eq!(u8::from(&NodeType::Unspecified), 0x03);
    assert_eq!(INTERNAL_TAG, 0x01);
    assert_eq!(LEAF_TAG, 0x02);
    assert_eq!(UNSPECIFIED_TAG, 0x03);
}

#[test]
fn offset_from_bytes() {
    assert_eq!(Offset::try_from([0u8, 0, 0, 0, 0, 0, 0, 10]), Ok(Offset(10)));
    assert_eq!(Offset::try_from([1u8, 2, 3, 4, 5, 6, 7, 8]), Ok(Offset(0x0102030405060708)));
    assert_eq!(Offset::try_from([0xffu8; 8]), Ok(Offset(usize::MAX)));
}

#[test]
fn offsets_are_equal_where_their_positions_are() {
    assert_eq!(Offset(3), Offset(3));
    assert_ne!(Offset(3), Offset(4));
}

#[test]
fn keys_are_ordered_lexicographically() {
    assert_eq!(key("a").partial_cmp(&key("b")), Some(Ordering::Less));
    assert_eq!(key("b").partial_cmp(&key("a")), Some(Ordering::Greater));
    assert_eq!(key("a").partial_cmp(&key("a")), Some(Ordering::Equal));
    assert_eq!(key("a").partial_cmp(&key("ab")), Some(Ordering::Less));
    assert_eq!(key("").partial_cmp(&key("a")), Some(Ordering::Less));
    assert_eq!(key("B").partial_cmp(&key("a")), Some(Ordering::Less));
    assert_eq!(key("z").partial_cmp(&key("\u{e9}")), Some(Ordering::Less));
    assert!(key("a") < key("b"));
    assert!(key("b") >= key("a"));
    assert_eq!(key("a"), key("a"));
    assert_ne!(key("a"), key("b"));
    for (a, b) in [("a", "b"), ("ab", "a"), ("", ""), ("\u{e9}", "z"), ("q", "q")] {
        assert_eq!(key(a).partial_cmp(&key(b)), Some(a.cmp(b)));
        assert_eq!(key(a).cmp(&key(b)), a.cmp(b));
    }
}

#[test]
fn pairs_are_ordered_by_key_alone() {
    assert_eq!(pair("a", "2").partial_cmp(&pair("b", "1")), Some(Ordering::Less));
    assert_eq!(pair("b", "1").partial_cmp(&pair("a", "2")), Some(Ordering::Greater));
    assert_eq!(pair("a", "1").partial_cmp(&pair("a", "2")), Some(Ordering::Equal));
    assert!(pair("a", "9") < pair("b", "0"));
}

#[test]
fn pairs_are_equal_where_key_and_value_are() {
    assert_eq!(pair("a", "1"), pair("a", "1"));
    assert_ne!(pair("a", "1"), pair("a", "2"));
    assert_ne!(pair("a", "1"), pair("b", "1"));
}

#[test]
fn pair_new_keeps_key_and_value() {
    let pair = KeyValuePair::new("key".to_string(), "value".to_string());
    assert_eq!(pair.key, "key");
    assert_eq!(pair.value, "value");
}

#[test]
fn node_types_are_equal_where_their_items_are() {
    let a = NodeType::Internal(vec![Offset(1), Offset(2)], vec![key("k")]);
    assert_eq!(a, NodeType::Internal(vec![Offset(1), Offset(2)], vec![key("k")]));
    assert_ne!(a, NodeType::Internal(vec![Offset(1), Offset(3)], vec![key("k")]));
    assert_ne!(a, NodeType::Internal(vec![Offset(1), Offset(2)], vec![key("j")]));
    assert_ne!(a, NodeType::Internal(vec![Offset(1)], vec![key("k")]));
    assert_ne!(a, NodeType::Internal(vec![Offset(1), Offset(2)], vec![]));
    assert_ne!(a, NodeType::Leaf(vec![]));
    assert_ne!(a, NodeType::Unspecified);
    let b = NodeType::Leaf(vec![pair("a", "1"), pair("b", "2")]);
    assert_eq!(b, NodeType::Leaf(vec![pair("a", "1"), pair("b", "2")]));
    assert_ne!(b, NodeType::Leaf(vec![pair("b", "2"), pair("a", "1")]));
    assert_ne!(b, NodeType::Leaf(vec![pair("a", "1")]));
    assert_ne!(b, NodeType::Leaf(vec![pair("a", "1"), pair("b", "3")]));
    assert_eq!(NodeType::Unspecified, NodeType::Unspecified);
    assert_ne!(NodeType::Unspecified, NodeType::Leaf(vec![]));
}

#[test]
fn bytes_are_compared_lexicographically() {
    assert_eq!(compare_bytes(&[], &[]), Ordering::Equal);
    assert_eq!(compare_bytes(&[], &[0]), Ordering::Less);
    assert_eq!(compare_bytes(&[0], &[]), Ordering::Greater);
    assert_eq!(compare_bytes(&[1, 2, 3], &[1, 2, 3]), Ordering::Equal);
    assert_eq!(compare_bytes(&[1, 2, 3], &[1, 2, 4]), Ordering::Less);
    assert_eq!(compare_bytes(&[1, 3], &[1, 2, 4]), Ordering::Greater);
    assert_eq!(compare_bytes(&[1, 2], &[1, 2, 0]), Ordering::Less);
    assert_eq!(compare_bytes(&[200], &[100, 255]), Ordering::Greater);
}

#[test]
fn text_is_padded_with_zeros() {
    assert_eq!(pad_text::<10>("abc"), Some([b'a', b'b', b'c', 0, 0, 0, 0, 0, 0, 0]));
    assert_eq!(pad_text::<3>("abc"), Some([b'a', b'b', b'c']));
    assert_eq!(pad_text::<2>("abc"), None);
    assert_eq!(pad_text::<4>(""), Some([0, 0, 0, 0]));
    assert_eq!(pad_text::<3>("\u{e9}"), Some([0xc3, 0xa9, 0]));
    assert_eq!(pad_text::<1>("\u{e9}"), None);
}

#[test]
fn trailing_zeros_are_not_counted() {
    assert_eq!(trimmed_len(&[]), 0);
    assert_eq!(trimmed_len(&[0, 0, 0]), 0);
    assert_eq!(trimmed_len(&[1, 2, 0, 0]), 2);
    assert_eq!(trimmed_len(&[0, 1, 0, 2]), 4);
    assert_eq!(trimmed_len(&[0, 1, 0, 2, 0]), 4);
}

#[test]
fn slot_text_is_read_without_its_padding() {
    assert_eq!(read_text(&[b'a', b'b', 0, 0]), Ok("ab".to_string()));
    assert_eq!(read_text(&[b'a', b'b']), Ok("ab".to_string()));
    assert_eq!(read_text(&[0, 0, 0]), Ok("".to_string()));
    assert_eq!(read_text(&[]), Ok("".to_string()));
    assert_eq!(read_text(&[0, b'a', 0, b'b', 0]), Ok("\0a\0b".to_string()));
    assert_eq!(read_text(&[0xc3, 0xa9, 0]), Ok("\u{e9}".to_string()));
}

#[test]
fn invalid_utf8_in_a_slot_is_refused() {
    assert_eq!(read_text(&[0xff, 0, 0]), Err(Error::Utf8DecodeError));
    assert_eq!(read_text(&[b'a', 0x80]), Err(Error::Utf8DecodeError));
    // A character cut short by the padding.
    assert_eq!(read_text(&[0xc3, 0, 0]), Err(Error::Utf8DecodeError));
    // An overlong encoding and a surrogate.
    assert_eq!(read_text(&[0xc0, 0x80]), Err(Error::Utf8DecodeError));
    assert_eq!(read_text(&[0xed, 0xa0, 0x80]), Err(Error::Utf8DecodeError));
}
