use btree_codec::error::Error;
use btree_codec::node::Node;
use btree_codec::node_type::{Key, KeyValuePair, NodeType, Offset};
use btree_codec::page::Page;
use btree_codec::page_layout::{KEY_SIZE, PAGE_SIZE, VALUE_SIZE};

fn pair(key: &str, value: &str) -> KeyValuePair {
    KeyValuePair::new(key.to_string(), value.to_string())
}

fn leaf(pairs: Vec<KeyValuePair>) -> Node {
    Node::new(NodeType::Leaf(pairs), true, None)
}

fn internal(children: usize, keys: usize) -> Node {
    let children: Vec<Offset> = (0..children).map(Offset).collect();
    let keys: Vec<Key> = (0..keys).map(|i| Key(format!("k{}", i))).collect();
    Node::new(NodeType::Internal(children, keys), true, None)
}

fn numbered_pairs(n: usize) -> Vec<KeyValuePair> {
    (0..n).map(|i| pair(&format!("k{}", i), &format!("v{}", i))).collect()
}

fn round_trip(node: &Node) -> Node {
    let page = Page::try_from(node).unwrap();
    Node::try_from(page).unwrap()
}

#[test]
fn leaf_root_round_trip() {
    let node = leaf(vec![pair("a", "1"), pair("b", "2")]);
    let decoded = round_trip(&node);
    assert!(decoded.is_root);
    assert_eq!(decoded.parent_offset, None);
    match decoded.node_type {
        NodeType::Leaf(pairs) => {
            assert_eq!(pairs.len(), 2);
            assert_eq!(pairs[0].key, "a");
            assert_eq!(pairs[0].value, "1");
            assert_eq!(pairs[1].key, "b");
            assert_eq!(pairs[1].value, "2");
        }
        other => panic!("expected a leaf, got {:?}", other),
    }
}

#[test]
fn internal_non_root_round_trip() {
    let node = Node::new(
        NodeType::Internal(vec![Offset(10), Offset(20)], vec![Key("m".to_string())]),
        false,
        Some(Offset(3)),
    );
    let decoded = round_trip(&node);
    assert!(!decoded.is_root);
    assert_eq!(decoded.parent_offset, Some(Offset(3)));
    assert_eq!(
        decoded.node_type,
        NodeType::Internal(vec![Offset(10), Offset(20)], vec![Key("m".to_string())])
    );
}

#[test]
fn leaf_root_page_bytes() {
    let page = Page::try_from(&leaf(vec![pair("a", "1"), pair("b", "2")])).unwrap();
    let mut expected = [0u8; PAGE_SIZE];
    expected[0] = 1;
    expected[1] = 0x02;
    expected[17] = 2;
    expected[18] = b'a';
    expected[28] = b'1';
    expected[38] = b'b';
    expected[48] = b'2';
    assert_eq!(page.get_data(), expected);
}

#[test]
fn internal_page_bytes() {
    let node = Node::new(
        NodeType::Internal(
            vec![Offset(10), Offset(0x0102030405060708)],
            vec![Key("mn".to_string())],
        ),
        false,
        Some(Offset(3)),
    );
    let page = Page::try_from(&node).unwrap();
    let mut expected = [0u8; PAGE_SIZE];
    expected[0] = 0;
    expected[1] = 0x01;
    expected[9] = 3;
    expected[17] = 2;
    expected[25] = 10;
    expected[26..34].copy_from_slice(&[1, 2, 3, 4, 5, 6, 7, 8]);
    expected[34] = b'm';
    expected[35] = b'n';
    assert_eq!(page.get_data(), expected);
}

#[test]
fn key_of_key_size_encodes() {
    let key = "k".repeat(KEY_SIZE);
    let node = Node::new(
        NodeType::Internal(vec![Offset(1), Offset(2)], vec![Key(key.clone())]),
        true,
        None,
    );
    let decoded = round_trip(&node);
    assert_eq!(
        decoded.node_type,
        NodeType::Internal(vec![Offset(1), Offset(2)], vec![Key(key)])
    );
}

#[test]
fn key_longer_than_key_size_fails() {
    let key = "k".repeat(KEY_SIZE + 1);
    let node = Node::new(
        NodeType::Internal(vec![Offset(1), Offset(2)], vec![Key(key.clone())]),
        true,
        None,
    );
    assert_eq!(Page::try_from(&node).err(), Some(Error::KeyTooLong));
    let node = leaf(vec![pair(&key, "v")]);
    assert_eq!(Page::try_from(&node).err(), Some(Error::KeyTooLong));
}

#[test]
fn key_width_counts_bytes_not_characters() {
    // Five two-byte characters fill a key slot; six do not fit.
    let fits = "\u{e9}".repeat(5);
    let decoded = round_trip(&leaf(vec![pair(&fits, "v")]));
    assert_eq!(decoded.node_type, NodeType::Leaf(vec![pair(&fits, "v")]));
    let long = "\u{e9}".repeat(6);
    assert_eq!(Page::try_from(&leaf(vec![pair(&long, "v")])).err(), Some(Error::KeyTooLong));
}

#[test]
fn value_of_value_size_encodes() {
    let value = "v".repeat(VALUE_SIZE);
    let decoded = round_trip(&leaf(vec![pair("k", &value)]));
    assert_eq!(decoded.node_type, NodeType::Leaf(vec![pair("k", &value)]));
}

#[test]
fn value_longer_than_value_size_fails() {
    let value = "v".repeat(VALUE_SIZE + 1);
    assert_eq!(Page::try_from(&leaf(vec![pair("k", &value)])).err(), Some(Error::ValueTooLong));
}

#[test]
fn first_text_that_is_too_long_is_reported() {
    let long = "x".repeat(11);
    let node = leaf(vec![pair("a", &long), pair(&long, "b")]);
    assert_eq!(Page::try_from(&node).err(), Some(Error::ValueTooLong));
    let node = leaf(vec![pair(&long, &long)]);
    assert_eq!(Page::try_from(&node).err(), Some(Error::KeyTooLong));
}

#[test]
fn empty_internal_round_trip() {
    let node = Node::new(NodeType::Internal(vec![], vec![]), true, None);
    let decoded = round_trip(&node);
    assert!(decoded.is_root);
    assert_eq!(decoded.parent_offset, None);
    assert_eq!(decoded.node_type, NodeType::Internal(vec![], vec![]));
}

#[test]
fn empty_leaf_round_trip() {
    let decoded = round_trip(&leaf(vec![]));
    assert!(decoded.is_root);
    assert_eq!(decoded.parent_offset, None);
    assert_eq!(decoded.node_type, NodeType::Leaf(vec![]));
}

#[test]
fn root_ignores_a_supplied_parent() {
    let plain = Node::new(NodeType::Leaf(vec![pair("a", "1")]), true, None);
    let with_parent = Node::new(NodeType::Leaf(vec![pair("a", "1")]), true, Some(Offset(77)));
    let page = Page::try_from(&with_parent).unwrap();
    assert_eq!(page.get_data(), Page::try_from(&plain).unwrap().get_data());
    let decoded = Node::try_from(page).unwrap();
    assert!(decoded.is_root);
    assert_eq!(decoded.parent_offset, None);
}

#[test]
fn non_root_without_parent_fails() {
    let node = Node::new(NodeType::Leaf(vec![pair("a", "1")]), false, None);
    assert_eq!(Page::try_from(&node).err(), Some(Error::MissingParentOffset));
    let node = Node::new(NodeType::Internal(vec![], vec![]), false, None);
    assert_eq!(Page::try_from(&node).err(), Some(Error::MissingParentOffset));
    let node = Node::new(NodeType::Unspecified, false, None);
    assert_eq!(Page::try_from(&node).err(), Some(Error::MissingParentOffset));
}

#[test]
fn unspecified_node_fails_encoding() {
    let node = Node::new(NodeType::Unspecified, true, None);
    assert_eq!(Page::try_from(&node).err(), Some(Error::InvalidNodeType));
    let node = Node::new(NodeType::Unspecified, false, Some(Offset(1)));
    assert_eq!(Page::try_from(&node).err(), Some(Error::InvalidNodeType));
}

#[test]
fn invalid_tag_fails_decoding() {
    let mut data = [0u8; PAGE_SIZE];
    data[1] = 0x99;
    assert_eq!(Node::try_from(Page::new(data)).err(), Some(Error::InvalidNodeType));
    data[1] = 0x03;
    assert_eq!(Node::try_from(Page::new(data)).err(), Some(Error::InvalidNodeType));
    data[1] = 0x00;
    assert_eq!(Node::try_from(Page::new(data)).err(), Some(Error::InvalidNodeType));
}

#[test]
fn nonzero_root_flag_means_root() {
    let mut data = [0u8; PAGE_SIZE];
    data[0] = 7;
    data[1] = 0x02;
    // The parent field of a root is not read.
    data[2..10].copy_from_slice(&[9; 8]);
    let decoded = Node::try_from(Page::new(data)).unwrap();
    assert!(decoded.is_root);
    assert_eq!(decoded.parent_offset, None);
    assert_eq!(decoded.node_type, NodeType::Leaf(vec![]));
}

#[test]
fn decoding_reads_the_parent_of_a_non_root() {
    let mut data = [0u8; PAGE_SIZE];
    data[1] = 0x02;
    data[8] = 1;
    data[9] = 2;
    let decoded = Node::try_from(Page::new(data)).unwrap();
    assert!(!decoded.is_root);
    assert_eq!(decoded.parent_offset, Some(Offset(258)));
}

#[test]
fn decoding_reads_one_key_fewer_than_children() {
    let mut data = [0u8; PAGE_SIZE];
    data[0] = 1;
    data[1] = 0x01;
    data[17] = 3;
    data[25] = 5;
    data[33] = 6;
    data[41] = 7;
    data[42] = b'a';
    data[52] = b'b';
    // A third key slot is not read.
    data[62] = 0xff;
    let decoded = Node::try_from(Page::new(data)).unwrap();
    assert_eq!(
        decoded.node_type,
        NodeType::Internal(
            vec![Offset(5), Offset(6), Offset(7)],
            vec![Key("a".to_string()), Key("b".to_string())]
        )
    );
}

#[test]
fn invalid_utf8_fails_decoding() {
    let mut data = [0u8; PAGE_SIZE];
    data[0] = 1;
    data[1] = 0x02;
    data[17] = 1;
    data[18] = 0xff;
    assert_eq!(Node::try_from(Page::new(data)).err(), Some(Error::Utf8DecodeError));
    // In the value slot.
    data[18] = b'k';
    data[28] = 0xc3;
    assert_eq!(Node::try_from(Page::new(data)).err(), Some(Error::Utf8DecodeError));
    // In a key slot of an internal node.
    let mut data = [0u8; PAGE_SIZE];
    data[1] = 0x01;
    data[17] = 2;
    data[34] = 0x80;
    assert_eq!(Node::try_from(Page::new(data)).err(), Some(Error::Utf8DecodeError));
}

#[test]
fn a_count_too_large_for_the_page_fails_decoding() {
    let mut data = [0u8; PAGE_SIZE];
    data[0] = 1;
    data[1] = 0x02;
    data[16] = 0xff;
    data[17] = 0xff;
    assert_eq!(Node::try_from(Page::new(data)).err(), Some(Error::OutOfBounds));
    data[1] = 0x01;
    assert_eq!(Node::try_from(Page::new(data)).err(), Some(Error::OutOfBounds));
    // 204 pairs do not fit, 203 do.
    data[1] = 0x02;
    data[16] = 0;
    data[17] = 204;
    assert_eq!(Node::try_from(Page::new(data)).err(), Some(Error::OutOfBounds));
    data[17] = 203;
    match Node::try_from(Page::new(data)).unwrap().node_type {
        NodeType::Leaf(pairs) => assert_eq!(pairs.len(), 203),
        other => panic!("expected a leaf, got {:?}", other),
    }
}

#[test]
fn invalid_utf8_is_reported_before_the_end_of_the_page() {
    let mut data = [0u8; PAGE_SIZE];
    data[0] = 1;
    data[1] = 0x02;
    data[17] = 250;
    data[18 + 20 * 100] = 0xff;
    assert_eq!(Node::try_from(Page::new(data)).err(), Some(Error::Utf8DecodeError));
}

#[test]
fn largest_nodes_that_fit() {
    // 18 + 227 * 8 + 226 * 10 = 4094.
    let node = internal(227, 226);
    let decoded = round_trip(&node);
    assert_eq!(decoded.node_type, node.node_type);
    // 18 + 203 * 20 = 4078.
    let node = leaf(numbered_pairs(203));
    let decoded = round_trip(&node);
    assert_eq!(decoded.node_type, node.node_type);
}

#[test]
fn nodes_too_large_for_the_page_fail() {
    assert_eq!(Page::try_from(&internal(228, 227)).err(), Some(Error::OutOfBounds));
    assert_eq!(Page::try_from(&internal(600, 0)).err(), Some(Error::OutOfBounds));
    assert_eq!(Page::try_from(&leaf(numbered_pairs(204))).err(), Some(Error::OutOfBounds));
}

#[test]
fn a_long_text_behind_the_end_of_the_page_is_not_reported() {
    let long = "x".repeat(11);
    // Pair 203 starts within the page: its key is checked.
    let mut pairs = numbered_pairs(204);
    pairs[203] = pair(&long, "v");
    assert_eq!(Page::try_from(&leaf(pairs)).err(), Some(Error::KeyTooLong));
    // Its key slot fits, so its value is checked too.
    let mut pairs = numbered_pairs(204);
    pairs[203] = pair("k", &long);
    assert_eq!(Page::try_from(&leaf(pairs)).err(), Some(Error::ValueTooLong));
    // Pair 205 is never reached.
    let mut pairs = numbered_pairs(206);
    pairs[205] = pair(&long, "v");
    assert_eq!(Page::try_from(&leaf(pairs)).err(), Some(Error::OutOfBounds));
    // Nor is a key of an internal node whose children fill the page.
    let children: Vec<Offset> = (0..600).map(Offset).collect();
    let node = Node::new(NodeType::Internal(children, vec![Key(long)]), true, None);
    assert_eq!(Page::try_from(&node).err(), Some(Error::OutOfBounds));
}

#[test]
fn trailing_nul_characters_are_lost() {
    let decoded = round_trip(&leaf(vec![pair("a\0", "1\0\0")]));
    assert_eq!(decoded.node_type, NodeType::Leaf(vec![pair("a", "1")]));
    let decoded = round_trip(&leaf(vec![pair("\0", "")]));
    assert_eq!(decoded.node_type, NodeType::Leaf(vec![pair("", "")]));
}

#[test]
fn other_nul_characters_are_kept() {
    let decoded = round_trip(&leaf(vec![pair("a\0b", "\0c")]));
    assert_eq!(decoded.node_type, NodeType::Leaf(vec![pair("a\0b", "\0c")]));
}

#[test]
fn large_offsets_round_trip() {
    let node = Node::new(
        NodeType::Internal(vec![Offset(usize::MAX), Offset(0)], vec![Key("".to_string())]),
        false,
        Some(Offset(usize::MAX - 1)),
    );
    let decoded = round_trip(&node);
    assert_eq!(decoded.parent_offset, Some(Offset(usize::MAX - 1)));
    assert_eq!(decoded.node_type, node.node_type);
}

#[test]
fn node_new_keeps_its_parts() {
    let node = Node::new(NodeType::Leaf(vec![pair("a", "1")]), false, Some(Offset(4)));
    assert!(!node.is_root);
    assert_eq!(node.parent_offset, Some(Offset(4)));
    assert_eq!(node.node_type, NodeType::Leaf(vec![pair("a", "1")]));
}
