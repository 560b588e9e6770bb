//! What holds of the page format: which nodes can be stored, and that a stored
//! node is read back as it was.
use crate::endian::{
    be_bytes, lemma_be_bytes_len, lemma_be_value_of_be_bytes, lemma_pow256_of_ptr_size,
};
use crate::error::Error;
use crate::format::{
    child_start, decode_error, decoded_internal, decoded_leaf, decoded_node, encode_error,
    internal_decode_error, key_count, key_start, leaf_decode_error, leaf_encode_error, node_bytes,
    pair_start, stored_count, stored_is_root, stored_slot, stored_value, texts_fit,
};
use crate::node::NodeView;
use crate::node_type::{tag_of_node_type, NodeTypeView, INTERNAL_TAG, LEAF_TAG};
use crate::page_layout::{
    INTERNAL_NODE_HEADER_SIZE, INTERNAL_NODE_NUM_CHILDREN_OFFSET, KEY_SIZE, LEAF_NODE_HEADER_SIZE,
    NODE_TYPE_OFFSET, PAGE_SIZE, PARENT_POINTER_OFFSET, PTR_SIZE, VALUE_SIZE,
};
use crate::slot::{lemma_slot_round_trip, slot_bytes, slot_text, text_len, trim_nul};
use vstd::prelude::*;
use vstd::utf8::valid_utf8;

verus! {

/// What the tree algorithms keep true of a node: the root is the node without
/// a parent, and an internal node has one key fewer than children, or neither.
pub open spec fn well_formed(node: NodeView) -> bool {
    &&& node.is_root <==> node.parent_offset is None
    &&& node.node_type matches NodeTypeView::Internal(children, keys) ==> keys.len() == key_count(
        children.len() as int,
    )
}

/// The nodes that can be stored: a node that is not the root names its
/// parent, the node has a type, each text fits its slot, and the node fits the
/// page.
pub open spec fn encodable(node: NodeView) -> bool {
    &&& node.is_root || node.parent_offset is Some
    &&& match node.node_type {
        NodeTypeView::Internal(children, keys) => {
            &&& forall|j: int| 0 <= j < keys.len() ==> text_len(#[trigger] keys[j]) <= KEY_SIZE
            &&& key_start(children.len() as int, keys.len() as int) <= PAGE_SIZE
        },
        NodeTypeView::Leaf(pairs) => {
            &&& texts_fit(pairs, pairs.len() as int)
            &&& pair_start(pairs.len() as int) <= PAGE_SIZE
        },
        NodeTypeView::Unspecified => false,
    }
}

/// `text` ends in no NUL character.
pub open spec fn ends_clean(text: Seq<char>) -> bool {
    text.len() == 0 || text.last() != '\0'
}

/// No key or value of `node` ends in a NUL character.
pub open spec fn texts_end_clean(node: NodeView) -> bool {
    match node.node_type {
        NodeTypeView::Internal(_, keys) => forall|j: int|
            0 <= j < keys.len() ==> ends_clean(#[trigger] keys[j]),
        NodeTypeView::Leaf(pairs) => forall|i: int|
            0 <= i < pairs.len() ==> ends_clean((#[trigger] pairs[i]).0) && ends_clean(pairs[i].1),
        NodeTypeView::Unspecified => true,
    }
}

/// `node` with the NUL characters at the end of each key and value removed.
pub open spec fn trimmed(node: NodeView) -> NodeView {
    NodeView {
        node_type: match node.node_type {
            NodeTypeView::Internal(children, keys) => NodeTypeView::Internal(
                children,
                keys.map_values(|key: Seq<char>| trim_nul(key)),
            ),
            NodeTypeView::Leaf(pairs) => NodeTypeView::Leaf(
                pairs.map_values(
                    |pair: (Seq<char>, Seq<char>)| (trim_nul(pair.0), trim_nul(pair.1)),
                ),
            ),
            NodeTypeView::Unspecified => NodeTypeView::Unspecified,
        },
        is_root: node.is_root,
        parent_offset: node.parent_offset,
    }
}

/// In a leaf that can be stored, every text fits its slot.
proof fn lemma_leaf_texts_fit(pairs: Seq<(Seq<char>, Seq<char>)>, n: int)
    requires
        leaf_encode_error(pairs) is None,
        0 <= n <= pairs.len(),
    ensures
        texts_fit(pairs, n),
    decreases n,
{
    if n > 0 {
        lemma_leaf_texts_fit(pairs, n - 1);
        let i = n - 1;
        assert(pair_start(i) + KEY_SIZE <= pair_start(pairs.len() as int));
        assert(text_len(pairs[i].0) <= KEY_SIZE);
        assert(text_len(pairs[i].1) <= VALUE_SIZE);
    }
}

/// Storing a node succeeds exactly on the nodes that `encodable` describes.
pub proof fn lemma_encodable(node: NodeView)
    ensures
        encode_error(node) is None <==> encodable(node),
{
    match node.node_type {
        NodeTypeView::Internal(children, keys) => {
            let n = children.len() as int;
            if encode_error(node) is None {
                assert forall|j: int| 0 <= j < keys.len() implies text_len(#[trigger] keys[j])
                    <= KEY_SIZE by {
                    assert(key_start(n, j) <= key_start(n, keys.len() as int));
                }
            }
        },
        NodeTypeView::Leaf(pairs) => {
            if encode_error(node) is None {
                lemma_leaf_texts_fit(pairs, pairs.len() as int);
            }
            if encodable(node) {
                assert forall|i: int| 0 <= i < pairs.len() implies text_len(
                    (#[trigger] pairs[i]).0,
                ) <= KEY_SIZE && text_len(pairs[i].1) <= VALUE_SIZE by {}
            }
        },
        NodeTypeView::Unspecified => {},
    }
}

/// The root is stored without regard to a parent offset: whatever `parent` it
/// carries, the outcome and the page are the same.
pub proof fn lemma_root_ignores_parent(node: NodeView, parent: Option<usize>)
    requires
        node.is_root,
    ensures
        encode_error(NodeView { parent_offset: parent, ..node }) == encode_error(node),
        node_bytes(NodeView { parent_offset: parent, ..node }) == node_bytes(node),
{
    assert(node_bytes(NodeView { parent_offset: parent, ..node }) =~= node_bytes(node));
}

/// A node that is not the root and names no parent cannot be stored, whatever
/// else it holds.
pub proof fn lemma_missing_parent(node: NodeView)
    requires
        !node.is_root,
        node.parent_offset is None,
    ensures
        encode_error(node) == Some(Error::MissingParentOffset),
{
}

/// A page with a type tag other than those of an internal node and of a leaf
/// cannot be read, whatever else it holds.
pub proof fn lemma_unknown_tag(page: Seq<u8>)
    requires
        page[NODE_TYPE_OFFSET as int] != INTERNAL_TAG,
        page[NODE_TYPE_OFFSET as int] != LEAF_TAG,
    ensures
        decode_error(page) == Some(Error::InvalidNodeType),
{
}

/// The integer written at `at` of a stored node is read back.
proof fn lemma_stored_value(page: Seq<u8>, at: int, value: usize)
    requires
        0 <= at,
        at + PTR_SIZE <= page.len(),
        forall|k: int|
            at <= k < at + PTR_SIZE ==> page[k] == be_bytes(value as nat, PTR_SIZE as nat)[k - at],
    ensures
        stored_value(page, at) == value,
{
    lemma_be_bytes_len(value as nat, PTR_SIZE as nat);
    lemma_pow256_of_ptr_size();
    lemma_be_value_of_be_bytes(value as nat, PTR_SIZE as nat);
    assert(page.subrange(at, at + PTR_SIZE) =~= be_bytes(value as nat, PTR_SIZE as nat));
}

/// The text written into the slot at `at` of a stored node is read back
/// without the NUL characters at its end.
proof fn lemma_stored_text(page: Seq<u8>, at: int, width: int, text: Seq<char>)
    requires
        0 <= at,
        at + width <= page.len(),
        text_len(text) <= width,
        forall|k: int| at <= k < at + width ==> page[k] == slot_bytes(text, width as nat)[k - at],
    ensures
        stored_slot(page, at, width) == slot_bytes(text, width as nat),
{
    lemma_slot_round_trip(text, width as nat);
    assert(stored_slot(page, at, width) =~= slot_bytes(text, width as nat));
}

/// The number of items that `node` holds: children, or pairs.
pub open spec fn item_count(node: NodeView) -> nat {
    match node.node_type {
        NodeTypeView::Internal(children, _) => children.len(),
        NodeTypeView::Leaf(pairs) => pairs.len(),
        NodeTypeView::Unspecified => 0,
    }
}

/// The header of a stored node is read back: the flag, the tag, the parent
/// offset of a node that is not the root, and the number of items.
proof fn lemma_header_round_trip(node: NodeView)
    requires
        encodable(node),
    ensures
        node_bytes(node).len() == PAGE_SIZE,
        stored_is_root(node_bytes(node)) == node.is_root,
        node_bytes(node)[NODE_TYPE_OFFSET as int] == tag_of_node_type(node.node_type),
        !node.is_root ==> stored_value(node_bytes(node), PARENT_POINTER_OFFSET as int)
            == node.parent_offset.unwrap(),
        stored_count(node_bytes(node)) == item_count(node),
{
    let page = node_bytes(node);
    if !node.is_root {
        lemma_stored_value(page, PARENT_POINTER_OFFSET as int, node.parent_offset.unwrap());
    }
    lemma_stored_value(page, INTERNAL_NODE_NUM_CHILDREN_OFFSET as int, item_count(node) as usize);
}

/// A stored internal node is read back, each key without the NUL characters
/// at its end.
proof fn lemma_internal_round_trip(node: NodeView)
    requires
        encodable(node),
        well_formed(node),
        node.node_type is Internal,
    ensures
        internal_decode_error(node_bytes(node)) is None,
        decoded_internal(node_bytes(node)) == trimmed(node).node_type,
{
    let page = node_bytes(node);
    let children = node.node_type->Internal_0;
    let keys = node.node_type->Internal_1;
    let n = children.len() as int;
    lemma_header_round_trip(node);
    assert forall|i: int| 0 <= i < n implies #[trigger] stored_value(page, child_start(i))
        == children[i] by {
        assert forall|k: int| child_start(i) <= k < child_start(i) + PTR_SIZE implies page[k]
            == be_bytes(children[i] as nat, PTR_SIZE as nat)[k - child_start(i)] by {
            let at = k - INTERNAL_NODE_HEADER_SIZE;
            assert(at == i * PTR_SIZE + (k - child_start(i)));
            assert(at / PTR_SIZE as int == i);
            assert(at % PTR_SIZE as int == k - child_start(i));
        }
        lemma_stored_value(page, child_start(i), children[i]);
    }
    assert forall|j: int| 0 <= j < keys.len() implies #[trigger] stored_slot(
        page,
        key_start(n, j),
        KEY_SIZE as int,
    ) == slot_bytes(keys[j], KEY_SIZE as nat) by {
        assert(key_start(n, j) + KEY_SIZE <= key_start(n, keys.len() as int));
        assert forall|k: int| key_start(n, j) <= k < key_start(n, j) + KEY_SIZE implies page[k]
            == slot_bytes(keys[j], KEY_SIZE as nat)[k - key_start(n, j)] by {
            let at = k - child_start(n);
            assert(at == j * KEY_SIZE + (k - key_start(n, j)));
            assert(at / KEY_SIZE as int == j);
            assert(at % KEY_SIZE as int == k - key_start(n, j));
        }
        lemma_stored_text(page, key_start(n, j), KEY_SIZE as int, keys[j]);
    }
    assert forall|j: int| 0 <= j < keys.len() implies valid_utf8(
        #[trigger] stored_slot(page, key_start(n, j), KEY_SIZE as int),
    ) && slot_text(stored_slot(page, key_start(n, j), KEY_SIZE as int)) == trim_nul(keys[j]) by {
        lemma_slot_round_trip(keys[j], KEY_SIZE as nat);
    }
    let decoded = decoded_internal(page);
    let expected = trimmed(node).node_type;
    assert(decoded->Internal_0 =~= expected->Internal_0);
    assert(decoded->Internal_1 =~= expected->Internal_1);
}

/// A stored leaf is read back, each key and value without the NUL characters
/// at its end.
proof fn lemma_leaf_round_trip(node: NodeView)
    requires
        encodable(node),
        node.node_type is Leaf,
    ensures
        leaf_decode_error(node_bytes(node)) is None,
        decoded_leaf(node_bytes(node)) == trimmed(node).node_type,
{
    let page = node_bytes(node);
    let pairs = node.node_type->Leaf_0;
    let n = pairs.len() as int;
    lemma_header_round_trip(node);
    assert forall|i: int| 0 <= i < n implies #[trigger] stored_slot(
        page,
        pair_start(i),
        KEY_SIZE as int,
    ) == slot_bytes(pairs[i].0, KEY_SIZE as nat) by {
        assert(pair_start(i + 1) <= pair_start(n));
        assert forall|k: int| pair_start(i) <= k < pair_start(i) + KEY_SIZE implies page[k]
            == slot_bytes(pairs[i].0, KEY_SIZE as nat)[k - pair_start(i)] by {
            let at = k - LEAF_NODE_HEADER_SIZE;
            assert(at == i * (KEY_SIZE + VALUE_SIZE) + (k - pair_start(i)));
            assert(at / (KEY_SIZE + VALUE_SIZE) == i);
            assert(at % (KEY_SIZE + VALUE_SIZE) == k - pair_start(i));
        }
        lemma_stored_text(page, pair_start(i), KEY_SIZE as int, pairs[i].0);
    }
    assert forall|i: int| 0 <= i < n implies #[trigger] stored_slot(
        page,
        pair_start(i) + KEY_SIZE,
        VALUE_SIZE as int,
    ) == slot_bytes(pairs[i].1, VALUE_SIZE as nat) by {
        assert(pair_start(i + 1) <= pair_start(n));
        assert forall|k: int|
            pair_start(i) + KEY_SIZE <= k < pair_start(i + 1) implies page[k] == slot_bytes(
            pairs[i].1,
            VALUE_SIZE as nat,
        )[k - (pair_start(i) + KEY_SIZE)] by {
            let at = k - LEAF_NODE_HEADER_SIZE;
            assert(at == i * (KEY_SIZE + VALUE_SIZE) + (k - pair_start(i)));
            assert(at / (KEY_SIZE + VALUE_SIZE) == i);
            assert(at % (KEY_SIZE + VALUE_SIZE) == k - pair_start(i));
        }
        lemma_stored_text(page, pair_start(i) + KEY_SIZE, VALUE_SIZE as int, pairs[i].1);
    }
    assert forall|i: int| 0 <= i < n implies valid_utf8(
        #[trigger] stored_slot(page, pair_start(i), KEY_SIZE as int),
    ) && slot_text(stored_slot(page, pair_start(i), KEY_SIZE as int)) == trim_nul(pairs[i].0) by {
        lemma_slot_round_trip(pairs[i].0, KEY_SIZE as nat);
    }
    assert forall|i: int| 0 <= i < n implies valid_utf8(
        #[trigger] stored_slot(page, pair_start(i) + KEY_SIZE, VALUE_SIZE as int),
    ) && slot_text(stored_slot(page, pair_start(i) + KEY_SIZE, VALUE_SIZE as int)) == trim_nul(
        pairs[i].1,
    ) by {
        lemma_slot_round_trip(pairs[i].1, VALUE_SIZE as nat);
    }
    assert(decoded_leaf(page)->Leaf_0 =~= trimmed(node).node_type->Leaf_0);
}

/// Reading the page that stores a well-formed node succeeds and gives the node
/// back, each key and value without the NUL characters at its end.
pub proof fn lemma_round_trip(node: NodeView)
    requires
        well_formed(node),
        encodable(node),
    ensures
        decode_error(node_bytes(node)) is None,
        decoded_node(node_bytes(node)) == trimmed(node),
{
    lemma_header_round_trip(node);
    if node.node_type is Internal {
        lemma_internal_round_trip(node);
    } else {
        lemma_leaf_round_trip(node);
    }
}

/// Reading the page that stores a well-formed node whose texts end in no NUL
/// character gives the very node back.
pub proof fn lemma_round_trip_exact(node: NodeView)
    requires
        well_formed(node),
        encodable(node),
        texts_end_clean(node),
    ensures
        decode_error(node_bytes(node)) is None,
        decoded_node(node_bytes(node)) == node,
{
    lemma_round_trip(node);
    match node.node_type {
        NodeTypeView::Internal(children, keys) => {
            assert(keys.map_values(|key: Seq<char>| trim_nul(key)) =~= keys);
        },
        NodeTypeView::Leaf(pairs) => {
            assert(pairs.map_values(
                |pair: (Seq<char>, Seq<char>)| (trim_nul(pair.0), trim_nul(pair.1)),
            ) =~= pairs);
        },
        NodeTypeView::Unspecified => {},
    }
}

} // verus!
