//! The page format: which bytes a node is stored as, and which node a page
//! stores.
//!
//! | field                  | offset                    | size                |
//! |------------------------|---------------------------|---------------------|
//! | is-root flag           | 0                         | 1                   |
//! | node type tag          | 1                         | 1                   |
//! | parent offset          | 2                         | `PTR_SIZE`          |
//! | number of items        | 2 + `PTR_SIZE`            | `PTR_SIZE`          |
//! | internal: children     | 2 + 2 * `PTR_SIZE`        | `PTR_SIZE` each     |
//! | internal: keys         | after the children        | `KEY_SIZE` each     |
//! | leaf: key, value pairs | 2 + 2 * `PTR_SIZE`        | `KEY_SIZE + VALUE_SIZE` each |
//!
//! Everything here is specification: the functions that write and read pages
//! are held to it.
use crate::endian::{be_bytes, be_value};
use crate::error::Error;
use crate::node::NodeView;
use crate::node_type::{tag_of_node_type, NodeTypeView, INTERNAL_TAG, LEAF_TAG};
use crate::page_layout::{
    COMMON_NODE_HEADER_SIZE, INTERNAL_NODE_HEADER_SIZE, INTERNAL_NODE_NUM_CHILDREN_OFFSET,
    IS_ROOT_OFFSET, KEY_SIZE, LEAF_NODE_HEADER_SIZE, LEAF_NODE_NUM_PAIRS_OFFSET, NODE_TYPE_OFFSET,
    PAGE_SIZE, PARENT_POINTER_OFFSET, PTR_SIZE, VALUE_SIZE,
};
use crate::slot::{slot_bytes, slot_text, text_len};
use vstd::prelude::*;
use vstd::utf8::valid_utf8;

verus! {

/// Width of a pair of a leaf: a key slot and a value slot.
pub open spec fn pair_size() -> int {
    KEY_SIZE + VALUE_SIZE
}

/// Where child `i` of an internal node starts.
pub open spec fn child_start(i: int) -> int {
    INTERNAL_NODE_HEADER_SIZE + i * PTR_SIZE
}

/// Where key `j` of an internal node with `children` children starts.
pub open spec fn key_start(children: int, j: int) -> int {
    child_start(children) + j * KEY_SIZE
}

/// Where pair `i` of a leaf starts: its key slot, which its value slot
/// follows.
pub open spec fn pair_start(i: int) -> int {
    LEAF_NODE_HEADER_SIZE + i * pair_size()
}

/// The number of keys that an internal node with `children` children is read
/// with: one fewer, and none where it has no child.
pub open spec fn key_count(children: int) -> int {
    if children <= 0 {
        0
    } else {
        children - 1
    }
}

/// The key of every one of the first `n` pairs fits a key slot, and its value a
/// value slot.
pub open spec fn texts_fit(pairs: Seq<(Seq<char>, Seq<char>)>, n: int) -> bool {
    forall|j: int|
        0 <= j < n && j < pairs.len() ==> text_len((#[trigger] pairs[j]).0) <= KEY_SIZE
            && text_len(pairs[j].1) <= VALUE_SIZE
}

/// Why an internal node cannot be stored, if it cannot.
///
/// The children are written first, then the keys in order, each key checked
/// before it is written: a key that is too long is reported where the writing
/// gets as far as that key, and otherwise the node may be too large for the
/// page.
pub open spec fn internal_encode_error(children: Seq<usize>, keys: Seq<Seq<char>>) -> Option<
    Error,
> {
    if exists|j: int|
        0 <= j < keys.len() && key_start(children.len() as int, j) <= PAGE_SIZE && text_len(
            #[trigger] keys[j],
        ) > KEY_SIZE {
        Some(Error::KeyTooLong)
    } else if key_start(children.len() as int, keys.len() as int) > PAGE_SIZE {
        Some(Error::OutOfBounds)
    } else {
        None
    }
}

/// Why a leaf cannot be stored, if it cannot.
///
/// The pairs are written in order, the key of each before its value, each text
/// checked before it is written: the first text that is too long is reported
/// where the writing gets as far as that text, and otherwise the leaf may be
/// too large for the page.
pub open spec fn leaf_encode_error(pairs: Seq<(Seq<char>, Seq<char>)>) -> Option<Error> {
    if exists|i: int|
        0 <= i < pairs.len() && texts_fit(pairs, i) && pair_start(i) <= PAGE_SIZE && text_len(
            (#[trigger] pairs[i]).0,
        ) > KEY_SIZE {
        Some(Error::KeyTooLong)
    } else if exists|i: int|
        0 <= i < pairs.len() && texts_fit(pairs, i) && pair_start(i) + KEY_SIZE <= PAGE_SIZE
            && text_len((#[trigger] pairs[i]).0) <= KEY_SIZE && text_len(pairs[i].1) > VALUE_SIZE {
        Some(Error::ValueTooLong)
    } else if pair_start(pairs.len() as int) > PAGE_SIZE {
        Some(Error::OutOfBounds)
    } else {
        None
    }
}

/// Why a node cannot be stored, if it cannot.
///
/// A root needs no parent offset, and one that it carries is ignored.
pub open spec fn encode_error(node: NodeView) -> Option<Error> {
    if !node.is_root && node.parent_offset is None {
        Some(Error::MissingParentOffset)
    } else {
        match node.node_type {
            NodeTypeView::Internal(children, keys) => internal_encode_error(children, keys),
            NodeTypeView::Leaf(pairs) => leaf_encode_error(pairs),
            NodeTypeView::Unspecified => Some(Error::InvalidNodeType),
        }
    }
}

/// Byte `k` of the common header of a stored node.
pub open spec fn header_byte(node: NodeView, k: int) -> u8 {
    if k == IS_ROOT_OFFSET {
        if node.is_root {
            1
        } else {
            0
        }
    } else if k == NODE_TYPE_OFFSET {
        tag_of_node_type(node.node_type)
    } else if node.is_root {
        0
    } else {
        be_bytes(node.parent_offset.unwrap() as nat, PTR_SIZE as nat)[k - PARENT_POINTER_OFFSET]
    }
}

/// Byte `k` of a stored internal node, behind the common header.
pub open spec fn internal_byte(children: Seq<usize>, keys: Seq<Seq<char>>, k: int) -> u8 {
    let keys_at = child_start(children.len() as int);
    if k < INTERNAL_NODE_HEADER_SIZE {
        be_bytes(children.len(), PTR_SIZE as nat)[k - INTERNAL_NODE_NUM_CHILDREN_OFFSET]
    } else if k < keys_at {
        let at = k - INTERNAL_NODE_HEADER_SIZE;
        be_bytes(children[at / PTR_SIZE as int] as nat, PTR_SIZE as nat)[at % PTR_SIZE as int]
    } else if k < keys_at + keys.len() * KEY_SIZE {
        let at = k - keys_at;
        slot_bytes(keys[at / KEY_SIZE as int], KEY_SIZE as nat)[at % KEY_SIZE as int]
    } else {
        0
    }
}

/// Byte `k` of a stored leaf, behind the common header.
pub open spec fn leaf_byte(pairs: Seq<(Seq<char>, Seq<char>)>, k: int) -> u8 {
    if k < LEAF_NODE_HEADER_SIZE {
        be_bytes(pairs.len(), PTR_SIZE as nat)[k - LEAF_NODE_NUM_PAIRS_OFFSET]
    } else if k < pair_start(pairs.len() as int) {
        let at = k - LEAF_NODE_HEADER_SIZE;
        let pair = pairs[at / pair_size()];
        let within = at % pair_size();
        if within < KEY_SIZE {
            slot_bytes(pair.0, KEY_SIZE as nat)[within]
        } else {
            slot_bytes(pair.1, VALUE_SIZE as nat)[within - KEY_SIZE]
        }
    } else {
        0
    }
}

/// Byte `k` of the page that stores `node`.
pub open spec fn node_byte(node: NodeView, k: int) -> u8 {
    if k < COMMON_NODE_HEADER_SIZE {
        header_byte(node, k)
    } else {
        match node.node_type {
            NodeTypeView::Internal(children, keys) => internal_byte(children, keys, k),
            NodeTypeView::Leaf(pairs) => leaf_byte(pairs, k),
            NodeTypeView::Unspecified => 0,
        }
    }
}

/// The page that stores `node`, where `encode_error(node)` is `None`.
pub open spec fn node_bytes(node: NodeView) -> Seq<u8> {
    Seq::new(PAGE_SIZE as nat, |k: int| node_byte(node, k))
}

/// The integer stored in the `PTR_SIZE` bytes of `page` at `at`.
pub open spec fn stored_value(page: Seq<u8>, at: int) -> nat {
    be_value(page.subrange(at, at + PTR_SIZE))
}

/// The slot of `width` bytes of `page` at `at`.
pub open spec fn stored_slot(page: Seq<u8>, at: int, width: int) -> Seq<u8> {
    page.subrange(at, at + width)
}

/// The number of items that `page` says it holds.
pub open spec fn stored_count(page: Seq<u8>) -> nat {
    stored_value(page, INTERNAL_NODE_NUM_CHILDREN_OFFSET as int)
}

/// Why a page that carries the tag of an internal node cannot be read, if it
/// cannot.
///
/// The children are read first, then the keys in order: a key slot that is not
/// valid UTF-8 is reported where it lies within the page, and otherwise the
/// page may be too small for the number of children that it names. A child
/// above `usize::MAX` cannot be held, and is reported like a read past the
/// page.
pub open spec fn internal_decode_error(page: Seq<u8>) -> Option<Error> {
    let n = stored_count(page) as int;
    if child_start(n) > PAGE_SIZE || exists|i: int|
        0 <= i < n && #[trigger] stored_value(page, child_start(i)) > usize::MAX {
        Some(Error::OutOfBounds)
    } else if exists|j: int|
        0 <= j < key_count(n) && key_start(n, j) + KEY_SIZE <= PAGE_SIZE && !valid_utf8(
            #[trigger] stored_slot(page, key_start(n, j), KEY_SIZE as int),
        ) {
        Some(Error::Utf8DecodeError)
    } else if key_start(n, key_count(n)) > PAGE_SIZE {
        Some(Error::OutOfBounds)
    } else {
        None
    }
}

/// Why a page that carries the tag of a leaf cannot be read, if it cannot.
///
/// The pairs are read in order: a slot that is not valid UTF-8 is reported
/// where it lies within the page, and otherwise the page may be too small for
/// the number of pairs that it names. A number of pairs above `usize::MAX`
/// cannot be held, and is reported like a read past the page.
pub open spec fn leaf_decode_error(page: Seq<u8>) -> Option<Error> {
    let n = stored_count(page) as int;
    if n > usize::MAX {
        Some(Error::OutOfBounds)
    } else if exists|i: int|
        0 <= i < n && pair_start(i) + KEY_SIZE <= PAGE_SIZE && !valid_utf8(
            #[trigger] stored_slot(page, pair_start(i), KEY_SIZE as int),
        ) {
        Some(Error::Utf8DecodeError)
    } else if exists|i: int|
        0 <= i < n && pair_start(i + 1) <= PAGE_SIZE && !valid_utf8(
            #[trigger] stored_slot(page, pair_start(i) + KEY_SIZE, VALUE_SIZE as int),
        ) {
        Some(Error::Utf8DecodeError)
    } else if pair_start(n) > PAGE_SIZE {
        Some(Error::OutOfBounds)
    } else {
        None
    }
}

/// Whether `page` says that it stores the root.
pub open spec fn stored_is_root(page: Seq<u8>) -> bool {
    page[IS_ROOT_OFFSET as int] != 0
}

/// Why a page cannot be read as a node, if it cannot.
///
/// An unknown type tag is reported before anything else is read. A parent
/// offset above `usize::MAX` cannot be held, and is reported like a read past
/// the page.
pub open spec fn decode_error(page: Seq<u8>) -> Option<Error> {
    let tag = page[NODE_TYPE_OFFSET as int];
    if tag != INTERNAL_TAG && tag != LEAF_TAG {
        Some(Error::InvalidNodeType)
    } else if !stored_is_root(page) && stored_value(page, PARENT_POINTER_OFFSET as int)
        > usize::MAX {
        Some(Error::OutOfBounds)
    } else if tag == INTERNAL_TAG {
        internal_decode_error(page)
    } else {
        leaf_decode_error(page)
    }
}

/// The children and keys that `page` stores, where it stores an internal
/// node.
pub open spec fn decoded_internal(page: Seq<u8>) -> NodeTypeView {
    let n = stored_count(page) as int;
    NodeTypeView::Internal(
        Seq::new(n as nat, |i: int| stored_value(page, child_start(i)) as usize),
        Seq::new(
            key_count(n) as nat,
            |j: int| slot_text(stored_slot(page, key_start(n, j), KEY_SIZE as int)),
        ),
    )
}

/// The pairs that `page` stores, where it stores a leaf.
pub open spec fn decoded_leaf(page: Seq<u8>) -> NodeTypeView {
    NodeTypeView::Leaf(
        Seq::new(
            stored_count(page),
            |i: int|
                (
                    slot_text(stored_slot(page, pair_start(i), KEY_SIZE as int)),
                    slot_text(stored_slot(page, pair_start(i) + KEY_SIZE, VALUE_SIZE as int)),
                ),
        ),
    )
}

/// What the node that `page` stores holds, where `decode_error(page)` is
/// `None`.
pub open spec fn decoded_node_type(page: Seq<u8>) -> NodeTypeView {
    if page[NODE_TYPE_OFFSET as int] == INTERNAL_TAG {
        decoded_internal(page)
    } else {
        decoded_leaf(page)
    }
}

/// The node that `page` stores, where `decode_error(page)` is `None`.
///
/// A root has no parent, whatever the bytes of the parent field are.
pub open spec fn decoded_node(page: Seq<u8>) -> NodeView {
    NodeView {
        node_type: decoded_node_type(page),
        is_root: stored_is_root(page),
        parent_offset: if stored_is_root(page) {
            None
        } else {
            Some(stored_value(page, PARENT_POINTER_OFFSET as int) as usize)
        },
    }
}

} // verus!
