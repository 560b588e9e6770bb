//! A node of the tree, as the tree algorithms hold it in memory.
use crate::error::Error;
use crate::format::{
    child_start, decode_error, decoded_internal, decoded_leaf, decoded_node,
    internal_decode_error, key_count, key_start, leaf_decode_error, pair_start, stored_count,
    stored_slot, stored_value,
};
use crate::node_type::{
    children_view, keys_view, pairs_view, Key, KeyValuePair, NodeType, NodeTypeView, Offset,
};
use crate::page::Page;
use crate::page_layout::{
    INTERNAL_NODE_HEADER_SIZE, INTERNAL_NODE_NUM_CHILDREN_OFFSET, IS_ROOT_OFFSET, KEY_SIZE,
    LEAF_NODE_HEADER_SIZE, LEAF_NODE_NUM_PAIRS_OFFSET, NODE_TYPE_OFFSET, PAGE_SIZE,
    PARENT_POINTER_OFFSET, PTR_SIZE, VALUE_SIZE,
};
use crate::slot::{read_text, slot_text};
use vstd::prelude::*;
use vstd::std_specs::convert::TryFromSpecImpl;
use vstd::utf8::valid_utf8;

verus! {

/// A node: what it holds, whether it is the root, and where its parent is.
///
/// A root has no parent; every other node is expected to name one.
#[derive(Clone, Debug)]
pub struct Node {
    pub node_type: NodeType,
    pub is_root: bool,
    pub parent_offset: Option<Offset>,
}

/// A node as mathematical values.
pub struct NodeView {
    pub node_type: NodeTypeView,
    pub is_root: bool,
    pub parent_offset: Option<usize>,
}

impl View for Node {
    type V = NodeView;

    open spec fn view(&self) -> NodeView {
        NodeView {
            node_type: self.node_type@,
            is_root: self.is_root,
            parent_offset: match self.parent_offset {
                Some(offset) => Some(offset@),
                None => None,
            },
        }
    }
}

impl Node {
    /// The node with these parts. Nothing is checked: a node that is not the
    /// root and has no parent can be made, and cannot be stored.
    pub fn new(node_type: NodeType, is_root: bool, parent_offset: Option<Offset>) -> (node: Node)
        ensures
            node.node_type == node_type,
            node.is_root == is_root,
            node.parent_offset == parent_offset,
    {
        Node { node_type, is_root, parent_offset }
    }
}

/// Reads the children and keys of an internal node into the empty vectors
/// `children` and `keys`.
fn read_internal(page: &Page, children: Vec<Offset>, keys: Vec<Key>) -> (r: Result<
    NodeType,
    Error,
>)
    requires
        children@.len() == 0,
        keys@.len() == 0,
    ensures
        match r {
            Ok(node_type) => internal_decode_error(page@) is None && node_type@
                == decoded_internal(page@),
            Err(e) => internal_decode_error(page@) == Some(e),
        },
{
    let mut children = children;
    let mut keys = keys;
    let n = match page.get_value_from_offset(INTERNAL_NODE_NUM_CHILDREN_OFFSET) {
        Ok(n) => n,
        Err(e) => {
            return Err(e);
        },
    };
    let mut page_offset: usize = INTERNAL_NODE_HEADER_SIZE;
    let mut i: usize = 0;
    while i < n
        invariant
            i <= n == stored_count(page@),
            page_offset == child_start(i as int) <= PAGE_SIZE,
            children@.len() == i,
            forall|l: int|
                0 <= l < i ==> (#[trigger] children@[l]).0 == stored_value(page@, child_start(l)),
        decreases n - i,
    {
        match page.get_value_from_offset(page_offset) {
            Ok(child) => {
                children.push(Offset(child));
            },
            Err(e) => {
                assert(child_start(n as int) > PAGE_SIZE || stored_value(
                    page@,
                    child_start(i as int),
                ) > usize::MAX);
                return Err(e);
            },
        }
        page_offset = page_offset + PTR_SIZE;
        i = i + 1;
    }
    let m = if n == 0 {
        0
    } else {
        n - 1
    };
    let mut j: usize = 0;
    while j < m
        invariant
            n == stored_count(page@),
            j <= m == key_count(n as int),
            page_offset == key_start(n as int, j as int) <= PAGE_SIZE,
            children@.len() == n,
            forall|l: int|
                0 <= l < n ==> (#[trigger] children@[l]).0 == stored_value(page@, child_start(l)),
            keys@.len() == j,
            forall|l: int|
                0 <= l < j ==> valid_utf8(
                    #[trigger] stored_slot(page@, key_start(n as int, l), KEY_SIZE as int),
                ),
            forall|l: int|
                0 <= l < j ==> (#[trigger] keys@[l])@ == slot_text(
                    stored_slot(page@, key_start(n as int, l), KEY_SIZE as int),
                ),
        decreases m - j,
    {
        let slot = match page.get_ptr_from_offset(page_offset, KEY_SIZE) {
            Ok(slot) => slot,
            Err(e) => {
                assert(key_start(n as int, m as int) > PAGE_SIZE);
                assert forall|l: int|
                    0 <= l < m && key_start(n as int, l) + KEY_SIZE <= PAGE_SIZE implies valid_utf8(
                    #[trigger] stored_slot(page@, key_start(n as int, l), KEY_SIZE as int),
                ) by {
                    assert(l < j);
                }
                assert forall|l: int| 0 <= l < n implies #[trigger] stored_value(
                    page@,
                    child_start(l),
                ) <= usize::MAX by {
                    assert(children@[l].0 == stored_value(page@, child_start(l)));
                }
                return Err(e);
            },
        };
        match read_text(slot) {
            Ok(text) => {
                keys.push(Key(text));
            },
            Err(e) => {
                assert(!valid_utf8(
                    stored_slot(page@, key_start(n as int, j as int), KEY_SIZE as int),
                ));
                assert forall|l: int| 0 <= l < n implies #[trigger] stored_value(
                    page@,
                    child_start(l),
                ) <= usize::MAX by {
                    assert(children@[l].0 == stored_value(page@, child_start(l)));
                }
                return Err(e);
            },
        }
        page_offset = page_offset + KEY_SIZE;
        j = j + 1;
    }
    let node_type = NodeType::Internal(children, keys);
    proof {
        let decoded = decoded_internal(page@);
        assert forall|l: int| 0 <= l < n implies #[trigger] stored_value(page@, child_start(l))
            <= usize::MAX by {
            assert(children@[l].0 == stored_value(page@, child_start(l)));
        }
        assert(children_view(children@) =~= decoded->Internal_0);
        assert(keys_view(keys@) =~= decoded->Internal_1);
    }
    Ok(node_type)
}

/// Reads the pairs of a leaf into the empty vector `pairs`.
fn read_leaf(page: &Page, pairs: Vec<KeyValuePair>) -> (r: Result<NodeType, Error>)
    requires
        pairs@.len() == 0,
    ensures
        match r {
            Ok(node_type) => leaf_decode_error(page@) is None && node_type@ == decoded_leaf(
                page@,
            ),
            Err(e) => leaf_decode_error(page@) == Some(e),
        },
{
    let mut pairs = pairs;
    let n = match page.get_value_from_offset(LEAF_NODE_NUM_PAIRS_OFFSET) {
        Ok(n) => n,
        Err(e) => {
            return Err(e);
        },
    };
    let mut page_offset: usize = LEAF_NODE_HEADER_SIZE;
    let mut i: usize = 0;
    while i < n
        invariant
            i <= n == stored_count(page@),
            page_offset == pair_start(i as int) <= PAGE_SIZE,
            pairs@.len() == i,
            forall|l: int|
                0 <= l < i ==> valid_utf8(
                    #[trigger] stored_slot(page@, pair_start(l), KEY_SIZE as int),
                ),
            forall|l: int|
                0 <= l < i ==> valid_utf8(
                    #[trigger] stored_slot(page@, pair_start(l) + KEY_SIZE, VALUE_SIZE as int),
                ),
            forall|l: int|
                0 <= l < i ==> (#[trigger] pairs@[l])@ == (
                    slot_text(stored_slot(page@, pair_start(l), KEY_SIZE as int)),
                    slot_text(stored_slot(page@, pair_start(l) + KEY_SIZE, VALUE_SIZE as int)),
                ),
        decreases n - i,
    {
        let key_slot = match page.get_ptr_from_offset(page_offset, KEY_SIZE) {
            Ok(slot) => slot,
            Err(e) => {
                proof {
                    lemma_leaf_too_small(page@, i as int, false);
                }
                return Err(e);
            },
        };
        let key = match read_text(key_slot) {
            Ok(text) => text,
            Err(e) => {
                assert(!valid_utf8(stored_slot(page@, pair_start(i as int), KEY_SIZE as int)));
                return Err(e);
            },
        };
        let value_slot = match page.get_ptr_from_offset(page_offset + KEY_SIZE, VALUE_SIZE) {
            Ok(slot) => slot,
            Err(e) => {
                proof {
                    lemma_leaf_too_small(page@, i as int, true);
                }
                return Err(e);
            },
        };
        let value = match read_text(value_slot) {
            Ok(text) => text,
            Err(e) => {
                assert(!valid_utf8(
                    stored_slot(page@, pair_start(i as int) + KEY_SIZE, VALUE_SIZE as int),
                ));
                return Err(e);
            },
        };
        pairs.push(KeyValuePair::new(key, value));
        page_offset = page_offset + KEY_SIZE + VALUE_SIZE;
        i = i + 1;
    }
    let node_type = NodeType::Leaf(pairs);
    proof {
        assert(pairs_view(pairs@) =~= decoded_leaf(page@)->Leaf_0);
    }
    Ok(node_type)
}

/// A page whose first `i` pairs are valid UTF-8, and whose pair `i` does not
/// lie within it, is too small for its pairs and nothing else: where
/// `key_read` is set, the key slot of pair `i` is valid and only its value
/// slot reaches past the page.
proof fn lemma_leaf_too_small(page: Seq<u8>, i: int, key_read: bool)
    requires
        0 <= i < stored_count(page) <= usize::MAX,
        pair_start(i) <= PAGE_SIZE,
        forall|l: int|
            0 <= l < i ==> valid_utf8(#[trigger] stored_slot(page, pair_start(l), KEY_SIZE as int)),
        forall|l: int|
            0 <= l < i ==> valid_utf8(
                #[trigger] stored_slot(page, pair_start(l) + KEY_SIZE, VALUE_SIZE as int),
            ),
        if key_read {
            valid_utf8(stored_slot(page, pair_start(i), KEY_SIZE as int)) && pair_start(i + 1)
                > PAGE_SIZE
        } else {
            pair_start(i) + KEY_SIZE > PAGE_SIZE
        },
    ensures
        leaf_decode_error(page) == Some(Error::OutOfBounds),
{
    let n = stored_count(page) as int;
    assert(pair_start(n) >= pair_start(i + 1));
    assert forall|l: int| 0 <= l < n && pair_start(l) + KEY_SIZE <= PAGE_SIZE implies valid_utf8(
        #[trigger] stored_slot(page, pair_start(l), KEY_SIZE as int),
    ) by {
        assert(l <= i);
    }
    assert forall|l: int| 0 <= l < n && pair_start(l + 1) <= PAGE_SIZE implies valid_utf8(
        #[trigger] stored_slot(page, pair_start(l) + KEY_SIZE, VALUE_SIZE as int),
    ) by {
        assert(l < i);
    }
}

impl TryFromSpecImpl<Page> for Node {
    /// The result holds vectors and strings, which no spec function can build:
    /// the contract of `try_from` speaks of its view instead.
    open spec fn obeys_try_from_spec() -> bool {
        false
    }

    open spec fn try_from_spec(page: Page) -> Result<Node, Error> {
        arbitrary()
    }
}

impl TryFrom<Page> for Node {
    type Error = Error;

    /// The node that `page` stores.
    ///
    /// Fails as `decode_error` says, and only then. What the page holds is not
    /// checked any further: an internal node is returned with the number of
    /// children that the page names and one key fewer.
    fn try_from(page: Page) -> (r: Result<Node, Error>)
        ensures
            match r {
                Ok(node) => decode_error(page@) is None && node@ == decoded_node(page@),
                Err(e) => decode_error(page@) == Some(e),
            },
    {
        let raw = page.get_data();
        proof {
            page.lemma_len();
        }
        let is_root = raw[IS_ROOT_OFFSET] != 0;
        let shell = NodeType::from(raw[NODE_TYPE_OFFSET]);
        if let NodeType::Unspecified = shell {
            return Err(Error::InvalidNodeType);
        }
        let parent_offset = if is_root {
            None
        } else {
            match page.get_value_from_offset(PARENT_POINTER_OFFSET) {
                Ok(parent) => Some(Offset(parent)),
                Err(e) => {
                    return Err(e);
                },
            }
        };
        let node_type = match shell {
            NodeType::Internal(children, keys) => {
                assert(children_view(children@).len() == 0 && keys_view(keys@).len() == 0);
                match read_internal(&page, children, keys) {
                    Ok(node_type) => node_type,
                    Err(e) => {
                        return Err(e);
                    },
                }
            },
            NodeType::Leaf(pairs) => {
                assert(pairs_view(pairs@).len() == 0);
                match read_leaf(&page, pairs) {
                    Ok(node_type) => node_type,
                    Err(e) => {
                        return Err(e);
                    },
                }
            },
            NodeType::Unspecified => {
                return Err(Error::InvalidNodeType);
            },
        };
        Ok(Node::new(node_type, is_root, parent_offset))
    }
}

} // verus!
