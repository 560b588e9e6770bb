//! The values that a node is made of: offsets, keys, pairs and the node type.
use crate::endian::{be_value, from_be_bytes, zeros};
use crate::error::Error;
use crate::order::{compare_bytes, text_order};
use crate::page_layout::PTR_SIZE;
use core::cmp::Ordering;
use vstd::prelude::*;
use vstd::std_specs::cmp::{PartialEqSpecImpl, PartialOrdSpecImpl};
use vstd::std_specs::convert::{FromSpecImpl, TryFromSpecImpl};

verus! {

/// The tag byte of an internal node.
pub const INTERNAL_TAG: u8 = 0x01;

/// The tag byte of a leaf.
pub const LEAF_TAG: u8 = 0x02;

/// The tag byte of the `Unspecified` sentinel.
pub const UNSPECIFIED_TAG: u8 = 0x03;

/// The position of a page in the backing store.
#[derive(Clone, Debug, PartialEq, Eq, Structural)]
pub struct Offset(pub usize);

impl View for Offset {
    type V = usize;

    open spec fn view(&self) -> usize {
        self.0
    }
}

impl TryFromSpecImpl<[u8; PTR_SIZE]> for Offset {
    open spec fn obeys_try_from_spec() -> bool {
        true
    }

    /// The offset that `arr` spells big-endian, unless it is above
    /// `usize::MAX`.
    open spec fn try_from_spec(arr: [u8; PTR_SIZE]) -> Result<Offset, Error> {
        if be_value(arr@) <= usize::MAX {
            Ok(Offset(be_value(arr@) as usize))
        } else {
            Err(Error::OutOfBounds)
        }
    }
}

impl TryFrom<[u8; PTR_SIZE]> for Offset {
    type Error = Error;

    fn try_from(arr: [u8; PTR_SIZE]) -> (r: Result<Offset, Error>) {
        assert(arr@ + zeros(0) =~= arr@);
        match from_be_bytes(arr.as_slice()) {
            Some(value) => Ok(Offset(value)),
            None => Err(Error::OutOfBounds),
        }
    }
}

/// A separator between two children of an internal node.
///
/// Keys are equal where their texts are, and ordered as their texts are.
#[derive(Clone, Debug, Eq, Ord)]
pub struct Key(pub String);

impl View for Key {
    type V = Seq<char>;

    open spec fn view(&self) -> Seq<char> {
        self.0@
    }
}

impl PartialEqSpecImpl for Key {
    open spec fn obeys_eq_spec() -> bool {
        true
    }

    open spec fn eq_spec(&self, other: &Key) -> bool {
        self@ == other@
    }
}

impl PartialEq for Key {
    fn eq(&self, other: &Key) -> (r: bool) {
        self.0 == other.0
    }
}

impl PartialOrdSpecImpl for Key {
    open spec fn obeys_partial_cmp_spec() -> bool {
        true
    }

    open spec fn partial_cmp_spec(&self, other: &Key) -> Option<Ordering> {
        Some(text_order(self@, other@))
    }
}

impl PartialOrd for Key {
    fn partial_cmp(&self, other: &Key) -> (r: Option<Ordering>) {
        Some(compare_bytes(self.0.as_str().as_bytes(), other.0.as_str().as_bytes()))
    }
}

/// A key and the value stored under it.
///
/// Pairs are equal where both their keys and their values are, and ordered by
/// their keys alone.
#[derive(Clone, Debug, Eq)]
pub struct KeyValuePair {
    pub key: String,
    pub value: String,
}

impl View for KeyValuePair {
    type V = (Seq<char>, Seq<char>);

    open spec fn view(&self) -> (Seq<char>, Seq<char>) {
        (self.key@, self.value@)
    }
}

impl PartialEqSpecImpl for KeyValuePair {
    open spec fn obeys_eq_spec() -> bool {
        true
    }

    open spec fn eq_spec(&self, other: &KeyValuePair) -> bool {
        self@ == other@
    }
}

impl PartialEq for KeyValuePair {
    fn eq(&self, other: &KeyValuePair) -> (r: bool) {
        self.key == other.key && self.value == other.value
    }
}

impl PartialOrdSpecImpl for KeyValuePair {
    open spec fn obeys_partial_cmp_spec() -> bool {
        true
    }

    open spec fn partial_cmp_spec(&self, other: &KeyValuePair) -> Option<Ordering> {
        Some(text_order(self.key@, other.key@))
    }
}

impl PartialOrd for KeyValuePair {
    fn partial_cmp(&self, other: &KeyValuePair) -> (r: Option<Ordering>) {
        Some(compare_bytes(self.key.as_str().as_bytes(), other.key.as_str().as_bytes()))
    }
}

impl KeyValuePair {
    /// The pair of `key` and `value`.
    pub fn new(key: String, value: String) -> (pair: KeyValuePair)
        ensures
            pair.key == key,
            pair.value == value,
    {
        KeyValuePair { key, value }
    }
}

/// What a node holds, by its type.
///
/// Node types are equal where they are of one kind and hold equal items in
/// the same order.
#[derive(Clone, Debug, Eq)]
pub enum NodeType {
    /// Child offsets, and the keys that separate them: one key fewer than
    /// children.
    Internal(Vec<Offset>, Vec<Key>),
    /// Key-value pairs.
    Leaf(Vec<KeyValuePair>),
    /// No valid type: what an unknown tag byte stands for.
    Unspecified,
}

/// The contents of a `NodeType` as mathematical values.
pub enum NodeTypeView {
    Internal(Seq<usize>, Seq<Seq<char>>),
    Leaf(Seq<(Seq<char>, Seq<char>)>),
    Unspecified,
}

/// The positions that `children` name.
pub open spec fn children_view(children: Seq<Offset>) -> Seq<usize> {
    children.map_values(|child: Offset| child@)
}

/// The texts of `keys`.
pub open spec fn keys_view(keys: Seq<Key>) -> Seq<Seq<char>> {
    keys.map_values(|key: Key| key@)
}

/// The texts of `pairs`: of each its key and its value.
pub open spec fn pairs_view(pairs: Seq<KeyValuePair>) -> Seq<(Seq<char>, Seq<char>)> {
    pairs.map_values(|pair: KeyValuePair| pair@)
}

impl View for NodeType {
    type V = NodeTypeView;

    open spec fn view(&self) -> NodeTypeView {
        match self {
            NodeType::Internal(children, keys) => NodeTypeView::Internal(
                children_view(children@),
                keys_view(keys@),
            ),
            NodeType::Leaf(pairs) => NodeTypeView::Leaf(pairs_view(pairs@)),
            NodeType::Unspecified => NodeTypeView::Unspecified,
        }
    }
}

/// Whether `a` and `b` name the same positions in the same order.
fn same_children(a: &Vec<Offset>, b: &Vec<Offset>) -> (r: bool)
    ensures
        r == (children_view(a@) == children_view(b@)),
{
    if a.len() != b.len() {
        assert(children_view(a@).len() != children_view(b@).len());
        return false;
    }
    let mut i: usize = 0;
    while i < a.len()
        invariant
            i <= a@.len() == b@.len(),
            forall|l: int| 0 <= l < i ==> (#[trigger] a@[l])@ == b@[l]@,
        decreases a@.len() - i,
    {
        if a[i].0 != b[i].0 {
            assert(children_view(a@)[i as int] != children_view(b@)[i as int]);
            return false;
        }
        i = i + 1;
    }
    assert(children_view(a@) =~= children_view(b@));
    true
}

/// Whether `a` and `b` hold the same texts in the same order.
fn same_keys(a: &Vec<Key>, b: &Vec<Key>) -> (r: bool)
    ensures
        r == (keys_view(a@) == keys_view(b@)),
{
    if a.len() != b.len() {
        assert(keys_view(a@).len() != keys_view(b@).len());
        return false;
    }
    let mut i: usize = 0;
    while i < a.len()
        invariant
            i <= a@.len() == b@.len(),
            forall|l: int| 0 <= l < i ==> (#[trigger] a@[l])@ == b@[l]@,
        decreases a@.len() - i,
    {
        if !(a[i] == b[i]) {
            assert(keys_view(a@)[i as int] != keys_view(b@)[i as int]);
            return false;
        }
        i = i + 1;
    }
    assert(keys_view(a@) =~= keys_view(b@));
    true
}

/// Whether `a` and `b` hold the same keys and values in the same order.
fn same_pairs(a: &Vec<KeyValuePair>, b: &Vec<KeyValuePair>) -> (r: bool)
    ensures
        r == (pairs_view(a@) == pairs_view(b@)),
{
    if a.len() != b.len() {
        assert(pairs_view(a@).len() != pairs_view(b@).len());
        return false;
    }
    let mut i: usize = 0;
    while i < a.len()
        invariant
            i <= a@.len() == b@.len(),
            forall|l: int| 0 <= l < i ==> (#[trigger] a@[l])@ == b@[l]@,
        decreases a@.len() - i,
    {
        if !(a[i] == b[i]) {
            assert(pairs_view(a@)[i as int] != pairs_view(b@)[i as int]);
            return false;
        }
        i = i + 1;
    }
    assert(pairs_view(a@) =~= pairs_view(b@));
    true
}

impl PartialEqSpecImpl for NodeType {
    open spec fn obeys_eq_spec() -> bool {
        true
    }

    open spec fn eq_spec(&self, other: &NodeType) -> bool {
        self@ == other@
    }
}

impl PartialEq for NodeType {
    fn eq(&self, other: &NodeType) -> (r: bool) {
        match (self, other) {
            (NodeType::Internal(children, keys), NodeType::Internal(others, other_keys)) => {
                same_children(children, others) && same_keys(keys, other_keys)
            },
            (NodeType::Leaf(pairs), NodeType::Leaf(others)) => same_pairs(pairs, others),
            (NodeType::Unspecified, NodeType::Unspecified) => true,
            _ => false,
        }
    }
}

/// The empty node type that a tag byte stands for.
pub open spec fn node_type_of_tag(tag: u8) -> NodeTypeView {
    if tag == INTERNAL_TAG {
        NodeTypeView::Internal(Seq::empty(), Seq::empty())
    } else if tag == LEAF_TAG {
        NodeTypeView::Leaf(Seq::empty())
    } else {
        NodeTypeView::Unspecified
    }
}

/// The tag byte of a node type.
pub open spec fn tag_of_node_type(node_type: NodeTypeView) -> u8 {
    match node_type {
        NodeTypeView::Internal(_, _) => INTERNAL_TAG,
        NodeTypeView::Leaf(_) => LEAF_TAG,
        NodeTypeView::Unspecified => UNSPECIFIED_TAG,
    }
}

impl FromSpecImpl<u8> for NodeType {
    /// The result holds vectors, which no spec function can build: the
    /// contract of `from` speaks of its view instead.
    open spec fn obeys_from_spec() -> bool {
        false
    }

    open spec fn from_spec(tag: u8) -> NodeType {
        arbitrary()
    }
}

impl From<u8> for NodeType {
    /// The node type of a tag byte, with nothing in it.
    fn from(tag: u8) -> (node_type: NodeType)
        ensures
            node_type@ == node_type_of_tag(tag),
    {
        if tag == INTERNAL_TAG {
            let children: Vec<Offset> = Vec::new();
            let keys: Vec<Key> = Vec::new();
            assert(children_view(children@) =~= Seq::empty());
            assert(keys_view(keys@) =~= Seq::empty());
            NodeType::Internal(children, keys)
        } else if tag == LEAF_TAG {
            let pairs: Vec<KeyValuePair> = Vec::new();
            assert(pairs_view(pairs@) =~= Seq::empty());
            NodeType::Leaf(pairs)
        } else {
            NodeType::Unspecified
        }
    }
}

impl FromSpecImpl<&NodeType> for u8 {
    open spec fn obeys_from_spec() -> bool {
        true
    }

    open spec fn from_spec(node_type: &NodeType) -> u8 {
        tag_of_node_type(node_type@)
    }
}

impl From<&NodeType> for u8 {
    /// The tag byte of a node type.
    fn from(node_type: &NodeType) -> (tag: u8) {
        match node_type {
            NodeType::Internal(_, _) => INTERNAL_TAG,
            NodeType::Leaf(_) => LEAF_TAG,
            NodeType::Unspecified => UNSPECIFIED_TAG,
        }
    }
}

} // verus!
