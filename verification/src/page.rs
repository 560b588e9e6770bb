//! A page: a buffer of `PAGE_SIZE` bytes, read and written by byte offset.
//!
//! A page knows nothing of nodes. Every access is checked against the page's
//! size and reports `OutOfBounds` instead of reaching past it.
use crate::endian::{
    be_bytes, be_value, be_value_padded, from_be_bytes, lemma_be_bytes_len, to_be_bytes, zeros,
};
use crate::error::Error;
use crate::format::{
    child_start, encode_error, internal_byte, internal_encode_error, key_start, leaf_byte,
    leaf_encode_error, node_byte, node_bytes, pair_start, texts_fit,
};
use crate::node::Node;
use crate::node_type::{children_view, keys_view, pairs_view, Key, KeyValuePair, NodeType, Offset};
use crate::page_layout::{
    COMMON_NODE_HEADER_SIZE, INTERNAL_NODE_HEADER_SIZE, INTERNAL_NODE_NUM_CHILDREN_OFFSET,
    IS_ROOT_OFFSET, KEY_SIZE, LEAF_NODE_HEADER_SIZE, LEAF_NODE_NUM_PAIRS_OFFSET, NODE_TYPE_OFFSET,
    PAGE_SIZE, PARENT_POINTER_OFFSET, PTR_SIZE, VALUE_SIZE,
};
use crate::slot::{pad_text, text_len};
use vstd::prelude::*;
use vstd::std_specs::convert::TryFromSpecImpl;

verus! {

/// `page` with the bytes from `at` on replaced by `bytes`.
pub open spec fn overwrite(page: Seq<u8>, at: int, bytes: Seq<u8>) -> Seq<u8> {
    Seq::new(
        page.len(),
        |k: int|
            if at <= k < at + bytes.len() {
                bytes[k - at]
            } else {
                page[k]
            },
    )
}

/// An integer read from a page.
#[derive(Clone, Copy, Debug, PartialEq, Eq, Structural)]
pub struct Value(pub usize);

impl TryFromSpecImpl<&[u8]> for Value {
    open spec fn obeys_try_from_spec() -> bool {
        true
    }

    /// The big-endian number in a field of `PTR_SIZE` bytes that starts with
    /// `arr`, its missing bytes taken as zero. A longer `arr` does not fit the
    /// field, and a number above `usize::MAX` does not fit the result.
    open spec fn try_from_spec(arr: &[u8]) -> Result<Value, Error> {
        if arr@.len() <= PTR_SIZE && be_value_padded(arr@) <= usize::MAX {
            Ok(Value(be_value_padded(arr@) as usize))
        } else {
            Err(Error::OutOfBounds)
        }
    }
}

impl TryFrom<&[u8]> for Value {
    type Error = Error;

    fn try_from(arr: &[u8]) -> (r: Result<Value, Error>) {
        if arr.len() > PTR_SIZE {
            return Err(Error::OutOfBounds);
        }
        match from_be_bytes(arr) {
            Some(value) => Ok(Value(value)),
            None => Err(Error::OutOfBounds),
        }
    }
}

/// A buffer of exactly `PAGE_SIZE` bytes.
pub struct Page {
    data: [u8; PAGE_SIZE],
}

impl View for Page {
    type V = Seq<u8>;

    closed spec fn view(&self) -> Seq<u8> {
        self.data@
    }
}

impl Page {
    /// A page holds exactly `PAGE_SIZE` bytes.
    pub proof fn lemma_len(&self)
        ensures
            self@.len() == PAGE_SIZE,
    {
    }

    /// The page that holds `data`.
    pub fn new(data: [u8; PAGE_SIZE]) -> (page: Page)
        ensures
            page@ == data@,
    {
        Page { data }
    }

    /// A copy of the whole buffer.
    pub fn get_data(&self) -> (data: [u8; PAGE_SIZE])
        ensures
            data@ == self@,
    {
        self.data
    }

    /// The `size` bytes that start at `offset`.
    pub fn get_ptr_from_offset(&self, offset: usize, size: usize) -> (r: Result<&[u8], Error>)
        ensures
            match r {
                Ok(bytes) => offset + size <= PAGE_SIZE && bytes@ == self@.subrange(
                    offset as int,
                    offset + size,
                ),
                Err(e) => offset + size > PAGE_SIZE && e == Error::OutOfBounds,
            },
    {
        if offset > PAGE_SIZE || size > PAGE_SIZE - offset {
            return Err(Error::OutOfBounds);
        }
        Ok(&self.data[offset..offset + size])
    }

    /// The big-endian integer stored in the `PTR_SIZE` bytes at `offset`.
    ///
    /// Fails with `OutOfBounds` where the field does not lie within the page,
    /// and where the stored number is above `usize::MAX`.
    pub fn get_value_from_offset(&self, offset: usize) -> (r: Result<usize, Error>)
        ensures
            match r {
                Ok(value) => offset + PTR_SIZE <= PAGE_SIZE && value == be_value(
                    self@.subrange(offset as int, offset + PTR_SIZE),
                ),
                Err(e) => e == Error::OutOfBounds && (offset + PTR_SIZE > PAGE_SIZE || be_value(
                    self@.subrange(offset as int, offset + PTR_SIZE),
                ) > usize::MAX),
            },
    {
        let bytes = self.get_ptr_from_offset(offset, PTR_SIZE)?;
        assert(bytes@ + zeros(0) =~= bytes@);
        let Value(value) = Value::try_from(bytes)?;
        Ok(value)
    }

    /// Stores `value` as `PTR_SIZE` big-endian bytes at `offset`.
    pub fn write_value_at_offset(&mut self, value: usize, offset: usize) -> (r: Result<(), Error>)
        ensures
            match r {
                Ok(_) => offset + PTR_SIZE <= PAGE_SIZE && final(self)@ == overwrite(
                    old(self)@,
                    offset as int,
                    be_bytes(value as nat, PTR_SIZE as nat),
                ),
                Err(e) => e == Error::OutOfBounds && offset + PTR_SIZE > PAGE_SIZE
                    && final(self)@ == old(self)@,
            },
    {
        let bytes = to_be_bytes(value);
        self.write_bytes_at_offset(bytes.as_slice(), offset)
    }

    /// Stores `bytes` at `offset`.
    pub fn write_bytes_at_offset(&mut self, bytes: &[u8], offset: usize) -> (r: Result<(), Error>)
        ensures
            match r {
                Ok(_) => offset + bytes@.len() <= PAGE_SIZE && final(self)@ == overwrite(
                    old(self)@,
                    offset as int,
                    bytes@,
                ),
                Err(e) => e == Error::OutOfBounds && offset + bytes@.len() > PAGE_SIZE
                    && final(self)@ == old(self)@,
            },
    {
        if offset > PAGE_SIZE || bytes.len() > PAGE_SIZE - offset {
            return Err(Error::OutOfBounds);
        }
        let mut i: usize = 0;
        while i < bytes.len()
            invariant
                i <= bytes@.len(),
                offset + bytes@.len() <= PAGE_SIZE,
                self@ == overwrite(old(self)@, offset as int, bytes@.subrange(0, i as int)),
            decreases bytes@.len() - i,
        {
            self.data[offset + i] = bytes[i];
            i = i + 1;
            assert(self@ =~= overwrite(old(self)@, offset as int, bytes@.subrange(0, i as int)));
        }
        assert(bytes@.subrange(0, i as int) =~= bytes@);
        Ok(())
    }
}

/// Writes the children and keys of an internal node behind the common header
/// of a page that is zero from there on.
fn write_internal(page: &mut Page, children: &Vec<Offset>, keys: &Vec<Key>) -> (r: Result<
    (),
    Error,
>)
    requires
        forall|k: int| COMMON_NODE_HEADER_SIZE <= k < PAGE_SIZE ==> old(page)@[k] == 0,
    ensures
        forall|k: int| 0 <= k < COMMON_NODE_HEADER_SIZE ==> final(page)@[k] == old(page)@[k],
        match r {
            Ok(_) => internal_encode_error(children_view(children@), keys_view(keys@)) is None
                && forall|k: int|
                COMMON_NODE_HEADER_SIZE <= k < PAGE_SIZE ==> final(page)@[k] == internal_byte(
                    children_view(children@),
                    keys_view(keys@),
                    k,
                ),
            Err(e) => internal_encode_error(children_view(children@), keys_view(keys@)) == Some(e),
        },
{
    let ghost cs = children_view(children@);
    let ghost ks = keys_view(keys@);
    let n = children.len();
    proof {
        page.lemma_len();
        lemma_be_bytes_len(n as nat, PTR_SIZE as nat);
    }
    match page.write_value_at_offset(n, INTERNAL_NODE_NUM_CHILDREN_OFFSET) {
        Ok(_) => {},
        Err(e) => {
            return Err(e);
        },
    }
    let mut page_offset: usize = INTERNAL_NODE_HEADER_SIZE;
    let mut i: usize = 0;
    while i < n
        invariant
            i <= n == children@.len(),
            cs == children_view(children@),
            ks == keys_view(keys@),
            page_offset == child_start(i as int) <= PAGE_SIZE,
            page@.len() == PAGE_SIZE,
            forall|k: int| 0 <= k < COMMON_NODE_HEADER_SIZE ==> page@[k] == old(page)@[k],
            forall|k: int|
                COMMON_NODE_HEADER_SIZE <= k < page_offset ==> page@[k] == internal_byte(cs, ks, k),
            forall|k: int| page_offset <= k < PAGE_SIZE ==> page@[k] == 0,
        decreases n - i,
    {
        let ghost before = page@;
        proof {
            lemma_be_bytes_len(cs[i as int] as nat, PTR_SIZE as nat);
        }
        match page.write_value_at_offset(children[i].0, page_offset) {
            Ok(_) => {},
            Err(e) => {
                assert(child_start(n as int) > PAGE_SIZE);
                return Err(e);
            },
        }
        proof {
            page.lemma_len();
            assert forall|k: int| page_offset <= k < page_offset + PTR_SIZE implies page@[k]
                == internal_byte(cs, ks, k) by {
                let at = k - INTERNAL_NODE_HEADER_SIZE;
                assert(at == i * PTR_SIZE + (k - page_offset));
                assert(at / PTR_SIZE as int == i);
                assert(at % PTR_SIZE as int == k - page_offset);
            }
        }
        page_offset = page_offset + PTR_SIZE;
        i = i + 1;
    }
    let m = keys.len();
    let mut j: usize = 0;
    while j < m
        invariant
            j <= m == keys@.len(),
            n == children@.len(),
            cs == children_view(children@),
            ks == keys_view(keys@),
            page_offset == key_start(n as int, j as int) <= PAGE_SIZE,
            page@.len() == PAGE_SIZE,
            forall|l: int| 0 <= l < j ==> text_len(#[trigger] ks[l]) <= KEY_SIZE,
            forall|k: int| 0 <= k < COMMON_NODE_HEADER_SIZE ==> page@[k] == old(page)@[k],
            forall|k: int|
                COMMON_NODE_HEADER_SIZE <= k < page_offset ==> page@[k] == internal_byte(cs, ks, k),
            forall|k: int| page_offset <= k < PAGE_SIZE ==> page@[k] == 0,
        decreases m - j,
    {
        let slot = match pad_text::<KEY_SIZE>(keys[j].0.as_str()) {
            Some(slot) => slot,
            None => {
                assert(text_len(ks[j as int]) > KEY_SIZE);
                return Err(Error::KeyTooLong);
            },
        };
        match page.write_bytes_at_offset(slot.as_slice(), page_offset) {
            Ok(_) => {},
            Err(e) => {
                assert(key_start(n as int, m as int) > PAGE_SIZE);
                assert forall|l: int|
                    0 <= l < m && key_start(n as int, l) <= PAGE_SIZE implies text_len(
                    #[trigger] ks[l],
                ) <= KEY_SIZE by {
                    assert(l <= j);
                }
                return Err(e);
            },
        }
        proof {
            page.lemma_len();
            assert forall|k: int| page_offset <= k < page_offset + KEY_SIZE implies page@[k]
                == internal_byte(cs, ks, k) by {
                let at = k - child_start(n as int);
                assert(at == j * KEY_SIZE + (k - page_offset));
                assert(at / KEY_SIZE as int == j);
                assert(at % KEY_SIZE as int == k - page_offset);
            }
        }
        page_offset = page_offset + KEY_SIZE;
        j = j + 1;
    }
    Ok(())
}

/// Writes the pairs of a leaf behind the common header of a page that is zero
/// from there on.
fn write_leaf(page: &mut Page, pairs: &Vec<KeyValuePair>) -> (r: Result<(), Error>)
    requires
        forall|k: int| COMMON_NODE_HEADER_SIZE <= k < PAGE_SIZE ==> old(page)@[k] == 0,
    ensures
        forall|k: int| 0 <= k < COMMON_NODE_HEADER_SIZE ==> final(page)@[k] == old(page)@[k],
        match r {
            Ok(_) => leaf_encode_error(pairs_view(pairs@)) is None && forall|k: int|
                COMMON_NODE_HEADER_SIZE <= k < PAGE_SIZE ==> final(page)@[k] == leaf_byte(
                    pairs_view(pairs@),
                    k,
                ),
            Err(e) => leaf_encode_error(pairs_view(pairs@)) == Some(e),
        },
{
    let ghost ps = pairs_view(pairs@);
    let n = pairs.len();
    proof {
        page.lemma_len();
        lemma_be_bytes_len(n as nat, PTR_SIZE as nat);
    }
    match page.write_value_at_offset(n, LEAF_NODE_NUM_PAIRS_OFFSET) {
        Ok(_) => {},
        Err(e) => {
            return Err(e);
        },
    }
    let mut page_offset: usize = LEAF_NODE_HEADER_SIZE;
    let mut i: usize = 0;
    while i < n
        invariant
            i <= n == pairs@.len(),
            ps == pairs_view(pairs@),
            page_offset == pair_start(i as int) <= PAGE_SIZE,
            page@.len() == PAGE_SIZE,
            texts_fit(ps, i as int),
            forall|k: int| 0 <= k < COMMON_NODE_HEADER_SIZE ==> page@[k] == old(page)@[k],
            forall|k: int|
                COMMON_NODE_HEADER_SIZE <= k < page_offset ==> page@[k] == leaf_byte(ps, k),
            forall|k: int| page_offset <= k < PAGE_SIZE ==> page@[k] == 0,
        decreases n - i,
    {
        let ghost pair = ps[i as int];
        let key_slot = match pad_text::<KEY_SIZE>(pairs[i].key.as_str()) {
            Some(slot) => slot,
            None => {
                assert(text_len(pair.0) > KEY_SIZE);
                return Err(Error::KeyTooLong);
            },
        };
        match page.write_bytes_at_offset(key_slot.as_slice(), page_offset) {
            Ok(_) => {},
            Err(e) => {
                proof {
                    lemma_leaf_too_large(ps, i as int, false);
                }
                return Err(e);
            },
        }
        let value_slot = match pad_text::<VALUE_SIZE>(pairs[i].value.as_str()) {
            Some(slot) => slot,
            None => {
                assert(text_len(pair.1) > VALUE_SIZE);
                assert forall|l: int| 0 <= l < n && texts_fit(ps, l) implies text_len(
                    (#[trigger] ps[l]).0,
                ) <= KEY_SIZE by {
                    if l > i {
                        assert(text_len(ps[i as int].1) <= VALUE_SIZE);
                    }
                }
                return Err(Error::ValueTooLong);
            },
        };
        match page.write_bytes_at_offset(value_slot.as_slice(), page_offset + KEY_SIZE) {
            Ok(_) => {},
            Err(e) => {
                proof {
                    lemma_leaf_too_large(ps, i as int, true);
                }
                return Err(e);
            },
        }
        proof {
            page.lemma_len();
            assert forall|k: int|
                page_offset <= k < page_offset + KEY_SIZE + VALUE_SIZE implies page@[k]
                == leaf_byte(ps, k) by {
                let at = k - LEAF_NODE_HEADER_SIZE;
                assert(at == i * (KEY_SIZE + VALUE_SIZE) + (k - page_offset));
                assert(at / (KEY_SIZE + VALUE_SIZE) == i);
                assert(at % (KEY_SIZE + VALUE_SIZE) == k - page_offset);
            }
        }
        page_offset = page_offset + KEY_SIZE + VALUE_SIZE;
        i = i + 1;
    }
    Ok(())
}

/// A leaf whose first `i` pairs fit their slots, and whose pair `i` does not
/// lie within the page, is too large for the page and nothing else: where
/// `key_written` is set, the key of pair `i` fits and only its value slot
/// reaches past the page.
proof fn lemma_leaf_too_large(pairs: Seq<(Seq<char>, Seq<char>)>, i: int, key_written: bool)
    requires
        0 <= i < pairs.len(),
        texts_fit(pairs, i),
        pair_start(i) <= PAGE_SIZE,
        if key_written {
            text_len(pairs[i].0) <= KEY_SIZE && text_len(pairs[i].1) <= VALUE_SIZE && pair_start(
                i + 1,
            ) > PAGE_SIZE
        } else {
            text_len(pairs[i].0) <= KEY_SIZE && pair_start(i) + KEY_SIZE > PAGE_SIZE
        },
    ensures
        leaf_encode_error(pairs) == Some(Error::OutOfBounds),
{
    assert forall|l: int| 0 <= l < pairs.len() && texts_fit(pairs, l) implies !(pair_start(l)
        <= PAGE_SIZE && text_len((#[trigger] pairs[l]).0) > KEY_SIZE) && !(pair_start(l) + KEY_SIZE
        <= PAGE_SIZE && text_len(pairs[l].0) <= KEY_SIZE && text_len(pairs[l].1) > VALUE_SIZE) by {
        if l < i {
            assert(text_len(pairs[l].0) <= KEY_SIZE);
        } else if l > i {
            assert(pair_start(l) >= pair_start(i + 1));
        }
    }
}

impl TryFromSpecImpl<&Node> for Page {
    /// The contract of `try_from` is stated over the views of the node and of
    /// the page.
    open spec fn obeys_try_from_spec() -> bool {
        false
    }

    open spec fn try_from_spec(node: &Node) -> Result<Page, Error> {
        arbitrary()
    }
}

impl TryFrom<&Node> for Page {
    type Error = Error;

    /// The page that stores `node`.
    ///
    /// The page is zero wherever the node stores nothing. Fails as
    /// `encode_error` says, and only then.
    fn try_from(node: &Node) -> (r: Result<Page, Error>)
        ensures
            match r {
                Ok(page) => encode_error(node@) is None && page@ == node_bytes(node@),
                Err(e) => encode_error(node@) == Some(e),
            },
    {
        let mut page = Page::new([0u8; PAGE_SIZE]);
        page.data[IS_ROOT_OFFSET] = if node.is_root {
            1
        } else {
            0
        };
        page.data[NODE_TYPE_OFFSET] = u8::from(&node.node_type);
        if !node.is_root {
            match &node.parent_offset {
                Some(parent) => {
                    proof {
                        lemma_be_bytes_len(parent.0 as nat, PTR_SIZE as nat);
                    }
                    match page.write_value_at_offset(parent.0, PARENT_POINTER_OFFSET) {
                        Ok(_) => {},
                        Err(e) => {
                            return Err(e);
                        },
                    }
                },
                None => {
                    return Err(Error::MissingParentOffset);
                },
            }
        }
        assert forall|k: int| 0 <= k < COMMON_NODE_HEADER_SIZE implies page@[k] == node_byte(
            node@,
            k,
        ) by {}
        match &node.node_type {
            NodeType::Internal(children, keys) => {
                match write_internal(&mut page, children, keys) {
                    Ok(_) => {},
                    Err(e) => {
                        return Err(e);
                    },
                }
            },
            NodeType::Leaf(pairs) => {
                match write_leaf(&mut page, pairs) {
                    Ok(_) => {},
                    Err(e) => {
                        return Err(e);
                    },
                }
            },
            NodeType::Unspecified => {
                return Err(Error::InvalidNodeType);
            },
        }
        proof {
            page.lemma_len();
            assert(page@ =~= node_bytes(node@));
        }
        Ok(page)
    }
}

} // verus!
