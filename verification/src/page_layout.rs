//! The byte layout of a page: where each field starts and how wide it is.
//!
//! A writer and every later reader of a page must agree on these numbers.
use vstd::prelude::*;

verus! {

/// Width in bytes of every stored integer: offsets and counts.
pub const PTR_SIZE: usize = 8;

/// Size in bytes of a page.
pub const PAGE_SIZE: usize = 4096;

/// Where the is-root flag is stored.
pub const IS_ROOT_OFFSET: usize = 0;

/// Width of the is-root flag.
pub const IS_ROOT_SIZE: usize = 1;

/// Where the node type tag is stored.
pub const NODE_TYPE_OFFSET: usize = 1;

/// Width of the node type tag.
pub const NODE_TYPE_SIZE: usize = 1;

/// Where the offset of the parent page is stored.
pub const PARENT_POINTER_OFFSET: usize = 2;

/// Width of the parent offset.
pub const PARENT_POINTER_SIZE: usize = PTR_SIZE;

/// Size of the header that every node starts with.
pub const COMMON_NODE_HEADER_SIZE: usize = IS_ROOT_SIZE + NODE_TYPE_SIZE + PARENT_POINTER_SIZE;

/// Where a leaf stores the number of its pairs.
pub const LEAF_NODE_NUM_PAIRS_OFFSET: usize = COMMON_NODE_HEADER_SIZE;

/// Width of a leaf's number of pairs.
pub const LEAF_NODE_NUM_PAIRS_SIZE: usize = PTR_SIZE;

/// Size of a leaf's header; its pairs follow.
pub const LEAF_NODE_HEADER_SIZE: usize = COMMON_NODE_HEADER_SIZE + LEAF_NODE_NUM_PAIRS_SIZE;

/// Where an internal node stores the number of its children.
pub const INTERNAL_NODE_NUM_CHILDREN_OFFSET: usize = COMMON_NODE_HEADER_SIZE;

/// Width of an internal node's number of children.
pub const INTERNAL_NODE_NUM_CHILDREN_SIZE: usize = PTR_SIZE;

/// Size of an internal node's header; its children follow.
pub const INTERNAL_NODE_HEADER_SIZE: usize = COMMON_NODE_HEADER_SIZE
    + INTERNAL_NODE_NUM_CHILDREN_SIZE;

/// Width in bytes of a key slot.
pub const KEY_SIZE: usize = 10;

/// Width in bytes of a value slot.
pub const VALUE_SIZE: usize = 10;

} // verus!
