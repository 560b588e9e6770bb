//! Codec between in-memory B-tree nodes and fixed-size storage pages.
//!
//! A [`node::Node`] is written into a [`page::Page`] of exactly
//! [`page_layout::PAGE_SIZE`] bytes and read back from one. Every multi-byte
//! integer is stored big-endian in [`page_layout::PTR_SIZE`] bytes; every text
//! is stored as UTF-8 in a fixed-width slot, padded with zero bytes.
pub mod endian;
pub mod error;
pub mod format;
pub mod node;
pub mod node_type;
pub mod order;
pub mod page;
pub mod page_layout;
pub mod round_trip;
pub mod slot;
