//! The failures that reading or writing a page can report.
use vstd::prelude::*;

verus! {

/// Why an operation on a page or a node was abandoned.
#[derive(Clone, Copy, Debug, PartialEq, Eq, Structural)]
pub enum Error {
    /// A read or write would reach past the end of the page.
    OutOfBounds,
    /// The node type is the `Unspecified` sentinel, or the page carries an
    /// unknown type tag.
    InvalidNodeType,
    /// The bytes of a key or value slot are not valid UTF-8.
    Utf8DecodeError,
    /// A key needs more bytes than a key slot holds.
    KeyTooLong,
    /// A value needs more bytes than a value slot holds.
    ValueTooLong,
    /// A node that is not the root carries no parent offset.
    MissingParentOffset,
}

} // verus!
