//! What can go wrong in a trie.

use crate::content_id::Cid;
use vstd::prelude::*;

verus! {

/// A failure of the block store, as the store words it.
#[derive(Debug, PartialEq, Eq)]
pub struct StoreError {
    pub message: String,
}

/// Why an operation on a trie failed.
#[derive(Debug, PartialEq, Eq)]
pub enum Error {
    /// The index is greater than the largest index a trie holds.
    OutOfRange(u64),
    /// A root names a height, the first number, above the greatest height of
    /// its bit width, the second.
    MaxHeight(u32, u32),
    /// The block store holds no block under this identifier.
    CidNotFound(Cid),
    /// A block is well-formed but not what it has to be: its bitmap and its
    /// items disagree, its shape is not that of its place, or it is a root of
    /// another version.
    InvalidEncoding,
    /// A block is not the encoding of anything.
    Codec,
    /// An index that had to be present is absent.
    NotFound(u64),
    /// The block store failed.
    BlockStore(StoreError),
}

/// An error as contracts speak of it: an identifier by its binary form, and a
/// failure of the store without its wording.
pub enum ErrorView {
    OutOfRange(u64),
    MaxHeight(u32, u32),
    CidNotFound(Seq<u8>),
    InvalidEncoding,
    Codec,
    NotFound(u64),
    BlockStore,
}

impl View for Error {
    type V = ErrorView;

    open spec fn view(&self) -> ErrorView {
        match *self {
            Error::OutOfRange(i) => ErrorView::OutOfRange(i),
            Error::MaxHeight(height, max) => ErrorView::MaxHeight(height, max),
            Error::CidNotFound(cid) => ErrorView::CidNotFound(cid@),
            Error::InvalidEncoding => ErrorView::InvalidEncoding,
            Error::Codec => ErrorView::Codec,
            Error::NotFound(i) => ErrorView::NotFound(i),
            Error::BlockStore(_) => ErrorView::BlockStore,
        }
    }
}

} // verus!
