//! The tree interface of the index layer and its page-pointer types.

use vstd::prelude::*;
use crate::datatype::DataType;

verus! {

/// A page id in the index file.
pub type PagePtr = u32;

pub type PageOffset = usize;

/// A row pointer: the page and the offset within it.
pub type RowPtr = (PagePtr, PageOffset);

/// The operations of an index tree. Insert, delete and search over
/// full trees are open work; only node construction and the page-format
/// arithmetic are laid down.
pub trait Tree<T>: Sized {
    fn new(
        pid: u32,
        node_type: NodeType,
        key_type: DataType,
        ptr_size: usize,
        key_size: usize,
        row_ptr_size: Option<usize>,
    ) -> Box<Self>;

    fn height(&self) -> u32;

    fn insert(&mut self, val: T);

    fn delete(&mut self, val: T);

    fn search(&self, val: T) -> RowPtr;
}

#[derive(Debug, Clone, Copy, PartialEq, Eq, Structural)]
pub enum NodeType {
    Internal,
    Leaf,
}

} // verus!
