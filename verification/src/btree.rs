//! The B+ tree node layout and its page arithmetic. An internal page
//! holds child pointers interleaved with keys; a leaf holds row
//! pointers with keys between two sibling pointers. Insert, delete and
//! search over full trees are open work.

use vstd::prelude::*;
use crate::datatype::DataType;
use crate::tree::{NodeType, PagePtr, RowPtr, Tree};
use crate::page::{DEFAULT_PAGE_SIZE, INDEX_INTERNAL_HEADER_SIZE, INDEX_LEAF_HEADER_SIZE};

verus! {

/// One B+ tree node and its page parameters.
#[derive(Debug)]
#[verifier::reject_recursive_types(T)]
pub struct BPlusTree<T> {
    pub pid: u32,
    pub node_type: NodeType,
    pub key_type: DataType,
    pub capacity: usize,
    pub ptr_size: usize,
    pub key_size: usize,
    pub row_ptr_size: Option<usize>,
    pub ptrs: Vec<PagePtr>,
    pub keys: Vec<T>,
    pub rows: Option<Vec<RowPtr>>,
    pub nodes: Vec<Box<BPlusTree<T>>>,
    pub height: u32,
}

/// Keys an internal page can hold: each key sits beside a pointer, and
/// one more pointer leads off the left edge.
pub fn get_internal_capacity(ptr_size: usize, key_size: usize) -> (r: usize)
    requires
        ptr_size <= DEFAULT_PAGE_SIZE,
        key_size <= DEFAULT_PAGE_SIZE,
        ptr_size + key_size >= 1,
        INDEX_INTERNAL_HEADER_SIZE + ptr_size <= DEFAULT_PAGE_SIZE,
    ensures
        r == (DEFAULT_PAGE_SIZE - INDEX_INTERNAL_HEADER_SIZE - ptr_size) / (ptr_size + key_size
            as int),
{
    (DEFAULT_PAGE_SIZE - INDEX_INTERNAL_HEADER_SIZE - ptr_size) / (ptr_size + key_size)
}

/// Key-and-row-pointer pairs a leaf page can hold beside its two
/// sibling pointers.
pub fn get_leaf_capacity(ptr_size: usize, key_size: usize, row_ptr_size: usize) -> (r: usize)
    requires
        ptr_size <= DEFAULT_PAGE_SIZE,
        key_size <= DEFAULT_PAGE_SIZE,
        row_ptr_size <= DEFAULT_PAGE_SIZE,
        row_ptr_size + key_size >= 1,
        INDEX_LEAF_HEADER_SIZE + 2 * ptr_size <= DEFAULT_PAGE_SIZE,
    ensures
        r == (DEFAULT_PAGE_SIZE - INDEX_LEAF_HEADER_SIZE - 2 * ptr_size) / (row_ptr_size
            + key_size as int),
{
    (DEFAULT_PAGE_SIZE - INDEX_LEAF_HEADER_SIZE - 2 * ptr_size) / (row_ptr_size + key_size)
}

impl<T> Tree<T> for BPlusTree<T> {
    /// A fresh node of the requested kind with the capacity its page
    /// format allows. A leaf needs its row-pointer size.
    fn new(
        pid: u32,
        node_type: NodeType,
        key_type: DataType,
        ptr_size: usize,
        key_size: usize,
        row_ptr_size: Option<usize>,
    ) -> Box<Self> {
        let capacity = match node_type {
            NodeType::Internal => {
                if ptr_size <= DEFAULT_PAGE_SIZE && key_size <= DEFAULT_PAGE_SIZE && ptr_size
                    + key_size >= 1 && INDEX_INTERNAL_HEADER_SIZE + ptr_size
                    <= DEFAULT_PAGE_SIZE {
                    get_internal_capacity(ptr_size, key_size)
                } else {
                    0
                }
            },
            NodeType::Leaf => {
                match row_ptr_size {
                    Some(rps) => {
                        if ptr_size <= DEFAULT_PAGE_SIZE && key_size <= DEFAULT_PAGE_SIZE && rps
                            <= DEFAULT_PAGE_SIZE && rps + key_size >= 1
                            && INDEX_LEAF_HEADER_SIZE + 2 * ptr_size <= DEFAULT_PAGE_SIZE {
                            get_leaf_capacity(ptr_size, key_size, rps)
                        } else {
                            0
                        }
                    },
                    None => 0,
                }
            },
        };
        let rows: Option<Vec<RowPtr>> = match node_type {
            NodeType::Internal => None,
            NodeType::Leaf => Some(Vec::new()),
        };
        Box::new(
            BPlusTree {
                pid,
                node_type,
                key_type,
                capacity,
                ptr_size,
                key_size,
                row_ptr_size,
                ptrs: Vec::new(),
                keys: Vec::new(),
                rows,
                nodes: Vec::new(),
                height: 1,
            },
        )
    }

    fn height(&self) -> (r: u32)
        ensures
            r == self.height,
    {
        self.height
    }

    fn insert(&mut self, _val: T) {
    }

    fn delete(&mut self, _val: T) {
    }

    fn search(&self, _val: T) -> RowPtr {
        (0, 0)
    }
}

impl<T> BPlusTree<T> {
    /// The node's kind.
    pub fn node_type(&self) -> (r: &NodeType)
        ensures
            *r == self.node_type,
    {
        &self.node_type
    }
}

impl BPlusTree<u64> {
    /// Upper-bound binary search: the index of the smallest key in
    /// `[left, right)` greater than `val`; ties and smaller keys route
    /// left.
    pub fn find_ptr(arr: &Vec<u64>, left: usize, right: usize, val: u64) -> (r: usize)
        requires
            left <= right <= arr@.len(),
            forall|i: int, j: int| left <= i < j < right ==> arr@[i] <= arr@[j],
        ensures
            left <= r <= right,
            forall|k: int| left <= k < r ==> arr@[k] <= val,
            forall|k: int| r <= k < right ==> arr@[k] > val,
    {
        let mut l = left;
        let mut h = right;
        while l < h
            invariant
                left <= l <= h <= right <= arr@.len(),
                forall|i: int, j: int| left <= i < j < right ==> arr@[i] <= arr@[j],
                forall|k: int| left <= k < l ==> arr@[k] <= val,
                forall|k: int| h <= k < right ==> arr@[k] > val,
            decreases h - l,
        {
            let m = l + (h - l) / 2;
            if arr[m] > val {
                h = m;
                proof {
                    assert forall|k: int| h <= k < right implies arr@[k] > val by {
                        if k > m {
                            assert(arr@[m as int] <= arr@[k]);
                        }
                    }
                }
            } else {
                l = m + 1;
                proof {
                    assert forall|k: int| left <= k < l implies arr@[k] <= val by {
                        if k < m {
                            assert(arr@[k] <= arr@[m as int]);
                        }
                    }
                }
            }
        }
        l
    }
}

} // verus!
