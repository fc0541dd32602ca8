use stellarsql::btree::BPlusTree;
use stellarsql::datatype::DataType;
use stellarsql::page::{DataFilePage, FileHeader};
use stellarsql::tree::{NodeType, Tree};

#[test]
fn test_new_b_plus_tree() {
    let _internal_tree: Box<BPlusTree<i32>> =
        BPlusTree::new(0, NodeType::Internal, DataType::Int, 4, 8, None);
    let _leaf_tree: Box<BPlusTree<String>> =
        BPlusTree::new(0, NodeType::Leaf, DataType::Char(10), 4, 128, Some(8));
}

#[test]
fn test_find_ptr() {
    let arr: Vec<Vec<u64>> = vec![vec![10], vec![10, 20], vec![10, 20, 30]];
    for i in 0..arr.len() {
        let pos = BPlusTree::<u64>::find_ptr(&arr[i], 0, arr[i].len(), 11);
        assert_eq!(pos, 1); // greater
        let pos = BPlusTree::<u64>::find_ptr(&arr[i], 0, arr[i].len(), 10);
        assert_eq!(pos, 1); // equal
        let pos = BPlusTree::<u64>::find_ptr(&arr[i], 0, arr[i].len(), 1);
        assert_eq!(pos, 0); // smaller
    }
    let arr: Vec<u64> = vec![1, 3, 5, 7, 9];
    let pos = BPlusTree::<u64>::find_ptr(&arr, 0, arr.len(), 11);
    assert_eq!(pos, 5); // right boundary
    let pos = BPlusTree::<u64>::find_ptr(&arr, 0, arr.len(), 9);
    assert_eq!(pos, 5);
    let pos = BPlusTree::<u64>::find_ptr(&arr, 0, arr.len(), 8);
    assert_eq!(pos, 4);
    let pos = BPlusTree::<u64>::find_ptr(&arr, 0, arr.len(), 1);
    assert_eq!(pos, 1);
    let pos = BPlusTree::<u64>::find_ptr(&arr, 0, arr.len(), 0);
    assert_eq!(pos, 0); // left boundary
}

#[test]
fn test_file_header() {
    let header = FileHeader {
        pid: 1,
        capacity: 101,
        block_length: 128,
    };

    let header_bytes = header.to_bytes();
    let header = FileHeader::from_bytes(&header_bytes);

    assert_eq!(header.pid, 1);
    assert_eq!(header.capacity, 101);
    assert_eq!(header.block_length, 128);
}

#[test]
fn test_create_file_page() {
    let _file_page = DataFilePage::new(0, 128);
}
