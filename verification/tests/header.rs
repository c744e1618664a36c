use e_bin::btree::errors::{BTreeError, InvalidHeaderError};
use e_bin::btree::header::{Header, NodeType, HEADER_SIZE};
use e_bin::btree::{Node, PAGE_SIZE};

#[test]
fn test_intepret_from_bytes() {
    let header = Header::new(NodeType::Leaf, 10, HEADER_SIZE, 4096, 0, 5, 1234);
    let header_bytes = header.as_bytes();
    let mut arr = [0u8; HEADER_SIZE as usize];
    arr.copy_from_slice(&header_bytes);
    let header_ref = Header::intepret_from_bytes(&arr).unwrap();
    assert_eq!(header_ref.node_type, NodeType::Leaf);
    assert_eq!(header_ref.num_keys, 10);
    assert_eq!(header_ref.free_start, HEADER_SIZE);
    assert_eq!(header_ref.free_end, 4096);
    assert_eq!(header_ref.first_freeblock, 0);
    assert_eq!(header_ref.fragmented_bytes, 5);
    assert_eq!(header_ref.rightmost_child_page, 1234);
}

#[test]
fn test_node_read_and_mutate_header() {
    let mut page = [0x00; PAGE_SIZE as usize];
    let mut node = Node::new(&mut page).unwrap();

    {
        let mut header_mut = node.read_header().unwrap();
        header_mut.node_type = NodeType::Internal;
        header_mut.num_keys = 42;
        header_mut.free_start = 10;
        header_mut.free_end = 4;
        header_mut.first_freeblock = 5;
        header_mut.fragmented_bytes = 2;
        header_mut.rightmost_child_page = 1234;
        node.mutate_header(&header_mut);
    }

    let header = node.read_header().unwrap();

    assert_eq!(header.node_type, NodeType::Internal);
    assert_eq!(header.num_keys, 42);
    assert_eq!(header.free_start, 10);
    assert_eq!(header.free_end, 4);
    assert_eq!(header.first_freeblock, 5);
    assert_eq!(header.fragmented_bytes, 2);
    assert_eq!(header.rightmost_child_page, 1234);
}

#[test]
fn header_bytes_are_packed_little_endian() {
    let header = Header::new(NodeType::Leaf, 0x0102, 0x0304, 0x0506, 0x0708, 9, 0x0a0b0c0d);
    assert_eq!(
        header.as_bytes(),
        [1, 0x02, 0x01, 0x04, 0x03, 0x06, 0x05, 0x08, 0x07, 9, 0x0d, 0x0c, 0x0b, 0x0a]
    );
    let internal = Header::new(NodeType::Internal, 0, 0, 0, 0, 0, 0);
    assert_eq!(internal.as_bytes(), [0u8; 14]);
}

#[test]
fn header_with_unknown_node_type_is_refused() {
    let mut arr = [0u8; HEADER_SIZE as usize];
    arr[0] = 7;
    match Header::intepret_from_bytes(&arr) {
        Err(BTreeError::InvalidHeader(InvalidHeaderError::InvalidNodeType(7))) => {}
        other => panic!("unexpected result: {:?}", other),
    }
    let mut page = [0u8; PAGE_SIZE as usize];
    page[0] = 2;
    let node = Node::load(&mut page).unwrap();
    match node.read_header() {
        Err(BTreeError::InvalidHeader(InvalidHeaderError::InvalidNodeType(2))) => {}
        other => panic!("unexpected result: {:?}", other),
    }
}

#[test]
fn header_is_read_from_little_endian_bytes() {
    let bytes = [
        0, 0x02, 0x01, 0x04, 0x03, 0x06, 0x05, 0x08, 0x07, 9, 0x0d, 0x0c, 0x0b, 0x0a,
    ];
    let header = Header::intepret_from_bytes(&bytes).unwrap();
    assert_eq!(
        header,
        Header::new(NodeType::Internal, 0x0102, 0x0304, 0x0506, 0x0708, 9, 0x0a0b0c0d)
    );
}

#[test]
fn test_intepret_mut_from_bytes() {
    let header = Header::new(NodeType::Internal, 0, HEADER_SIZE, 4096, 0, 0, 0);
    let header_bytes = header.as_bytes();
    let mut arr = [0u8; HEADER_SIZE as usize];
    arr.copy_from_slice(&header_bytes);
    {
        let mut header_mut = Header::intepret_from_bytes(&arr).unwrap();
        header_mut.num_keys = 20;
        header_mut.fragmented_bytes = 7;
        arr = header_mut.as_bytes();
    }
    let header_ref = Header::intepret_from_bytes(&arr).unwrap();
    assert_eq!(header_ref.num_keys, 20);
    assert_eq!(header_ref.fragmented_bytes, 7);
}
