use e_bin::btree::freeblock::FREEBLOCK_SIZE;
use e_bin::btree::header::{NodeType, HEADER_SIZE};
use e_bin::btree::key::KEY_SIZE;
use e_bin::btree::{Node, PAGE_SIZE};

#[test]
fn test_load_node() {
    let mut page = [0u8; PAGE_SIZE as usize];
    {
        let _node = Node::new(&mut page).unwrap();
    }
    let node = Node::load(&mut page).unwrap();
    let header = node.read_header().unwrap();
    assert_eq!(header.node_type, NodeType::Leaf);
}

#[test]
fn test_defrag_functionality() {
    let mut page = [0u8; PAGE_SIZE as usize];
    let mut node = Node::new(&mut page).unwrap();

    node.insert(10, b"value10").unwrap();
    node.insert(20, b"value20").unwrap();
    node.insert(30, b"value30").unwrap();

    node.delete(20).unwrap();

    let header_before = node.read_header().unwrap();
    assert!(header_before.fragmented_bytes > 0 || header_before.first_freeblock != 0);

    node.defrag().unwrap();

    let header_after = node.read_header().unwrap();
    assert_eq!(header_after.fragmented_bytes, 0);
    assert_eq!(header_after.first_freeblock, 0);

    assert_eq!(node.get(10).unwrap().unwrap(), b"value10");
    assert_eq!(node.get(30).unwrap().unwrap(), b"value30");
}

#[test]
fn test_freeblock_reuse_in_insert() {
    let mut page = [0u8; PAGE_SIZE as usize];
    let mut node = Node::new(&mut page).unwrap();

    let large_value = vec![1u8; (FREEBLOCK_SIZE as usize) + 10];
    node.insert(1, &large_value).unwrap();

    let _ = node.delete(1).unwrap().unwrap();

    let small_value = vec![2u8; 5];
    node.insert(2, &small_value).unwrap();

    let retrieved = node.get(2).unwrap().unwrap();
    assert_eq!(retrieved, small_value.as_slice());
}

#[test]
fn test_out_of_order_insertion_and_deletion() {
    let mut page = [0u8; PAGE_SIZE as usize];
    let mut node = Node::new(&mut page).unwrap();

    node.insert(50, b"fifty").unwrap();
    node.insert(20, b"twenty").unwrap();
    node.insert(70, b"seventy").unwrap();
    node.insert(10, b"ten").unwrap();
    node.insert(40, b"forty").unwrap();

    assert_eq!(node.get(10).unwrap().unwrap(), b"ten");
    assert_eq!(node.get(20).unwrap().unwrap(), b"twenty");
    assert_eq!(node.get(40).unwrap().unwrap(), b"forty");
    assert_eq!(node.get(50).unwrap().unwrap(), b"fifty");
    assert_eq!(node.get(70).unwrap().unwrap(), b"seventy");

    let _ = node.delete(20).unwrap().unwrap();
    let _ = node.delete(50).unwrap().unwrap();

    assert!(node.get(20).unwrap().is_none());
    assert!(node.get(50).unwrap().is_none());
    assert_eq!(node.get(10).unwrap().unwrap(), b"ten");
    assert_eq!(node.get(40).unwrap().unwrap(), b"forty");
    assert_eq!(node.get(70).unwrap().unwrap(), b"seventy");
}

#[test]
fn test_complex_inserts_deletes() {
    let mut page = [0u8; PAGE_SIZE as usize];
    let mut node = Node::new(&mut page).unwrap();

    for key in 1..=20 {
        let value = key.to_string().repeat((key % 5 + 3) as usize);
        node.insert(key, value.as_bytes()).unwrap();
    }

    for key in (1..=20).filter(|k| k % 3 == 0) {
        node.delete(key).unwrap();
    }

    for key in 21..=25 {
        let value = format!("key{}", key);
        node.insert(key, value.as_bytes()).unwrap();
    }

    for key in 1..=25 {
        if key <= 20 && key % 3 == 0 {
            assert!(node.get(key).unwrap().is_none());
        } else if key <= 20 {
            let expected = key.to_string().repeat((key % 5 + 3) as usize);
            assert_eq!(node.get(key).unwrap().unwrap(), expected.as_bytes());
        } else {
            let expected = format!("key{}", key);
            assert_eq!(node.get(key).unwrap().unwrap(), expected.as_bytes());
        }
    }
}

#[test]
fn test_freespace_tracking() {
    let mut page = [0u8; PAGE_SIZE as usize];
    let mut node = Node::new(&mut page).unwrap();
    let initial_free = PAGE_SIZE - HEADER_SIZE;
    let mut expected_unalloc = initial_free;
    let mut expected_free_space = initial_free;

    assert_eq!(node.unallocated_space().unwrap(), expected_unalloc);
    assert_eq!(node.free_space().unwrap(), expected_free_space);

    for i in 1..=10 {
        let value = i.to_string().repeat(i as usize);
        let value_bytes = value.as_bytes();
        let value_len: u16 = value_bytes.len().try_into().unwrap();
        node.insert(i, value_bytes).unwrap();
        expected_unalloc -= KEY_SIZE + value_len;
        expected_free_space -= KEY_SIZE + value_len;
        assert_eq!(node.unallocated_space().unwrap(), expected_unalloc);
        assert_eq!(node.free_space().unwrap(), expected_free_space);
    }

    for i in 1..=10 {
        let deleted = node.delete(i).unwrap().unwrap();
        assert_eq!(deleted.key, i);
        let expected_value = i.to_string().repeat(i as usize);
        let expected_bytes = expected_value.as_bytes();
        let value_len: u16 = expected_bytes.len().try_into().unwrap();
        assert_eq!(deleted.value, expected_bytes);
        expected_free_space += KEY_SIZE + value_len;
        assert_eq!(node.free_space().unwrap(), expected_free_space);
    }
    assert_eq!(node.unallocated_space().unwrap(), 4037);
    assert_eq!(node.free_space().unwrap(), initial_free);
}

#[test]
fn test_delete_nonexistent() {
    let mut page = [0u8; PAGE_SIZE as usize];
    let mut node = Node::new(&mut page).unwrap();
    node.insert(1, b"test").unwrap();
    assert!(node.delete(2).unwrap().is_none());
}

#[test]
fn test_delete_small_value_fragmentation() {
    let mut page = [0u8; PAGE_SIZE as usize];
    let mut node = Node::new(&mut page).unwrap();

    node.insert(42, b"ab").unwrap();
    node.insert(43, b"largevalue").unwrap();

    let frag_before = node.read_header().unwrap().fragmented_bytes;
    node.delete(42).unwrap().unwrap();
    let frag_after = node.read_header().unwrap().fragmented_bytes;

    assert_eq!(frag_after, frag_before.saturating_add(2));
}

#[test]
fn test_delete_border_value() {
    let mut page = [0u8; PAGE_SIZE as usize];
    let mut node = Node::new(&mut page).unwrap();
    node.insert(100, b"border").unwrap();
    let free_end_before = node.read_header().unwrap().free_end;
    let deleted = node.delete(100).unwrap().unwrap();
    let free_end_after = node.read_header().unwrap().free_end;
    assert_eq!(free_end_after, free_end_before + 6);
    assert_eq!(deleted.value, b"border");
}

#[test]
fn test_get() {
    let mut page = [0u8; PAGE_SIZE as usize];
    let mut node = Node::new(&mut page).unwrap();
    node.insert(1, b"abekat").unwrap();
    assert_eq!(node.get(1).unwrap().unwrap(), b"abekat");
    assert_eq!(node.get(2).unwrap(), None);
}

#[test]
fn test_defrag_with_multiple_freeblocks() {
    let mut page = [0u8; PAGE_SIZE as usize];
    let mut node = Node::new(&mut page).unwrap();

    for i in 1..=5 {
        let val: Vec<u8> = vec![i; 500];
        node.insert(i.into(), &val).unwrap();
    }
    node.delete(2).unwrap();
    node.delete(4).unwrap();

    let pre_defrag_space = node.free_space().unwrap();
    node.defrag().unwrap();
    let post_defrag_space = node.free_space().unwrap();

    assert_eq!(pre_defrag_space, post_defrag_space);
    assert_eq!(node.read_header().unwrap().first_freeblock, 0);
}

#[test]
fn test_reverse_order_insertion() {
    let mut page = [0u8; PAGE_SIZE as usize];
    let mut node = Node::new(&mut page).unwrap();

    for key in (1..=100).rev() {
        node.insert(key, &key.to_le_bytes()).unwrap();
    }

    for key in 1u64..=100 {
        let expected = key.to_le_bytes();
        assert_eq!(node.get(key).unwrap().unwrap(), expected);
    }
}

#[test]
fn test_multiple_small_deletions_fragmented_bytes() {
    let mut page = [0u8; PAGE_SIZE as usize];
    let mut node = Node::new(&mut page).unwrap();

    node.insert(1, b"ab").unwrap();
    node.insert(2, b"cd").unwrap();
    node.insert(3, b"ef").unwrap();

    let _ = node.delete(1).unwrap();
    let _ = node.delete(2).unwrap();
    let _ = node.delete(3).unwrap();

    let header = node.read_header().unwrap();
    assert_eq!(header.fragmented_bytes, 4);
}

#[test]
fn test_defrag_clears_fragmentation() {
    let mut page = [0u8; PAGE_SIZE as usize];
    let mut node = Node::new(&mut page).unwrap();

    node.insert(10, b"small").unwrap();
    node.insert(20, b"tiny").unwrap();
    let _ = node.delete(10).unwrap();
    let _ = node.delete(20).unwrap();

    let header_before = node.read_header().unwrap();
    assert!(header_before.fragmented_bytes > 0 || header_before.first_freeblock != 0);

    node.defrag().unwrap();
    let header_after = node.read_header().unwrap();
    assert_eq!(header_after.fragmented_bytes, 0);
    assert_eq!(header_after.first_freeblock, 0);
}

#[test]
fn test_insert_using_freeblock_with_fragmentation() {
    let mut page = [0u8; PAGE_SIZE as usize];
    let mut node = Node::new(&mut page).unwrap();

    {
        let mut header = node.read_header().unwrap();
        header.free_end = header.free_start + 16;
        node.mutate_header(&header);
    }

    let freeblock_offset = HEADER_SIZE + 50;
    let freeblock_size: u16 = 12;
    {
        let mut header = node.read_header().unwrap();
        header.first_freeblock = freeblock_offset;
        node.mutate_header(&header);
    }
    node.write_freeblock(freeblock_size, 0, freeblock_offset as usize);

    let value = vec![b'a'; 10];
    node.insert(101, &value).unwrap();

    let (key_record, _) = node.read_key_at(0).unwrap();
    assert_eq!(key_record.value_offset, freeblock_offset);
    assert_eq!(key_record.value_len, 10);

    let header = node.read_header().unwrap();
    assert_eq!(header.fragmented_bytes, 2);
    assert_eq!(header.first_freeblock, 0);

    let stored_value = node.get(101).unwrap().unwrap();
    assert_eq!(stored_value, value.as_slice());
}
