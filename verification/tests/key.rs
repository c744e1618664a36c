use e_bin::btree::key::{Key, KEY_SIZE};
use e_bin::btree::{Node, PAGE_SIZE};

#[test]
fn test_find_le_key_idx() {
    let mut page = [0u8; PAGE_SIZE as usize];
    let mut node = Node::new(&mut page).unwrap();

    node.insert(1, b"111").unwrap();
    node.insert(4, b"444444").unwrap();
    node.insert(6, b"66").unwrap();

    assert_eq!(node.find_le_key_idx(1).unwrap(), (0, true));
    assert_eq!(node.find_le_key_idx(4).unwrap(), (1, true));
    assert_eq!(node.find_le_key_idx(6).unwrap(), (2, true));

    assert_eq!(node.find_le_key_idx(0).unwrap(), (0, false));
    assert_eq!(node.find_le_key_idx(2).unwrap(), (1, false));
    assert_eq!(node.find_le_key_idx(3).unwrap(), (1, false));
    assert_eq!(node.find_le_key_idx(5).unwrap(), (2, false));
    assert_eq!(node.find_le_key_idx(7).unwrap(), (3, false));
}

#[test]
fn test_insert_key_at() {
    let mut page = [0u8; PAGE_SIZE as usize];
    let mut node = Node::new(&mut page).unwrap();

    let key = Key::new(123, 0, 100, 5);
    node.insert_key_at(&key, 0).unwrap();

    let (stored_key, _) = node.read_key_at(0).unwrap();
    assert_eq!(stored_key.key, 123);
    assert_eq!(stored_key.left_child_page, 0);
    assert_eq!(stored_key.value_offset, 100);
    assert_eq!(stored_key.value_len, 5);

    let header = node.read_header().unwrap();
    assert_eq!(header.num_keys, 1);
}

#[test]
fn test_pop_key_from() {
    let mut page = [0u8; PAGE_SIZE as usize];
    let mut node = Node::new(&mut page).unwrap();

    node.insert(10, b"val10").unwrap();
    node.insert(20, b"val20").unwrap();
    node.insert(30, b"val30").unwrap();

    let popped_key = node.pop_key_at(1).unwrap();
    assert_eq!(popped_key.key, 20);

    let header = node.read_header().unwrap();
    assert_eq!(header.num_keys, 2);

    let (first_key, _) = node.read_key_at(0).unwrap();
    let (second_key, _) = node.read_key_at(1).unwrap();
    assert_eq!(first_key.key, 10);
    assert_eq!(second_key.key, 30);
}

#[test]
fn test_insert_order() {
    let mut page = [0u8; PAGE_SIZE as usize];
    let mut node = Node::new(&mut page).unwrap();

    let key1 = Key::new(10, 0, 100, 3);
    let key2 = Key::new(30, 0, 200, 3);
    let key3 = Key::new(20, 0, 150, 3);

    node.insert_key_at(&key1, 0).unwrap();
    node.insert_key_at(&key2, 1).unwrap();
    node.insert_key_at(&key3, 1).unwrap();
    let (first_key, _) = node.read_key_at(0).unwrap();
    let (second_key, _) = node.read_key_at(1).unwrap();
    let (third_key, _) = node.read_key_at(2).unwrap();

    assert_eq!(first_key.key, 10);
    assert_eq!(second_key.key, 20);
    assert_eq!(third_key.key, 30);

    let header = node.read_header().unwrap();
    assert_eq!(header.num_keys, 3);
}

#[test]
fn key_bytes_are_packed_little_endian() {
    let key = Key::new(0x0102030405060708, 0x0a0b0c0d, 0x1112, 0x2122);
    assert_eq!(
        key.as_bytes(),
        [8, 7, 6, 5, 4, 3, 2, 1, 0x0d, 0x0c, 0x0b, 0x0a, 0x12, 0x11, 0x22, 0x21]
    );
    let back = Key::intepret_from_bytes(&key.as_bytes()).unwrap();
    assert_eq!(back, key);
    assert_eq!(key.as_bytes().len(), KEY_SIZE as usize);
}

#[test]
fn key_positions_follow_the_header() {
    let mut page = [0u8; PAGE_SIZE as usize];
    let node = Node::new(&mut page).unwrap();
    assert_eq!(node.get_key_pos(0), 14);
    assert_eq!(node.get_key_pos(1), 30);
    assert_eq!(node.get_key_pos(255), 14 + 16 * 255);
}

#[test]
fn read_key_at_says_where_the_slot_begins() {
    let mut page = [0u8; PAGE_SIZE as usize];
    let mut node = Node::new(&mut page).unwrap();
    node.insert(5, b"five").unwrap();
    node.insert(9, b"nine").unwrap();
    let (slot, pos) = node.read_key_at(1).unwrap();
    assert_eq!(pos, 30);
    assert_eq!(slot.key, 9);
    assert_eq!(slot.value_len, 4);
    assert_eq!(slot.value_offset, 4096 - 8);
}

#[test]
fn key_is_read_from_little_endian_bytes() {
    let bytes = [
        8, 7, 6, 5, 4, 3, 2, 1, 0x0d, 0x0c, 0x0b, 0x0a, 0x12, 0x11, 0x22, 0x21,
    ];
    let key = Key::intepret_from_bytes(&bytes).unwrap();
    assert_eq!(key, Key::new(0x0102030405060708, 0x0a0b0c0d, 0x1112, 0x2122));
    let max = Key::intepret_from_bytes(&[0xff; 16]).unwrap();
    assert_eq!(max, Key::new(u64::MAX, u32::MAX, u16::MAX, u16::MAX));
}
