use e_bin::btree::errors::BTreeError;
use e_bin::btree::header::{Header, NodeType, HEADER_SIZE};
use e_bin::btree::key::{Key, KEY_SIZE};
use e_bin::btree::{Node, PAGE_SIZE};

/// The freeblocks of the page as (offset, size), in chain order.
fn chain(node: &Node) -> Vec<(u16, u16)> {
    let mut out = Vec::new();
    let mut at = node.read_header().unwrap().first_freeblock;
    while at != 0 {
        let fb = node.read_freeblock(at as usize).unwrap();
        out.push((at, fb.size));
        at = fb.next_freeblock;
    }
    out
}

/// The slots of the page, in slot order.
fn slot_array(node: &Node) -> Vec<Key> {
    let n = node.read_header().unwrap().num_keys;
    (0..n).map(|i| node.read_key_at(i).unwrap().0).collect()
}

/// Checks on a concrete page what holds of every well formed page.
fn assert_in_order(node: &Node) {
    assert!(node.is_well_formed());
    let h = node.read_header().unwrap();
    let slots = slot_array(node);
    let blocks = chain(node);
    for pair in slots.windows(2) {
        assert!(pair[0].key < pair[1].key);
    }
    assert_eq!(h.free_start, HEADER_SIZE + KEY_SIZE * h.num_keys);
    assert!(HEADER_SIZE <= h.free_start);
    assert!(h.free_start <= h.free_end);
    assert!(h.free_end <= PAGE_SIZE);
    let mut regions: Vec<(u32, u32)> = Vec::new();
    for s in &slots {
        if s.value_len > 0 {
            regions.push((s.value_offset as u32, s.value_len as u32));
        }
    }
    for b in &blocks {
        assert!(b.1 >= 4);
        regions.push((b.0 as u32, b.1 as u32));
    }
    for pair in blocks.windows(2) {
        assert!(pair[0].0 < pair[1].0);
    }
    for (i, a) in regions.iter().enumerate() {
        assert!(h.free_end as u32 <= a.0);
        assert!(a.0 + a.1 <= PAGE_SIZE as u32);
        for b in regions.iter().skip(i + 1) {
            assert!(a.0 + a.1 <= b.0 || b.0 + b.1 <= a.0);
        }
    }
    let block_bytes: u16 = blocks.iter().map(|b| b.1).sum();
    assert_eq!(
        node.free_space().unwrap(),
        (h.free_end - h.free_start) + block_bytes + h.fragmented_bytes as u16
    );
    assert_eq!(node.unallocated_space().unwrap(), h.free_end - h.free_start);
}

#[test]
fn empty_page() {
    let mut page = [0xaau8; PAGE_SIZE as usize];
    let node = Node::new(&mut page).unwrap();
    let h = node.read_header().unwrap();
    assert_eq!(
        h,
        Header::new(NodeType::Leaf, 0, HEADER_SIZE, PAGE_SIZE, 0, 0, 0)
    );
    assert_eq!(h.free_start, 14);
    assert_eq!(h.free_end, 4096);
    assert!(node.get(0).unwrap().is_none());
    assert!(node.get(7).unwrap().is_none());
    assert!(node.get(u64::MAX).unwrap().is_none());
    assert_in_order(&node);
    drop(node);
    assert!(page[14..].iter().all(|b| *b == 0xaa));
}

#[test]
fn buffers_of_another_length_are_refused() {
    let mut short = vec![0u8; 4095];
    match Node::new(&mut short) {
        Err(BTreeError::SizeMismatch {
            expected: 4096,
            actual: 4095,
        }) => {}
        _ => panic!("a short buffer was taken"),
    }
    assert!(short.iter().all(|b| *b == 0));
    let mut long = vec![0u8; 4097];
    match Node::load(&mut long) {
        Err(BTreeError::SizeMismatch {
            expected: 4096,
            actual: 4097,
        }) => {}
        _ => panic!("a long buffer was taken"),
    }
}

#[test]
fn load_writes_nothing() {
    let mut page = [0u8; PAGE_SIZE as usize];
    {
        let mut node = Node::new(&mut page).unwrap();
        node.insert(3, b"three").unwrap();
    }
    let before = page;
    {
        let node = Node::load(&mut page).unwrap();
        assert_eq!(node.get(3).unwrap().unwrap(), b"three");
    }
    assert_eq!(before, page);
}

#[test]
fn values_lie_at_the_end_of_the_page() {
    let mut page = [0u8; PAGE_SIZE as usize];
    let mut node = Node::new(&mut page).unwrap();
    node.insert(2, b"bb").unwrap();
    node.insert(1, b"a").unwrap();
    let slots = slot_array(&node);
    assert_eq!(slots, vec![Key::new(1, 0, 4093, 1), Key::new(2, 0, 4094, 2)]);
    let h = node.read_header().unwrap();
    assert_eq!(h.free_start, 46);
    assert_eq!(h.free_end, 4093);
    drop(node);
    assert_eq!(&page[4093..], b"abb");
    assert_eq!(&page[14..22], &1u64.to_le_bytes());
    assert_eq!(&page[30..38], &2u64.to_le_bytes());
}

#[test]
fn insert_replaces_and_returns_the_value_held() {
    let mut page = [0u8; PAGE_SIZE as usize];
    let mut node = Node::new(&mut page).unwrap();
    assert!(node.insert(5, b"first").unwrap().is_none());
    node.insert(6, b"other").unwrap();
    let held = node.insert(5, b"second value").unwrap().unwrap();
    assert_eq!(held.key, 5);
    assert_eq!(held.value, b"first");
    assert_eq!(node.get(5).unwrap().unwrap(), b"second value");
    assert_eq!(node.get(6).unwrap().unwrap(), b"other");
    assert_eq!(node.read_header().unwrap().num_keys, 2);
    assert_in_order(&node);
    let held = node.insert(5, b"").unwrap().unwrap();
    assert_eq!(held.value, b"second value");
    assert_eq!(node.get(5).unwrap().unwrap(), b"");
    assert_in_order(&node);
}

#[test]
fn replacing_the_border_value_takes_its_bytes_again() {
    let mut page = [0u8; PAGE_SIZE as usize];
    let mut node = Node::new(&mut page).unwrap();
    node.insert(1, b"aaaa").unwrap();
    node.insert(2, b"bbbbbb").unwrap();
    let free_end = node.read_header().unwrap().free_end;
    node.insert(2, b"cc").unwrap();
    let h = node.read_header().unwrap();
    assert_eq!(h.free_end, free_end + 6 - 2);
    assert_eq!(h.first_freeblock, 0);
    assert_eq!(h.fragmented_bytes, 0);
    assert_eq!(node.get(2).unwrap().unwrap(), b"cc");
}

#[test]
fn too_long_a_value_is_refused() {
    let mut page = [0u8; PAGE_SIZE as usize];
    {
        let mut node = Node::new(&mut page).unwrap();
        node.insert(1, b"one").unwrap();
    }
    let before = page;
    {
        let mut node = Node::load(&mut page).unwrap();
        let value = vec![0u8; 65536];
        match node.insert(2, &value) {
            Err(BTreeError::InvalidValueLength) => {}
            _ => panic!("a value of 65536 bytes was taken"),
        }
        let value = vec![0u8; 65535];
        match node.insert(2, &value) {
            Err(BTreeError::NotEnoughSpace {
                required: 65551,
                actual: 4063,
            }) => {}
            _ => panic!("a value of 65535 bytes was taken"),
        }
    }
    assert_eq!(before, page);
}

#[test]
fn a_full_page_refuses_and_stays_as_it_is() {
    let mut page = [0u8; PAGE_SIZE as usize];
    {
        let mut node = Node::new(&mut page).unwrap();
        node.insert(1, &vec![1u8; 4000]).unwrap();
        node.insert(2, &vec![2u8; 30]).unwrap();
        assert_eq!(node.free_space().unwrap(), 4082 - 4016 - 46);
    }
    let before = page;
    {
        let mut node = Node::load(&mut page).unwrap();
        match node.insert(3, &vec![3u8; 5]) {
            Err(BTreeError::NotEnoughSpace {
                required: 21,
                actual: 20,
            }) => {}
            _ => panic!("a value was taken for which there is no room"),
        }
        match node.insert(2, &vec![2u8; 35]) {
            Err(BTreeError::NotEnoughSpace {
                required: 51,
                actual: 50,
            }) => {}
            _ => panic!("a value was taken for which there is no room"),
        }
    }
    assert_eq!(before, page);
    {
        let mut node = Node::load(&mut page).unwrap();
        node.insert(3, &vec![3u8; 4]).unwrap();
        assert_eq!(node.free_space().unwrap(), 0);
        assert_eq!(node.get(3).unwrap().unwrap(), &[3u8; 4]);
        node.insert(2, &vec![9u8; 14]).unwrap();
        assert_eq!(node.get(2).unwrap().unwrap(), &[9u8; 14]);
        assert_in_order(&node);
    }
}

#[test]
fn a_freed_value_becomes_a_freeblock_and_is_used_again() {
    let mut page = [0u8; PAGE_SIZE as usize];
    let mut node = Node::new(&mut page).unwrap();
    node.insert(1, &[1u8; 14]).unwrap();
    node.insert(3, &vec![3u8; 4032]).unwrap();
    assert_eq!(node.unallocated_space().unwrap(), 4);

    let gone = node.delete(1).unwrap().unwrap();
    assert_eq!(gone.value, [1u8; 14]);
    assert_eq!(chain(&node), vec![(4082, 14)]);
    assert_eq!(node.unallocated_space().unwrap(), 20);
    assert_eq!(node.free_space().unwrap(), 34);
    assert_in_order(&node);

    node.insert(2, &[2u8; 5]).unwrap();
    assert_eq!(chain(&node), vec![(4087, 9)]);
    assert_eq!(slot_array(&node)[0], Key::new(2, 0, 4082, 5));
    assert_eq!(node.read_header().unwrap().fragmented_bytes, 0);
    assert_eq!(node.get(2).unwrap().unwrap(), &[2u8; 5]);
    assert_eq!(node.get(3).unwrap().unwrap(), vec![3u8; 4032].as_slice());
    assert_in_order(&node);
}

#[test]
fn a_block_of_the_same_length_leaves_the_chain() {
    let mut page = [0u8; PAGE_SIZE as usize];
    let mut node = Node::new(&mut page).unwrap();
    node.insert(1, &[1u8; 8]).unwrap();
    node.insert(2, &[2u8; 6]).unwrap();
    node.insert(3, &vec![3u8; 4000]).unwrap();
    assert_eq!(node.unallocated_space().unwrap(), 20);
    node.delete(1).unwrap().unwrap();
    node.delete(2).unwrap().unwrap();
    assert_eq!(chain(&node), vec![(4082, 6), (4088, 8)]);
    assert_eq!(node.unallocated_space().unwrap(), 52);
    node.insert(9, &[9u8; 14]).unwrap();
    assert_eq!(node.unallocated_space().unwrap(), 22);
    assert_eq!(chain(&node), vec![(4082, 6), (4088, 8)]);

    node.insert(4, &[4u8; 8]).unwrap();
    assert_eq!(node.unallocated_space().unwrap(), 6);
    assert_eq!(chain(&node), vec![(4082, 6)]);
    assert_eq!(slot_array(&node)[1], Key::new(4, 0, 4088, 8));
    assert_eq!(node.get(4).unwrap().unwrap(), &[4u8; 8]);
    assert_in_order(&node);
}

#[test]
fn without_room_for_a_slot_the_page_is_defragmented_first() {
    let mut page = [0u8; PAGE_SIZE as usize];
    let mut node = Node::new(&mut page).unwrap();
    node.insert(1, &[1u8; 40]).unwrap();
    node.insert(2, &vec![2u8; 4000]).unwrap();
    assert_eq!(node.unallocated_space().unwrap(), 10);
    node.delete(1).unwrap().unwrap();
    assert_eq!(chain(&node), vec![(4056, 40)]);
    node.insert(3, &[3u8; 4]).unwrap();
    assert_eq!(node.unallocated_space().unwrap(), 6);
    assert_eq!(node.free_space().unwrap(), 46);

    node.insert(4, &[4u8; 20]).unwrap();
    assert_eq!(chain(&node), vec![]);
    let h = node.read_header().unwrap();
    assert_eq!(h.fragmented_bytes, 0);
    assert_eq!(h.free_start, 62);
    assert_eq!(h.free_end, 72);
    assert_eq!(
        slot_array(&node),
        vec![
            Key::new(2, 0, 92, 4000),
            Key::new(3, 0, 4092, 4),
            Key::new(4, 0, 72, 20)
        ]
    );
    assert_eq!(node.get(2).unwrap().unwrap(), vec![2u8; 4000].as_slice());
    assert_eq!(node.get(3).unwrap().unwrap(), &[3u8; 4]);
    assert_eq!(node.get(4).unwrap().unwrap(), &[4u8; 20]);
    assert_in_order(&node);
}

#[test]
fn without_a_fitting_block_the_page_is_defragmented() {
    let mut page = [0u8; PAGE_SIZE as usize];
    let mut node = Node::new(&mut page).unwrap();
    node.insert(1, &[1u8; 10]).unwrap();
    node.insert(2, &[2u8; 10]).unwrap();
    node.insert(3, &vec![3u8; 3990]).unwrap();
    assert_eq!(node.unallocated_space().unwrap(), 24);
    node.delete(1).unwrap().unwrap();
    node.insert(5, &[5u8; 20]).unwrap();
    assert_eq!(node.unallocated_space().unwrap(), 4);
    node.delete(2).unwrap().unwrap();
    assert_eq!(chain(&node), vec![(4076, 10), (4086, 10)]);
    assert_eq!(node.unallocated_space().unwrap(), 20);

    node.insert(6, &[6u8; 12]).unwrap();
    assert_eq!(chain(&node), vec![]);
    assert_eq!(node.free_space().unwrap(), 12);
    assert_eq!(node.unallocated_space().unwrap(), 12);
    assert_eq!(node.get(6).unwrap().unwrap(), &[6u8; 12]);
    assert_eq!(node.get(5).unwrap().unwrap(), &[5u8; 20]);
    assert_eq!(node.get(3).unwrap().unwrap(), vec![3u8; 3990].as_slice());
    assert_in_order(&node);
}

#[test]
fn defrag_twice_is_defrag_once() {
    let mut page = [0u8; PAGE_SIZE as usize];
    {
        let mut node = Node::new(&mut page).unwrap();
        for key in 1..=12u64 {
            node.insert(key, &vec![key as u8; (key as usize) + 2]).unwrap();
        }
        for key in [2u64, 5, 6, 9] {
            node.delete(key).unwrap().unwrap();
        }
        node.defrag().unwrap();
        assert_in_order(&node);
    }
    let once = page;
    {
        let mut node = Node::load(&mut page).unwrap();
        node.defrag().unwrap();
        for key in 1..=12u64 {
            if [2u64, 5, 6, 9].contains(&key) {
                assert!(node.get(key).unwrap().is_none());
            } else {
                assert_eq!(
                    node.get(key).unwrap().unwrap(),
                    vec![key as u8; (key as usize) + 2].as_slice()
                );
            }
        }
    }
    assert_eq!(once, page);
}

#[test]
fn defrag_packs_the_values_in_slot_order() {
    let mut page = [0u8; PAGE_SIZE as usize];
    let mut node = Node::new(&mut page).unwrap();
    node.insert(30, b"cc").unwrap();
    node.insert(10, b"aaaa").unwrap();
    node.insert(20, b"bbbbb").unwrap();
    node.delete(10).unwrap().unwrap();
    node.insert(5, b"z").unwrap();
    node.defrag().unwrap();
    assert_eq!(
        slot_array(&node),
        vec![
            Key::new(5, 0, 4088, 1),
            Key::new(20, 0, 4089, 5),
            Key::new(30, 0, 4094, 2)
        ]
    );
    let h = node.read_header().unwrap();
    assert_eq!(h.free_end, 4088);
    assert_eq!(h.first_freeblock, 0);
    assert_eq!(h.fragmented_bytes, 0);
    drop(node);
    assert_eq!(&page[4088..], b"zbbbbbcc");
}

#[test]
fn fragmented_bytes_stop_at_255() {
    let mut page = [0u8; PAGE_SIZE as usize];
    let mut node = Node::new(&mut page).unwrap();
    for key in 0..200u64 {
        node.insert(key, b"xy").unwrap();
    }
    for key in 0..199u64 {
        node.delete(key).unwrap().unwrap();
    }
    assert_eq!(node.read_header().unwrap().fragmented_bytes, 255);
    assert_eq!(node.read_header().unwrap().first_freeblock, 0);
    assert_in_order(&node);
    node.defrag().unwrap();
    assert_eq!(node.read_header().unwrap().fragmented_bytes, 0);
    assert_eq!(node.free_space().unwrap(), 4082 - 18);
    assert_eq!(node.get(199).unwrap().unwrap(), b"xy");
}

#[test]
fn slots_stay_in_key_order() {
    let mut page = [0u8; PAGE_SIZE as usize];
    let mut node = Node::new(&mut page).unwrap();
    for key in [50u64, 20, 70, 10, 40] {
        node.insert(key, &key.to_le_bytes()[..(3 + key as usize / 20)]).unwrap();
        assert_in_order(&node);
    }
    let keys: Vec<u64> = slot_array(&node).iter().map(|s| s.key).collect();
    assert_eq!(keys, vec![10, 20, 40, 50, 70]);
    node.delete(20).unwrap().unwrap();
    assert_in_order(&node);
    node.delete(50).unwrap().unwrap();
    assert_in_order(&node);
    let keys: Vec<u64> = slot_array(&node).iter().map(|s| s.key).collect();
    assert_eq!(keys, vec![10, 40, 70]);
    for key in (1..=100u64).rev() {
        node.insert(1000 + key, b"r").unwrap();
    }
    let keys: Vec<u64> = slot_array(&node).iter().map(|s| s.key).collect();
    let mut sorted = keys.clone();
    sorted.sort();
    assert_eq!(keys, sorted);
    assert_eq!(keys.len(), 103);
}

#[test]
fn a_value_is_found_until_it_is_deleted() {
    let mut page = [0u8; PAGE_SIZE as usize];
    let mut node = Node::new(&mut page).unwrap();
    node.insert(8, b"eight").unwrap();
    node.insert(3, b"three").unwrap();
    node.delete(3).unwrap().unwrap();
    node.insert(11, b"eleven").unwrap();
    node.defrag().unwrap();
    assert_eq!(node.get(8).unwrap().unwrap(), b"eight");
    assert!(node.get(3).unwrap().is_none());
    assert!(node.get(4).unwrap().is_none());
    node.delete(8).unwrap().unwrap();
    assert!(node.get(8).unwrap().is_none());
    assert!(node.delete(8).unwrap().is_none());
    assert_eq!(node.get(11).unwrap().unwrap(), b"eleven");
}

#[test]
fn border_value_delete_moves_free_end_only() {
    let mut page = [0u8; PAGE_SIZE as usize];
    let mut node = Node::new(&mut page).unwrap();
    node.insert(100, b"border").unwrap();
    assert_eq!(node.read_header().unwrap().free_end, 4090);
    let deleted = node.delete(100).unwrap().unwrap();
    assert_eq!(deleted.key, 100);
    assert_eq!(deleted.value, b"border");
    let h = node.read_header().unwrap();
    assert_eq!(h.free_end, 4096);
    assert_eq!(h.first_freeblock, 0);
    assert_eq!(h.fragmented_bytes, 0);
    assert_eq!(h.num_keys, 0);
}

#[test]
fn slot_array_moves_by_whole_slots() {
    let mut page = [0u8; PAGE_SIZE as usize];
    let mut node = Node::new(&mut page).unwrap();
    node.insert_key_at(&Key::new(1, 0, 4000, 1), 0).unwrap();
    node.insert_key_at(&Key::new(3, 0, 4002, 3), 1).unwrap();
    node.insert_key_at(&Key::new(2, 0, 4001, 2), 1).unwrap();
    assert_eq!(node.read_header().unwrap().free_start, 14 + 48);
    let popped = node.pop_key_at(0).unwrap();
    assert_eq!(popped, Key::new(1, 0, 4000, 1));
    assert_eq!(
        slot_array(&node),
        vec![Key::new(2, 0, 4001, 2), Key::new(3, 0, 4002, 3)]
    );
    assert_eq!(node.read_header().unwrap().free_start, 14 + 32);
}

#[test]
fn pages_are_told_apart_from_other_bytes() {
    let mut page = [0u8; PAGE_SIZE as usize];
    {
        let mut node = Node::new(&mut page).unwrap();
        assert!(node.is_well_formed());
        for key in 1..=9u64 {
            node.insert(key, &vec![key as u8; 3 * key as usize]).unwrap();
        }
        node.delete(2).unwrap().unwrap();
        node.delete(4).unwrap().unwrap();
        node.delete(1).unwrap().unwrap();
        assert_eq!(chain(&node).len(), 2);
        assert!(node.is_well_formed());
    }
    let good = page;
    let spoil = |changes: &[(usize, u8)]| {
        let mut bytes = good;
        for (at, byte) in changes {
            bytes[*at] = *byte;
        }
        let node = Node::load(&mut bytes).unwrap();
        node.is_well_formed()
    };
    assert!(spoil(&[]));
    // a node type that is none
    assert!(!spoil(&[(0, 2)]));
    // one key too many for where the slot array ends
    assert!(!spoil(&[(1, 7)]));
    // a payload region that begins in the slot array
    assert!(!spoil(&[(5, 20), (6, 0)]));
    // a chain that begins in the header
    assert!(!spoil(&[(7, 4), (8, 0)]));
    // two slots with the same key
    assert!(!spoil(&[(14, good[30])]));
    // a value that runs into a freeblock
    assert!(!spoil(&[(14 + 14, good[14 + 14] + 1)]));
    // a freeblock that is too short for its descriptor
    assert!(!spoil(&[(4066 + 2, 3)]));
    // a chain that leads back
    assert!(!spoil(&[(4087, good[7]), (4088, good[8])]));
    // more fragmented bytes than the payload region has to spare
    assert!(!spoil(&[(9, 200)]));
    // a byte that no slot and no freeblock claims
    assert!(spoil(&[(4095, 0x55)]));
    let mut bytes = [0u8; PAGE_SIZE as usize];
    assert!(!Node::load(&mut bytes).unwrap().is_well_formed());
}
