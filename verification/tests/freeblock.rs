use e_bin::btree::freeblock::{Freeblock, FREEBLOCK_SIZE};
use e_bin::btree::header::HEADER_SIZE;
use e_bin::btree::{Node, PAGE_SIZE};

#[test]
fn interpret_freeblock_from_bytes() {
    let freeblock = Freeblock {
        next_freeblock: 100,
        size: 50,
    };

    let fb_bytes = freeblock.as_bytes();
    assert_eq!(fb_bytes.len(), FREEBLOCK_SIZE as usize);

    let mut arr = [0u8; FREEBLOCK_SIZE as usize];
    arr.copy_from_slice(&fb_bytes);

    let fb_ref = Freeblock::intepret_from_bytes(&arr).expect("Failed to interpret bytes");
    assert_eq!(fb_ref.next_freeblock, 100);
    assert_eq!(fb_ref.size, 50);
}

#[test]
fn node_read_and_mut_freeblock() {
    let mut page = vec![0u8; PAGE_SIZE as usize];
    let mut node = Node::new(&mut page).expect("Failed to load node");

    let valid_offset = HEADER_SIZE as usize + 100;
    let expected_size = 123;
    let expected_next = 456;

    node.write_freeblock(expected_size, expected_next, valid_offset);
    let freeblock = node
        .read_freeblock(valid_offset)
        .expect("Failed to read freeblock");

    assert_eq!(freeblock.size, expected_size);
    assert_eq!(freeblock.next_freeblock, expected_next);
}

#[test]
fn freeblock_bytes_are_little_endian() {
    let freeblock = Freeblock {
        next_freeblock: 0x1234,
        size: 0x0a0b,
    };
    assert_eq!(freeblock.as_bytes(), [0x34, 0x12, 0x0b, 0x0a]);
    let back = Freeblock::intepret_from_bytes(&[0x34, 0x12, 0x0b, 0x0a]).unwrap();
    assert_eq!(back, freeblock);
}

#[test]
fn mut_freeblock_patches_the_link() {
    let mut page = vec![0u8; PAGE_SIZE as usize];
    let mut node = Node::new(&mut page).unwrap();
    node.write_freeblock(20, 300, 200);
    let mut fb = node.read_freeblock(200).unwrap();
    fb.next_freeblock = 0;
    node.mut_freeblock(200, &fb);
    let fb = node.read_freeblock(200).unwrap();
    assert_eq!(fb.next_freeblock, 0);
    assert_eq!(fb.size, 20);
}

#[test]
fn interpret_mut_freeblock_from_bytes() {
    let freeblock = Freeblock {
        next_freeblock: 200,
        size: 75,
    };

    let fb_bytes = freeblock.as_bytes();
    let mut arr = [0u8; FREEBLOCK_SIZE as usize];
    arr.copy_from_slice(&fb_bytes);

    {
        let mut fb_mut =
            Freeblock::intepret_from_bytes(&arr).expect("Failed to interpret mutable bytes");
        fb_mut.next_freeblock = 300;
        fb_mut.size = 150;
        arr = fb_mut.as_bytes();
    }

    let fb_ref = Freeblock::intepret_from_bytes(&arr).expect("Failed to reinterpret bytes");
    assert_eq!(fb_ref.next_freeblock, 300);
    assert_eq!(fb_ref.size, 150);
}
