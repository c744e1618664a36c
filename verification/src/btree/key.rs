//! Key slots: the sorted array of fixed-size records behind the header.

use vstd::prelude::*;
use super::{moved, Node, overwrite, PAGE_SIZE};
use super::endian::{
    lemma_u16_round_trip, lemma_u32_round_trip, lemma_u64_round_trip, u16_at, u16_from_le, u16_le,
    u16_to_le, u32_at, u32_from_le, u32_le, u32_to_le, u64_at, u64_from_le, u64_le, u64_to_le,
};
use super::errors::BTreeError;
use super::frame::same_outside;
use super::header::{Header, HEADER_SIZE, lemma_same_header};
use super::model::{
    free_end, free_start, geometry_ok, has_key, keys_ascending, num_keys, slot, slot_pos, slots,
};

verus! {

/// One slot of the slot array, as values.
///
/// In the page the fields lie in this order without padding, integers
/// little-endian: `key` in bytes 0..8 of the slot, `left_child_page` in
/// 8..12, `value_offset` in 12..14 and `value_len` in 14..16.
#[derive(Debug, Clone, Copy, PartialEq, Eq, Structural)]
pub struct Key {
    pub key: u64,
    /// Reserved for a tree above this page.
    pub left_child_page: u32,
    /// Where in the page the value begins.
    pub value_offset: u16,
    /// Length of the value in bytes.
    pub value_len: u16,
}

/// Number of bytes one slot takes.
pub const KEY_SIZE: u16 = 16;

impl Key {
    /// The sixteen bytes that store this slot.
    #[verifier::opaque]
    pub open spec fn encode(self) -> Seq<u8> {
        u64_le(self.key) + u32_le(self.left_child_page) + u16_le(self.value_offset) + u16_le(
            self.value_len,
        )
    }

    /// The slot stored in the sixteen bytes of `s` that start at `p`.
    pub open spec fn decode_at(s: Seq<u8>, p: int) -> Key {
        Key {
            key: u64_at(s, p) as u64,
            left_child_page: u32_at(s, p + 8) as u32,
            value_offset: u16_at(s, p + 12) as u16,
            value_len: u16_at(s, p + 14) as u16,
        }
    }

    /// A stored slot reads back as itself.
    pub proof fn lemma_round_trip(self)
        ensures
            self.encode().len() == KEY_SIZE,
            Key::decode_at(self.encode(), 0) == self,
    {
        reveal(Key::encode);
        lemma_u64_round_trip(self.key);
        lemma_u32_round_trip(self.left_child_page);
        lemma_u16_round_trip(self.value_offset);
        lemma_u16_round_trip(self.value_len);
        let s = self.encode();
        assert(u64_at(s, 0) == u64_at(u64_le(self.key), 0));
        assert(u32_at(s, 8) == u32_at(u32_le(self.left_child_page), 0));
        assert(u16_at(s, 12) == u16_at(u16_le(self.value_offset), 0));
        assert(u16_at(s, 14) == u16_at(u16_le(self.value_len), 0));
    }

    /// A slot with the fields given.
    pub fn new(key: u64, left_child_page: u32, value_offset: u16, value_len: u16) -> (slot: Self)
        ensures
            slot == (Key { key, left_child_page, value_offset, value_len }),
    {
        Key { key, left_child_page, value_offset, value_len }
    }

    /// The bytes that store this slot in a page.
    pub fn as_bytes(&self) -> (bytes: [u8; 16])
        ensures
            bytes@ == self.encode(),
    {
        let k = u64_to_le(self.key);
        let l = u32_to_le(self.left_child_page);
        let o = u16_to_le(self.value_offset);
        let n = u16_to_le(self.value_len);
        let bytes: [u8; 16] = [
            k[0],
            k[1],
            k[2],
            k[3],
            k[4],
            k[5],
            k[6],
            k[7],
            l[0],
            l[1],
            l[2],
            l[3],
            o[0],
            o[1],
            n[0],
            n[1],
        ];
        proof {
            reveal(Key::encode);
        }
        assert(bytes@ =~= self.encode());
        bytes
    }

    /// Reads a slot from its sixteen bytes. Every sixteen bytes are a slot.
    pub fn intepret_from_bytes(bytes: &[u8; 16]) -> (res: Result<Self, BTreeError>)
        ensures
            res == Ok::<Key, BTreeError>(Key::decode_at(bytes@, 0)),
    {
        Ok(
            Key {
                key: u64_from_le(
                    [
                        bytes[0],
                        bytes[1],
                        bytes[2],
                        bytes[3],
                        bytes[4],
                        bytes[5],
                        bytes[6],
                        bytes[7],
                    ],
                ),
                left_child_page: u32_from_le([bytes[8], bytes[9], bytes[10], bytes[11]]),
                value_offset: u16_from_le([bytes[12], bytes[13]]),
                value_len: u16_from_le([bytes[14], bytes[15]]),
            },
        )
    }
}

/// The page `s` after `key` has been put in as slot `idx`: the slots from
/// `idx` on lie one place higher, and the header counts one slot more.
#[verifier::opaque]
pub open spec fn slot_inserted(s: Seq<u8>, idx: int, key: Key) -> Seq<u8> {
    let h = Header::decode(s);
    let grown = Header {
        num_keys: (h.num_keys + 1) as u16,
        free_start: (h.free_start + KEY_SIZE) as u16,
        ..h
    };
    let shifted = moved(s, slot_pos(idx), free_start(s), slot_pos(idx) + KEY_SIZE);
    overwrite(overwrite(shifted, slot_pos(idx), key.encode()), 0, grown.encode())
}

/// The page `s` after slot `idx` has been taken out: the slots behind it
/// lie one place lower, and the header counts one slot less.
#[verifier::opaque]
pub open spec fn slot_removed(s: Seq<u8>, idx: int) -> Seq<u8> {
    let h = Header::decode(s);
    let shrunk = Header {
        num_keys: (h.num_keys - 1) as u16,
        free_start: (h.free_start - KEY_SIZE) as u16,
        ..h
    };
    let shifted = moved(s, slot_pos(idx) + KEY_SIZE, free_start(s), slot_pos(idx));
    overwrite(shifted, 0, shrunk.encode())
}

/// Slots that are stored in the same bytes are the same.
pub proof fn lemma_same_slot(s: Seq<u8>, p: int, t: Seq<u8>, q: int)
    requires
        0 <= p && p + 16 <= s.len(),
        0 <= q && q + 16 <= t.len(),
        s.subrange(p, p + 16) == t.subrange(q, q + 16),
    ensures
        Key::decode_at(s, p) == Key::decode_at(t, q),
{
    let a = s.subrange(p, p + 16);
    let b = t.subrange(q, q + 16);
    assert(s[p + 0] == a[0] && t[q + 0] == b[0]);
    assert(s[p + 1] == a[1] && t[q + 1] == b[1]);
    assert(s[p + 2] == a[2] && t[q + 2] == b[2]);
    assert(s[p + 3] == a[3] && t[q + 3] == b[3]);
    assert(s[p + 4] == a[4] && t[q + 4] == b[4]);
    assert(s[p + 5] == a[5] && t[q + 5] == b[5]);
    assert(s[p + 6] == a[6] && t[q + 6] == b[6]);
    assert(s[p + 7] == a[7] && t[q + 7] == b[7]);
    assert(s[p + 8] == a[8] && t[q + 8] == b[8]);
    assert(s[p + 9] == a[9] && t[q + 9] == b[9]);
    assert(s[p + 10] == a[10] && t[q + 10] == b[10]);
    assert(s[p + 11] == a[11] && t[q + 11] == b[11]);
    assert(s[p + 12] == a[12] && t[q + 12] == b[12]);
    assert(s[p + 13] == a[13] && t[q + 13] == b[13]);
    assert(s[p + 14] == a[14] && t[q + 14] == b[14]);
    assert(s[p + 15] == a[15] && t[q + 15] == b[15]);
}

/// `slot_inserted`, byte by byte.
pub proof fn lemma_slot_inserted_bytes(s: Seq<u8>, idx: int, key: Key)
    requires
        geometry_ok(s),
        0 <= idx <= num_keys(s),
        free_end(s) - free_start(s) >= KEY_SIZE,
    ensures
        ({
            let t = slot_inserted(s, idx, key);
            let grown = Header {
                num_keys: (num_keys(s) + 1) as u16,
                free_start: (free_start(s) + KEY_SIZE) as u16,
                ..Header::decode(s)
            };
            &&& t.len() == 4096
            &&& t.subrange(0, 14) == grown.encode()
            &&& forall|p: int| 14 <= p < slot_pos(idx) ==> #[trigger] t[p] == s[p]
            &&& t.subrange(slot_pos(idx), slot_pos(idx) + 16) == key.encode()
            &&& forall|p: int|
                slot_pos(idx) + 16 <= p < free_start(s) + 16 ==> #[trigger] t[p] == s[p - 16]
            &&& forall|p: int| free_start(s) + 16 <= p < 4096 ==> #[trigger] t[p] == s[p]
        }),
{
    reveal(slot_inserted);
    let t = slot_inserted(s, idx, key);
    let h = Header::decode(s);
    let grown = Header {
        num_keys: (h.num_keys + 1) as u16,
        free_start: (h.free_start + KEY_SIZE) as u16,
        ..h
    };
    let he = grown.encode();
    let ke = key.encode();
    let pos = slot_pos(idx);
    let fs = free_start(s);
    let shifted = moved(s, pos, fs, pos + KEY_SIZE);
    let placed = overwrite(shifted, pos, ke);
    assert(he.len() == 14) by {
        grown.lemma_round_trip();
    }
    assert(ke.len() == 16) by {
        key.lemma_round_trip();
    }
    assert(t == overwrite(placed, 0, he));
    assert(t.len() == 4096);
    assert forall|p: int| 0 <= p < 14 implies #[trigger] t[p] == he[p] by {}
    assert forall|p: int| 14 <= p < 4096 implies #[trigger] t[p] == placed[p] by {}
    assert forall|p: int| pos <= p < pos + 16 implies #[trigger] placed[p] == ke[p - pos] by {}
    assert forall|p: int| 0 <= p < 4096 && !(pos <= p < pos + 16) implies #[trigger] placed[p]
        == shifted[p] by {}
    assert forall|p: int| pos + 16 <= p < fs + 16 implies #[trigger] shifted[p] == s[p - 16] by {}
    assert forall|p: int| 0 <= p < 4096 && !(pos + 16 <= p < fs + 16) implies #[trigger] shifted[p]
        == s[p] by {}
    assert(t.subrange(0, 14) =~= he);
    assert(t.subrange(pos, pos + 16) =~= ke);
}

/// What `slot_inserted` does to the header, the slot array and the rest.
pub proof fn lemma_slot_inserted(s: Seq<u8>, idx: int, key: Key)
    requires
        geometry_ok(s),
        0 <= idx <= num_keys(s),
        free_end(s) - free_start(s) >= KEY_SIZE,
    ensures
        ({
            let t = slot_inserted(s, idx, key);
            &&& geometry_ok(t)
            &&& Header::decode(t) == (Header {
                num_keys: (num_keys(s) + 1) as u16,
                free_start: (free_start(s) + KEY_SIZE) as u16,
                ..Header::decode(s)
            })
            &&& slots(t) == slots(s).insert(idx, key)
            &&& forall|i: int| 0 <= i < idx ==> #[trigger] slot(t, i) == slot(s, i)
            &&& slot(t, idx) == key
            &&& forall|i: int| idx < i <= num_keys(s) ==> #[trigger] slot(t, i) == slot(s, i - 1)
            &&& forall|p: int| free_start(s) + KEY_SIZE <= p < 4096 ==> #[trigger] t[p] == s[p]
        }),
{
    let t = slot_inserted(s, idx, key);
    let grown = Header {
        num_keys: (num_keys(s) + 1) as u16,
        free_start: (free_start(s) + KEY_SIZE) as u16,
        ..Header::decode(s)
    };
    lemma_slot_inserted_bytes(s, idx, key);
    grown.lemma_round_trip();
    key.lemma_round_trip();
    assert(Header::decode(t) == grown && Header::valid_tag(t)) by {
        lemma_same_header(t, grown.encode());
    }
    assert forall|i: int| 0 <= i < idx implies #[trigger] slot(t, i) == slot(s, i) by {
        assert(t.subrange(slot_pos(i), slot_pos(i) + 16) =~= s.subrange(
            slot_pos(i),
            slot_pos(i) + 16,
        ));
        lemma_same_slot(t, slot_pos(i), s, slot_pos(i));
    }
    assert(slot(t, idx) == key) by {
        assert(key.encode().subrange(0, 16) =~= key.encode());
        lemma_same_slot(t, slot_pos(idx), key.encode(), 0);
    }
    assert forall|i: int| idx < i <= num_keys(s) implies #[trigger] slot(t, i) == slot(
        s,
        i - 1,
    ) by {
        assert(t.subrange(slot_pos(i), slot_pos(i) + 16) =~= s.subrange(
            slot_pos(i - 1),
            slot_pos(i - 1) + 16,
        ));
        lemma_same_slot(t, slot_pos(i), s, slot_pos(i - 1));
    }
    assert(slots(t) =~= slots(s).insert(idx, key));
}

/// What `slot_removed` does to the header, the slot array and the rest.
pub proof fn lemma_slot_removed(s: Seq<u8>, idx: int)
    requires
        geometry_ok(s),
        0 <= idx < num_keys(s),
    ensures
        ({
            let t = slot_removed(s, idx);
            &&& geometry_ok(t)
            &&& Header::decode(t) == (Header {
                num_keys: (num_keys(s) - 1) as u16,
                free_start: (free_start(s) - KEY_SIZE) as u16,
                ..Header::decode(s)
            })
            &&& slots(t) == slots(s).remove(idx)
            &&& forall|i: int| 0 <= i < idx ==> #[trigger] slot(t, i) == slot(s, i)
            &&& forall|i: int|
                idx <= i < num_keys(s) - 1 ==> #[trigger] slot(t, i) == slot(s, i + 1)
            &&& forall|p: int| free_start(s) - KEY_SIZE <= p < 4096 ==> #[trigger] t[p] == s[p]
        }),
{
    reveal(slot_removed);
    let t = slot_removed(s, idx);
    let h = Header::decode(s);
    let shrunk = Header {
        num_keys: (h.num_keys - 1) as u16,
        free_start: (h.free_start - KEY_SIZE) as u16,
        ..h
    };
    shrunk.lemma_round_trip();
    let e = shrunk.encode();
    assert(forall|p: int| 0 <= p < 14 ==> t[p] == e[p]);
    assert(Header::decode(t) == shrunk);
    assert forall|i: int| 0 <= i < idx implies #[trigger] slot(t, i) == slot(s, i) by {
        assert(t.subrange(slot_pos(i), slot_pos(i) + 16) =~= s.subrange(
            slot_pos(i),
            slot_pos(i) + 16,
        ));
        lemma_same_slot(t, slot_pos(i), s, slot_pos(i));
    }
    assert forall|i: int| idx <= i < num_keys(s) - 1 implies #[trigger] slot(t, i) == slot(
        s,
        i + 1,
    ) by {
        assert(t.subrange(slot_pos(i), slot_pos(i) + 16) =~= s.subrange(
            slot_pos(i + 1),
            slot_pos(i + 1) + 16,
        ));
        lemma_same_slot(t, slot_pos(i), s, slot_pos(i + 1));
    }
    assert(slots(t) =~= slots(s).remove(idx));
}

impl<'a> Node<'a> {
    /// Where slot `index` begins in the page.
    pub fn get_key_pos(&self, index: u16) -> (pos: u16)
        requires
            slot_pos(index as int) <= u16::MAX,
        ensures
            pos == slot_pos(index as int),
    {
        HEADER_SIZE + KEY_SIZE * index
    }

    /// Reads slot `index`, and says where it begins.
    pub fn read_key_at(&self, index: u16) -> (res: Result<(Key, usize), BTreeError>)
        requires
            self.bytes().len() == PAGE_SIZE,
            slot_pos(index as int) + KEY_SIZE <= PAGE_SIZE,
        ensures
            res == Ok::<(Key, usize), BTreeError>(
                (slot(self.bytes(), index as int), slot_pos(index as int) as usize),
            ),
    {
        let key_pos = self.get_key_pos(index) as usize;
        let b = self.get_page_slice(key_pos, 16);
        let bytes: [u8; 16] = [
            b[0],
            b[1],
            b[2],
            b[3],
            b[4],
            b[5],
            b[6],
            b[7],
            b[8],
            b[9],
            b[10],
            b[11],
            b[12],
            b[13],
            b[14],
            b[15],
        ];
        proof {
            assert(bytes@.subrange(0, 16) =~= self.bytes().subrange(
                key_pos as int,
                key_pos as int + 16,
            ));
            lemma_same_slot(bytes@, 0, self.bytes(), key_pos as int);
        }
        Ok((Key::intepret_from_bytes(&bytes)?, key_pos))
    }

    /// Stores `key` as slot `index`. The rest of the page stays as it is.
    pub(crate) fn mut_key_at(&mut self, index: u16, key: &Key)
        requires
            old(self).bytes().len() == PAGE_SIZE,
            slot_pos(index as int) + KEY_SIZE <= PAGE_SIZE,
        ensures
            final(self).bytes() == overwrite(
                old(self).bytes(),
                slot_pos(index as int),
                key.encode(),
            ),
            slot(final(self).bytes(), index as int) == *key,
            same_outside(
                old(self).bytes(),
                final(self).bytes(),
                slot_pos(index as int),
                slot_pos(index as int) + 16,
            ),
    {
        let key_pos = self.get_key_pos(index) as usize;
        let bytes = key.as_bytes();
        proof {
            key.lemma_round_trip();
        }
        self.write_at(key_pos, &bytes);
        proof {
            let t = self.bytes();
            assert(t.subrange(key_pos as int, key_pos as int + 16) =~= key.encode().subrange(0, 16));
            lemma_same_slot(self.bytes(), key_pos as int, key.encode(), 0);
        }
    }

    /// Puts `key` in as slot `idx`, moving the slots from `idx` on one place
    /// up. Needs room for one slot in the unallocated gap.
    pub fn insert_key_at(&mut self, key: &Key, idx: u16) -> (res: Result<(), BTreeError>)
        requires
            old(self).framed(),
            idx <= num_keys(old(self).bytes()),
            free_end(old(self).bytes()) - free_start(old(self).bytes()) >= KEY_SIZE,
        ensures
            res is Ok,
            final(self).bytes() == slot_inserted(old(self).bytes(), idx as int, *key),
            final(self).framed(),
            slots(final(self).bytes()) == slots(old(self).bytes()).insert(idx as int, *key),
            final(self).header() == (Header {
                num_keys: (num_keys(old(self).bytes()) + 1) as u16,
                free_start: (free_start(old(self).bytes()) + KEY_SIZE) as u16,
                ..old(self).header()
            }),
    {
        let header = self.read_header()?;
        let keys_end = header.free_start as usize;
        let pos = self.get_key_pos(idx);
        self.copy_within(pos as usize, keys_end, (pos + KEY_SIZE) as usize);
        self.mut_key_at(idx, key);
        let grown = Header {
            num_keys: header.num_keys + 1,
            free_start: header.free_start + KEY_SIZE,
            ..header
        };
        self.mutate_header(&grown);
        proof {
            reveal(slot_inserted);
            lemma_slot_inserted(old(self).bytes(), idx as int, *key);
        }
        Ok(())
    }

    /// Takes slot `idx` out, moving the slots behind it one place down.
    pub fn pop_key_at(&mut self, idx: u16) -> (res: Result<Key, BTreeError>)
        requires
            old(self).framed(),
            idx < num_keys(old(self).bytes()),
        ensures
            res == Ok::<Key, BTreeError>(slot(old(self).bytes(), idx as int)),
            final(self).bytes() == slot_removed(old(self).bytes(), idx as int),
            final(self).framed(),
            slots(final(self).bytes()) == slots(old(self).bytes()).remove(idx as int),
            final(self).header() == (Header {
                num_keys: (num_keys(old(self).bytes()) - 1) as u16,
                free_start: (free_start(old(self).bytes()) - KEY_SIZE) as u16,
                ..old(self).header()
            }),
    {
        let key_pos = self.get_key_pos(idx);
        let (key, _) = self.read_key_at(idx)?;
        let header = self.read_header()?;
        let keys_end = header.free_start as usize;
        self.copy_within((key_pos + KEY_SIZE) as usize, keys_end, key_pos as usize);
        let shrunk = Header {
            num_keys: header.num_keys - 1,
            free_start: header.free_start - KEY_SIZE,
            ..header
        };
        self.mutate_header(&shrunk);
        proof {
            reveal(slot_removed);
            lemma_slot_removed(old(self).bytes(), idx as int);
        }
        Ok(key)
    }

    /// Looks `key` up in the slot array by binary search. With `found`,
    /// `idx` is the slot that holds `key`; without, it is where `key`
    /// would go: behind every smaller key and before every larger one.
    pub fn find_le_key_idx(&self, key: u64) -> (res: Result<(usize, bool), BTreeError>)
        requires
            self.framed(),
            keys_ascending(slots(self.bytes())),
        ensures
            res is Ok,
            ({
                let (idx, found) = res.unwrap();
                let ks = slots(self.bytes());
                &&& idx <= ks.len()
                &&& found == has_key(self.bytes(), key)
                &&& found ==> idx < ks.len() && ks[idx as int].key == key
                &&& forall|i: int| 0 <= i < idx ==> (#[trigger] ks[i]).key < key
                &&& forall|i: int|
                    idx <= i < ks.len() && !(found && i == idx) ==> key < (#[trigger] ks[i]).key
            }),
    {
        let header = self.read_header()?;
        let count = header.num_keys;
        let ghost ks = slots(self.bytes());
        let mut low: u16 = 0;
        let mut high: u16 = count;
        while low < high
            invariant
                self.framed(),
                ks == slots(self.bytes()),
                keys_ascending(ks),
                count == ks.len(),
                low <= high <= count,
                forall|i: int| 0 <= i < low ==> (#[trigger] ks[i]).key < key,
                forall|i: int| high <= i < count ==> key < (#[trigger] ks[i]).key,
            decreases high - low,
        {
            let mid: u16 = (low + high) / 2;
            let (current, _) = self.read_key_at(mid)?;
            let current_key = current.key;
            assert(ks[mid as int].key == current_key);
            if current_key == key {
                return Ok((mid as usize, true));
            } else if current_key < key {
                low = mid + 1;
            } else {
                high = mid;
            }
        }
        Ok((low as usize, false))
    }
}

} // verus!
