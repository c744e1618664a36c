//! The shape of a page: its slots, its freeblocks, where its payload
//! region begins and how many bytes count as fragmented. The policies of
//! the allocator are stated here as functions from shape to shape.

use vstd::prelude::*;
use super::key::Key;
use super::layout::{first_fit, frag_add, packed_slots, rank};
use super::model::{blocks, Extent, extent_of, extents, fragmented, free_end, slots, total};

verus! {

/// The shape of a page.
pub struct Shape {
    pub slots: Seq<Key>,
    pub blocks: Seq<Extent>,
    pub free_end: int,
    pub fragmented: int,
}

/// The shape of the page `s`.
pub open spec fn shape(s: Seq<u8>) -> Shape {
    Shape { slots: slots(s), blocks: blocks(s), free_end: free_end(s), fragmented: fragmented(s) }
}

/// The number of keys of `ks` that are smaller than `key`: the slot in
/// which `key` is, or into which it belongs.
pub open spec fn place_of(ks: Seq<Key>, key: u64) -> int
    decreases ks.len(),
{
    if ks.len() == 0 {
        0
    } else if ks.last().key < key {
        place_of(ks.drop_last(), key) + 1
    } else {
        place_of(ks.drop_last(), key)
    }
}

/// The chain after the first block that holds `v` bytes has given them:
/// the block is gone, or shorter by `v` bytes if four or more are left.
pub open spec fn fitted_blocks(bl: Seq<Extent>, v: int) -> Seq<Extent> {
    let j = first_fit(bl, v);
    if j >= bl.len() {
        bl
    } else if bl[j].len - v >= 4 {
        bl.update(j, Extent { start: bl[j].start + v, len: bl[j].len - v })
    } else {
        bl.remove(j)
    }
}

/// The count of fragmented bytes after the first block that holds `v`
/// bytes has given them: what is left of the block, if that is fewer than
/// four bytes, is added.
pub open spec fn fitted_fragmented(bl: Seq<Extent>, frag: int, v: int) -> int {
    let j = first_fit(bl, v);
    if j < bl.len() && 0 < bl[j].len - v < 4 {
        frag_add(frag, bl[j].len - v)
    } else {
        frag
    }
}

impl Shape {
    /// Where the slot array ends.
    pub open spec fn free_start(self) -> int {
        14 + 16 * (self.slots.len() as int)
    }

    /// The bytes between the slot array and the payload region.
    pub open spec fn unallocated(self) -> int {
        self.free_end - self.free_start()
    }

    /// The space that can be reclaimed.
    pub open spec fn free_space(self) -> int {
        self.unallocated() + total(self.blocks) + self.fragmented
    }

    /// The free policy. The run `e` goes to the unallocated gap if it
    /// begins the payload region; else, if it is shorter than a
    /// descriptor, to the fragmented bytes, which are counted up to 255;
    /// else it joins the chain where its offset places it.
    pub open spec fn released(self, e: Extent) -> Shape {
        if e.start == self.free_end {
            Shape { free_end: self.free_end + e.len, ..self }
        } else if e.len < 4 {
            Shape { fragmented: frag_add(self.fragmented, e.len), ..self }
        } else {
            Shape { blocks: self.blocks.insert(rank(self.blocks, e.start), e), ..self }
        }
    }

    /// Defragmentation. The values lie packed against the end of the page
    /// in slot order; no freeblock and no fragmented byte is left.
    pub open spec fn packed(self) -> Shape {
        Shape {
            slots: packed_slots(self.slots),
            blocks: Seq::empty(),
            free_end: 4096 - total(extents(self.slots)),
            fragmented: 0,
        }
    }

    /// The allocation policy, first part: where `v` bytes are found. They
    /// are the top of the unallocated gap if it holds `v + margin` bytes;
    /// else the first bytes of the first freeblock that holds `v`; else
    /// the top of the gap after defragmentation.
    pub open spec fn granted_at(self, v: int, margin: int) -> int {
        if self.unallocated() >= margin + v {
            self.free_end - v
        } else if first_fit(self.blocks, v) < self.blocks.len() {
            self.blocks[first_fit(self.blocks, v)].start
        } else {
            self.packed().free_end - v
        }
    }

    /// The allocation policy, second part: the shape once `v` bytes have
    /// been found.
    pub open spec fn granted(self, v: int, margin: int) -> Shape {
        if self.unallocated() >= margin + v {
            Shape { free_end: self.free_end - v, ..self }
        } else if first_fit(self.blocks, v) < self.blocks.len() {
            Shape {
                blocks: fitted_blocks(self.blocks, v),
                fragmented: fitted_fragmented(self.blocks, self.fragmented, v),
                ..self
            }
        } else {
            Shape { free_end: self.packed().free_end - v, ..self.packed() }
        }
    }

    /// The shape once slot `idx`, which has no value, has got one of `v`
    /// bytes by the allocation policy.
    pub open spec fn stored(self, idx: int, v: int, margin: int) -> Shape {
        let found = self.granted(v, margin);
        Shape {
            slots: found.slots.update(
                idx,
                Key {
                    value_offset: self.granted_at(v, margin) as u16,
                    value_len: v as u16,
                    ..found.slots[idx]
                },
            ),
            ..found
        }
    }

    /// Whether `key` is stored.
    pub open spec fn holds(self, key: u64) -> bool {
        let idx = place_of(self.slots, key);
        idx < self.slots.len() && self.slots[idx].key == key
    }

    /// The shape once the value of slot `idx` has been given back by the
    /// free policy, the slot keeping its key.
    pub open spec fn cleared(self, idx: int) -> Shape {
        (Shape {
            slots: self.slots.update(idx, Key { value_len: 0, ..self.slots[idx] }),
            ..self
        }).released(extent_of(self.slots[idx]))
    }

    /// The space that `insert` can draw on for `key`: the space that can
    /// be reclaimed, counted after the value that `key` has now, if it
    /// has one, has been given back.
    pub open spec fn room_for(self, key: u64) -> int {
        if self.holds(key) {
            self.cleared(place_of(self.slots, key)).free_space()
        } else {
            self.free_space()
        }
    }

    /// The shape after `insert` has stored a value of `v` bytes under
    /// `key`. A value that `key` has is given back first, and the new one
    /// is found with room for a slot to spare. For a new key the page is
    /// defragmented first if the unallocated gap holds no slot; then a
    /// slot goes in where the key belongs and the value is found.
    pub open spec fn inserted(self, key: u64, v: int) -> Shape {
        let idx = place_of(self.slots, key);
        if self.holds(key) {
            self.cleared(idx).stored(idx, v, 16)
        } else {
            let roomy = if self.unallocated() < 16 {
                self.packed()
            } else {
                self
            };
            (Shape {
                slots: roomy.slots.insert(
                    idx,
                    Key { key, left_child_page: 0, value_offset: 0, value_len: 0 },
                ),
                ..roomy
            }).stored(idx, v, 0)
        }
    }

    /// The shape after `delete` has removed `key`: the slot is gone and
    /// its value given back by the free policy.
    pub open spec fn deleted(self, key: u64) -> Shape {
        let idx = place_of(self.slots, key);
        if self.holds(key) {
            (Shape { slots: self.slots.remove(idx), ..self }).released(
                extent_of(self.slots[idx]),
            )
        } else {
            self
        }
    }
}

/// The slots before `idx` hold smaller keys and the others do not: then
/// `idx` is the place of `key`.
pub proof fn lemma_place_of(ks: Seq<Key>, key: u64, idx: int)
    requires
        0 <= idx <= ks.len(),
        forall|i: int| 0 <= i < idx ==> (#[trigger] ks[i]).key < key,
        forall|i: int| idx <= i < ks.len() ==> key <= (#[trigger] ks[i]).key,
    ensures
        place_of(ks, key) == idx,
    decreases ks.len(),
{
    if ks.len() > 0 {
        let rest = ks.drop_last();
        if idx == ks.len() {
            assert(ks.last().key < key);
            assert forall|i: int| 0 <= i < idx - 1 implies (#[trigger] rest[i]).key < key by {
                assert(rest[i] == ks[i]);
            }
            lemma_place_of(rest, key, idx - 1);
        } else {
            assert(key <= ks.last().key);
            assert forall|i: int| 0 <= i < idx implies (#[trigger] rest[i]).key < key by {
                assert(rest[i] == ks[i]);
            }
            assert forall|i: int| idx <= i < rest.len() implies key <= (#[trigger] rest[i]).key by {
                assert(rest[i] == ks[i]);
            }
            lemma_place_of(rest, key, idx);
        }
    }
}

} // verus!
