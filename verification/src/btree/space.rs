//! The payload allocator: how much room a page has, how a value gets its
//! bytes and how they are given back.

use vstd::prelude::*;
use super::{Node, overwrite};
use super::endian::u16_at;
use super::errors::BTreeError;
use super::frame::{
    lemma_descriptor_kept, lemma_frame_links, lemma_frame_slots, lemma_frame_value,
    lemma_links_inserted, same_outside,
};
use super::header::{Header, lemma_same_header};
use super::key::lemma_same_slot;
use super::layout::{
    hole, lemma_rank, lemma_release_block, lemma_release_border, lemma_release_fragment, rank,
};
use super::model::{
    blocks, disjoint, Extent, extent_of, extents, first_freeblock, fragmented, free_end,
    free_space, free_start, geometry_ok, layout_ok, lemma_chain_unique, lemma_total_take, links_ok,
    num_keys, slot, slot_pos, slots, total, unallocated, value_of, well_formed,
};
use super::shape::shape;

verus! {

/// Whether `t` holds the slots of `s`, each with the bytes of its value.
pub open spec fn same_content(s: Seq<u8>, t: Seq<u8>) -> bool {
    &&& slots(t) == slots(s)
    &&& forall|i: int|
        0 <= i < slots(s).len() ==> value_of(t, #[trigger] slots(s)[i]) == value_of(
            s,
            slots(s)[i],
        )
}

/// A page whose header, slots and chain are in order is well formed, and
/// the chain is the one that the links lead through.
pub proof fn lemma_wf_from(t: Seq<u8>, bl: Seq<Extent>)
    requires
        geometry_ok(t),
        layout_ok(slots(t), bl, free_end(t), fragmented(t)),
        links_ok(t, first_freeblock(t), bl),
    ensures
        blocks(t) == bl,
        well_formed(t),
{
    lemma_chain_unique(t, first_freeblock(t), free_end(t), bl);
}

/// Every run of a value or of a block has a length of zero or more, so the
/// sums of a well formed page are zero or more.
pub proof fn lemma_totals_nonneg(s: Seq<u8>)
    requires
        well_formed(s),
    ensures
        0 <= total(extents(slots(s))),
        0 <= total(blocks(s)),
        free_space(s) <= 4096 - free_start(s),
        unallocated(s) <= free_space(s),
{
    let ex = extents(slots(s));
    let bl = blocks(s);
    assert forall|j: int| 0 <= j < ex.len() implies 0 <= (#[trigger] ex[j]).len by {}
    assert forall|j: int| 0 <= j < bl.len() implies 0 <= (#[trigger] bl[j]).len by {}
    lemma_total_take(ex, ex.len() as int);
    lemma_total_take(bl, bl.len() as int);
    assert(ex.take(ex.len() as int) =~= ex);
    assert(bl.take(bl.len() as int) =~= bl);
}

/// Storing a header that counts as many slots as before leaves the slots
/// and everything behind the header.
pub proof fn lemma_header_stored(s: Seq<u8>, h: Header)
    requires
        geometry_ok(s),
        h.num_keys == num_keys(s),
    ensures
        ({
            let t = overwrite(s, 0, h.encode());
            &&& Header::decode(t) == h
            &&& Header::valid_tag(t)
            &&& same_outside(s, t, 0, 14)
            &&& slots(t) == slots(s)
        }),
{
    let t = overwrite(s, 0, h.encode());
    h.lemma_round_trip();
    assert(t.subrange(0, 14) =~= h.encode());
    lemma_same_header(t, h.encode());
    assert forall|i: int| 0 <= i < num_keys(s) implies slot(t, i) == slot(s, i) by {
        assert(t.subrange(slot_pos(i), slot_pos(i) + 16) =~= s.subrange(
            slot_pos(i),
            slot_pos(i) + 16,
        ));
        lemma_same_slot(t, slot_pos(i), s, slot_pos(i));
    }
    assert(slots(t) =~= slots(s));
}

/// A write behind the slot array that touches no value leaves the
/// header, the slots and the values.
pub proof fn lemma_payload_write(s: Seq<u8>, t: Seq<u8>, lo: int, hi: int)
    requires
        geometry_ok(s),
        same_outside(s, t, lo, hi),
        free_start(s) <= lo,
        forall|i: int|
            0 <= i < slots(s).len() ==> (#[trigger] slots(s)[i]).value_offset + slots(
                s,
            )[i].value_len <= 4096 && (slots(s)[i].value_len == 0 || slots(s)[i].value_offset
                + slots(s)[i].value_len <= lo || hi <= slots(s)[i].value_offset),
    ensures
        Header::decode(t) == Header::decode(s),
        geometry_ok(t),
        same_content(s, t),
{
    lemma_frame_slots(s, t, lo, hi);
    let ks = slots(s);
    assert forall|i: int| 0 <= i < ks.len() implies value_of(t, #[trigger] ks[i]) == value_of(
        s,
        ks[i],
    ) by {
        lemma_frame_value(s, t, lo, hi, ks[i]);
    }
}

/// A write into a hole changes nothing that the page means.
pub proof fn lemma_hole_write(s: Seq<u8>, t: Seq<u8>, e: Extent, lo: int, hi: int)
    requires
        well_formed(s),
        hole(e, slots(s), blocks(s), free_end(s), fragmented(s)),
        e.start <= lo <= hi <= e.start + e.len,
        same_outside(s, t, lo, hi),
    ensures
        well_formed(t),
        Header::decode(t) == Header::decode(s),
        same_content(s, t),
        blocks(t) == blocks(s),
        hole(e, slots(t), blocks(t), free_end(t), fragmented(t)),
{
    let ks = slots(s);
    let bl = blocks(s);
    if lo == hi {
        assert(t =~= s);
    } else {
        assert forall|i: int| 0 <= i < ks.len() implies (#[trigger] ks[i]).value_offset
            + ks[i].value_len <= 4096 && (ks[i].value_len == 0 || ks[i].value_offset
            + ks[i].value_len <= lo || hi <= ks[i].value_offset) by {
            if ks[i].value_len > 0 {
                assert(disjoint(extent_of(ks[i]), e));
            }
        }
        lemma_payload_write(s, t, lo, hi);
        assert forall|j: int| 0 <= j < bl.len() implies 0 <= (#[trigger] bl[j]).start
            && bl[j].start + 4 <= s.len() && (bl[j].start + 4 <= lo || hi <= bl[j].start) by {
            assert(disjoint(bl[j], e));
            assert(4 <= bl[j].len);
        }
        lemma_frame_links(s, t, lo, hi, first_freeblock(s), bl);
        lemma_wf_from(t, bl);
    }
}

/// Storing a header that differs in the start of the payload region and
/// the count of fragmented bytes, where the layout stays in order with
/// them, changes nothing else.
pub proof fn lemma_header_adjusted(s: Seq<u8>, h: Header)
    requires
        well_formed(s),
        h == (Header {
            free_end: h.free_end,
            fragmented_bytes: h.fragmented_bytes,
            ..Header::decode(s)
        }),
        free_start(s) <= h.free_end,
        layout_ok(slots(s), blocks(s), h.free_end as int, h.fragmented_bytes as int),
    ensures
        ({
            let t = overwrite(s, 0, h.encode());
            &&& well_formed(t)
            &&& Header::decode(t) == h
            &&& same_content(s, t)
            &&& blocks(t) == blocks(s)
        }),
{
    let t = overwrite(s, 0, h.encode());
    let ks = slots(s);
    let bl = blocks(s);
    lemma_header_stored(s, h);
    assert forall|i: int| 0 <= i < ks.len() implies value_of(t, #[trigger] ks[i]) == value_of(
        s,
        ks[i],
    ) by {
        assert(ks[i].value_offset + ks[i].value_len <= 4096);
        lemma_frame_value(s, t, 0, 14, ks[i]);
    }
    assert forall|j: int| 0 <= j < bl.len() implies 0 <= (#[trigger] bl[j]).start && bl[j].start
        + 4 <= s.len() && (bl[j].start + 4 <= 0 || 14 <= bl[j].start) by {
        assert(4 <= bl[j].len);
    }
    lemma_frame_links(s, t, 0, 14, first_freeblock(s), bl);
    lemma_wf_from(t, bl);
}

/// The descriptors of `bl` that a write does not touch hold what they held.
pub proof fn lemma_descriptors_kept(
    s: Seq<u8>,
    t: Seq<u8>,
    lo: int,
    hi: int,
    bl: Seq<Extent>,
    skip: int,
)
    requires
        same_outside(s, t, lo, hi),
        forall|j: int|
            0 <= j < bl.len() && j != skip ==> 0 <= (#[trigger] bl[j]).start && bl[j].start + 4
                <= s.len() && (bl[j].start + 4 <= lo || hi <= bl[j].start),
    ensures
        forall|j: int|
            0 <= j < bl.len() && j != skip ==> u16_at(t, (#[trigger] bl[j]).start) == u16_at(
                s,
                bl[j].start,
            ) && u16_at(t, bl[j].start + 2) == u16_at(s, bl[j].start + 2),
{
    assert forall|j: int| 0 <= j < bl.len() && j != skip implies u16_at(
        t,
        (#[trigger] bl[j]).start,
    ) == u16_at(s, bl[j].start) && u16_at(t, bl[j].start + 2) == u16_at(s, bl[j].start + 2) by {
        lemma_descriptor_kept(s, t, lo, hi, bl[j].start);
    }
}

/// In a well formed page the descriptor of a block lies clear of the
/// other blocks, of the values and of a hole.
pub proof fn lemma_descriptor_clear(s: Seq<u8>, e: Extent, j: int)
    requires
        well_formed(s),
        hole(e, slots(s), blocks(s), free_end(s), fragmented(s)),
        0 <= j < blocks(s).len(),
    ensures
        ({
            let p = blocks(s)[j].start;
            &&& free_start(s) <= p && p + 4 <= 4096
            &&& forall|i: int|
                0 <= i < blocks(s).len() && i != j ==> 0 <= (#[trigger] blocks(s)[i]).start
                    && blocks(s)[i].start + 4 <= 4096 && (blocks(s)[i].start + 4 <= p || p + 4
                    <= blocks(s)[i].start)
            &&& forall|i: int|
                0 <= i < slots(s).len() ==> (#[trigger] slots(s)[i]).value_offset + slots(
                    s,
                )[i].value_len <= 4096 && (slots(s)[i].value_len == 0 || slots(s)[i].value_offset
                    + slots(s)[i].value_len <= p || p + 4 <= slots(s)[i].value_offset)
            &&& e.len > 0 ==> e.start + e.len <= p || p + 4 <= e.start
        }),
{
    let bl = blocks(s);
    let ks = slots(s);
    let p = bl[j].start;
    assert(4 <= bl[j].len);
    assert forall|i: int| 0 <= i < bl.len() && i != j implies 0 <= (#[trigger] bl[i]).start
        && bl[i].start + 4 <= 4096 && (bl[i].start + 4 <= p || p + 4 <= bl[i].start) by {
        assert(4 <= bl[i].len);
        if i < j {
            assert(bl[i].start + bl[i].len <= bl[j].start);
        } else {
            assert(bl[j].start + bl[j].len <= bl[i].start);
        }
    }
    assert forall|i: int| 0 <= i < ks.len() implies (#[trigger] ks[i]).value_offset
        + ks[i].value_len <= 4096 && (ks[i].value_len == 0 || ks[i].value_offset
        + ks[i].value_len <= p || p + 4 <= ks[i].value_offset) by {
        if ks[i].value_len > 0 {
            assert(disjoint(extent_of(ks[i]), bl[j]));
        }
    }
    if e.len > 0 {
        assert(disjoint(bl[j], e));
    }
}

/// Linking a hole whose descriptor is written into the chain behind
/// block `pos - 1` makes it a freeblock.
pub proof fn lemma_block_linked_behind(s: Seq<u8>, t: Seq<u8>, e: Extent, pos: int)
    requires
        well_formed(s),
        hole(e, slots(s), blocks(s), free_end(s), fragmented(s)),
        4 <= e.len,
        0 < pos <= blocks(s).len(),
        forall|j: int| 0 <= j < pos ==> (#[trigger] blocks(s)[j]).start < e.start,
        forall|j: int| pos <= j < blocks(s).len() ==> e.start <= (#[trigger] blocks(s)[j]).start,
        u16_at(s, e.start) == if pos < blocks(s).len() {
            blocks(s)[pos].start
        } else {
            0
        },
        u16_at(s, e.start + 2) == e.len,
        same_outside(s, t, blocks(s)[pos - 1].start, blocks(s)[pos - 1].start + 4),
        u16_at(t, blocks(s)[pos - 1].start) == e.start,
        u16_at(t, blocks(s)[pos - 1].start + 2) == blocks(s)[pos - 1].len,
    ensures
        well_formed(t),
        Header::decode(t) == Header::decode(s),
        same_content(s, t),
        blocks(t) == blocks(s).insert(pos, e),
{
    let ks = slots(s);
    let bl = blocks(s);
    let head = first_freeblock(s);
    let p = bl[pos - 1].start;
    lemma_descriptor_clear(s, e, pos - 1);
    lemma_payload_write(s, t, p, p + 4);
    lemma_descriptors_kept(s, t, p, p + 4, bl, pos - 1);
    lemma_descriptor_kept(s, t, p, p + 4, e.start);
    assert(links_ok(t, head, bl.insert(pos, e))) by {
        lemma_links_inserted(s, t, head, head, bl, pos, e);
    }
    assert(layout_ok(ks, bl.insert(pos, e), free_end(s), fragmented(s))) by {
        lemma_release_block(ks, bl, free_end(s), fragmented(s), e, pos);
    }
    lemma_wf_from(t, bl.insert(pos, e));
}

/// Linking a hole whose descriptor is written into the chain as its
/// first block makes it a freeblock.
pub proof fn lemma_block_linked_first(s: Seq<u8>, t: Seq<u8>, e: Extent)
    requires
        well_formed(s),
        hole(e, slots(s), blocks(s), free_end(s), fragmented(s)),
        4 <= e.len,
        forall|j: int| 0 <= j < blocks(s).len() ==> e.start <= (#[trigger] blocks(s)[j]).start,
        u16_at(s, e.start) == if 0 < blocks(s).len() {
            blocks(s)[0].start
        } else {
            0
        },
        u16_at(s, e.start + 2) == e.len,
        same_outside(s, t, 0, 14),
        Header::valid_tag(t),
        Header::decode(t) == (Header { first_freeblock: e.start as u16, ..Header::decode(s) }),
    ensures
        well_formed(t),
        same_content(s, t),
        blocks(t) == blocks(s).insert(0, e),
{
    let ks = slots(s);
    let bl = blocks(s);
    let head = first_freeblock(s);
    assert forall|i: int| 0 <= i < ks.len() implies (#[trigger] ks[i]).value_offset
        + ks[i].value_len <= 4096 && (ks[i].value_len == 0 || 14 <= ks[i].value_offset) by {}
    lemma_header_kept_slots(s, t);
    assert forall|j: int| 0 <= j < bl.len() implies 0 <= (#[trigger] bl[j]).start && bl[j].start
        + 4 <= s.len() && (bl[j].start + 4 <= 0 || 14 <= bl[j].start) by {
        assert(4 <= bl[j].len);
    }
    lemma_descriptors_kept(s, t, 0, 14, bl, -1);
    lemma_descriptor_kept(s, t, 0, 14, e.start);
    assert(links_ok(t, e.start, bl.insert(0, e))) by {
        lemma_links_inserted(s, t, head, e.start, bl, 0, e);
    }
    assert(layout_ok(ks, bl.insert(0, e), free_end(s), fragmented(s))) by {
        lemma_release_block(ks, bl, free_end(s), fragmented(s), e, 0);
    }
    lemma_wf_from(t, bl.insert(0, e));
}

/// A page that differs only in its header, which counts the same slots,
/// has the same slots with the same values, if they lie behind the header.
pub proof fn lemma_header_kept_slots(s: Seq<u8>, t: Seq<u8>)
    requires
        geometry_ok(s),
        same_outside(s, t, 0, 14),
        num_keys(t) == num_keys(s),
        forall|i: int|
            0 <= i < slots(s).len() ==> (#[trigger] slots(s)[i]).value_offset + slots(
                s,
            )[i].value_len <= 4096 && (slots(s)[i].value_len == 0 || 14 <= slots(
                s,
            )[i].value_offset),
    ensures
        same_content(s, t),
{
    let ks = slots(s);
    assert forall|i: int| 0 <= i < num_keys(s) implies slot(t, i) == slot(s, i) by {
        assert(t.subrange(slot_pos(i), slot_pos(i) + 16) =~= s.subrange(
            slot_pos(i),
            slot_pos(i) + 16,
        ));
        lemma_same_slot(t, slot_pos(i), s, slot_pos(i));
    }
    assert(slots(t) =~= slots(s));
    assert forall|i: int| 0 <= i < ks.len() implies value_of(t, #[trigger] ks[i]) == value_of(
        s,
        ks[i],
    ) by {
        lemma_frame_value(s, t, 0, 14, ks[i]);
    }
}

impl<'a> Node<'a> {
    /// The number of bytes between the slot array and the payload region.
    pub fn unallocated_space(&self) -> (res: Result<u16, BTreeError>)
        requires
            self.framed(),
        ensures
            res == Ok::<u16, BTreeError>(unallocated(self.bytes()) as u16),
    {
        let header = self.read_header()?;
        Ok(header.free_end - header.free_start)
    }

    /// The number of bytes that can be reclaimed: the unallocated gap, the
    /// fragmented bytes and the freeblocks.
    pub fn free_space(&self) -> (res: Result<u16, BTreeError>)
        requires
            self.wf(),
        ensures
            res == Ok::<u16, BTreeError>(free_space(self.bytes()) as u16),
    {
        let header = self.read_header()?;
        let ghost s = self.bytes();
        let ghost bl = blocks(s);
        proof {
            lemma_totals_nonneg(s);
            assert forall|j: int| 0 <= j < bl.len() implies 0 <= (#[trigger] bl[j]).len by {}
            lemma_total_take(bl, 0);
            assert(bl.take(0) =~= Seq::<Extent>::empty());
        }
        let mut total_space: u16 = (header.free_end - header.free_start)
            + header.fragmented_bytes as u16;
        let mut freeblock_offset: u16 = header.first_freeblock;
        let ghost mut i: int = 0;
        while freeblock_offset != 0
            invariant
                s == self.bytes(),
                bl == blocks(s),
                well_formed(s),
                0 <= i <= bl.len(),
                freeblock_offset == if i < bl.len() {
                    bl[i].start
                } else {
                    0
                },
                total_space == unallocated(s) + fragmented(s) + total(bl.take(i)),
                forall|j: int| 0 <= j < bl.len() ==> 0 <= (#[trigger] bl[j]).len,
                free_space(s) <= 4096,
            decreases bl.len() - i,
        {
            let freeblock = self.read_freeblock(freeblock_offset as usize)?;
            proof {
                lemma_total_take(bl, i);
                lemma_total_take(bl, i + 1);
                assert(u16_at(s, bl[i].start + 2) == bl[i].len);
                if i + 1 < bl.len() {
                    assert(u16_at(s, bl[i].start) == bl[i + 1].start);
                }
            }
            total_space += freeblock.size;
            freeblock_offset = freeblock.next_freeblock;
            proof {
                i = i + 1;
            }
        }
        proof {
            if i < bl.len() {
                assert(bl[i].start >= free_end(s));
            }
            assert(bl.take(bl.len() as int) =~= bl);
        }
        Ok(total_space)
    }

    /// Gives the run of `len` bytes at `offset` back: to the unallocated
    /// gap if it begins the payload region; else, if it is too short for a
    /// descriptor, to the count of fragmented bytes; else to the chain of
    /// freeblocks, where its offset places it. Blocks that touch are not
    /// joined.
    pub(crate) fn reclaim(&mut self, offset: u16, len: u16) -> (res: Result<(), BTreeError>)
        requires
            old(self).wf(),
            hole(
                Extent { start: offset as int, len: len as int },
                slots(old(self).bytes()),
                blocks(old(self).bytes()),
                free_end(old(self).bytes()),
                fragmented(old(self).bytes()),
            ),
        ensures
            res is Ok,
            final(self).wf(),
            same_content(old(self).bytes(), final(self).bytes()),
            free_start(final(self).bytes()) == free_start(old(self).bytes()),
            shape(final(self).bytes()) == shape(old(self).bytes()).released(
                Extent { start: offset as int, len: len as int },
            ),
    {
        let ghost s = self.bytes();
        let ghost e = Extent { start: offset as int, len: len as int };
        let header = self.read_header()?;
        if offset == header.free_end {
            let raised = Header { free_end: header.free_end + len, ..header };
            proof {
                lemma_release_border(slots(s), blocks(s), free_end(s), fragmented(s), e);
                lemma_header_adjusted(s, raised);
            }
            self.mutate_header(&raised);
        } else if len < 4 {
            let frag: u8 = if header.fragmented_bytes as u16 + len > 255 {
                255
            } else {
                header.fragmented_bytes + len as u8
            };
            let counted = Header { fragmented_bytes: frag, ..header };
            proof {
                lemma_release_fragment(
                    slots(s),
                    blocks(s),
                    free_end(s),
                    fragmented(s),
                    e,
                    frag as int,
                );
                lemma_header_adjusted(s, counted);
            }
            self.mutate_header(&counted);
        } else {
            self.link_block(offset, len)?;
        }
        Ok(())
    }

    /// Walks the chain to where a block at `offset` belongs. Returns the
    /// offset of the block before that place, if there is one, and the
    /// offset of the block behind it, or `0`.
    pub(crate) fn find_rank(&self, offset: u16) -> (found: Result<(Option<u16>, u16), BTreeError>)
        requires
            self.wf(),
        ensures
            found is Ok,
            ({
                let bl = blocks(self.bytes());
                let pos = rank(bl, offset as int);
                let res = found.unwrap();
                &&& 0 <= pos <= bl.len()
                &&& res.0 == if pos > 0 {
                    Some(bl[pos - 1].start as u16)
                } else {
                    None::<u16>
                }
                &&& res.1 == if pos < bl.len() {
                    bl[pos].start
                } else {
                    0
                }
                &&& forall|j: int| 0 <= j < pos ==> (#[trigger] bl[j]).start < offset
                &&& forall|j: int| pos <= j < bl.len() ==> offset <= (#[trigger] bl[j]).start
            }),
    {
        let ghost s = self.bytes();
        let ghost bl = blocks(s);
        let mut prev_offset: Option<u16> = None;
        let mut curr_offset: u16 = self.read_header()?.first_freeblock;
        let ghost mut pos: int = 0;
        while curr_offset != 0 && curr_offset < offset
            invariant
                s == self.bytes(),
                bl == blocks(s),
                well_formed(s),
                0 <= pos <= bl.len(),
                curr_offset == if pos < bl.len() {
                    bl[pos].start
                } else {
                    0
                },
                prev_offset == if pos > 0 {
                    Some(bl[pos - 1].start as u16)
                } else {
                    None::<u16>
                },
                forall|j: int| 0 <= j < pos ==> (#[trigger] bl[j]).start < offset,
            decreases bl.len() - pos,
        {
            prev_offset = Some(curr_offset);
            let freeblock = self.read_freeblock(curr_offset as usize)?;
            proof {
                if pos + 1 < bl.len() {
                    assert(u16_at(s, bl[pos].start) == bl[pos + 1].start);
                }
                pos = pos + 1;
            }
            curr_offset = freeblock.next_freeblock;
        }
        proof {
            if pos < bl.len() {
                assert(bl[pos].start >= free_end(s));
                assert forall|j: int| pos <= j < bl.len() implies offset <= (
                #[trigger] bl[j]).start by {
                    if j > pos {
                        assert(bl[pos].start + bl[pos].len <= bl[j].start);
                    }
                }
            }
            lemma_rank(bl, offset as int, pos);
        }
        Ok((prev_offset, curr_offset))
    }

    /// Makes the hole of `len` bytes at `offset` a freeblock: writes its
    /// descriptor and links it into the chain where its offset places it.
    pub(crate) fn link_block(&mut self, offset: u16, len: u16) -> (res: Result<(), BTreeError>)
        requires
            old(self).wf(),
            4 <= len,
            hole(
                Extent { start: offset as int, len: len as int },
                slots(old(self).bytes()),
                blocks(old(self).bytes()),
                free_end(old(self).bytes()),
                fragmented(old(self).bytes()),
            ),
        ensures
            res is Ok,
            final(self).wf(),
            same_content(old(self).bytes(), final(self).bytes()),
            Header::decode(final(self).bytes()) == (Header {
                first_freeblock: Header::decode(final(self).bytes()).first_freeblock,
                ..Header::decode(old(self).bytes())
            }),
            blocks(final(self).bytes()) == blocks(old(self).bytes()).insert(
                rank(blocks(old(self).bytes()), offset as int),
                Extent { start: offset as int, len: len as int },
            ),
    {
        let ghost s = self.bytes();
        let ghost e = Extent { start: offset as int, len: len as int };
        let ghost bl = blocks(s);
        let ghost pos = rank(bl, offset as int);
        let (prev_offset, next_offset) = self.find_rank(offset)?;
        self.write_freeblock(len, next_offset, offset as usize);
        let ghost s1 = self.bytes();
        proof {
            lemma_hole_write(s, s1, e, offset as int, offset + 4);
            if pos > 0 {
                assert(4 <= bl[pos - 1].len && bl[pos - 1].start + bl[pos - 1].len <= 4096);
                assert(u16_at(s1, bl[pos - 1].start + 2) == bl[pos - 1].len);
            }
        }
        self.set_link(prev_offset, offset)?;
        proof {
            if pos > 0 {
                lemma_block_linked_behind(s1, self.bytes(), e, pos);
            } else {
                lemma_block_linked_first(s1, self.bytes(), e);
            }
        }
        Ok(())
    }
}

} // verus!
