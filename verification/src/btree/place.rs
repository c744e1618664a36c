//! How a value gets its bytes: from the unallocated gap, or from the first
//! freeblock that holds it.

use vstd::prelude::*;
use super::Node;
use super::endian::u16_at;
use super::errors::BTreeError;
use super::frame::{lemma_descriptor_kept, lemma_links_removed, lemma_links_replaced, same_outside};
use super::freeblock::Freeblock;
use super::header::Header;
use super::layout::{
    first_fit, frag_add, hole, lemma_first_fit, lemma_reserve_gap, lemma_reserve_split,
    lemma_reserve_whole,
};
use super::model::{
    blocks, disjoint, Extent, extent_of, first_freeblock, fragmented, free_end, free_start,
    geometry_ok, layout_ok, links_ok, slots, unallocated, well_formed,
};
use super::shape::{fitted_blocks, fitted_fragmented};
use super::space::{
    lemma_descriptor_clear, lemma_descriptors_kept, lemma_header_adjusted, lemma_header_kept_slots,
    lemma_hole_write, lemma_payload_write, lemma_wf_from, same_content,
};

verus! {

/// Unlinking block `j` by the block before it takes it out of the chain
/// and leaves its first `v` bytes as a hole.
pub proof fn lemma_block_unlinked_behind(s: Seq<u8>, t: Seq<u8>, j: int, v: int, frag2: int)
    requires
        well_formed(s),
        0 < j < blocks(s).len(),
        0 <= v <= blocks(s)[j].len,
        fragmented(s) <= frag2 <= fragmented(s) + (blocks(s)[j].len - v),
        same_outside(s, t, blocks(s)[j - 1].start, blocks(s)[j - 1].start + 4),
        u16_at(t, blocks(s)[j - 1].start) == u16_at(s, blocks(s)[j].start),
        u16_at(t, blocks(s)[j - 1].start + 2) == blocks(s)[j - 1].len,
    ensures
        well_formed(t),
        Header::decode(t) == Header::decode(s),
        same_content(s, t),
        blocks(t) == blocks(s).remove(j),
        hole(Extent { start: blocks(s)[j].start, len: v }, slots(t), blocks(t), free_end(t), frag2),
        layout_ok(slots(t), blocks(t), free_end(t), frag2),
{
    let ks = slots(s);
    let bl = blocks(s);
    let head = first_freeblock(s);
    let p = bl[j - 1].start;
    let nothing = Extent { start: 0, len: 0 };
    assert(hole(nothing, ks, bl, free_end(s), fragmented(s)));
    lemma_descriptor_clear(s, nothing, j - 1);
    lemma_payload_write(s, t, p, p + 4);
    lemma_descriptors_kept(s, t, p, p + 4, bl, j - 1);
    assert(u16_at(s, bl[j - 1].start + 2) == bl[j - 1].len);
    assert(links_ok(t, head, bl.remove(j))) by {
        lemma_links_removed(s, t, head, head, bl, j);
    }
    lemma_reserve_whole(ks, bl, free_end(s), fragmented(s), j, v, fragmented(s));
    lemma_wf_from(t, bl.remove(j));
    lemma_reserve_whole(ks, bl, free_end(s), fragmented(s), j, v, frag2);
}

/// Unlinking the first block by the header takes it out of the chain and
/// leaves its first `v` bytes as a hole.
pub proof fn lemma_block_unlinked_first(s: Seq<u8>, t: Seq<u8>, v: int, frag2: int)
    requires
        well_formed(s),
        0 < blocks(s).len(),
        0 <= v <= blocks(s)[0].len,
        fragmented(s) <= frag2 <= fragmented(s) + (blocks(s)[0].len - v),
        same_outside(s, t, 0, 14),
        Header::valid_tag(t),
        Header::decode(t) == (Header {
            first_freeblock: u16_at(s, blocks(s)[0].start) as u16,
            ..Header::decode(s)
        }),
    ensures
        well_formed(t),
        same_content(s, t),
        blocks(t) == blocks(s).remove(0),
        hole(Extent { start: blocks(s)[0].start, len: v }, slots(t), blocks(t), free_end(t), frag2),
        layout_ok(slots(t), blocks(t), free_end(t), frag2),
{
    let ks = slots(s);
    let bl = blocks(s);
    let head = first_freeblock(s);
    let next = u16_at(s, bl[0].start);
    assert forall|i: int| 0 <= i < ks.len() implies (#[trigger] ks[i]).value_offset
        + ks[i].value_len <= 4096 && (ks[i].value_len == 0 || 14 <= ks[i].value_offset) by {}
    lemma_header_kept_slots(s, t);
    assert forall|i: int| 0 <= i < bl.len() implies 0 <= (#[trigger] bl[i]).start && bl[i].start
        + 4 <= s.len() && (bl[i].start + 4 <= 0 || 14 <= bl[i].start) by {
        assert(4 <= bl[i].len);
    }
    lemma_descriptors_kept(s, t, 0, 14, bl, -1);
    assert(links_ok(t, next, bl.remove(0))) by {
        lemma_links_removed(s, t, head, next, bl, 0);
    }
    lemma_reserve_whole(ks, bl, free_end(s), fragmented(s), 0, v, fragmented(s));
    lemma_wf_from(t, bl.remove(0));
    lemma_reserve_whole(ks, bl, free_end(s), fragmented(s), 0, v, frag2);
}

/// Writing the descriptor of what is left of block `j` behind its first
/// `v` bytes leaves the header, the slots, the values and the other
/// descriptors.
pub proof fn lemma_rest_described(s: Seq<u8>, s1: Seq<u8>, j: int, v: int)
    requires
        well_formed(s),
        0 <= j < blocks(s).len(),
        0 <= v,
        4 <= blocks(s)[j].len - v,
        same_outside(s, s1, blocks(s)[j].start + v, blocks(s)[j].start + v + 4),
    ensures
        Header::decode(s1) == Header::decode(s),
        geometry_ok(s1),
        same_content(s, s1),
        forall|i: int|
            0 <= i < blocks(s).len() && i != j ==> u16_at(s1, (#[trigger] blocks(s)[i]).start)
                == u16_at(s, blocks(s)[i].start) && u16_at(s1, blocks(s)[i].start + 2) == u16_at(
                s,
                blocks(s)[i].start + 2,
            ),
{
    let ks = slots(s);
    let bl = blocks(s);
    let q = bl[j].start + v;
    assert(bl[j].start + bl[j].len <= 4096 && free_end(s) <= bl[j].start);
    assert forall|i: int| 0 <= i < ks.len() implies (#[trigger] ks[i]).value_offset
        + ks[i].value_len <= 4096 && (ks[i].value_len == 0 || ks[i].value_offset
        + ks[i].value_len <= q || q + 4 <= ks[i].value_offset) by {
        if ks[i].value_len > 0 {
            assert(disjoint(extent_of(ks[i]), bl[j]));
        }
    }
    lemma_payload_write(s, s1, q, q + 4);
    assert forall|i: int| 0 <= i < bl.len() && i != j implies 0 <= (#[trigger] bl[i]).start
        && bl[i].start + 4 <= s.len() && (bl[i].start + 4 <= q || q + 4 <= bl[i].start) by {
        assert(4 <= bl[i].len);
        if i < j {
            assert(bl[i].start + bl[i].len <= bl[j].start);
        } else {
            assert(bl[j].start + bl[j].len <= bl[i].start);
        }
    }
    lemma_descriptors_kept(s, s1, q, q + 4, bl, j);
}

/// Linking what is left of block `j` behind its first `v` bytes, by the
/// block before it, shortens the block and leaves its first `v` bytes as
/// a hole.
pub proof fn lemma_block_split_behind(s: Seq<u8>, s1: Seq<u8>, t: Seq<u8>, j: int, v: int)
    requires
        well_formed(s),
        0 < j < blocks(s).len(),
        0 <= v,
        4 <= blocks(s)[j].len - v,
        same_outside(s, s1, blocks(s)[j].start + v, blocks(s)[j].start + v + 4),
        u16_at(s1, blocks(s)[j].start + v) == u16_at(s, blocks(s)[j].start),
        u16_at(s1, blocks(s)[j].start + v + 2) == blocks(s)[j].len - v,
        same_outside(s1, t, blocks(s)[j - 1].start, blocks(s)[j - 1].start + 4),
        u16_at(t, blocks(s)[j - 1].start) == blocks(s)[j].start + v,
        u16_at(t, blocks(s)[j - 1].start + 2) == blocks(s)[j - 1].len,
    ensures
        well_formed(t),
        Header::decode(t) == Header::decode(s),
        same_content(s, t),
        blocks(t) == blocks(s).update(
            j,
            Extent { start: blocks(s)[j].start + v, len: blocks(s)[j].len - v },
        ),
        hole(
            Extent { start: blocks(s)[j].start, len: v },
            slots(t),
            blocks(t),
            free_end(t),
            fragmented(t),
        ),
{
    let ks = slots(s);
    let bl = blocks(s);
    let head = first_freeblock(s);
    let r = Extent { start: bl[j].start + v, len: bl[j].len - v };
    let q = r.start;
    let p = bl[j - 1].start;
    lemma_rest_described(s, s1, j, v);
    let nothing = Extent { start: 0, len: 0 };
    assert(hole(nothing, ks, bl, free_end(s), fragmented(s)));
    lemma_descriptor_clear(s, nothing, j - 1);
    assert(bl[j - 1].start + bl[j - 1].len <= bl[j].start);
    assert(same_content(s1, t) && Header::decode(t) == Header::decode(s1)) by {
        assert forall|i: int| 0 <= i < slots(s1).len() implies (#[trigger] slots(
            s1,
        )[i]).value_offset + slots(s1)[i].value_len <= 4096 && (slots(s1)[i].value_len == 0
            || slots(s1)[i].value_offset + slots(s1)[i].value_len <= p || p + 4 <= slots(
            s1,
        )[i].value_offset) by {
            assert(slots(s1)[i] == ks[i]);
        }
        lemma_payload_write(s1, t, p, p + 4);
    }
    assert forall|i: int| 0 <= i < bl.len() && i != j - 1 && i != j implies u16_at(
        t,
        (#[trigger] bl[i]).start,
    ) == u16_at(s, bl[i].start) && u16_at(t, bl[i].start + 2) == u16_at(s, bl[i].start + 2) by {
        lemma_descriptor_kept(s1, t, p, p + 4, bl[i].start);
    }
    assert(u16_at(s, bl[j - 1].start + 2) == bl[j - 1].len);
    lemma_descriptor_kept(s1, t, p, p + 4, q);
    assert(links_ok(t, head, bl.update(j, r))) by {
        lemma_links_replaced(s, t, head, head, bl, j, r);
    }
    lemma_reserve_split(ks, bl, free_end(s), fragmented(s), j, v);
    lemma_wf_from(t, bl.update(j, r));
}

/// Linking what is left of the first block behind its first `v` bytes, by
/// the header, shortens the block and leaves its first `v` bytes as a hole.
pub proof fn lemma_block_split_first(s: Seq<u8>, s1: Seq<u8>, t: Seq<u8>, v: int)
    requires
        well_formed(s),
        0 < blocks(s).len(),
        0 <= v,
        4 <= blocks(s)[0].len - v,
        same_outside(s, s1, blocks(s)[0].start + v, blocks(s)[0].start + v + 4),
        u16_at(s1, blocks(s)[0].start + v) == u16_at(s, blocks(s)[0].start),
        u16_at(s1, blocks(s)[0].start + v + 2) == blocks(s)[0].len - v,
        same_outside(s1, t, 0, 14),
        Header::valid_tag(t),
        Header::decode(t) == (Header {
            first_freeblock: (blocks(s)[0].start + v) as u16,
            ..Header::decode(s)
        }),
    ensures
        well_formed(t),
        same_content(s, t),
        blocks(t) == blocks(s).update(
            0,
            Extent { start: blocks(s)[0].start + v, len: blocks(s)[0].len - v },
        ),
        hole(
            Extent { start: blocks(s)[0].start, len: v },
            slots(t),
            blocks(t),
            free_end(t),
            fragmented(t),
        ),
{
    let ks = slots(s);
    let bl = blocks(s);
    let head = first_freeblock(s);
    let r = Extent { start: bl[0].start + v, len: bl[0].len - v };
    let q = r.start;
    lemma_rest_described(s, s1, 0, v);
    assert(bl[0].start + bl[0].len <= 4096 && free_end(s) <= bl[0].start);
    assert(same_content(s1, t)) by {
        assert forall|i: int| 0 <= i < slots(s1).len() implies (#[trigger] slots(
            s1,
        )[i]).value_offset + slots(s1)[i].value_len <= 4096 && (slots(s1)[i].value_len == 0
            || 14 <= slots(s1)[i].value_offset) by {
            assert(slots(s1)[i] == ks[i]);
        }
        lemma_header_kept_slots(s1, t);
    }
    assert forall|i: int| 0 <= i < bl.len() && i != 0 implies u16_at(t, (#[trigger] bl[i]).start)
        == u16_at(s, bl[i].start) && u16_at(t, bl[i].start + 2) == u16_at(
        s,
        bl[i].start + 2,
    ) by {
        assert(4 <= bl[i].len);
        lemma_descriptor_kept(s1, t, 0, 14, bl[i].start);
    }
    lemma_descriptor_kept(s1, t, 0, 14, q);
    assert(links_ok(t, q, bl.update(0, r))) by {
        lemma_links_replaced(s, t, head, q, bl, 0, r);
    }
    lemma_reserve_split(ks, bl, free_end(s), fragmented(s), 0, v);
    lemma_wf_from(t, bl.update(0, r));
}

/// Whether `value` lies at `offset` of the page `t` in bytes that no slot
/// and no freeblock claims yet.
pub open spec fn set_apart(t: Seq<u8>, offset: int, value: Seq<u8>) -> bool {
    &&& hole(
        Extent { start: offset, len: value.len() as int },
        slots(t),
        blocks(t),
        free_end(t),
        fragmented(t),
    )
    &&& t.subrange(offset, offset + value.len()) == value
}

impl<'a> Node<'a> {
    /// Takes the top of the unallocated gap for `value` and writes it
    /// there. Returns where it lies.
    pub(crate) fn prepend_value(&mut self, value: &[u8]) -> (res: Result<u16, BTreeError>)
        requires
            old(self).wf(),
            value@.len() <= unallocated(old(self).bytes()),
        ensures
            res == Ok::<u16, BTreeError>((free_end(old(self).bytes()) - value@.len()) as u16),
            final(self).wf(),
            same_content(old(self).bytes(), final(self).bytes()),
            free_start(final(self).bytes()) == free_start(old(self).bytes()),
            free_end(final(self).bytes()) == free_end(old(self).bytes()) - value@.len(),
            fragmented(final(self).bytes()) == fragmented(old(self).bytes()),
            blocks(final(self).bytes()) == blocks(old(self).bytes()),
            set_apart(final(self).bytes(), free_end(final(self).bytes()), value@),
    {
        let ghost s = self.bytes();
        let header = self.read_header()?;
        let new_free_end: u16 = header.free_end - value.len() as u16;
        let lowered = Header { free_end: new_free_end, ..header };
        proof {
            lemma_reserve_gap(
                slots(s),
                blocks(s),
                free_end(s),
                fragmented(s),
                value@.len() as int,
            );
            lemma_header_adjusted(s, lowered);
        }
        self.mutate_header(&lowered);
        self.fill_hole(new_free_end, value);
        Ok(new_free_end)
    }

    /// Walks the chain to the first freeblock that holds `len` bytes.
    /// Returns the offset of the block before it, if there is one, the
    /// offset of the block itself, or `0` if no block holds so much, and
    /// its descriptor.
    pub(crate) fn find_fit(&self, len: u16) -> (found: Result<
        (Option<u16>, u16, Freeblock),
        BTreeError,
    >)
        requires
            self.wf(),
        ensures
            found is Ok,
            ({
                let bl = blocks(self.bytes());
                let j = first_fit(bl, len as int);
                let res = found.unwrap();
                &&& 0 <= j <= bl.len()
                &&& res.0 == if 0 < j <= bl.len() {
                    Some(bl[j - 1].start as u16)
                } else {
                    None::<u16>
                }
                &&& res.1 == if j < bl.len() {
                    bl[j].start
                } else {
                    0
                }
                &&& j < bl.len() ==> res.2 == Freeblock::decode_at(self.bytes(), bl[j].start)
                    && res.2.size == bl[j].len && bl[j].len >= len
            }),
    {
        let ghost s = self.bytes();
        let ghost bl = blocks(s);
        let mut prev_offset: Option<u16> = None;
        let mut curr_offset: u16 = self.read_header()?.first_freeblock;
        let mut here = Freeblock { next_freeblock: 0, size: 0 };
        let mut found = false;
        let ghost mut pos: int = 0;
        while curr_offset != 0 && !found
            invariant
                s == self.bytes(),
                bl == blocks(s),
                well_formed(s),
                0 <= pos <= bl.len(),
                curr_offset == if pos < bl.len() {
                    bl[pos].start
                } else {
                    0
                },
                prev_offset == if pos > 0 {
                    Some(bl[pos - 1].start as u16)
                } else {
                    None::<u16>
                },
                forall|j: int| 0 <= j < pos ==> (#[trigger] bl[j]).len < len,
                found ==> pos < bl.len() && here == Freeblock::decode_at(s, bl[pos].start)
                    && here.size == bl[pos].len && bl[pos].len >= len,
            decreases 2 * (bl.len() - pos) + if found { 0int } else { 1int },
        {
            let freeblock = self.read_freeblock(curr_offset as usize)?;
            proof {
                assert(u16_at(s, bl[pos].start + 2) == bl[pos].len);
            }
            if freeblock.size < len {
                proof {
                    if pos + 1 < bl.len() {
                        assert(u16_at(s, bl[pos].start) == bl[pos + 1].start);
                    }
                    pos = pos + 1;
                }
                prev_offset = Some(curr_offset);
                curr_offset = freeblock.next_freeblock;
            } else {
                here = freeblock;
                found = true;
            }
        }
        proof {
            if !found && pos < bl.len() {
                assert(bl[pos].start >= free_end(s));
            }
            lemma_first_fit(bl, len as int, pos);
        }
        Ok((prev_offset, curr_offset, here))
    }

    /// Makes the link before a block lead to `target`: the link of the
    /// descriptor at `prev`, or that of the header if there is no block
    /// before.
    pub(crate) fn set_link(&mut self, prev: Option<u16>, target: u16) -> (res: Result<
        (),
        BTreeError,
    >)
        requires
            old(self).framed(),
            prev matches Some(p) ==> p + 4 <= 4096,
        ensures
            res is Ok,
            match prev {
                Some(p) => {
                    &&& same_outside(old(self).bytes(), final(self).bytes(), p as int, p + 4)
                    &&& u16_at(final(self).bytes(), p as int) == target
                    &&& u16_at(final(self).bytes(), p + 2) == u16_at(old(self).bytes(), p + 2)
                },
                None => {
                    &&& same_outside(old(self).bytes(), final(self).bytes(), 0, 14)
                    &&& Header::valid_tag(final(self).bytes())
                    &&& Header::decode(final(self).bytes()) == (Header {
                        first_freeblock: target,
                        ..Header::decode(old(self).bytes())
                    })
                },
            },
    {
        match prev {
            Some(p) => {
                let before = self.read_freeblock(p as usize)?;
                self.mut_freeblock(
                    p as usize,
                    &Freeblock { next_freeblock: target, size: before.size },
                );
            },
            None => {
                let header = self.read_header()?;
                self.mutate_header(&Header { first_freeblock: target, ..header });
            },
        }
        Ok(())
    }

    /// Counts `n` more bytes as fragmented, up to 255.
    pub(crate) fn add_fragmented(&mut self, n: u16) -> (res: Result<(), BTreeError>)
        requires
            old(self).wf(),
            layout_ok(
                slots(old(self).bytes()),
                blocks(old(self).bytes()),
                free_end(old(self).bytes()),
                frag_add(fragmented(old(self).bytes()), n as int),
            ),
        ensures
            res is Ok,
            final(self).wf(),
            Header::decode(final(self).bytes()) == (Header {
                fragmented_bytes: frag_add(fragmented(old(self).bytes()), n as int) as u8,
                ..Header::decode(old(self).bytes())
            }),
            same_content(old(self).bytes(), final(self).bytes()),
            blocks(final(self).bytes()) == blocks(old(self).bytes()),
    {
        let header = self.read_header()?;
        let frag: u8 = if n > 255 || header.fragmented_bytes as u16 + n > 255 {
            255
        } else {
            header.fragmented_bytes + n as u8
        };
        let counted = Header { fragmented_bytes: frag, ..header };
        proof {
            lemma_header_adjusted(self.bytes(), counted);
        }
        self.mutate_header(&counted);
        Ok(())
    }

    /// Takes the first freeblock that holds `value` for it and writes it
    /// there. A block of the same length leaves the chain; one with four
    /// bytes or more to spare stays with what is left; from one with less
    /// to spare the rest is counted as fragmented. Returns where the value
    /// lies, or nothing, with the page untouched, if no block holds it.
    pub(crate) fn fit_value(&mut self, value: &[u8]) -> (res: Result<Option<u16>, BTreeError>)
        requires
            old(self).wf(),
            value@.len() <= u16::MAX,
        ensures
            res is Ok,
            match res.unwrap() {
                Some(offset) => {
                    let bl = blocks(old(self).bytes());
                    let j = first_fit(bl, value@.len() as int);
                    &&& 0 <= j < bl.len()
                    &&& offset == bl[j].start
                    &&& final(self).wf()
                    &&& same_content(old(self).bytes(), final(self).bytes())
                    &&& free_start(final(self).bytes()) == free_start(old(self).bytes())
                    &&& free_end(final(self).bytes()) == free_end(old(self).bytes())
                    &&& fragmented(final(self).bytes()) == fitted_fragmented(
                        bl,
                        fragmented(old(self).bytes()),
                        value@.len() as int,
                    )
                    &&& blocks(final(self).bytes()) == fitted_blocks(bl, value@.len() as int)
                    &&& set_apart(final(self).bytes(), offset as int, value@)
                },
                None => {
                    &&& first_fit(blocks(old(self).bytes()), value@.len() as int) >= blocks(
                        old(self).bytes(),
                    ).len()
                    &&& final(self).bytes() == old(self).bytes()
                },
            },
    {
        let value_len: u16 = value.len() as u16;
        let (prev_offset, chosen_offset, here) = self.find_fit(value_len)?;
        if chosen_offset == 0 {
            proof {
                let bl = blocks(self.bytes());
                let j = first_fit(bl, value_len as int);
                if j < bl.len() {
                    assert(bl[j].start >= free_end(self.bytes()));
                }
            }
            return Ok(None);
        }
        let remaining: u16 = here.size - value_len;
        if remaining >= 4 {
            self.split_block(prev_offset, chosen_offset, here, value_len)?;
        } else {
            self.take_block(prev_offset, chosen_offset, here, value_len)?;
        }
        self.fill_hole(chosen_offset, value);
        Ok(Some(chosen_offset))
    }

    /// Writes `value` into the hole at `offset`.
    pub(crate) fn fill_hole(&mut self, offset: u16, value: &[u8])
        requires
            old(self).wf(),
            hole(
                Extent { start: offset as int, len: value@.len() as int },
                slots(old(self).bytes()),
                blocks(old(self).bytes()),
                free_end(old(self).bytes()),
                fragmented(old(self).bytes()),
            ),
        ensures
            final(self).wf(),
            Header::decode(final(self).bytes()) == Header::decode(old(self).bytes()),
            same_content(old(self).bytes(), final(self).bytes()),
            blocks(final(self).bytes()) == blocks(old(self).bytes()),
            set_apart(final(self).bytes(), offset as int, value@),
    {
        let ghost s = self.bytes();
        self.write_at(offset as usize, value);
        proof {
            let t = self.bytes();
            let e = Extent { start: offset as int, len: value@.len() as int };
            assert(same_outside(s, t, e.start, e.start + e.len));
            lemma_hole_write(s, t, e, e.start, e.start + e.len);
            assert(t.subrange(e.start, e.start + e.len) =~= value@);
        }
    }

    /// Leaves the first `len` bytes of the block at `offset` as a hole and
    /// keeps the rest, four bytes or more, as a block in its place.
    pub(crate) fn split_block(
        &mut self,
        prev: Option<u16>,
        offset: u16,
        here: Freeblock,
        len: u16,
    ) -> (res: Result<(), BTreeError>)
        requires
            old(self).wf(),
            ({
                let bl = blocks(old(self).bytes());
                let j = first_fit(bl, len as int);
                &&& 0 <= j < bl.len()
                &&& offset == bl[j].start
                &&& prev == if j > 0 {
                    Some(bl[j - 1].start as u16)
                } else {
                    None::<u16>
                }
                &&& here == Freeblock::decode_at(old(self).bytes(), bl[j].start)
                &&& here.size == bl[j].len
                &&& bl[j].len - len >= 4
            }),
        ensures
            res is Ok,
            final(self).wf(),
            same_content(old(self).bytes(), final(self).bytes()),
            free_start(final(self).bytes()) == free_start(old(self).bytes()),
            free_end(final(self).bytes()) == free_end(old(self).bytes()),
            fragmented(final(self).bytes()) == fragmented(old(self).bytes()),
            blocks(final(self).bytes()) == fitted_blocks(blocks(old(self).bytes()), len as int),
            hole(
                Extent { start: offset as int, len: len as int },
                slots(final(self).bytes()),
                blocks(final(self).bytes()),
                free_end(final(self).bytes()),
                fragmented(final(self).bytes()),
            ),
    {
        let ghost s = self.bytes();
        let ghost bl = blocks(s);
        let ghost j = first_fit(bl, len as int);
        proof {
            assert(4 <= bl[j].len && bl[j].start + bl[j].len <= 4096 && free_end(s) <= bl[j].start);
            if j > 0 {
                assert(4 <= bl[j - 1].len && bl[j - 1].start + bl[j - 1].len <= bl[j].start);
                assert(u16_at(s, bl[j - 1].start + 2) == bl[j - 1].len);
            }
        }
        let rest_offset: u16 = offset + len;
        self.write_freeblock(here.size - len, here.next_freeblock, rest_offset as usize);
        let ghost s1 = self.bytes();
        proof {
            lemma_rest_described(s, s1, j, len as int);
            if j > 0 {
                lemma_descriptor_kept(
                    s,
                    s1,
                    rest_offset as int,
                    rest_offset + 4,
                    bl[j - 1].start,
                );
            }
        }
        self.set_link(prev, rest_offset)?;
        proof {
            if j > 0 {
                lemma_block_split_behind(s, s1, self.bytes(), j, len as int);
            } else {
                lemma_block_split_first(s, s1, self.bytes(), len as int);
            }
        }
        Ok(())
    }

    /// Takes the block at `offset` out of the chain, leaves its first
    /// `len` bytes as a hole and counts the rest, fewer than four bytes,
    /// as fragmented.
    pub(crate) fn take_block(
        &mut self,
        prev: Option<u16>,
        offset: u16,
        here: Freeblock,
        len: u16,
    ) -> (res: Result<(), BTreeError>)
        requires
            old(self).wf(),
            ({
                let bl = blocks(old(self).bytes());
                let j = first_fit(bl, len as int);
                &&& 0 <= j < bl.len()
                &&& offset == bl[j].start
                &&& prev == if j > 0 {
                    Some(bl[j - 1].start as u16)
                } else {
                    None::<u16>
                }
                &&& here == Freeblock::decode_at(old(self).bytes(), bl[j].start)
                &&& here.size == bl[j].len
                &&& 0 <= bl[j].len - len < 4
            }),
        ensures
            res is Ok,
            final(self).wf(),
            same_content(old(self).bytes(), final(self).bytes()),
            free_start(final(self).bytes()) == free_start(old(self).bytes()),
            free_end(final(self).bytes()) == free_end(old(self).bytes()),
            fragmented(final(self).bytes()) == fitted_fragmented(
                blocks(old(self).bytes()),
                fragmented(old(self).bytes()),
                len as int,
            ),
            blocks(final(self).bytes()) == fitted_blocks(blocks(old(self).bytes()), len as int),
            hole(
                Extent { start: offset as int, len: len as int },
                slots(final(self).bytes()),
                blocks(final(self).bytes()),
                free_end(final(self).bytes()),
                fragmented(final(self).bytes()),
            ),
    {
        let ghost s = self.bytes();
        let ghost bl = blocks(s);
        let ghost j = first_fit(bl, len as int);
        let remaining: u16 = here.size - len;
        let ghost frag2 = frag_add(fragmented(s), remaining as int);
        proof {
            assert(4 <= bl[j].len && bl[j].start + bl[j].len <= 4096);
            if j > 0 {
                assert(4 <= bl[j - 1].len && bl[j - 1].start + bl[j - 1].len <= bl[j].start);
                assert(u16_at(s, bl[j - 1].start + 2) == bl[j - 1].len);
            }
        }
        self.set_link(prev, here.next_freeblock)?;
        proof {
            if j > 0 {
                lemma_block_unlinked_behind(s, self.bytes(), j, len as int, frag2);
            } else {
                lemma_block_unlinked_first(s, self.bytes(), len as int, frag2);
            }
        }
        if remaining > 0 {
            self.add_fragmented(remaining)?;
        }
        Ok(())
    }
}

} // verus!
