//! The point operations on a page: `get`, `insert` and `delete`.

use vstd::prelude::*;
use vstd::slice::slice_to_vec;
use super::{KeyValuePair, Node, overwrite};
use super::defrag::lemma_defragmented;
use super::errors::BTreeError;
use super::frame::{
    lemma_entries, lemma_frame_links, lemma_frame_other_slots, lemma_frame_value, same_outside,
};
use super::header::Header;
use super::key::{Key, lemma_slot_inserted, lemma_slot_removed, slot_inserted, slot_removed};
use super::layout::{
    hole, lemma_slot_emptied, lemma_slot_filled, lemma_slot_put, lemma_slot_taken, rank,
};
use super::model::{
    blocks, entries, Extent, extent_of, first_freeblock, fragmented, free_end, free_space,
    free_start, geometry_ok, index_of, keys_ascending, lemma_total_insert, links_ok, num_keys,
    slot, slot_pos, slots, unallocated, value_of, well_formed,
};
use super::place::set_apart;
use super::shape::{lemma_place_of, shape, Shape};
use super::space::{lemma_totals_nonneg, lemma_wf_from};

verus! {

/// Whether the slots of `t` are those of `s` without slot `idx`, each
/// with the bytes of its value.
pub open spec fn without_slot(s: Seq<u8>, t: Seq<u8>, idx: int) -> bool {
    &&& slots(t) == slots(s).remove(idx)
    &&& forall|i: int|
        0 <= i < slots(t).len() ==> value_of(t, #[trigger] slots(t)[i]) == value_of(
            s,
            slots(t)[i],
        )
}

/// Taking slot `idx` out of the slot array leaves a well formed page
/// without that slot, and the run of its value as a hole.
pub proof fn lemma_slot_popped(s: Seq<u8>, idx: int)
    requires
        well_formed(s),
        0 <= idx < num_keys(s),
    ensures
        ({
            let t = slot_removed(s, idx);
            &&& well_formed(t)
            &&& slots(t) == slots(s).remove(idx)
            &&& blocks(t) == blocks(s)
            &&& free_start(t) == free_start(s) - 16
            &&& free_end(t) == free_end(s)
            &&& fragmented(t) == fragmented(s)
            &&& forall|i: int|
                0 <= i < slots(s).len() ==> value_of(t, #[trigger] slots(s)[i]) == value_of(
                    s,
                    slots(s)[i],
                )
            &&& hole(
                extent_of(slots(s)[idx]),
                slots(t),
                blocks(t),
                free_end(t),
                fragmented(t),
            )
        }),
{
    let t = slot_removed(s, idx);
    let ks = slots(s);
    let bl = blocks(s);
    let fs = free_start(s);
    lemma_slot_removed(s, idx);
    assert(same_outside(s, t, 0, fs));
    assert forall|j: int| 0 <= j < bl.len() implies 0 <= (#[trigger] bl[j]).start && bl[j].start
        + 4 <= s.len() && (bl[j].start + 4 <= 0 || fs <= bl[j].start) by {
        assert(4 <= bl[j].len);
    }
    lemma_frame_links(s, t, 0, fs, first_freeblock(s), bl);
    lemma_slot_taken(ks, bl, free_end(s), fragmented(s), idx);
    lemma_wf_from(t, bl);
    assert forall|i: int| 0 <= i < ks.len() implies value_of(t, #[trigger] ks[i]) == value_of(
        s,
        ks[i],
    ) by {
        assert(ks[i].value_offset + ks[i].value_len <= 4096);
        lemma_frame_value(s, t, 0, fs, ks[i]);
    }
}

/// A page without slot `idx` stores the map without that slot's key.
pub proof fn lemma_entries_removed(s: Seq<u8>, t: Seq<u8>, idx: int)
    requires
        keys_ascending(slots(s)),
        0 <= idx < slots(s).len(),
        without_slot(s, t, idx),
    ensures
        entries(t) == entries(s).remove(slots(s)[idx].key),
{
    let ks = slots(s);
    let ks2 = slots(t);
    let gone = ks[idx].key;
    assert forall|i: int| 0 <= i < ks2.len() implies #[trigger] ks2[i] == ks[if i < idx {
        i
    } else {
        i + 1
    }] by {}
    assert(keys_ascending(ks2)) by {
        assert forall|a: int, b: int| 0 <= a < b < ks2.len() implies (#[trigger] ks2[a]).key < (
        #[trigger] ks2[b]).key by {
            let a1 = if a < idx { a } else { a + 1 };
            let b1 = if b < idx { b } else { b + 1 };
            assert(ks[a1].key < ks[b1].key);
        }
    }
    lemma_entries(s);
    lemma_entries(t);
    assert(num_keys(s) == ks.len() && num_keys(t) == ks2.len());
    let m = entries(s).remove(gone);
    assert forall|k: u64| entries(t).contains_key(k) == m.contains_key(k) by {
        if entries(t).contains_key(k) {
            let i = index_of(t, k);
            let i1 = if i < idx { i } else { i + 1 };
            assert(ks[i1].key == k);
            if i1 < idx {
                assert(ks[i1].key < ks[idx].key);
            } else {
                assert(ks[idx].key < ks[i1].key);
            }
        }
        if m.contains_key(k) {
            let i = index_of(s, k);
            assert(i != idx);
            let i2 = if i < idx { i } else { i - 1 };
            assert(ks2[i2].key == k);
        }
    }
    assert forall|k: u64| m.contains_key(k) implies entries(t)[k] == m[k] by {
        let i = index_of(s, k);
        let i2 = if i < idx { i } else { i - 1 };
        assert(ks2[i2] == ks[i]);
    }
    assert(entries(t) =~= m);
}

/// Whether the slots of `u` are those of `s` by key and order, each with
/// the bytes of its value, but for slot `idx`, whose value is `value`.
pub open spec fn with_value(s: Seq<u8>, u: Seq<u8>, idx: int, value: Seq<u8>) -> bool {
    &&& slots(u).len() == slots(s).len()
    &&& forall|i: int|
        0 <= i < slots(s).len() ==> (#[trigger] slots(u)[i]).key == slots(s)[i].key && (i != idx
            ==> slots(u)[i].value_len == slots(s)[i].value_len && value_of(u, slots(u)[i])
            == value_of(s, slots(s)[i]))
    &&& slots(u)[idx].value_len == value.len()
    &&& value_of(u, slots(u)[idx]) == value
}

/// Whether the slots of `t` are those of `s` by key, order and length of
/// value, each with the bytes of its value.
pub open spec fn same_values(s: Seq<u8>, t: Seq<u8>) -> bool {
    &&& slots(t).len() == slots(s).len()
    &&& forall|i: int|
        0 <= i < slots(s).len() ==> (#[trigger] slots(t)[i]).key == slots(s)[i].key && slots(
            t,
        )[i].value_len == slots(s)[i].value_len && value_of(t, slots(t)[i]) == value_of(
            s,
            slots(s)[i],
        )
}

/// Storing `k` as slot `idx` leaves the header, the other slots, the
/// chain and every value that lies behind the slot array.
pub proof fn lemma_slot_rewritten(t: Seq<u8>, idx: int, k: Key)
    requires
        well_formed(t),
        0 <= idx < num_keys(t),
    ensures
        ({
            let u = overwrite(t, slot_pos(idx), k.encode());
            &&& geometry_ok(u)
            &&& Header::decode(u) == Header::decode(t)
            &&& slots(u) == slots(t).update(idx, k)
            &&& links_ok(u, first_freeblock(u), blocks(t))
            &&& forall|i: int|
                0 <= i < slots(t).len() ==> value_of(u, #[trigger] slots(t)[i]) == value_of(
                    t,
                    slots(t)[i],
                )
            &&& forall|p: int| free_start(t) <= p < 4096 ==> #[trigger] u[p] == t[p]
        }),
{
    let u = overwrite(t, slot_pos(idx), k.encode());
    let ks = slots(t);
    let bl = blocks(t);
    let lo = slot_pos(idx);
    k.lemma_round_trip();
    assert(same_outside(t, u, lo, lo + 16));
    lemma_frame_other_slots(t, u, idx);
    assert(slot(u, idx) == k) by {
        assert(u.subrange(lo, lo + 16) =~= k.encode().subrange(0, 16));
        super::key::lemma_same_slot(u, lo, k.encode(), 0);
    }
    assert forall|j: int| 0 <= j < bl.len() implies 0 <= (#[trigger] bl[j]).start && bl[j].start
        + 4 <= t.len() && (bl[j].start + 4 <= lo || lo + 16 <= bl[j].start) by {
        assert(4 <= bl[j].len);
    }
    lemma_frame_links(t, u, lo, lo + 16, first_freeblock(t), bl);
    assert forall|i: int| 0 <= i < ks.len() implies value_of(u, #[trigger] ks[i]) == value_of(
        t,
        ks[i],
    ) by {
        assert(ks[i].value_offset + ks[i].value_len <= 4096);
        lemma_frame_value(t, u, lo, lo + 16, ks[i]);
    }
}

/// Pointing a slot without a value at the bytes set apart for `value`
/// makes them its value.
pub proof fn lemma_slot_pointed(t: Seq<u8>, idx: int, k: Key, value: Seq<u8>)
    requires
        well_formed(t),
        0 <= idx < num_keys(t),
        slots(t)[idx].value_len == 0,
        k.key == slots(t)[idx].key,
        k.value_len == value.len(),
        set_apart(t, k.value_offset as int, value),
    ensures
        ({
            let u = overwrite(t, slot_pos(idx), k.encode());
            &&& well_formed(u)
            &&& with_value(t, u, idx, value)
            &&& slots(u) == slots(t).update(idx, k)
            &&& Header::decode(u) == Header::decode(t)
            &&& blocks(u) == blocks(t)
        }),
{
    let u = overwrite(t, slot_pos(idx), k.encode());
    lemma_slot_rewritten(t, idx, k);
    lemma_slot_filled(slots(t), blocks(t), free_end(t), fragmented(t), idx, k);
    lemma_wf_from(u, blocks(t));
    assert(value_of(u, k) =~= value_of(t, k));
}

/// Taking the value from slot `idx` leaves the run of the value as a hole.
pub proof fn lemma_slot_cleared(t: Seq<u8>, idx: int, k: Key)
    requires
        well_formed(t),
        0 <= idx < num_keys(t),
        k == (Key { value_len: 0, ..slots(t)[idx] }),
    ensures
        ({
            let u = overwrite(t, slot_pos(idx), k.encode());
            &&& well_formed(u)
            &&& with_value(t, u, idx, Seq::<u8>::empty())
            &&& slots(u) == slots(t).update(idx, k)
            &&& Header::decode(u) == Header::decode(t)
            &&& blocks(u) == blocks(t)
            &&& hole(
                extent_of(slots(t)[idx]),
                slots(u),
                blocks(u),
                free_end(u),
                fragmented(u),
            )
        }),
{
    let u = overwrite(t, slot_pos(idx), k.encode());
    lemma_slot_rewritten(t, idx, k);
    assert(slots(t)[idx].value_offset + slots(t)[idx].value_len <= 4096);
    lemma_slot_emptied(slots(t), blocks(t), free_end(t), fragmented(t), idx, k);
    lemma_wf_from(u, blocks(t));
    assert(value_of(u, k) =~= Seq::<u8>::empty());
}

/// Putting a slot without a value in where its key belongs leaves a well
/// formed page with one slot more.
pub proof fn lemma_slot_added(s: Seq<u8>, idx: int, k: Key)
    requires
        well_formed(s),
        0 <= idx <= num_keys(s),
        unallocated(s) >= 16,
        k.value_len == 0,
        k.value_offset <= 4096,
        forall|i: int| 0 <= i < idx ==> (#[trigger] slots(s)[i]).key < k.key,
        forall|i: int| idx <= i < slots(s).len() ==> k.key < (#[trigger] slots(s)[i]).key,
    ensures
        ({
            let t = slot_inserted(s, idx, k);
            &&& well_formed(t)
            &&& slots(t) == slots(s).insert(idx, k)
            &&& blocks(t) == blocks(s)
            &&& free_start(t) == free_start(s) + 16
            &&& free_end(t) == free_end(s)
            &&& fragmented(t) == fragmented(s)
            &&& forall|i: int|
                0 <= i < slots(s).len() ==> value_of(t, #[trigger] slots(s)[i]) == value_of(
                    s,
                    slots(s)[i],
                )
        }),
{
    let t = slot_inserted(s, idx, k);
    let ks = slots(s);
    let bl = blocks(s);
    let fs = free_start(s);
    lemma_slot_inserted(s, idx, k);
    assert(same_outside(s, t, 0, fs + 16));
    assert forall|j: int| 0 <= j < bl.len() implies 0 <= (#[trigger] bl[j]).start && bl[j].start
        + 4 <= s.len() && (bl[j].start + 4 <= 0 || fs + 16 <= bl[j].start) by {
        assert(4 <= bl[j].len);
    }
    lemma_frame_links(s, t, 0, fs + 16, first_freeblock(s), bl);
    lemma_slot_put(ks, bl, free_end(s), fragmented(s), idx, k);
    lemma_wf_from(t, bl);
    assert forall|i: int| 0 <= i < ks.len() implies value_of(t, #[trigger] ks[i]) == value_of(
        s,
        ks[i],
    ) by {
        assert(ks[i].value_offset + ks[i].value_len <= 4096);
        lemma_frame_value(s, t, 0, fs + 16, ks[i]);
    }
}

/// A page with another value in slot `idx` stores the map with that value
/// under the slot's key.
pub proof fn lemma_entries_replaced(s: Seq<u8>, u: Seq<u8>, idx: int, value: Seq<u8>)
    requires
        keys_ascending(slots(s)),
        0 <= idx < slots(s).len(),
        with_value(s, u, idx, value),
    ensures
        entries(u) == entries(s).insert(slots(s)[idx].key, value),
{
    let ks = slots(s);
    let ks2 = slots(u);
    let key = ks[idx].key;
    assert(keys_ascending(ks2)) by {
        assert forall|a: int, b: int| 0 <= a < b < ks2.len() implies (#[trigger] ks2[a]).key < (
        #[trigger] ks2[b]).key by {
            assert(ks[a].key < ks[b].key);
        }
    }
    lemma_entries(s);
    lemma_entries(u);
    assert(num_keys(s) == ks.len() && num_keys(u) == ks2.len());
    let m = entries(s).insert(key, value);
    assert forall|k: u64| entries(u).contains_key(k) == m.contains_key(k) by {
        if entries(u).contains_key(k) {
            let i = index_of(u, k);
            assert(ks[i].key == ks2[i].key);
        }
        if m.contains_key(k) {
            if k == key {
                assert(ks2[idx].key == k);
            } else {
                let i = index_of(s, k);
                assert(ks2[i].key == k);
            }
        }
    }
    assert forall|k: u64| m.contains_key(k) implies entries(u)[k] == m[k] by {
        if k == key {
            assert(ks2[idx].key == k);
        } else {
            let i = index_of(s, k);
            assert(ks2[i].key == k);
        }
    }
    assert(entries(u) =~= m);
}

/// A page with one slot more, for a key that was not stored, stores the
/// map with that slot's value under its key.
pub proof fn lemma_entries_added(s: Seq<u8>, t: Seq<u8>, idx: int, k: Key)
    requires
        keys_ascending(slots(s)),
        keys_ascending(slots(t)),
        0 <= idx <= slots(s).len(),
        slots(t) == slots(s).insert(idx, k),
        forall|i: int|
            0 <= i < slots(s).len() ==> value_of(t, #[trigger] slots(s)[i]) == value_of(
                s,
                slots(s)[i],
            ),
    ensures
        entries(t) == entries(s).insert(k.key, value_of(t, k)),
{
    let ks = slots(s);
    let ks2 = slots(t);
    lemma_entries(s);
    lemma_entries(t);
    assert(num_keys(s) == ks.len() && num_keys(t) == ks2.len());
    assert(ks2[idx] == k);
    assert forall|i: int| 0 <= i < ks.len() implies #[trigger] ks[i] == ks2[if i < idx {
        i
    } else {
        i + 1
    }] by {}
    let m = entries(s).insert(k.key, value_of(t, k));
    assert forall|x: u64| entries(t).contains_key(x) == m.contains_key(x) by {
        if entries(t).contains_key(x) {
            let i = index_of(t, x);
            if i != idx {
                let i1 = if i < idx { i } else { i - 1 };
                assert(ks[i1].key == x);
            }
        }
        if m.contains_key(x) && x != k.key {
            let i = index_of(s, x);
            let i2 = if i < idx { i } else { i + 1 };
            assert(ks2[i2].key == x);
        }
    }
    assert forall|x: u64| m.contains_key(x) implies entries(t)[x] == m[x] by {
        if x != k.key {
            let i = index_of(s, x);
            let i2 = if i < idx { i } else { i + 1 };
            assert(ks2[i2] == ks[i]);
        }
    }
    assert(entries(t) =~= m);
}

impl<'a> Node<'a> {
    /// The value stored under `key`, if there is one.
    pub fn get(&self, key: u64) -> (res: Result<Option<&[u8]>, BTreeError>)
        requires
            self.wf(),
        ensures
            res is Ok,
            match res.unwrap() {
                Some(value) => self@.contains_key(key) && value@ == self@[key],
                None => !self@.contains_key(key),
            },
    {
        let (key_idx, exists) = self.find_le_key_idx(key)?;
        if !exists {
            return Ok(None);
        }
        let (found, _) = self.read_key_at(key_idx as u16)?;
        proof {
            let s = self.bytes();
            lemma_entries(s);
            assert(slots(s)[key_idx as int] == found);
            assert(found.value_offset + found.value_len <= 4096);
        }
        Ok(Some(self.get_page_slice(found.value_offset as usize, found.value_len as usize)))
    }

    /// Takes slot `idx` out of the page and gives the run of its value
    /// back as `reclaim` does. Returns the key and the value.
    pub(crate) fn delete_at_idx(&mut self, idx: usize) -> (res: Result<KeyValuePair, BTreeError>)
        requires
            old(self).wf(),
            idx < num_keys(old(self).bytes()),
        ensures
            res is Ok,
            res.unwrap().key == slots(old(self).bytes())[idx as int].key,
            res.unwrap().value@ == value_of(
                old(self).bytes(),
                slots(old(self).bytes())[idx as int],
            ),
            final(self).wf(),
            without_slot(old(self).bytes(), final(self).bytes(), idx as int),
            shape(final(self).bytes()) == (Shape {
                slots: slots(old(self).bytes()).remove(idx as int),
                ..shape(old(self).bytes())
            }).released(extent_of(slots(old(self).bytes())[idx as int])),
    {
        let ghost s = self.bytes();
        proof {
            lemma_slot_popped(s, idx as int);
        }
        let deleted_key = self.pop_key_at(idx as u16)?;
        let ghost s1 = self.bytes();
        proof {
            assert(slots(s)[idx as int] == deleted_key);
            assert(deleted_key.value_offset + deleted_key.value_len <= 4096);
        }
        let deleted_val = slice_to_vec(
            self.get_page_slice(
                deleted_key.value_offset as usize,
                deleted_key.value_len as usize,
            ),
        );
        self.reclaim(deleted_key.value_offset, deleted_key.value_len)?;
        proof {
            let t = self.bytes();
            assert forall|i: int| 0 <= i < slots(t).len() implies value_of(
                t,
                #[trigger] slots(t)[i],
            ) == value_of(s, slots(t)[i]) by {
                let i1 = if i < idx { i } else { i + 1 };
                assert(slots(s1)[i] == slots(s)[i1]);
            }
        }
        Ok(KeyValuePair { key: deleted_key.key, value: deleted_val })
    }

    /// Removes `key` and its value from the page. Returns them, or nothing,
    /// with the page untouched, if the key is not stored.
    pub fn delete(&mut self, key: u64) -> (res: Result<Option<KeyValuePair>, BTreeError>)
        requires
            old(self).wf(),
        ensures
            res is Ok,
            final(self).wf(),
            final(self)@ == old(self)@.remove(key),
            match res.unwrap() {
                Some(pair) => old(self)@.contains_key(key) && pair.key == key && pair.value@
                    == old(self)@[key],
                None => !old(self)@.contains_key(key) && final(self).bytes() == old(self).bytes(),
            },
            shape(final(self).bytes()) == shape(old(self).bytes()).deleted(key),
    {
        let ghost s = self.bytes();
        let (key_idx, found) = self.find_le_key_idx(key)?;
        proof {
            lemma_place_of(slots(s), key, key_idx as int);
        }
        if !found {
            proof {
                assert(entries(s).remove(key) =~= entries(s));
            }
            return Ok(None);
        }
        proof {
            lemma_entries(s);
        }
        let pair = self.delete_at_idx(key_idx)?;
        proof {
            lemma_entries_removed(s, self.bytes(), key_idx as int);
        }
        Ok(Some(pair))
    }

    /// Finds bytes for `value` and makes them the value of slot `idx`,
    /// which has none. The bytes come from the unallocated gap if it holds
    /// `margin` bytes more than the value; else from the first freeblock
    /// that holds the value; else from the gap after defragmentation.
    pub(crate) fn store_value(&mut self, idx: u16, value: &[u8], margin: u16) -> (res: Result<
        (),
        BTreeError,
    >)
        requires
            old(self).wf(),
            idx < num_keys(old(self).bytes()),
            slots(old(self).bytes())[idx as int].value_len == 0,
            value@.len() <= u16::MAX,
            margin <= 16,
            margin + value@.len() <= free_space(old(self).bytes()),
        ensures
            res is Ok,
            final(self).wf(),
            with_value(old(self).bytes(), final(self).bytes(), idx as int, value@),
            shape(final(self).bytes()) == shape(old(self).bytes()).stored(
                idx as int,
                value@.len() as int,
                margin as int,
            ),
    {
        let offset = self.grant(value, margin)?;
        let ghost t = self.bytes();
        let (key, _) = self.read_key_at(idx)?;
        let pointed = Key { value_offset: offset, value_len: value.len() as u16, ..key };
        proof {
            assert(slots(t)[idx as int] == key);
            lemma_slot_pointed(t, idx as int, pointed, value@);
        }
        self.mut_key_at(idx, &pointed);
        Ok(())
    }

    /// Finds bytes for `value` by the allocation policy and writes it
    /// there. Returns where it lies.
    pub(crate) fn grant(&mut self, value: &[u8], margin: u16) -> (res: Result<u16, BTreeError>)
        requires
            old(self).wf(),
            value@.len() <= u16::MAX,
            margin <= 16,
            margin + value@.len() <= free_space(old(self).bytes()),
        ensures
            res is Ok,
            final(self).wf(),
            same_values(old(self).bytes(), final(self).bytes()),
            shape(final(self).bytes()) == shape(old(self).bytes()).granted(
                value@.len() as int,
                margin as int,
            ),
            res.unwrap() == shape(old(self).bytes()).granted_at(
                value@.len() as int,
                margin as int,
            ),
            set_apart(final(self).bytes(), res.unwrap() as int, value@),
    {
        let unalloc = self.unallocated_space()?;
        if unalloc as usize >= margin as usize + value.len() {
            self.prepend_value(value)
        } else {
            match self.fit_value(value)? {
                Some(offset) => Ok(offset),
                None => self.pack_and_prepend(value),
            }
        }
    }

    /// Defragments the page and takes the top of the unallocated gap for
    /// `value`. Returns where it lies.
    pub(crate) fn pack_and_prepend(&mut self, value: &[u8]) -> (res: Result<u16, BTreeError>)
        requires
            old(self).wf(),
            value@.len() <= free_space(old(self).bytes()),
        ensures
            res is Ok,
            final(self).wf(),
            same_values(old(self).bytes(), final(self).bytes()),
            shape(final(self).bytes()) == (Shape {
                free_end: shape(old(self).bytes()).packed().free_end - value@.len(),
                ..shape(old(self).bytes()).packed()
            }),
            res.unwrap() == shape(old(self).bytes()).packed().free_end - value@.len(),
            set_apart(final(self).bytes(), res.unwrap() as int, value@),
    {
        let ghost s = self.bytes();
        proof {
            lemma_defragmented(s);
            lemma_totals_nonneg(s);
        }
        self.defrag()?;
        self.prepend_value(value)
    }

    /// Stores `value` under `key`. A value already stored under `key` is
    /// given back as `reclaim` does and returned with the key; the new
    /// value then gets its bytes as `store_value` does, with room for a
    /// slot to spare. For a new key a slot is put in where the key
    /// belongs, after defragmentation if the unallocated gap is too small
    /// for it, and the value gets its bytes as `store_value` does.
    ///
    /// A value of 65536 bytes or more is refused, and so is one for which
    /// the page lacks room: 16 bytes and the length of the value. A
    /// refused call leaves the page as it was.
    pub fn insert(&mut self, key: u64, value: &[u8]) -> (res: Result<
        Option<KeyValuePair>,
        BTreeError,
    >)
        requires
            old(self).wf(),
        ensures
            final(self).wf(),
            value@.len() >= 65536 ==> res == Err::<Option<KeyValuePair>, BTreeError>(
                BTreeError::InvalidValueLength,
            ),
            value@.len() < 65536 && shape(old(self).bytes()).room_for(key) < 16 + value@.len()
                ==> res == Err::<Option<KeyValuePair>, BTreeError>(
                BTreeError::NotEnoughSpace {
                    required: (16 + value@.len()) as usize,
                    actual: shape(old(self).bytes()).room_for(key) as usize,
                },
            ),
            res is Err ==> final(self).bytes() == old(self).bytes(),
            value@.len() < 65536 && shape(old(self).bytes()).room_for(key) >= 16 + value@.len()
                ==> {
                &&& res is Ok
                &&& final(self)@ == old(self)@.insert(key, value@)
                &&& shape(final(self).bytes()) == shape(old(self).bytes()).inserted(
                    key,
                    value@.len() as int,
                )
                &&& match res.unwrap() {
                    Some(pair) => old(self)@.contains_key(key) && pair.key == key && pair.value@
                        == old(self)@[key],
                    None => !old(self)@.contains_key(key),
                }
            },
    {
        let ghost s = self.bytes();
        if value.len() >= 65536 {
            return Err(BTreeError::InvalidValueLength);
        }
        let (key_idx, exists) = self.find_le_key_idx(key)?;
        let idx: u16 = key_idx as u16;
        proof {
            lemma_entries(s);
            lemma_place_of(slots(s), key, idx as int);
            if exists {
                let i = index_of(s, key);
                if i < idx {
                    assert(slots(s)[i].key < slots(s)[idx as int].key);
                } else if idx < i {
                    assert(slots(s)[idx as int].key < slots(s)[i].key);
                }
            }
        }
        if exists {
            let res = self.replace_value(idx, value);
            proof {
                if res is Ok {
                    lemma_entries_replaced(s, self.bytes(), idx as int, value@);
                }
            }
            res
        } else {
            self.add_value(idx, key, value)
        }
    }

    /// Stores `value` under `key`, which is not stored yet and belongs at
    /// slot `idx`: see `insert`.
    pub(crate) fn add_value(&mut self, idx: u16, key: u64, value: &[u8]) -> (res: Result<
        Option<KeyValuePair>,
        BTreeError,
    >)
        requires
            old(self).wf(),
            idx <= num_keys(old(self).bytes()),
            value@.len() < 65536,
            forall|i: int| 0 <= i < idx ==> (#[trigger] slots(old(self).bytes())[i]).key < key,
            forall|i: int|
                idx <= i < slots(old(self).bytes()).len() ==> key < (#[trigger] slots(
                    old(self).bytes(),
                )[i]).key,
        ensures
            final(self).wf(),
            free_space(old(self).bytes()) < 16 + value@.len() ==> res == Err::<
                Option<KeyValuePair>,
                BTreeError,
            >(
                BTreeError::NotEnoughSpace {
                    required: (16 + value@.len()) as usize,
                    actual: free_space(old(self).bytes()) as usize,
                },
            ) && final(self).bytes() == old(self).bytes(),
            free_space(old(self).bytes()) >= 16 + value@.len() ==> res == Ok::<
                Option<KeyValuePair>,
                BTreeError,
            >(None) && final(self)@ == old(self)@.insert(key, value@) && shape(
                final(self).bytes(),
            ) == shape(old(self).bytes()).inserted(key, value@.len() as int),
    {
        let ghost s = self.bytes();
        proof {
            lemma_place_of(slots(s), key, idx as int);
        }
        self.make_room(value.len())?;
        let ghost s1 = self.bytes();
        let fresh = Key::new(key, 0, 0, 0);
        proof {
            lemma_slot_added(s1, idx as int, fresh);
        }
        self.insert_key_at(&fresh, idx)?;
        let ghost s2 = self.bytes();
        proof {
            lemma_entries_added(s1, s2, idx as int, fresh);
            assert(slots(s2)[idx as int] == fresh);
        }
        self.store_value(idx, value, 0)?;
        proof {
            let u = self.bytes();
            lemma_entries_replaced(s2, u, idx as int, value@);
            assert(entries(u) =~= entries(s).insert(key, value@));
        }
        Ok(None)
    }

    /// Sees to it that the unallocated gap holds a slot, by
    /// defragmentation if it must, for a key whose value has `len` bytes.
    /// Refuses, with the page untouched, if the page lacks room for both.
    pub(crate) fn make_room(&mut self, len: usize) -> (res: Result<(), BTreeError>)
        requires
            old(self).wf(),
            len < 65536,
        ensures
            final(self).wf(),
            free_space(old(self).bytes()) < 16 + len ==> res == Err::<(), BTreeError>(
                BTreeError::NotEnoughSpace {
                    required: (16 + len) as usize,
                    actual: free_space(old(self).bytes()) as usize,
                },
            ) && final(self).bytes() == old(self).bytes(),
            free_space(old(self).bytes()) >= 16 + len ==> {
                &&& res is Ok
                &&& same_values(old(self).bytes(), final(self).bytes())
                &&& final(self)@ == old(self)@
                &&& shape(final(self).bytes()) == if unallocated(old(self).bytes()) < 16 {
                    shape(old(self).bytes()).packed()
                } else {
                    shape(old(self).bytes())
                }
                &&& unallocated(final(self).bytes()) >= 16
                &&& free_space(final(self).bytes()) >= 16 + len
            },
    {
        let ghost s = self.bytes();
        let required: usize = 16 + len;
        proof {
            lemma_totals_nonneg(s);
        }
        let unalloc = self.unallocated_space()?;
        if (unalloc as usize) < required {
            let space = self.free_space()?;
            if (space as usize) < required {
                return Err(BTreeError::NotEnoughSpace { required, actual: space as usize });
            }
            if unalloc < 16 {
                proof {
                    lemma_defragmented(s);
                }
                self.defrag()?;
                proof {
                    lemma_totals_nonneg(self.bytes());
                }
            }
        }
        Ok(())
    }

    /// Stores `value` in slot `idx` in the place of the value that the
    /// slot has: see `insert`.
    pub(crate) fn replace_value(&mut self, idx: u16, value: &[u8]) -> (res: Result<
        Option<KeyValuePair>,
        BTreeError,
    >)
        requires
            old(self).wf(),
            idx < num_keys(old(self).bytes()),
            value@.len() < 65536,
        ensures
            final(self).wf(),
            ({
                let s = old(self).bytes();
                let k = slots(s)[idx as int];
                let room = shape(s).cleared(idx as int).free_space();
                &&& room < 16 + value@.len() ==> res == Err::<Option<KeyValuePair>, BTreeError>(
                    BTreeError::NotEnoughSpace {
                        required: (16 + value@.len()) as usize,
                        actual: room as usize,
                    },
                ) && final(self).bytes() == s
                &&& room >= 16 + value@.len() ==> {
                    &&& res is Ok
                    &&& res.unwrap() is Some
                    &&& res.unwrap().unwrap().key == k.key
                    &&& res.unwrap().unwrap().value@ == value_of(s, k)
                    &&& with_value(s, final(self).bytes(), idx as int, value@)
                    &&& shape(final(self).bytes()) == shape(s).cleared(idx as int).stored(
                        idx as int,
                        value@.len() as int,
                        16,
                    )
                }
            }),
    {
        let ghost s = self.bytes();
        let required: usize = 16 + value.len();
        let room: usize = self.room_without(idx)?;
        if room < required {
            return Err(BTreeError::NotEnoughSpace { required, actual: room });
        }
        let (held, _) = self.read_key_at(idx)?;
        proof {
            assert(slots(s)[idx as int] == held);
            assert(held.value_offset + held.value_len <= 4096);
        }
        let held_value = slice_to_vec(
            self.get_page_slice(held.value_offset as usize, held.value_len as usize),
        );
        let cleared = Key { value_len: 0, ..held };
        proof {
            lemma_slot_cleared(s, idx as int, cleared);
        }
        self.mut_key_at(idx, &cleared);
        self.reclaim(held.value_offset, held.value_len)?;
        proof {
            let s2 = self.bytes();
            assert(slots(s2)[idx as int] == cleared);
            assert(shape(s2) == shape(s).cleared(idx as int));
        }
        self.store_value(idx, value, 16)?;
        Ok(Some(KeyValuePair { key: held.key, value: held_value }))
    }

    /// The space that could be reclaimed if the value of slot `idx` were
    /// given back.
    pub(crate) fn room_without(&self, idx: u16) -> (res: Result<usize, BTreeError>)
        requires
            self.wf(),
            idx < num_keys(self.bytes()),
        ensures
            res is Ok,
            res.unwrap() == shape(self.bytes()).cleared(idx as int).free_space(),
    {
        let ghost s = self.bytes();
        let (held, _) = self.read_key_at(idx)?;
        let header = self.read_header()?;
        let space = self.free_space()?;
        proof {
            let bl = blocks(s);
            assert(slots(s)[idx as int] == held);
            assert(held.value_offset + held.value_len <= 4096);
            lemma_totals_nonneg(s);
            lemma_rank_bounds(bl, held.value_offset as int);
            lemma_total_insert(
                bl,
                rank(bl, held.value_offset as int),
                Extent { start: held.value_offset as int, len: held.value_len as int },
            );
        }
        let gain: u16 = if held.value_offset == header.free_end || held.value_len >= 4 {
            held.value_len
        } else if header.fragmented_bytes as u16 + held.value_len > 255 {
            255 - header.fragmented_bytes as u16
        } else {
            held.value_len
        };
        Ok(space as usize + gain as usize)
    }
}

/// The rank of an offset in a chain lies within the chain.
pub proof fn lemma_rank_bounds(bl: Seq<Extent>, at: int)
    ensures
        0 <= rank(bl, at) <= bl.len(),
    decreases bl.len(),
{
    if bl.len() > 0 {
        lemma_rank_bounds(bl.drop_last(), at);
    }
}

} // verus!
