//! Defragmentation: the values packed against the end of the page.

use vstd::prelude::*;
use vstd::slice::slice_to_vec;
use super::{Node, overwrite};
use super::errors::BTreeError;
use super::frame::{lemma_same_entries, same_outside};
use super::header::{Header, lemma_same_header};
use super::key::{Key, lemma_same_slot};
use super::layout::{lemma_packed, lemma_total_prefixes, packed_slots};
use super::model::{
    blocks, entries, Extent, extents, first_freeblock, fragmented, free_end, free_start,
    geometry_ok, lemma_total_take, links_ok, num_keys, slot, slot_pos, slots, total, value_of,
    well_formed,
};
use super::shape::shape;
use super::space::lemma_wf_from;

verus! {

/// The values of the first `n` slots of `s`, one behind the other.
pub open spec fn packed(s: Seq<u8>, n: int) -> Seq<u8>
    decreases n,
{
    if n <= 0 {
        Seq::empty()
    } else {
        packed(s, n - 1) + value_of(s, slot(s, n - 1))
    }
}

/// Slot `i` of `s` with its value behind those of the slots before it,
/// from `base` on.
pub open spec fn moved_slot(s: Seq<u8>, base: int, i: int) -> Key {
    Key { value_offset: (base + packed(s, i).len()) as u16, ..slot(s, i) }
}

/// The page `cur` with the first `n` slots replaced by the moved slots
/// of `orig`.
pub open spec fn relocated(cur: Seq<u8>, orig: Seq<u8>, base: int, n: int) -> Seq<u8>
    decreases n,
{
    if n <= 0 {
        cur
    } else {
        overwrite(
            relocated(cur, orig, base, n - 1),
            slot_pos(n - 1),
            moved_slot(orig, base, n - 1).encode(),
        )
    }
}

/// Where the payload region of `s` begins once its values are packed.
pub open spec fn packed_base(s: Seq<u8>) -> int {
    4096 - packed(s, num_keys(s)).len()
}

/// The page `s` defragmented: the values lie packed against the end of
/// the page in slot order, each slot points at its value's new place,
/// and the header knows of no freeblock and no fragmented byte. The
/// bytes between the slot array and the packed values stay as they are.
pub open spec fn defragmented(s: Seq<u8>) -> Seq<u8> {
    let base = packed_base(s);
    let h = Header {
        free_end: base as u16,
        first_freeblock: 0,
        fragmented_bytes: 0,
        ..Header::decode(s)
    };
    overwrite(
        relocated(overwrite(s, base, packed(s, num_keys(s))), s, base, num_keys(s)),
        0,
        h.encode(),
    )
}

/// The packed values of the first `i` slots are as long as their runs.
pub proof fn lemma_packed_len(s: Seq<u8>, i: int)
    requires
        well_formed(s),
        0 <= i <= num_keys(s),
    ensures
        packed(s, i).len() == total(extents(slots(s)).take(i)),
        0 <= packed(s, i).len() <= total(extents(slots(s))),
        i < num_keys(s) ==> packed(s, i + 1).len() == packed(s, i).len() + slots(s)[i].value_len,
    decreases i,
{
    let ex = extents(slots(s));
    assert forall|j: int| 0 <= j < ex.len() implies 0 <= (#[trigger] ex[j]).len by {}
    lemma_total_prefixes(ex, i, i);
    if i > 0 {
        lemma_packed_len(s, i - 1);
        lemma_total_take(ex, i - 1);
        assert(slots(s)[i - 1].value_offset + slots(s)[i - 1].value_len <= 4096);
        assert(ex[i - 1].len == slots(s)[i - 1].value_len);
    } else {
        assert(ex.take(0) =~= Seq::<Extent>::empty());
    }
    if i < num_keys(s) {
        assert(slots(s)[i].value_offset + slots(s)[i].value_len <= 4096);
    }
}

/// In the packed values of the first `n` slots, the value of slot `i`
/// lies behind those of the slots before it.
pub proof fn lemma_packed_part(s: Seq<u8>, n: int, i: int)
    requires
        well_formed(s),
        0 <= i < n <= num_keys(s),
    ensures
        packed(s, i).len() + slots(s)[i].value_len == packed(s, i + 1).len(),
        packed(s, i + 1).len() <= packed(s, n).len(),
        packed(s, n).subrange(packed(s, i).len() as int, packed(s, i + 1).len() as int)
            == value_of(s, slots(s)[i]),
    decreases n,
{
    lemma_packed_len(s, i);
    lemma_packed_len(s, n - 1);
    let a = packed(s, n - 1);
    let b = value_of(s, slot(s, n - 1));
    if i == n - 1 {
        assert((a + b).subrange(a.len() as int, (a + b).len() as int) =~= b);
    } else {
        lemma_packed_part(s, n - 1, i);
        let lo = packed(s, i).len() as int;
        let hi = packed(s, i + 1).len() as int;
        assert((a + b).subrange(lo, hi) =~= a.subrange(lo, hi));
    }
}

/// What `relocated` does: it writes the moved slots and nothing else.
pub proof fn lemma_relocated(cur: Seq<u8>, orig: Seq<u8>, base: int, n: int)
    requires
        cur.len() == 4096,
        0 <= n,
        slot_pos(n) <= 4096,
    ensures
        relocated(cur, orig, base, n).len() == 4096,
        same_outside(cur, relocated(cur, orig, base, n), 14, slot_pos(n)),
        forall|i: int|
            #![trigger moved_slot(orig, base, i)]
            0 <= i < n ==> relocated(cur, orig, base, n).subrange(slot_pos(i), slot_pos(i) + 16)
                == moved_slot(orig, base, i).encode(),
    decreases n,
{
    if n > 0 {
        let prev = relocated(cur, orig, base, n - 1);
        let r = relocated(cur, orig, base, n);
        let k = moved_slot(orig, base, n - 1);
        lemma_relocated(cur, orig, base, n - 1);
        assert(k.encode().len() == 16) by {
            k.lemma_round_trip();
        }
        assert(r == overwrite(prev, slot_pos(n - 1), k.encode()));
        assert(same_outside(prev, r, slot_pos(n - 1), slot_pos(n)));
        assert forall|i: int|
            #![trigger moved_slot(orig, base, i)]
            0 <= i < n implies r.subrange(slot_pos(i), slot_pos(i) + 16) == moved_slot(
            orig,
            base,
            i,
        ).encode() by {
            if i < n - 1 {
                assert(r.subrange(slot_pos(i), slot_pos(i) + 16) =~= prev.subrange(
                    slot_pos(i),
                    slot_pos(i) + 16,
                ));
            } else {
                assert(r.subrange(slot_pos(i), slot_pos(i) + 16) =~= k.encode());
            }
        }
    }
}

/// The header that defragmentation leaves.
pub open spec fn packed_header(s: Seq<u8>) -> Header {
    Header {
        free_end: packed_base(s) as u16,
        first_freeblock: 0,
        fragmented_bytes: 0,
        ..Header::decode(s)
    }
}

/// `defragmented`, part by part: the header, the moved slots, the bytes
/// left as they are and the packed values.
pub proof fn lemma_defragmented_bytes(s: Seq<u8>)
    requires
        well_formed(s),
    ensures
        ({
            let t = defragmented(s);
            let base = packed_base(s);
            &&& t.len() == 4096
            &&& base == 4096 - total(extents(slots(s)))
            &&& free_end(s) <= base <= 4096
            &&& t.subrange(0, 14) == packed_header(s).encode()
            &&& forall|i: int|
                #![trigger moved_slot(s, base, i)]
                0 <= i < num_keys(s) ==> t.subrange(slot_pos(i), slot_pos(i) + 16) == moved_slot(
                    s,
                    base,
                    i,
                ).encode()
            &&& forall|p: int| free_start(s) <= p < base ==> #[trigger] t[p] == s[p]
            &&& t.subrange(base, 4096) == packed(s, num_keys(s))
        }),
{
    let n = num_keys(s);
    let ks = slots(s);
    let data = packed(s, n);
    let base = packed_base(s);
    let h = packed_header(s);
    let t1 = overwrite(s, base, data);
    let t2 = relocated(t1, s, base, n);
    let t = defragmented(s);
    lemma_packed_len(s, n);
    assert(extents(ks).take(n) =~= extents(ks));
    lemma_packed(ks, blocks(s), free_end(s), fragmented(s));
    lemma_relocated(t1, s, base, n);
    assert(h.encode().len() == 14) by {
        h.lemma_round_trip();
    }
    assert(t == overwrite(t2, 0, h.encode()));
    assert(t.subrange(0, 14) =~= h.encode());
    assert forall|i: int|
        #![trigger moved_slot(s, base, i)]
        0 <= i < n implies t.subrange(slot_pos(i), slot_pos(i) + 16) == moved_slot(
        s,
        base,
        i,
    ).encode() by {
        assert(t.subrange(slot_pos(i), slot_pos(i) + 16) =~= t2.subrange(
            slot_pos(i),
            slot_pos(i) + 16,
        ));
    }
    assert forall|p: int| free_start(s) <= p < base implies #[trigger] t[p] == s[p] by {
        assert(t[p] == t2[p]);
        assert(t2[p] == t1[p]);
    }
    assert forall|p: int| base <= p < 4096 implies #[trigger] t[p] == data[p - base] by {
        assert(t[p] == t2[p]);
        assert(t2[p] == t1[p]);
    }
    assert(t.subrange(base, 4096) =~= data);
}

/// The header and the slots that defragmentation leaves.
pub proof fn lemma_defragmented_slots(s: Seq<u8>)
    requires
        well_formed(s),
    ensures
        ({
            let t = defragmented(s);
            &&& geometry_ok(t)
            &&& Header::decode(t) == packed_header(s)
            &&& slots(t) == packed_slots(slots(s))
        }),
{
    let n = num_keys(s);
    let ks = slots(s);
    let base = packed_base(s);
    let h = packed_header(s);
    let t = defragmented(s);
    lemma_defragmented_bytes(s);
    h.lemma_round_trip();
    lemma_same_header(t, h.encode());
    assert forall|i: int| 0 <= i < n implies #[trigger] slot(t, i) == packed_slots(ks)[i] by {
        let k = moved_slot(s, base, i);
        k.lemma_round_trip();
        assert(k.encode().subrange(0, 16) =~= k.encode());
        lemma_same_slot(t, slot_pos(i), k.encode(), 0);
        lemma_packed_len(s, i);
        assert(slot(s, i) == ks[i]);
    }
    assert(slots(t) =~= packed_slots(ks));
}

/// After defragmentation each slot has the bytes of its value.
pub proof fn lemma_defragmented_values(s: Seq<u8>)
    requires
        well_formed(s),
    ensures
        forall|i: int|
            0 <= i < num_keys(s) ==> value_of(defragmented(s), #[trigger] packed_slots(
                slots(s),
            )[i]) == value_of(s, slots(s)[i]),
{
    let n = num_keys(s);
    let ks = slots(s);
    let data = packed(s, n);
    let base = packed_base(s);
    let t = defragmented(s);
    lemma_defragmented_bytes(s);
    lemma_packed(ks, blocks(s), free_end(s), fragmented(s));
    assert forall|i: int| 0 <= i < n implies value_of(t, #[trigger] packed_slots(ks)[i])
        == value_of(s, ks[i]) by {
        lemma_packed_part(s, n, i);
        lemma_packed_len(s, i);
        let lo = packed(s, i).len() as int;
        let hi = packed(s, i + 1).len() as int;
        let k = packed_slots(ks)[i];
        assert(k.value_offset == base + lo);
        assert(k.value_len == ks[i].value_len);
        assert(t.subrange(base + lo, base + hi) =~= t.subrange(base, 4096).subrange(lo, hi));
    }
}

/// What defragmentation leaves: a well formed page with the same map, the
/// same keys and value lengths in the same slots, every value packed, no
/// freeblock and no fragmented byte.
pub proof fn lemma_defragmented(s: Seq<u8>)
    requires
        well_formed(s),
    ensures
        ({
            let t = defragmented(s);
            let base = packed_base(s);
            &&& well_formed(t)
            &&& entries(t) == entries(s)
            &&& base == 4096 - total(extents(slots(s)))
            &&& free_end(s) <= base
            &&& Header::decode(t) == packed_header(s)
            &&& blocks(t) == Seq::<Extent>::empty()
            &&& slots(t) == packed_slots(slots(s))
            &&& forall|p: int| free_start(s) <= p < base ==> #[trigger] t[p] == s[p]
            &&& t.subrange(base, 4096) == packed(s, num_keys(s))
            &&& forall|i: int|
                0 <= i < num_keys(s) ==> value_of(t, #[trigger] slots(t)[i]) == value_of(
                    s,
                    slots(s)[i],
                )
        }),
{
    let ks = slots(s);
    let t = defragmented(s);
    lemma_defragmented_bytes(s);
    lemma_defragmented_slots(s);
    lemma_defragmented_values(s);
    let none = Seq::<Extent>::empty();
    assert(well_formed(t) && blocks(t) == none) by {
        lemma_packed(ks, blocks(s), free_end(s), fragmented(s));
        assert(links_ok(t, first_freeblock(t), none));
        lemma_wf_from(t, none);
    }
    assert(entries(t) == entries(s)) by {
        lemma_packed(ks, blocks(s), free_end(s), fragmented(s));
        assert forall|i: int| 0 <= i < ks.len() implies (#[trigger] slots(t)[i]).key == ks[i].key
            && value_of(t, slots(t)[i]) == value_of(s, ks[i]) by {}
        lemma_same_entries(s, t);
    }
}

impl<'a> Node<'a> {
    /// Packs the values against the end of the page in slot order, points
    /// each slot at its value's new place, and forgets the freeblocks and
    /// the fragmented bytes. Keys, values and their order stay.
    pub fn defrag(&mut self) -> (res: Result<(), BTreeError>)
        requires
            old(self).wf(),
        ensures
            res is Ok,
            final(self).bytes() == defragmented(old(self).bytes()),
            final(self).wf(),
            final(self)@ == old(self)@,
            shape(final(self).bytes()) == shape(old(self).bytes()).packed(),
    {
        let ghost s = self.bytes();
        let ghost base = packed_base(s);
        let header = self.read_header()?;
        let n: u16 = header.num_keys;
        let mut keys: Vec<Key> = Vec::new();
        let mut buffer: Vec<u8> = Vec::new();
        let mut i: u16 = 0;
        while i < n
            invariant
                self.bytes() == s,
                well_formed(s),
                n == num_keys(s),
                i <= n,
                keys@.len() == i,
                forall|j: int| 0 <= j < i ==> keys@[j] == slot(s, j),
                buffer@ == packed(s, i as int),
            decreases n - i,
        {
            let (key, _) = self.read_key_at(i)?;
            proof {
                assert(slots(s)[i as int] == key);
                assert(key.value_offset + key.value_len <= 4096);
            }
            let src = self.get_page_slice(key.value_offset as usize, key.value_len as usize);
            let mut part = slice_to_vec(src);
            buffer.append(&mut part);
            keys.push(key);
            i += 1;
        }
        proof {
            lemma_packed_len(s, n as int);
            lemma_defragmented(s);
        }
        let total_used: usize = buffer.len();
        let new_free_end: u16 = (4096 - total_used) as u16;
        self.write_at(new_free_end as usize, buffer.as_slice());
        let ghost t1 = self.bytes();
        let mut pos: u16 = 0;
        i = 0;
        while i < n
            invariant
                well_formed(s),
                n == num_keys(s),
                i <= n,
                t1.len() == 4096,
                new_free_end == base,
                base == packed_base(s),
                keys@.len() == n,
                forall|j: int| 0 <= j < n ==> keys@[j] == slot(s, j),
                self.bytes() == relocated(t1, s, base, i as int),
                pos == packed(s, i as int).len(),
            decreases n - i,
        {
            let key = keys[i as usize];
            proof {
                lemma_packed_len(s, i as int);
                lemma_packed_len(s, n as int);
                lemma_packed_part(s, n as int, i as int);
                lemma_relocated(t1, s, base, i as int);
                assert(slots(s)[i as int] == key);
            }
            let moved = Key { value_offset: new_free_end + pos, ..key };
            self.mut_key_at(i, &moved);
            pos += key.value_len;
            i += 1;
        }
        self.mutate_header(
            &Header {
                free_end: new_free_end,
                first_freeblock: 0,
                fragmented_bytes: 0,
                ..header
            },
        );
        Ok(())
    }
}

} // verus!
