//! What a write to one part of a page leaves untouched in the others.

use vstd::prelude::*;
use super::endian::u16_at;
use super::header::{Header, lemma_same_header};
use super::key::{Key, lemma_same_slot};
use super::model::{
    entries, Extent, free_start, geometry_ok, has_key, index_of, keys_ascending, links_ok,
    num_keys, slot, slot_pos, slots, value_of,
};

verus! {

/// Whether `t` is `s` but for the bytes of `[lo, hi)`.
pub open spec fn same_outside(s: Seq<u8>, t: Seq<u8>, lo: int, hi: int) -> bool {
    &&& s.len() == t.len()
    &&& forall|p: int| 0 <= p < s.len() && !(lo <= p < hi) ==> #[trigger] t[p] == s[p]
}

/// Two descriptors stored in the same bytes hold the same link and size.
pub proof fn lemma_same_descriptor(s: Seq<u8>, p: int, t: Seq<u8>, q: int)
    requires
        0 <= p && p + 4 <= s.len(),
        0 <= q && q + 4 <= t.len(),
        s.subrange(p, p + 4) == t.subrange(q, q + 4),
    ensures
        u16_at(s, p) == u16_at(t, q),
        u16_at(s, p + 2) == u16_at(t, q + 2),
{
    let a = s.subrange(p, p + 4);
    let b = t.subrange(q, q + 4);
    assert(s[p + 0] == a[0] && t[q + 0] == b[0]);
    assert(s[p + 1] == a[1] && t[q + 1] == b[1]);
    assert(s[p + 2] == a[2] && t[q + 2] == b[2]);
    assert(s[p + 3] == a[3] && t[q + 3] == b[3]);
}

/// A write behind the header leaves the header.
pub proof fn lemma_frame_header(s: Seq<u8>, t: Seq<u8>, lo: int, hi: int)
    requires
        same_outside(s, t, lo, hi),
        14 <= s.len(),
        14 <= lo,
    ensures
        Header::decode(t) == Header::decode(s),
        Header::valid_tag(t) == Header::valid_tag(s),
{
    assert(t.subrange(0, 14) =~= s.subrange(0, 14));
    lemma_same_header(t, s.subrange(0, 14));
    lemma_same_header(s, s.subrange(0, 14));
}

/// A write behind the slot array leaves the header and the slots.
pub proof fn lemma_frame_slots(s: Seq<u8>, t: Seq<u8>, lo: int, hi: int)
    requires
        same_outside(s, t, lo, hi),
        geometry_ok(s),
        free_start(s) <= lo,
    ensures
        Header::decode(t) == Header::decode(s),
        geometry_ok(t),
        slots(t) == slots(s),
{
    lemma_frame_header(s, t, lo, hi);
    assert forall|i: int| 0 <= i < num_keys(s) implies slot(t, i) == slot(s, i) by {
        assert(t.subrange(slot_pos(i), slot_pos(i) + 16) =~= s.subrange(
            slot_pos(i),
            slot_pos(i) + 16,
        ));
        lemma_same_slot(t, slot_pos(i), s, slot_pos(i));
    }
    assert(slots(t) =~= slots(s));
}

/// A write to one slot leaves the others.
pub proof fn lemma_frame_other_slots(s: Seq<u8>, t: Seq<u8>, idx: int)
    requires
        same_outside(s, t, slot_pos(idx), slot_pos(idx) + 16),
        geometry_ok(s),
        0 <= idx < num_keys(s),
    ensures
        Header::decode(t) == Header::decode(s),
        geometry_ok(t),
        slots(t) == slots(s).update(idx, slot(t, idx)),
{
    lemma_frame_header(s, t, slot_pos(idx), slot_pos(idx) + 16);
    assert forall|i: int| 0 <= i < num_keys(s) && i != idx implies slot(t, i) == slot(s, i) by {
        assert(t.subrange(slot_pos(i), slot_pos(i) + 16) =~= s.subrange(
            slot_pos(i),
            slot_pos(i) + 16,
        ));
        lemma_same_slot(t, slot_pos(i), s, slot_pos(i));
    }
    assert(slots(t) =~= slots(s).update(idx, slot(t, idx)));
}

/// A write leaves the values that it does not touch.
pub proof fn lemma_frame_value(s: Seq<u8>, t: Seq<u8>, lo: int, hi: int, k: Key)
    requires
        same_outside(s, t, lo, hi),
        k.value_offset + k.value_len <= s.len(),
        k.value_len == 0 || k.value_offset + k.value_len <= lo || hi <= k.value_offset,
    ensures
        value_of(t, k) == value_of(s, k),
{
    assert(value_of(t, k) =~= value_of(s, k));
}

/// A write leaves the chain if it touches no descriptor.
pub proof fn lemma_frame_links(
    s: Seq<u8>,
    t: Seq<u8>,
    lo: int,
    hi: int,
    head: int,
    bl: Seq<Extent>,
)
    requires
        same_outside(s, t, lo, hi),
        links_ok(s, head, bl),
        forall|j: int|
            0 <= j < bl.len() ==> 0 <= (#[trigger] bl[j]).start && bl[j].start + 4 <= s.len() && (
            bl[j].start + 4 <= lo || hi <= bl[j].start),
    ensures
        links_ok(t, head, bl),
{
    assert forall|j: int| 0 <= j < bl.len() implies u16_at(t, (#[trigger] bl[j]).start) == u16_at(
        s,
        bl[j].start,
    ) && u16_at(t, bl[j].start + 2) == u16_at(s, bl[j].start + 2) by {
        let p = bl[j].start;
        assert(t.subrange(p, p + 4) =~= s.subrange(p, p + 4));
        lemma_same_descriptor(t, p, s, p);
    }
    assert forall|i: int, j: int| 0 <= i && j == i + 1 && j < bl.len() implies u16_at(
        t,
        (#[trigger] bl[i]).start,
    ) == (#[trigger] bl[j]).start by {
        assert(u16_at(s, bl[i].start) == bl[j].start);
    }
}

/// In a page with ascending keys, each slot's key is stored, with the
/// bytes of that slot's value, and nothing else is.
pub proof fn lemma_entries(s: Seq<u8>)
    requires
        keys_ascending(slots(s)),
    ensures
        forall|i: int|
            0 <= i < num_keys(s) ==> entries(s).contains_key((#[trigger] slots(s)[i]).key)
                && entries(s)[slots(s)[i].key] == value_of(s, slots(s)[i]),
        forall|k: u64|
            entries(s).contains_key(k) ==> 0 <= index_of(s, k) < num_keys(s) && slots(s)[index_of(
                s,
                k,
            )].key == k,
{
    let ks = slots(s);
    assert forall|i: int| 0 <= i < num_keys(s) implies entries(s).contains_key(
        (#[trigger] ks[i]).key,
    ) && entries(s)[ks[i].key] == value_of(s, ks[i]) by {
        let k = ks[i].key;
        assert(has_key(s, k));
        let j = index_of(s, k);
        assert(0 <= j < num_keys(s) && ks[j].key == k);
        if j < i {
            assert(ks[j].key < ks[i].key);
        } else if i < j {
            assert(ks[i].key < ks[j].key);
        }
    }
}

/// Pages with the same keys in the same order and the same bytes under
/// each value store the same map.
pub proof fn lemma_same_entries(s: Seq<u8>, t: Seq<u8>)
    requires
        keys_ascending(slots(s)),
        slots(t).len() == slots(s).len(),
        forall|i: int|
            0 <= i < slots(s).len() ==> (#[trigger] slots(t)[i]).key == slots(s)[i].key
                && value_of(t, slots(t)[i]) == value_of(s, slots(s)[i]),
    ensures
        entries(t) == entries(s),
{
    assert(keys_ascending(slots(t))) by {
        assert forall|a: int, b: int| 0 <= a < b < slots(t).len() implies (#[trigger] slots(
            t,
        )[a]).key < (#[trigger] slots(t)[b]).key by {
            assert(slots(s)[a].key < slots(s)[b].key);
        }
    }
    lemma_entries(s);
    lemma_entries(t);
    assert(num_keys(s) == slots(s).len());
    assert(num_keys(t) == slots(t).len());
    assert forall|k: u64| entries(t).contains_key(k) == entries(s).contains_key(k) by {
        if entries(t).contains_key(k) {
            let i = index_of(t, k);
            assert(slots(s)[i].key == slots(t)[i].key);
        }
        if entries(s).contains_key(k) {
            let i = index_of(s, k);
            assert(slots(t)[i].key == k);
        }
    }
    assert forall|k: u64| entries(s).contains_key(k) implies entries(t)[k] == entries(s)[k] by {
        let i = index_of(s, k);
        assert(slots(t)[i].key == k);
    }
    assert(entries(t) =~= entries(s));
}

/// A write leaves the descriptors that it does not touch.
pub proof fn lemma_descriptor_kept(s: Seq<u8>, t: Seq<u8>, lo: int, hi: int, p: int)
    requires
        same_outside(s, t, lo, hi),
        0 <= p && p + 4 <= s.len(),
        p + 4 <= lo || hi <= p,
    ensures
        u16_at(t, p) == u16_at(s, p),
        u16_at(t, p + 2) == u16_at(s, p + 2),
{
    assert(t.subrange(p, p + 4) =~= s.subrange(p, p + 4));
    lemma_same_descriptor(t, p, s, p);
}

/// A chain with one more block: the new block links to the block that
/// now follows it, and the block before it, or the head, links to it.
pub proof fn lemma_links_inserted(
    s: Seq<u8>,
    t: Seq<u8>,
    head: int,
    head2: int,
    bl: Seq<Extent>,
    pos: int,
    e: Extent,
)
    requires
        links_ok(s, head, bl),
        0 <= pos <= bl.len(),
        forall|j: int|
            0 <= j < bl.len() && j != pos - 1 ==> u16_at(t, (#[trigger] bl[j]).start) == u16_at(
                s,
                bl[j].start,
            ),
        forall|j: int|
            0 <= j < bl.len() ==> u16_at(t, (#[trigger] bl[j]).start + 2) == u16_at(
                s,
                bl[j].start + 2,
            ),
        u16_at(t, e.start) == if pos < bl.len() {
            bl[pos].start
        } else {
            0
        },
        u16_at(t, e.start + 2) == e.len,
        pos > 0 ==> u16_at(t, bl[pos - 1].start) == e.start && head2 == head,
        pos == 0 ==> head2 == e.start,
    ensures
        links_ok(t, head2, bl.insert(pos, e)),
{
    let bl2 = bl.insert(pos, e);
    assert forall|i: int| 0 <= i < bl2.len() implies u16_at(t, (#[trigger] bl2[i]).start + 2)
        == bl2[i].len by {
        if i < pos {
            assert(bl2[i] == bl[i]);
        } else if i > pos {
            assert(bl2[i] == bl[i - 1]);
        }
    }
    assert forall|i: int, j: int| 0 <= i && j == i + 1 && j < bl2.len() implies u16_at(
        t,
        (#[trigger] bl2[i]).start,
    ) == (#[trigger] bl2[j]).start by {
        if j < pos {
            assert(bl2[i] == bl[i] && bl2[j] == bl[j]);
        } else if j == pos {
            assert(bl2[i] == bl[i]);
        } else if i == pos {
            assert(bl2[j] == bl[pos]);
        } else {
            assert(bl2[i] == bl[i - 1] && bl2[j] == bl[j - 1]);
            assert(u16_at(s, bl[i - 1].start) == bl[j - 1].start);
        }
    }
    if pos == bl.len() {
        assert(bl2[bl2.len() - 1] == e);
    } else {
        assert(bl2[bl2.len() - 1] == bl[bl.len() - 1]);
    }
    if pos > 0 {
        assert(bl2[0] == bl[0]);
    }
}

/// A chain with one block less: the block before it, or the head, links
/// to the block behind it.
pub proof fn lemma_links_removed(
    s: Seq<u8>,
    t: Seq<u8>,
    head: int,
    head2: int,
    bl: Seq<Extent>,
    j: int,
)
    requires
        links_ok(s, head, bl),
        0 <= j < bl.len(),
        forall|i: int|
            0 <= i < bl.len() && i != j - 1 && i != j ==> u16_at(t, (#[trigger] bl[i]).start)
                == u16_at(s, bl[i].start),
        forall|i: int|
            0 <= i < bl.len() && i != j ==> u16_at(t, (#[trigger] bl[i]).start + 2) == u16_at(
                s,
                bl[i].start + 2,
            ),
        j > 0 ==> head2 == head && u16_at(t, bl[j - 1].start) == u16_at(s, bl[j].start),
        j == 0 ==> head2 == u16_at(s, bl[j].start),
    ensures
        links_ok(t, head2, bl.remove(j)),
{
    let bl2 = bl.remove(j);
    assert forall|i: int| 0 <= i < bl2.len() implies #[trigger] bl2[i] == bl[if i < j {
        i
    } else {
        i + 1
    }] by {}
    assert forall|i: int| 0 <= i < bl2.len() implies u16_at(t, (#[trigger] bl2[i]).start + 2)
        == bl2[i].len by {
        let i1 = if i < j { i } else { i + 1 };
        assert(u16_at(s, bl[i1].start + 2) == bl[i1].len);
    }
    assert forall|a: int, b: int| 0 <= a && b == a + 1 && b < bl2.len() implies u16_at(
        t,
        (#[trigger] bl2[a]).start,
    ) == (#[trigger] bl2[b]).start by {
        if b < j {
            assert(u16_at(s, bl[a].start) == bl[b].start);
        } else if b == j {
            assert(bl2[a] == bl[j - 1] && bl2[b] == bl[j + 1]);
            assert(u16_at(s, bl[j].start) == bl[j + 1].start);
        } else {
            assert(bl2[a] == bl[a + 1] && bl2[b] == bl[b + 1]);
            assert(u16_at(s, bl[a + 1].start) == bl[b + 1].start);
        }
    }
    if bl2.len() > 0 {
        if j == bl.len() - 1 {
            assert(bl2[bl2.len() - 1] == bl[j - 1]);
            assert(u16_at(s, bl[j].start) == 0);
        } else {
            assert(bl2[bl2.len() - 1] == bl[bl.len() - 1]);
        }
        if j == 0 {
            assert(bl2[0] == bl[1]);
            assert(u16_at(s, bl[0].start) == bl[1].start);
        } else {
            assert(bl2[0] == bl[0]);
        }
    } else {
        assert(u16_at(s, bl[0].start) == 0);
    }
}

/// A chain in which the run `r` stands for block `j`: `r` links to the
/// block behind, and the block before it, or the head, links to `r`.
pub proof fn lemma_links_replaced(
    s: Seq<u8>,
    t: Seq<u8>,
    head: int,
    head2: int,
    bl: Seq<Extent>,
    j: int,
    r: Extent,
)
    requires
        links_ok(s, head, bl),
        0 <= j < bl.len(),
        forall|i: int|
            0 <= i < bl.len() && i != j - 1 && i != j ==> u16_at(t, (#[trigger] bl[i]).start)
                == u16_at(s, bl[i].start),
        forall|i: int|
            0 <= i < bl.len() && i != j ==> u16_at(t, (#[trigger] bl[i]).start + 2) == u16_at(
                s,
                bl[i].start + 2,
            ),
        u16_at(t, r.start) == u16_at(s, bl[j].start),
        u16_at(t, r.start + 2) == r.len,
        j > 0 ==> head2 == head && u16_at(t, bl[j - 1].start) == r.start,
        j == 0 ==> head2 == r.start,
    ensures
        links_ok(t, head2, bl.update(j, r)),
{
    let bl2 = bl.update(j, r);
    assert forall|i: int| 0 <= i < bl2.len() implies u16_at(t, (#[trigger] bl2[i]).start + 2)
        == bl2[i].len by {
        if i != j {
            assert(u16_at(s, bl[i].start + 2) == bl[i].len);
        }
    }
    assert forall|a: int, b: int| 0 <= a && b == a + 1 && b < bl2.len() implies u16_at(
        t,
        (#[trigger] bl2[a]).start,
    ) == (#[trigger] bl2[b]).start by {
        if b == j {
            assert(bl2[a] == bl[a]);
        } else if a == j {
            assert(u16_at(s, bl[j].start) == bl[b].start);
        } else {
            assert(u16_at(s, bl[a].start) == bl[b].start);
        }
    }
    if j == bl.len() - 1 {
        assert(u16_at(s, bl[j].start) == 0);
    } else {
        assert(bl2[bl2.len() - 1] == bl[bl.len() - 1]);
    }
}

} // verus!
