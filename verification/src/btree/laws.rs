//! What holds of every well formed page, and of every run of operations.
//!
//! `Node::new` makes a well formed page, and `insert`, `delete` and
//! `defrag` each leave one; so what is proved here of a well formed page
//! holds after each of them.

use vstd::prelude::*;
use super::PAGE_SIZE;
use super::defrag::{
    defragmented, lemma_defragmented, lemma_defragmented_bytes, lemma_packed_len, moved_slot,
    packed, packed_base, packed_header,
};
use super::header::HEADER_SIZE;
use super::key::Key;
use super::model::{
    blocks, disjoint, entries, extent_of, fragmented, free_end, free_space, free_start,
    keys_ascending, num_keys, slot, slot_pos, slots, total, value_of, well_formed,
};
use super::shape::{lemma_place_of, place_of, shape, Shape};

verus! {

/// Each slot holds a smaller key than the slot behind it.
pub proof fn law_keys_ascend(s: Seq<u8>)
    requires
        well_formed(s),
    ensures
        forall|i: int|
            0 <= i && i + 1 < slots(s).len() ==> (#[trigger] slots(s)[i]).key < slots(s)[i + 1].key,
{
}

/// The slot array ends where the header says that the unallocated gap
/// begins.
pub proof fn law_slot_array_end(s: Seq<u8>)
    requires
        well_formed(s),
    ensures
        free_start(s) == HEADER_SIZE + 16 * num_keys(s),
{
}

/// The unallocated gap lies behind the header and inside the page.
pub proof fn law_gap_in_order(s: Seq<u8>)
    requires
        well_formed(s),
    ensures
        HEADER_SIZE <= free_start(s) <= free_end(s) <= PAGE_SIZE,
{
}

/// The values that have bytes and the freeblocks lie in the payload
/// region, and no two of them share a byte. A value without bytes lies
/// nowhere.
pub proof fn law_regions_apart(s: Seq<u8>)
    requires
        well_formed(s),
    ensures
        forall|i: int|
            0 <= i < slots(s).len() && (#[trigger] slots(s)[i]).value_len > 0 ==> free_end(s)
                <= slots(s)[i].value_offset && slots(s)[i].value_offset + slots(s)[i].value_len
                <= PAGE_SIZE,
        forall|j: int|
            0 <= j < blocks(s).len() ==> free_end(s) <= (#[trigger] blocks(s)[j]).start && blocks(
                s,
            )[j].start + blocks(s)[j].len <= PAGE_SIZE,
        forall|i: int, j: int|
            0 <= i < j < slots(s).len() && (#[trigger] slots(s)[i]).value_len > 0 && (
            #[trigger] slots(s)[j]).value_len > 0 ==> disjoint(
                extent_of(slots(s)[i]),
                extent_of(slots(s)[j]),
            ),
        forall|i: int, j: int|
            0 <= i < slots(s).len() && 0 <= j < blocks(s).len() && (#[trigger] slots(
                s,
            )[i]).value_len > 0 ==> disjoint(extent_of(slots(s)[i]), #[trigger] blocks(s)[j]),
        forall|i: int, j: int|
            0 <= i < j < blocks(s).len() ==> disjoint(
                #[trigger] blocks(s)[i],
                #[trigger] blocks(s)[j],
            ),
{
}

/// Every freeblock covers its descriptor, and the chain leads upward.
pub proof fn law_chain_in_order(s: Seq<u8>)
    requires
        well_formed(s),
    ensures
        forall|j: int| 0 <= j < blocks(s).len() ==> (#[trigger] blocks(s)[j]).len >= 4,
        forall|i: int, j: int|
            0 <= i < j < blocks(s).len() ==> (#[trigger] blocks(s)[i]).start < (
            #[trigger] blocks(s)[j]).start,
{
    let bl = blocks(s);
    assert forall|i: int, j: int| 0 <= i < j < bl.len() implies (#[trigger] bl[i]).start < (
    #[trigger] bl[j]).start by {
        assert(4 <= bl[i].len);
        assert(bl[i].start + bl[i].len <= bl[j].start);
    }
}

/// The space that can be reclaimed is the unallocated gap, the freeblocks
/// and the fragmented bytes together; it is what `Node::free_space`
/// returns and what the shape of the page counts.
pub proof fn law_free_space(s: Seq<u8>)
    requires
        well_formed(s),
    ensures
        free_space(s) == (free_end(s) - free_start(s)) + total(blocks(s)) + fragmented(s),
        free_space(s) == shape(s).free_space(),
{
}

/// One step of a run of operations that succeed, as the map sees it.
pub enum Step {
    Insert { key: u64, value: Seq<u8> },
    Delete { key: u64 },
}

impl Step {
    /// The key that the step is about.
    pub open spec fn key(self) -> u64 {
        match self {
            Step::Insert { key, .. } => key,
            Step::Delete { key } => key,
        }
    }

    /// The map after the step: what `insert` and `delete` promise of the
    /// map that the page stores.
    pub open spec fn apply(self, m: Map<u64, Seq<u8>>) -> Map<u64, Seq<u8>> {
        match self {
            Step::Insert { key, value } => m.insert(key, value),
            Step::Delete { key } => m.remove(key),
        }
    }
}

/// The map after the steps of `run`, from `m` on.
pub open spec fn after(m: Map<u64, Seq<u8>>, run: Seq<Step>) -> Map<u64, Seq<u8>>
    decreases run.len(),
{
    if run.len() == 0 {
        m
    } else {
        run.last().apply(after(m, run.drop_last()))
    }
}

/// A value stored under a key is what `get` finds there for as long as
/// no later step stores or deletes under that key.
pub proof fn law_round_trip(m: Map<u64, Seq<u8>>, key: u64, value: Seq<u8>, later: Seq<Step>)
    requires
        forall|i: int| 0 <= i < later.len() ==> (#[trigger] later[i]).key() != key,
    ensures
        after(m.insert(key, value), later).contains_key(key),
        after(m.insert(key, value), later)[key] == value,
    decreases later.len(),
{
    if later.len() > 0 {
        let before = later.drop_last();
        assert forall|i: int| 0 <= i < before.len() implies (#[trigger] before[i]).key()
            != key by {
            assert(before[i] == later[i]);
        }
        law_round_trip(m, key, value, before);
        assert(later.last() == later[later.len() - 1]);
    }
}

/// A key under which no step of a run stores is not found after the run.
pub proof fn law_never_inserted(run: Seq<Step>, key: u64)
    requires
        forall|i: int|
            0 <= i < run.len() ==> !(#[trigger] run[i] is Insert && run[i].key() == key),
    ensures
        !after(Map::empty(), run).contains_key(key),
    decreases run.len(),
{
    if run.len() > 0 {
        let before = run.drop_last();
        assert forall|i: int| 0 <= i < before.len() implies !(#[trigger] before[i] is Insert
            && before[i].key() == key) by {
            assert(before[i] == run[i]);
        }
        law_never_inserted(before, key);
        assert(run.last() == run[run.len() - 1]);
    }
}

/// After a run, a key whose last step stored a value is found with that
/// value, and a key whose last step deleted it is not found.
pub proof fn law_last_step_wins(m: Map<u64, Seq<u8>>, run: Seq<Step>, last: int)
    requires
        0 <= last < run.len(),
        forall|i: int| last < i < run.len() ==> (#[trigger] run[i]).key() != run[last].key(),
    ensures
        match run[last] {
            Step::Insert { key, value } => after(m, run).contains_key(key) && after(m, run)[key]
                == value,
            Step::Delete { key } => !after(m, run).contains_key(key),
        },
    decreases run.len(),
{
    let before = run.drop_last();
    if last == run.len() - 1 {
        assert(run.last() == run[last]);
    } else {
        assert(before[last] == run[last]);
        assert forall|i: int| last < i < before.len() implies (#[trigger] before[i]).key()
            != before[last].key() by {
            assert(before[i] == run[i]);
        }
        law_last_step_wins(m, before, last);
        assert(run.last() == run[run.len() - 1]);
        assert(run.last().key() != run[last].key());
    }
}

/// A key is stored, as the map sees it, if and only if the slot at its
/// place holds it, as the shape sees it.
pub proof fn law_holds_is_stored(s: Seq<u8>, key: u64)
    requires
        well_formed(s),
    ensures
        shape(s).holds(key) == entries(s).contains_key(key),
{
    let ks = slots(s);
    let idx = place_of(ks, key);
    lemma_place_splits(ks, key);
    if entries(s).contains_key(key) {
        let i = choose|i: int| 0 <= i < num_keys(s) && (#[trigger] slots(s)[i]).key == key;
        if i > idx {
            assert(ks[idx].key < ks[i].key);
        }
        assert(i == idx);
    }
    if shape(s).holds(key) {
        assert(ks[idx].key == key);
    }
}

/// The keys of the slots `ks`, in slot order.
pub open spec fn keys_of(ks: Seq<Key>) -> Seq<u64> {
    Seq::new(ks.len(), |i: int| ks[i].key)
}

/// `insert` with a new key puts the key where it belongs among the keys
/// of the slot array, which stay in their order.
pub proof fn law_insert_in_order(sh: Shape, key: u64, v: int)
    requires
        keys_ascending(sh.slots),
        !sh.holds(key),
    ensures
        keys_of(sh.inserted(key, v).slots) == keys_of(sh.slots).insert(
            place_of(sh.slots, key),
            key,
        ),
        forall|i: int|
            0 <= i < place_of(sh.slots, key) ==> (#[trigger] sh.slots[i]).key < key,
        forall|i: int|
            place_of(sh.slots, key) <= i < sh.slots.len() ==> key < (#[trigger] sh.slots[i]).key,
        0 <= place_of(sh.slots, key) <= sh.slots.len(),
{
    let ks = sh.slots;
    let idx = place_of(ks, key);
    lemma_place_splits(ks, key);
    assert forall|i: int| idx <= i < ks.len() implies key < (#[trigger] ks[i]).key by {
        if ks[i].key == key {
            if i > idx {
                assert(ks[idx].key < ks[i].key);
            }
        }
    }
    let roomy = if sh.unallocated() < 16 {
        sh.packed()
    } else {
        sh
    };
    assert(keys_of(roomy.slots) =~= keys_of(ks));
    assert(keys_of(sh.inserted(key, v).slots) =~= keys_of(ks).insert(idx, key));
}

/// The place of a key splits ascending keys into the smaller ones and
/// the others.
pub proof fn lemma_place_splits(ks: Seq<Key>, key: u64)
    requires
        keys_ascending(ks),
    ensures
        0 <= place_of(ks, key) <= ks.len(),
        forall|i: int| 0 <= i < place_of(ks, key) ==> (#[trigger] ks[i]).key < key,
        forall|i: int| place_of(ks, key) <= i < ks.len() ==> key <= (#[trigger] ks[i]).key,
    decreases ks.len(),
{
    if ks.len() > 0 {
        let rest = ks.drop_last();
        assert(keys_ascending(rest)) by {
            assert forall|a: int, b: int| 0 <= a < b < rest.len() implies (#[trigger] rest[a]).key
                < (#[trigger] rest[b]).key by {
                assert(rest[a] == ks[a] && rest[b] == ks[b]);
            }
        }
        lemma_place_splits(rest, key);
        let idx = place_of(rest, key);
        assert forall|i: int| 0 <= i < place_of(ks, key) implies (#[trigger] ks[i]).key < key by {
            if i < rest.len() {
                assert(rest[i] == ks[i]);
                if i >= idx {
                    assert(ks[i].key < ks[ks.len() - 1].key);
                }
            }
        }
        assert forall|i: int| place_of(ks, key) <= i < ks.len() implies key <= (
        #[trigger] ks[i]).key by {
            if i < rest.len() {
                assert(rest[i] == ks[i]);
            }
        }
    }
}

/// The slots after new keys have been stored one after the other, each
/// with a value of the length given for it.
pub open spec fn after_inserts(sh: Shape, keys: Seq<u64>, lens: Seq<int>) -> Shape
    decreases keys.len(),
{
    if keys.len() == 0 {
        sh
    } else {
        after_inserts(sh, keys.drop_last(), lens.drop_last()).inserted(keys.last(), lens.last())
    }
}

/// Keys stored in descending order into a page without keys end up in
/// ascending order: the slot array holds them the other way round.
pub proof fn law_descending_inserts(sh: Shape, keys: Seq<u64>, lens: Seq<int>)
    requires
        sh.slots.len() == 0,
        keys.len() == lens.len(),
        forall|i: int, j: int| 0 <= i < j < keys.len() ==> keys[i] > keys[j],
    ensures
        keys_of(after_inserts(sh, keys, lens).slots) == keys.reverse(),
        keys_ascending(after_inserts(sh, keys, lens).slots),
    decreases keys.len(),
{
    if keys.len() == 0 {
        assert(keys_of(sh.slots) =~= keys.reverse());
    } else {
        let n = keys.len() - 1;
        let before = after_inserts(sh, keys.drop_last(), lens.drop_last());
        let now = after_inserts(sh, keys, lens);
        let key = keys.last();
        law_descending_inserts(sh, keys.drop_last(), lens.drop_last());
        let held = keys_of(before.slots);
        assert(held == keys.drop_last().reverse());
        assert forall|i: int| 0 <= i < before.slots.len() implies key < (
        #[trigger] before.slots[i]).key by {
            assert(held[i] == before.slots[i].key);
            assert(held[i] == keys.drop_last()[n - 1 - i]);
        }
        lemma_place_of(before.slots, key, 0);
        assert(!before.holds(key)) by {
            if before.slots.len() > 0 {
                assert(key < before.slots[0].key);
            }
        }
        law_insert_in_order(before, key, lens.last());
        assert(keys_of(now.slots) =~= keys.reverse());
        assert(keys_ascending(now.slots)) by {
            assert forall|a: int, b: int| 0 <= a < b < now.slots.len() implies (
            #[trigger] now.slots[a]).key < (#[trigger] now.slots[b]).key by {
                assert(keys_of(now.slots)[a] == now.slots[a].key);
                assert(keys_of(now.slots)[b] == now.slots[b].key);
            }
        }
    }
}

/// Pages whose first `n` slots have the same values pack to the same bytes.
pub proof fn lemma_packed_same(s: Seq<u8>, t: Seq<u8>, n: int)
    requires
        forall|i: int|
            0 <= i < n ==> value_of(t, #[trigger] slot(t, i)) == value_of(s, slot(s, i)),
    ensures
        packed(t, n) == packed(s, n),
    decreases n,
{
    if n > 0 {
        lemma_packed_same(s, t, n - 1);
        assert(value_of(t, slot(t, n - 1)) == value_of(s, slot(s, n - 1)));
    }
}

/// Defragmentation of a defragmented page changes no byte, and
/// defragmentation leaves the stored map as it is: every `get` finds what
/// it found.
pub proof fn law_defrag_idempotent(s: Seq<u8>)
    requires
        well_formed(s),
    ensures
        defragmented(defragmented(s)) == defragmented(s),
        entries(defragmented(s)) == entries(s),
{
    let t = defragmented(s);
    let u = defragmented(t);
    let n = num_keys(s);
    let ks = slots(s);
    let base = packed_base(s);
    lemma_defragmented(s);
    lemma_defragmented_bytes(s);
    lemma_defragmented_bytes(t);
    assert(num_keys(t) == n);
    assert(free_start(t) == free_start(s));
    assert forall|i: int| 0 <= i < n implies value_of(t, #[trigger] slot(t, i)) == value_of(
        s,
        slot(s, i),
    ) by {
        assert(slots(t)[i] == slot(t, i));
        assert(ks[i] == slot(s, i));
    }
    lemma_packed_same(s, t, n);
    assert(packed_base(t) == base);
    assert(packed_header(t) == packed_header(s));
    assert forall|i: int| 0 <= i < n implies #[trigger] moved_slot(t, base, i) == moved_slot(
        s,
        base,
        i,
    ) by {
        assert forall|j: int| 0 <= j < i implies value_of(t, #[trigger] slot(t, j)) == value_of(
            s,
            slot(s, j),
        ) by {}
        lemma_packed_same(s, t, i);
        lemma_packed_len(s, i);
        assert(slots(t)[i] == slot(t, i));
        assert(ks[i] == slot(s, i));
    }
    assert forall|p: int| 0 <= p < 4096 implies u[p] == t[p] by {
        if p < 14 {
            assert(u[p] == u.subrange(0, 14)[p]);
            assert(t[p] == t.subrange(0, 14)[p]);
        } else if p < free_start(s) {
            let i = (p - 14) / 16;
            assert(0 <= i < n && slot_pos(i) <= p < slot_pos(i) + 16);
            let e = moved_slot(s, base, i).encode();
            assert(moved_slot(t, base, i) == moved_slot(s, base, i));
            assert(u[p] == u.subrange(slot_pos(i), slot_pos(i) + 16)[p - slot_pos(i)]);
            assert(t[p] == t.subrange(slot_pos(i), slot_pos(i) + 16)[p - slot_pos(i)]);
        } else if p < base {
        } else {
            assert(u[p] == u.subrange(base, 4096)[p - base]);
            assert(t[p] == t.subrange(base, 4096)[p - base]);
        }
    }
    assert(u =~= t);
}

} // verus!
