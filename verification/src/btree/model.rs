//! What the bytes of a page mean: the header fields, the slot array, the
//! freeblock chain, the stored map, and when a page is well formed.

use vstd::prelude::*;
use super::endian::u16_at;
use super::header::Header;
use super::key::Key;

verus! {

/// A run of `len` bytes of the page that begins at `start`.
pub struct Extent {
    pub start: int,
    pub len: int,
}

/// Whether two runs share no byte.
pub open spec fn disjoint(a: Extent, b: Extent) -> bool {
    a.start + a.len <= b.start || b.start + b.len <= a.start
}

/// The sum of the lengths of the runs in `r`.
pub open spec fn total(r: Seq<Extent>) -> int
    decreases r.len(),
{
    if r.len() == 0 {
        0
    } else {
        total(r.drop_last()) + r.last().len
    }
}

/// The number of slots that the header of `s` counts.
pub open spec fn num_keys(s: Seq<u8>) -> int {
    u16_at(s, 1)
}

/// Where, by the header of `s`, the unallocated gap begins.
pub open spec fn free_start(s: Seq<u8>) -> int {
    u16_at(s, 3)
}

/// Where, by the header of `s`, the payload region begins.
pub open spec fn free_end(s: Seq<u8>) -> int {
    u16_at(s, 5)
}

/// Where, by the header of `s`, the first freeblock lies, `0` for none.
pub open spec fn first_freeblock(s: Seq<u8>) -> int {
    u16_at(s, 7)
}

/// The number of fragmented bytes that the header of `s` counts.
pub open spec fn fragmented(s: Seq<u8>) -> int {
    s[9] as int
}

/// Where slot `i` begins.
pub open spec fn slot_pos(i: int) -> int {
    14 + 16 * i
}

/// Slot `i` of the page.
pub open spec fn slot(s: Seq<u8>, i: int) -> Key {
    Key::decode_at(s, slot_pos(i))
}

/// The slot array.
pub open spec fn slots(s: Seq<u8>) -> Seq<Key> {
    Seq::new(num_keys(s) as nat, |i: int| slot(s, i))
}

/// The bytes of a slot's value.
pub open spec fn value_of(s: Seq<u8>, k: Key) -> Seq<u8> {
    s.subrange(k.value_offset as int, k.value_offset + k.value_len)
}

/// The run of bytes that a slot's value takes.
pub open spec fn extent_of(k: Key) -> Extent {
    Extent { start: k.value_offset as int, len: k.value_len as int }
}

/// The runs of the values of `ks`, in slot order.
pub open spec fn extents(ks: Seq<Key>) -> Seq<Extent> {
    Seq::new(ks.len(), |i: int| extent_of(ks[i]))
}

/// The freeblocks met from offset `at` on by following the links for as
/// long as they lead upward.
pub open spec fn chain_from(s: Seq<u8>, at: int) -> Seq<Extent>
    decreases 65536 - at,
{
    if 0 < at && at + 4 <= 4096 {
        let rest = if at < u16_at(s, at) {
            chain_from(s, u16_at(s, at))
        } else {
            Seq::empty()
        };
        seq![Extent { start: at, len: u16_at(s, at + 2) }] + rest
    } else {
        Seq::empty()
    }
}

/// The freeblock chain of the page.
pub open spec fn blocks(s: Seq<u8>) -> Seq<Extent> {
    chain_from(s, first_freeblock(s))
}

/// Whether the blocks of `bl` lie in `[floor, 4096)`, each covers at least
/// its descriptor, and each ends before the later ones begin.
pub open spec fn blocks_sound(bl: Seq<Extent>, floor: int) -> bool {
    &&& forall|i: int|
        0 <= i < bl.len() ==> {
            &&& floor <= (#[trigger] bl[i]).start
            &&& 4 <= bl[i].len
            &&& bl[i].start + bl[i].len <= 4096
        }
    &&& forall|i: int, j: int|
        0 <= i < j < bl.len() ==> (#[trigger] bl[i]).start + bl[i].len <= (#[trigger] bl[j]).start
}

/// Whether the bytes of `s` chain the blocks of `bl` from `head` on: each
/// descriptor holds the size of its block and the offset of the next
/// block, the last one `0`.
pub open spec fn links_ok(s: Seq<u8>, head: int, bl: Seq<Extent>) -> bool {
    &&& head == if bl.len() == 0 {
        0
    } else {
        bl[0].start
    }
    &&& forall|i: int| 0 <= i < bl.len() ==> u16_at(s, (#[trigger] bl[i]).start + 2) == bl[i].len
    &&& forall|i: int, j: int|
        0 <= i && j == i + 1 && j < bl.len() ==> u16_at(s, (#[trigger] bl[i]).start) == (
        #[trigger] bl[j]).start
    &&& bl.len() > 0 ==> u16_at(s, bl[bl.len() - 1].start) == 0
}

/// Whether `bl` is a sound chain in `s` that begins at `head` and lies in
/// `[floor, 4096)`.
pub open spec fn is_chain(s: Seq<u8>, head: int, floor: int, bl: Seq<Extent>) -> bool {
    blocks_sound(bl, floor) && links_ok(s, head, bl)
}

/// The page is one page long, its first byte names a node type, the slot
/// array ends at `free_start`, and the unallocated gap is in order.
pub open spec fn geometry_ok(s: Seq<u8>) -> bool {
    &&& s.len() == 4096
    &&& Header::valid_tag(s)
    &&& free_start(s) == 14 + 16 * num_keys(s)
    &&& 14 <= free_start(s) <= free_end(s) <= 4096
}

/// The keys ascend strictly.
pub open spec fn keys_ascending(ks: Seq<Key>) -> bool {
    forall|i: int, j: int| 0 <= i < j < ks.len() ==> (#[trigger] ks[i]).key < (#[trigger] ks[j]).key
}

/// Every value lies inside the page, and at or above `fe` unless it is empty.
pub open spec fn values_placed(ks: Seq<Key>, fe: int) -> bool {
    forall|i: int|
        0 <= i < ks.len() ==> {
            &&& (#[trigger] ks[i]).value_offset + ks[i].value_len <= 4096
            &&& ks[i].value_len > 0 ==> fe <= ks[i].value_offset
        }
}

/// Whether the run `e` shares no byte with any value of `ks` nor with any
/// block of `bl`. An empty run or value shares none.
pub open spec fn clear_of(e: Extent, ks: Seq<Key>, bl: Seq<Extent>) -> bool {
    &&& forall|i: int|
        0 <= i < ks.len() && (#[trigger] ks[i]).value_len > 0 && e.len > 0 ==> disjoint(
            extent_of(ks[i]),
            e,
        )
    &&& forall|j: int| 0 <= j < bl.len() && e.len > 0 ==> disjoint(#[trigger] bl[j], e)
}

/// No two values share a byte, and no value shares one with a freeblock.
pub open spec fn regions_disjoint(ks: Seq<Key>, bl: Seq<Extent>) -> bool {
    &&& forall|i: int, j: int|
        0 <= i < j < ks.len() && (#[trigger] ks[i]).value_len > 0 && (#[trigger] ks[j]).value_len
            > 0 ==> disjoint(extent_of(ks[i]), extent_of(ks[j]))
    &&& forall|i: int, j: int|
        0 <= i < ks.len() && 0 <= j < bl.len() && (#[trigger] ks[i]).value_len > 0 ==> disjoint(
            extent_of(ks[i]),
            #[trigger] bl[j],
        )
}

/// Values, freeblocks and fragmented bytes together fit in `[fe, 4096)`.
pub open spec fn space_accounted(ks: Seq<Key>, bl: Seq<Extent>, fe: int, frag: int) -> bool {
    total(extents(ks)) + total(bl) + frag <= 4096 - fe
}

/// What holds of the slots `ks`, the freeblocks `bl`, the start `fe` of
/// the payload region and the count `frag` of fragmented bytes of a well
/// formed page.
pub open spec fn layout_ok(ks: Seq<Key>, bl: Seq<Extent>, fe: int, frag: int) -> bool {
    &&& 0 <= frag
    &&& 0 <= fe <= 4096
    &&& keys_ascending(ks)
    &&& values_placed(ks, fe)
    &&& blocks_sound(bl, fe)
    &&& regions_disjoint(ks, bl)
    &&& space_accounted(ks, bl, fe, frag)
}

/// Everything that holds of a page between operations.
pub open spec fn well_formed(s: Seq<u8>) -> bool {
    &&& geometry_ok(s)
    &&& layout_ok(slots(s), blocks(s), free_end(s), fragmented(s))
    &&& links_ok(s, first_freeblock(s), blocks(s))
}

/// The bytes between the slot array and the payload region.
pub open spec fn unallocated(s: Seq<u8>) -> int {
    free_end(s) - free_start(s)
}

/// The space that can be reclaimed: the unallocated gap, the freeblocks
/// and the fragmented bytes.
pub open spec fn free_space(s: Seq<u8>) -> int {
    (free_end(s) - free_start(s)) + total(blocks(s)) + fragmented(s)
}

/// Whether some slot holds `key`.
pub open spec fn has_key(s: Seq<u8>, key: u64) -> bool {
    exists|i: int| 0 <= i < num_keys(s) && (#[trigger] slots(s)[i]).key == key
}

/// A slot that holds `key`, if there is one.
pub open spec fn index_of(s: Seq<u8>, key: u64) -> int {
    choose|i: int| 0 <= i < num_keys(s) && (#[trigger] slots(s)[i]).key == key
}

/// The map that the page stores: each slot's key with the bytes of its value.
pub open spec fn entries(s: Seq<u8>) -> Map<u64, Seq<u8>> {
    Map::new(|k: u64| has_key(s, k), |k: u64| value_of(s, slots(s)[index_of(s, k)]))
}

/// One more run adds its length to the sum.
pub proof fn lemma_total_push(r: Seq<Extent>, e: Extent)
    ensures
        total(r.push(e)) == total(r) + e.len,
{
    assert(r.push(e).drop_last() =~= r);
}

/// The sum of runs put together is the sum of the sums.
pub proof fn lemma_total_concat(a: Seq<Extent>, b: Seq<Extent>)
    ensures
        total(a + b) == total(a) + total(b),
    decreases b.len(),
{
    if b.len() == 0 {
        assert(a + b =~= a);
    } else {
        lemma_total_concat(a, b.drop_last());
        assert((a + b).drop_last() =~= a + b.drop_last());
    }
}

/// A run put in anywhere adds its length to the sum.
pub proof fn lemma_total_insert(r: Seq<Extent>, i: int, e: Extent)
    requires
        0 <= i <= r.len(),
    ensures
        total(r.insert(i, e)) == total(r) + e.len,
{
    assert(r =~= r.take(i) + r.skip(i));
    assert(r.insert(i, e) =~= r.take(i).push(e) + r.skip(i));
    lemma_total_concat(r.take(i), r.skip(i));
    lemma_total_concat(r.take(i).push(e), r.skip(i));
    lemma_total_push(r.take(i), e);
}

/// A run taken out takes its length from the sum.
pub proof fn lemma_total_remove(r: Seq<Extent>, i: int)
    requires
        0 <= i < r.len(),
    ensures
        total(r.remove(i)) == total(r) - r[i].len,
{
    assert(r =~= r.take(i).push(r[i]) + r.skip(i + 1));
    assert(r.remove(i) =~= r.take(i) + r.skip(i + 1));
    lemma_total_concat(r.take(i), r.skip(i + 1));
    lemma_total_concat(r.take(i).push(r[i]), r.skip(i + 1));
    lemma_total_push(r.take(i), r[i]);
}

/// A run put in the place of another changes the sum by the difference of
/// their lengths.
pub proof fn lemma_total_update(r: Seq<Extent>, i: int, e: Extent)
    requires
        0 <= i < r.len(),
    ensures
        total(r.update(i, e)) == total(r) - r[i].len + e.len,
{
    assert(r =~= r.take(i).push(r[i]) + r.skip(i + 1));
    assert(r.update(i, e) =~= r.take(i).push(e) + r.skip(i + 1));
    lemma_total_concat(r.take(i).push(e), r.skip(i + 1));
    lemma_total_concat(r.take(i).push(r[i]), r.skip(i + 1));
    lemma_total_push(r.take(i), r[i]);
    lemma_total_push(r.take(i), e);
}

/// Runs of no negative length have no negative sum, and a prefix sums to no
/// more than the whole.
pub proof fn lemma_total_take(r: Seq<Extent>, i: int)
    requires
        0 <= i <= r.len(),
        forall|j: int| 0 <= j < r.len() ==> 0 <= (#[trigger] r[j]).len,
    ensures
        0 <= total(r.take(i)) <= total(r),
        i < r.len() ==> total(r.take(i + 1)) == total(r.take(i)) + r[i].len,
    decreases r.len(),
{
    if r.len() == 0 {
        assert(r.take(i) =~= r);
    } else if i == r.len() {
        assert(r.take(i) =~= r);
        lemma_total_take(r.drop_last(), i - 1);
        assert(r.drop_last().take(i - 1) =~= r.take(i - 1));
    } else {
        lemma_total_take(r.drop_last(), i);
        assert(r.drop_last().take(i) =~= r.take(i));
        if i + 1 < r.len() {
            assert(r.drop_last().take(i + 1) =~= r.take(i + 1));
        } else {
            assert(r.take(i + 1) =~= r);
            assert(r.drop_last() =~= r.take(i));
        }
    }
}

/// A sound chain is the chain that the links lead through.
pub proof fn lemma_chain_unique(s: Seq<u8>, head: int, floor: int, bl: Seq<Extent>)
    requires
        0 < floor,
        is_chain(s, head, floor, bl),
    ensures
        chain_from(s, head) == bl,
    decreases bl.len(),
{
    if bl.len() == 0 {
        assert(chain_from(s, head) =~= bl);
    } else {
        let rest = bl.drop_first();
        let next = u16_at(s, head);
        assert(bl[0].start == head);
        assert forall|i: int| 0 <= i < rest.len() implies {
            &&& floor <= (#[trigger] rest[i]).start
            &&& 4 <= rest[i].len
            &&& rest[i].start + rest[i].len <= 4096
            &&& u16_at(s, rest[i].start + 2) == rest[i].len
        } by {
            assert(rest[i] == bl[i + 1]);
        }
        assert forall|i: int, j: int| 0 <= i < j < rest.len() implies (#[trigger] rest[i]).start
            + rest[i].len <= (#[trigger] rest[j]).start by {
            assert(rest[i] == bl[i + 1]);
            assert(rest[j] == bl[j + 1]);
        }
        assert forall|i: int, j: int| 0 <= i && j == i + 1 && j < rest.len() implies u16_at(
            s,
            (#[trigger] rest[i]).start,
        ) == (#[trigger] rest[j]).start by {
            assert(rest[i] == bl[i + 1]);
            assert(rest[j] == bl[j + 1]);
        }
        if bl.len() > 1 {
            assert(rest[0] == bl[1]);
            assert(next == bl[1].start);
            assert(rest[rest.len() - 1] == bl[bl.len() - 1]);
        }
        assert(is_chain(s, next, floor, rest));
        lemma_chain_unique(s, next, floor, rest);
        assert(bl =~= seq![bl[0]] + rest);
        if bl.len() > 1 {
            assert(head < next);
        } else {
            assert(next == 0);
            assert(rest =~= Seq::<Extent>::empty());
        }
    }
}

} // verus!
