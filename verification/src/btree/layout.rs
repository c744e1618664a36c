//! How the payload region is shared out: the allocation and the free
//! policy on the level of runs of bytes, and why each step keeps the
//! layout of a page in order.

use vstd::prelude::*;
use super::key::Key;
use super::model::{
    blocks_sound, clear_of, disjoint, Extent, extent_of, extents, keys_ascending, layout_ok,
    lemma_total_insert, lemma_total_remove, lemma_total_take, lemma_total_update, regions_disjoint,
    total, values_placed,
};

verus! {

/// Whether the run `e` is free to be given away: it lies inside the page,
/// at or above `fe` unless it is empty, shares no byte with a value or a
/// freeblock, and is not counted as a value, a freeblock or fragmented.
pub open spec fn hole(e: Extent, ks: Seq<Key>, bl: Seq<Extent>, fe: int, frag: int) -> bool {
    &&& 0 <= e.len
    &&& 0 <= e.start
    &&& e.start + e.len <= 4096
    &&& e.len > 0 ==> fe <= e.start
    &&& clear_of(e, ks, bl)
    &&& total(extents(ks)) + total(bl) + frag + e.len <= 4096 - fe
}

/// The count of fragmented bytes after `n` more: it stops at 255.
pub open spec fn frag_add(frag: int, n: int) -> int {
    if frag + n > 255 {
        255
    } else {
        frag + n
    }
}

/// The number of blocks of `bl` that begin before `at`.
pub open spec fn rank(bl: Seq<Extent>, at: int) -> int
    decreases bl.len(),
{
    if bl.len() == 0 {
        0
    } else if bl.last().start < at {
        rank(bl.drop_last(), at) + 1
    } else {
        rank(bl.drop_last(), at)
    }
}

/// The index of the first block of `bl` that holds `v` bytes, or the
/// length of `bl` if none does.
pub open spec fn first_fit(bl: Seq<Extent>, v: int) -> int
    decreases bl.len(),
{
    if bl.len() == 0 {
        0
    } else if bl[0].len >= v {
        0
    } else {
        1 + first_fit(bl.drop_first(), v)
    }
}

/// In a sound chain the blocks before `pos` begin before `at` and the
/// others do not: then `pos` is the rank of `at`.
pub proof fn lemma_rank(bl: Seq<Extent>, at: int, pos: int)
    requires
        0 <= pos <= bl.len(),
        forall|j: int| 0 <= j < pos ==> (#[trigger] bl[j]).start < at,
        forall|j: int| pos <= j < bl.len() ==> at <= (#[trigger] bl[j]).start,
    ensures
        rank(bl, at) == pos,
    decreases bl.len(),
{
    if bl.len() > 0 {
        let rest = bl.drop_last();
        if pos == bl.len() {
            assert(bl.last().start < at);
            assert forall|j: int| 0 <= j < pos - 1 implies (#[trigger] rest[j]).start < at by {
                assert(rest[j] == bl[j]);
            }
            lemma_rank(rest, at, pos - 1);
        } else {
            assert(at <= bl.last().start);
            assert forall|j: int| 0 <= j < pos implies (#[trigger] rest[j]).start < at by {
                assert(rest[j] == bl[j]);
            }
            assert forall|j: int| pos <= j < rest.len() implies at <= (
            #[trigger] rest[j]).start by {
                assert(rest[j] == bl[j]);
            }
            lemma_rank(rest, at, pos);
        }
    }
}

/// The blocks before `pos` are too small for `v` and block `pos` is not,
/// or there is no block `pos`: then `pos` is the first fit.
pub proof fn lemma_first_fit(bl: Seq<Extent>, v: int, pos: int)
    requires
        0 <= pos <= bl.len(),
        forall|j: int| 0 <= j < pos ==> (#[trigger] bl[j]).len < v,
        pos < bl.len() ==> bl[pos].len >= v,
    ensures
        first_fit(bl, v) == pos,
    decreases bl.len(),
{
    if bl.len() > 0 && pos > 0 {
        let rest = bl.drop_first();
        assert(bl[0].len < v);
        assert forall|j: int| 0 <= j < pos - 1 implies (#[trigger] rest[j]).len < v by {
            assert(rest[j] == bl[j + 1]);
        }
        if pos < bl.len() {
            assert(rest[pos - 1] == bl[pos]);
        }
        lemma_first_fit(rest, v, pos - 1);
    }
}

/// Taking a slot out leaves the layout in order and the run of its value
/// as a hole.
pub proof fn lemma_slot_taken(ks: Seq<Key>, bl: Seq<Extent>, fe: int, frag: int, i: int)
    requires
        layout_ok(ks, bl, fe, frag),
        0 <= i < ks.len(),
    ensures
        layout_ok(ks.remove(i), bl, fe, frag),
        hole(extent_of(ks[i]), ks.remove(i), bl, fe, frag),
{
    let ks2 = ks.remove(i);
    let e = extent_of(ks[i]);
    assert forall|j: int| 0 <= j < ks2.len() implies #[trigger] ks2[j] == ks[if j < i {
        j
    } else {
        j + 1
    }] by {}
    assert(extents(ks2) =~= extents(ks).remove(i));
    lemma_total_remove(extents(ks), i);
    assert(keys_ascending(ks2)) by {
        assert forall|a: int, b: int| 0 <= a < b < ks2.len() implies (#[trigger] ks2[a]).key < (
        #[trigger] ks2[b]).key by {
            let a1 = if a < i { a } else { a + 1 };
            let b1 = if b < i { b } else { b + 1 };
            assert(ks[a1].key < ks[b1].key);
        }
    }
    assert(values_placed(ks2, fe)) by {
        assert forall|a: int| 0 <= a < ks2.len() implies {
            &&& (#[trigger] ks2[a]).value_offset + ks2[a].value_len <= 4096
            &&& ks2[a].value_len > 0 ==> fe <= ks2[a].value_offset
        } by {
            let a1 = if a < i { a } else { a + 1 };
            assert(ks[a1].value_offset + ks[a1].value_len <= 4096);
        }
    }
    assert(regions_disjoint(ks2, bl)) by {
        assert forall|a: int, b: int|
            0 <= a < b < ks2.len() && (#[trigger] ks2[a]).value_len > 0 && (
            #[trigger] ks2[b]).value_len > 0 implies disjoint(
            extent_of(ks2[a]),
            extent_of(ks2[b]),
        ) by {
            let a1 = if a < i { a } else { a + 1 };
            let b1 = if b < i { b } else { b + 1 };
            assert(disjoint(extent_of(ks[a1]), extent_of(ks[b1])));
        }
        assert forall|a: int, b: int|
            0 <= a < ks2.len() && 0 <= b < bl.len() && (#[trigger] ks2[a]).value_len
                > 0 implies disjoint(extent_of(ks2[a]), #[trigger] bl[b]) by {
            let a1 = if a < i { a } else { a + 1 };
            assert(disjoint(extent_of(ks[a1]), bl[b]));
        }
    }
    assert(clear_of(e, ks2, bl)) by {
        assert forall|a: int|
            0 <= a < ks2.len() && (#[trigger] ks2[a]).value_len > 0 && e.len > 0 implies disjoint(
            extent_of(ks2[a]),
            e,
        ) by {
            let a1 = if a < i { a } else { a + 1 };
            if a1 < i {
                assert(disjoint(extent_of(ks[a1]), extent_of(ks[i])));
            } else {
                assert(disjoint(extent_of(ks[i]), extent_of(ks[a1])));
            }
        }
        assert forall|b: int| 0 <= b < bl.len() && e.len > 0 implies disjoint(
            #[trigger] bl[b],
            e,
        ) by {
            assert(disjoint(extent_of(ks[i]), bl[b]));
        }
    }
    assert(ks[i].value_offset + ks[i].value_len <= 4096);
}

/// A hole at the start of the payload region can be given back to the
/// unallocated gap.
pub proof fn lemma_release_border(ks: Seq<Key>, bl: Seq<Extent>, fe: int, frag: int, e: Extent)
    requires
        layout_ok(ks, bl, fe, frag),
        hole(e, ks, bl, fe, frag),
        e.start == fe,
    ensures
        layout_ok(ks, bl, fe + e.len, frag),
{
    assert forall|a: int| 0 <= a < ks.len() implies {
        &&& (#[trigger] ks[a]).value_offset + ks[a].value_len <= 4096
        &&& ks[a].value_len > 0 ==> fe + e.len <= ks[a].value_offset
    } by {
        if ks[a].value_len > 0 && e.len > 0 {
            assert(disjoint(extent_of(ks[a]), e));
        }
    }
    assert forall|b: int| 0 <= b < bl.len() implies {
        &&& fe + e.len <= (#[trigger] bl[b]).start
        &&& 4 <= bl[b].len
        &&& bl[b].start + bl[b].len <= 4096
    } by {
        if e.len > 0 {
            assert(disjoint(bl[b], e));
        }
    }
}

/// A hole can be written off as fragmented bytes, in part or whole.
pub proof fn lemma_release_fragment(
    ks: Seq<Key>,
    bl: Seq<Extent>,
    fe: int,
    frag: int,
    e: Extent,
    frag2: int,
)
    requires
        layout_ok(ks, bl, fe, frag),
        hole(e, ks, bl, fe, frag),
        frag <= frag2 <= frag + e.len,
    ensures
        layout_ok(ks, bl, fe, frag2),
{
}

/// A hole of four bytes or more can join the chain at its rank.
pub proof fn lemma_release_block(
    ks: Seq<Key>,
    bl: Seq<Extent>,
    fe: int,
    frag: int,
    e: Extent,
    pos: int,
)
    requires
        layout_ok(ks, bl, fe, frag),
        hole(e, ks, bl, fe, frag),
        4 <= e.len,
        0 <= pos <= bl.len(),
        forall|j: int| 0 <= j < pos ==> (#[trigger] bl[j]).start < e.start,
        forall|j: int| pos <= j < bl.len() ==> e.start <= (#[trigger] bl[j]).start,
    ensures
        layout_ok(ks, bl.insert(pos, e), fe, frag),
{
    let bl2 = bl.insert(pos, e);
    lemma_total_insert(bl, pos, e);
    assert forall|j: int| 0 <= j < bl.len() implies disjoint(#[trigger] bl[j], e) by {}
    assert(blocks_sound(bl2, fe)) by {
        assert forall|i: int| 0 <= i < bl2.len() implies {
            &&& fe <= (#[trigger] bl2[i]).start
            &&& 4 <= bl2[i].len
            &&& bl2[i].start + bl2[i].len <= 4096
        } by {
            if i < pos {
                assert(bl2[i] == bl[i]);
            } else if i > pos {
                assert(bl2[i] == bl[i - 1]);
            }
        }
        assert forall|i: int, j: int| 0 <= i < j < bl2.len() implies (#[trigger] bl2[i]).start
            + bl2[i].len <= (#[trigger] bl2[j]).start by {
            if j < pos {
                assert(bl2[i] == bl[i] && bl2[j] == bl[j]);
            } else if j == pos {
                assert(bl2[i] == bl[i]);
                assert(disjoint(bl[i], e));
            } else if i < pos {
                assert(bl2[i] == bl[i] && bl2[j] == bl[j - 1]);
            } else if i == pos {
                assert(bl2[j] == bl[j - 1]);
                assert(disjoint(bl[j - 1], e));
            } else {
                assert(bl2[i] == bl[i - 1] && bl2[j] == bl[j - 1]);
            }
        }
    }
    assert(regions_disjoint(ks, bl2)) by {
        assert forall|a: int, b: int|
            0 <= a < ks.len() && 0 <= b < bl2.len() && (#[trigger] ks[a]).value_len
                > 0 implies disjoint(extent_of(ks[a]), #[trigger] bl2[b]) by {
            if b < pos {
                assert(bl2[b] == bl[b]);
            } else if b > pos {
                assert(bl2[b] == bl[b - 1]);
            } else {
                assert(disjoint(extent_of(ks[a]), e));
            }
        }
    }
}

/// A slot without a value can go in where its key belongs.
pub proof fn lemma_slot_put(ks: Seq<Key>, bl: Seq<Extent>, fe: int, frag: int, idx: int, k: Key)
    requires
        layout_ok(ks, bl, fe, frag),
        0 <= idx <= ks.len(),
        k.value_len == 0,
        k.value_offset <= 4096,
        forall|i: int| 0 <= i < idx ==> (#[trigger] ks[i]).key < k.key,
        forall|i: int| idx <= i < ks.len() ==> k.key < (#[trigger] ks[i]).key,
    ensures
        layout_ok(ks.insert(idx, k), bl, fe, frag),
{
    let ks2 = ks.insert(idx, k);
    assert(extents(ks2) =~= extents(ks).insert(idx, extent_of(k)));
    lemma_total_insert(extents(ks), idx, extent_of(k));
    assert forall|j: int| 0 <= j < ks2.len() && j != idx implies #[trigger] ks2[j] == ks[if j
        < idx {
        j
    } else {
        j - 1
    }] by {}
    assert(keys_ascending(ks2)) by {
        assert forall|a: int, b: int| 0 <= a < b < ks2.len() implies (#[trigger] ks2[a]).key < (
        #[trigger] ks2[b]).key by {
            let a1 = if a < idx { a } else { a - 1 };
            let b1 = if b < idx { b } else { b - 1 };
            if a == idx {
                assert(k.key < ks[b1].key);
            } else if b == idx {
                assert(ks[a1].key < k.key);
            } else {
                assert(ks[a1].key < ks[b1].key);
            }
        }
    }
    assert(values_placed(ks2, fe)) by {
        assert forall|a: int| 0 <= a < ks2.len() implies {
            &&& (#[trigger] ks2[a]).value_offset + ks2[a].value_len <= 4096
            &&& ks2[a].value_len > 0 ==> fe <= ks2[a].value_offset
        } by {
            if a != idx {
                let a1 = if a < idx { a } else { a - 1 };
                assert(ks[a1].value_offset + ks[a1].value_len <= 4096);
            }
        }
    }
    assert(regions_disjoint(ks2, bl)) by {
        assert forall|a: int, b: int|
            0 <= a < b < ks2.len() && (#[trigger] ks2[a]).value_len > 0 && (
            #[trigger] ks2[b]).value_len > 0 implies disjoint(
            extent_of(ks2[a]),
            extent_of(ks2[b]),
        ) by {
            let a1 = if a < idx { a } else { a - 1 };
            let b1 = if b < idx { b } else { b - 1 };
            assert(disjoint(extent_of(ks[a1]), extent_of(ks[b1])));
        }
        assert forall|a: int, b: int|
            0 <= a < ks2.len() && 0 <= b < bl.len() && (#[trigger] ks2[a]).value_len
                > 0 implies disjoint(extent_of(ks2[a]), #[trigger] bl[b]) by {
            let a1 = if a < idx { a } else { a - 1 };
            assert(disjoint(extent_of(ks[a1]), bl[b]));
        }
    }
}

/// A slot without a value can take a hole as its value.
pub proof fn lemma_slot_filled(
    ks: Seq<Key>,
    bl: Seq<Extent>,
    fe: int,
    frag: int,
    idx: int,
    k: Key,
)
    requires
        layout_ok(ks, bl, fe, frag),
        0 <= idx < ks.len(),
        ks[idx].value_len == 0,
        k.key == ks[idx].key,
        hole(extent_of(k), ks, bl, fe, frag),
    ensures
        layout_ok(ks.update(idx, k), bl, fe, frag),
{
    let ks2 = ks.update(idx, k);
    let e = extent_of(k);
    assert(extents(ks2) =~= extents(ks).update(idx, e));
    lemma_total_update(extents(ks), idx, e);
    assert(keys_ascending(ks2)) by {
        assert forall|a: int, b: int| 0 <= a < b < ks2.len() implies (#[trigger] ks2[a]).key < (
        #[trigger] ks2[b]).key by {
            assert(ks[a].key < ks[b].key);
        }
    }
    assert(values_placed(ks2, fe)) by {
        assert forall|a: int| 0 <= a < ks2.len() implies {
            &&& (#[trigger] ks2[a]).value_offset + ks2[a].value_len <= 4096
            &&& ks2[a].value_len > 0 ==> fe <= ks2[a].value_offset
        } by {
            if a != idx {
                assert(ks[a].value_offset + ks[a].value_len <= 4096);
            }
        }
    }
    assert(regions_disjoint(ks2, bl)) by {
        assert forall|a: int, b: int|
            0 <= a < b < ks2.len() && (#[trigger] ks2[a]).value_len > 0 && (
            #[trigger] ks2[b]).value_len > 0 implies disjoint(
            extent_of(ks2[a]),
            extent_of(ks2[b]),
        ) by {
            if a == idx {
                assert(disjoint(extent_of(ks[b]), e));
            } else if b == idx {
                assert(disjoint(extent_of(ks[a]), e));
            } else {
                assert(disjoint(extent_of(ks[a]), extent_of(ks[b])));
            }
        }
        assert forall|a: int, b: int|
            0 <= a < ks2.len() && 0 <= b < bl.len() && (#[trigger] ks2[a]).value_len
                > 0 implies disjoint(extent_of(ks2[a]), #[trigger] bl[b]) by {
            if a == idx {
                assert(disjoint(bl[b], e));
            } else {
                assert(disjoint(extent_of(ks[a]), bl[b]));
            }
        }
    }
}

/// Taking the value from a slot leaves the layout in order and the run of
/// the value as a hole.
pub proof fn lemma_slot_emptied(
    ks: Seq<Key>,
    bl: Seq<Extent>,
    fe: int,
    frag: int,
    idx: int,
    k: Key,
)
    requires
        layout_ok(ks, bl, fe, frag),
        0 <= idx < ks.len(),
        k.key == ks[idx].key,
        k.value_len == 0,
        k.value_offset <= 4096,
    ensures
        layout_ok(ks.update(idx, k), bl, fe, frag),
        hole(extent_of(ks[idx]), ks.update(idx, k), bl, fe, frag),
{
    let ks2 = ks.update(idx, k);
    let e = extent_of(ks[idx]);
    assert(extents(ks2) =~= extents(ks).update(idx, extent_of(k)));
    lemma_total_update(extents(ks), idx, extent_of(k));
    assert(keys_ascending(ks2)) by {
        assert forall|a: int, b: int| 0 <= a < b < ks2.len() implies (#[trigger] ks2[a]).key < (
        #[trigger] ks2[b]).key by {
            assert(ks[a].key < ks[b].key);
        }
    }
    assert(values_placed(ks2, fe)) by {
        assert forall|a: int| 0 <= a < ks2.len() implies {
            &&& (#[trigger] ks2[a]).value_offset + ks2[a].value_len <= 4096
            &&& ks2[a].value_len > 0 ==> fe <= ks2[a].value_offset
        } by {
            if a != idx {
                assert(ks[a].value_offset + ks[a].value_len <= 4096);
            }
        }
    }
    assert(regions_disjoint(ks2, bl)) by {
        assert forall|a: int, b: int|
            0 <= a < b < ks2.len() && (#[trigger] ks2[a]).value_len > 0 && (
            #[trigger] ks2[b]).value_len > 0 implies disjoint(
            extent_of(ks2[a]),
            extent_of(ks2[b]),
        ) by {
            assert(disjoint(extent_of(ks[a]), extent_of(ks[b])));
        }
        assert forall|a: int, b: int|
            0 <= a < ks2.len() && 0 <= b < bl.len() && (#[trigger] ks2[a]).value_len
                > 0 implies disjoint(extent_of(ks2[a]), #[trigger] bl[b]) by {
            assert(disjoint(extent_of(ks[a]), bl[b]));
        }
    }
    assert(clear_of(e, ks2, bl)) by {
        assert forall|a: int|
            0 <= a < ks2.len() && (#[trigger] ks2[a]).value_len > 0 && e.len > 0 implies disjoint(
            extent_of(ks2[a]),
            e,
        ) by {
            if a < idx {
                assert(disjoint(extent_of(ks[a]), extent_of(ks[idx])));
            } else {
                assert(disjoint(extent_of(ks[idx]), extent_of(ks[a])));
            }
        }
        assert forall|b: int| 0 <= b < bl.len() && e.len > 0 implies disjoint(
            #[trigger] bl[b],
            e,
        ) by {
            assert(disjoint(extent_of(ks[idx]), bl[b]));
        }
    }
    assert(ks[idx].value_offset + ks[idx].value_len <= 4096);
}

/// The top of the unallocated gap can be taken as a hole.
pub proof fn lemma_reserve_gap(ks: Seq<Key>, bl: Seq<Extent>, fe: int, frag: int, v: int)
    requires
        layout_ok(ks, bl, fe, frag),
        0 <= v <= fe,
        fe <= 4096,
    ensures
        layout_ok(ks, bl, fe - v, frag),
        hole(Extent { start: fe - v, len: v }, ks, bl, fe - v, frag),
{
    let e = Extent { start: fe - v, len: v };
    assert forall|a: int| 0 <= a < ks.len() implies {
        &&& (#[trigger] ks[a]).value_offset + ks[a].value_len <= 4096
        &&& ks[a].value_len > 0 ==> fe - v <= ks[a].value_offset
    } by {}
    assert forall|b: int| 0 <= b < bl.len() implies {
        &&& fe - v <= (#[trigger] bl[b]).start
        &&& 4 <= bl[b].len
        &&& bl[b].start + bl[b].len <= 4096
    } by {}
    assert(clear_of(e, ks, bl)) by {
        assert forall|a: int|
            0 <= a < ks.len() && (#[trigger] ks[a]).value_len > 0 && e.len > 0 implies disjoint(
            extent_of(ks[a]),
            e,
        ) by {}
        assert forall|b: int| 0 <= b < bl.len() && e.len > 0 implies disjoint(
            #[trigger] bl[b],
            e,
        ) by {}
    }
}

/// A block can leave the chain: its first `v` bytes become a hole, the
/// rest may be counted as fragmented.
pub proof fn lemma_reserve_whole(
    ks: Seq<Key>,
    bl: Seq<Extent>,
    fe: int,
    frag: int,
    j: int,
    v: int,
    frag2: int,
)
    requires
        layout_ok(ks, bl, fe, frag),
        0 <= j < bl.len(),
        0 <= v <= bl[j].len,
        frag <= frag2 <= frag + (bl[j].len - v),
    ensures
        layout_ok(ks, bl.remove(j), fe, frag2),
        hole(Extent { start: bl[j].start, len: v }, ks, bl.remove(j), fe, frag2),
{
    let bl2 = bl.remove(j);
    let e = Extent { start: bl[j].start, len: v };
    lemma_total_remove(bl, j);
    assert forall|i: int| 0 <= i < bl2.len() implies #[trigger] bl2[i] == bl[if i < j {
        i
    } else {
        i + 1
    }] by {}
    assert(blocks_sound(bl2, fe)) by {
        assert forall|i: int| 0 <= i < bl2.len() implies {
            &&& fe <= (#[trigger] bl2[i]).start
            &&& 4 <= bl2[i].len
            &&& bl2[i].start + bl2[i].len <= 4096
        } by {
            let i1 = if i < j { i } else { i + 1 };
            assert(4 <= bl[i1].len);
        }
        assert forall|a: int, b: int| 0 <= a < b < bl2.len() implies (#[trigger] bl2[a]).start
            + bl2[a].len <= (#[trigger] bl2[b]).start by {
            let a1 = if a < j { a } else { a + 1 };
            let b1 = if b < j { b } else { b + 1 };
            assert(bl[a1].start + bl[a1].len <= bl[b1].start);
        }
    }
    assert(regions_disjoint(ks, bl2)) by {
        assert forall|a: int, b: int|
            0 <= a < ks.len() && 0 <= b < bl2.len() && (#[trigger] ks[a]).value_len
                > 0 implies disjoint(extent_of(ks[a]), #[trigger] bl2[b]) by {
            let b1 = if b < j { b } else { b + 1 };
            assert(disjoint(extent_of(ks[a]), bl[b1]));
        }
    }
    assert(4 <= bl[j].len);
    assert(clear_of(e, ks, bl2)) by {
        assert forall|a: int|
            0 <= a < ks.len() && (#[trigger] ks[a]).value_len > 0 && e.len > 0 implies disjoint(
            extent_of(ks[a]),
            e,
        ) by {
            assert(disjoint(extent_of(ks[a]), bl[j]));
        }
        assert forall|b: int| 0 <= b < bl2.len() && e.len > 0 implies disjoint(
            #[trigger] bl2[b],
            e,
        ) by {
            let b1 = if b < j { b } else { b + 1 };
            if b1 < j {
                assert(bl[b1].start + bl[b1].len <= bl[j].start);
            } else {
                assert(bl[j].start + bl[j].len <= bl[b1].start);
            }
        }
    }
}

/// A block can give away its first `v` bytes as a hole if four or more
/// are left for it.
pub proof fn lemma_reserve_split(
    ks: Seq<Key>,
    bl: Seq<Extent>,
    fe: int,
    frag: int,
    j: int,
    v: int,
)
    requires
        layout_ok(ks, bl, fe, frag),
        0 <= j < bl.len(),
        0 <= v,
        4 <= bl[j].len - v,
    ensures
        layout_ok(
            ks,
            bl.update(j, Extent { start: bl[j].start + v, len: bl[j].len - v }),
            fe,
            frag,
        ),
        hole(
            Extent { start: bl[j].start, len: v },
            ks,
            bl.update(j, Extent { start: bl[j].start + v, len: bl[j].len - v }),
            fe,
            frag,
        ),
{
    let r = Extent { start: bl[j].start + v, len: bl[j].len - v };
    let bl2 = bl.update(j, r);
    let e = Extent { start: bl[j].start, len: v };
    lemma_total_update(bl, j, r);
    assert(blocks_sound(bl2, fe)) by {
        assert forall|i: int| 0 <= i < bl2.len() implies {
            &&& fe <= (#[trigger] bl2[i]).start
            &&& 4 <= bl2[i].len
            &&& bl2[i].start + bl2[i].len <= 4096
        } by {
            assert(4 <= bl[i].len);
        }
        assert forall|a: int, b: int| 0 <= a < b < bl2.len() implies (#[trigger] bl2[a]).start
            + bl2[a].len <= (#[trigger] bl2[b]).start by {
            assert(bl[a].start + bl[a].len <= bl[b].start);
        }
    }
    assert(regions_disjoint(ks, bl2)) by {
        assert forall|a: int, b: int|
            0 <= a < ks.len() && 0 <= b < bl2.len() && (#[trigger] ks[a]).value_len
                > 0 implies disjoint(extent_of(ks[a]), #[trigger] bl2[b]) by {
            assert(disjoint(extent_of(ks[a]), bl[b]));
        }
    }
    assert(4 <= bl[j].len && fe <= bl[j].start && bl[j].start + bl[j].len <= 4096);
    assert(clear_of(e, ks, bl2)) by {
        assert forall|a: int|
            0 <= a < ks.len() && (#[trigger] ks[a]).value_len > 0 && e.len > 0 implies disjoint(
            extent_of(ks[a]),
            e,
        ) by {
            assert(disjoint(extent_of(ks[a]), bl[j]));
        }
        assert forall|b: int| 0 <= b < bl2.len() && e.len > 0 implies disjoint(
            #[trigger] bl2[b],
            e,
        ) by {
            if b < j {
                assert(bl[b].start + bl[b].len <= bl[j].start);
            } else if b > j {
                assert(bl[j].start + bl[j].len <= bl[b].start);
            }
        }
    }
}

/// Runs of the same lengths have the same sum.
pub proof fn lemma_total_same_lens(a: Seq<Extent>, b: Seq<Extent>)
    requires
        a.len() == b.len(),
        forall|i: int| 0 <= i < a.len() ==> (#[trigger] a[i]).len == b[i].len,
    ensures
        total(a) == total(b),
    decreases a.len(),
{
    if a.len() > 0 {
        assert forall|i: int| 0 <= i < a.drop_last().len() implies (#[trigger] a.drop_last()[i]).len
            == b.drop_last()[i].len by {
            assert(a.drop_last()[i] == a[i]);
            assert(b.drop_last()[i] == b[i]);
        }
        lemma_total_same_lens(a.drop_last(), b.drop_last());
        assert(a.last().len == a[a.len() - 1].len);
    }
}

/// The sum of a shorter prefix is no more than that of a longer one.
pub proof fn lemma_total_prefixes(r: Seq<Extent>, a: int, b: int)
    requires
        0 <= a <= b <= r.len(),
        forall|j: int| 0 <= j < r.len() ==> 0 <= (#[trigger] r[j]).len,
    ensures
        0 <= total(r.take(a)) <= total(r.take(b)) <= total(r),
{
    let rb = r.take(b);
    assert forall|j: int| 0 <= j < rb.len() implies 0 <= (#[trigger] rb[j]).len by {
        assert(rb[j] == r[j]);
    }
    lemma_total_take(rb, a);
    assert(rb.take(a) =~= r.take(a));
    lemma_total_take(r, b);
}

/// The slots of `ks` with their values packed against the end of the
/// page, in slot order.
pub open spec fn packed_slots(ks: Seq<Key>) -> Seq<Key> {
    Seq::new(
        ks.len(),
        |i: int|
            Key {
                value_offset: (4096 - total(extents(ks)) + total(extents(ks).take(i))) as u16,
                ..ks[i]
            },
    )
}

/// Packed against the end of the page, the values leave no freeblock and
/// no fragmented byte behind.
pub proof fn lemma_packed(ks: Seq<Key>, bl: Seq<Extent>, fe: int, frag: int)
    requires
        layout_ok(ks, bl, fe, frag),
    ensures
        fe <= 4096 - total(extents(ks)) <= 4096,
        layout_ok(packed_slots(ks), Seq::empty(), 4096 - total(extents(ks)), 0),
        forall|i: int|
            0 <= i < ks.len() ==> (#[trigger] packed_slots(ks)[i]).value_offset == 4096 - total(
                extents(ks),
            ) + total(extents(ks).take(i)),
{
    let ex = extents(ks);
    let ks2 = packed_slots(ks);
    let ex2 = extents(ks2);
    let base = 4096 - total(ex);
    let none = Seq::<Extent>::empty();
    assert forall|j: int| 0 <= j < ex.len() implies 0 <= (#[trigger] ex[j]).len by {}
    assert forall|j: int| 0 <= j < bl.len() implies 0 <= (#[trigger] bl[j]).len by {}
    lemma_total_prefixes(ex, 0, ex.len() as int);
    lemma_total_prefixes(bl, 0, bl.len() as int);
    assert(bl.take(bl.len() as int) =~= bl);
    assert forall|i: int| 0 <= i < ks.len() implies (#[trigger] ks2[i]).value_offset == base
        + total(ex.take(i)) && ks2[i].value_len == ks[i].value_len && ks2[i].key == ks[i].key
        && ks2[i].value_offset + ks2[i].value_len == base + total(ex.take(i + 1)) by {
        lemma_total_prefixes(ex, i, i + 1);
        lemma_total_take(ex, i);
    }
    assert forall|i: int| 0 <= i < ex.len() implies (#[trigger] ex2[i]).len == ex[i].len by {
        assert(ks2[i].value_len == ks[i].value_len);
    }
    lemma_total_same_lens(ex2, ex);
    assert(keys_ascending(ks2)) by {
        assert forall|a: int, b: int| 0 <= a < b < ks2.len() implies (#[trigger] ks2[a]).key < (
        #[trigger] ks2[b]).key by {
            assert(ks[a].key < ks[b].key);
        }
    }
    assert(values_placed(ks2, base)) by {
        assert forall|a: int| 0 <= a < ks2.len() implies {
            &&& (#[trigger] ks2[a]).value_offset + ks2[a].value_len <= 4096
            &&& ks2[a].value_len > 0 ==> base <= ks2[a].value_offset
        } by {
            lemma_total_prefixes(ex, a, a + 1);
        }
    }
    assert(regions_disjoint(ks2, none)) by {
        assert forall|a: int, b: int|
            0 <= a < b < ks2.len() && (#[trigger] ks2[a]).value_len > 0 && (
            #[trigger] ks2[b]).value_len > 0 implies disjoint(
            extent_of(ks2[a]),
            extent_of(ks2[b]),
        ) by {
            lemma_total_prefixes(ex, a + 1, b);
        }
    }
    assert(total(none) == 0);
}

} // verus!
