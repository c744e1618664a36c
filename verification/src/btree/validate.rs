//! Telling whether the bytes of a page form a well formed page.

use vstd::prelude::*;
use super::{Node, PAGE_SIZE};
use super::endian::u16_at;
use super::key::Key;
use super::model::{
    blocks, blocks_sound, disjoint, Extent, extent_of, extents, first_freeblock, free_end,
    free_start, is_chain, keys_ascending, lemma_chain_unique, lemma_total_push, links_ok, num_keys,
    slot, slots, total, values_placed,
};
use super::space::lemma_wf_from;

verus! {

/// The runs that the pairs of offset and size stand for.
pub open spec fn runs(v: Seq<(u16, u16)>) -> Seq<Extent> {
    Seq::new(v.len(), |i: int| Extent { start: v[i].0 as int, len: v[i].1 as int })
}

/// Whether no two values of `ks` share a byte.
pub open spec fn values_apart(ks: Seq<Key>) -> bool {
    forall|i: int, j: int|
        0 <= i < j < ks.len() && (#[trigger] ks[i]).value_len > 0 && (#[trigger] ks[j]).value_len
            > 0 ==> disjoint(extent_of(ks[i]), extent_of(ks[j]))
}

/// Whether no value of `ks` shares a byte with a block of `bl`.
pub open spec fn values_clear(ks: Seq<Key>, bl: Seq<Extent>) -> bool {
    forall|i: int, j: int|
        0 <= i < ks.len() && 0 <= j < bl.len() && (#[trigger] ks[i]).value_len > 0 ==> disjoint(
            extent_of(ks[i]),
            #[trigger] bl[j],
        )
}

/// Whether the two runs share no byte.
fn apart(a_start: u16, a_len: u16, b_start: u16, b_len: u16) -> (res: bool)
    ensures
        res == disjoint(
            Extent { start: a_start as int, len: a_len as int },
            Extent { start: b_start as int, len: b_len as int },
        ),
{
    a_start as u32 + a_len as u32 <= b_start as u32 || b_start as u32 + b_len as u32
        <= a_start as u32
}

/// Whether no two values of `keys` share a byte.
fn check_values_apart(keys: &Vec<Key>) -> (res: bool)
    ensures
        res == values_apart(keys@),
{
    let n = keys.len();
    let mut i: usize = 0;
    while i < n
        invariant
            n == keys@.len(),
            i <= n,
            forall|a: int, b: int|
                0 <= a < b < n && a < i && (#[trigger] keys@[a]).value_len > 0 && (
                #[trigger] keys@[b]).value_len > 0 ==> disjoint(
                    extent_of(keys@[a]),
                    extent_of(keys@[b]),
                ),
        decreases n - i,
    {
        let a = keys[i];
        if a.value_len > 0 {
            let mut j: usize = i + 1;
            while j < n
                invariant
                    n == keys@.len(),
                    i < j <= n,
                    a == keys@[i as int],
                    a.value_len > 0,
                    forall|b: int|
                        i < b < j && (#[trigger] keys@[b]).value_len > 0 ==> disjoint(
                            extent_of(keys@[i as int]),
                            extent_of(keys@[b]),
                        ),
                decreases n - j,
            {
                let b = keys[j];
                if b.value_len > 0 && !apart(
                    a.value_offset,
                    a.value_len,
                    b.value_offset,
                    b.value_len,
                ) {
                    return false;
                }
                j += 1;
            }
        }
        i += 1;
    }
    true
}

/// Whether no value of `keys` shares a byte with a block of `found`.
fn check_values_clear(keys: &Vec<Key>, found: &Vec<(u16, u16)>) -> (res: bool)
    ensures
        res == values_clear(keys@, runs(found@)),
{
    let n = keys.len();
    let m = found.len();
    let mut i: usize = 0;
    while i < n
        invariant
            n == keys@.len(),
            m == found@.len(),
            i <= n,
            forall|a: int, b: int|
                0 <= a < i && 0 <= b < m && (#[trigger] keys@[a]).value_len > 0 ==> disjoint(
                    extent_of(keys@[a]),
                    #[trigger] runs(found@)[b],
                ),
        decreases n - i,
    {
        let a = keys[i];
        if a.value_len > 0 {
            let mut j: usize = 0;
            while j < m
                invariant
                    n == keys@.len(),
                    m == found@.len(),
                    i < n,
                    j <= m,
                    a == keys@[i as int],
                    a.value_len > 0,
                    forall|b: int|
                        0 <= b < j ==> disjoint(
                            extent_of(keys@[i as int]),
                            #[trigger] runs(found@)[b],
                        ),
                decreases m - j,
            {
                let b = found[j];
                if !apart(a.value_offset, a.value_len, b.0, b.1) {
                    assert(!disjoint(extent_of(keys@[i as int]), runs(found@)[j as int]));
                    return false;
                }
                j += 1;
            }
        }
        i += 1;
    }
    true
}

/// The sum of the lengths of the values of `keys`.
fn sum_values(keys: &Vec<Key>) -> (sum: u64)
    requires
        keys@.len() <= 4096,
    ensures
        sum == total(extents(keys@)),
        sum <= 65535 * keys@.len(),
{
    let n = keys.len();
    let mut sum: u64 = 0;
    let mut i: usize = 0;
    proof {
        assert(extents(keys@.take(0)) =~= Seq::<Extent>::empty());
    }
    while i < n
        invariant
            n == keys@.len(),
            n <= 4096,
            i <= n,
            sum == total(extents(keys@.take(i as int))),
            sum <= 65535 * i,
        decreases n - i,
    {
        proof {
            let before = extents(keys@.take(i as int));
            let e = extent_of(keys@[i as int]);
            assert(extents(keys@.take(i + 1)) =~= before.push(e));
            lemma_total_push(before, e);
        }
        sum += keys[i].value_len as u64;
        i += 1;
    }
    proof {
        assert(keys@.take(n as int) =~= keys@);
    }
    sum
}

/// The sum of the sizes of the blocks of `found`.
fn sum_blocks(found: &Vec<(u16, u16)>) -> (sum: u64)
    requires
        found@.len() <= 4096,
    ensures
        sum == total(runs(found@)),
        sum <= 65535 * found@.len(),
{
    let n = found.len();
    let mut sum: u64 = 0;
    let mut i: usize = 0;
    proof {
        assert(runs(found@.take(0)) =~= Seq::<Extent>::empty());
    }
    while i < n
        invariant
            n == found@.len(),
            n <= 4096,
            i <= n,
            sum == total(runs(found@.take(i as int))),
            sum <= 65535 * i,
        decreases n - i,
    {
        proof {
            let before = runs(found@.take(i as int));
            let e = Extent { start: found@[i as int].0 as int, len: found@[i as int].1 as int };
            assert(runs(found@.take(i + 1)) =~= before.push(e));
            lemma_total_push(before, e);
        }
        sum += found[i].1 as u64;
        i += 1;
    }
    proof {
        assert(found@.take(n as int) =~= found@);
    }
    sum
}

impl<'a> Node<'a> {
    /// Reads the slot array, if its keys ascend and its values lie where
    /// values may lie.
    fn read_slots(&self, n: u16, fe: u16) -> (res: Option<Vec<Key>>)
        requires
            self.framed(),
            n == num_keys(self.bytes()),
            fe == free_end(self.bytes()),
        ensures
            match res {
                Some(keys) => keys@ == slots(self.bytes()) && keys_ascending(keys@)
                    && values_placed(keys@, fe as int),
                None => !(keys_ascending(slots(self.bytes())) && values_placed(
                    slots(self.bytes()),
                    fe as int,
                )),
            },
    {
        let ghost ks = slots(self.bytes());
        let mut keys: Vec<Key> = Vec::new();
        let mut i: u16 = 0;
        while i < n
            invariant
                self.framed(),
                ks == slots(self.bytes()),
                n == ks.len(),
                i <= n,
                keys@ == ks.take(i as int),
                keys_ascending(keys@),
                values_placed(keys@, fe as int),
            decreases n - i,
        {
            let key = match self.read_key_at(i) {
                Ok((k, _)) => k,
                Err(_) => { return None; },
            };
            proof {
                assert(key == ks[i as int]);
            }
            if key.value_offset as u32 + key.value_len as u32 > 4096 {
                return None;
            }
            if key.value_len > 0 && key.value_offset < fe {
                return None;
            }
            if i > 0 && keys[(i - 1) as usize].key >= key.key {
                proof {
                    assert(keys@[i - 1] == ks[i - 1]);
                }
                return None;
            }
            keys.push(key);
            proof {
                assert(keys@ =~= ks.take(i + 1));
                assert forall|a: int, b: int| 0 <= a < b < keys@.len() implies (
                #[trigger] keys@[a]).key < (#[trigger] keys@[b]).key by {
                    if b == i {
                        if a < i - 1 {
                            assert(ks.take(i as int)[a].key < ks.take(i as int)[i - 1].key);
                        }
                        assert(keys@[a] == ks[a] && keys@[i - 1] == ks[i - 1]);
                    } else {
                        assert(ks.take(i as int)[a].key < ks.take(i as int)[b].key);
                    }
                }
                assert forall|a: int| 0 <= a < keys@.len() implies {
                    &&& (#[trigger] keys@[a]).value_offset + keys@[a].value_len <= 4096
                    &&& keys@[a].value_len > 0 ==> fe <= keys@[a].value_offset
                } by {
                    if a < i {
                        assert(ks.take(i as int)[a] == keys@[a]);
                    }
                }
            }
            i += 1;
        }
        proof {
            assert(ks.take(n as int) =~= ks);
        }
        Some(keys)
    }

    /// Walks the chain of freeblocks from `head` on, if it is a sound
    /// chain above `fe`. Returns the blocks as pairs of offset and size.
    fn read_chain(&self, head: u16, fe: u16) -> (res: Option<Vec<(u16, u16)>>)
        requires
            self.bytes().len() == PAGE_SIZE,
            head == first_freeblock(self.bytes()),
            0 < fe <= PAGE_SIZE,
        ensures
            match res {
                Some(found) => is_chain(self.bytes(), head as int, fe as int, runs(found@))
                    && found@.len() <= 1024,
                None => !is_chain(self.bytes(), head as int, fe as int, blocks(self.bytes())),
            },
    {
        let ghost s = self.bytes();
        let ghost truth = blocks(s);
        let ghost sound = is_chain(s, head as int, fe as int, truth);
        let mut found: Vec<(u16, u16)> = Vec::new();
        let mut curr: u16 = head;
        let mut floor: u16 = fe;
        while curr != 0
            invariant
                s == self.bytes(),
                s.len() == 4096,
                truth == blocks(s),
                sound == is_chain(s, head as int, fe as int, truth),
                0 < fe <= floor <= 4096,
                fe + 4 * found@.len() <= floor,
                found@.len() == 0 ==> floor == fe,
                blocks_sound(runs(found@), fe as int),
                found@.len() > 0 ==> floor == runs(found@)[found@.len() - 1].start + runs(
                    found@,
                )[found@.len() - 1].len && u16_at(s, runs(found@)[found@.len() - 1].start)
                    == curr,
                head == if found@.len() == 0 {
                    curr as int
                } else {
                    runs(found@)[0].start
                },
                forall|i: int|
                    0 <= i < found@.len() ==> u16_at(s, (#[trigger] runs(found@)[i]).start + 2)
                        == runs(found@)[i].len,
                forall|i: int, j: int|
                    0 <= i && j == i + 1 && j < found@.len() ==> u16_at(
                        s,
                        (#[trigger] runs(found@)[i]).start,
                    ) == (#[trigger] runs(found@)[j]).start,
                sound ==> found@.len() <= truth.len() && (forall|i: int|
                    0 <= i < found@.len() ==> #[trigger] runs(found@)[i] == truth[i]) && curr == (
                if found@.len() < truth.len() {
                    truth[found@.len() as int].start
                } else {
                    0
                }),
            decreases 4096 - floor,
        {
            let ghost k = found@.len() as int;
            let ghost before = runs(found@);
            proof {
                if sound {
                    assert(truth[k].start == curr);
                    assert(4 <= truth[k].len && truth[k].start + truth[k].len <= 4096);
                    assert(u16_at(s, truth[k].start + 2) == truth[k].len);
                    if k > 0 {
                        assert(before[k - 1] == truth[k - 1]);
                        assert(truth[k - 1].start + truth[k - 1].len <= truth[k].start);
                    }
                    if k + 1 < truth.len() {
                        assert(u16_at(s, truth[k].start) == truth[k + 1].start);
                    }
                }
            }
            if curr < floor || curr > 4092 {
                return None;
            }
            let here = match self.read_freeblock(curr as usize) {
                Ok(f) => f,
                Err(_) => { return None; },
            };
            if here.size < 4 || curr as u32 + here.size as u32 > 4096 {
                return None;
            }
            found.push((curr, here.size));
            proof {
                let now = runs(found@);
                assert forall|i: int| 0 <= i < k implies #[trigger] now[i] == before[i] by {}
                assert(now[k] == Extent { start: curr as int, len: here.size as int });
                assert forall|i: int, j: int| 0 <= i < j < now.len() implies (
                #[trigger] now[i]).start + now[i].len <= (#[trigger] now[j]).start by {
                    if j == k {
                        if i < k - 1 {
                            assert(before[i].start + before[i].len <= before[k - 1].start);
                        }
                    } else {
                        assert(before[i].start + before[i].len <= before[j].start);
                    }
                }
                assert forall|i: int| 0 <= i < now.len() implies {
                    &&& fe <= (#[trigger] now[i]).start
                    &&& 4 <= now[i].len
                    &&& now[i].start + now[i].len <= 4096
                } by {
                    if i < k {
                        assert(fe <= before[i].start);
                    }
                }
                assert forall|i: int, j: int|
                    0 <= i && j == i + 1 && j < now.len() implies u16_at(
                    s,
                    (#[trigger] now[i]).start,
                ) == (#[trigger] now[j]).start by {
                    if j < k {
                        assert(u16_at(s, before[i].start) == before[j].start);
                    }
                }
            }
            floor = curr + here.size;
            curr = here.next_freeblock;
        }
        proof {
            let now = runs(found@);
            assert(links_ok(s, head as int, now));
        }
        Some(found)
    }

    /// Whether the page is well formed. Every function that takes a well
    /// formed page can be called on a page for which this holds.
    pub fn is_well_formed(&self) -> (res: bool)
        requires
            self.bytes().len() == PAGE_SIZE,
        ensures
            res == self.wf(),
    {
        let ghost s = self.bytes();
        let header = match self.read_header() {
            Ok(h) => h,
            Err(_) => { return false; },
        };
        if header.num_keys > 255 || header.free_start != 14 + 16 * header.num_keys
            || header.free_start > header.free_end || header.free_end > 4096 {
            return false;
        }
        let keys = match self.read_slots(header.num_keys, header.free_end) {
            Some(k) => k,
            None => { return false; },
        };
        let found = match self.read_chain(header.first_freeblock, header.free_end) {
            Some(f) => f,
            None => { return false; },
        };
        proof {
            lemma_chain_unique(
                s,
                header.first_freeblock as int,
                header.free_end as int,
                runs(found@),
            );
        }
        if !check_values_apart(&keys) || !check_values_clear(&keys, &found) {
            return false;
        }
        let taken: u64 = sum_values(&keys) + sum_blocks(&found) + header.fragmented_bytes as u64;
        if taken > (4096 - header.free_end) as u64 {
            return false;
        }
        proof {
            lemma_wf_from(s, runs(found@));
        }
        true
    }
}

} // verus!
