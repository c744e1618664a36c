//! The page engine: header, slot array, payload allocator and the point
//! operations on one leaf page.

use vstd::prelude::*;

pub mod defrag;
pub mod endian;
pub mod errors;
pub mod frame;
pub mod freeblock;
pub mod header;
pub mod key;
pub mod laws;
pub mod layout;
pub mod model;
pub mod ops;
pub mod place;
pub mod shape;
pub mod space;
pub mod validate;

use errors::BTreeError;
use header::{Header, HEADER_SIZE, NodeType};
use model::{
    blocks, entries, Extent, extents, first_freeblock, geometry_ok, num_keys, slots, total,
    well_formed,
};

verus! {

/// Number of bytes in a page.
pub const PAGE_SIZE: u16 = 4096;

/// A key with the bytes that were stored under it.
#[derive(Debug)]
pub struct KeyValuePair {
    pub key: u64,
    pub value: Vec<u8>,
}

/// One leaf page, borrowed from its owner for as long as the node lives.
pub struct Node<'a> {
    page: &'a mut [u8],
}

/// `s` with the bytes from `at` on replaced by those of `src`.
pub open spec fn overwrite(s: Seq<u8>, at: int, src: Seq<u8>) -> Seq<u8> {
    Seq::new(
        s.len(),
        |p: int|
            if at <= p < at + src.len() {
                src[p - at]
            } else {
                s[p]
            },
    )
}

/// `s` with the bytes of `[from, until)` copied to `to` and after, as if
/// through a buffer: the two ranges may overlap.
pub open spec fn moved(s: Seq<u8>, from: int, until: int, to: int) -> Seq<u8> {
    Seq::new(
        s.len(),
        |p: int|
            if to <= p < to + (until - from) {
                s[p - to + from]
            } else {
                s[p]
            },
    )
}

/// The header of a page without keys, freeblocks or fragmented bytes.
pub open spec fn empty_leaf_header() -> Header {
    Header {
        node_type: NodeType::Leaf,
        num_keys: 0,
        free_start: HEADER_SIZE,
        free_end: PAGE_SIZE,
        first_freeblock: 0,
        fragmented_bytes: 0,
        rightmost_child_page: 0,
    }
}

/// A page that holds the header of an empty leaf is well formed and
/// stores nothing.
pub proof fn lemma_empty_leaf(t: Seq<u8>)
    requires
        t.len() == 4096,
        Header::decode(t) == empty_leaf_header(),
        Header::valid_tag(t),
    ensures
        well_formed(t),
        entries(t) == Map::<u64, Seq<u8>>::empty(),
{
    let none = Seq::<Extent>::empty();
    assert(num_keys(t) == 0);
    assert(first_freeblock(t) == 0);
    assert(slots(t) =~= Seq::empty());
    assert(blocks(t) =~= none);
    assert(total(extents(slots(t))) == 0);
    assert(total(none) == 0);
    assert(entries(t) =~= Map::<u64, Seq<u8>>::empty());
}

/// Copies `src` over `dst`, which has the same length.
pub(crate) fn copy_bytes(dst: &mut [u8], src: &[u8])
    requires
        old(dst)@.len() == src@.len(),
    ensures
        final(dst)@ == src@,
{
    let n: usize = src.len();
    let mut i: usize = 0;
    while i < n
        invariant
            i <= n,
            n == src@.len(),
            dst@.len() == n,
            forall|j: int| 0 <= j < i ==> dst@[j] == src@[j],
        decreases n - i,
    {
        dst[i] = src[i];
        i += 1;
    }
    assert(dst@ =~= src@);
}

impl<'a> View for Node<'a> {
    type V = Map<u64, Seq<u8>>;

    /// The map that the page stores.
    open spec fn view(&self) -> Map<u64, Seq<u8>> {
        entries(self.bytes())
    }
}

impl<'a> Node<'a> {
    /// The bytes of the page as they are now.
    pub closed spec fn bytes(&self) -> Seq<u8> {
        (*self.page)@
    }

    /// Whether the page is well formed: see `model::well_formed`.
    pub open spec fn wf(&self) -> bool {
        well_formed(self.bytes())
    }

    /// Whether the page is one page long and its header and slot array are
    /// in order: see `model::geometry_ok`.
    pub open spec fn framed(&self) -> bool {
        geometry_ok(self.bytes())
    }

    /// Takes a buffer of one page and makes it an empty leaf. Nothing but
    /// the header is written. A buffer of another length is refused.
    pub fn new(page: &'a mut [u8]) -> (res: Result<Self, BTreeError>)
        ensures
            old(page)@.len() == PAGE_SIZE ==> {
                &&& res is Ok
                &&& res.unwrap().bytes() == overwrite(old(page)@, 0, empty_leaf_header().encode())
                &&& res.unwrap().header() == empty_leaf_header()
                &&& res.unwrap().wf()
                &&& res.unwrap()@ == Map::<u64, Seq<u8>>::empty()
            },
            old(page)@.len() != PAGE_SIZE ==> res == Err::<Self, BTreeError>(
                BTreeError::SizeMismatch { expected: 4096, actual: old(page)@.len() as usize },
            ) && final(page)@ == old(page)@,
    {
        let actual = page.len();
        if actual != 4096 {
            return Err(BTreeError::SizeMismatch { expected: 4096, actual });
        }
        let mut node = Node { page };
        let header = Header::new(NodeType::Leaf, 0, HEADER_SIZE, PAGE_SIZE, 0, 0, 0);
        node.mutate_header(&header);
        proof {
            lemma_empty_leaf(node.bytes());
        }
        Ok(node)
    }

    /// Takes a buffer of one page as it is. Nothing is written and nothing
    /// is checked but the length: `is_well_formed` tells whether the bytes
    /// form a page.
    pub fn load(page: &'a mut [u8]) -> (res: Result<Self, BTreeError>)
        ensures
            old(page)@.len() == PAGE_SIZE ==> res is Ok && res.unwrap().bytes() == old(page)@,
            old(page)@.len() != PAGE_SIZE ==> res == Err::<Self, BTreeError>(
                BTreeError::SizeMismatch { expected: 4096, actual: old(page)@.len() as usize },
            ) && final(page)@ == old(page)@,
    {
        let actual = page.len();
        if actual != 4096 {
            return Err(BTreeError::SizeMismatch { expected: 4096, actual });
        }
        Ok(Node { page })
    }

    /// The `len` bytes of the page that begin at `offset`.
    pub(crate) fn get_page_slice(&self, offset: usize, len: usize) -> (out: &[u8])
        requires
            offset + len <= self.bytes().len(),
        ensures
            out@ == self.bytes().subrange(offset as int, offset + len),
    {
        let _page_len = self.page.len();
        &self.page[offset..(offset + len)]
    }

    /// The `len` bytes of the page that begin at `offset`, to be written.
    /// The rest of the page stays as it is.
    pub(crate) fn get_mut_page_slice(&mut self, offset: usize, len: usize) -> (out: &mut [u8])
        requires
            offset + len <= old(self).bytes().len(),
        ensures
            out@ == old(self).bytes().subrange(offset as int, offset + len),
            final(self).bytes() == old(self).bytes().subrange(0, offset as int) + final(out)@
                + old(self).bytes().subrange(offset + len, old(self).bytes().len() as int),
    {
        let (_, rest) = self.page.split_at_mut(offset);
        let (mid, _) = rest.split_at_mut(len);
        mid
    }

    /// Writes `src` into the page from `offset` on.
    pub(crate) fn write_at(&mut self, offset: usize, src: &[u8])
        requires
            offset + src@.len() <= old(self).bytes().len(),
        ensures
            final(self).bytes() == overwrite(old(self).bytes(), offset as int, src@),
    {
        let _page_len = self.page.len();
        let dst = self.get_mut_page_slice(offset, src.len());
        copy_bytes(dst, src);
        assert(self.bytes() =~= overwrite(old(self).bytes(), offset as int, src@));
    }

    /// Copies the bytes of `[from, until)` to `to` and after. The ranges may
    /// overlap; the bytes arrive as they were before the call.
    pub(crate) fn copy_within(&mut self, from: usize, until: usize, to: usize)
        requires
            from <= until <= old(self).bytes().len(),
            to + (until - from) <= old(self).bytes().len(),
        ensures
            final(self).bytes() == moved(old(self).bytes(), from as int, until as int, to as int),
    {
        let total = self.page.len();
        let n: usize = until - from;
        if to <= from {
            let mut i: usize = 0;
            while i < n
                invariant
                    i <= n,
                    n == until - from,
                    to <= from,
                    until <= total,
                    total == self.page@.len(),
                    self.page@.len() == old(self).page@.len(),
                    forall|p: int|
                        to <= p < to + i ==> self.page@[p] == old(self).page@[p - to + from],
                    forall|p: int|
                        0 <= p < total && !(to <= p < to + i) ==> self.page@[p] == old(
                            self,
                        ).page@[p],
                decreases n - i,
            {
                let b = self.page[from + i];
                self.page[to + i] = b;
                i += 1;
            }
        } else {
            let mut i: usize = n;
            while i > 0
                invariant
                    i <= n,
                    n == until - from,
                    from < to,
                    to + n <= total,
                    total == self.page@.len(),
                    self.page@.len() == old(self).page@.len(),
                    forall|p: int|
                        to + i <= p < to + n ==> self.page@[p] == old(self).page@[p - to + from],
                    forall|p: int|
                        0 <= p < total && !(to + i <= p < to + n) ==> self.page@[p] == old(
                            self,
                        ).page@[p],
                decreases i,
            {
                i -= 1;
                let b = self.page[from + i];
                self.page[to + i] = b;
            }
        }
        assert(self.bytes() =~= moved(old(self).bytes(), from as int, until as int, to as int));
    }
}

} // verus!
