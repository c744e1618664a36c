//! Freeblocks: freed payload regions, chained through the page.

use vstd::prelude::*;
use super::{Node, overwrite, PAGE_SIZE};
use super::endian::{lemma_u16_round_trip, u16_at, u16_from_le, u16_le, u16_to_le};
use super::errors::BTreeError;
use super::frame::same_outside;

verus! {

/// The descriptor at the start of a freeblock, as values.
///
/// In the page `next_freeblock` lies in bytes 0..2 of the freeblock and
/// `size` in bytes 2..4, both little-endian.
#[derive(Debug, Clone, Copy, PartialEq, Eq, Structural)]
pub struct Freeblock {
    /// Offset of the next freeblock, `0` if this is the last.
    pub next_freeblock: u16,
    /// Bytes that this freeblock covers, its descriptor included.
    pub size: u16,
}

/// Number of bytes a freeblock descriptor takes.
pub const FREEBLOCK_SIZE: u16 = 4;

impl Freeblock {
    /// The four bytes that store this descriptor.
    #[verifier::opaque]
    pub open spec fn encode(self) -> Seq<u8> {
        u16_le(self.next_freeblock) + u16_le(self.size)
    }

    /// The descriptor stored in the four bytes of `s` that start at `p`.
    pub open spec fn decode_at(s: Seq<u8>, p: int) -> Freeblock {
        Freeblock { next_freeblock: u16_at(s, p) as u16, size: u16_at(s, p + 2) as u16 }
    }

    /// A stored descriptor reads back as itself.
    pub proof fn lemma_round_trip(self)
        ensures
            self.encode().len() == FREEBLOCK_SIZE,
            Freeblock::decode_at(self.encode(), 0) == self,
    {
        reveal(Freeblock::encode);
        lemma_u16_round_trip(self.next_freeblock);
        lemma_u16_round_trip(self.size);
        let s = self.encode();
        assert(u16_at(s, 0) == u16_at(u16_le(self.next_freeblock), 0));
        assert(u16_at(s, 2) == u16_at(u16_le(self.size), 0));
    }

    /// The bytes that store this descriptor in a page.
    pub fn as_bytes(&self) -> (bytes: [u8; 4])
        ensures
            bytes@ == self.encode(),
    {
        let n = u16_to_le(self.next_freeblock);
        let s = u16_to_le(self.size);
        let bytes: [u8; 4] = [n[0], n[1], s[0], s[1]];
        proof {
            reveal(Freeblock::encode);
        }
        assert(bytes@ =~= self.encode());
        bytes
    }

    /// Reads a descriptor from its four bytes. Every four bytes are one.
    pub fn intepret_from_bytes(bytes: &[u8; 4]) -> (res: Result<Self, BTreeError>)
        ensures
            res == Ok::<Freeblock, BTreeError>(Freeblock::decode_at(bytes@, 0)),
    {
        Ok(
            Freeblock {
                next_freeblock: u16_from_le([bytes[0], bytes[1]]),
                size: u16_from_le([bytes[2], bytes[3]]),
            },
        )
    }
}

impl<'a> Node<'a> {
    /// Reads the freeblock descriptor at `offset`.
    pub fn read_freeblock(&self, offset: usize) -> (res: Result<Freeblock, BTreeError>)
        requires
            self.bytes().len() == PAGE_SIZE,
            offset + FREEBLOCK_SIZE <= PAGE_SIZE,
        ensures
            res == Ok::<Freeblock, BTreeError>(Freeblock::decode_at(self.bytes(), offset as int)),
    {
        let b = self.get_page_slice(offset, 4);
        let bytes: [u8; 4] = [b[0], b[1], b[2], b[3]];
        Freeblock::intepret_from_bytes(&bytes)
    }

    /// Stores `freeblock` as the descriptor at `offset`. The rest of the
    /// page stays as it is.
    pub fn mut_freeblock(&mut self, offset: usize, freeblock: &Freeblock)
        requires
            old(self).bytes().len() == PAGE_SIZE,
            offset + FREEBLOCK_SIZE <= PAGE_SIZE,
        ensures
            final(self).bytes() == overwrite(old(self).bytes(), offset as int, freeblock.encode()),
            Freeblock::decode_at(final(self).bytes(), offset as int) == *freeblock,
            same_outside(old(self).bytes(), final(self).bytes(), offset as int, offset + 4),
    {
        let bytes = freeblock.as_bytes();
        proof {
            freeblock.lemma_round_trip();
        }
        self.write_at(offset, &bytes);
        proof {
            let t = self.bytes();
            let e = freeblock.encode();
            assert(forall|k: int| 0 <= k < 4 ==> t[offset + k] == e[k]);
        }
    }

    /// Writes a freeblock descriptor of `size` bytes that links to
    /// `next_freeblock` at `offset`. The rest of the page stays as it is.
    pub fn write_freeblock(&mut self, size: u16, next_freeblock: u16, offset: usize)
        requires
            old(self).bytes().len() == PAGE_SIZE,
            offset + FREEBLOCK_SIZE <= PAGE_SIZE,
        ensures
            final(self).bytes() == overwrite(
                old(self).bytes(),
                offset as int,
                (Freeblock { next_freeblock, size }).encode(),
            ),
            Freeblock::decode_at(final(self).bytes(), offset as int) == (Freeblock {
                next_freeblock,
                size,
            }),
            same_outside(old(self).bytes(), final(self).bytes(), offset as int, offset + 4),
    {
        let new_freeblock = Freeblock { next_freeblock, size };
        self.mut_freeblock(offset, &new_freeblock);
    }
}

} // verus!
