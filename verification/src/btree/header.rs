//! The page header: fourteen bytes at the start of every page.

use vstd::prelude::*;
use super::{Node, overwrite, PAGE_SIZE};
use super::endian::{
    lemma_u16_round_trip, lemma_u32_round_trip, u16_at, u16_from_le, u16_le, u16_to_le, u32_at,
    u32_from_le, u32_le, u32_to_le,
};
use super::errors::{BTreeError, InvalidHeaderError};
use super::frame::same_outside;

verus! {

/// What kind of node a page holds.
#[derive(Debug, Clone, Copy, PartialEq, Eq, Structural)]
pub enum NodeType {
    Internal,
    Leaf,
}

/// The header of a page, as values.
///
/// In the page the fields lie in this order without padding, integers
/// little-endian: the node type in byte 0, `num_keys` in bytes 1..3,
/// `free_start` in 3..5, `free_end` in 5..7, `first_freeblock` in 7..9,
/// `fragmented_bytes` in byte 9 and `rightmost_child_page` in 10..14.
#[derive(Debug, Clone, Copy, PartialEq, Eq, Structural)]
pub struct Header {
    pub node_type: NodeType,
    /// Number of occupied slots.
    pub num_keys: u16,
    /// First byte after the slot array.
    pub free_start: u16,
    /// First byte of the payload region.
    pub free_end: u16,
    /// Offset of the first freeblock, `0` if there is none.
    pub first_freeblock: u16,
    /// Freed bytes that were too few to form a freeblock.
    pub fragmented_bytes: u8,
    /// Reserved for a tree above this page.
    pub rightmost_child_page: u32,
}

/// Number of bytes the header takes at the start of a page.
pub const HEADER_SIZE: u16 = 14;

impl NodeType {
    /// The byte that stands for this node type in a page.
    pub open spec fn tag(self) -> u8 {
        match self {
            NodeType::Internal => 0u8,
            NodeType::Leaf => 1u8,
        }
    }
}

impl Header {
    /// The fourteen bytes that store this header.
    #[verifier::opaque]
    pub open spec fn encode(self) -> Seq<u8> {
        seq![self.node_type.tag()] + u16_le(self.num_keys) + u16_le(self.free_start) + u16_le(
            self.free_end,
        ) + u16_le(self.first_freeblock) + seq![self.fragmented_bytes] + u32_le(
            self.rightmost_child_page,
        )
    }

    /// Whether the first byte of `s` names a node type.
    pub open spec fn valid_tag(s: Seq<u8>) -> bool {
        s[0] <= 1
    }

    /// The header stored in the first fourteen bytes of `s`. A first byte
    /// that names no node type is read as a leaf; `valid_tag` tells.
    pub open spec fn decode(s: Seq<u8>) -> Header {
        Header {
            node_type: if s[0] == 0 {
                NodeType::Internal
            } else {
                NodeType::Leaf
            },
            num_keys: u16_at(s, 1) as u16,
            free_start: u16_at(s, 3) as u16,
            free_end: u16_at(s, 5) as u16,
            first_freeblock: u16_at(s, 7) as u16,
            fragmented_bytes: s[9],
            rightmost_child_page: u32_at(s, 10) as u32,
        }
    }

    /// A stored header reads back as itself.
    pub proof fn lemma_round_trip(self)
        ensures
            self.encode().len() == HEADER_SIZE,
            Header::valid_tag(self.encode()),
            Header::decode(self.encode()) == self,
    {
        reveal(Header::encode);
        lemma_u16_round_trip(self.num_keys);
        lemma_u16_round_trip(self.free_start);
        lemma_u16_round_trip(self.free_end);
        lemma_u16_round_trip(self.first_freeblock);
        lemma_u32_round_trip(self.rightmost_child_page);
    }

    /// A header with the fields given.
    pub fn new(
        node_type: NodeType,
        num_keys: u16,
        free_start: u16,
        free_end: u16,
        first_freeblock: u16,
        fragmented_bytes: u8,
        rightmost_child_page: u32,
    ) -> (header: Self)
        ensures
            header == (Header {
                node_type,
                num_keys,
                free_start,
                free_end,
                first_freeblock,
                fragmented_bytes,
                rightmost_child_page,
            }),
    {
        Header {
            node_type,
            num_keys,
            free_start,
            free_end,
            first_freeblock,
            fragmented_bytes,
            rightmost_child_page,
        }
    }

    /// The bytes that store this header in a page.
    pub fn as_bytes(&self) -> (bytes: [u8; 14])
        ensures
            bytes@ == self.encode(),
    {
        let tag: u8 = match self.node_type {
            NodeType::Internal => 0,
            NodeType::Leaf => 1,
        };
        let nk = u16_to_le(self.num_keys);
        let fs = u16_to_le(self.free_start);
        let fe = u16_to_le(self.free_end);
        let fb = u16_to_le(self.first_freeblock);
        let rc = u32_to_le(self.rightmost_child_page);
        let bytes: [u8; 14] = [
            tag,
            nk[0],
            nk[1],
            fs[0],
            fs[1],
            fe[0],
            fe[1],
            fb[0],
            fb[1],
            self.fragmented_bytes,
            rc[0],
            rc[1],
            rc[2],
            rc[3],
        ];
        proof {
            reveal(Header::encode);
        }
        assert(bytes@ =~= self.encode());
        bytes
    }

    /// Reads a header from its fourteen bytes. Fails only on a first byte
    /// that names no node type.
    pub fn intepret_from_bytes(bytes: &[u8; 14]) -> (res: Result<Self, BTreeError>)
        ensures
            Header::valid_tag(bytes@) ==> res == Ok::<Header, BTreeError>(Header::decode(bytes@)),
            !Header::valid_tag(bytes@) ==> res == Err::<Header, BTreeError>(
                BTreeError::InvalidHeader(InvalidHeaderError::InvalidNodeType(bytes@[0])),
            ),
    {
        let tag: u8 = bytes[0];
        if tag > 1 {
            return Err(BTreeError::InvalidHeader(InvalidHeaderError::InvalidNodeType(tag)));
        }
        let node_type = if tag == 0 {
            NodeType::Internal
        } else {
            NodeType::Leaf
        };
        Ok(
            Header {
                node_type,
                num_keys: u16_from_le([bytes[1], bytes[2]]),
                free_start: u16_from_le([bytes[3], bytes[4]]),
                free_end: u16_from_le([bytes[5], bytes[6]]),
                first_freeblock: u16_from_le([bytes[7], bytes[8]]),
                fragmented_bytes: bytes[9],
                rightmost_child_page: u32_from_le([bytes[10], bytes[11], bytes[12], bytes[13]]),
            },
        )
    }
}

/// A page that begins with the bytes of a header holds that header.
pub proof fn lemma_same_header(s: Seq<u8>, e: Seq<u8>)
    requires
        14 <= s.len(),
        e.len() == 14,
        s.subrange(0, 14) == e,
    ensures
        Header::decode(s) == Header::decode(e),
        Header::valid_tag(s) == Header::valid_tag(e),
{
    let a = s.subrange(0, 14);
    assert(s[0] == a[0]);
    assert(s[1] == a[1]);
    assert(s[2] == a[2]);
    assert(s[3] == a[3]);
    assert(s[4] == a[4]);
    assert(s[5] == a[5]);
    assert(s[6] == a[6]);
    assert(s[7] == a[7]);
    assert(s[8] == a[8]);
    assert(s[9] == a[9]);
    assert(s[10] == a[10]);
    assert(s[11] == a[11]);
    assert(s[12] == a[12]);
    assert(s[13] == a[13]);
}

impl<'a> Node<'a> {
    /// The header of the page, as `Header::decode` reads it.
    pub open spec fn header(&self) -> Header {
        Header::decode(self.bytes())
    }

    /// Reads the header. Fails only on a first byte that names no node type.
    pub fn read_header(&self) -> (res: Result<Header, BTreeError>)
        requires
            self.bytes().len() == PAGE_SIZE,
        ensures
            Header::valid_tag(self.bytes()) ==> res == Ok::<Header, BTreeError>(self.header()),
            !Header::valid_tag(self.bytes()) ==> res == Err::<Header, BTreeError>(
                BTreeError::InvalidHeader(InvalidHeaderError::InvalidNodeType(self.bytes()[0])),
            ),
    {
        let b = self.get_page_slice(0, 14);
        let bytes: [u8; 14] = [
            b[0],
            b[1],
            b[2],
            b[3],
            b[4],
            b[5],
            b[6],
            b[7],
            b[8],
            b[9],
            b[10],
            b[11],
            b[12],
            b[13],
        ];
        Header::intepret_from_bytes(&bytes)
    }

    /// Stores `header` as the header of the page. The rest of the page
    /// stays as it is.
    pub fn mutate_header(&mut self, header: &Header)
        requires
            old(self).bytes().len() == PAGE_SIZE,
        ensures
            final(self).bytes() == overwrite(old(self).bytes(), 0, header.encode()),
            final(self).header() == *header,
            Header::valid_tag(final(self).bytes()),
            same_outside(old(self).bytes(), final(self).bytes(), 0, 14),
    {
        let bytes = header.as_bytes();
        proof {
            header.lemma_round_trip();
        }
        self.write_at(0, &bytes);
        proof {
            let t = self.bytes();
            let e = header.encode();
            assert(forall|p: int| 0 <= p < 14 ==> t[p] == e[p]);
        }
    }
}

} // verus!
