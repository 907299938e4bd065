//! Page identifiers and links: a `PageLink` addresses one serialized row
//! inside a data page by `(page_id, offset, length)` and is laid out on the
//! wire as exactly twelve little-endian bytes.

use vstd::prelude::*;
use vstd::bytes::*;

verus! {

/// Number of bytes a serialized `PageLink` occupies.
pub const LINK_LENGTH: usize = 12;

/// A page's identifier, unique within the table bounds.
#[derive(Copy, Clone, Debug, Eq, Hash, Ord, PartialEq, PartialOrd, Structural)]
pub struct PageId(pub u32);

/// Addresses a serialized row inside a data page.
#[derive(Copy, Clone, Debug, Eq, Hash, Ord, PartialEq, PartialOrd, Structural)]
pub struct PageLink {
    pub page_id: PageId,
    pub offset: u32,
    pub length: u32,
}

/// The wire form of a link: three little-endian `u32` words.
pub open spec fn spec_link_to_bytes(l: PageLink) -> Seq<u8> {
    spec_u32_to_le_bytes(l.page_id.0) + spec_u32_to_le_bytes(l.offset)
        + spec_u32_to_le_bytes(l.length)
}

/// Reads a link back from its twelve-byte wire form.
pub open spec fn spec_link_from_bytes(s: Seq<u8>) -> PageLink
    recommends
        s.len() == LINK_LENGTH,
{
    PageLink {
        page_id: PageId(spec_u32_from_le_bytes(s.subrange(0, 4))),
        offset: spec_u32_from_le_bytes(s.subrange(4, 8)),
        length: spec_u32_from_le_bytes(s.subrange(8, 12)),
    }
}

/// A serialized link is exactly twelve bytes, and decoding inverts encoding.
pub proof fn lemma_link_bytes_roundtrip(l: PageLink)
    ensures
        spec_link_to_bytes(l).len() == LINK_LENGTH,
        spec_link_from_bytes(spec_link_to_bytes(l)) == l,
{
    lemma_auto_spec_u32_to_from_le_bytes();
    let s = spec_link_to_bytes(l);
    assert(s.subrange(0, 4) =~= spec_u32_to_le_bytes(l.page_id.0));
    assert(s.subrange(4, 8) =~= spec_u32_to_le_bytes(l.offset));
    assert(s.subrange(8, 12) =~= spec_u32_to_le_bytes(l.length));
}

impl PageLink {
    /// Serializes the link to its twelve-byte wire form.
    pub fn to_bytes(&self) -> (r: Vec<u8>)
        ensures
            r@ == spec_link_to_bytes(*self),
            r@.len() == LINK_LENGTH,
    {
        proof {
            lemma_link_bytes_roundtrip(*self);
        }
        let mut r = u32_to_le_bytes(self.page_id.0);
        let mut o = u32_to_le_bytes(self.offset);
        let mut n = u32_to_le_bytes(self.length);
        r.append(&mut o);
        r.append(&mut n);
        r
    }

    /// Reads a link from its twelve-byte wire form.
    pub fn from_bytes(s: &[u8]) -> (r: PageLink)
        requires
            s@.len() == LINK_LENGTH,
        ensures
            r == spec_link_from_bytes(s@),
    {
        let pid = u32_from_le_bytes(vstd::slice::slice_subrange(s, 0, 4));
        let off = u32_from_le_bytes(vstd::slice::slice_subrange(s, 4, 8));
        let len = u32_from_le_bytes(vstd::slice::slice_subrange(s, 8, 12));
        PageLink { page_id: PageId(pid), offset: off, length: len }
    }
}

impl core::convert::From<PageId> for usize {
    fn from(value: PageId) -> (r: usize) {
        value.0 as usize
    }
}

impl vstd::std_specs::convert::FromSpecImpl<PageId> for usize {
    open spec fn obeys_from_spec() -> bool {
        true
    }

    open spec fn from_spec(value: PageId) -> usize {
        value.0 as usize
    }
}

} // verus!
