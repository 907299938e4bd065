//! A fixed-size data page: a body of `DATA_PAGE_BODY_SIZE` bytes, an append
//! cursor, and the page's identifier. Rows are saved by appending their
//! serialized bytes; a saved row is addressed by the returned `PageLink`.

use vstd::prelude::*;
use crate::link::{PageId, PageLink};

verus! {

/// Total size of a page on disk and in memory.
pub const PAGE_SIZE: usize = 4096;

/// Bytes taken by the general page header in the on-disk form.
pub const GENERAL_HEADER_SIZE: usize = 18;

/// Bytes of a data page available for row bytes.
pub const DATA_PAGE_BODY_SIZE: usize = PAGE_SIZE - GENERAL_HEADER_SIZE - 6;

/// Error that can appear on [`DataPage`] operations.
#[derive(Copy, Clone, Debug, Eq, PartialEq, Structural)]
pub enum DataExecutionError {
    /// Saving a row in a page with not enough space left.
    PageIsFull { need: u32, left: i64 },
    /// The row bytes could not be produced.
    SerializeError,
    /// The link does not address a readable row of this page.
    DeserializeError,
    /// The link provided for an in-place save has the wrong length.
    InvalidLink,
}

/// Replaces `s[at .. at + b.len()]` by `b`, leaving the rest of `s` unchanged.
pub open spec fn spec_splice(s: Seq<u8>, at: int, b: Seq<u8>) -> Seq<u8>
    recommends
        0 <= at,
        at + b.len() <= s.len(),
{
    s.subrange(0, at) + b + s.subrange(at + b.len(), s.len() as int)
}

/// A fixed-size page holding serialized rows.
pub struct DataPage {
    /// This page's identifier.
    pub page_id: PageId,
    /// Append cursor: everything below it was written by a save.
    pub offset: u32,
    /// The page body; always exactly `DATA_PAGE_BODY_SIZE` bytes.
    pub body: Vec<u8>,
}

impl DataPage {
    /// The page's structural invariant.
    pub open spec fn wf(&self) -> bool {
        &&& self.body@.len() == DATA_PAGE_BODY_SIZE
        &&& self.offset <= DATA_PAGE_BODY_SIZE
    }

    /// Whether `link` addresses a row region saved on this page.
    pub open spec fn spec_valid_link(&self, link: PageLink) -> bool {
        &&& link.page_id == self.page_id
        &&& link.length > 0
        &&& link.offset + link.length <= self.offset
    }

    /// The bytes the link addresses.
    pub open spec fn slot(&self, link: PageLink) -> Seq<u8>
        recommends
            link.offset + link.length <= self.body@.len(),
    {
        self.body@.subrange(link.offset as int, link.offset + link.length)
    }

    /// Creates a new zero-initialized page.
    pub fn new(id: PageId) -> (r: Self)
        ensures
            r.wf(),
            r.page_id == id,
            r.offset == 0,
            forall|i: int| 0 <= i < r.body@.len() ==> r.body@[i] == 0u8,
    {
        let mut body: Vec<u8> = Vec::new();
        let mut i: usize = 0;
        while i < DATA_PAGE_BODY_SIZE
            invariant
                body@.len() == i,
                i <= DATA_PAGE_BODY_SIZE,
                forall|j: int| 0 <= j < i ==> body@[j] == 0u8,
            decreases DATA_PAGE_BODY_SIZE - i,
        {
            body.push(0u8);
            i = i + 1;
        }
        DataPage { page_id: id, offset: 0, body }
    }

    /// Appends the serialized row `bytes` to the page body and returns the
    /// link addressing it; fails with `PageIsFull` when the body has not
    /// enough room left, leaving the page unchanged.
    pub fn save_row(&mut self, bytes: &Vec<u8>) -> (r: Result<PageLink, DataExecutionError>)
        requires
            old(self).wf(),
            0 < bytes@.len() <= u32::MAX,
        ensures
            final(self).wf(),
            final(self).page_id == old(self).page_id,
            match r {
                Ok(link) => {
                    &&& old(self).offset + bytes@.len() <= DATA_PAGE_BODY_SIZE
                    &&& link == (PageLink {
                        page_id: old(self).page_id,
                        offset: old(self).offset,
                        length: bytes@.len() as u32,
                    })
                    &&& final(self).offset == old(self).offset + bytes@.len()
                    &&& final(self).body@ == spec_splice(
                        old(self).body@,
                        old(self).offset as int,
                        bytes@,
                    )
                    &&& final(self).slot(link) == bytes@
                },
                Err(e) => {
                    &&& old(self).offset + bytes@.len() > DATA_PAGE_BODY_SIZE
                    &&& e == (DataExecutionError::PageIsFull {
                        need: bytes@.len() as u32,
                        left: (PAGE_SIZE - old(self).offset) as i64,
                    })
                    &&& *final(self) == *old(self)
                },
            },
    {
        let length = bytes.len() as u32;
        if length as usize > DATA_PAGE_BODY_SIZE - self.offset as usize {
            return Err(DataExecutionError::PageIsFull {
                need: length,
                left: (PAGE_SIZE - self.offset as usize) as i64,
            });
        }
        let offset0 = self.offset;
        self.offset = self.offset + length;
        let mut i: usize = 0;
        proof {
            assert(self.body@ =~= old(self).body@.subrange(0, offset0 as int).add(
                bytes@.subrange(0, 0),
            ).add(old(self).body@.subrange(offset0 as int, DATA_PAGE_BODY_SIZE as int)));
        }
        while i < bytes.len()
            invariant
                i <= bytes@.len(),
                offset0 + bytes@.len() <= DATA_PAGE_BODY_SIZE,
                self.body@.len() == DATA_PAGE_BODY_SIZE,
                self.page_id == old(self).page_id,
                self.offset == offset0 + bytes@.len(),
                old(self).body@.len() == DATA_PAGE_BODY_SIZE,
                self.body@ == old(self).body@.subrange(0, offset0 as int).add(
                    bytes@.subrange(0, i as int),
                ).add(old(self).body@.subrange(offset0 + i, DATA_PAGE_BODY_SIZE as int)),
            decreases bytes@.len() - i,
        {
            self.body[offset0 as usize + i] = bytes[i];
            proof {
                assert(self.body@ =~= old(self).body@.subrange(0, offset0 as int).add(
                    bytes@.subrange(0, i + 1),
                ).add(old(self).body@.subrange(offset0 + i + 1, DATA_PAGE_BODY_SIZE as int)));
            }
            i = i + 1;
        }
        let link = PageLink { page_id: self.page_id, offset: offset0, length };
        proof {
            assert(bytes@.subrange(0, bytes@.len() as int) =~= bytes@);
            assert(self.body@ =~= spec_splice(old(self).body@, offset0 as int, bytes@));
            assert(self.slot(link) =~= bytes@);
        }
        Ok(link)
    }

    /// Overwrites the row region addressed by `link` in place. The only
    /// supported in-place update: it fails with `InvalidLink` unless the new
    /// serialized length equals the link's length.
    pub fn save_row_by_link(&mut self, bytes: &Vec<u8>, link: PageLink) -> (r: Result<
        PageLink,
        DataExecutionError,
    >)
        requires
            old(self).wf(),
            link.offset + link.length <= old(self).body@.len(),
        ensures
            final(self).wf(),
            final(self).page_id == old(self).page_id,
            final(self).offset == old(self).offset,
            match r {
                Ok(l) => {
                    &&& l == link
                    &&& bytes@.len() == link.length
                    &&& final(self).body@ == spec_splice(old(self).body@, link.offset as int, bytes@)
                    &&& final(self).slot(link) == bytes@
                },
                Err(e) => {
                    &&& bytes@.len() != link.length
                    &&& e == DataExecutionError::InvalidLink
                    &&& *final(self) == *old(self)
                },
            },
    {
        if bytes.len() != link.length as usize {
            return Err(DataExecutionError::InvalidLink);
        }
        let offset0 = link.offset;
        let mut i: usize = 0;
        proof {
            assert(self.body@ =~= old(self).body@.subrange(0, offset0 as int).add(
                bytes@.subrange(0, 0),
            ).add(old(self).body@.subrange(offset0 as int, DATA_PAGE_BODY_SIZE as int)));
        }
        while i < bytes.len()
            invariant
                i <= bytes@.len(),
                offset0 + bytes@.len() <= DATA_PAGE_BODY_SIZE,
                self.body@.len() == DATA_PAGE_BODY_SIZE,
                self.page_id == old(self).page_id,
                self.offset == old(self).offset,
                old(self).body@.len() == DATA_PAGE_BODY_SIZE,
                self.body@ == old(self).body@.subrange(0, offset0 as int).add(
                    bytes@.subrange(0, i as int),
                ).add(old(self).body@.subrange(offset0 + i, DATA_PAGE_BODY_SIZE as int)),
            decreases bytes@.len() - i,
        {
            self.body[offset0 as usize + i] = bytes[i];
            proof {
                assert(self.body@ =~= old(self).body@.subrange(0, offset0 as int).add(
                    bytes@.subrange(0, i + 1),
                ).add(old(self).body@.subrange(offset0 + i + 1, DATA_PAGE_BODY_SIZE as int)));
            }
            i = i + 1;
        }
        proof {
            assert(bytes@.subrange(0, bytes@.len() as int) =~= bytes@);
            assert(self.body@ =~= spec_splice(old(self).body@, offset0 as int, bytes@));
            assert(self.slot(link) =~= bytes@);
        }
        Ok(link)
    }

    /// Overwrites the single byte at position `pos` of the row region
    /// addressed by `link`; used to flip the tombstone flag in place.
    pub fn set_slot_byte(&mut self, link: PageLink, pos: u32, b: u8)
        requires
            old(self).wf(),
            old(self).spec_valid_link(link),
            pos < link.length,
        ensures
            final(self).wf(),
            final(self).page_id == old(self).page_id,
            final(self).offset == old(self).offset,
            final(self).body@ == old(self).body@.update(link.offset + pos, b),
            final(self).slot(link) == old(self).slot(link).update(pos as int, b),
    {
        self.body[link.offset as usize + pos as usize] = b;
        proof {
            assert(self.slot(link) =~= old(self).slot(link).update(pos as int, b));
        }
    }

    /// Returns a zero-copy view of the row bytes addressed by `link`, after
    /// validating that the link lies below the append cursor.
    pub fn get_row_ref(&self, link: PageLink) -> (r: Result<&[u8], DataExecutionError>)
        requires
            self.wf(),
        ensures
            match r {
                Ok(b) => {
                    &&& link.offset <= self.offset
                    &&& link.offset + link.length <= self.body@.len()
                    &&& b@ == self.slot(link)
                },
                Err(e) => {
                    &&& e == DataExecutionError::DeserializeError
                    &&& (link.offset > self.offset || link.offset + link.length
                        > self.body@.len())
                },
            },
    {
        if link.offset > self.offset {
            return Err(DataExecutionError::DeserializeError);
        }
        if link.length as usize > DATA_PAGE_BODY_SIZE - link.offset as usize {
            return Err(DataExecutionError::DeserializeError);
        }
        Ok(
            vstd::slice::slice_subrange(
                self.body.as_slice(),
                link.offset as usize,
                link.offset as usize + link.length as usize,
            ),
        )
    }

    /// Returns an owned copy of the row bytes addressed by `link`.
    pub fn get_row(&self, link: PageLink) -> (r: Result<Vec<u8>, DataExecutionError>)
        requires
            self.wf(),
        ensures
            match r {
                Ok(b) => {
                    &&& link.offset <= self.offset
                    &&& link.offset + link.length <= self.body@.len()
                    &&& b@ == self.slot(link)
                },
                Err(e) => {
                    &&& e == DataExecutionError::DeserializeError
                    &&& (link.offset > self.offset || link.offset + link.length
                        > self.body@.len())
                },
            },
    {
        match self.get_row_ref(link) {
            Ok(b) => Ok(vstd::slice::slice_to_vec(b)),
            Err(e) => Err(e),
        }
    }
}

} // verus!
