//! The table-wide paged store: an ordered collection of data pages plus a
//! free-list of reclaimable links. Inserts fill the tail page and allocate a
//! new page when it is full; deletes tombstone the slot and push its link to
//! the free-list; an insert of a row whose serialized length equals a freed
//! slot's length reuses that slot.

use vstd::prelude::*;
use crate::link::{PageId, PageLink};
use crate::page::{DataPage, DATA_PAGE_BODY_SIZE};

verus! {

/// Error that can escape the paged store to the table.
#[derive(Copy, Clone, Debug, Eq, PartialEq, Structural)]
pub enum PagesExecutionError {
    /// The row bytes could not be produced.
    SerializeError,
    /// The link does not address a readable row.
    DeserializeError,
    /// The link handed to an in-place save or a delete is not valid.
    InvalidLink,
}

/// Two links address non-overlapping row regions.
pub open spec fn links_disjoint(a: PageLink, b: PageLink) -> bool {
    ||| a.page_id != b.page_id
    ||| a.offset + a.length <= b.offset
    ||| b.offset + b.length <= a.offset
}

/// Index of the free-list entry an insert of length `len` reuses: the most
/// recently freed slot of exactly that length.
pub open spec fn find_free(free: Seq<PageLink>, len: nat) -> Option<int>
    decreases free.len(),
{
    if free.len() == 0 {
        None
    } else if free.last().length == len {
        Some(free.len() - 1)
    } else {
        find_free(free.drop_last(), len)
    }
}

pub proof fn lemma_find_free_props(free: Seq<PageLink>, len: nat)
    ensures
        match find_free(free, len) {
            Some(i) => 0 <= i < free.len() && free[i].length == len,
            None => forall|i: int| 0 <= i < free.len() ==> free[i].length != len,
        },
    decreases free.len(),
{
    if free.len() > 0 && free.last().length != len {
        lemma_find_free_props(free.drop_last(), len);
        match find_free(free, len) {
            Some(i) => {
                assert(free.drop_last()[i] == free[i]);
            },
            None => {
                assert forall|i: int| 0 <= i < free.len() implies free[i].length != len by {
                    if i < free.len() - 1 {
                        assert(free.drop_last()[i] == free[i]);
                    }
                }
            },
        }
    }
}

/// A delete followed by an insert of the same serialized length reuses the
/// freed slot: the freed link is the most recently freed of its length, so
/// the insert's slot search picks exactly it.
pub proof fn lemma_equal_size_slot_reuse(free: Seq<PageLink>, l: PageLink)
    ensures
        find_free(free.push(l), l.length as nat) == Some(free.len() as int),
        free.push(l)[free.len() as int] == l,
{
    assert(free.push(l).last() == l);
}

/// A freed slot of a different serialized length is never picked: the
/// insert's slot search behaves as if the slot were not there.
pub proof fn lemma_unequal_size_slot_ignored(free: Seq<PageLink>, l: PageLink, n: nat)
    requires
        n != l.length,
    ensures
        find_free(free.push(l), n) == find_free(free, n),
{
    assert(free.push(l).drop_last() =~= free);
}

/// The ordered collection of data pages and the free-list.
pub struct DataPages {
    /// The pages, in allocation order; `pages[i]` has page id `i`.
    pub pages: Vec<DataPage>,
    /// Links of tombstoned slots available for equal-length reuse.
    pub free: Vec<PageLink>,
}

impl DataPages {
    /// Structural invariant: at least one page, ids sequential, every
    /// free-list entry addresses a written region of an owned page.
    pub open spec fn wf(&self) -> bool {
        &&& 1 <= self.pages@.len() < u32::MAX
        &&& forall|i: int|
            0 <= i < self.pages@.len() ==> (#[trigger] self.pages@[i]).wf()
                && self.pages@[i].page_id == PageId(i as u32)
        &&& forall|i: int|
            0 <= i < self.free@.len() ==> {
                let f = #[trigger] self.free@[i];
                &&& f.length > 0
                &&& f.page_id.0 < self.pages@.len()
                &&& f.offset + f.length <= self.pages@[f.page_id.0 as int].offset
            }
    }

    /// Whether `link` addresses a row region saved in some owned page.
    pub open spec fn spec_valid_link(&self, link: PageLink) -> bool {
        &&& link.page_id.0 < self.pages@.len()
        &&& self.pages@[link.page_id.0 as int].spec_valid_link(link)
    }

    /// The bytes the link addresses.
    pub open spec fn slot(&self, link: PageLink) -> Seq<u8> {
        self.pages@[link.page_id.0 as int].slot(link)
    }

    /// Creates the store with one empty page.
    pub fn new() -> (r: Self)
        ensures
            r.wf(),
            r.pages@.len() == 1,
            r.free@.len() == 0,
            forall|l: PageLink| !r.spec_valid_link(l),
    {
        let mut pages: Vec<DataPage> = Vec::new();
        pages.push(DataPage::new(PageId(0)));
        DataPages { pages, free: Vec::new() }
    }

    /// Saves the serialized row `bytes`, reusing the most recently freed
    /// slot of equal length if one exists, else appending to the tail page,
    /// else allocating a new page. Always succeeds.
    pub fn insert(&mut self, bytes: &Vec<u8>) -> (r: PageLink)
        requires
            old(self).wf(),
            0 < bytes@.len() <= DATA_PAGE_BODY_SIZE,
            old(self).pages@.len() + 1 < u32::MAX,
        ensures
            final(self).wf(),
            final(self).pages@.len() <= old(self).pages@.len() + 1,
            final(self).spec_valid_link(r),
            r.length == bytes@.len(),
            final(self).slot(r) == bytes@,
            forall|l: PageLink|
                old(self).spec_valid_link(l) && links_disjoint(l, r)
                    ==> final(self).spec_valid_link(l) && final(self).slot(l) == old(self).slot(l),
            match find_free(old(self).free@, bytes@.len()) {
                Some(i) => {
                    &&& r == old(self).free@[i]
                    &&& final(self).free@ == old(self).free@.remove(i)
                    &&& final(self).pages@.len() == old(self).pages@.len()
                },
                None => {
                    &&& final(self).free@ == old(self).free@
                    &&& forall|l: PageLink|
                        old(self).spec_valid_link(l) ==> links_disjoint(l, r)
                    &&& forall|i: int|
                        0 <= i < old(self).free@.len() ==> links_disjoint(
                            #[trigger] old(self).free@[i],
                            r,
                        )
                },
            },
    {
        proof {
            lemma_find_free_props(old(self).free@, bytes@.len() as nat);
        }
        // Scan the free-list from the most recent entry for an equal length.
        let mut j: usize = self.free.len();
        proof {
            assert(self.free@.subrange(0, self.free@.len() as int) =~= self.free@);
        }
        while j > 0
            invariant
                j <= self.free@.len(),
                self.wf(),
                self.pages == old(self).pages,
                self.free == old(self).free,
                bytes@.len() <= u32::MAX,
                find_free(self.free@, bytes@.len() as nat) == find_free(
                    self.free@.subrange(0, j as int),
                    bytes@.len() as nat,
                ),
            decreases j,
        {
            proof {
                assert(self.free@.subrange(0, j as int).drop_last() =~= self.free@.subrange(
                    0,
                    j - 1,
                ));
                assert(self.free@.subrange(0, j as int).last() == self.free@[j - 1]);
            }
            if self.free[j - 1].length as usize == bytes.len() {
                let link = self.free[j - 1];
                proof {
                    let f = self.free@[j - 1];
                    assert(f == link);
                    assert(link.length > 0 && link.page_id.0 < self.pages@.len()
                        && link.offset + link.length <= self.pages@[link.page_id.0 as int].offset);
                    assert(self.pages@[link.page_id.0 as int].wf());
                }
                self.free.remove(j - 1);
                proof {
                    assert(find_free(old(self).free@, bytes@.len() as nat) == Some(j - 1));
                }
                let pid = link.page_id.0 as usize;
                let res = self.pages[pid].save_row_by_link(bytes, link);
                proof {
                    assert(final(self).free@ =~= old(self).free@.remove(j - 1));
                }
                match res {
                    Ok(l) => {
                        proof {
                            assert forall|l2: PageLink|
                                old(self).spec_valid_link(l2) && links_disjoint(l2, link)
                                    implies self.spec_valid_link(l2) && self.slot(l2) == old(
                                self,
                            ).slot(l2) by {
                                if l2.page_id == link.page_id {
                                    assert(self.slot(l2) =~= old(self).slot(l2));
                                }
                            }
                        }
                        return l;
                    },
                    Err(_) => {
                        proof {
                            assert(false);
                        }
                        return link;
                    },
                }
            }
            j = j - 1;
        }
        proof {
            assert(self.free@.subrange(0, 0) =~= Seq::<PageLink>::empty());
            assert(find_free(old(self).free@, bytes@.len() as nat) is None);
        }
        // No reusable slot: append to the tail page.
        let last = self.pages.len() - 1;
        let res = self.pages[last].save_row(bytes);
        match res {
            Ok(link) => {
                proof {
                    assert forall|l2: PageLink| old(self).spec_valid_link(l2) implies links_disjoint(
                        l2,
                        link,
                    ) && self.spec_valid_link(l2) && self.slot(l2) == old(self).slot(l2) by {
                        if l2.page_id == link.page_id {
                            assert(self.slot(l2) =~= old(self).slot(l2));
                        }
                    }
                    assert forall|i: int| 0 <= i < old(self).free@.len() implies links_disjoint(
                        #[trigger] old(self).free@[i],
                        link,
                    ) by {}
                }
                link
            },
            Err(_) => {
                // The tail page is full: allocate the next page and save there.
                let mut page = DataPage::new(PageId(self.pages.len() as u32));
                let res2 = page.save_row(bytes);
                match res2 {
                    Ok(link) => {
                        self.pages.push(page);
                        proof {
                            assert forall|l2: PageLink|
                                old(self).spec_valid_link(l2) implies links_disjoint(l2, link)
                                && self.spec_valid_link(l2) && self.slot(l2) == old(self).slot(
                                l2,
                            ) by {
                                assert(self.pages@[l2.page_id.0 as int] == old(
                                    self,
                                ).pages@[l2.page_id.0 as int]);
                            }
                        }
                        link
                    },
                    Err(_) => {
                        proof {
                            assert(false);
                        }
                        PageLink { page_id: PageId(0), offset: 0, length: 0 }
                    },
                }
            },
        }
    }

    /// Returns an owned copy of the row bytes addressed by `link`; fails
    /// with `DeserializeError` exactly when the link is not valid.
    pub fn select(&self, link: PageLink) -> (r: Result<Vec<u8>, PagesExecutionError>)
        requires
            self.wf(),
        ensures
            match r {
                Ok(b) => self.spec_valid_link(link) && b@ == self.slot(link),
                Err(e) => !self.spec_valid_link(link) && e
                    == PagesExecutionError::DeserializeError,
            },
    {
        if link.page_id.0 as usize >= self.pages.len() {
            return Err(PagesExecutionError::DeserializeError);
        }
        let page = &self.pages[link.page_id.0 as usize];
        if link.length == 0 || link.offset > page.offset || link.length > page.offset
            - link.offset {
            return Err(PagesExecutionError::DeserializeError);
        }
        match page.get_row(link) {
            Ok(b) => Ok(b),
            Err(_) => {
                proof {
                    assert(false);
                }
                Err(PagesExecutionError::DeserializeError)
            },
        }
    }

    /// Overwrites the row region addressed by `link` in place; fails with
    /// `InvalidLink` exactly when the link is not valid or the new length
    /// differs from the link's length.
    pub fn update_by_link(&mut self, bytes: &Vec<u8>, link: PageLink) -> (r: Result<
        PageLink,
        PagesExecutionError,
    >)
        requires
            old(self).wf(),
        ensures
            final(self).wf(),
            final(self).free@ == old(self).free@,
            final(self).pages@.len() == old(self).pages@.len(),
            forall|l: PageLink|
                old(self).spec_valid_link(l) ==> final(self).spec_valid_link(l),
            match r {
                Ok(l) => {
                    &&& l == link
                    &&& old(self).spec_valid_link(link)
                    &&& bytes@.len() == link.length
                    &&& final(self).slot(link) == bytes@
                    &&& forall|l2: PageLink|
                        old(self).spec_valid_link(l2) && links_disjoint(l2, link)
                            ==> final(self).slot(l2) == old(self).slot(l2)
                },
                Err(e) => {
                    &&& !(old(self).spec_valid_link(link) && bytes@.len() == link.length)
                    &&& e == PagesExecutionError::InvalidLink
                    &&& *final(self) == *old(self)
                },
            },
    {
        if link.page_id.0 as usize >= self.pages.len() {
            return Err(PagesExecutionError::InvalidLink);
        }
        if link.length == 0 || link.offset > self.pages[link.page_id.0 as usize].offset
            || link.length > self.pages[link.page_id.0 as usize].offset - link.offset {
            return Err(PagesExecutionError::InvalidLink);
        }
        if bytes.len() != link.length as usize {
            return Err(PagesExecutionError::InvalidLink);
        }
        let pid = link.page_id.0 as usize;
        let res = self.pages[pid].save_row_by_link(bytes, link);
        match res {
            Ok(l) => {
                proof {
                    assert forall|l2: PageLink|
                        old(self).spec_valid_link(l2) && links_disjoint(l2, link)
                            implies self.slot(l2) == old(self).slot(l2) by {
                        if l2.page_id == link.page_id {
                            assert(self.slot(l2) =~= old(self).slot(l2));
                        }
                    }
                }
                Ok(l)
            },
            Err(_) => {
                proof {
                    assert(false);
                }
                Err(PagesExecutionError::InvalidLink)
            },
        }
    }

    /// Tombstones the row addressed by `link` and pushes the link onto the
    /// free-list; fails with `InvalidLink` exactly when the link is not
    /// valid.
    pub fn delete(&mut self, link: PageLink) -> (r: Result<(), PagesExecutionError>)
        requires
            old(self).wf(),
        ensures
            final(self).wf(),
            final(self).pages@.len() == old(self).pages@.len(),
            match r {
                Ok(()) => {
                    &&& old(self).spec_valid_link(link)
                    &&& final(self).free@ == old(self).free@.push(link)
                    &&& final(self).slot(link) == old(self).slot(link).update(0, 1u8)
                    &&& forall|l2: PageLink|
                        old(self).spec_valid_link(l2) ==> final(self).spec_valid_link(l2)
                    &&& forall|l2: PageLink|
                        old(self).spec_valid_link(l2) && links_disjoint(l2, link)
                            ==> final(self).slot(l2) == old(self).slot(l2)
                },
                Err(e) => {
                    &&& !old(self).spec_valid_link(link)
                    &&& e == PagesExecutionError::InvalidLink
                    &&& *final(self) == *old(self)
                },
            },
    {
        if link.page_id.0 as usize >= self.pages.len() {
            return Err(PagesExecutionError::InvalidLink);
        }
        if link.length == 0 || link.offset > self.pages[link.page_id.0 as usize].offset
            || link.length > self.pages[link.page_id.0 as usize].offset - link.offset {
            return Err(PagesExecutionError::InvalidLink);
        }
        let pid = link.page_id.0 as usize;
        self.pages[pid].set_slot_byte(link, 0, 1);
        self.free.push(link);
        proof {
            assert forall|l2: PageLink|
                old(self).spec_valid_link(l2) && links_disjoint(l2, link) implies self.slot(l2)
                == old(self).slot(l2) by {
                if l2.page_id == link.page_id {
                    assert(self.slot(l2) =~= old(self).slot(l2));
                }
            }
        }
        Ok(())
    }
}

} // verus!
