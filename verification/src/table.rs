//! The table handle: the paged store, the primary-key map, the secondary
//! indexes, the primary-key generator and the lock map, with the table
//! operations and their contracts over the table's row model.

use vstd::prelude::*;
use crate::link::PageLink;
use crate::page::DATA_PAGE_BODY_SIZE;
use crate::pages::{DataPages, PagesExecutionError, links_disjoint, find_free};
use crate::row::{
    TestRow, TestRowWrapper, RowModel, WrapperModel, spec_dec_wrapper,
    lemma_wrapper_codec_roundtrip, WRAPPER_FIXED_SIZE, TableRow, RowWrapper,
};
use crate::index::{
    PkMapTree, UniqueIndexTree, NonUniqueIndexTree, pk_map_view, unique_index_view,
    non_unique_index_view, bucket_of, pk_map_new, pk_map_insert, pk_map_peek, pk_map_remove,
    pk_map_entries, unique_index_new, unique_index_insert, unique_index_peek, unique_index_remove,
    non_unique_index_new, non_unique_index_add, non_unique_index_remove, non_unique_index_get,
};
use crate::lock::{LockMap, LockId};

verus! {

/// Error a table operation can return.
#[derive(Copy, Clone, Debug, Eq, PartialEq, Structural)]
pub enum WorkTableError {
    /// The key is absent from the relevant index on a required lookup.
    NotFound,
    /// A unique constraint was violated, on the primary key or on a unique
    /// secondary key.
    AlreadyExists,
    /// The row could not be serialized.
    SerializeError,
    /// An error propagated from the paged store.
    PagesError(PagesExecutionError),
}

/// Field tag of the `another` column in the lock map, following the
/// declared column order.
pub const FIELD_ANOTHER: u16 = 2;

/// A prepared update: set `another` on the row with a given primary key.
#[derive(Copy, Clone, Debug, PartialEq, Eq, Structural)]
pub struct AnotherByIdQuery {
    pub another: u64,
}

/// A prepared update: set `another` on the row with a given `test` key.
#[derive(Copy, Clone, Debug, PartialEq, Eq, Structural)]
pub struct AnotherByTestQuery {
    pub another: u64,
}

/// A prepared update: set `another` on every row with a given `exchange`
/// key.
#[derive(Copy, Clone, Debug, PartialEq, Eq, Structural)]
pub struct AnotherByExchangeQuery {
    pub another: u64,
}

/// The secondary indexes the table schema declares: a unique index on the
/// `test` column and a non-unique index on the `exchange` column.
pub struct TestIndexes {
    pub test_idx: UniqueIndexTree,
    pub exchange_idx: NonUniqueIndexTree,
}

impl TestIndexes {
    /// Looks a declared index up by its byte name.
    pub fn index_by_name(&self, name: &Vec<u8>) -> (r: Option<crate::index::IndexType>)
        ensures
            name@ == crate::persist::spec_test_idx_name() ==> (r matches Some(
                crate::index::IndexType::Unique(t),
            ) && t == &self.test_idx),
            name@ == crate::persist::spec_exchange_idx_name() ==> (r matches Some(
                crate::index::IndexType::NonUnique(t),
            ) && t == &self.exchange_idx),
            name@ != crate::persist::spec_test_idx_name() && name@
                != crate::persist::spec_exchange_idx_name() ==> r is None,
    {
        if crate::row::bytes_eq(name, &crate::persist::test_idx_name()) {
            Some(crate::index::IndexType::Unique(&self.test_idx))
        } else if crate::row::bytes_eq(name, &crate::persist::exchange_idx_name()) {
            Some(crate::index::IndexType::NonUnique(&self.exchange_idx))
        } else {
            None
        }
    }
}

/// The table: the paged row store, the primary-key map, the secondary
/// indexes, the primary-key generator and the per-field lock map.
pub struct WorkTable {
    pub data: DataPages,
    pub pk_map: PkMapTree,
    pub indexes: TestIndexes,
    pub pk_gen: u64,
    pub lock_map: LockMap,
}

impl WorkTable {
    /// The primary-key map's contents: primary key to row link.
    pub open spec fn links(&self) -> Map<u64, PageLink> {
        pk_map_view(self.pk_map)
    }

    /// The unique secondary index's contents: `test` value to row link.
    pub open spec fn uq(&self) -> Map<i64, PageLink> {
        unique_index_view(self.indexes.test_idx)
    }

    /// The non-unique secondary index's contents: `exchange` bytes to the
    /// set of links of the rows carrying them.
    pub open spec fn nu(&self) -> Map<Seq<u8>, Set<PageLink>> {
        non_unique_index_view(self.indexes.exchange_idx)
    }

    /// The stored wrapper a link addresses.
    pub open spec fn wrapper_at(&self, l: PageLink) -> WrapperModel {
        spec_dec_wrapper(self.data.slot(l))->0
    }

    /// The row a link addresses.
    pub open spec fn row_at(&self, l: PageLink) -> RowModel {
        self.wrapper_at(l).inner
    }

    /// The table's rows, as a map from primary key to row value. This is
    /// the model every operation's contract speaks of.
    pub open spec fn rows(&self) -> Map<u64, RowModel> {
        Map::new(
            |pk: u64| self.links().contains_key(pk),
            |pk: u64| self.row_at(self.links()[pk]),
        )
    }

    /// The link of `pk` holds a live, well-formed serialized row whose
    /// primary key is `pk`.
    pub open spec fn slot_ok(&self, pk: u64) -> bool {
        let l = self.links()[pk];
        &&& self.data.spec_valid_link(l)
        &&& spec_dec_wrapper(self.data.slot(l)) is Some
        &&& !self.wrapper_at(l).is_deleted
        &&& self.wrapper_at(l).inner.id == pk
    }

    /// Every live link is valid and the links of rows and of freed slots
    /// never overlap one another.
    pub open spec fn links_ok(&self) -> bool {
        &&& forall|pk: u64| #[trigger] self.links().contains_key(pk) ==> self.slot_ok(pk)
        &&& forall|p1: u64, p2: u64|
            self.links().contains_key(p1) && self.links().contains_key(p2) && p1 != p2
                ==> links_disjoint(#[trigger] self.links()[p1], #[trigger] self.links()[p2])
        &&& forall|pk: u64, i: int|
            #[trigger] self.links().contains_key(pk) && 0 <= i < self.data.free@.len()
                ==> links_disjoint(self.links()[pk], #[trigger] self.data.free@[i])
        &&& forall|i: int, j: int|
            0 <= i < j < self.data.free@.len() ==> links_disjoint(
                #[trigger] self.data.free@[i],
                #[trigger] self.data.free@[j],
            )
    }

    /// The unique index holds exactly the rows' `test` values, each mapped
    /// to its row's link.
    pub open spec fn uq_ok(&self) -> bool {
        &&& forall|pk: u64|
            #[trigger] self.links().contains_key(pk) ==> self.uq().contains_key(
                self.row_at(self.links()[pk]).test,
            ) && self.uq()[self.row_at(self.links()[pk]).test] == self.links()[pk]
        &&& forall|t: i64|
            #[trigger] self.uq().contains_key(t) ==> exists|pk: u64|
                #[trigger] self.links().contains_key(pk) && self.row_at(self.links()[pk]).test == t
    }

    /// The non-unique index's bucket of key `k` holds exactly the links of
    /// the rows whose `exchange` is `k`.
    pub open spec fn nu_ok(&self) -> bool {
        &&& forall|k: Seq<u8>| #[trigger] self.nu().contains_key(k) ==> !self.nu()[k].is_empty()
        &&& forall|pk: u64|
            #[trigger] self.links().contains_key(pk) ==> self.nu().contains_key(
                self.row_at(self.links()[pk]).exchange,
            ) && self.nu()[self.row_at(self.links()[pk]).exchange].contains(self.links()[pk])
        &&& forall|k: Seq<u8>, l: PageLink|
            self.nu().contains_key(k) && #[trigger] self.nu()[k].contains(l) ==> exists|pk: u64|
                #[trigger] self.links().contains_key(pk) && self.links()[pk] == l && self.row_at(
                    self.links()[pk],
                ).exchange == k
    }

    /// The table's invariant: every constructor establishes it and every
    /// operation preserves it.
    pub open spec fn wf(&self) -> bool {
        &&& self.data.wf()
        &&& self.links_ok()
        &&& self.uq_ok()
        &&& self.nu_ok()
        &&& self.lock_map.wf()
        &&& self.lock_map.entries@.len() == 0
    }

    /// Creates an empty table.
    pub fn new() -> (r: Self)
        ensures
            r.wf(),
            r.rows() == Map::<u64, RowModel>::empty(),
            r.uq() == Map::<i64, PageLink>::empty(),
            r.nu() == Map::<Seq<u8>, Set<PageLink>>::empty(),
            r.pk_gen == 0,
            r.data.free@.len() == 0,
            r.data.pages@.len() == 1,
    {
        let t = WorkTable {
            data: DataPages::new(),
            pk_map: pk_map_new(),
            indexes: TestIndexes { test_idx: unique_index_new(), exchange_idx: non_unique_index_new() },
            pk_gen: 0,
            lock_map: LockMap::new(),
        };
        proof {
            assert(t.links() =~= Map::<u64, PageLink>::empty());
            assert(t.uq() =~= Map::<i64, PageLink>::empty());
            assert(t.nu() =~= Map::<Seq<u8>, Set<PageLink>>::empty());
            assert(t.rows() =~= Map::<u64, RowModel>::empty());
        }
        t
    }

    /// Draws the next primary key from the generator; monotonic.
    pub fn get_next_pk(&mut self) -> (r: u64)
        requires
            old(self).pk_gen < u64::MAX,
        ensures
            r == old(self).pk_gen,
            final(self).pk_gen == old(self).pk_gen + 1,
            final(self).data == old(self).data,
            final(self).pk_map == old(self).pk_map,
            final(self).indexes == old(self).indexes,
            final(self).lock_map == old(self).lock_map,
            old(self).wf() ==> final(self).wf(),
            final(self).rows() == old(self).rows(),
    {
        let pk = self.pk_gen;
        self.pk_gen = self.pk_gen + 1;
        proof {
            if old(self).wf() {
                lemma_wf_core(*old(self), *self);
            }
        }
        pk
    }

    /// The link under which `pk`'s row is stored, if any.
    pub fn peek_link(&self, pk: u64) -> (r: Option<PageLink>)
        ensures
            r == if self.links().contains_key(pk) {
                Some(self.links()[pk])
            } else {
                None::<PageLink>
            },
    {
        pk_map_peek(&self.pk_map, &pk)
    }

    /// Selects the row stored under primary key `pk`: `Some` exactly when
    /// the key is present, and then the row the table's model holds for it.
    pub fn select(&self, pk: u64) -> (r: Option<TestRow>)
        requires
            self.wf(),
        ensures
            match r {
                Some(row) => self.rows().contains_key(pk) && row@ == self.rows()[pk],
                None => !self.rows().contains_key(pk),
            },
    {
        let link = match pk_map_peek(&self.pk_map, &pk) {
            Some(l) => l,
            None => {
                return None;
            },
        };
        proof {
            assert(self.links().contains_key(pk));
            assert(self.slot_ok(pk));
        }
        let bytes = match self.data.select(link) {
            Ok(b) => b,
            Err(_) => {
                proof {
                    assert(false);
                }
                return None;
            },
        };
        match TestRowWrapper::decode(bytes.as_slice()) {
            Ok(w) => Some(w.get_inner()),
            Err(_) => {
                proof {
                    assert(false);
                }
                None
            },
        }
    }

    /// Inserts `row` under its own primary key. Fails with `AlreadyExists`,
    /// leaving the table's model unchanged, exactly when the primary key or
    /// the row's `test` value is already present; on success the model gains
    /// exactly this row. A freed slot of equal serialized length is reused,
    /// most recently freed first; otherwise the row gets a fresh slot that
    /// coincides with no freed one.
    pub fn insert(&mut self, row: TestRow) -> (r: Result<u64, WorkTableError>)
        requires
            old(self).wf(),
            WRAPPER_FIXED_SIZE + row.exchange@.len() <= DATA_PAGE_BODY_SIZE,
            old(self).data.pages@.len() + 1 < u32::MAX,
        ensures
            final(self).wf(),
            final(self).pk_gen == old(self).pk_gen,
            final(self).data.pages@.len() <= old(self).data.pages@.len() + 1,
            match r {
                Ok(pk) => {
                    &&& pk == row.id
                    &&& !old(self).rows().contains_key(row.id)
                    &&& !old(self).uq().contains_key(row.test)
                    &&& final(self).rows() == old(self).rows().insert(row.id, row@)
                    &&& final(self).links().contains_key(row.id)
                    &&& final(self).wrapper_at(final(self).links()[row.id]) == (WrapperModel {
                        inner: row@,
                        is_deleted: false,
                        id_lock: 0,
                        test_lock: 0,
                        another_lock: 0,
                        exchange_lock: 0,
                    })
                    &&& final(self).uq() == old(self).uq().insert(
                        row.test,
                        final(self).links()[row.id],
                    )
                    &&& final(self).nu() == old(self).nu().insert(
                        row.exchange@,
                        bucket_of(old(self).nu(), row.exchange@).insert(
                            final(self).links()[row.id],
                        ),
                    )
                    &&& match find_free(
                        old(self).data.free@,
                        (WRAPPER_FIXED_SIZE + row.exchange@.len()) as nat,
                    ) {
                        Some(i) => final(self).links()[row.id] == old(self).data.free@[i]
                            && final(self).data.free@ == old(self).data.free@.remove(i),
                        None => final(self).data.free@ == old(self).data.free@ && forall|i: int|
                            0 <= i < old(self).data.free@.len() ==> final(self).links()[row.id]
                                != #[trigger] old(self).data.free@[i],
                    }
                },
                Err(e) => {
                    &&& e == WorkTableError::AlreadyExists
                    &&& old(self).rows().contains_key(row.id) || old(self).uq().contains_key(
                        row.test,
                    )
                    &&& final(self).rows() == old(self).rows()
                    &&& final(self).links() == old(self).links()
                    &&& final(self).uq() == old(self).uq()
                    &&& final(self).nu() == old(self).nu()
                },
            },
    {
        let ghost pre = *self;
        let pk = row.get_primary_key();
        let wrapper = TestRowWrapper::from_inner(row);
        let bytes = wrapper.encode();
        proof {
            lemma_wrapper_codec_roundtrip(wrapper@);
        }
        let link = self.data.insert(&bytes);
        let ghost mid = *self;
        proof {
            lemma_data_insert_frame(pre, mid, link, bytes@);
            lemma_rows_unchanged_when_links_kept(pre, mid);
        }
        if !pk_map_insert(&mut self.pk_map, pk, link) {
            // The primary key exists: roll the row write back.
            let res = self.data.delete(link);
            proof {
                assert(res is Ok);
                lemma_insert_rollback(pre, mid, *self, link);
            }
            return Err(WorkTableError::AlreadyExists);
        }
        if !unique_index_insert(&mut self.indexes.test_idx, wrapper.inner.test, link) {
            // The unique `test` key exists: roll the primary-key entry and
            // the row write back.
            pk_map_remove(&mut self.pk_map, &pk);
            proof {
                assert(self.links() =~= pre.links());
            }
            let res = self.data.delete(link);
            proof {
                assert(res is Ok);
                lemma_insert_rollback(pre, mid, *self, link);
            }
            return Err(WorkTableError::AlreadyExists);
        }
        non_unique_index_add(&mut self.indexes.exchange_idx, &wrapper.inner.exchange, link);
        proof {
            lemma_insert_success(pre, mid, *self, row@, link);
        }
        Ok(pk)
    }

    /// Deletes the row stored under `pk`: tombstones its slot, pushes its
    /// link onto the free-list and removes it from the primary-key map and
    /// from every secondary index, dropping an emptied non-unique bucket.
    /// Fails with `NotFound`, changing nothing, exactly when `pk` is absent.
    pub fn delete(&mut self, pk: u64) -> (r: Result<(), WorkTableError>)
        requires
            old(self).wf(),
        ensures
            final(self).wf(),
            final(self).pk_gen == old(self).pk_gen,
            match r {
                Ok(()) => {
                    &&& old(self).rows().contains_key(pk)
                    &&& final(self).rows() == old(self).rows().remove(pk)
                    &&& final(self).links() == old(self).links().remove(pk)
                    &&& final(self).uq() == old(self).uq().remove(old(self).rows()[pk].test)
                    &&& final(self).nu() == {
                        let k = old(self).rows()[pk].exchange;
                        let b = bucket_of(old(self).nu(), k).remove(old(self).links()[pk]);
                        if b.is_empty() {
                            old(self).nu().remove(k)
                        } else {
                            old(self).nu().insert(k, b)
                        }
                    }
                    &&& final(self).data.free@ == old(self).data.free@.push(old(self).links()[pk])
                    &&& final(self).data.pages@.len() == old(self).data.pages@.len()
                },
                Err(e) => {
                    &&& e == WorkTableError::NotFound
                    &&& !old(self).rows().contains_key(pk)
                    &&& *final(self) == *old(self)
                },
            },
    {
        let ghost pre = *self;
        let link = match pk_map_peek(&self.pk_map, &pk) {
            Some(l) => l,
            None => {
                return Err(WorkTableError::NotFound);
            },
        };
        proof {
            assert(self.links().contains_key(pk));
            assert(self.slot_ok(pk));
        }
        // Read the stored row to learn its index keys before tombstoning.
        let bytes = match self.data.select(link) {
            Ok(b) => b,
            Err(_) => {
                proof {
                    assert(false);
                }
                return Err(WorkTableError::NotFound);
            },
        };
        let wrapper = match TestRowWrapper::decode(bytes.as_slice()) {
            Ok(w) => w,
            Err(_) => {
                proof {
                    assert(false);
                }
                return Err(WorkTableError::NotFound);
            },
        };
        pk_map_remove(&mut self.pk_map, &pk);
        unique_index_remove(&mut self.indexes.test_idx, &wrapper.inner.test);
        non_unique_index_remove(&mut self.indexes.exchange_idx, &wrapper.inner.exchange, &link);
        let res = self.data.delete(link);
        proof {
            assert(res is Ok);
            lemma_delete_wf(pre, *self, pk, link);
        }
        Ok(())
    }

    /// Selects the one row whose unique `test` key is `t`: `Some` exactly
    /// when such a row exists.
    pub fn select_by_test(&self, t: i64) -> (r: Option<TestRow>)
        requires
            self.wf(),
        ensures
            match r {
                Some(row) => self.rows().contains_key(row@.id) && self.rows()[row@.id] == row@
                    && row@.test == t,
                None => forall|pk: u64|
                    #[trigger] self.rows().contains_key(pk) ==> self.rows()[pk].test != t,
            },
    {
        let link = match unique_index_peek(&self.indexes.test_idx, &t) {
            Some(l) => l,
            None => {
                proof {
                    assert forall|pk: u64| #[trigger] self.rows().contains_key(pk) implies
                        self.rows()[pk].test != t by {
                        assert(self.links().contains_key(pk));
                    }
                }
                return None;
            },
        };
        proof {
            assert(self.uq().contains_key(t));
            assert(exists|pk: u64|
                #[trigger] self.links().contains_key(pk) && self.row_at(self.links()[pk]).test
                    == t);
            let pk = choose|pk: u64|
                #[trigger] self.links().contains_key(pk) && self.row_at(self.links()[pk]).test
                    == t;
            assert(self.uq()[self.row_at(self.links()[pk]).test] == self.links()[pk]);
            assert(self.links()[pk] == link);
            assert(self.slot_ok(pk));
        }
        let bytes = match self.data.select(link) {
            Ok(b) => b,
            Err(_) => {
                proof {
                    assert(false);
                }
                return None;
            },
        };
        match TestRowWrapper::decode(bytes.as_slice()) {
            Ok(w) => {
                proof {
                    let pk = choose|pk: u64|
                        #[trigger] self.links().contains_key(pk) && self.row_at(
                            self.links()[pk],
                        ).test == t;
                    assert(self.slot_ok(pk));
                    assert(self.links()[pk] == link);
                    assert(w@ == spec_dec_wrapper(self.data.slot(link))->0);
                    assert(w@.inner == self.rows()[pk]);
                    assert(w@.inner.id == pk);
                    assert(w@.inner.test == t);
                }
                Some(w.get_inner())
            },
            Err(_) => {
                proof {
                    assert(false);
                }
                None
            },
        }
    }

    /// Selects every row whose non-unique `exchange` key is `k`, in no
    /// promised order; fails with `NotFound` exactly when no bucket exists
    /// for `k`.
    pub fn select_by_exchange(&self, k: &Vec<u8>) -> (r: Result<Vec<TestRow>, WorkTableError>)
        requires
            self.wf(),
        ensures
            match r {
                Ok(v) => {
                    &&& self.nu().contains_key(k@)
                    &&& v@.len() == self.nu()[k@].len()
                    &&& forall|i: int|
                        0 <= i < v@.len() ==> self.rows().contains_key(
                            (#[trigger] v@[i])@.id,
                        ) && self.rows()[v@[i]@.id] == v@[i]@ && v@[i]@.exchange == k@
                    &&& forall|pk: u64|
                        #[trigger] self.rows().contains_key(pk) && self.rows()[pk].exchange == k@
                            ==> exists|i: int| 0 <= i < v@.len() && (#[trigger] v@[i])@.id == pk
                },
                Err(e) => {
                    &&& e == WorkTableError::NotFound
                    &&& !self.nu().contains_key(k@)
                },
            },
    {
        let lv = match non_unique_index_get(&self.indexes.exchange_idx, k) {
            Some(lv) => lv,
            None => {
                return Err(WorkTableError::NotFound);
            },
        };
        let mut out: Vec<TestRow> = Vec::new();
        let mut i: usize = 0;
        while i < lv.len()
            invariant
                self.wf(),
                i <= lv@.len(),
                lv@.to_set() == self.nu()[k@],
                self.nu().contains_key(k@),
                out@.len() == i,
                forall|j: int| 0 <= j < i ==> (#[trigger] out@[j])@ == self.row_at(lv@[j]),
            decreases lv@.len() - i,
        {
            let link = lv[i];
            proof {
                assert(lv@.to_set().contains(link));
                assert(self.nu()[k@].contains(link));
                assert(exists|pk: u64|
                    #[trigger] self.links().contains_key(pk) && self.links()[pk] == link
                        && self.row_at(self.links()[pk]).exchange == k@);
                let pk = choose|pk: u64|
                    #[trigger] self.links().contains_key(pk) && self.links()[pk] == link
                        && self.row_at(self.links()[pk]).exchange == k@;
                assert(self.slot_ok(pk));
            }
            let bytes = match self.data.select(link) {
                Ok(b) => b,
                Err(_) => {
                    proof {
                        assert(false);
                    }
                    return Err(WorkTableError::NotFound);
                },
            };
            match TestRowWrapper::decode(bytes.as_slice()) {
                Ok(w) => {
                    out.push(w.get_inner());
                    proof {
                        assert(out@[i as int]@ == self.row_at(lv@[i as int]));
                    }
                },
                Err(_) => {
                    proof {
                        assert(false);
                    }
                    return Err(WorkTableError::NotFound);
                },
            }
            i = i + 1;
        }
        proof {
            lv@.unique_seq_to_set();
            assert forall|i2: int| 0 <= i2 < out@.len() implies self.rows().contains_key(
                (#[trigger] out@[i2])@.id,
            ) && self.rows()[out@[i2]@.id] == out@[i2]@ && out@[i2]@.exchange == k@ by {
                assert(lv@.to_set().contains(lv@[i2]));
                assert(self.nu()[k@].contains(lv@[i2]));
                assert(exists|pk: u64|
                    #[trigger] self.links().contains_key(pk) && self.links()[pk] == lv@[i2]
                        && self.row_at(self.links()[pk]).exchange == k@);
                let pk = choose|pk: u64|
                    #[trigger] self.links().contains_key(pk) && self.links()[pk] == lv@[i2]
                        && self.row_at(self.links()[pk]).exchange == k@;
                assert(self.slot_ok(pk));
                assert(out@[i2]@ == self.rows()[pk]);
                assert(out@[i2]@.id == pk);
            }
            assert forall|pk: u64|
                #[trigger] self.rows().contains_key(pk) && self.rows()[pk].exchange == k@ implies
                exists|i2: int| 0 <= i2 < out@.len() && (#[trigger] out@[i2])@.id == pk by {
                assert(self.links().contains_key(pk));
                assert(self.nu()[self.rows()[pk].exchange].contains(self.links()[pk]));
                assert(lv@.to_set().contains(self.links()[pk]));
                let j = choose|j: int| 0 <= j < lv@.len() && lv@[j] == self.links()[pk];
                assert(out@[j]@ == self.row_at(lv@[j]));
                assert(self.slot_ok(pk));
                assert(out@[j]@.id == pk);
            }
        }
        Ok(out)
    }

    /// What a full scan returns: every row of the table, each exactly once,
    /// in strictly ascending primary-key order.
    pub open spec fn spec_select_all(&self, v: Seq<TestRow>) -> bool {
        &&& forall|i: int|
            0 <= i < v.len() ==> self.rows().contains_key((#[trigger] v[i])@.id)
                && self.rows()[v[i]@.id] == v[i]@
        &&& forall|i: int, j: int|
            0 <= i < j < v.len() ==> (#[trigger] v[i])@.id < (#[trigger] v[j])@.id
        &&& forall|pk: u64|
            #[trigger] self.rows().contains_key(pk) ==> exists|i: int|
                0 <= i < v.len() && (#[trigger] v[i])@.id == pk
    }

    /// Selects every row of the table, in ascending primary-key order.
    pub fn select_all(&self) -> (r: Result<Vec<TestRow>, WorkTableError>)
        requires
            self.wf(),
        ensures
            r is Ok,
            r matches Ok(v) ==> self.spec_select_all(v@),
    {
        let entries = pk_map_entries(&self.pk_map);
        let mut out: Vec<TestRow> = Vec::new();
        let mut i: usize = 0;
        while i < entries.len()
            invariant
                self.wf(),
                i <= entries@.len(),
                out@.len() == i,
                forall|j: int|
                    0 <= j < entries@.len() ==> self.links().contains_key(
                        (#[trigger] entries@[j]).0,
                    ) && self.links()[entries@[j].0] == entries@[j].1,
                forall|j1: int, j2: int|
                    0 <= j1 < j2 < entries@.len() ==> #[trigger] entries@[j1].0
                        < #[trigger] entries@[j2].0,
                forall|pk: u64|
                    #[trigger] self.links().contains_key(pk) ==> exists|j: int|
                        0 <= j < entries@.len() && #[trigger] entries@[j].0 == pk,
                forall|j: int|
                    0 <= j < i ==> (#[trigger] out@[j])@ == self.row_at(entries@[j].1)
                        && out@[j]@.id == entries@[j].0,
            decreases entries@.len() - i,
        {
            let e = entries[i];
            proof {
                assert(self.links().contains_key(e.0));
                assert(self.slot_ok(e.0));
            }
            let bytes = match self.data.select(e.1) {
                Ok(b) => b,
                Err(_) => {
                    proof {
                        assert(false);
                    }
                    return Err(WorkTableError::NotFound);
                },
            };
            match TestRowWrapper::decode(bytes.as_slice()) {
                Ok(w) => {
                    out.push(w.get_inner());
                    proof {
                        assert(out@[i as int]@ == self.row_at(entries@[i as int].1));
                        assert(out@[i as int]@.id == entries@[i as int].0);
                    }
                },
                Err(_) => {
                    proof {
                        assert(false);
                    }
                    return Err(WorkTableError::NotFound);
                },
            }
            i = i + 1;
        }
        proof {
            assert forall|i2: int| 0 <= i2 < out@.len() implies self.rows().contains_key(
                (#[trigger] out@[i2])@.id,
            ) && self.rows()[out@[i2]@.id] == out@[i2]@ by {
                assert(self.links().contains_key(entries@[i2].0));
                assert(self.slot_ok(entries@[i2].0));
            }
            assert forall|pk: u64| #[trigger] self.rows().contains_key(pk) implies exists|i2: int|
                0 <= i2 < out@.len() && (#[trigger] out@[i2])@.id == pk by {
                assert(self.links().contains_key(pk));
                let j = choose|j: int|
                    0 <= j < entries@.len() && #[trigger] entries@[j].0 == pk;
                assert(out@[j]@.id == pk);
            }
            assert forall|i2: int, j2: int| 0 <= i2 < j2 < out@.len() implies (
            #[trigger] out@[i2])@.id < (#[trigger] out@[j2])@.id by {
                assert(entries@[i2].0 < entries@[j2].0);
                assert(out@[i2]@.id == entries@[i2].0);
                assert(out@[j2]@.id == entries@[j2].0);
            }
            assert(self.spec_select_all(out@));
        }
        Ok(out)
    }

    /// Overwrites the `another` column of the row stored at `link` in
    /// place, under the field's lock: the column is fixed-width, so the
    /// serialized length cannot change.
    fn set_another_at(&mut self, pk: u64, link: PageLink, v: u64)
        requires
            old(self).wf(),
            old(self).links().contains_key(pk),
            link == old(self).links()[pk],
        ensures
            final(self).wf(),
            final(self).rows() == old(self).rows().insert(
                pk,
                upd_another(old(self).rows()[pk], v),
            ),
            final(self).links() == old(self).links(),
            final(self).uq() == old(self).uq(),
            final(self).nu() == old(self).nu(),
            final(self).data.free@ == old(self).data.free@,
            final(self).data.pages@.len() == old(self).data.pages@.len(),
            final(self).pk_gen == old(self).pk_gen,
    {
        let ghost pre = *self;
        proof {
            assert(self.slot_ok(pk));
        }
        let lock_id = self.lock_map.next_id;
        let acquired = self.lock_map.acquire(pk, FIELD_ANOTHER, LockId(lock_id));
        proof {
            assert(pre.lock_map.view() =~= Map::<(u64, u16), LockId>::empty()) by {
                if pre.lock_map.view().dom() =~= Set::<(u64, u16)>::empty() {
                } else {
                    let k = pre.lock_map.view().dom().choose();
                    crate::lock::lemma_entries_map_contains(pre.lock_map.entries@, k);
                }
            }
            assert(acquired);
        }
        let bytes = match self.data.select(link) {
            Ok(b) => b,
            Err(_) => {
                proof {
                    assert(false);
                }
                return ;
            },
        };
        let wrapper = match TestRowWrapper::decode(bytes.as_slice()) {
            Ok(w) => w,
            Err(_) => {
                proof {
                    assert(false);
                }
                return ;
            },
        };
        let is_deleted = wrapper.is_deleted;
        let id_lock = wrapper.id_lock;
        let test_lock = wrapper.test_lock;
        let another_lock = wrapper.another_lock;
        let exchange_lock = wrapper.exchange_lock;
        let inner = wrapper.get_inner();
        let updated = TestRowWrapper {
            inner: TestRow { id: inner.id, test: inner.test, another: v, exchange: inner.exchange },
            is_deleted,
            id_lock,
            test_lock,
            another_lock,
            exchange_lock,
        };
        proof {
            assert(updated.inner.exchange@.len() <= u32::MAX) by {
                assert(self.data.slot(link).len() == link.length);
            }
            lemma_wrapper_codec_roundtrip(updated@);
        }
        let new_bytes = updated.encode();
        proof {
            assert(new_bytes@.len() == link.length) by {
                assert(self.data.slot(link).len() == link.length);
            }
        }
        let res = self.data.update_by_link(&new_bytes, link);
        proof {
            assert(res is Ok);
        }
        self.lock_map.release(pk, FIELD_ANOTHER);
        proof {
            assert(self.lock_map.view() =~= pre.lock_map.view());
            lemma_update_in_place(pre, *self, pk, link, updated@.inner);
        }
    }

    /// Sets `another` on the row stored under primary key `pk`; fails with
    /// `NotFound`, changing nothing, exactly when `pk` is absent.
    pub fn update_another_by_id(&mut self, q: AnotherByIdQuery, pk: u64) -> (r: Result<
        (),
        WorkTableError,
    >)
        requires
            old(self).wf(),
        ensures
            final(self).wf(),
            final(self).pk_gen == old(self).pk_gen,
            final(self).data.pages@.len() == old(self).data.pages@.len(),
            match r {
                Ok(()) => old(self).rows().contains_key(pk) && final(self).rows() == old(
                    self,
                ).rows().insert(pk, upd_another(old(self).rows()[pk], q.another)),
                Err(e) => e == WorkTableError::NotFound && !old(self).rows().contains_key(pk)
                    && *final(self) == *old(self),
            },
    {
        let link = match pk_map_peek(&self.pk_map, &pk) {
            Some(l) => l,
            None => {
                return Err(WorkTableError::NotFound);
            },
        };
        self.set_another_at(pk, link, q.another);
        Ok(())
    }

    /// Sets `another` on the one row whose unique `test` key is `t`; fails
    /// with `NotFound`, changing nothing, exactly when no row carries `t`.
    pub fn update_another_by_test(&mut self, q: AnotherByTestQuery, t: i64) -> (r: Result<
        (),
        WorkTableError,
    >)
        requires
            old(self).wf(),
        ensures
            final(self).wf(),
            final(self).pk_gen == old(self).pk_gen,
            final(self).data.pages@.len() == old(self).data.pages@.len(),
            match r {
                Ok(()) => exists|pk: u64|
                    {
                        &&& #[trigger] old(self).rows().contains_key(pk)
                        &&& old(self).rows()[pk].test == t
                        &&& final(self).rows() == old(self).rows().insert(
                            pk,
                            upd_another(old(self).rows()[pk], q.another),
                        )
                    },
                Err(e) => {
                    &&& e == WorkTableError::NotFound
                    &&& forall|pk: u64|
                        #[trigger] old(self).rows().contains_key(pk) ==> old(self).rows()[pk].test
                            != t
                    &&& *final(self) == *old(self)
                },
            },
    {
        let link = match unique_index_peek(&self.indexes.test_idx, &t) {
            Some(l) => l,
            None => {
                proof {
                    assert forall|pk: u64| #[trigger] self.rows().contains_key(pk) implies
                        self.rows()[pk].test != t by {
                        assert(self.links().contains_key(pk));
                    }
                }
                return Err(WorkTableError::NotFound);
            },
        };
        proof {
            assert(self.uq().contains_key(t));
            assert(exists|pk: u64|
                #[trigger] self.links().contains_key(pk) && self.row_at(self.links()[pk]).test
                    == t);
            let pk = choose|pk: u64|
                #[trigger] self.links().contains_key(pk) && self.row_at(self.links()[pk]).test
                    == t;
            assert(self.uq()[self.row_at(self.links()[pk]).test] == self.links()[pk]);
            assert(self.links()[pk] == link);
            assert(self.slot_ok(pk));
        }
        let bytes = match self.data.select(link) {
            Ok(b) => b,
            Err(_) => {
                proof {
                    assert(false);
                }
                return Err(WorkTableError::NotFound);
            },
        };
        let wrapper = match TestRowWrapper::decode(bytes.as_slice()) {
            Ok(w) => w,
            Err(_) => {
                proof {
                    assert(false);
                }
                return Err(WorkTableError::NotFound);
            },
        };
        let pk = wrapper.inner.id;
        proof {
            let pk0 = choose|pk0: u64|
                #[trigger] self.links().contains_key(pk0) && self.row_at(self.links()[pk0]).test
                    == t;
            assert(wrapper@ == spec_dec_wrapper(self.data.slot(link))->0);
            assert(pk == pk0);
        }
        self.set_another_at(pk, link, q.another);
        proof {
            assert(old(self).rows().contains_key(pk) && old(self).rows()[pk].test == t
                && self.rows() == old(self).rows().insert(
                pk,
                upd_another(old(self).rows()[pk], q.another),
            ));
        }
        Ok(())
    }

    /// Sets `another` on every row whose non-unique `exchange` key is `k`
    /// and on no other row; fails with `NotFound`, changing nothing, exactly
    /// when no bucket exists for `k`.
    pub fn update_another_by_exchange(&mut self, q: AnotherByExchangeQuery, k: &Vec<u8>) -> (r:
        Result<(), WorkTableError>)
        requires
            old(self).wf(),
        ensures
            final(self).wf(),
            final(self).pk_gen == old(self).pk_gen,
            final(self).data.pages@.len() == old(self).data.pages@.len(),
            match r {
                Ok(()) => {
                    &&& old(self).nu().contains_key(k@)
                    &&& final(self).rows().dom() == old(self).rows().dom()
                    &&& forall|pk: u64|
                        #[trigger] old(self).rows().contains_key(pk) ==> final(self).rows()[pk]
                            == (if old(self).rows()[pk].exchange == k@ {
                            upd_another(old(self).rows()[pk], q.another)
                        } else {
                            old(self).rows()[pk]
                        })
                },
                Err(e) => {
                    &&& e == WorkTableError::NotFound
                    &&& !old(self).nu().contains_key(k@)
                    &&& *final(self) == *old(self)
                },
            },
    {
        let ghost pre = *self;
        let lv = match non_unique_index_get(&self.indexes.exchange_idx, k) {
            Some(lv) => lv,
            None => {
                return Err(WorkTableError::NotFound);
            },
        };
        let mut i: usize = 0;
        while i < lv.len()
            invariant
                self.wf(),
                i <= lv@.len(),
                self.links() == pre.links(),
                self.uq() == pre.uq(),
                self.nu() == pre.nu(),
                self.pk_gen == pre.pk_gen,
                self.data.pages@.len() == pre.data.pages@.len(),
                pre.wf(),
                lv@.to_set() == pre.nu()[k@],
                lv@.no_duplicates(),
                pre.nu().contains_key(k@),
                self.rows().dom() == pre.rows().dom(),
                forall|pk: u64|
                    #[trigger] pre.rows().contains_key(pk) ==> self.rows()[pk] == (if exists|j: int|
                        0 <= j < i && lv@[j] == pre.links()[pk] {
                        upd_another(pre.rows()[pk], q.another)
                    } else {
                        pre.rows()[pk]
                    }),
            decreases lv@.len() - i,
        {
            let ghost cur = *self;
            let link = lv[i];
            proof {
                assert(lv@.to_set().contains(link));
                assert(self.nu()[k@].contains(link));
                assert(exists|pk: u64|
                    #[trigger] self.links().contains_key(pk) && self.links()[pk] == link
                        && self.row_at(self.links()[pk]).exchange == k@);
                let pk = choose|pk: u64|
                    #[trigger] self.links().contains_key(pk) && self.links()[pk] == link
                        && self.row_at(self.links()[pk]).exchange == k@;
                assert(self.slot_ok(pk));
            }
            let bytes = match self.data.select(link) {
                Ok(b) => b,
                Err(_) => {
                    proof {
                        assert(false);
                    }
                    return Err(WorkTableError::NotFound);
                },
            };
            let wrapper = match TestRowWrapper::decode(bytes.as_slice()) {
                Ok(w) => w,
                Err(_) => {
                    proof {
                        assert(false);
                    }
                    return Err(WorkTableError::NotFound);
                },
            };
            let pk = wrapper.inner.id;
            proof {
                let pk0 = choose|pk0: u64|
                    #[trigger] self.links().contains_key(pk0) && self.links()[pk0] == link
                        && self.row_at(self.links()[pk0]).exchange == k@;
                assert(wrapper@ == spec_dec_wrapper(self.data.slot(link))->0);
                assert(pk == pk0);
            }
            self.set_another_at(pk, link, q.another);
            proof {
                assert(self.rows().dom() =~= cur.rows().dom());
                assert forall|p2: u64| #[trigger] pre.rows().contains_key(p2) implies
                    self.rows()[p2] == (if exists|j: int|
                    0 <= j < i + 1 && lv@[j] == pre.links()[p2] {
                    upd_another(pre.rows()[p2], q.another)
                } else {
                    pre.rows()[p2]
                }) by {
                    if p2 == pk {
                        assert(lv@[i as int] == pre.links()[p2]);
                        assert(cur.rows()[p2] == pre.rows()[p2]) by {
                            if exists|j: int| 0 <= j < i && lv@[j] == pre.links()[p2] {
                                let j = choose|j: int|
                                    0 <= j < i && lv@[j] == pre.links()[p2];
                                assert(lv@[j] == lv@[i as int]);
                                assert(false);
                            }
                        }
                        assert(self.rows()[p2] == upd_another(cur.rows()[p2], q.another));
                    } else {
                        assert(self.rows()[p2] == cur.rows()[p2]) by {
                            assert(pre.links().contains_key(p2) && pre.links().contains_key(pk));
                            assert(links_disjoint(pre.links()[p2], pre.links()[pk]));
                        }
                        assert((exists|j: int| 0 <= j < i + 1 && lv@[j] == pre.links()[p2])
                            == (exists|j: int| 0 <= j < i && lv@[j] == pre.links()[p2])) by {
                            if exists|j: int| 0 <= j < i + 1 && lv@[j] == pre.links()[p2] {
                                let j = choose|j: int|
                                    0 <= j < i + 1 && lv@[j] == pre.links()[p2];
                                assert(j != i) by {
                                    assert(links_disjoint(pre.links()[p2], pre.links()[pk]));
                                }
                            }
                        }
                    }
                }
            }
            i = i + 1;
        }
        proof {
            assert forall|pk: u64| #[trigger] pre.rows().contains_key(pk) implies self.rows()[pk]
                == (if pre.rows()[pk].exchange == k@ {
                upd_another(pre.rows()[pk], q.another)
            } else {
                pre.rows()[pk]
            }) by {
                if pre.rows()[pk].exchange == k@ {
                    assert(pre.nu()[k@].contains(pre.links()[pk]));
                    assert(lv@.to_set().contains(pre.links()[pk]));
                    let j = choose|j: int| 0 <= j < lv@.len() && lv@[j] == pre.links()[pk];
                    assert(exists|j2: int|
                        0 <= j2 < lv@.len() && lv@[j2] == pre.links()[pk]);
                } else {
                    assert(!(exists|j: int| 0 <= j < lv@.len() && lv@[j] == pre.links()[pk]))
                        by {
                        if exists|j: int| 0 <= j < lv@.len() && lv@[j] == pre.links()[pk] {
                            let j = choose|j: int|
                                0 <= j < lv@.len() && lv@[j] == pre.links()[pk];
                            assert(lv@.to_set().contains(lv@[j]));
                            assert(pre.nu()[k@].contains(pre.links()[pk]));
                            let p2 = choose|p2: u64|
                                #[trigger] pre.links().contains_key(p2) && pre.links()[p2]
                                    == pre.links()[pk] && pre.row_at(pre.links()[p2]).exchange
                                    == k@;
                            assert(p2 == pk) by {
                                if p2 != pk {
                                    assert(links_disjoint(pre.links()[p2], pre.links()[pk]));
                                }
                            }
                            assert(false);
                        }
                    }
                }
            }
        }
        Ok(())
    }

    /// Replaces the row stored under `row`'s primary key by `row`. Fails
    /// with `NotFound` when the key is absent, and with `AlreadyExists` when
    /// another row already carries `row`'s unique `test` key; either failure
    /// leaves the table's model unchanged. A length-preserving replacement
    /// keeps the row's slot; one that changes the serialized length moves
    /// the row.
    pub fn update(&mut self, row: TestRow) -> (r: Result<(), WorkTableError>)
        requires
            old(self).wf(),
            WRAPPER_FIXED_SIZE + row.exchange@.len() <= DATA_PAGE_BODY_SIZE,
            old(self).data.pages@.len() + 2 < u32::MAX,
        ensures
            final(self).wf(),
            final(self).pk_gen == old(self).pk_gen,
            final(self).data.pages@.len() <= old(self).data.pages@.len() + 2,
            match r {
                Ok(()) => {
                    &&& old(self).rows().contains_key(row.id)
                    &&& forall|p2: u64|
                        #[trigger] old(self).rows().contains_key(p2) && p2 != row.id ==> old(
                            self,
                        ).rows()[p2].test != row.test
                    &&& final(self).rows() == old(self).rows().insert(row.id, row@)
                },
                Err(e) => {
                    ||| {
                        &&& e == WorkTableError::NotFound
                        &&& !old(self).rows().contains_key(row.id)
                        &&& *final(self) == *old(self)
                    }
                    ||| {
                        &&& e == WorkTableError::AlreadyExists
                        &&& exists|p2: u64|
                            #[trigger] old(self).rows().contains_key(p2) && p2 != row.id && old(
                                self,
                            ).rows()[p2].test == row.test
                        &&& final(self).rows() == old(self).rows()
                    }
                },
            },
    {
        let ghost pre = *self;
        let pk = row.get_primary_key();
        let old_row = match self.select(pk) {
            Some(r0) => r0,
            None => {
                return Err(WorkTableError::NotFound);
            },
        };
        proof {
            // the stored row fits a page, so re-inserting it always can
            assert(self.links().contains_key(pk));
            assert(self.slot_ok(pk));
            let l = self.links()[pk];
            assert(self.data.slot(l).len() == l.length);
            assert(l.offset + l.length <= DATA_PAGE_BODY_SIZE);
            assert(old_row@.exchange == self.data.slot(l).subrange(37, l.length as int));
            assert(WRAPPER_FIXED_SIZE + old_row.exchange@.len() <= DATA_PAGE_BODY_SIZE);
        }
        let del = self.delete(pk);
        proof {
            assert(del is Ok);
        }
        let ghost mid = *self;
        match self.insert(row) {
            Ok(_) => {
                proof {
                    assert(self.rows() =~= pre.rows().insert(row.id, row@));
                    let t_old = pre.rows()[pk].test;
                    assert forall|p2: u64|
                        #[trigger] pre.rows().contains_key(p2) && p2 != row.id implies
                        pre.rows()[p2].test != row.test by {
                        assert(pre.links().contains_key(p2));
                        assert(pre.uq().contains_key(pre.row_at(pre.links()[p2]).test));
                        if pre.rows()[p2].test == row.test {
                            // its key would still be in the unique index the
                            // insert checked against
                            assert(pre.rows()[p2].test != t_old) by {
                                assert(pre.links().contains_key(pk));
                                assert(pre.uq()[t_old] == pre.links()[pk]);
                                assert(pre.uq()[pre.row_at(pre.links()[p2]).test]
                                    == pre.links()[p2]);
                                if pre.rows()[p2].test == t_old {
                                    assert(links_disjoint(pre.links()[p2], pre.links()[pk]));
                                }
                            }
                            assert(mid.uq().contains_key(row.test));
                            assert(false);
                        }
                    }
                }
                Ok(())
            },
            Err(_) => {
                // another row holds the new unique key: put the old row back
                let res2 = self.insert(old_row);
                proof {
                    assert(res2 is Ok) by {
                        assert(!mid.rows().contains_key(pk));
                        assert(!mid.uq().contains_key(old_row@.test));
                    }
                    assert(self.rows() =~= pre.rows());
                    // name the conflicting row
                    assert(mid.uq().contains_key(row.test));
                    let t_old = pre.rows()[pk].test;
                    assert(pre.uq().contains_key(row.test) && row.test != t_old);
                    let p2 = choose|p2: u64|
                        #[trigger] pre.links().contains_key(p2) && pre.row_at(
                            pre.links()[p2],
                        ).test == row.test;
                    assert(p2 != row.id) by {
                        assert(pre.row_at(pre.links()[pk]).test == t_old);
                    }
                    assert(pre.rows().contains_key(p2) && pre.rows()[p2].test == row.test);
                }
                Err(WorkTableError::AlreadyExists)
            },
        }
    }

    /// Inserts `row` when its primary key is absent, else replaces the row
    /// stored under it. Fails with `AlreadyExists`, leaving the model
    /// unchanged, exactly when another row carries `row`'s unique `test`
    /// key.
    pub fn upsert(&mut self, row: TestRow) -> (r: Result<(), WorkTableError>)
        requires
            old(self).wf(),
            WRAPPER_FIXED_SIZE + row.exchange@.len() <= DATA_PAGE_BODY_SIZE,
            old(self).data.pages@.len() + 2 < u32::MAX,
        ensures
            final(self).wf(),
            final(self).pk_gen == old(self).pk_gen,
            final(self).data.pages@.len() <= old(self).data.pages@.len() + 2,
            match r {
                Ok(()) => {
                    &&& forall|p2: u64|
                        #[trigger] old(self).rows().contains_key(p2) && p2 != row.id ==> old(
                            self,
                        ).rows()[p2].test != row.test
                    &&& final(self).rows() == old(self).rows().insert(row.id, row@)
                },
                Err(e) => {
                    &&& e == WorkTableError::AlreadyExists
                    &&& exists|p2: u64|
                        #[trigger] old(self).rows().contains_key(p2) && p2 != row.id && old(
                            self,
                        ).rows()[p2].test == row.test
                    &&& final(self).rows() == old(self).rows()
                },
            },
    {
        let pk = row.get_primary_key();
        let present = match pk_map_peek(&self.pk_map, &pk) {
            Some(_) => true,
            None => false,
        };
        if present {
            match self.update(row) {
                Ok(()) => Ok(()),
                Err(e) => {
                    proof {
                        assert(e == WorkTableError::AlreadyExists);
                    }
                    Err(WorkTableError::AlreadyExists)
                },
            }
        } else {
            match self.insert(row) {
                Ok(_) => {
                    proof {
                        assert forall|p2: u64|
                            #[trigger] old(self).rows().contains_key(p2) && p2 != row.id implies
                            old(self).rows()[p2].test != row.test by {
                            assert(old(self).links().contains_key(p2));
                            assert(old(self).uq().contains_key(
                                old(self).row_at(old(self).links()[p2]).test,
                            ));
                        }
                    }
                    Ok(())
                },
                Err(e) => {
                    proof {
                        assert(old(self).uq().contains_key(row.test));
                        let p2 = choose|p2: u64|
                            #[trigger] old(self).links().contains_key(p2) && old(self).row_at(
                                old(self).links()[p2],
                            ).test == row.test;
                        assert(p2 != row.id);
                        assert(old(self).rows().contains_key(p2) && old(self).rows()[p2].test
                            == row.test);
                    }
                    Err(WorkTableError::AlreadyExists)
                },
            }
        }
    }
}


impl Default for WorkTable {
    /// An empty table.
    fn default() -> (r: Self)
        ensures
            r.wf(),
            r.rows() == Map::<u64, RowModel>::empty(),
            r.uq() == Map::<i64, PageLink>::empty(),
            r.nu() == Map::<Seq<u8>, Set<PageLink>>::empty(),
            r.pk_gen == 0,
            r.data.free@.len() == 0,
            r.data.pages@.len() == 1,
    {
        WorkTable::new()
    }
}

/// Inserting a row and then selecting its primary key yields that row
/// back: `insert` ensures the model gains exactly the row, and `select`
/// ensures it returns the model's row for the key.
pub proof fn lemma_insert_select_roundtrip(pre: WorkTable, post: WorkTable, row: RowModel)
    requires
        post.rows() == pre.rows().insert(row.id, row),
    ensures
        post.rows().contains_key(row.id),
        post.rows()[row.id] == row,
{
}

/// The row value with its `another` column replaced.
pub open spec fn upd_another(m: RowModel, v: u64) -> RowModel {
    RowModel { id: m.id, test: m.test, another: v, exchange: m.exchange }
}

/// After an in-place rewrite of one row's `another` column, the table is
/// well-formed and its model holds the updated row; no index moved.
pub proof fn lemma_update_in_place(
    pre: WorkTable,
    fin: WorkTable,
    pk: u64,
    link: PageLink,
    row: RowModel,
)
    requires
        pre.wf(),
        pre.links().contains_key(pk),
        link == pre.links()[pk],
        row == upd_another(pre.row_at(link), row.another),
        fin.links() == pre.links(),
        fin.uq() == pre.uq(),
        fin.nu() == pre.nu(),
        fin.lock_map.wf(),
        fin.lock_map.entries@.len() == 0,
        fin.data.wf(),
        fin.data.free@ == pre.data.free@,
        spec_dec_wrapper(fin.data.slot(link)) is Some,
        !spec_dec_wrapper(fin.data.slot(link))->0.is_deleted,
        spec_dec_wrapper(fin.data.slot(link))->0.inner == row,
        forall|l2: PageLink|
            pre.data.spec_valid_link(l2) ==> fin.data.spec_valid_link(l2),
        forall|l2: PageLink|
            pre.data.spec_valid_link(l2) && links_disjoint(l2, link) ==> fin.data.slot(l2)
                == pre.data.slot(l2),
    ensures
        fin.wf(),
        fin.rows() == pre.rows().insert(pk, row),
{
    assert forall|p2: u64| #[trigger] fin.links().contains_key(p2) implies fin.slot_ok(p2) && (p2
        != pk ==> fin.row_at(fin.links()[p2]) == pre.row_at(pre.links()[p2])) by {
        assert(pre.links().contains_key(p2));
        assert(pre.slot_ok(p2));
        if p2 != pk {
            assert(links_disjoint(pre.links()[p2], pre.links()[pk]));
            assert(fin.data.slot(pre.links()[p2]) == pre.data.slot(pre.links()[p2]));
        } else {
            assert(fin.links()[p2] == link);
        }
    }
    assert(fin.rows() =~= pre.rows().insert(pk, row));
    assert forall|p2: u64, i: int|
        #[trigger] fin.links().contains_key(p2) && 0 <= i < fin.data.free@.len() implies
        links_disjoint(fin.links()[p2], #[trigger] fin.data.free@[i]) by {
        assert(pre.links().contains_key(p2));
        assert(links_disjoint(pre.links()[p2], pre.data.free@[i]));
    }
    assert forall|i: int, j: int| 0 <= i < j < fin.data.free@.len() implies links_disjoint(
        #[trigger] fin.data.free@[i],
        #[trigger] fin.data.free@[j],
    ) by {
        assert(links_disjoint(pre.data.free@[i], pre.data.free@[j]));
    }
    assert forall|p2: u64| #[trigger] fin.links().contains_key(p2) implies fin.uq().contains_key(
        fin.row_at(fin.links()[p2]).test,
    ) && fin.uq()[fin.row_at(fin.links()[p2]).test] == fin.links()[p2] by {
        assert(pre.links().contains_key(p2));
        assert(fin.row_at(fin.links()[p2]).test == pre.row_at(pre.links()[p2]).test);
    }
    assert forall|t: i64| #[trigger] fin.uq().contains_key(t) implies exists|p2: u64|
        #[trigger] fin.links().contains_key(p2) && fin.row_at(fin.links()[p2]).test == t by {
        let p2 = choose|p2: u64|
            #[trigger] pre.links().contains_key(p2) && pre.row_at(pre.links()[p2]).test == t;
        assert(fin.links().contains_key(p2));
        assert(fin.row_at(fin.links()[p2]).test == t);
    }
    assert forall|p2: u64| #[trigger] fin.links().contains_key(p2) implies fin.nu().contains_key(
        fin.row_at(fin.links()[p2]).exchange,
    ) && fin.nu()[fin.row_at(fin.links()[p2]).exchange].contains(fin.links()[p2]) by {
        assert(pre.links().contains_key(p2));
        assert(fin.row_at(fin.links()[p2]).exchange == pre.row_at(pre.links()[p2]).exchange);
    }
    assert forall|k: Seq<u8>, l: PageLink|
        fin.nu().contains_key(k) && #[trigger] fin.nu()[k].contains(l) implies exists|p2: u64|
        #[trigger] fin.links().contains_key(p2) && fin.links()[p2] == l && fin.row_at(
            fin.links()[p2],
        ).exchange == k by {
        let p2 = choose|p2: u64|
            #[trigger] pre.links().contains_key(p2) && pre.links()[p2] == l && pre.row_at(
                pre.links()[p2],
            ).exchange == k;
        assert(fin.links().contains_key(p2));
        assert(fin.row_at(fin.links()[p2]).exchange == k);
    }
    assert forall|k: Seq<u8>| #[trigger] fin.nu().contains_key(k) implies !fin.nu()[k].is_empty()
        by {
        assert(pre.nu().contains_key(k));
    }
}

/// After a delete, the table is well-formed and its model lost exactly the
/// deleted row.
pub proof fn lemma_delete_wf(pre: WorkTable, fin: WorkTable, pk: u64, link: PageLink)
    requires
        pre.wf(),
        pre.links().contains_key(pk),
        link == pre.links()[pk],
        fin.links() == pre.links().remove(pk),
        fin.uq() == pre.uq().remove(pre.row_at(link).test),
        fin.nu() == {
            let b = bucket_of(pre.nu(), pre.row_at(link).exchange).remove(link);
            if b.is_empty() {
                pre.nu().remove(pre.row_at(link).exchange)
            } else {
                pre.nu().insert(pre.row_at(link).exchange, b)
            }
        },
        fin.lock_map == pre.lock_map,
        fin.data.wf(),
        fin.data.free@ == pre.data.free@.push(link),
        forall|l2: PageLink|
            pre.data.spec_valid_link(l2) ==> fin.data.spec_valid_link(l2),
        forall|l2: PageLink|
            pre.data.spec_valid_link(l2) && links_disjoint(l2, link) ==> fin.data.slot(l2)
                == pre.data.slot(l2),
    ensures
        fin.wf(),
        fin.rows() == pre.rows().remove(pk),
{
    let t0 = pre.row_at(link).test;
    let k0 = pre.row_at(link).exchange;
    assert forall|p2: u64| #[trigger] fin.links().contains_key(p2) implies fin.slot_ok(p2)
        && fin.row_at(fin.links()[p2]) == pre.row_at(pre.links()[p2]) && links_disjoint(
        pre.links()[p2],
        link,
    ) by {
        assert(pre.links().contains_key(p2));
        assert(pre.slot_ok(p2));
        assert(links_disjoint(pre.links()[p2], pre.links()[pk]));
        assert(fin.data.slot(pre.links()[p2]) == pre.data.slot(pre.links()[p2]));
    }
    assert(fin.rows() =~= pre.rows().remove(pk));
    // live links against the free-list, whose last entry is the freed link
    assert forall|p2: u64, i: int|
        #[trigger] fin.links().contains_key(p2) && 0 <= i < fin.data.free@.len() implies
        links_disjoint(fin.links()[p2], #[trigger] fin.data.free@[i]) by {
        assert(pre.links().contains_key(p2));
        if i < fin.data.free@.len() - 1 {
            assert(fin.data.free@[i] == pre.data.free@[i]);
            assert(links_disjoint(pre.links()[p2], pre.data.free@[i]));
        } else {
            assert(fin.data.free@[i] == link);
        }
    }
    assert forall|i: int, j: int| 0 <= i < j < fin.data.free@.len() implies links_disjoint(
        #[trigger] fin.data.free@[i],
        #[trigger] fin.data.free@[j],
    ) by {
        assert(fin.data.free@[i] == pre.data.free@[i]);
        if j < fin.data.free@.len() - 1 {
            assert(fin.data.free@[j] == pre.data.free@[j]);
        } else {
            assert(fin.data.free@[j] == link);
            assert(links_disjoint(pre.links()[pk], pre.data.free@[i]));
        }
    }
    // unique-index sync: the deleted row's key left; every other key stays
    assert forall|p2: u64| #[trigger] fin.links().contains_key(p2) implies fin.uq().contains_key(
        fin.row_at(fin.links()[p2]).test,
    ) && fin.uq()[fin.row_at(fin.links()[p2]).test] == fin.links()[p2] by {
        assert(pre.links().contains_key(p2));
        let t2 = pre.row_at(pre.links()[p2]).test;
        assert(pre.uq().contains_key(t2) && pre.uq()[t2] == pre.links()[p2]);
        if t2 == t0 {
            // two distinct live rows cannot share the unique key
            assert(pre.uq()[t0] == pre.links()[pk]);
            assert(links_disjoint(pre.links()[p2], pre.links()[pk]));
            assert(false);
        }
    }
    assert forall|t: i64| #[trigger] fin.uq().contains_key(t) implies exists|p2: u64|
        #[trigger] fin.links().contains_key(p2) && fin.row_at(fin.links()[p2]).test == t by {
        assert(pre.uq().contains_key(t) && t != t0);
        let p2 = choose|p2: u64|
            #[trigger] pre.links().contains_key(p2) && pre.row_at(pre.links()[p2]).test == t;
        assert(p2 != pk) by {
            assert(pre.row_at(pre.links()[pk]).test == t0);
        }
        assert(fin.links().contains_key(p2));
        assert(fin.row_at(fin.links()[p2]).test == t);
    }
    // non-unique-index sync
    let b0 = bucket_of(pre.nu(), k0).remove(link);
    assert forall|p2: u64| #[trigger] fin.links().contains_key(p2) implies fin.nu().contains_key(
        fin.row_at(fin.links()[p2]).exchange,
    ) && fin.nu()[fin.row_at(fin.links()[p2]).exchange].contains(fin.links()[p2]) by {
        assert(pre.links().contains_key(p2));
        let k2 = pre.row_at(pre.links()[p2]).exchange;
        assert(pre.nu().contains_key(k2) && pre.nu()[k2].contains(pre.links()[p2]));
        if k2 == k0 {
            assert(pre.links()[p2] != link) by {
                assert(links_disjoint(pre.links()[p2], pre.links()[pk]));
            }
            assert(b0.contains(pre.links()[p2]));
            assert(!b0.is_empty());
            assert(fin.nu()[k2] == b0);
        } else {
            assert(fin.nu().contains_key(k2) && fin.nu()[k2] == pre.nu()[k2]);
        }
    }
    assert forall|k: Seq<u8>| #[trigger] fin.nu().contains_key(k) implies !fin.nu()[k].is_empty()
        by {
        if k == k0 {
            assert(fin.nu().contains_key(k0) ==> fin.nu()[k0] == b0);
        } else {
            assert(pre.nu().contains_key(k));
            assert(fin.nu()[k] == pre.nu()[k]);
        }
    }
    assert forall|k: Seq<u8>, l: PageLink|
        fin.nu().contains_key(k) && #[trigger] fin.nu()[k].contains(l) implies exists|p2: u64|
        #[trigger] fin.links().contains_key(p2) && fin.links()[p2] == l && fin.row_at(
            fin.links()[p2],
        ).exchange == k by {
        assert(pre.nu().contains_key(k) && pre.nu()[k].contains(l) && (k != k0 || l != link)) by {
            if k == k0 {
                assert(fin.nu().contains_key(k0) ==> fin.nu()[k0] == b0);
            }
        }
        let p2 = choose|p2: u64|
            #[trigger] pre.links().contains_key(p2) && pre.links()[p2] == l && pre.row_at(
                pre.links()[p2],
            ).exchange == k;
        assert(p2 != pk) by {
            if p2 == pk {
                assert(l == link && k == k0);
            }
        }
        assert(fin.links().contains_key(p2));
        assert(fin.links()[p2] == l);
        assert(fin.row_at(fin.links()[p2]).exchange == k);
    }
}


/// Well-formedness depends only on the store, the maps and the lock map,
/// not on the primary-key generator.
pub proof fn lemma_wf_core(a: WorkTable, b: WorkTable)
    requires
        a.wf(),
        b.data == a.data,
        b.pk_map == a.pk_map,
        b.indexes == a.indexes,
        b.lock_map == a.lock_map,
    ensures
        b.wf(),
{
    assert forall|pk: u64| #[trigger] b.links().contains_key(pk) implies b.slot_ok(pk) by {
        assert(a.links().contains_key(pk));
        assert(a.slot_ok(pk));
    }
    assert forall|p1: u64, p2: u64|
        b.links().contains_key(p1) && b.links().contains_key(p2) && p1 != p2 implies
        links_disjoint(#[trigger] b.links()[p1], #[trigger] b.links()[p2]) by {
        assert(a.links().contains_key(p1) && a.links().contains_key(p2));
        assert(links_disjoint(a.links()[p1], a.links()[p2]));
    }
    assert forall|pk: u64, i: int|
        #[trigger] b.links().contains_key(pk) && 0 <= i < b.data.free@.len() implies
        links_disjoint(b.links()[pk], #[trigger] b.data.free@[i]) by {
        assert(a.links().contains_key(pk));
        assert(links_disjoint(a.links()[pk], a.data.free@[i]));
    }
    assert forall|i: int, j: int| 0 <= i < j < b.data.free@.len() implies links_disjoint(
        #[trigger] b.data.free@[i],
        #[trigger] b.data.free@[j],
    ) by {
        assert(links_disjoint(a.data.free@[i], a.data.free@[j]));
    }
    assert forall|pk: u64| #[trigger] b.links().contains_key(pk) implies b.uq().contains_key(
        b.row_at(b.links()[pk]).test,
    ) && b.uq()[b.row_at(b.links()[pk]).test] == b.links()[pk] by {
        assert(a.links().contains_key(pk));
        assert(a.uq().contains_key(a.row_at(a.links()[pk]).test));
    }
    assert forall|pk: u64| #[trigger] b.links().contains_key(pk) implies b.nu().contains_key(
        b.row_at(b.links()[pk]).exchange,
    ) && b.nu()[b.row_at(b.links()[pk]).exchange].contains(b.links()[pk]) by {
        assert(a.links().contains_key(pk));
        assert(a.nu().contains_key(a.row_at(a.links()[pk]).exchange));
        assert(a.nu()[a.row_at(a.links()[pk]).exchange].contains(a.links()[pk]));
    }
    assert forall|k: Seq<u8>| #[trigger] b.nu().contains_key(k) implies !b.nu()[k].is_empty() by {
        assert(a.nu().contains_key(k));
    }
    assert forall|t: i64| #[trigger] b.uq().contains_key(t) implies exists|pk: u64|
        #[trigger] b.links().contains_key(pk) && b.row_at(b.links()[pk]).test == t by {
        assert(a.uq().contains_key(t));
        let pk = choose|pk: u64|
            #[trigger] a.links().contains_key(pk) && a.row_at(a.links()[pk]).test == t;
        assert(b.links().contains_key(pk) && b.row_at(b.links()[pk]).test == t);
    }
    assert forall|k: Seq<u8>, l: PageLink|
        b.nu().contains_key(k) && #[trigger] b.nu()[k].contains(l) implies exists|pk: u64|
        #[trigger] b.links().contains_key(pk) && b.links()[pk] == l && b.row_at(
            b.links()[pk],
        ).exchange == k by {
        assert(a.nu().contains_key(k) && a.nu()[k].contains(l));
        let pk = choose|pk: u64|
            #[trigger] a.links().contains_key(pk) && a.links()[pk] == l && a.row_at(
                a.links()[pk],
            ).exchange == k;
        assert(b.links().contains_key(pk) && b.links()[pk] == l && b.row_at(
            b.links()[pk],
        ).exchange == k);
    }
}

/// When the primary-key map and the slots of its links did not change, the
/// rows did not change.
pub proof fn lemma_rows_unchanged_when_links_kept(a: WorkTable, b: WorkTable)
    requires
        a.links() == b.links(),
        forall|pk: u64|
            #[trigger] a.links().contains_key(pk) ==> b.data.slot(a.links()[pk]) == a.data.slot(
                a.links()[pk],
            ),
    ensures
        a.rows() == b.rows(),
{
    assert(a.rows() =~= b.rows());
}

/// What saving a fresh row does to the links of a well-formed table: the
/// new slot is disjoint from every live link, whose bytes it leaves alone.
pub proof fn lemma_data_insert_frame(pre: WorkTable, mid: WorkTable, link: PageLink, b: Seq<u8>)
    requires
        pre.wf(),
        mid.pk_map == pre.pk_map,
        mid.indexes == pre.indexes,
        mid.lock_map == pre.lock_map,
        mid.data.wf(),
        mid.data.spec_valid_link(link),
        link.length == b.len(),
        mid.data.slot(link) == b,
        forall|l: PageLink|
            pre.data.spec_valid_link(l) && links_disjoint(l, link)
                ==> mid.data.spec_valid_link(l) && mid.data.slot(l) == pre.data.slot(l),
        match find_free(pre.data.free@, b.len()) {
            Some(i) => link == pre.data.free@[i] && mid.data.free@ == pre.data.free@.remove(i)
                && mid.data.pages@.len() == pre.data.pages@.len(),
            None => mid.data.free@ == pre.data.free@ && (forall|l: PageLink|
                pre.data.spec_valid_link(l) ==> links_disjoint(l, link)) && (forall|i: int|
                0 <= i < pre.data.free@.len() ==> links_disjoint(
                    #[trigger] pre.data.free@[i],
                    link,
                )),
        },
    ensures
        forall|pk: u64|
            #[trigger] pre.links().contains_key(pk) ==> links_disjoint(pre.links()[pk], link)
                && mid.data.spec_valid_link(pre.links()[pk]) && mid.data.slot(pre.links()[pk])
                == pre.data.slot(pre.links()[pk]),
        forall|i: int|
            0 <= i < mid.data.free@.len() ==> links_disjoint(#[trigger] mid.data.free@[i], link),
        forall|pk: u64, i: int|
            #[trigger] pre.links().contains_key(pk) && 0 <= i < mid.data.free@.len()
                ==> links_disjoint(pre.links()[pk], #[trigger] mid.data.free@[i]),
        forall|i: int, j: int|
            0 <= i < j < mid.data.free@.len() ==> links_disjoint(
                #[trigger] mid.data.free@[i],
                #[trigger] mid.data.free@[j],
            ),
{
    crate::pages::lemma_find_free_props(pre.data.free@, b.len());
    assert forall|pk: u64| #[trigger] pre.links().contains_key(pk) implies links_disjoint(
        pre.links()[pk],
        link,
    ) && mid.data.spec_valid_link(pre.links()[pk]) && mid.data.slot(pre.links()[pk])
        == pre.data.slot(pre.links()[pk]) by {
        assert(pre.slot_ok(pk));
        match find_free(pre.data.free@, b.len()) {
            Some(i) => {
                assert(links_disjoint(pre.links()[pk], pre.data.free@[i]));
            },
            None => {},
        }
    }
    assert forall|i: int| 0 <= i < mid.data.free@.len() implies links_disjoint(
        #[trigger] mid.data.free@[i],
        link,
    ) by {
        match find_free(pre.data.free@, b.len()) {
            Some(fi) => {
                let oi: int = if i < fi { i } else { i + 1 };
                assert(mid.data.free@[i] == pre.data.free@[oi]);
                if oi < fi {
                    assert(links_disjoint(pre.data.free@[oi], pre.data.free@[fi]));
                } else {
                    assert(links_disjoint(pre.data.free@[fi], pre.data.free@[oi]));
                }
            },
            None => {},
        }
    }
    assert forall|pk: u64, i: int|
        #[trigger] pre.links().contains_key(pk) && 0 <= i < mid.data.free@.len() implies
        links_disjoint(pre.links()[pk], #[trigger] mid.data.free@[i]) by {
        match find_free(pre.data.free@, b.len()) {
            Some(fi) => {
                let oi: int = if i < fi { i } else { i + 1 };
                assert(mid.data.free@[i] == pre.data.free@[oi]);
                assert(links_disjoint(pre.links()[pk], pre.data.free@[oi]));
            },
            None => {
                assert(links_disjoint(pre.links()[pk], pre.data.free@[i]));
            },
        }
    }
    assert forall|i: int, j: int| 0 <= i < j < mid.data.free@.len() implies links_disjoint(
        #[trigger] mid.data.free@[i],
        #[trigger] mid.data.free@[j],
    ) by {
        match find_free(pre.data.free@, b.len()) {
            Some(fi) => {
                let oi: int = if i < fi { i } else { i + 1 };
                let oj: int = if j < fi { j } else { j + 1 };
                assert(mid.data.free@[i] == pre.data.free@[oi]);
                assert(mid.data.free@[j] == pre.data.free@[oj]);
                assert(links_disjoint(pre.data.free@[oi], pre.data.free@[oj]));
            },
            None => {
                assert(links_disjoint(pre.data.free@[i], pre.data.free@[j]));
            },
        }
    }
}

/// After a failed insert was rolled back by tombstoning the just-written
/// slot, the table is well-formed again and its model is what it was.
pub proof fn lemma_insert_rollback(pre: WorkTable, mid: WorkTable, fin: WorkTable, link: PageLink)
    requires
        pre.wf(),
        mid.pk_map == pre.pk_map,
        mid.indexes == pre.indexes,
        // effect of the row write, as lemma_data_insert_frame states it
        forall|pk: u64|
            #[trigger] pre.links().contains_key(pk) ==> links_disjoint(pre.links()[pk], link)
                && mid.data.spec_valid_link(pre.links()[pk]) && mid.data.slot(pre.links()[pk])
                == pre.data.slot(pre.links()[pk]),
        forall|i: int|
            0 <= i < mid.data.free@.len() ==> links_disjoint(#[trigger] mid.data.free@[i], link),
        forall|pk: u64, i: int|
            #[trigger] pre.links().contains_key(pk) && 0 <= i < mid.data.free@.len()
                ==> links_disjoint(pre.links()[pk], #[trigger] mid.data.free@[i]),
        forall|i: int, j: int|
            0 <= i < j < mid.data.free@.len() ==> links_disjoint(
                #[trigger] mid.data.free@[i],
                #[trigger] mid.data.free@[j],
            ),
        // effect of the rollback delete
        fin.data.wf(),
        fin.data.free@ == mid.data.free@.push(link),
        forall|l2: PageLink|
            mid.data.spec_valid_link(l2) ==> fin.data.spec_valid_link(l2),
        forall|l2: PageLink|
            mid.data.spec_valid_link(l2) && links_disjoint(l2, link) ==> fin.data.slot(l2)
                == mid.data.slot(l2),
        // the index structures are back to their old contents
        fin.links() == pre.links(),
        fin.uq() == pre.uq(),
        fin.nu() == pre.nu(),
        fin.lock_map == pre.lock_map,
    ensures
        fin.wf(),
        fin.rows() == pre.rows(),
{
    assert forall|pk: u64| #[trigger] fin.links().contains_key(pk) implies fin.slot_ok(pk)
        && fin.data.slot(fin.links()[pk]) == pre.data.slot(pre.links()[pk]) by {
        assert(pre.links().contains_key(pk));
        assert(pre.slot_ok(pk));
        assert(mid.data.spec_valid_link(pre.links()[pk]));
        assert(fin.data.slot(pre.links()[pk]) == mid.data.slot(pre.links()[pk]));
    }
    assert(fin.rows() =~= pre.rows());
    assert forall|pk: u64, i: int|
        #[trigger] fin.links().contains_key(pk) && 0 <= i < fin.data.free@.len() implies
        links_disjoint(fin.links()[pk], #[trigger] fin.data.free@[i]) by {
        if i < fin.data.free@.len() - 1 {
            assert(fin.data.free@[i] == mid.data.free@[i]);
        } else {
            assert(fin.data.free@[i] == link);
        }
    }
    assert forall|i: int, j: int| 0 <= i < j < fin.data.free@.len() implies links_disjoint(
        #[trigger] fin.data.free@[i],
        #[trigger] fin.data.free@[j],
    ) by {
        if j < fin.data.free@.len() - 1 {
            assert(fin.data.free@[i] == mid.data.free@[i]);
            assert(fin.data.free@[j] == mid.data.free@[j]);
        } else {
            assert(fin.data.free@[i] == mid.data.free@[i]);
            assert(fin.data.free@[j] == link);
        }
    }
    assert forall|pk: u64| #[trigger] fin.links().contains_key(pk) implies fin.uq().contains_key(
        fin.row_at(fin.links()[pk]).test,
    ) && fin.uq()[fin.row_at(fin.links()[pk]).test] == fin.links()[pk] by {
        assert(pre.links().contains_key(pk));
        assert(fin.row_at(fin.links()[pk]) == pre.row_at(pre.links()[pk]));
    }
    assert forall|t: i64| #[trigger] fin.uq().contains_key(t) implies exists|pk: u64|
        #[trigger] fin.links().contains_key(pk) && fin.row_at(fin.links()[pk]).test == t by {
        let pk = choose|pk: u64|
            #[trigger] pre.links().contains_key(pk) && pre.row_at(pre.links()[pk]).test == t;
        assert(fin.links().contains_key(pk));
        assert(fin.row_at(fin.links()[pk]) == pre.row_at(pre.links()[pk]));
    }
    assert forall|pk: u64| #[trigger] fin.links().contains_key(pk) implies fin.nu().contains_key(
        fin.row_at(fin.links()[pk]).exchange,
    ) && fin.nu()[fin.row_at(fin.links()[pk]).exchange].contains(fin.links()[pk]) by {
        assert(pre.links().contains_key(pk));
        assert(fin.row_at(fin.links()[pk]) == pre.row_at(pre.links()[pk]));
    }
    assert forall|k: Seq<u8>, l: PageLink|
        fin.nu().contains_key(k) && #[trigger] fin.nu()[k].contains(l) implies exists|pk: u64|
        #[trigger] fin.links().contains_key(pk) && fin.links()[pk] == l && fin.row_at(
            fin.links()[pk],
        ).exchange == k by {
        let pk = choose|pk: u64|
            #[trigger] pre.links().contains_key(pk) && pre.links()[pk] == l && pre.row_at(
                pre.links()[pk],
            ).exchange == k;
        assert(fin.links().contains_key(pk));
        assert(fin.row_at(fin.links()[pk]) == pre.row_at(pre.links()[pk]));
    }
    assert forall|k: Seq<u8>| #[trigger] fin.nu().contains_key(k) implies !fin.nu()[k].is_empty()
        by {
        assert(pre.nu().contains_key(k));
    }
}

/// After a successful insert, the table is well-formed and its model gained
/// exactly the new row.
pub proof fn lemma_insert_success(
    pre: WorkTable,
    mid: WorkTable,
    fin: WorkTable,
    row: RowModel,
    link: PageLink,
)
    requires
        pre.wf(),
        mid.pk_map == pre.pk_map,
        mid.indexes == pre.indexes,
        mid.data.wf(),
        mid.data.spec_valid_link(link),
        spec_dec_wrapper(mid.data.slot(link)) is Some,
        !spec_dec_wrapper(mid.data.slot(link))->0.is_deleted,
        spec_dec_wrapper(mid.data.slot(link))->0.inner == row,
        // effect of the row write, as lemma_data_insert_frame states it
        forall|pk: u64|
            #[trigger] pre.links().contains_key(pk) ==> links_disjoint(pre.links()[pk], link)
                && mid.data.spec_valid_link(pre.links()[pk]) && mid.data.slot(pre.links()[pk])
                == pre.data.slot(pre.links()[pk]),
        forall|i: int|
            0 <= i < mid.data.free@.len() ==> links_disjoint(#[trigger] mid.data.free@[i], link),
        forall|pk: u64, i: int|
            #[trigger] pre.links().contains_key(pk) && 0 <= i < mid.data.free@.len()
                ==> links_disjoint(pre.links()[pk], #[trigger] mid.data.free@[i]),
        forall|i: int, j: int|
            0 <= i < j < mid.data.free@.len() ==> links_disjoint(
                #[trigger] mid.data.free@[i],
                #[trigger] mid.data.free@[j],
            ),
        // the final state: data as after the write, indexes extended
        fin.data == mid.data,
        fin.lock_map == pre.lock_map,
        !pre.links().contains_key(row.id),
        !pre.uq().contains_key(row.test),
        fin.links() == pre.links().insert(row.id, link),
        fin.uq() == pre.uq().insert(row.test, link),
        fin.nu() == pre.nu().insert(row.exchange, bucket_of(pre.nu(), row.exchange).insert(link)),
    ensures
        fin.wf(),
        fin.rows() == pre.rows().insert(row.id, row),
{
    assert forall|pk: u64| #[trigger] fin.links().contains_key(pk) implies fin.slot_ok(pk) by {
        if pk == row.id {
            assert(fin.links()[pk] == link);
        } else {
            assert(pre.links().contains_key(pk));
            assert(pre.slot_ok(pk));
        }
    }
    assert(fin.rows() =~= pre.rows().insert(row.id, row));
    assert forall|p1: u64, p2: u64|
        fin.links().contains_key(p1) && fin.links().contains_key(p2) && p1 != p2 implies
        links_disjoint(#[trigger] fin.links()[p1], #[trigger] fin.links()[p2]) by {
        if p1 == row.id {
            assert(pre.links().contains_key(p2));
        } else if p2 == row.id {
            assert(pre.links().contains_key(p1));
        } else {
            assert(pre.links().contains_key(p1) && pre.links().contains_key(p2));
        }
    }
    assert forall|pk: u64, i: int|
        #[trigger] fin.links().contains_key(pk) && 0 <= i < fin.data.free@.len() implies
        links_disjoint(fin.links()[pk], #[trigger] fin.data.free@[i]) by {
        if pk != row.id {
            assert(pre.links().contains_key(pk));
        }
    }
    // unique-index sync
    assert forall|pk: u64| #[trigger] fin.links().contains_key(pk) implies fin.uq().contains_key(
        fin.row_at(fin.links()[pk]).test,
    ) && fin.uq()[fin.row_at(fin.links()[pk]).test] == fin.links()[pk] by {
        if pk != row.id {
            assert(pre.links().contains_key(pk));
            assert(fin.row_at(fin.links()[pk]) == pre.row_at(pre.links()[pk]));
            assert(pre.uq().contains_key(pre.row_at(pre.links()[pk]).test));
        }
    }
    assert forall|t: i64| #[trigger] fin.uq().contains_key(t) implies exists|pk: u64|
        #[trigger] fin.links().contains_key(pk) && fin.row_at(fin.links()[pk]).test == t by {
        if t == row.test {
            assert(fin.links().contains_key(row.id) && fin.row_at(fin.links()[row.id]).test == t);
        } else {
            assert(pre.uq().contains_key(t));
            let pk = choose|pk: u64|
                #[trigger] pre.links().contains_key(pk) && pre.row_at(pre.links()[pk]).test == t;
            assert(fin.links().contains_key(pk));
            assert(fin.row_at(fin.links()[pk]) == pre.row_at(pre.links()[pk]));
        }
    }
    // non-unique-index sync
    assert forall|pk: u64| #[trigger] fin.links().contains_key(pk) implies fin.nu().contains_key(
        fin.row_at(fin.links()[pk]).exchange,
    ) && fin.nu()[fin.row_at(fin.links()[pk]).exchange].contains(fin.links()[pk]) by {
        if pk == row.id {
            assert(fin.nu()[row.exchange].contains(link));
        } else {
            assert(pre.links().contains_key(pk));
            assert(fin.row_at(fin.links()[pk]) == pre.row_at(pre.links()[pk]));
            let x = pre.row_at(pre.links()[pk]).exchange;
            assert(pre.nu().contains_key(x) && pre.nu()[x].contains(pre.links()[pk]));
            if x == row.exchange {
                assert(fin.nu()[x] == bucket_of(pre.nu(), x).insert(link));
                assert(fin.nu()[x].contains(pre.links()[pk]));
            } else {
                assert(fin.nu()[x] == pre.nu()[x]);
            }
        }
    }
    assert forall|k: Seq<u8>| #[trigger] fin.nu().contains_key(k) implies !fin.nu()[k].is_empty()
        by {
        if k == row.exchange {
            assert(fin.nu()[k].contains(link));
        } else {
            assert(pre.nu().contains_key(k) && fin.nu()[k] == pre.nu()[k]);
        }
    }
    assert forall|k: Seq<u8>, l: PageLink|
        fin.nu().contains_key(k) && #[trigger] fin.nu()[k].contains(l) implies exists|pk: u64|
        #[trigger] fin.links().contains_key(pk) && fin.links()[pk] == l && fin.row_at(
            fin.links()[pk],
        ).exchange == k by {
        if k == row.exchange && l == link {
            assert(fin.links().contains_key(row.id) && fin.links()[row.id] == l && fin.row_at(
                fin.links()[row.id],
            ).exchange == k);
        } else {
            assert(pre.nu().contains_key(k) && pre.nu()[k].contains(l)) by {
                if k == row.exchange {
                    assert(fin.nu()[k] == bucket_of(pre.nu(), k).insert(link));
                } else {
                    assert(fin.nu()[k] == pre.nu()[k]);
                }
            }
            let pk = choose|pk: u64|
                #[trigger] pre.links().contains_key(pk) && pre.links()[pk] == l && pre.row_at(
                    pre.links()[pk],
                ).exchange == k;
            assert(fin.links().contains_key(pk));
            assert(fin.links()[pk] == l);
            assert(fin.row_at(fin.links()[pk]) == pre.row_at(pre.links()[pk]));
        }
    }
}

} // verus!
