//! The table's key-to-link indexes. The primary-key map and the unique
//! secondary index are ordered concurrent maps of the `scc` crate; a
//! non-unique secondary index maps a key to a lock-free set of links of the
//! `lockfree` crate. Verified code reaches them only through the trusted
//! wrappers below, whose contracts state what the crates' sources show.

use vstd::prelude::*;
use crate::link::PageLink;
use crate::table::WorkTableError;

verus! {

/// The shape of a table's secondary-index collection, implemented by the
/// schema facade; the unit impl is the index collection of a table that
/// declares no secondary index.
pub trait TableIndex<Row> {
    /// Enters `row`, stored at `link`, into every secondary index.
    fn save_row(&mut self, row: &Row, link: PageLink) -> Result<(), WorkTableError>;

    /// Removes `row`, stored at `link`, from every secondary index.
    fn delete_row(&mut self, row: &Row, link: PageLink) -> Result<(), WorkTableError>;
}

impl<Row> TableIndex<Row> for () {
    /// A table without secondary indexes has nothing to enter: always `Ok`,
    /// nothing changed.
    fn save_row(&mut self, _row: &Row, _link: PageLink) -> (r: Result<(), WorkTableError>)
        ensures
            r is Ok,
            *final(self) == *old(self),
    {
        Ok(())
    }

    /// A table without secondary indexes has nothing to remove: always `Ok`,
    /// nothing changed.
    fn delete_row(&mut self, _row: &Row, _link: PageLink) -> (r: Result<(), WorkTableError>)
        ensures
            r is Ok,
            *final(self) == *old(self),
    {
        Ok(())
    }
}

/// An ordered concurrent map from primary key to row link.
pub type PkMapTree = scc::tree_index::TreeIndex<u64, PageLink>;

/// An ordered concurrent map of a unique secondary index.
pub type UniqueIndexTree = scc::tree_index::TreeIndex<i64, PageLink>;

/// An ordered concurrent map of a non-unique secondary index: key bytes to a
/// lock-free set of links.
pub type NonUniqueIndexTree = scc::tree_index::TreeIndex<
    Vec<u8>,
    std::sync::Arc<lockfree::set::Set<PageLink>>,
>;

/// A borrowed view of one declared index, of either arity.
pub enum IndexType<'a> {
    Unique(&'a UniqueIndexTree),
    NonUnique(&'a NonUniqueIndexTree),
}

#[verifier::external_type_specification]
#[verifier::external_body]
#[verifier::reject_recursive_types(K)]
#[verifier::reject_recursive_types(V)]
pub struct ExTreeIndex<K, V>(scc::tree_index::TreeIndex<K, V>);

#[verifier::external_type_specification]
#[verifier::external_body]
#[verifier::reject_recursive_types(T)]
#[verifier::reject_recursive_types(H)]
pub struct ExLockFreeSet<T, H>(lockfree::set::Set<T, H>);

/// The contents of a primary-key map: primary key to row link.
pub uninterp spec fn pk_map_view(t: PkMapTree) -> Map<u64, PageLink>;

/// The contents of a unique secondary index: key to row link.
pub uninterp spec fn unique_index_view(t: UniqueIndexTree) -> Map<i64, PageLink>;

/// The contents of a non-unique secondary index: key bytes to the set of
/// links of the rows carrying that key.
pub uninterp spec fn non_unique_index_view(t: NonUniqueIndexTree) -> Map<Seq<u8>, Set<PageLink>>;

/// The bucket of `k` in a non-unique index's contents, empty when absent.
pub open spec fn bucket_of(m: Map<Seq<u8>, Set<PageLink>>, k: Seq<u8>) -> Set<PageLink> {
    if m.contains_key(k) {
        m[k]
    } else {
        Set::empty()
    }
}

/// Byte-string order or equality.
pub open spec fn bytes_le(a: Seq<u8>, b: Seq<u8>) -> bool {
    bytes_lt(a, b) || a == b
}

/// Lexicographic order on byte strings: the order `Ord` of `Vec<u8>` gives,
/// as std documents it.
pub open spec fn bytes_lt(a: Seq<u8>, b: Seq<u8>) -> bool
    decreases a.len(),
{
    if b.len() == 0 {
        false
    } else if a.len() == 0 {
        true
    } else if a[0] != b[0] {
        a[0] < b[0]
    } else {
        bytes_lt(a.skip(1), b.skip(1))
    }
}

/// Relies on scc::TreeIndex::new: the new tree is empty.
#[verifier::external_body]
pub fn pk_map_new() -> (t: PkMapTree)
    ensures
        forall|k: u64| !(#[trigger] pk_map_view(t).contains_key(k)),
{
    scc::tree_index::TreeIndex::new()
}

/// Relies on scc::TreeIndex::insert_sync: inserts the pair and returns `Ok`,
/// or returns the pair back in `Err` when the key already exists.
#[verifier::external_body]
pub fn pk_map_insert(t: &mut PkMapTree, k: u64, v: PageLink) -> (r: bool)
    ensures
        r == !pk_map_view(*old(t)).contains_key(k),
        r ==> pk_map_view(*final(t)) == pk_map_view(*old(t)).insert(k, v),
        !r ==> pk_map_view(*final(t)) == pk_map_view(*old(t)),
{
    t.insert_sync(k, v).is_ok()
}

/// Relies on scc::TreeIndex::peek_with: reads the value for the key, if any.
#[verifier::external_body]
pub fn pk_map_peek(t: &PkMapTree, k: &u64) -> (r: Option<PageLink>)
    ensures
        r == if pk_map_view(*t).contains_key(*k) {
            Some(pk_map_view(*t)[*k])
        } else {
            None::<PageLink>
        },
{
    t.peek_with(k, |_, v| *v)
}

/// Relies on scc::TreeIndex::remove_sync: removes the key's entry and says
/// whether one was there.
#[verifier::external_body]
pub fn pk_map_remove(t: &mut PkMapTree, k: &u64) -> (r: bool)
    ensures
        r == pk_map_view(*old(t)).contains_key(*k),
        pk_map_view(*final(t)) == pk_map_view(*old(t)).remove(*k),
{
    t.remove_sync(k)
}

/// Relies on scc::TreeIndex::iter: visits every entry once, keys ascending.
#[verifier::external_body]
pub fn pk_map_entries(t: &PkMapTree) -> (r: Vec<(u64, PageLink)>)
    ensures
        forall|i: int|
            0 <= i < r@.len() ==> pk_map_view(*t).contains_key(#[trigger] r@[i].0)
                && pk_map_view(*t)[r@[i].0] == r@[i].1,
        forall|i: int, j: int| 0 <= i < j < r@.len() ==> #[trigger] r@[i].0 < #[trigger] r@[j].0,
        forall|k: u64|
            #[trigger] pk_map_view(*t).contains_key(k) ==> exists|i: int|
                0 <= i < r@.len() && #[trigger] r@[i].0 == k,
{
    let guard = scc::Guard::new();
    t.iter(&guard).map(|(k, v)| (*k, *v)).collect()
}

/// Relies on scc::TreeIndex::new: the new tree is empty.
#[verifier::external_body]
pub fn unique_index_new() -> (t: UniqueIndexTree)
    ensures
        forall|k: i64| !(#[trigger] unique_index_view(t).contains_key(k)),
{
    scc::tree_index::TreeIndex::new()
}

/// Relies on scc::TreeIndex::insert_sync: inserts the pair and returns `Ok`,
/// or returns the pair back in `Err` when the key already exists.
#[verifier::external_body]
pub fn unique_index_insert(t: &mut UniqueIndexTree, k: i64, v: PageLink) -> (r: bool)
    ensures
        r == !unique_index_view(*old(t)).contains_key(k),
        r ==> unique_index_view(*final(t)) == unique_index_view(*old(t)).insert(k, v),
        !r ==> unique_index_view(*final(t)) == unique_index_view(*old(t)),
{
    t.insert_sync(k, v).is_ok()
}

/// Relies on scc::TreeIndex::peek_with: reads the value for the key, if any.
#[verifier::external_body]
pub fn unique_index_peek(t: &UniqueIndexTree, k: &i64) -> (r: Option<PageLink>)
    ensures
        r == if unique_index_view(*t).contains_key(*k) {
            Some(unique_index_view(*t)[*k])
        } else {
            None::<PageLink>
        },
{
    t.peek_with(k, |_, v| *v)
}

/// Relies on scc::TreeIndex::remove_sync: removes the key's entry and says
/// whether one was there.
#[verifier::external_body]
pub fn unique_index_remove(t: &mut UniqueIndexTree, k: &i64) -> (r: bool)
    ensures
        r == unique_index_view(*old(t)).contains_key(*k),
        unique_index_view(*final(t)) == unique_index_view(*old(t)).remove(*k),
{
    t.remove_sync(k)
}

/// Relies on scc::TreeIndex::iter: visits every entry once, keys ascending.
#[verifier::external_body]
pub fn unique_index_entries(t: &UniqueIndexTree) -> (r: Vec<(i64, PageLink)>)
    ensures
        forall|i: int|
            0 <= i < r@.len() ==> unique_index_view(*t).contains_key(#[trigger] r@[i].0)
                && unique_index_view(*t)[r@[i].0] == r@[i].1,
        forall|i: int, j: int| 0 <= i < j < r@.len() ==> #[trigger] r@[i].0 < #[trigger] r@[j].0,
        forall|k: i64|
            #[trigger] unique_index_view(*t).contains_key(k) ==> exists|i: int|
                0 <= i < r@.len() && #[trigger] r@[i].0 == k,
{
    let guard = scc::Guard::new();
    t.iter(&guard).map(|(k, v)| (*k, *v)).collect()
}

/// Relies on scc::TreeIndex::new: the new tree is empty.
#[verifier::external_body]
pub fn non_unique_index_new() -> (t: NonUniqueIndexTree)
    ensures
        forall|k: Seq<u8>| !(#[trigger] non_unique_index_view(t).contains_key(k)),
{
    scc::tree_index::TreeIndex::new()
}

/// Relies on scc::TreeIndex::peek_with and insert_sync and on
/// lockfree::set::Set::insert: adds the link to the key's bucket, creating
/// the bucket when the key is new.
#[verifier::external_body]
pub fn non_unique_index_add(t: &mut NonUniqueIndexTree, k: &Vec<u8>, l: PageLink)
    ensures
        non_unique_index_view(*final(t)) == non_unique_index_view(*old(t)).insert(
            k@,
            bucket_of(non_unique_index_view(*old(t)), k@).insert(l),
        ),
{
    if let Some(set) = t.peek_with(k, |_, s| s.clone()) {
        let _ = set.insert(l);
    } else {
        let set = std::sync::Arc::new(lockfree::set::Set::new());
        let _ = set.insert(l);
        let _ = t.insert_sync(k.clone(), set);
    }
}

/// Relies on scc::TreeIndex::peek_with and remove_if_sync and on
/// lockfree::set::Set::remove and iter: removes the link from the key's
/// bucket and drops the bucket when it is left empty.
#[verifier::external_body]
pub fn non_unique_index_remove(t: &mut NonUniqueIndexTree, k: &Vec<u8>, l: &PageLink)
    ensures
        non_unique_index_view(*final(t)) == {
            let b = bucket_of(non_unique_index_view(*old(t)), k@).remove(*l);
            if b.is_empty() {
                non_unique_index_view(*old(t)).remove(k@)
            } else {
                non_unique_index_view(*old(t)).insert(k@, b)
            }
        },
{
    if let Some(set) = t.peek_with(k, |_, s| s.clone()) {
        let _ = set.remove(l);
        let _ = t.remove_if_sync(k, |s| s.iter().next().is_none());
    }
}

/// Relies on scc::TreeIndex::peek_with and on lockfree::set::Set::iter: the
/// key's bucket as a duplicate-free vector, in no promised order.
#[verifier::external_body]
pub fn non_unique_index_get(t: &NonUniqueIndexTree, k: &Vec<u8>) -> (r: Option<Vec<PageLink>>)
    ensures
        match r {
            Some(v) => {
                &&& non_unique_index_view(*t).contains_key(k@)
                &&& v@.to_set() == non_unique_index_view(*t)[k@]
                &&& v@.no_duplicates()
            },
            None => !non_unique_index_view(*t).contains_key(k@),
        },
{
    t.peek_with(k, |_, s| s.iter().map(|g| *g).collect())
}

/// Relies on scc::TreeIndex::iter and on lockfree::set::Set::iter: every
/// key's bucket once, keys in ascending byte order, buckets duplicate-free
/// and in no promised order.
#[verifier::external_body]
pub fn non_unique_index_entries(t: &NonUniqueIndexTree) -> (r: Vec<(Vec<u8>, Vec<PageLink>)>)
    ensures
        forall|i: int|
            0 <= i < r@.len() ==> {
                let e = #[trigger] r@[i];
                &&& non_unique_index_view(*t).contains_key(e.0@)
                &&& e.1@.to_set() == non_unique_index_view(*t)[e.0@]
                &&& e.1@.no_duplicates()
            },
        forall|i: int, j: int|
            0 <= i < j < r@.len() ==> bytes_lt(#[trigger] r@[i].0@, #[trigger] r@[j].0@),
        forall|k: Seq<u8>|
            #[trigger] non_unique_index_view(*t).contains_key(k) ==> exists|i: int|
                0 <= i < r@.len() && (#[trigger] r@[i].0)@ == k,
{
    let guard = scc::Guard::new();
    t.iter(&guard).map(|(k, s)| (k.clone(), s.iter().map(|g| *g).collect())).collect()
}

} // verus!
