//! The per-row, per-field lock protocol. A `Lock` is a single-shot latch
//! created in the locked state; `unlock` is its one, terminal transition.
//! A `LockMap` maps `(row primary key, field tag)` to the active lock, with
//! at most one active lock per field: a mutation acquires one lock per field
//! it writes and releases them all on every exit path. The asynchronous
//! wait-for-unlock lives outside the library, which only decides.

use vstd::prelude::*;

verus! {

/// Identifier of a single lock.
#[derive(Copy, Clone, Debug, Eq, Hash, Ord, PartialEq, PartialOrd, Structural)]
pub struct LockId(pub u16);

/// A single-shot latch: starts locked, `unlock` is terminal.
pub struct Lock {
    pub id: LockId,
    pub locked: bool,
}

impl Lock {
    /// Creates a fresh lock, in the locked state.
    pub fn new(id: LockId) -> (r: Self)
        ensures
            r.id == id,
            r.locked,
    {
        Lock { id, locked: true }
    }

    /// Releases the lock; a waiter polling it is then ready.
    pub fn unlock(&mut self)
        ensures
            final(self).id == old(self).id,
            !final(self).locked,
    {
        self.locked = false;
    }

    /// Whether a waiter would still be pending.
    pub fn is_locked(&self) -> (r: bool)
        ensures
            r == self.locked,
    {
        self.locked
    }
}

/// The contents of a lock map as a mathematical map.
pub open spec fn entries_map(s: Seq<((u64, u16), LockId)>) -> Map<(u64, u16), LockId>
    decreases s.len(),
{
    if s.len() == 0 {
        Map::empty()
    } else {
        entries_map(s.drop_last()).insert(s.last().0, s.last().1)
    }
}

/// The contents contain a key exactly when some entry holds it.
pub proof fn lemma_entries_map_contains(s: Seq<((u64, u16), LockId)>, k: (u64, u16))
    ensures
        entries_map(s).contains_key(k) <==> exists|i: int| 0 <= i < s.len() && (#[trigger] s[i]).0
            == k,
    decreases s.len(),
{
    if s.len() > 0 {
        lemma_entries_map_contains(s.drop_last(), k);
        if s.last().0 == k {
            assert(s[s.len() - 1].0 == k);
        } else if entries_map(s.drop_last()).contains_key(k) {
            let i = choose|i: int| 0 <= i < s.len() - 1 && (#[trigger] s.drop_last()[i]).0 == k;
            assert(s[i].0 == k);
        } else if exists|i: int| 0 <= i < s.len() && (#[trigger] s[i]).0 == k {
            let i = choose|i: int| 0 <= i < s.len() && (#[trigger] s[i]).0 == k;
            assert(i < s.len() - 1 && s.drop_last()[i].0 == k);
        }
    }
}

/// Removing the one entry of a key removes exactly that key, when keys do
/// not repeat.
pub proof fn lemma_entries_map_remove(s: Seq<((u64, u16), LockId)>, i: int)
    requires
        0 <= i < s.len(),
        forall|a: int, b: int| 0 <= a < b < s.len() ==> (#[trigger] s[a]).0 != (#[trigger] s[b]).0,
    ensures
        entries_map(s.remove(i)) == entries_map(s).remove(s[i].0),
    decreases s.len(),
{
    lemma_entries_map_contains(s.remove(i), s[i].0);
    if i == s.len() - 1 {
        assert(s.remove(i) =~= s.drop_last());
        assert(!entries_map(s.drop_last()).contains_key(s[i].0));
        assert(entries_map(s.drop_last()) =~= entries_map(s.drop_last()).insert(
            s.last().0,
            s.last().1,
        ).remove(s[i].0));
    } else {
        lemma_entries_map_remove(s.drop_last(), i);
        assert(s.remove(i).drop_last() =~= s.drop_last().remove(i));
        assert(s.remove(i).last() == s.last());
        assert(entries_map(s.remove(i)) == entries_map(s.drop_last().remove(i)).insert(
            s.last().0,
            s.last().1,
        ));
        assert(entries_map(s).remove(s[i].0) =~= entries_map(s.drop_last()).remove(s[i].0).insert(
            s.last().0,
            s.last().1,
        ));
    }
}

/// A map from `(row primary key, field tag)` to the active lock for that
/// field, present only while a mutation is in flight.
pub struct LockMap {
    pub entries: Vec<((u64, u16), LockId)>,
    pub next_id: u16,
}

impl LockMap {
    /// The active locks as a mathematical map.
    pub open spec fn view(&self) -> Map<(u64, u16), LockId> {
        entries_map(self.entries@)
    }

    /// No field is locked twice.
    pub open spec fn wf(&self) -> bool {
        forall|a: int, b: int|
            0 <= a < b < self.entries@.len() ==> (#[trigger] self.entries@[a]).0 != (
            #[trigger] self.entries@[b]).0
    }

    /// Creates an empty lock map.
    pub fn new() -> (r: Self)
        ensures
            r.wf(),
            r.view() == Map::<(u64, u16), LockId>::empty(),
            r.entries@.len() == 0,
    {
        LockMap { entries: Vec::new(), next_id: 0 }
    }

    /// Looks up the active lock for a field, if any.
    pub fn get(&self, pk: u64, field: u16) -> (r: Option<LockId>)
        requires
            self.wf(),
        ensures
            r == if self.view().contains_key((pk, field)) {
                Some(self.view()[(pk, field)])
            } else {
                None::<LockId>
            },
    {
        let mut i: usize = 0;
        proof {
            lemma_entries_map_contains(self.entries@, (pk, field));
        }
        while i < self.entries.len()
            invariant
                i <= self.entries@.len(),
                self.wf(),
                forall|j: int| 0 <= j < i ==> (#[trigger] self.entries@[j]).0 != (pk, field),
            decreases self.entries@.len() - i,
        {
            let e = self.entries[i];
            if e.0.0 == pk && e.0.1 == field {
                proof {
                    lemma_entries_value(self.entries@, i as int);
                }
                return Some(e.1);
            }
            i = i + 1;
        }
        None
    }

    /// Tries to install a fresh lock for a field: succeeds exactly when no
    /// lock is active there, as the compare-exchange of the concurrent map
    /// does.
    pub fn acquire(&mut self, pk: u64, field: u16, id: LockId) -> (r: bool)
        requires
            old(self).wf(),
        ensures
            final(self).wf(),
            r == !old(self).view().contains_key((pk, field)),
            r ==> final(self).view() == old(self).view().insert((pk, field), id),
            r ==> final(self).entries@.len() == old(self).entries@.len() + 1,
            !r ==> *final(self) == *old(self),
    {
        match self.get(pk, field) {
            Some(_) => false,
            None => {
                proof {
                    lemma_entries_map_contains(self.entries@, (pk, field));
                }
                self.entries.push(((pk, field), id));
                proof {
                    assert(self.entries@.drop_last() =~= old(self).entries@);
                }
                true
            },
        }
    }

    /// Releases the lock of a field, if one is active.
    pub fn release(&mut self, pk: u64, field: u16)
        requires
            old(self).wf(),
        ensures
            final(self).wf(),
            final(self).view() == old(self).view().remove((pk, field)),
            old(self).view().contains_key((pk, field)) ==> final(self).entries@.len() == old(
                self,
            ).entries@.len() - 1,
            !old(self).view().contains_key((pk, field)) ==> *final(self) == *old(self),
    {
        proof {
            lemma_entries_map_contains(self.entries@, (pk, field));
        }
        let mut i: usize = 0;
        while i < self.entries.len()
            invariant
                i <= self.entries@.len(),
                self == old(self),
                old(self).wf(),
                forall|j: int| 0 <= j < i ==> (#[trigger] self.entries@[j]).0 != (pk, field),
            decreases self.entries@.len() - i,
        {
            let e = self.entries[i];
            if e.0.0 == pk && e.0.1 == field {
                proof {
                    assert((self.entries@[i as int]).0 == (pk, field));
                    assert(exists|j: int|
                        0 <= j < self.entries@.len() && (#[trigger] self.entries@[j]).0 == (
                        pk,
                        field,
                    ));
                    lemma_entries_map_contains(self.entries@, (pk, field));
                    assert(old(self).view().contains_key((pk, field)));
                }
                self.entries.remove(i);
                proof {
                    lemma_entries_map_remove(old(self).entries@, i as int);
                }
                return ;
            }
            i = i + 1;
        }
        proof {
            assert(!old(self).view().contains_key((pk, field)));
            assert(old(self).view() =~= old(self).view().remove((pk, field)));
        }
    }
}

/// The contents map an entry's key to that entry's lock, when keys do not
/// repeat.
pub proof fn lemma_entries_value(s: Seq<((u64, u16), LockId)>, i: int)
    requires
        0 <= i < s.len(),
        forall|a: int, b: int| 0 <= a < b < s.len() ==> (#[trigger] s[a]).0 != (#[trigger] s[b]).0,
    ensures
        entries_map(s).contains_key(s[i].0),
        entries_map(s)[s[i].0] == s[i].1,
    decreases s.len(),
{
    if i == s.len() - 1 {
    } else {
        lemma_entries_value(s.drop_last(), i);
        assert(s.drop_last()[i] == s[i]);
        assert(s.last().0 != s[i].0);
    }
}

} // verus!
