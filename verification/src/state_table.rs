//! Write-through adapter over an ordered key-value store.
//!
//! The table keeps the committed image of its keyspace partition, the merged
//! image (the committed image overlaid with every write since the last
//! commit), and a log of those pending writes. `iter` exposes the merged
//! image in key order; `commit` makes it durable atomically; dropping the
//! table without a commit loses exactly the pending writes.

use vstd::prelude::*;

use vstd::pervasive::VecAdditionalExecFns;

use crate::assoc::{
    assoc_remove, assoc_sorted, assoc_upsert, assoc_pos, lemma_assoc_lb_unique,
    lemma_assoc_remove_props, lemma_assoc_upsert_props,
};
use crate::order::lex_lt;
use crate::row::{copy_bytes, copy_row, DatumS, Row};
use crate::StateError;

verus! {

/// One pending write.
pub enum RowOp {
    Insert(Row),
    Delete(Row),
}

/// The association view of a vector of encoded keys and rows.
pub open spec fn kv_view(s: Seq<(Vec<u8>, Row)>) -> Seq<(Seq<u8>, Seq<DatumS>)> {
    s.map(|q: int, e: (Vec<u8>, Row)| (e.0@, e.1@))
}

/// The durable contents of one keyspace partition, in key order.
pub struct Keyspace {
    entries: Vec<(Vec<u8>, Row)>,
}

impl View for Keyspace {
    type V = Seq<(Seq<u8>, Seq<DatumS>)>;

    closed spec fn view(&self) -> Seq<(Seq<u8>, Seq<DatumS>)> {
        kv_view(self.entries@)
    }
}

impl Keyspace {
    /// A fresh, empty partition.
    pub fn new() -> (k: Keyspace)
        ensures
            k@ == Seq::<(Seq<u8>, Seq<DatumS>)>::empty(),
    {
        let k = Keyspace { entries: Vec::new() };
        proof {
            assert(k@ =~= Seq::<(Seq<u8>, Seq<DatumS>)>::empty());
        }
        k
    }
}

/// Copy a vector of entries, preserving its association view.
fn copy_entries(v: &Vec<(Vec<u8>, Row)>) -> (r: Vec<(Vec<u8>, Row)>)
    ensures
        kv_view(r@) == kv_view(v@),
{
    let mut r: Vec<(Vec<u8>, Row)> = Vec::new();
    let mut i: usize = 0;
    while i < v.len()
        invariant
            i <= v.len(),
            r@.len() == i,
            forall|j: int|
                0 <= j < i ==> (#[trigger] r@[j]).0@ == v@[j].0@ && r@[j].1@ == v@[j].1@,
        decreases v.len() - i,
    {
        let kb = copy_bytes(&v[i].0);
        let row = copy_row(&v[i].1);
        r.push((kb, row));
        i = i + 1;
    }
    proof {
        assert(kv_view(r@) =~= kv_view(v@));
    }
    r
}

/// The write-through state-table adapter.
pub struct StateTable {
    committed: Vec<(Vec<u8>, Row)>,
    merged: Vec<(Vec<u8>, Row)>,
    delta: Vec<(Vec<u8>, RowOp)>,
}

impl StateTable {
    /// The merged image: committed contents overlaid with the pending writes.
    pub closed spec fn merged_view(&self) -> Seq<(Seq<u8>, Seq<DatumS>)> {
        kv_view(self.merged@)
    }

    /// The durable image, as of the last successful commit.
    pub closed spec fn committed_view(&self) -> Seq<(Seq<u8>, Seq<DatumS>)> {
        kv_view(self.committed@)
    }

    /// Writes are pending since the last commit.
    pub closed spec fn dirty(&self) -> bool {
        self.delta@.len() != 0
    }

    /// Both images are in strict key order, and a clean table's images agree.
    pub closed spec fn wf(&self) -> bool {
        &&& assoc_sorted(self.merged_view())
        &&& assoc_sorted(self.committed_view())
        &&& !self.dirty() ==> self.merged_view() == self.committed_view()
    }

    /// Open a table over a partition's durable contents.
    pub fn new(keyspace: Keyspace) -> (st: StateTable)
        requires
            assoc_sorted(keyspace@),
        ensures
            st.wf(),
            st.merged_view() == keyspace@,
            st.committed_view() == keyspace@,
            !st.dirty(),
    {
        let merged = copy_entries(&keyspace.entries);
        StateTable { committed: keyspace.entries, merged, delta: Vec::new() }
    }

    /// Record an upsert: the merged image gains (or replaces) the entry.
    pub fn insert(&mut self, key: Vec<u8>, value: Row) -> (res: Result<(), StateError>)
        requires
            old(self).wf(),
        ensures
            res is Ok,
            final(self).wf(),
            final(self).merged_view() == assoc_upsert(old(self).merged_view(), key@, value@),
            final(self).committed_view() == old(self).committed_view(),
            final(self).dirty(),
    {
        let kcopy = copy_bytes(&key);
        let vcopy = copy_row(&value);
        let ghost mv = self.merged_view();
        proof {
            assert forall|i: int, j: int|
                0 <= i < j < self.merged@.len() implies lex_lt(
                #[trigger] self.merged@[i].0@,
                #[trigger] self.merged@[j].0@,
            ) by {
                assert(mv[i].0 == self.merged@[i].0@);
                assert(mv[j].0 == self.merged@[j].0@);
            }
        }
        let (p, found) = assoc_pos(&self.merged, &key);
        proof {
            assert(forall|j: int| 0 <= j < mv.len() ==> (#[trigger] mv[j]).0
                == self.merged@[j].0@);
            lemma_assoc_lb_unique(mv, key@, p as int);
            lemma_assoc_upsert_props(mv, key@, value@);
        }
        if found {
            self.merged.set(p, (key, value));
        } else {
            self.merged.insert(p, (key, value));
        }
        self.delta.push((kcopy, RowOp::Insert(vcopy)));
        proof {
            assert(self.merged_view() =~= assoc_upsert(mv, key@, value@));
        }
        Ok(())
    }

    /// Record a tombstone: the merged image loses the entry if present.
    /// The value rides along only for symmetry with value-carrying deletes.
    pub fn delete(&mut self, key: Vec<u8>, value: Row) -> (res: Result<(), StateError>)
        requires
            old(self).wf(),
        ensures
            res is Ok,
            final(self).wf(),
            final(self).merged_view() == assoc_remove(old(self).merged_view(), key@),
            final(self).committed_view() == old(self).committed_view(),
            final(self).dirty(),
    {
        let ghost mv = self.merged_view();
        proof {
            assert forall|i: int, j: int|
                0 <= i < j < self.merged@.len() implies lex_lt(
                #[trigger] self.merged@[i].0@,
                #[trigger] self.merged@[j].0@,
            ) by {
                assert(mv[i].0 == self.merged@[i].0@);
                assert(mv[j].0 == self.merged@[j].0@);
            }
        }
        let (p, found) = assoc_pos(&self.merged, &key);
        proof {
            assert(forall|j: int| 0 <= j < mv.len() ==> (#[trigger] mv[j]).0
                == self.merged@[j].0@);
            lemma_assoc_lb_unique(mv, key@, p as int);
            lemma_assoc_remove_props(mv, key@);
        }
        if found {
            self.merged.remove(p);
        }
        self.delta.push((key, RowOp::Delete(value)));
        proof {
            assert(self.merged_view() =~= assoc_remove(mv, key@));
        }
        Ok(())
    }

    /// The merged image in key order, oldest key first.
    pub fn iter(&self, _epoch: u64) -> (res: Result<Vec<(Vec<u8>, Row)>, StateError>)
        requires
            self.wf(),
        ensures
            res matches Ok(v) && kv_view(v@) == self.merged_view(),
    {
        Ok(copy_entries(&self.merged))
    }

    /// Atomically drain the pending writes into the durable image.
    pub fn commit(&mut self, _epoch: u64) -> (res: Result<(), StateError>)
        requires
            old(self).wf(),
        ensures
            res is Ok,
            final(self).wf(),
            final(self).merged_view() == old(self).merged_view(),
            final(self).committed_view() == old(self).merged_view(),
            !final(self).dirty(),
    {
        let image = copy_entries(&self.merged);
        self.committed = image;
        self.delta.clear();
        Ok(())
    }

    /// Whether writes are pending since the last commit.
    pub fn is_dirty(&self) -> (r: bool)
        ensures
            r == self.dirty(),
    {
        self.delta.len() != 0
    }

    /// Give up the table; what survives is the durable image alone, as a
    /// crash would leave it. It is in key order and can open a new table.
    pub fn into_keyspace(self) -> (k: Keyspace)
        requires
            self.wf(),
        ensures
            k@ == self.committed_view(),
            assoc_sorted(k@),
    {
        Keyspace { entries: self.committed }
    }
}

} // verus!
