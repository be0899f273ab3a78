//! Point-in-time read views: transaction-scoped and shareable.

use vstd::prelude::*;

use crate::store::ColumnFamily;

verus! {

/// A read view of the state the transaction captured when it began, borrowed
/// from the transaction.  It cannot outlive the transaction: the borrow makes
/// any later use a compile-time error.
pub struct SnapshotRef<'a> {
    pub columns: &'a Vec<ColumnFamily>,
}

impl<'a> SnapshotRef<'a> {
    pub open spec fn col_count(self) -> int {
        self.columns@.len() as int
    }

    pub open spec fn col_view(self, c: int) -> Map<Seq<u8>, Seq<u8>> {
        self.columns@[c]@
    }

    pub open spec fn wf(self) -> bool {
        forall|c: int| 0 <= c < self.columns@.len() ==> (#[trigger] self.columns@[c]).wf()
    }

    /// Point lookup in the snapshot, returning an owned copy of the value.
    pub fn get(&self, col: usize, key: &[u8]) -> (r: Option<Vec<u8>>)
        requires
            self.wf(),
            col < self.col_count(),
        ensures
            r is Some <==> self.col_view(col as int).dom().contains(key@),
            r is Some ==> (r->Some_0)@ == self.col_view(col as int)[key@],
    {
        self.columns[col].lookup(key)
    }

    pub fn num_columns(&self) -> (r: usize)
        ensures
            r == self.col_count(),
    {
        self.columns.len()
    }
}

/// A read view of the state the transaction captured when it began, owned by
/// the holder.  Unlike [`SnapshotRef`], it stays valid and readable after the
/// transaction that produced it commits, rolls back, or is dropped.
pub struct SharedSnapshot {
    pub columns: Vec<ColumnFamily>,
}

impl SharedSnapshot {
    pub open spec fn col_count(self) -> int {
        self.columns@.len() as int
    }

    pub open spec fn col_view(self, c: int) -> Map<Seq<u8>, Seq<u8>> {
        self.columns@[c]@
    }

    pub open spec fn wf(self) -> bool {
        forall|c: int| 0 <= c < self.columns@.len() ==> (#[trigger] self.columns@[c]).wf()
    }

    /// Point lookup in the snapshot, returning an owned copy of the value.
    /// The result depends on the snapshot alone, never on what has happened
    /// to the originating transaction or the database since.
    pub fn get(&self, col: usize, key: &[u8]) -> (r: Option<Vec<u8>>)
        requires
            self.wf(),
            col < self.col_count(),
        ensures
            r is Some <==> self.col_view(col as int).dom().contains(key@),
            r is Some ==> (r->Some_0)@ == self.col_view(col as int)[key@],
    {
        self.columns[col].lookup(key)
    }

    pub fn num_columns(&self) -> (r: usize)
        ensures
            r == self.col_count(),
    {
        self.columns.len()
    }
}

} // verus!
