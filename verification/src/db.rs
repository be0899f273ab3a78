//! The database: a fixed set of column families shared by transactions.

use vstd::prelude::*;

use crate::store::ColumnFamily;

verus! {

/// The database a transaction runs against: one ordered key/value state per
/// column family.  Column families are created when the database is set up
/// and never added or removed afterwards; a keyed operation names one by
/// index, and an index at or past `col_count()` is a caller bug, excluded by
/// precondition rather than reported as a recoverable error.
pub struct TransactionDb {
    pub columns: Vec<ColumnFamily>,
}

impl TransactionDb {
    /// How many column families the database holds.
    pub open spec fn col_count(self) -> int {
        self.columns@.len() as int
    }

    /// The contents of one column family, as a map from key to value.
    pub open spec fn col_view(self, c: int) -> Map<Seq<u8>, Seq<u8>> {
        self.columns@[c]@
    }

    pub open spec fn wf(self) -> bool {
        forall|c: int| 0 <= c < self.columns@.len() ==> (#[trigger] self.columns@[c]).wf()
    }

    /// A fresh database with `column_count` empty column families.
    pub fn new(column_count: usize) -> (r: TransactionDb)
        ensures
            r.wf(),
            r.col_count() == column_count,
            forall|c: int|
                0 <= c < column_count ==> r.col_view(c) == Map::<Seq<u8>, Seq<u8>>::empty(),
    {
        let mut columns: Vec<ColumnFamily> = Vec::new();
        let mut i: usize = 0;
        while i < column_count
            invariant
                i <= column_count,
                columns@.len() == i,
                forall|c: int|
                    0 <= c < i
                        ==> (#[trigger] columns@[c]).wf() && columns@[c]@ == Map::<
                        Seq<u8>,
                        Seq<u8>,
                    >::empty(),
            decreases column_count - i,
        {
            columns.push(ColumnFamily::empty());
            i += 1;
        }
        TransactionDb { columns }
    }

    pub fn num_columns(&self) -> (r: usize)
        ensures
            r == self.col_count(),
    {
        self.columns.len()
    }
}

} // verus!
