//! Transactions: one in-flight atomic unit of work against the store.

use vstd::prelude::*;

use crate::cursor::DbIterator;
use crate::db::TransactionDb;
use crate::keys::clone_bytes;
use crate::options::{Direction, ReadOptions};
use crate::slice::PinnedSlice;
use crate::snapshot::{SharedSnapshot, SnapshotRef};
use crate::status::{into_result, EngineStatus, Error};
use crate::store::{
    assoc_map, assoc_sorted, assoc_sorted_desc, clone_columns, clone_entries, kvs_of,
    lemma_assoc_map_reversed, lemma_merged_map_empty_pending, lemma_merged_map_insert_del,
    lemma_merged_map_insert_put, lemma_sorted_implies_distinct, merge_entries, merged_map,
    reverse_entries, ColumnFamily, WriteSet,
};

verus! {

/// One in-flight atomic unit of work.
///
/// The transaction captures the database state at begin time (`base`) and
/// accumulates its own puts and deletes per column family (`pending`).  Reads
/// see the pending writes layered over the base; nothing is visible outside
/// the transaction until `commit` publishes the pending writes to the
/// database.  A transaction dropped without `commit` leaves the database
/// untouched, which is the implicit-rollback behaviour of the engine: only
/// `commit` ever writes back.
///
/// After `commit` or `rollback` the transaction is spent: every operation
/// requires `is_active()`, so issuing one afterwards is rejected statically
/// rather than left to convention.
pub struct Transaction {
    pub base: Vec<ColumnFamily>,
    pub pending: Vec<WriteSet>,
    pub snapshot_mode: bool,
    pub active: bool,
}

impl Transaction {
    pub open spec fn col_count(self) -> int {
        self.base@.len() as int
    }

    /// The begin-time contents of one column family.
    pub open spec fn base_view(self, c: int) -> Map<Seq<u8>, Seq<u8>> {
        self.base@[c]@
    }

    /// The transaction's pending operations on one column family: `Some`
    /// bytes for a put, `None` for a delete.
    pub open spec fn pending_view(self, c: int) -> Map<Seq<u8>, Option<Seq<u8>>> {
        self.pending@[c]@
    }

    /// What a read-your-own-writes lookup sees: the pending operations
    /// layered over the begin-time state.
    pub open spec fn read_view(self, c: int) -> Map<Seq<u8>, Seq<u8>> {
        merged_map(self.base_view(c), self.pending_view(c))
    }

    /// What a lookup with the given configuration sees.
    pub open spec fn options_view(self, read_own_writes: bool, c: int) -> Map<Seq<u8>, Seq<u8>> {
        if read_own_writes {
            self.read_view(c)
        } else {
            self.base_view(c)
        }
    }

    /// Whether the transaction may still issue operations; `commit` and
    /// `rollback` clear it.
    pub open spec fn is_active(self) -> bool {
        self.active
    }

    /// Whether the transaction was begun with an associated snapshot, the
    /// precondition of the snapshot accessors.
    pub open spec fn has_snapshot_view(self) -> bool {
        self.snapshot_mode
    }

    pub open spec fn wf(self) -> bool {
        &&& self.pending@.len() == self.base@.len()
        &&& forall|c: int| 0 <= c < self.base@.len() ==> (#[trigger] self.base@[c]).wf()
        &&& forall|c: int| 0 <= c < self.pending@.len() ==> (#[trigger] self.pending@[c]).wf()
    }

    pub fn num_columns(&self) -> (r: usize)
        ensures
            r == self.col_count(),
    {
        self.base.len()
    }

    /// Whether the transaction carries a snapshot; `snapshot` and
    /// `timestamped_snapshot` may be called only when this holds.
    pub fn has_snapshot(&self) -> (r: bool)
        ensures
            r == self.has_snapshot_view(),
    {
        self.snapshot_mode
    }

    /// Record `key = value` in the transaction's pending write set for the
    /// column family.  Visible to this transaction's own reads at once,
    /// visible to others only after `commit`.
    pub fn put(&mut self, col: usize, key: &[u8], value: &[u8]) -> (r: Result<(), Error>)
        requires
            old(self).wf(),
            old(self).is_active(),
            col < old(self).col_count(),
        ensures
            r is Ok,
            final(self).wf(),
            final(self).is_active(),
            final(self).has_snapshot_view() == old(self).has_snapshot_view(),
            final(self).col_count() == old(self).col_count(),
            forall|c: int|
                0 <= c < old(self).col_count()
                    ==> final(self).base_view(c) == old(self).base_view(c),
            final(self).pending_view(col as int) == old(self).pending_view(col as int).insert(
                key@,
                Option::Some(value@),
            ),
            forall|c: int|
                0 <= c < old(self).col_count() && c != col
                    ==> final(self).pending_view(c) == old(self).pending_view(c),
            final(self).read_view(col as int) == old(self).read_view(col as int).insert(
                key@,
                value@,
            ),
    {
        let ghost pre = *self;
        let updated = self.pending[col].with_write(key, Option::Some(clone_bytes(value)));
        self.pending.set(col, updated);
        proof {
            lemma_merged_map_insert_put(
                pre.base_view(col as int),
                pre.pending_view(col as int),
                key@,
                value@,
            );
        }
        let status = EngineStatus::Success;
        into_result(&status)
    }

    /// Record a delete of `key` in the transaction's pending write set for
    /// the column family: the key disappears from this transaction's reads at
    /// once, and from the database after `commit`.
    pub fn delete(&mut self, col: usize, key: &[u8]) -> (r: Result<(), Error>)
        requires
            old(self).wf(),
            old(self).is_active(),
            col < old(self).col_count(),
        ensures
            r is Ok,
            final(self).wf(),
            final(self).is_active(),
            final(self).has_snapshot_view() == old(self).has_snapshot_view(),
            final(self).col_count() == old(self).col_count(),
            forall|c: int|
                0 <= c < old(self).col_count()
                    ==> final(self).base_view(c) == old(self).base_view(c),
            final(self).pending_view(col as int) == old(self).pending_view(col as int).insert(
                key@,
                Option::None,
            ),
            forall|c: int|
                0 <= c < old(self).col_count() && c != col
                    ==> final(self).pending_view(c) == old(self).pending_view(c),
            final(self).read_view(col as int) == old(self).read_view(col as int).remove(key@),
    {
        let ghost pre = *self;
        let updated = self.pending[col].with_write(key, Option::None);
        self.pending.set(col, updated);
        proof {
            lemma_merged_map_insert_del(
                pre.base_view(col as int),
                pre.pending_view(col as int),
                key@,
            );
        }
        let status = EngineStatus::Success;
        into_result(&status)
    }

    /// Point lookup under explicit read options.  An absent key is not an
    /// error: it yields `Ok(None)`.  A present key's bytes are placed in the
    /// caller-supplied `slot` and returned as a view borrowed from it.
    pub fn get_with_options<'a>(
        &'a self,
        options: &ReadOptions,
        col: usize,
        key: &[u8],
        slot: &'a mut Vec<u8>,
    ) -> (r: Result<Option<PinnedSlice<'a>>, Error>)
        requires
            self.wf(),
            self.is_active(),
            col < self.col_count(),
        ensures
            r is Ok,
            r->Ok_0 is Some <==> self.options_view(options.read_own_writes, col as int).dom()
                .contains(key@),
            r->Ok_0 is Some ==> (r->Ok_0->Some_0)@ == self.options_view(
                options.read_own_writes,
                col as int,
            )[key@] && final(slot)@ == self.options_view(options.read_own_writes, col as int)[key@],
            r->Ok_0 is None ==> final(slot)@ == old(slot)@,
    {
        if options.read_own_writes {
            let pending_op = self.pending[col].lookup(key);
            match pending_op {
                Option::Some(op) => {
                    match op {
                        Option::Some(v) => {
                            *slot = v;
                            let status = EngineStatus::Success;
                            match into_result(&status) {
                                Result::Ok(()) => {},
                                Result::Err(e) => {
                                    return Result::Err(e);
                                },
                            }
                            return Result::Ok(Option::Some(PinnedSlice { data: &*slot }));
                        },
                        Option::None => {
                            // a pending delete hides the key; absence is not an error
                            return Result::Ok(Option::None);
                        },
                    }
                },
                Option::None => {},
            }
        }
        // no pending operation decides the read: consult the begin-time state
        match self.base[col].lookup(key) {
            Option::Some(v) => {
                *slot = v;
                let status = EngineStatus::Success;
                match into_result(&status) {
                    Result::Ok(()) => {},
                    Result::Err(e) => {
                        return Result::Err(e);
                    },
                }
                Result::Ok(Option::Some(PinnedSlice { data: &*slot }))
            },
            Option::None => {
                // absence is a valid outcome of a point lookup, not an error
                Result::Ok(Option::None)
            },
        }
    }

    /// Point lookup under the default read options (the transaction sees its
    /// own pending writes).
    pub fn get<'a>(&'a self, col: usize, key: &[u8], slot: &'a mut Vec<u8>) -> (r: Result<
        Option<PinnedSlice<'a>>,
        Error,
    >)
        requires
            self.wf(),
            self.is_active(),
            col < self.col_count(),
        ensures
            r is Ok,
            r->Ok_0 is Some <==> self.read_view(col as int).dom().contains(key@),
            r->Ok_0 is Some ==> (r->Ok_0->Some_0)@ == self.read_view(col as int)[key@],
            r->Ok_0 is Some ==> final(slot)@ == self.read_view(col as int)[key@],
            r->Ok_0 is None ==> final(slot)@ == old(slot)@,
    {
        let options = ReadOptions::new();
        self.get_with_options(&options, col, key, slot)
    }

    /// A read view of the begin-time state, borrowed from the transaction and
    /// unable to outlive it.  The transaction must have been begun with a
    /// snapshot.
    pub fn snapshot<'a>(&'a self) -> (r: SnapshotRef<'a>)
        requires
            self.wf(),
            self.is_active(),
            self.has_snapshot_view(),
        ensures
            r.wf(),
            r.col_count() == self.col_count(),
            forall|c: int| 0 <= c < self.col_count() ==> r.col_view(c) == self.base_view(c),
    {
        SnapshotRef { columns: &self.base }
    }

    /// Like `snapshot`, but the returned snapshot owns its state and may
    /// outlive the transaction: committing, rolling back, or dropping the
    /// transaction leaves it readable with the same contents.
    pub fn timestamped_snapshot(&self) -> (r: SharedSnapshot)
        requires
            self.wf(),
            self.is_active(),
            self.has_snapshot_view(),
        ensures
            r.wf(),
            r.col_count() == self.col_count(),
            forall|c: int| 0 <= c < self.col_count() ==> r.col_view(c) == self.base_view(c),
    {
        SharedSnapshot { columns: clone_columns(&self.base) }
    }

    /// Open a cursor over one column family under explicit read options.  The
    /// cursor yields exactly the entries of the configured view, in ascending
    /// key order for `Forward` and descending for `Reverse`.
    pub fn iter_with_options(&self, options: &ReadOptions, col: usize, dir: Direction) -> (r:
        DbIterator)
        requires
            self.wf(),
            self.is_active(),
            col < self.col_count(),
        ensures
            r.wf(),
            r.dir == dir,
            r.pos_view() == 0,
            assoc_map(r.scan_view()) == self.options_view(options.read_own_writes, col as int),
            dir is Forward ==> assoc_sorted(r.scan_view()),
            dir is Reverse ==> assoc_sorted_desc(r.scan_view()),
    {
        let source: Vec<(Vec<u8>, Vec<u8>)> = if options.read_own_writes {
            merge_entries(&self.base[col].entries, &self.pending[col].ops)
        } else {
            clone_entries(&self.base[col].entries)
        };
        let ghost src_view = kvs_of(source@);
        match dir {
            Direction::Forward => DbIterator { entries: source, pos: 0, dir },
            Direction::Reverse => {
                let rev = reverse_entries(source);
                proof {
                    lemma_sorted_implies_distinct(src_view);
                    lemma_assoc_map_reversed(src_view, kvs_of(rev@));
                    assert forall|i: int, j: int| #![trigger kvs_of(rev@)[i], kvs_of(rev@)[j]]
                        0 <= i < j < kvs_of(rev@).len()
                            implies crate::keys::lex_lt(kvs_of(rev@)[j].0, kvs_of(rev@)[i].0) by {
                        let n = src_view.len();
                        assert(kvs_of(rev@)[i] == src_view[n - 1 - i]);
                        assert(kvs_of(rev@)[j] == src_view[n - 1 - j]);
                    }
                }
                DbIterator { entries: rev, pos: 0, dir }
            },
        }
    }

    /// Open a cursor over one column family under the default read options.
    pub fn iter(&self, col: usize, dir: Direction) -> (r: DbIterator)
        requires
            self.wf(),
            self.is_active(),
            col < self.col_count(),
        ensures
            r.wf(),
            r.dir == dir,
            r.pos_view() == 0,
            assoc_map(r.scan_view()) == self.read_view(col as int),
            dir is Forward ==> assoc_sorted(r.scan_view()),
            dir is Reverse ==> assoc_sorted_desc(r.scan_view()),
    {
        let options = ReadOptions::new();
        self.iter_with_options(&options, col, dir)
    }

    /// Publish the transaction's pending puts and deletes to the database and
    /// spend the transaction.  Every column family of the database becomes
    /// its previous contents with this transaction's pending operations
    /// applied, so transactions begun afterwards read the new state.
    pub fn commit(&mut self, db: &mut TransactionDb) -> (r: Result<(), Error>)
        requires
            old(self).wf(),
            old(self).is_active(),
            old(db).wf(),
            old(db).col_count() == old(self).col_count(),
        ensures
            r is Ok,
            final(self).wf(),
            !final(self).is_active(),
            final(self).col_count() == old(self).col_count(),
            final(db).wf(),
            final(db).col_count() == old(db).col_count(),
            forall|c: int|
                0 <= c < old(db).col_count()
                    ==> final(db).col_view(c) == merged_map(
                    old(db).col_view(c),
                    old(self).pending_view(c),
                ),
    {
        let ghost db0 = *db;
        let ghost tx0 = *self;
        let n: usize = db.columns.len();
        let mut c: usize = 0;
        while c < n
            invariant
                c <= n,
                n == db.columns@.len(),
                n == db0.columns@.len(),
                *self == tx0,
                tx0.wf(),
                db0.wf(),
                n == tx0.pending@.len(),
                forall|k: int|
                    0 <= k < c
                        ==> (#[trigger] db.columns@[k]).wf() && db.columns@[k]@ == merged_map(
                        db0.col_view(k),
                        tx0.pending_view(k),
                    ),
                forall|k: int| c <= k < n ==> #[trigger] db.columns@[k] == db0.columns@[k],
            decreases n - c,
        {
            let merged = merge_entries(&db.columns[c].entries, &self.pending[c].ops);
            db.columns.set(c, ColumnFamily { entries: merged });
            c += 1;
        }
        self.active = false;
        let status = EngineStatus::Success;
        into_result(&status)
    }

    /// Discard every pending put and delete and spend the transaction.  The
    /// database is untouched — this layer writes to it only in `commit` — so
    /// transactions begun afterwards read the pre-transaction state.
    pub fn rollback(&mut self) -> (r: Result<(), Error>)
        requires
            old(self).wf(),
            old(self).is_active(),
        ensures
            r is Ok,
            final(self).wf(),
            !final(self).is_active(),
            final(self).col_count() == old(self).col_count(),
            forall|c: int|
                0 <= c < old(self).col_count()
                    ==> final(self).base_view(c) == old(self).base_view(c),
            forall|c: int|
                0 <= c < old(self).col_count()
                    ==> final(self).pending_view(c) == Map::<Seq<u8>, Option<Seq<u8>>>::empty(),
            forall|c: int|
                0 <= c < old(self).col_count()
                    ==> final(self).read_view(c) == old(self).base_view(c),
    {
        let ghost tx0 = *self;
        let n: usize = self.pending.len();
        let mut c: usize = 0;
        while c < n
            invariant
                c <= n,
                n == self.pending@.len(),
                self.base == tx0.base,
                self.active == tx0.active,
                self.snapshot_mode == tx0.snapshot_mode,
                tx0.wf(),
                n == tx0.pending@.len(),
                forall|k: int|
                    0 <= k < c
                        ==> (#[trigger] self.pending@[k]).wf() && self.pending@[k]@ == Map::<
                        Seq<u8>,
                        Option<Seq<u8>>,
                    >::empty(),
                forall|k: int| c <= k < n ==> #[trigger] self.pending@[k] == tx0.pending@[k],
            decreases n - c,
        {
            self.pending.set(c, WriteSet::empty());
            c += 1;
        }
        self.active = false;
        proof {
            assert forall|c: int| 0 <= c < tx0.col_count()
                implies self.read_view(c) == tx0.base_view(c) by {
                lemma_merged_map_empty_pending(tx0.base_view(c));
            }
        }
        let status = EngineStatus::Success;
        into_result(&status)
    }
}

impl TransactionDb {
    /// Begin a transaction against this database.  The transaction captures
    /// the database's current contents as its begin-time state, starts with
    /// nothing pending, and carries a snapshot exactly when `with_snapshot`
    /// is set.
    pub fn begin_transaction(&self, with_snapshot: bool) -> (r: Transaction)
        requires
            self.wf(),
        ensures
            r.wf(),
            r.is_active(),
            r.has_snapshot_view() == with_snapshot,
            r.col_count() == self.col_count(),
            forall|c: int| 0 <= c < self.col_count() ==> r.base_view(c) == self.col_view(c),
            forall|c: int|
                0 <= c < self.col_count()
                    ==> r.pending_view(c) == Map::<Seq<u8>, Option<Seq<u8>>>::empty(),
            forall|c: int| 0 <= c < self.col_count() ==> r.read_view(c) == self.col_view(c),
    {
        let base = clone_columns(&self.columns);
        let n: usize = base.len();
        let mut pending: Vec<WriteSet> = Vec::new();
        let mut i: usize = 0;
        while i < n
            invariant
                i <= n,
                pending@.len() == i,
                forall|c: int|
                    0 <= c < i
                        ==> (#[trigger] pending@[c]).wf() && pending@[c]@ == Map::<
                        Seq<u8>,
                        Option<Seq<u8>>,
                    >::empty(),
            decreases n - i,
        {
            pending.push(WriteSet::empty());
            i += 1;
        }
        let r = Transaction { base, pending, snapshot_mode: with_snapshot, active: true };
        proof {
            assert forall|c: int| 0 <= c < self.col_count()
                implies r.read_view(c) == self.col_view(c) by {
                lemma_merged_map_empty_pending(r.base_view(c));
            }
        }
        r
    }
}

} // verus!
