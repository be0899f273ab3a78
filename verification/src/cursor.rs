//! Range cursors over one column family.

use vstd::prelude::*;

use crate::keys::{key_lt, lex_lt};
use crate::options::Direction;
use crate::store::{assoc_sorted, assoc_sorted_desc, kvs_of};

verus! {

/// An open range-scan position over one column family.  The entries are
/// fixed when the cursor is created — a scan of the transaction's view of the
/// column in the order its direction dictates (ascending keys for `Forward`,
/// descending for `Reverse`) — and the cursor walks them front to back.
pub struct DbIterator {
    pub entries: Vec<(Vec<u8>, Vec<u8>)>,
    pub pos: usize,
    pub dir: Direction,
}

impl DbIterator {
    /// The key/value pairs the scan yields, in scan order.
    pub open spec fn scan_view(self) -> Seq<(Seq<u8>, Seq<u8>)> {
        kvs_of(self.entries@)
    }

    pub open spec fn pos_view(self) -> int {
        self.pos as int
    }

    pub open spec fn wf(self) -> bool {
        &&& self.pos <= self.entries@.len()
        &&& (self.dir is Forward ==> assoc_sorted(self.scan_view()))
        &&& (self.dir is Reverse ==> assoc_sorted_desc(self.scan_view()))
    }

    /// Whether the cursor is positioned on an entry.
    pub fn valid(&self) -> (r: bool)
        ensures
            r == (self.pos_view() < self.scan_view().len()),
    {
        self.pos < self.entries.len()
    }

    /// The key of the current entry.
    pub fn key(&self) -> (r: &Vec<u8>)
        requires
            self.pos_view() < self.scan_view().len(),
        ensures
            r@ == self.scan_view()[self.pos_view()].0,
    {
        &self.entries[self.pos].0
    }

    /// The value of the current entry.
    pub fn value(&self) -> (r: &Vec<u8>)
        requires
            self.pos_view() < self.scan_view().len(),
        ensures
            r@ == self.scan_view()[self.pos_view()].1,
    {
        &self.entries[self.pos].1
    }

    /// Step to the next entry in scan order.
    pub fn advance(&mut self)
        requires
            old(self).pos_view() < old(self).scan_view().len(),
        ensures
            final(self).scan_view() == old(self).scan_view(),
            final(self).dir == old(self).dir,
            final(self).pos_view() == old(self).pos_view() + 1,
            old(self).wf() ==> final(self).wf(),
    {
        let n: usize = self.entries.len();
        proof {
            assert(self.scan_view().len() == self.entries@.len());
            assert(self.pos < n);
        }
        self.pos = self.pos + 1;
    }

    /// Reposition the cursor at the first entry, in scan order, whose key is
    /// not strictly on the already-scanned side of `key`: for a forward
    /// cursor the first entry with key at or above `key`, for a reverse
    /// cursor the first entry with key at or below it.  Seeking past every
    /// entry leaves the cursor invalid.
    pub fn seek(&mut self, key: &[u8])
        ensures
            final(self).entries == old(self).entries,
            final(self).dir == old(self).dir,
            final(self).pos_view() <= final(self).scan_view().len(),
            old(self).wf() ==> final(self).wf(),
            old(self).dir is Forward ==> forall|t: int|
                0 <= t < final(self).pos_view() ==> lex_lt(
                    (#[trigger] final(self).scan_view()[t]).0,
                    key@,
                ),
            old(self).dir is Forward && final(self).pos_view() < final(self).scan_view().len()
                ==> !lex_lt(final(self).scan_view()[final(self).pos_view()].0, key@),
            old(self).dir is Reverse ==> forall|t: int|
                0 <= t < final(self).pos_view() ==> lex_lt(
                    key@,
                    (#[trigger] final(self).scan_view()[t]).0,
                ),
            old(self).dir is Reverse && final(self).pos_view() < final(self).scan_view().len()
                ==> !lex_lt(key@, final(self).scan_view()[final(self).pos_view()].0),
    {
        let ghost scan0 = kvs_of(self.entries@);
        let n: usize = self.entries.len();
        let mut p: usize = 0;
        match self.dir {
            Direction::Forward => {
                while p < n && key_lt(self.entries[p].0.as_slice(), key)
                    invariant
                        p <= n,
                        n == self.entries@.len(),
                        scan0 == kvs_of(self.entries@),
                        forall|t: int| 0 <= t < p ==> lex_lt((#[trigger] scan0[t]).0, key@),
                    decreases n - p,
                {
                    p += 1;
                }
            },
            Direction::Reverse => {
                while p < n && key_lt(key, self.entries[p].0.as_slice())
                    invariant
                        p <= n,
                        n == self.entries@.len(),
                        scan0 == kvs_of(self.entries@),
                        forall|t: int| 0 <= t < p ==> lex_lt(key@, (#[trigger] scan0[t]).0),
                    decreases n - p,
                {
                    p += 1;
                }
            },
        }
        self.pos = p;
        proof {
            assert(self.scan_view() == scan0);
        }
    }
}

} // verus!
