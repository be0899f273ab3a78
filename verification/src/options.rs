//! Scan direction and read configuration.

use vstd::prelude::*;

verus! {

/// Direction of a range scan: `Forward` yields keys in ascending
/// lexicographic order, `Reverse` in descending order.  No other scan orders
/// exist.
#[derive(Clone, Copy, PartialEq, Eq, Structural, Debug)]
pub enum Direction {
    Forward,
    Reverse,
}

/// Configuration for one read.  `read_own_writes` chooses whether the read
/// sees the transaction's own pending puts and deletes layered over the
/// begin-time state (the default), or the begin-time state alone.
#[derive(Clone, Copy, PartialEq, Eq, Structural, Debug)]
pub struct ReadOptions {
    pub read_own_writes: bool,
}

impl ReadOptions {
    /// The default read configuration: reads see the transaction's own
    /// pending writes.
    pub fn new() -> (r: ReadOptions)
        ensures
            r.read_own_writes,
    {
        ReadOptions { read_own_writes: true }
    }
}

} // verus!
