//! Borrowed result buffers for point lookups.

use vstd::prelude::*;

verus! {

/// A read-only view of the bytes a point lookup produced.  The bytes live in
/// the storage slot the caller supplied to `get`, so the view cannot outlive
/// that slot — the borrow makes reading a lookup result after its scope ends
/// a compile-time error rather than a runtime hazard.
pub struct PinnedSlice<'a> {
    pub data: &'a Vec<u8>,
}

impl<'a> View for PinnedSlice<'a> {
    type V = Seq<u8>;

    open spec fn view(&self) -> Seq<u8> {
        self.data@
    }
}

impl<'a> PinnedSlice<'a> {
    /// The bytes of the lookup result.
    pub fn as_bytes(&self) -> (r: &'a Vec<u8>)
        ensures
            r@ == self@,
    {
        self.data
    }

    pub fn len(&self) -> (r: usize)
        ensures
            r == self@.len(),
    {
        self.data.len()
    }
}

} // verus!
