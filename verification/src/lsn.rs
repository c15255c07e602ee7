//! Log sequence numbers and the identifiers of tenants and timelines.

use vstd::prelude::*;

verus! {

/// A position in the write-ahead log.
#[derive(Clone, Copy, Debug, PartialEq, Eq, Structural, Hash, PartialOrd, Ord)]
pub struct Lsn(pub u64);

impl Lsn {
    /// Records start at positions that are multiples of eight.
    pub open spec fn aligned(self) -> bool {
        self.0 % 8 == 0
    }

    #[verifier::when_used_as_spec(aligned)]
    pub fn is_aligned(self) -> (r: bool)
        ensures
            r == self.aligned(),
    {
        self.0 % 8 == 0
    }

    /// The position `n` bytes earlier, if there is one.
    pub fn checked_sub(self, n: u64) -> (r: Option<Lsn>)
        ensures
            n <= self.0 ==> r == Some(Lsn((self.0 - n) as u64)),
            n > self.0 ==> r is None,
    {
        if n <= self.0 {
            Some(Lsn(self.0 - n))
        } else {
            None
        }
    }

    /// The signed distance from `other` up to `self`.
    pub fn widening_sub(self, other: Lsn) -> (r: i128)
        ensures
            r == self.0 - other.0,
    {
        self.0 as i128 - other.0 as i128
    }
}

/// The end of the last record taken in, and the start of the one before it.
#[derive(Clone, Copy, Debug, PartialEq, Eq, Structural)]
pub struct RecordLsn {
    pub last: Lsn,
    pub prev: Lsn,
}

/// Names a timeline within a tenant.
#[derive(Clone, Copy, Debug, PartialEq, Eq, Structural, Hash, PartialOrd, Ord)]
pub struct ZTimelineId(pub u128);

/// Names a tenant.
#[derive(Clone, Copy, Debug, PartialEq, Eq, Structural, Hash, PartialOrd, Ord)]
pub struct ZTenantId(pub u128);

} // verus!
