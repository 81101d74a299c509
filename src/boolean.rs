//! Marker values that stand for a JSON boolean fixed by the schema.
use vstd::prelude::*;

verus! {

/// The boolean `true`, the only value a tombstone's `deleted` field takes.
#[derive(Copy, Clone, Debug, Default, PartialEq, Eq, PartialOrd, Ord, Hash)]
pub struct True;

impl True {
    pub fn value(&self) -> (r: bool)
        ensures
            r,
    {
        true
    }
}

/// The boolean `false`, the only value an upsert's `deleted` field may take.
#[derive(Copy, Clone, Debug, Default, PartialEq, Eq, PartialOrd, Ord, Hash)]
pub struct False;

impl False {
    pub fn value(&self) -> (r: bool)
        ensures
            !r,
    {
        false
    }
}

} // verus!
