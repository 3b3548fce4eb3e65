//! Shared failure vocabulary for every layer of the library.

use vstd::prelude::*;

verus! {

/// Everything that can go wrong in one load–mutate–write cycle.  All
/// variants are terminal for the invocation: nothing in the library
/// retries, and no error is downgraded to a warning.
#[derive(Clone, Copy, Debug, PartialEq, Eq, Structural)]
pub enum Error {
    /// A read or write against the boot device failed.  Only raised by
    /// the unverified I/O shell; the in-memory codec never produces it.
    IoFailure,
    /// Signature or checksum mismatch, or an out-of-bounds size or
    /// count, in the on-disk table.
    CorruptTable,
    /// Fewer than two distinct partition-set roles were found.
    NoPartitionSets,
    /// Two entries of the same set decode to different triples.
    InconsistentSet,
    /// Rollback was asked of a set never marked successfully booted.
    NeverSuccessful,
}

impl Error {
    /// A short human-readable description, for the status line.
    pub fn message(&self) -> (r: &'static str)
        ensures
            self is IoFailure ==> r@ == "failed to read or write the boot device"@,
            self is CorruptTable ==> r@ == "partition table is corrupt"@,
            self is NoPartitionSets ==> r@ == "no redundant partition sets found"@,
            self is InconsistentSet ==> r@ == "partition set entries disagree"@,
            self is NeverSuccessful ==> r@ == "partition set was never successfully booted"@,
    {
        match self {
            Error::IoFailure => "failed to read or write the boot device",
            Error::CorruptTable => "partition table is corrupt",
            Error::NoPartitionSets => "no redundant partition sets found",
            Error::InconsistentSet => "partition set entries disagree",
            Error::NeverSuccessful => "partition set was never successfully booted",
        }
    }
}

} // verus!
