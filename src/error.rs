//! Failures reported by the kernel.

use vstd::prelude::*;

verus! {

/// Why an operation of the kernel did not complete.
#[derive(Clone, Copy, Debug, PartialEq, Eq, Structural)]
pub enum EventSourcingError {
    /// The partition's stored version was not the one the writer expected:
    /// another writer got there first. Reload and retry.
    VersionConflict { expected: i64, actual: i64 },
    /// The stream cannot take another event: its version would pass the
    /// largest `i64`.
    StorageUnavailable,
    /// A sortable id text is not thirty ASCII digits.
    MalformedSortableId,
    /// The clock reads an instant whose ticks do not fit in nineteen digits.
    ClockOutOfRange,
}

} // verus!
