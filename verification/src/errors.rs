use vstd::prelude::*;

verus! {

/// Marker for the recoverable failure mode: the cursor observed a stale
/// snapshot of the list (a compare-and-swap refused, or the target was
/// never resolved) and must be re-synchronised with `update` before the
/// operation is retried.
#[derive(Debug)]
pub struct NeedsUpdate;

/// The failures a cell or cursor operation can report.
#[derive(Debug)]
pub enum Error {
    /// The cursor is stale; call `update` and retry.
    Stale(NeedsUpdate),
    /// A compare-and-swap on a `next` slot found a different cell than the
    /// caller expected. The cell layer reports it as such; the cursor layer
    /// decides whether it means staleness.
    CasMismatch,
    /// A programmatic invariant violation: a `next` slot that should never
    /// be empty was empty, a link operation was attempted on the tail
    /// sentinel, or a delete was attempted on the tail.
    Fatal,
}

} // verus!
