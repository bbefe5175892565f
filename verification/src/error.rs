//! What can go wrong in the library.

use vstd::prelude::*;

verus! {

/// Why a run cannot go on. Nothing is retried: the first error ends the run.
#[derive(Debug, Clone, Copy, PartialEq, Eq, Structural)]
pub enum RunError {
    /// The allow-list holds no barcode at all.
    NoBarcodes,
    /// A record was to have its tag rewritten, and the tag is not there.
    TagNotFound,
    /// The rewritten value cannot be stored in a string field. The record is
    /// as it was.
    TagValue,
    /// The record did not take the rewritten field. The old field is gone
    /// from it.
    TagNotStored,
}

} // verus!
