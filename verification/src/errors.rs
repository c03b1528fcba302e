//! Errors surfaced by the counting core. Per-record decode problems are
//! not errors of the library: the caller skips such records and reports
//! them. Everything here is fatal to the operation that returns it.

use vstd::prelude::*;

verus! {

/// A fatal error of the counting core.
#[derive(Debug, Clone)]
pub enum CountError {
    /// Region merging was handed an empty region list.
    EmptyRegionInput,
    /// One chromosome's scan could not run to completion; carries the
    /// chromosome name and the underlying cause.
    ChromosomeScan { chrom: String, message: String },
}

} // verus!
