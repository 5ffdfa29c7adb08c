//! The conditions under which an operation gives no result.

use vstd::prelude::*;

verus! {

/// Why an operation gave no result.
#[derive(Clone, Copy, Debug, PartialEq, Eq)]
pub enum AnalyticsError {
    /// There is no periodic sample to work on.
    EmptyInput,
    /// The number of buckets is zero, or so large that a bucket would span
    /// no time.
    InvalidBucketCount,
}

} // verus!
