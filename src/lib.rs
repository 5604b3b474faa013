//! Single-pass aggregation of `key;value` records into per-key
//! minimum, mean and maximum, over fixed-point values in tenths.
use vstd::prelude::*;

pub mod engine;
pub mod fixed;
pub mod key;
pub mod order;
pub mod record;
pub mod table;

verus! {

/// The fatal conditions of a run.
#[derive(Clone, Copy, Debug, PartialEq, Eq, Structural)]
pub enum RunError {
    /// The buffer does not end with a line terminator.
    TruncatedInput,
    /// A line has no field separator, or its value has no accepted shape.
    InvalidRecordFormat,
}

} // verus!
