//! Per-station aggregation of `name;value` measurement records.
//!
//! Values carry one decimal digit and are held throughout as integers
//! counting tenths, so no rounding happens before the final average.
pub mod file;
pub mod hashmap;
pub mod measurement;
pub mod number;

use vstd::prelude::*;
use crate::file::{NUM_WORKERS, aggregate, is_report, parse, records};
use crate::hashmap::count_limit;
use crate::measurement::FinalMeasurement;

verus! {

/// Aggregates the whole input with the default degree of parallelism and
/// returns the report sorted by key.
pub fn perform_calculations_only(data: &[u8]) -> (r: Vec<(Vec<u8>, FinalMeasurement)>)
    requires
        data@.len() <= count_limit(),
    ensures
        is_report(r@, aggregate(records(data@))),
{
    parse(data, NUM_WORKERS)
}

} // verus!
