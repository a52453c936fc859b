//! What planning assumes where it has no statistics.

use vstd::prelude::*;

verus! {

/// Number of rows assumed for a plan whose cardinality is unknown.
pub const DEFAULT_CARDINALITY: usize = 20_000;

/// Selectivity assumed for a filter, as the ratio of
/// `DEFAULT_SELECTIVITY_NUMERATOR` to `DEFAULT_SELECTIVITY_DENOMINATOR`: one
/// row in ten passes.
pub const DEFAULT_SELECTIVITY_NUMERATOR: u128 = 1;

/// See `DEFAULT_SELECTIVITY_NUMERATOR`.
pub const DEFAULT_SELECTIVITY_DENOMINATOR: u128 = 10;

} // verus!
