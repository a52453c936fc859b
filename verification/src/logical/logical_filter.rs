//! Filter operator.

use vstd::prelude::*;
use crate::expr::Expression;

verus! {

/// Keeps the rows of its input for which the predicate holds.
#[derive(Debug, PartialEq, Eq)]
pub struct LogicalFilter {
    pub filter: Expression,
}

} // verus!
