//! Estimated cardinality of a partial join tree.
//!
//! An estimate is a ratio of integers: the product of the cardinalities of
//! the joined relations, scaled by the selectivity of each filter applied,
//! over the product of the distinct-value counts of the edges joined on.
//! The selectivity of a filter is itself a ratio. Its upper part goes into
//! the numerator and its lower part into a scale that goes wherever the
//! numerator goes, so that a join which leaves out the numerator of an input
//! leaves out that input's filters too. Products that do not fit saturate.

use vstd::prelude::*;
use crate::statistics::assumptions::{
    DEFAULT_SELECTIVITY_DENOMINATOR, DEFAULT_SELECTIVITY_NUMERATOR,
};
use super::edge::NeighborEdge;

verus! {

/// The product of `a` and `b`, or the largest value if that does not fit.
pub open spec fn sat_mul(a: u128, b: u128) -> u128 {
    if a * b > u128::MAX {
        u128::MAX
    } else {
        (a * b) as u128
    }
}

/// The sum of `a` and `b`, or the largest value if that does not fit.
pub open spec fn sat_add(a: u128, b: u128) -> u128 {
    if a + b > u128::MAX {
        u128::MAX
    } else {
        (a + b) as u128
    }
}

/// The product of `a` and `b`, saturating.
pub fn saturating_product(a: u128, b: u128) -> (product: u128)
    ensures
        product == sat_mul(a, b),
{
    match a.checked_mul(b) {
        Some(product) => product,
        None => u128::MAX,
    }
}

/// The sum of `a` and `b`, saturating.
pub fn saturating_sum(a: u128, b: u128) -> (sum: u128)
    ensures
        sum == sat_add(a, b),
{
    match a.checked_add(b) {
        Some(sum) => sum,
        None => u128::MAX,
    }
}

/// Running estimate for the relations joined so far.
#[derive(Debug, Clone, Copy, PartialEq, Eq, Structural)]
pub struct Subgraph {
    /// Product of the cardinalities of the base relations joined so far and
    /// of the upper parts of the selectivities of the filters applied.
    pub numerator: u128,
    /// Product of the lower parts of the selectivities of the filters
    /// applied. It divides the numerator.
    pub filter_scale: u128,
    /// Product of the distinct-value counts of the edges used so far.
    pub selectivity_denom: u128,
}

impl Subgraph {
    /// The estimate for a relation of `rows` rows alone.
    pub open spec fn of_rows(rows: u128) -> Subgraph {
        Subgraph { numerator: rows, filter_scale: 1, selectivity_denom: 1 }
    }

    /// The estimate after joining in `other` without any condition: the
    /// numerators multiplied, and with them the scales of the filters.
    pub open spec fn with_numerator(self, other: Subgraph) -> Subgraph {
        Subgraph {
            numerator: sat_mul(self.numerator, other.numerator),
            filter_scale: sat_mul(self.filter_scale, other.filter_scale),
            selectivity_denom: self.selectivity_denom,
        }
    }

    /// The estimate after one more filter: scaled by the default selectivity.
    pub open spec fn with_filter(self) -> Subgraph {
        Subgraph {
            numerator: sat_mul(self.numerator, DEFAULT_SELECTIVITY_NUMERATOR),
            filter_scale: sat_mul(self.filter_scale, DEFAULT_SELECTIVITY_DENOMINATOR),
            selectivity_denom: self.selectivity_denom,
        }
    }

    /// The estimate after `n` more filters.
    pub open spec fn with_filters(self, n: nat) -> Subgraph
        decreases n,
    {
        if n == 0 {
            self
        } else {
            self.with_filters((n - 1) as nat).with_filter()
        }
    }

    /// The estimate after joining with `other` on an edge with `min_ndv`
    /// distinct values: the denominators and the count multiplied.
    pub open spec fn with_denom(self, other: Subgraph, min_ndv: u128) -> Subgraph {
        Subgraph {
            numerator: self.numerator,
            filter_scale: self.filter_scale,
            selectivity_denom: sat_mul(
                sat_mul(self.selectivity_denom, other.selectivity_denom),
                min_ndv,
            ),
        }
    }

    /// What the numerator is divided by: the scale of the filters times the
    /// distinct-value counts.
    pub open spec fn divisor(self) -> u128 {
        sat_mul(self.filter_scale, self.selectivity_denom)
    }

    /// Numerator over divisor, rounded down; the largest value where the
    /// divisor is zero.
    ///
    /// Costs are sums of these whole numbers of rows. Two plans whose
    /// ratios differ by less than one row at every join have the same cost,
    /// and then the plan that was found first stays.
    pub open spec fn cardinality(self) -> u128 {
        if self.divisor() == 0 {
            u128::MAX
        } else {
            self.numerator / self.divisor()
        }
    }

    /// The estimate for a relation of `rows` rows alone.
    pub fn for_rows(rows: u128) -> (subgraph: Subgraph)
        ensures
            subgraph == Self::of_rows(rows),
    {
        Subgraph { numerator: rows, filter_scale: 1, selectivity_denom: 1 }
    }

    /// Multiplies in the other side's numerator, and with it the scale of
    /// the other side's filters.
    pub fn update_numerator(&mut self, other: &Subgraph)
        ensures
            *final(self) == old(self).with_numerator(*other),
    {
        self.numerator = saturating_product(self.numerator, other.numerator);
        self.filter_scale = saturating_product(self.filter_scale, other.filter_scale);
    }

    /// Scales the estimate by the default selectivity, for one filter applied.
    pub fn apply_filter(&mut self)
        ensures
            *final(self) == old(self).with_filter(),
    {
        self.numerator = saturating_product(self.numerator, DEFAULT_SELECTIVITY_NUMERATOR);
        self.filter_scale = saturating_product(self.filter_scale, DEFAULT_SELECTIVITY_DENOMINATOR);
    }

    /// Multiplies the denominator by the other side's denominator and by the
    /// distinct-value count of `edge`, the edge chosen for this pair.
    pub fn update_denom(&mut self, other: &Subgraph, edge: &NeighborEdge)
        ensures
            *final(self) == old(self).with_denom(*other, edge.min_ndv),
    {
        let both = saturating_product(self.selectivity_denom, other.selectivity_denom);
        self.selectivity_denom = saturating_product(both, edge.min_ndv);
    }

    /// The estimated number of rows.
    pub fn estimated_cardinality(&self) -> (rows: u128)
        ensures
            rows == self.cardinality(),
    {
        let divisor = saturating_product(self.filter_scale, self.selectivity_denom);
        if divisor == 0 {
            u128::MAX
        } else {
            self.numerator / divisor
        }
    }
}

} // verus!
