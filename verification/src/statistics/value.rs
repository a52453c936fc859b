//! A statistic that may be exact, estimated or unknown.

use vstd::prelude::*;
use vstd::string::StringExecFns;
use core::cmp::Ordering;
use vstd::std_specs::cmp::PartialOrdSpecImpl;
use crate::arrays::format::{integer_text, usize_text};

verus! {

/// Value of a statistic.
#[derive(Debug, Clone, Default, Copy, PartialEq, Eq)]
pub enum StatisticsValue<T> {
    /// Exact value is known.
    Exact(T),
    /// Value is estimated.
    Estimated(T),
    /// Value is unknown.
    #[default]
    Unknown,
}

impl<T> StatisticsValue<T> {
    /// The value, exact or estimated, if there is one.
    pub open spec fn spec_value(self) -> Option<T> {
        match self {
            StatisticsValue::Exact(v) => Some(v),
            StatisticsValue::Estimated(v) => Some(v),
            StatisticsValue::Unknown => None,
        }
    }

    /// Try to get a value if available.
    pub fn value(&self) -> (found: Option<&T>)
        ensures
            self.spec_value() matches Some(v) ==> found == Some(&v),
            self.spec_value().is_none() ==> found.is_none(),
    {
        match self {
            StatisticsValue::Exact(v) => Some(v),
            StatisticsValue::Estimated(v) => Some(v),
            StatisticsValue::Unknown => None,
        }
    }
}

/// Statistics of one column.
#[derive(Debug, Clone, Copy, PartialEq, Eq)]
pub struct ColumnStatistics {
    /// Number of distinct values in the column.
    pub num_distinct: StatisticsValue<usize>,
}

/// How two numbers compare.
pub open spec fn number_order(a: usize, b: usize) -> Ordering {
    if a < b {
        Ordering::Less
    } else if a == b {
        Ordering::Equal
    } else {
        Ordering::Greater
    }
}

impl PartialOrd for StatisticsValue<usize> {
    /// Values that are known compare as their numbers do, whether exact or
    /// estimated, and come after the unknown value.
    fn partial_cmp(&self, other: &Self) -> (order: Option<Ordering>) {
        match (self.value(), other.value()) {
            (Some(a), Some(b)) => {
                if *a < *b {
                    Some(Ordering::Less)
                } else if *a == *b {
                    Some(Ordering::Equal)
                } else {
                    Some(Ordering::Greater)
                }
            },
            (Some(_), None) => Some(Ordering::Greater),
            (None, Some(_)) => Some(Ordering::Less),
            (None, None) => Some(Ordering::Equal),
        }
    }
}

impl PartialOrdSpecImpl for StatisticsValue<usize> {
    open spec fn obeys_partial_cmp_spec() -> bool {
        true
    }

    open spec fn partial_cmp_spec(&self, other: &Self) -> Option<Ordering> {
        match (self.spec_value(), other.spec_value()) {
            (Some(a), Some(b)) => Some(number_order(a, b)),
            (Some(_), None) => Some(Ordering::Greater),
            (None, Some(_)) => Some(Ordering::Less),
            (None, None) => Some(Ordering::Equal),
        }
    }
}

impl StatisticsValue<usize> {
    /// The value as a user sees it.
    pub open spec fn text(self) -> Seq<char> {
        match self {
            StatisticsValue::Exact(v) => integer_text(v as int),
            StatisticsValue::Estimated(v) => integer_text(v as int) + " [estimated]"@,
            StatisticsValue::Unknown => "[unknown]"@,
        }
    }

    /// The value as a user sees it: the number, marked where it is an
    /// estimate, or a note that it is unknown.
    pub fn to_string(&self) -> (out: String)
        ensures
            out@ == self.text(),
    {
        match self {
            StatisticsValue::Exact(v) => usize_text(*v),
            StatisticsValue::Estimated(v) => {
                let mut out = usize_text(*v);
                out.append(" [estimated]");
                out
            },
            StatisticsValue::Unknown => String::from_str("[unknown]"),
        }
    }
}

} // verus!
