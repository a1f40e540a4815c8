//! Filters on one indexed field.

use vstd::prelude::*;

verus! {

/// A filter on a single indexed field.
#[derive(Debug, Clone, PartialEq)]
pub enum Predicate<V> {
    /// Rows whose value equals `V`.
    Eq(V),
    /// Rows whose value is anything but `V`.
    Ne(V),
    /// Rows whose value is less than `V`.
    Lt(V),
    /// Rows whose value is at most `V`.
    Le(V),
    /// Rows whose value is greater than `V`.
    Gt(V),
    /// Rows whose value is at least `V`.
    Ge(V),
    /// Rows whose value lies in `lo ..= hi`.
    Between {
        /// Lower bound.
        lo: V,
        /// Upper bound.
        hi: V,
    },
    /// Rows whose value is one of these.
    In(Vec<V>),
}

} // verus!
