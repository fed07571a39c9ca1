//! A query result row.

use vstd::prelude::*;

verus! {

/// One row of a query result: a timestamp and the value recorded under the
/// queried key at that timestamp.
pub struct Metrics<V> {
    pub timestamp: u64,
    pub value: V,
}

/// Rows compare by timestamp alone.
impl<V> PartialEq for Metrics<V> {
    fn eq(&self, other: &Self) -> (r: bool) {
        self.timestamp == other.timestamp
    }
}

impl<V> vstd::std_specs::cmp::PartialEqSpecImpl for Metrics<V> {
    open spec fn obeys_eq_spec() -> bool {
        true
    }

    open spec fn eq_spec(&self, other: &Metrics<V>) -> bool {
        self.timestamp == other.timestamp
    }
}

impl<V> PartialOrd for Metrics<V> {
    fn partial_cmp(&self, other: &Self) -> (r: Option<core::cmp::Ordering>) {
        if self.timestamp < other.timestamp {
            Some(core::cmp::Ordering::Less)
        } else if self.timestamp == other.timestamp {
            Some(core::cmp::Ordering::Equal)
        } else {
            Some(core::cmp::Ordering::Greater)
        }
    }
}

impl<V> vstd::std_specs::cmp::PartialOrdSpecImpl for Metrics<V> {
    open spec fn obeys_partial_cmp_spec() -> bool {
        true
    }

    open spec fn partial_cmp_spec(&self, other: &Metrics<V>) -> Option<core::cmp::Ordering> {
        if self.timestamp < other.timestamp {
            Some(core::cmp::Ordering::Less)
        } else if self.timestamp == other.timestamp {
            Some(core::cmp::Ordering::Equal)
        } else {
            Some(core::cmp::Ordering::Greater)
        }
    }
}

} // verus!
