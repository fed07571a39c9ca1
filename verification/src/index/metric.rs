//! A timestamped measurement.

use vstd::prelude::*;

verus! {

/// One measurement: a timestamp and a value.
pub struct Metric<T> {
    timestamp: u64,
    value: T,
}

impl<V> Metric<V> {
    /// The timestamp.
    pub closed spec fn timestamp_spec(&self) -> u64 {
        self.timestamp
    }

    /// The value.
    pub closed spec fn value_spec(&self) -> V {
        self.value
    }

    /// The measurement built from a timestamp and a value.
    pub closed spec fn new_spec(timestamp: u64, value: V) -> Metric<V> {
        Metric { timestamp, value }
    }

    /// The measurement with the same timestamp and a new value.
    pub closed spec fn with_value(self, value: V) -> Metric<V> {
        Metric { timestamp: self.timestamp, value }
    }

    pub fn new(timestamp: u64, value: V) -> (r: Metric<V>)
        ensures
            r == Metric::new_spec(timestamp, value),
            r.timestamp_spec() == timestamp,
            r.value_spec() == value,
    {
        Metric { timestamp, value }
    }

    pub fn value(&self) -> (r: &V)
        ensures
            *r == self.value_spec(),
    {
        &self.value
    }

    pub fn set_value(&mut self, value: V)
        ensures
            *final(self) == old(self).with_value(value),
            final(self).timestamp_spec() == old(self).timestamp_spec(),
            final(self).value_spec() == value,
    {
        self.value = value;
    }

    #[inline]
    pub fn timestamp(&self) -> (r: u64)
        ensures
            r == self.timestamp_spec(),
    {
        self.timestamp
    }

    /// What the measurement built from a timestamp and a value holds.
    pub proof fn lemma_new_spec(timestamp: u64, value: V)
        ensures
            Metric::new_spec(timestamp, value).timestamp_spec() == timestamp,
            Metric::new_spec(timestamp, value).value_spec() == value,
    {
    }

    /// What a measurement with a replaced value holds.
    pub proof fn lemma_with_value(self, value: V)
        ensures
            self.with_value(value).timestamp_spec() == self.timestamp_spec(),
            self.with_value(value).value_spec() == value,
    {
    }
}

/// Measurements compare by timestamp alone.
impl<V> PartialEq for Metric<V> {
    fn eq(&self, other: &Self) -> (r: bool) {
        self.timestamp == other.timestamp
    }
}

impl<V> vstd::std_specs::cmp::PartialEqSpecImpl for Metric<V> {
    open spec fn obeys_eq_spec() -> bool {
        true
    }

    open spec fn eq_spec(&self, other: &Metric<V>) -> bool {
        self.timestamp_spec() == other.timestamp_spec()
    }
}

impl<V> PartialOrd for Metric<V> {
    fn partial_cmp(&self, other: &Self) -> (r: Option<core::cmp::Ordering>) {
        if self.timestamp < other.timestamp {
            Some(core::cmp::Ordering::Less)
        } else if self.timestamp == other.timestamp {
            Some(core::cmp::Ordering::Equal)
        } else {
            Some(core::cmp::Ordering::Greater)
        }
    }
}

impl<V> vstd::std_specs::cmp::PartialOrdSpecImpl for Metric<V> {
    open spec fn obeys_partial_cmp_spec() -> bool {
        true
    }

    open spec fn partial_cmp_spec(&self, other: &Metric<V>) -> Option<core::cmp::Ordering> {
        if self.timestamp_spec() < other.timestamp_spec() {
            Some(core::cmp::Ordering::Less)
        } else if self.timestamp_spec() == other.timestamp_spec() {
            Some(core::cmp::Ordering::Equal)
        } else {
            Some(core::cmp::Ordering::Greater)
        }
    }
}

} // verus!
