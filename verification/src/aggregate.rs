//! The aggregate-store capability: a timestamp-indexed store of cached
//! aggregates with a bounded window, over a monoid of values.

use crate::traits::Monoid;
use crate::traits::Semigroup;
use vstd::prelude::*;

verus! {

/// A timestamp-indexed store of cached aggregate values.
///
/// `agg_map` is the store's abstract content; `in_bound` is the window of
/// addressable timestamps, which reads and writes must respect and which
/// writes never change.
pub trait Aggregate<V: Monoid>: Sized {
    /// The store's internal invariant.
    spec fn inv(&self) -> bool;

    /// The stored aggregates, as a map from timestamp to model.
    spec fn agg_map(&self) -> Map<u64, <V as Semigroup>::M>;

    /// Whether a timestamp is addressable.
    spec fn in_bound(&self, timestamp: u64) -> bool;

    /// The identity element of the value monoid.
    fn identity(&self) -> (r: V)
        ensures
            r.model() == V::identity_model(),
    ;

    /// Whether `timestamp` is addressable.
    fn check_bound(&self, timestamp: u64) -> (r: bool)
        requires
            self.inv(),
        ensures
            r == self.in_bound(timestamp),
    ;

    /// The cached aggregate at `timestamp`, if one was stored.
    fn agg(&self, timestamp: u64) -> (r: Option<V>)
        requires
            self.inv(),
            self.in_bound(timestamp),
        ensures
            (r is Some) == self.agg_map().dom().contains(timestamp),
            r matches Some(v) ==> v.model() == self.agg_map()[timestamp],
    ;

    /// Store `value` as the aggregate at `timestamp`.
    fn set_agg(&mut self, timestamp: u64, value: V)
        requires
            old(self).inv(),
            old(self).in_bound(timestamp),
        ensures
            final(self).inv(),
            final(self).agg_map() == old(self).agg_map().insert(timestamp, value.model()),
            forall|q: u64| final(self).in_bound(q) == old(self).in_bound(q),
    ;
}

} // verus!
