//! A dense sequential store for one resolution level of the index.
//!
//! A line keeps a half-open window `[start, end)` of logical positions and a
//! position-keyed store of values, backed by the two-tier cache.  Writes must
//! arrive with non-decreasing positions; a repeated position folds the new
//! value into the stored one under the combiner.

use crate::kv::KVStorage;
use crate::traits::CheckBound;
use crate::traits::Semigroup;
use crate::traits::TimestampPush;
use vstd::prelude::*;

verus! {

/// One resolution level: a window `[start, end)` of logical positions over a
/// cached store.
pub struct Line<V> {
    data: KVStorage<V>,
    start: u64,
    end: u64,
}

impl<V: Semigroup> Line<V> {
    /// The backing store is internally consistent and the window is a
    /// well-formed interval.
    pub closed spec fn inv(&self) -> bool {
        &&& self.data.inv()
        &&& self.start <= self.end
    }

    /// The lower window bound: the first representable logical position.
    pub closed spec fn start_spec(&self) -> u64 {
        self.start
    }

    /// The upper window bound: one past the highest position ever written.
    pub closed spec fn end_spec(&self) -> u64 {
        self.end
    }

    /// The stored values, as a map from logical position to model.
    pub closed spec fn contents(&self) -> Map<u64, <V as Semigroup>::M> {
        Map::new(
            |t: u64|
                self.start <= t && self.data.contents().dom().contains((t - self.start) as u64),
            |t: u64| self.data.contents()[(t - self.start) as u64],
        )
    }

    /// How many reads this line's bounded cache failed to serve.
    pub closed spec fn miss_count(&self) -> u64 {
        self.data.miss_count()
    }

    /// Whether the bounded tier currently holds the position of `timestamp`:
    /// a read of such a position is a hit.
    pub closed spec fn recently_cached(&self, timestamp: u64) -> bool {
        self.data.recently_cached((timestamp - self.start) as u64)
    }

    /// Build an empty line: the window starts out empty (`end == start`), and
    /// `length` bounds the cache, not the number of stored positions.
    pub fn new(length: usize, start: u64) -> (r: Self)
        ensures
            r.inv(),
            r.start_spec() == start,
            r.end_spec() == start,
            r.contents() == Map::<u64, <V as Semigroup>::M>::empty(),
            r.miss_count() == 0,
    {
        let r = Line { data: KVStorage::new(length), start, end: start };
        proof {
            assert(r.contents() =~= Map::<u64, <V as Semigroup>::M>::empty());
        }
        r
    }

    /// Read the value stored at `timestamp`, if any.  A read served from the
    /// base tier counts one miss; the contents never change.
    pub fn get(&mut self, timestamp: u64) -> (r: Option<V>)
        requires
            old(self).inv(),
            old(self).start_spec() <= timestamp,
        ensures
            final(self).inv(),
            final(self).contents() == old(self).contents(),
            final(self).start_spec() == old(self).start_spec(),
            final(self).end_spec() == old(self).end_spec(),
            r matches Some(v) ==> old(self).contents().dom().contains(timestamp) && v.model()
                == old(self).contents()[timestamp],
            r == None::<V> ==> !old(self).contents().dom().contains(timestamp),
            r matches Some(v) ==> final(self).recently_cached(timestamp),
            final(self).miss_count() == (if old(self).contents().dom().contains(timestamp) && !old(
                self,
            ).recently_cached(timestamp) {
                (if old(self).miss_count() < u64::MAX {
                    old(self).miss_count() + 1
                } else {
                    u64::MAX as int
                })
            } else {
                old(self).miss_count() as int
            }),
    {
        let ghost pre = *self;
        let r = self.data.get(timestamp - self.start);
        proof {
            assert(self.contents() =~= pre.contents());
        }
        r
    }

    /// Store `value` at `timestamp`, replacing any previous value.
    pub fn put(&mut self, timestamp: u64, value: V)
        requires
            old(self).inv(),
            old(self).start_spec() <= timestamp,
        ensures
            final(self).inv(),
            final(self).contents() == old(self).contents().insert(timestamp, value.model()),
            final(self).recently_cached(timestamp),
            final(self).start_spec() == old(self).start_spec(),
            final(self).end_spec() == old(self).end_spec(),
            final(self).miss_count() == old(self).miss_count(),
    {
        let ghost pre = *self;
        let ghost m = value.model();
        self.data.put(timestamp - self.start, value);
        proof {
            assert(self.contents() =~= pre.contents().insert(timestamp, m));
        }
    }

    /// The window of logical positions this line currently represents.
    pub fn get_range(&self) -> (r: (u64, u64))
        ensures
            r.0 == self.start_spec(),
            r.1 == self.end_spec(),
    {
        (self.start, self.end)
    }

    /// Whether `timestamp` lies inside the window.
    pub fn check_range(&self, timestamp: u64) -> (r: bool)
        ensures
            r == (self.start_spec() <= timestamp && timestamp < self.end_spec()),
    {
        let (start, end) = self.get_range();
        start <= timestamp && timestamp < end
    }

    /// Fold `value` into the stored value at `timestamp` (first write simply
    /// stores it).
    pub fn insert_or_update(&mut self, timestamp: u64, value: V)
        requires
            old(self).inv(),
            old(self).start_spec() <= timestamp,
        ensures
            final(self).inv(),
            final(self).start_spec() == old(self).start_spec(),
            final(self).end_spec() == old(self).end_spec(),
            final(self).contents() == old(self).contents().insert(
                timestamp,
                if old(self).contents().dom().contains(timestamp) {
                    <V as Semigroup>::combine_model(
                        old(self).contents()[timestamp],
                        value.model(),
                    )
                } else {
                    value.model()
                },
            ),
            final(self).recently_cached(timestamp),
    {
        let new_value = match self.get(timestamp) {
            Some(origin_value) => origin_value.combine(value),
            None => value,
        };
        self.put(timestamp, new_value);
    }

    /// Record `value` at `timestamp`, advancing the window.  The reference
    /// implementation aborts on a position below the window's end minus one;
    /// here that caller error is excluded by precondition.
    pub fn push(&mut self, timestamp: u64, value: V)
        requires
            old(self).inv(),
            old(self).start_spec() <= timestamp,
            timestamp + 1 >= old(self).end_spec(),
            timestamp < u64::MAX,
        ensures
            final(self).inv(),
            final(self).start_spec() == old(self).start_spec(),
            final(self).end_spec() == timestamp + 1,
            final(self).contents() == old(self).contents().insert(
                timestamp,
                if old(self).contents().dom().contains(timestamp) {
                    <V as Semigroup>::combine_model(
                        old(self).contents()[timestamp],
                        value.model(),
                    )
                } else {
                    value.model()
                },
            ),
            final(self).recently_cached(timestamp),
    {
        self.end = timestamp + 1;
        self.insert_or_update(timestamp, value);
    }

    /// How many reads this line's bounded cache failed to serve.
    pub fn cache_miss(&self) -> (r: u64)
        ensures
            r == self.miss_count(),
    {
        self.data.cache_miss()
    }
}

impl<V: Semigroup> CheckBound for Line<V> {
    open spec fn bound_spec(&self, timestamp: u64) -> bool {
        self.start_spec() <= timestamp && timestamp < self.end_spec()
    }

    fn check_bound(&self, timestamp: u64) -> (r: bool) {
        self.check_range(timestamp)
    }
}

impl<V: Semigroup> TimestampPush<V> for Line<V> {
    open spec fn can_push(&self, timestamp: u64) -> bool {
        &&& self.inv()
        &&& self.start_spec() <= timestamp
        &&& timestamp + 1 >= self.end_spec()
        &&& timestamp < u64::MAX
    }

    open spec fn push_post(pre: Self, post: Self, timestamp: u64, value: V) -> bool {
        &&& post.inv()
        &&& post.start_spec() == pre.start_spec()
        &&& post.end_spec() == timestamp + 1
        &&& post.contents() == pre.contents().insert(
            timestamp,
            if pre.contents().dom().contains(timestamp) {
                <V as Semigroup>::combine_model(pre.contents()[timestamp], value.model())
            } else {
                value.model()
            },
        )
    }

    fn push(&mut self, timestamp: u64, value: V) {
        self.push(timestamp, value);
    }
}

} // verus!
