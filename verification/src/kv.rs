//! A two-tier key-value store: a bounded most-recently-used cache (`recent`)
//! in front of an unbounded base map.  On eviction from `recent` the victim
//! is demoted to the base; the base is never shrunk, so every key ever put
//! stays readable.  A read served from the base counts one cache miss.
//!
//! The cache is the `lru` crate's `LruCache`.  Values live in an owned arena
//! (`slab`); the cache and the base map logical keys to arena indices, so the
//! trusted surface of the outside crate is monomorphic.

use crate::traits::Semigroup;
use lru::LruCache;
use std::collections::HashMap;
use vstd::prelude::*;

verus! {

broadcast use vstd::std_specs::hash::group_hash_axioms;

#[verifier::external_type_specification]
#[verifier::external_body]
#[verifier::reject_recursive_types(K)]
#[verifier::reject_recursive_types(V)]
#[verifier::reject_recursive_types(S)]
pub struct ExLruCache<K, V, S>(LruCache<K, V, S>);

/// A bounded cache from logical position to arena index.
pub type PosCache = LruCache<u64, usize>;

/// What a bounded cache of arena indices currently holds, as a map.
pub uninterp spec fn lru_contents(c: PosCache) -> Map<u64, usize>;

/// Relies on `lru::LruCache::new`: a freshly built cache holds nothing.
#[verifier::external_body]
fn lru_new(cap: usize) -> (r: PosCache)
    requires
        cap >= 1,
    ensures
        lru_contents(r) =~= Map::empty(),
{
    LruCache::new(std::num::NonZeroUsize::new(cap).unwrap())
}

/// Relies on `lru::LruCache::contains`: reports whether the key is cached.
#[verifier::external_body]
fn lru_contains(c: &PosCache, key: u64) -> (r: bool)
    ensures
        r == lru_contents(*c).dom().contains(key),
{
    c.contains(&key)
}

/// Relies on `lru::LruCache::get`: returns the cached value for the key, if
/// any, touching only the recency order.
#[verifier::external_body]
fn lru_get(c: &mut PosCache, key: u64) -> (r: Option<usize>)
    ensures
        lru_contents(*final(c)) == lru_contents(*old(c)),
        lru_contents(*old(c)).dom().contains(key) ==> r == Some(lru_contents(*old(c))[key]),
        !lru_contents(*old(c)).dom().contains(key) ==> r == None::<usize>,
{
    c.get(&key).copied()
}

/// Relies on `lru::LruCache::push`: inserts the pair; if the key was already
/// present its previous value comes back under the same key, and if the cache
/// was full the least-recently-used entry is evicted and comes back instead.
#[verifier::external_body]
fn lru_push(c: &mut PosCache, key: u64, value: usize) -> (r: Option<(u64, usize)>)
    ensures
        r == None::<(u64, usize)> ==> !lru_contents(*old(c)).dom().contains(key)
            && lru_contents(*final(c)) == lru_contents(*old(c)).insert(key, value),
        r matches Some((k2, v2)) ==> lru_contents(*old(c)).dom().contains(k2) && v2
            == lru_contents(*old(c))[k2],
        r matches Some((k2, v2)) ==> (if k2 == key {
            lru_contents(*final(c)) == lru_contents(*old(c)).insert(key, value)
        } else {
            !lru_contents(*old(c)).dom().contains(key) && lru_contents(*final(c)) == lru_contents(
                *old(c),
            ).insert(key, value).remove(k2)
        }),
{
    c.push(key, value)
}

/// A bounded most-recently-used cache over an unbounded base store.
///
/// `get` and `put` behave as one flat map (the view); the split between the
/// tiers is observable only through the miss counter.
pub struct KVStorage<V> {
    recent: PosCache,
    base: HashMap<u64, usize>,
    slab: Vec<V>,
    cache_miss: u64,
}

impl<V: Semigroup> KVStorage<V> {
    /// Arena indices held by the tiers are in bounds.
    pub closed spec fn inv(&self) -> bool {
        &&& (forall|k: u64|
            lru_contents(self.recent).dom().contains(k) ==> lru_contents(self.recent)[k]
                < self.slab@.len())
        &&& (forall|k: u64|
            self.base@.dom().contains(k) ==> self.base@[k] < self.slab@.len())
    }

    /// The store as one flat map from key to the model of the latest value;
    /// an entry in `recent` shadows one in the base.
    pub closed spec fn contents(&self) -> Map<u64, <V as Semigroup>::M> {
        Map::new(
            |k: u64| lru_contents(self.recent).dom().contains(k) || self.base@.dom().contains(k),
            |k: u64|
                if lru_contents(self.recent).dom().contains(k) {
                    self.slab@[lru_contents(self.recent)[k] as int].model()
                } else {
                    self.slab@[self.base@[k] as int].model()
                },
        )
    }

    /// How many reads the bounded cache failed to serve.
    pub closed spec fn miss_count(&self) -> u64 {
        self.cache_miss
    }

    /// Whether the bounded tier currently holds `key`: a read of such a key
    /// is a hit.
    pub closed spec fn recently_cached(&self, key: u64) -> bool {
        lru_contents(self.recent).dom().contains(key)
    }

    /// Build a store whose bounded tier holds at most `cap` entries (at least
    /// one entry is always cached).
    pub fn new(cap: usize) -> (s: Self)
        ensures
            s.inv(),
            s.contents() == Map::<u64, <V as Semigroup>::M>::empty(),
            s.miss_count() == 0,
    {
        let bound: usize = if cap == 0 {
            1
        } else {
            cap
        };
        let s = KVStorage {
            recent: lru_new(bound),
            base: HashMap::new(),
            slab: Vec::new(),
            cache_miss: 0,
        };
        proof {
            assert(s.contents() =~= Map::<u64, <V as Semigroup>::M>::empty());
        }
        s
    }

    /// Insert `value` under `key`; a victim evicted from the bounded tier is
    /// demoted to the base.
    pub fn put(&mut self, key: u64, value: V)
        requires
            old(self).inv(),
        ensures
            final(self).inv(),
            final(self).contents() == old(self).contents().insert(key, value.model()),
            final(self).recently_cached(key),
            final(self).miss_count() == old(self).miss_count(),
    {
        let ghost pre = *self;
        let idx = self.slab.len();
        self.slab.push(value);
        match lru_push(&mut self.recent, key, idx) {
            Some((victim, vidx)) => {
                self.base.insert(victim, vidx);
            },
            None => {},
        }
        proof {
            assert(self.contents() =~= pre.contents().insert(key, self.slab@[idx as int].model()));
        }
    }

    /// Look `key` up.  A read served from the base counts one miss (saturating)
    /// and promotes the entry back into the bounded tier, possibly demoting
    /// another entry.  The flat view never changes.
    pub fn get(&mut self, key: u64) -> (r: Option<V>)
        requires
            old(self).inv(),
        ensures
            final(self).inv(),
            final(self).contents() == old(self).contents(),
            r matches Some(v) ==> old(self).contents().dom().contains(key) && v.model() == old(
                self,
            ).contents()[key],
            r == None::<V> ==> !old(self).contents().dom().contains(key),
            r matches Some(v) ==> final(self).recently_cached(key),
            final(self).miss_count() == (if old(self).contents().dom().contains(key) && !old(
                self,
            ).recently_cached(key) {
                (if old(self).miss_count() < u64::MAX {
                    old(self).miss_count() + 1
                } else {
                    u64::MAX as int
                })
            } else {
                old(self).miss_count() as int
            }),
    {
        let ghost pre = *self;
        if lru_contains(&self.recent, key) {
            match lru_get(&mut self.recent, key) {
                Some(idx) => {
                    let v = self.slab[idx].dup();
                    proof {
                        assert(self.contents() =~= pre.contents());
                    }
                    Some(v)
                },
                None => unreached(),
            }
        } else {
            let found = match self.base.get(&key) {
                Some(i) => Some(*i),
                None => None,
            };
            match found {
                Some(idx) => {
                    self.cache_miss = self.cache_miss.saturating_add(1);
                    let v = self.slab[idx].dup();
                    let promoted = self.slab[idx].dup();
                    self.put(key, promoted);
                    proof {
                        assert(self.contents() =~= pre.contents());
                    }
                    Some(v)
                },
                None => {
                    proof {
                        assert(self.contents() =~= pre.contents());
                    }
                    None
                },
            }
        }
    }

    /// How many reads the bounded cache failed to serve.
    pub fn cache_miss(&self) -> (r: u64)
        ensures
            r == self.miss_count(),
    {
        self.cache_miss
    }
}

} // verus!
