//! One timestamp's worth of keyed values.

use vstd::prelude::*;
use vstd::std_specs::cmp::PartialEqSpec;

verus! {

/// The first index whose key equals `k` under the key type's equality (the
/// length if none).  Meaningful when the key type's `==` obeys its
/// specification.
pub open spec fn find_key<K: PartialEqSpec, V>(s: Seq<(K, V)>, k: K) -> int
    decreases s.len(),
{
    if s.len() == 0 {
        0
    } else if s[0].0.eq_spec(&k) {
        0
    } else {
        1 + find_key(s.drop_first(), k)
    }
}

/// The value stored under `k`, if any.
pub open spec fn lookup<K: PartialEqSpec, V>(s: Seq<(K, V)>, k: K) -> Option<V> {
    let i = find_key(s, k);
    if i < s.len() {
        Some(s[i].1)
    } else {
        None
    }
}

/// A scan that stops at the first matching key finds `find_key`.
pub proof fn lemma_find_key_at<K: PartialEqSpec, V>(s: Seq<(K, V)>, k: K, i: int)
    requires
        0 <= i <= s.len(),
        forall|q: int| 0 <= q < i ==> !(#[trigger] s[q]).0.eq_spec(&k),
        i < s.len() ==> s[i].0.eq_spec(&k),
    ensures
        find_key(s, k) == i,
    decreases i,
{
    if i > 0 {
        let s0 = s.drop_first();
        assert forall|q: int| 0 <= q < i - 1 implies !(#[trigger] s0[q]).0.eq_spec(&k) by {
            assert(s0[q] == s[q + 1]);
        }
        if i - 1 < s0.len() {
            assert(s0[i - 1] == s[i]);
        }
        lemma_find_key_at(s0, k, i - 1);
    }
}

/// The values recorded at one timestamp, as an association list with keys
/// unique under the key type's equality.
pub struct TimestampElement<K, V> {
    timestamp: u64,
    dict: Vec<(K, V)>,
}

impl<K: PartialEqSpec + Eq, V> TimestampElement<K, V> {
    /// The timestamp.
    pub closed spec fn timestamp_spec(&self) -> u64 {
        self.timestamp
    }

    /// The stored pairs, in insertion order.
    pub closed spec fn dict_view(&self) -> Seq<(K, V)> {
        self.dict@
    }

    /// Build an element holding one pair.
    pub fn new(timestamp: u64, pk: K, value: V) -> (r: TimestampElement<K, V>)
        ensures
            r.timestamp_spec() == timestamp,
            r.dict_view() == Seq::empty().push((pk, value)),
    {
        let mut dict: Vec<(K, V)> = Vec::new();
        dict.push((pk, value));
        let r = TimestampElement { timestamp, dict };
        proof {
            assert(r.dict_view() =~= Seq::empty().push((pk, value)));
        }
        r
    }

    /// Store `v` under `k`, replacing and returning a previous value stored
    /// under an equal key (the original key is kept, as a hash map would).
    pub fn insert(&mut self, k: K, v: V) -> (r: Option<V>)
        ensures
            final(self).timestamp_spec() == old(self).timestamp_spec(),
            K::obeys_eq_spec() ==> ({
                let d = old(self).dict_view();
                let i = find_key(d, k);
                if i < d.len() {
                    r == Some(d[i].1) && final(self).dict_view() == d.update(i, (d[i].0, v))
                } else {
                    r is None && final(self).dict_view() == d.push((k, v))
                }
            }),
    {
        let ghost d = old(self).dict_view();
        let mut i: usize = 0;
        while i < self.dict.len()
            invariant
                i <= self.dict.len(),
                d == self.dict@,
                d == old(self).dict_view(),
                self.timestamp_spec() == old(self).timestamp_spec(),
                K::obeys_eq_spec() ==> (forall|q: int| 0 <= q < i ==> !(#[trigger] d[q]).0.eq_spec(
                    &k,
                )),
            decreases self.dict.len() - i,
        {
            let hit = self.dict[i].0 == k;
            if hit {
                proof {
                    if K::obeys_eq_spec() {
                        assert(d[i as int].0.eq_spec(&k));
                        lemma_find_key_at(d, k, i as int);
                        assert(find_key(d, k) == i as int);
                    }
                }
                let pair = self.dict.remove(i);
                proof {
                    assert(pair == d[i as int]);
                }
                let (k0, v0) = pair;
                self.dict.insert(i, (k0, v));
                proof {
                    if K::obeys_eq_spec() {
                        d.remove_ensures(i as int);
                        d.remove(i as int).insert_ensures(i as int, (d[i as int].0, v));
                        assert(self.dict@ =~= d.update(i as int, (d[i as int].0, v)));
                        let fi = find_key(d, k);
                        assert(fi == i as int);
                        assert(v0 == d[fi].1);
                        assert(self.dict@ == d.update(fi, (d[fi].0, v)));
                    }
                }
                return Some(v0);
            }
            i += 1;
        }
        proof {
            if K::obeys_eq_spec() {
                lemma_find_key_at(d, k, d.len() as int);
            }
        }
        self.dict.push((k, v));
        None
    }

    /// Read the value stored under `k`, if any.
    pub fn get(&self, k: &K) -> (r: Option<&V>)
        ensures
            K::obeys_eq_spec() ==> ({
                let d = self.dict_view();
                let i = find_key(d, *k);
                if i < d.len() {
                    r matches Some(v) && *v == d[i].1
                } else {
                    r is None
                }
            }),
    {
        let ghost d = self.dict@;
        let mut i: usize = 0;
        while i < self.dict.len()
            invariant
                i <= self.dict.len(),
                d == self.dict@,
                d == self.dict_view(),
                K::obeys_eq_spec() ==> (forall|q: int| 0 <= q < i ==> !(#[trigger] d[q]).0.eq_spec(
                    k,
                )),
            decreases self.dict.len() - i,
        {
            let entry = &self.dict[i];
            if entry.0 == *k {
                proof {
                    if K::obeys_eq_spec() {
                        lemma_find_key_at(d, *k, i as int);
                    }
                }
                return Some(&entry.1);
            }
            i += 1;
        }
        proof {
            if K::obeys_eq_spec() {
                lemma_find_key_at(d, *k, d.len() as int);
            }
        }
        None
    }

    /// The timestamp.
    #[inline]
    pub fn get_timestamp(&self) -> (r: u64)
        ensures
            r == self.timestamp_spec(),
    {
        self.timestamp
    }
}

} // verus!
