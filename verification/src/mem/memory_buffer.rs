//! A primary-keyed, level-bucketed buffer of timestamped values.
//!
//! A write lands in the bucket named by its timestamp's level (the count of
//! trailing zero bits).  Inside a bucket, a write with the bucket's last
//! timestamp stores its value under the key in that element's dictionary;
//! otherwise a fresh element is appended.  A query gathers one key's values
//! from every bucket at or above a level into a timestamp-ordered set,
//! keeping the first entry seen for a repeated timestamp.

use super::metrics::Metrics;
use std::collections::BTreeMap;
use super::timestamp_element::find_key;
use super::timestamp_element::lookup;
use super::timestamp_element::TimestampElement;
use vstd::prelude::*;
use vstd::std_specs::bits::u64_trailing_zeros;
use vstd::std_specs::cmp::PartialEqSpec;

verus! {

broadcast use
    vstd::std_specs::bits::group_bits_axioms,
    vstd::std_specs::btree::group_btree_axioms;

/// Set insertion keyed by timestamp: keep the present value on a repeated
/// timestamp.
pub open spec fn keep_first<V>(acc: Map<u64, V>, ts: u64, v: V) -> Map<u64, V> {
    if acc.dom().contains(ts) {
        acc
    } else {
        acc.insert(ts, v)
    }
}

/// Fold one element's dictionary entry for `pk`, if any, into the set.
pub open spec fn add_te<K: PartialEqSpec, V>(
    acc: Map<u64, V>,
    te: (u64, Seq<(K, V)>),
    pk: K,
) -> Map<u64, V> {
    match lookup(te.1, pk) {
        Some(v) => keep_first(acc, te.0, v),
        None => acc,
    }
}

/// Fold each element of a bucket in turn.
pub open spec fn add_tes<K: PartialEqSpec, V>(
    acc: Map<u64, V>,
    tes: Seq<(u64, Seq<(K, V)>)>,
    pk: K,
) -> Map<u64, V>
    decreases tes.len(),
{
    if tes.len() == 0 {
        acc
    } else {
        add_tes(add_te(acc, tes[0], pk), tes.drop_first(), pk)
    }
}

/// Fold every element of the buckets `i..n`.
pub open spec fn collect_pk<K: PartialEqSpec, V>(
    levels: Seq<Option<Seq<(u64, Seq<(K, V)>)>>>,
    pk: K,
    i: int,
    n: int,
    acc: Map<u64, V>,
) -> Map<u64, V>
    decreases n - i,
{
    if !(0 <= i && i < n && n <= levels.len()) {
        acc
    } else {
        let stepped = match levels[i] {
            None => acc,
            Some(tes) => add_tes(acc, tes, pk),
        };
        collect_pk(levels, pk, i + 1, n, stepped)
    }
}

/// Storing `v` under `k`: replace the value under an equal key, else append
/// the pair.
pub open spec fn dict_insert<K: PartialEqSpec, V>(d: Seq<(K, V)>, k: K, v: V) -> Seq<(K, V)> {
    let i = find_key(d, k);
    if i < d.len() {
        d.update(i, (d[i].0, v))
    } else {
        d.push((k, v))
    }
}

/// What one bucket write does: store under the key in the last element when
/// the timestamp repeats, else append a one-entry element.
pub open spec fn write_level_spec<K: PartialEqSpec, V>(
    s: Seq<(u64, Seq<(K, V)>)>,
    timestamp: u64,
    pk: K,
    value: V,
) -> Seq<(u64, Seq<(K, V)>)> {
    if s.len() > 0 && s.last().0 == timestamp {
        s.update(s.len() - 1, (s.last().0, dict_insert(s.last().1, pk, value)))
    } else {
        s.push((timestamp, Seq::empty().push((pk, value))))
    }
}

/// A primary-keyed bucket buffer: one optional bucket per level, created on
/// first use.
pub struct MemoryBuffer<K, V> {
    levels: Vec<Option<Vec<TimestampElement<K, V>>>>,
    lvlsize: usize,
    level_limit: Option<usize>,
}

impl<K: PartialEqSpec + Eq, V> MemoryBuffer<K, V> {
    /// One bucket slot per level.
    pub closed spec fn inv(&self) -> bool {
        self.levels@.len() == self.lvlsize
    }

    /// How many levels the buffer holds.
    pub closed spec fn lvlsize_spec(&self) -> usize {
        self.lvlsize
    }

    /// The buckets, each element viewed as its timestamp and dictionary.
    pub closed spec fn levels_view(&self) -> Seq<Option<Seq<(u64, Seq<(K, V)>)>>> {
        Seq::new(
            self.levels@.len() as nat,
            |i: int|
                match self.levels@[i] {
                    None => None,
                    Some(tes) => Some(
                        tes@.map_values(
                            |e: TimestampElement<K, V>| (e.timestamp_spec(), e.dict_view()),
                        ),
                    ),
                },
        )
    }

    /// The bucket at one level.
    pub open spec fn level_at(&self, i: int) -> Option<Seq<(u64, Seq<(K, V)>)>> {
        self.levels_view()[i]
    }

    /// A well-formed buffer holds one bucket slot per level.
    pub proof fn lemma_levels_len(&self)
        requires
            self.inv(),
        ensures
            self.levels_view().len() == self.lvlsize_spec(),
    {
    }

    /// Build a buffer with `lvlsize` empty bucket slots; `level_limit` is
    /// only a capacity hint for newly created buckets.
    pub fn new(lvlsize: usize, level_limit: Option<usize>) -> (r: MemoryBuffer<K, V>)
        ensures
            r.inv(),
            r.lvlsize_spec() == lvlsize,
            forall|i: int| 0 <= i < lvlsize ==> r.level_at(i) is None,
    {
        let mut levels: Vec<Option<Vec<TimestampElement<K, V>>>> = Vec::with_capacity(lvlsize);
        let mut i: usize = 0;
        while i < lvlsize
            invariant
                i <= lvlsize,
                levels@.len() == i,
                forall|j: int| 0 <= j < i ==> levels@[j] is None,
            decreases lvlsize - i,
        {
            levels.push(None);
            i += 1;
        }
        MemoryBuffer { levels, lvlsize, level_limit }
    }

    /// Store `value` under `pk` in the bucket's last element when the
    /// timestamp repeats, else append a fresh element.
    fn write_level(te: &mut Vec<TimestampElement<K, V>>, timestamp: u64, pk: K, value: V)
        ensures
            K::obeys_eq_spec() ==> final(te)@.map_values(
                |e: TimestampElement<K, V>| (e.timestamp_spec(), e.dict_view()),
            ) == write_level_spec(
                old(te)@.map_values(
                    |e: TimestampElement<K, V>| (e.timestamp_spec(), e.dict_view()),
                ),
                timestamp,
                pk,
                value,
            ),
    {
        let ghost view0 = te@.map_values(
            |e: TimestampElement<K, V>| (e.timestamp_spec(), e.dict_view()),
        );
        let n = te.len();
        if n > 0 {
            let last_ts = te[n - 1].get_timestamp();
            if last_ts == timestamp {
                let slot = &mut te[n - 1];
                slot.insert(pk, value);
                proof {
                    if K::obeys_eq_spec() {
                        assert(te@.map_values(
                            |e: TimestampElement<K, V>| (e.timestamp_spec(), e.dict_view()),
                        ) =~= write_level_spec(view0, timestamp, pk, value));
                    }
                }
                return ;
            }
        }
        te.push(TimestampElement::new(timestamp, pk, value));
        proof {
            if K::obeys_eq_spec() {
                assert(te@.map_values(
                    |e: TimestampElement<K, V>| (e.timestamp_spec(), e.dict_view()),
                ) =~= write_level_spec(view0, timestamp, pk, value));
            }
        }
    }

    /// Record `value` under `pk` at `timestamp`, in the bucket of the
    /// timestamp's level.  The timestamp must be positive with a level inside
    /// the buffer.
    pub fn write(&mut self, timestamp: u64, pk: K, value: V)
        requires
            old(self).inv(),
            1 <= timestamp,
            u64_trailing_zeros(timestamp) < old(self).lvlsize_spec(),
        ensures
            final(self).inv(),
            final(self).lvlsize_spec() == old(self).lvlsize_spec(),
            forall|j: int|
                0 <= j < old(self).lvlsize_spec() && j != u64_trailing_zeros(timestamp)
                    ==> final(self).level_at(j) == old(self).level_at(j),
            K::obeys_eq_spec() ==> final(self).level_at(u64_trailing_zeros(timestamp) as int)
                == Some(
                write_level_spec(
                    match old(self).level_at(u64_trailing_zeros(timestamp) as int) {
                        None => Seq::empty(),
                        Some(tes) => tes,
                    },
                    timestamp,
                    pk,
                    value,
                ),
            ),
    {
        let lvl = timestamp.trailing_zeros() as usize;
        let cap = self.level_limit;
        let slot = &mut self.levels[lvl];
        match slot {
            None => {
                let mut tes: Vec<TimestampElement<K, V>> = match cap {
                    Some(c) => Vec::with_capacity(c),
                    None => Vec::new(),
                };
                proof {
                    assert(tes@.map_values(
                        |e: TimestampElement<K, V>| (e.timestamp_spec(), e.dict_view()),
                    ) =~= Seq::<(u64, Seq<(K, V)>)>::empty());
                }
                Self::write_level(&mut tes, timestamp, pk, value);
                *slot = Some(tes);
            },
            Some(tes) => {
                Self::write_level(tes, timestamp, pk, value);
            },
        }
        proof {
            assert(self.levels_view() =~= old(self).levels_view().update(
                lvl as int,
                self.levels_view()[lvl as int],
            ));
        }
    }

    /// Gather `pk`'s values from every bucket at or above `level` into a
    /// timestamp-keyed ordered map, keeping the first entry seen for a
    /// repeated timestamp.
    pub fn query(&self, pk: K, level: usize) -> (r: BTreeMap<u64, Metrics<&V>>)
        requires
            self.inv(),
        ensures
            forall|ts: u64| #[trigger] r@.dom().contains(ts) ==> r@[ts].timestamp == ts,
            K::obeys_eq_spec() ==> ({
                let expected = collect_pk(
                    self.levels_view(),
                    pk,
                    level as int,
                    self.lvlsize_spec() as int,
                    Map::empty(),
                );
                &&& (forall|ts: u64| r@.dom().contains(ts) == expected.dom().contains(ts))
                &&& (forall|ts: u64|
                    #[trigger] r@.dom().contains(ts) ==> *r@[ts].value == expected[ts])
            }),
    {
        let ghost target = collect_pk(
            self.levels_view(),
            pk,
            level as int,
            self.lvlsize_spec() as int,
            Map::<u64, V>::empty(),
        );
        let mut out: BTreeMap<u64, Metrics<&V>> = BTreeMap::new();
        let ghost mut acc: Map<u64, V> = Map::empty();
        proof {
            assert(vstd::laws_cmp::obeys_cmp::<u64>());
        }
        let mut idx = level;
        while idx < self.lvlsize
            invariant
                self.inv(),
                level <= idx,
                idx <= self.lvlsize || idx == level,
                vstd::laws_cmp::obeys_cmp::<u64>(),
                forall|ts: u64| #[trigger] out@.dom().contains(ts) ==> out@[ts].timestamp == ts,
                K::obeys_eq_spec() ==> (forall|ts: u64|
                    out@.dom().contains(ts) == acc.dom().contains(ts)),
                K::obeys_eq_spec() ==> (forall|ts: u64|
                    #[trigger] out@.dom().contains(ts) ==> *out@[ts].value == acc[ts]),
                K::obeys_eq_spec() ==> collect_pk(
                    self.levels_view(),
                    pk,
                    idx as int,
                    self.lvlsize_spec() as int,
                    acc,
                ) == target,
            decreases self.lvlsize - idx,
        {
            match &self.levels[idx] {
                None => {
                    proof {
                        assert(self.level_at(idx as int) is None);
                    }
                },
                Some(tes) => {
                    let ghost tes_view = tes@.map_values(
                        |e: TimestampElement<K, V>| (e.timestamp_spec(), e.dict_view()),
                    );
                    let ghost entry_acc = acc;
                    proof {
                        assert(tes_view.skip(0) =~= tes_view);
                        assert(self.level_at(idx as int) == Some(tes_view));
                    }
                    let mut j: usize = 0;
                    while j < tes.len()
                        invariant
                            self.inv(),
                            j <= tes.len(),
                            vstd::laws_cmp::obeys_cmp::<u64>(),
                            tes_view == tes@.map_values(
                                |e: TimestampElement<K, V>| (e.timestamp_spec(), e.dict_view()),
                            ),
                            tes_view.len() == tes@.len(),
                            forall|ts: u64|
                                #[trigger] out@.dom().contains(ts) ==> out@[ts].timestamp == ts,
                            K::obeys_eq_spec() ==> (forall|ts: u64|
                                out@.dom().contains(ts) == acc.dom().contains(ts)),
                            K::obeys_eq_spec() ==> (forall|ts: u64|
                                #[trigger] out@.dom().contains(ts) ==> *out@[ts].value
                                    == acc[ts]),
                            K::obeys_eq_spec() ==> add_tes(acc, tes_view.skip(j as int), pk)
                                == add_tes(entry_acc, tes_view, pk),
                        decreases tes.len() - j,
                    {
                        let te = &tes[j];
                        let found = te.get(&pk);
                        proof {
                            assert(tes_view.skip(j as int)[0] == tes_view[j as int]);
                            assert(tes_view.skip(j as int).drop_first() =~= tes_view.skip(
                                j as int + 1,
                            ));
                        }
                        match found {
                            None => {
                                proof {
                                    if K::obeys_eq_spec() {
                                        assert(lookup(tes_view[j as int].1, pk) is None);
                                    }
                                }
                            },
                            Some(value_ref) => {
                                let ts = te.get_timestamp();
                                if !out.contains_key(&ts) {
                                    out.insert(ts, Metrics { timestamp: ts, value: value_ref });
                                    proof {
                                        if K::obeys_eq_spec() {
                                            acc = acc.insert(ts, *value_ref);
                                        }
                                    }
                                }
                            },
                        }
                        j += 1;
                    }
                    proof {
                        assert(tes_view.skip(tes_view.len() as int) =~= Seq::<
                            (u64, Seq<(K, V)>),
                        >::empty());
                    }
                },
            }
            idx += 1;
        }
        out
    }
}

} // verus!
