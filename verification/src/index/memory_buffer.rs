//! A level-bucketed buffer of timestamped values.
//!
//! A write lands in the bucket named by its timestamp's level (the count of
//! trailing zero bits); inside a bucket, a write merges with the bucket's
//! last entry when the timestamp repeats, else appends.  A query gathers the
//! entries of all buckets at or above a level into a timestamp-keyed ordered
//! map, keeping the first entry seen for a repeated timestamp.

use super::metric::Metric;
use std::collections::BTreeMap;
use vstd::prelude::*;
use vstd::std_specs::bits::u64_trailing_zeros;

verus! {

broadcast use
    vstd::std_specs::bits::group_bits_axioms,
    vstd::std_specs::btree::group_btree_axioms;

/// Set insertion keyed by timestamp: keep the present entry on a repeated
/// timestamp.
pub open spec fn set_insert<V>(acc: Map<u64, Metric<V>>, m: Metric<V>) -> Map<u64, Metric<V>> {
    if acc.dom().contains(m.timestamp_spec()) {
        acc
    } else {
        acc.insert(m.timestamp_spec(), m)
    }
}

/// Set insertion of each item in turn.
pub open spec fn add_all<V>(acc: Map<u64, Metric<V>>, items: Seq<Metric<V>>) -> Map<
    u64,
    Metric<V>,
>
    decreases items.len(),
{
    if items.len() == 0 {
        acc
    } else {
        add_all(set_insert(acc, items[0]), items.drop_first())
    }
}

/// Set insertion of every entry of the buckets `i..n`.
pub open spec fn collect_from<V>(
    levels: Seq<Option<Seq<Metric<V>>>>,
    i: int,
    n: int,
    acc: Map<u64, Metric<V>>,
) -> Map<u64, Metric<V>>
    decreases n - i,
{
    if !(0 <= i && i < n && n <= levels.len()) {
        acc
    } else {
        let stepped = match levels[i] {
            None => acc,
            Some(te) => add_all(acc, te),
        };
        collect_from(levels, i + 1, n, stepped)
    }
}

/// What one bucket write does: merge into the last entry on a repeated
/// timestamp (replacing its value), else append.
pub open spec fn write_level_spec<V>(s: Seq<Metric<V>>, timestamp: u64, value: V) -> Seq<
    Metric<V>,
> {
    if s.len() > 0 && s.last().timestamp_spec() == timestamp {
        s.update(s.len() - 1, s.last().with_value(value))
    } else {
        s.push(Metric::new_spec(timestamp, value))
    }
}

/// A level-bucketed buffer: one optional bucket per level, created on first
/// use.
pub struct MemoryBuffer<V> {
    levels: Vec<Option<Vec<Metric<V>>>>,
    lvlsize: usize,
    level_limit: Option<usize>,
}

impl<V> MemoryBuffer<V> {
    /// One bucket slot per level.
    pub closed spec fn inv(&self) -> bool {
        self.levels@.len() == self.lvlsize
    }

    /// How many levels the buffer holds.
    pub closed spec fn lvlsize_spec(&self) -> usize {
        self.lvlsize
    }

    /// The buckets, each as an optional entry sequence.
    pub closed spec fn levels_view(&self) -> Seq<Option<Seq<Metric<V>>>> {
        Seq::new(
            self.levels@.len() as nat,
            |i: int|
                match self.levels@[i] {
                    None => None,
                    Some(te) => Some(te@),
                },
        )
    }

    /// The bucket at one level.
    pub open spec fn level_at(&self, i: int) -> Option<Seq<Metric<V>>> {
        self.levels_view()[i]
    }

    /// A well-formed buffer holds one bucket slot per level.
    pub proof fn lemma_levels_len(&self)
        requires
            self.inv(),
        ensures
            self.levels_view().len() == self.lvlsize_spec(),
    {
    }

    /// Build a buffer with `lvlsize` empty bucket slots; `level_limit` is
    /// only a capacity hint for newly created buckets.
    pub fn new(lvlsize: usize, level_limit: Option<usize>) -> (r: MemoryBuffer<V>)
        ensures
            r.inv(),
            r.lvlsize_spec() == lvlsize,
            forall|i: int| 0 <= i < lvlsize ==> r.level_at(i) is None,
    {
        let mut levels: Vec<Option<Vec<Metric<V>>>> = Vec::with_capacity(lvlsize);
        let mut i: usize = 0;
        while i < lvlsize
            invariant
                i <= lvlsize,
                levels@.len() == i,
                forall|j: int| 0 <= j < i ==> levels@[j] is None,
            decreases lvlsize - i,
        {
            levels.push(None);
            i += 1;
        }
        MemoryBuffer { levels, lvlsize, level_limit }
    }

    /// Merge `value` into the bucket's last entry when the timestamp
    /// repeats, else append a new entry.
    fn write_level(te: &mut Vec<Metric<V>>, timestamp: u64, value: V)
        ensures
            final(te)@ == write_level_spec(old(te)@, timestamp, value),
    {
        let n = te.len();
        if n > 0 {
            let last_ts = te[n - 1].timestamp();
            if last_ts == timestamp {
                let slot = &mut te[n - 1];
                slot.set_value(value);
                return ;
            }
        }
        te.push(Metric::new(timestamp, value));
    }

    /// Record `value` at `timestamp` in the bucket of the timestamp's level.
    /// The timestamp must be positive with a level inside the buffer.
    pub fn write(&mut self, timestamp: u64, value: V)
        requires
            old(self).inv(),
            1 <= timestamp,
            u64_trailing_zeros(timestamp) < old(self).lvlsize_spec(),
        ensures
            final(self).inv(),
            final(self).lvlsize_spec() == old(self).lvlsize_spec(),
            forall|j: int|
                0 <= j < old(self).lvlsize_spec() && j != u64_trailing_zeros(timestamp)
                    ==> final(self).level_at(j) == old(self).level_at(j),
            final(self).level_at(u64_trailing_zeros(timestamp) as int) == Some(
                write_level_spec(
                    match old(self).level_at(u64_trailing_zeros(timestamp) as int) {
                        None => Seq::empty(),
                        Some(te) => te,
                    },
                    timestamp,
                    value,
                ),
            ),
    {
        let lvl = timestamp.trailing_zeros() as usize;
        let cap = self.level_limit;
        let slot = &mut self.levels[lvl];
        match slot {
            None => {
                let mut te: Vec<Metric<V>> = match cap {
                    Some(c) => Vec::with_capacity(c),
                    None => Vec::new(),
                };
                Self::write_level(&mut te, timestamp, value);
                *slot = Some(te);
            },
            Some(te) => {
                Self::write_level(te, timestamp, value);
            },
        }
        proof {
            assert(self.levels_view() =~= old(self).levels_view().update(
                lvl as int,
                self.levels_view()[lvl as int],
            ));
        }
    }

    /// Gather the entries of every bucket at or above `level` into a
    /// timestamp-keyed ordered map, keeping the first entry seen for a
    /// repeated timestamp.
    pub fn query(&self, level: usize) -> (r: BTreeMap<u64, &Metric<V>>)
        requires
            self.inv(),
        ensures
            ({
                let expected = collect_from(
                    self.levels_view(),
                    level as int,
                    self.lvlsize_spec() as int,
                    Map::empty(),
                );
                &&& (forall|ts: u64| r@.dom().contains(ts) == expected.dom().contains(ts))
                &&& (forall|ts: u64| #[trigger] r@.dom().contains(ts) ==> *r@[ts] == expected[ts])
            }),
    {
        let ghost target = collect_from(
            self.levels_view(),
            level as int,
            self.lvlsize_spec() as int,
            Map::<u64, Metric<V>>::empty(),
        );
        let mut out: BTreeMap<u64, &Metric<V>> = BTreeMap::new();
        let ghost mut acc: Map<u64, Metric<V>> = Map::empty();
        proof {
            assert(vstd::laws_cmp::obeys_cmp::<u64>());
        }
        let mut idx = level;
        while idx < self.lvlsize
            invariant
                self.inv(),
                level <= idx,
                idx <= self.lvlsize || idx == level,
                vstd::laws_cmp::obeys_cmp::<u64>(),
                forall|ts: u64| out@.dom().contains(ts) == acc.dom().contains(ts),
                forall|ts: u64| #[trigger] out@.dom().contains(ts) ==> *out@[ts] == acc[ts],
                collect_from(self.levels_view(), idx as int, self.lvlsize_spec() as int, acc)
                    == target,
            decreases self.lvlsize - idx,
        {
            match &self.levels[idx] {
                None => {
                    proof {
                        assert(self.level_at(idx as int) is None);
                    }
                },
                Some(te) => {
                    let ghost entry_acc = acc;
                    proof {
                        assert(te@.skip(0) =~= te@);
                        assert(self.level_at(idx as int) == Some(te@));
                    }
                    let mut j: usize = 0;
                    while j < te.len()
                        invariant
                            self.inv(),
                            j <= te.len(),
                            vstd::laws_cmp::obeys_cmp::<u64>(),
                            forall|ts: u64| out@.dom().contains(ts) == acc.dom().contains(ts),
                            forall|ts: u64|
                                #[trigger] out@.dom().contains(ts) ==> *out@[ts] == acc[ts],
                            add_all(acc, te@.skip(j as int)) == add_all(entry_acc, te@),
                        decreases te.len() - j,
                    {
                        let m = &te[j];
                        let ts = m.timestamp();
                        proof {
                            assert(te@.skip(j as int)[0] == te@[j as int]);
                            assert(te@.skip(j as int).drop_first() =~= te@.skip(j as int + 1));
                        }
                        if !out.contains_key(&ts) {
                            out.insert(ts, m);
                            proof {
                                acc = acc.insert(ts, te@[j as int]);
                            }
                        }
                        j += 1;
                    }
                    proof {
                        assert(te@.skip(te@.len() as int) =~= Seq::<Metric<V>>::empty());
                    }
                },
            }
            idx += 1;
        }
        out
    }
}

} // verus!
