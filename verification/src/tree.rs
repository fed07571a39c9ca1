//! Binary skip-tree algorithms over any aggregate store.
//!
//! Every aggregate store gets the tree operations for free: an aggregate
//! read that walks up by trailing-zero steps, and an aggregate update that
//! walks down by clearing the lowest set bit, both while the store's window
//! allows.

use crate::aggregate::Aggregate;
use crate::data::lemma_vals_in_split;
use crate::data::vals_in;
use crate::data::TIMESTAMP_LIMIT;
use crate::index::line::cell_covers;
use crate::index::line::covered_vals;
use crate::index::line::lemma_covered_eq_vals;
use crate::index::line::up_chain;
use crate::traits::fold_m;
use crate::traits::lemma_fold_m_concat;
use crate::traits::Monoid;
use crate::traits::Semigroup;
use vstd::prelude::*;
use vstd::std_specs::bits::u64_trailing_zeros;

verus! {

broadcast use vstd::std_specs::bits::group_bits_axioms;

/// The stored aggregate at `q`, or the identity when none is stored.
pub open spec fn val_or_id<V: Monoid>(
    m: Map<u64, <V as Semigroup>::M>,
    q: u64,
) -> <V as Semigroup>::M {
    if m.dom().contains(q) {
        m[q]
    } else {
        V::identity_model()
    }
}

/// The timestamps an aggregate read visits: from `t`, repeatedly add the
/// lowest set bit while the window admits the next timestamp.
pub open spec fn suffix_chain(b: spec_fn(u64) -> bool, t: u64, fuel: nat) -> Seq<u64>
    decreases fuel,
{
    if t == 0 || fuel == 0 {
        seq![t]
    } else {
        let step = 1u64 << (u64_trailing_zeros(t) as u64);
        if b((t + step) as u64) {
            seq![t] + suffix_chain(b, (t + step) as u64, (fuel - 1) as nat)
        } else {
            seq![t]
        }
    }
}

/// Fold the visited aggregates onto `acc`, left to right, reading absent
/// cells as the identity.
pub open spec fn fold_suffix<V: Monoid>(
    m: Map<u64, <V as Semigroup>::M>,
    chain: Seq<u64>,
    acc: <V as Semigroup>::M,
) -> <V as Semigroup>::M
    decreases chain.len(),
{
    if chain.len() == 0 {
        acc
    } else {
        fold_suffix::<V>(
            m,
            chain.drop_first(),
            V::combine_model(acc, val_or_id::<V>(m, chain[0])),
        )
    }
}

/// The timestamps an aggregate update visits: from `t`, repeatedly clear the
/// lowest set bit while the window admits the result.
pub open spec fn update_chain(b: spec_fn(u64) -> bool, t: u64, fuel: nat) -> Seq<u64>
    decreases fuel,
{
    let rest = if t == 0 || fuel == 0 {
        Seq::<u64>::empty()
    } else {
        let step = 1u64 << (u64_trailing_zeros(t) as u64);
        if b(t ^ step) {
            update_chain(b, t ^ step, (fuel - 1) as nat)
        } else {
            Seq::<u64>::empty()
        }
    };
    seq![t] + rest
}

/// Fold `vm` into each visited cell in turn (absent cells start from the
/// identity), in visit order.
pub open spec fn apply_adds<V: Monoid>(
    m: Map<u64, <V as Semigroup>::M>,
    chain: Seq<u64>,
    vm: <V as Semigroup>::M,
) -> Map<u64, <V as Semigroup>::M>
    decreases chain.len(),
{
    if chain.len() == 0 {
        m
    } else {
        apply_adds::<V>(
            m.insert(chain[0], V::combine_model(vm, val_or_id::<V>(m, chain[0]))),
            chain.drop_first(),
            vm,
        )
    }
}

/// Reading a chain beginning with `t` first folds `t`'s cell.
proof fn lemma_fold_suffix_cons<V: Monoid>(
    m: Map<u64, <V as Semigroup>::M>,
    t: u64,
    rest: Seq<u64>,
    acc: <V as Semigroup>::M,
)
    ensures
        fold_suffix::<V>(m, seq![t] + rest, acc) == fold_suffix::<V>(
            m,
            rest,
            V::combine_model(acc, val_or_id::<V>(m, t)),
        ),
{
    let chain = seq![t] + rest;
    assert(chain[0] == t);
    assert(chain.drop_first() =~= rest);
    assert(chain.len() == 1 + rest.len());
}

/// The empty-chain fold is the accumulator.
proof fn lemma_fold_suffix_nil<V: Monoid>(
    m: Map<u64, <V as Semigroup>::M>,
    acc: <V as Semigroup>::M,
)
    ensures
        fold_suffix::<V>(m, Seq::empty(), acc) == acc,
{
}

/// Updating a chain beginning with `t` first folds into `t`'s cell.
proof fn lemma_apply_adds_cons<V: Monoid>(
    m: Map<u64, <V as Semigroup>::M>,
    t: u64,
    rest: Seq<u64>,
    vm: <V as Semigroup>::M,
)
    ensures
        apply_adds::<V>(m, seq![t] + rest, vm) == apply_adds::<V>(
            m.insert(t, V::combine_model(vm, val_or_id::<V>(m, t))),
            rest,
            vm,
        ),
{
    let chain = seq![t] + rest;
    assert(chain[0] == t);
    assert(chain.drop_first() =~= rest);
    assert(chain.len() == 1 + rest.len());
}

/// The lowest set bit of a non-zero value is at least one and at most the
/// value, and clearing it shrinks the value.
proof fn lemma_lowbit_facts(t: u64)
    requires
        t >= 1,
    ensures
        1 <= (1u64 << (u64_trailing_zeros(t) as u64)) <= t,
        (t ^ (1u64 << (u64_trailing_zeros(t) as u64))) < t,
{
    let z = u64_trailing_zeros(t) as u64;
    assert(z < 64 && (t >> z) & 1u64 == 1u64);
    assert(z < 64 && (t >> z) & 1u64 == 1u64 ==> 1 <= (1u64 << z) <= t && (t ^ (1u64 << z)) < t)
        by (bit_vector);
}

/// An aggregate map tracks an append history over an interval window: each
/// windowed cell is present exactly when some append falls in it, and then
/// holds the fold of the appends it covers.
pub open spec fn map_tracks<V: Monoid>(
    m: Map<u64, <V as Semigroup>::M>,
    lo: u64,
    hi: u64,
    h: Seq<(u64, <V as Semigroup>::M)>,
) -> bool {
    forall|p: u64|
        lo <= p <= hi ==> ((#[trigger] m.dom().contains(p) <==> covered_vals::<V>(h, p).len() > 0)
            && (m.dom().contains(p) ==> m[p] == fold_m::<V>(covered_vals::<V>(h, p))))
}

/// Over an interval window, the ascending tree walk visits the same cells
/// as a walk bounded by the window's top.
proof fn lemma_suffix_chain_interval(b: spec_fn(u64) -> bool, lo: u64, hi: u64, t: u64, fuel: nat)
    requires
        forall|q: u64| #[trigger] b(q) == (lo <= q <= hi),
        lo <= t <= hi,
        1 <= t,
        hi < TIMESTAMP_LIMIT,
    ensures
        suffix_chain(b, t, fuel) == up_chain(t, hi, fuel),
    decreases fuel,
{
    if fuel > 0 {
        lemma_lowbit_facts(t);
        let step = 1u64 << (u64_trailing_zeros(t) as u64);
        assert(b((t + step) as u64) == (lo <= (t + step) as u64 <= hi));
        if t + step <= hi {
            lemma_suffix_chain_interval(b, lo, hi, (t + step) as u64, (fuel - 1) as nat);
        }
    }
}

/// Folding the ascending walk of cells from `t` onto `acc` folds in exactly
/// the appends with timestamps in `[t, hi]`, in order.
proof fn lemma_fold_suffix_covers<V: Monoid>(
    m: Map<u64, <V as Semigroup>::M>,
    lo: u64,
    hi: u64,
    h: Seq<(u64, <V as Semigroup>::M)>,
    t: u64,
    acc: <V as Semigroup>::M,
    fuel: nat,
)
    requires
        map_tracks::<V>(m, lo, hi, h),
        forall|a: int, b: int|
            #![trigger h[a], h[b]]
            0 <= a <= b < h.len() ==> h[a].0 <= h[b].0,
        forall|j: int| 0 <= j < h.len() ==> (#[trigger] h[j]).0 <= hi,
        1 <= t,
        lo <= t <= hi,
        hi < TIMESTAMP_LIMIT,
        fuel >= 1 + hi - t,
    ensures
        fold_suffix::<V>(m, up_chain(t, hi, fuel), acc) == (if vals_in::<V>(
            h,
            t,
            (hi + 1) as u64,
        ).len() == 0 {
            acc
        } else {
            <V as Semigroup>::combine_model(acc, fold_m::<V>(vals_in::<V>(h, t, (hi + 1) as u64)))
        }),
    decreases hi - t,
{
    lemma_lowbit_facts(t);
    let step = 1u64 << (u64_trailing_zeros(t) as u64);
    let chain = up_chain(t, hi, fuel);
    let acc1 = V::combine_model(acc, val_or_id::<V>(m, t));
    if t + step > hi {
        assert(chain == seq![t]);
        assert(chain =~= seq![t] + Seq::<u64>::empty());
        lemma_fold_suffix_cons::<V>(m, t, Seq::empty(), acc);
        assert(fold_suffix::<V>(m, chain, acc) == acc1);
        assert forall|j: int|
            0 <= j < h.len() implies (cell_covers(t, (#[trigger] h[j]).0) <==> (t <= h[j].0
            && h[j].0 < (hi + 1) as u64)) by {
            assert(h[j].0 <= hi);
        }
        lemma_covered_eq_vals::<V>(h, t, (hi + 1) as u64);
        if covered_vals::<V>(h, t).len() == 0 {
            V::lemma_identity(acc);
        }
    } else {
        let next = (t + step) as u64;
        let rest = up_chain(next, hi, (fuel - 1) as nat);
        assert(chain == seq![t] + rest);
        lemma_fold_suffix_cons::<V>(m, t, rest, acc);
        assert(fold_suffix::<V>(m, chain, acc) == fold_suffix::<V>(m, rest, acc1));
        lemma_fold_suffix_covers::<V>(m, lo, hi, h, next, acc1, (fuel - 1) as nat);
        assert forall|j: int|
            0 <= j < h.len() implies (cell_covers(t, (#[trigger] h[j]).0) <==> (t <= h[j].0
            && h[j].0 < next)) by {}
        lemma_covered_eq_vals::<V>(h, t, next);
        lemma_vals_in_split::<V>(h, t, next, (hi + 1) as u64);
        let part_a = vals_in::<V>(h, t, next);
        let part_b = vals_in::<V>(h, next, (hi + 1) as u64);
        assert(vals_in::<V>(h, t, (hi + 1) as u64) == part_a + part_b);
        if part_a.len() == 0 {
            assert(!m.dom().contains(t));
            V::lemma_identity(acc);
            assert(acc1 == acc);
            if part_b.len() > 0 {
                assert(part_a + part_b =~= part_b);
            } else {
                assert((part_a + part_b).len() == 0);
            }
        } else {
            assert(m.dom().contains(t));
            assert(acc1 == V::combine_model(acc, fold_m::<V>(part_a)));
            if part_b.len() == 0 {
                assert(part_a + part_b =~= part_a);
            } else {
                V::lemma_combine_assoc(acc, fold_m::<V>(part_a), fold_m::<V>(part_b));
                lemma_fold_m_concat::<V>(part_a, part_b);
            }
        }
    }
}

/// Law: over an interval window whose cells track an append history, the
/// tree's aggregate read returns the fold, in order, of every value
/// appended with a timestamp in `[timestamp, hi]` (the identity when there
/// is none).
pub proof fn lemma_tree_query_law<V: Monoid>(
    m: Map<u64, <V as Semigroup>::M>,
    b: spec_fn(u64) -> bool,
    lo: u64,
    hi: u64,
    h: Seq<(u64, <V as Semigroup>::M)>,
    t: u64,
)
    requires
        forall|q: u64| #[trigger] b(q) == (lo <= q <= hi),
        map_tracks::<V>(m, lo, hi, h),
        forall|a: int, b2: int|
            #![trigger h[a], h[b2]]
            0 <= a <= b2 < h.len() ==> h[a].0 <= h[b2].0,
        forall|j: int| 0 <= j < h.len() ==> (#[trigger] h[j]).0 <= hi,
        1 <= t,
        lo <= t <= hi,
        hi < TIMESTAMP_LIMIT,
    ensures
        fold_suffix::<V>(
            m,
            suffix_chain(b, t, TIMESTAMP_LIMIT as nat),
            V::identity_model(),
        ) == (if vals_in::<V>(h, t, (hi + 1) as u64).len() == 0 {
            V::identity_model()
        } else {
            fold_m::<V>(vals_in::<V>(h, t, (hi + 1) as u64))
        }),
{
    lemma_suffix_chain_interval(b, lo, hi, t, TIMESTAMP_LIMIT as nat);
    lemma_fold_suffix_covers::<V>(m, lo, hi, h, t, V::identity_model(), TIMESTAMP_LIMIT as nat);
    if vals_in::<V>(h, t, (hi + 1) as u64).len() > 0 {
        V::lemma_identity(fold_m::<V>(vals_in::<V>(h, t, (hi + 1) as u64)));
    }
}

/// The binary skip-tree operations, free for every aggregate store.
pub trait Tree<V: Monoid>: Aggregate<V> {
    /// The cached aggregate at `timestamp`, or the identity when none is
    /// stored.
    fn agg_or_identity(&self, timestamp: u64) -> (r: V)
        requires
            self.inv(),
            self.in_bound(timestamp),
        ensures
            r.model() == val_or_id::<V>(self.agg_map(), timestamp),
    ;

    /// Fold `value` into the cell at `timestamp` (value first, cached
    /// aggregate second).
    fn add_agg(&mut self, timestamp: u64, value: V)
        requires
            old(self).inv(),
            old(self).in_bound(timestamp),
        ensures
            final(self).inv(),
            final(self).agg_map() == old(self).agg_map().insert(
                timestamp,
                V::combine_model(
                    value.model(),
                    val_or_id::<V>(old(self).agg_map(), timestamp),
                ),
            ),
            forall|q: u64| final(self).in_bound(q) == old(self).in_bound(q),
    ;

    /// Fold the cells on the ascending trailing-zero chain from `timestamp`,
    /// as far as the window reaches.
    fn query_agg(&self, timestamp: u64) -> (r: V)
        requires
            self.inv(),
            self.in_bound(timestamp),
            1 <= timestamp,
            forall|q: u64| #[trigger] self.in_bound(q) ==> q < TIMESTAMP_LIMIT,
        ensures
            r.model() == fold_suffix::<V>(
                self.agg_map(),
                suffix_chain(
                    |q: u64| self.in_bound(q),
                    timestamp,
                    TIMESTAMP_LIMIT as nat,
                ),
                V::identity_model(),
            ),
    ;

    /// Fold `value` into every cell on the descending lowest-bit chain from
    /// `timestamp`, as far as the window reaches.
    fn update_aggregate(&mut self, timestamp: u64, value: V)
        requires
            old(self).inv(),
            old(self).in_bound(timestamp),
        ensures
            final(self).inv(),
            forall|q: u64| final(self).in_bound(q) == old(self).in_bound(q),
            final(self).agg_map() == apply_adds::<V>(
                old(self).agg_map(),
                update_chain(
                    |q: u64| old(self).in_bound(q),
                    timestamp,
                    (timestamp + 1) as nat,
                ),
                value.model(),
            ),
    ;
}

impl<V: Monoid, T: Aggregate<V>> Tree<V> for T {
    fn agg_or_identity(&self, timestamp: u64) -> (r: V) {
        match self.agg(timestamp) {
            Some(v) => v,
            None => self.identity(),
        }
    }

    fn add_agg(&mut self, timestamp: u64, value: V) {
        let cur = self.agg_or_identity(timestamp);
        self.set_agg(timestamp, value.combine(cur));
    }

    fn query_agg(&self, timestamp: u64) -> (r: V) {
        let ghost b = |q: u64| self.in_bound(q);
        let ghost m = self.agg_map();
        let ghost target = fold_suffix::<V>(
            m,
            suffix_chain(b, timestamp, TIMESTAMP_LIMIT as nat),
            V::identity_model(),
        );
        let mut t: u64 = timestamp;
        let mut result = self.agg_or_identity(t);
        let ghost mut fuel: nat = TIMESTAMP_LIMIT as nat;
        let mut done: bool = false;
        proof {
            V::lemma_identity(val_or_id::<V>(m, timestamp));
            let chain = suffix_chain(b, timestamp, fuel);
            if timestamp != 0 {
                let step = 1u64 << (u64_trailing_zeros(timestamp) as u64);
                if b((timestamp + step) as u64) {
                    lemma_fold_suffix_cons::<V>(
                        m,
                        timestamp,
                        suffix_chain(b, (timestamp + step) as u64, (fuel - 1) as nat),
                        V::identity_model(),
                    );
                }
            }
        }
        while !done
            invariant
                self.inv(),
                b == (|q: u64| self.in_bound(q)),
                m == self.agg_map(),
                forall|q: u64| #[trigger] self.in_bound(q) ==> q < TIMESTAMP_LIMIT,
                target == fold_suffix::<V>(
                    m,
                    suffix_chain(b, timestamp, TIMESTAMP_LIMIT as nat),
                    V::identity_model(),
                ),
                !done ==> ({
                    &&& 1 <= t < TIMESTAMP_LIMIT
                    &&& self.in_bound(t)
                    &&& fuel >= TIMESTAMP_LIMIT - t
                    &&& fold_suffix::<V>(
                        m,
                        suffix_chain(b, t, fuel).drop_first(),
                        result.model(),
                    ) == target
                }),
                done ==> result.model() == target,
            decreases TIMESTAMP_LIMIT - t, (if done { 0int } else { 1int }),
        {
            let sh = t.trailing_zeros() as u64;
            let step = 1u64 << sh;
            proof {
                lemma_lowbit_facts(t);
            }
            let next = t + step;
            if !self.check_bound(next) {
                done = true;
                proof {
                    let chain = suffix_chain(b, t, fuel);
                    assert(chain == seq![t]);
                    assert(chain.drop_first() =~= Seq::<u64>::empty());
                    lemma_fold_suffix_nil::<V>(m, result.model());
                }
            } else {
                proof {
                    assert(fuel > 0) by {
                        assert(fuel >= TIMESTAMP_LIMIT - t && t < TIMESTAMP_LIMIT);
                    }
                    let chain = suffix_chain(b, t, fuel);
                    let rest = suffix_chain(b, next, (fuel - 1) as nat);
                    assert(chain == seq![t] + rest);
                    assert(chain.drop_first() =~= rest);
                    if next != 0 {
                        let step2 = 1u64 << (u64_trailing_zeros(next) as u64);
                        if b((next + step2) as u64) {
                            lemma_fold_suffix_cons::<V>(
                                m,
                                next,
                                suffix_chain(b, (next + step2) as u64, (fuel - 2) as nat),
                                result.model(),
                            );
                        }
                    }
                    fuel = (fuel - 1) as nat;
                }
                let part = self.agg_or_identity(next);
                let taken = result;
                let ghost acc0 = taken.model();
                result = taken.combine(part);
                proof {
                    let rest = suffix_chain(b, next, fuel);
                    assert(rest[0] == next);
                    lemma_fold_suffix_cons::<V>(m, next, rest.drop_first(), acc0);
                    assert(seq![next] + rest.drop_first() =~= rest);
                }
                t = next;
            }
        }
        result
    }

    fn update_aggregate(&mut self, timestamp: u64, value: V) {
        let ghost b = |q: u64| old(self).in_bound(q);
        let ghost m0 = old(self).agg_map();
        let ghost target = apply_adds::<V>(
            m0,
            update_chain(b, timestamp, (timestamp + 1) as nat),
            value.model(),
        );
        let mut t: u64 = timestamp;
        let ghost mut fuel: nat = (timestamp + 1) as nat;
        let mut done: bool = false;
        while !done
            invariant
                self.inv(),
                b == (|q: u64| old(self).in_bound(q)),
                forall|q: u64| self.in_bound(q) == old(self).in_bound(q),
                target == apply_adds::<V>(
                    m0,
                    update_chain(b, timestamp, (timestamp + 1) as nat),
                    value.model(),
                ),
                !done ==> ({
                    &&& t <= timestamp
                    &&& self.in_bound(t)
                    &&& fuel >= t + 1
                    &&& apply_adds::<V>(
                        self.agg_map(),
                        update_chain(b, t, fuel),
                        value.model(),
                    ) == target
                }),
                done ==> self.agg_map() == target,
            decreases t, (if done { 0int } else { 1int }),
        {
            let ghost pre_map = self.agg_map();
            let dv = value.dup();
            self.add_agg(t, dv);
            proof {
                assert(self.agg_map() == pre_map.insert(
                    t,
                    V::combine_model(value.model(), val_or_id::<V>(pre_map, t)),
                ));
            }
            if t == 0 {
                done = true;
                proof {
                    let chain = update_chain(b, t, fuel);
                    assert(chain =~= seq![t]);
                    lemma_apply_adds_cons::<V>(pre_map, t, Seq::empty(), value.model());
                    assert(seq![t] + Seq::<u64>::empty() =~= seq![t]);
                }
            } else {
                let sh = t.trailing_zeros() as u64;
                let step = 1u64 << sh;
                proof {
                    lemma_lowbit_facts(t);
                }
                let next = t ^ step;
                if !self.check_bound(next) {
                    done = true;
                    proof {
                        let chain = update_chain(b, t, fuel);
                        assert(chain =~= seq![t]);
                        lemma_apply_adds_cons::<V>(pre_map, t, Seq::empty(), value.model());
                        assert(seq![t] + Seq::<u64>::empty() =~= seq![t]);
                    }
                } else {
                    proof {
                        assert(fuel > 0);
                        let chain = update_chain(b, t, fuel);
                        let rest = update_chain(b, next, (fuel - 1) as nat);
                        assert(chain == seq![t] + rest);
                        lemma_apply_adds_cons::<V>(pre_map, t, rest, value.model());
                        fuel = (fuel - 1) as nat;
                    }
                    t = next;
                }
            }
        }
    }
}

/// Range aggregation on top of the tree operations; implementations answer
/// the combined value over `[start, end)`, the identity when empty.
pub trait RangeTree<V: Monoid>: Tree<V> {
    /// The combined value over `[start, end)`.
    fn query_range(&self, start: u64, end: u64) -> V;
}

} // verus!
