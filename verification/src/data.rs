//! The 64-level skip-aggregation index.
//!
//! A `DataPart` is a stack of 64 lines, one per bit-shift level: level `i`
//! stores, at logical position `t >> i`, the combined value of every write
//! whose timestamp lies in the aligned block of `1 << i` timestamps around
//! `t`.  A write broadcasts up the levels; a query descends them to find the
//! largest aligned block that fits its constraint.
//!
//! The specification models the index by its push history: the sequence of
//! `(timestamp, model)` pairs fed to it, in order.  Every contract is stated
//! over folds of slices of that history.

use crate::line::Line;
use crate::traits::fold_m;
use crate::traits::lemma_fold_m_concat;
use crate::traits::lemma_fold_m_push;
use crate::traits::ConstrainedQuery;
use crate::traits::GreedyQuery;
use crate::traits::RangeQuery;
use crate::traits::Semigroup;
use crate::traits::SuffixQuery;
use crate::traits::TimestampPush;
use vstd::arithmetic::power2::pow2;
use vstd::prelude::*;
use vstd::std_specs::bits::u64_trailing_zeros;

verus! {

broadcast use vstd::std_specs::bits::group_bits_axioms;

/// Timestamps must lie below this bound (`1 << 63`), so that block arithmetic
/// cannot overflow.
pub const TIMESTAMP_LIMIT: u64 = 0x8000_0000_0000_0000;

/// The values among `h` whose timestamp lies in `[lo, hi)`, in push order.
pub open spec fn vals_in<V: Semigroup>(h: Seq<(u64, <V as Semigroup>::M)>, lo: u64, hi: u64) -> Seq<
    <V as Semigroup>::M,
>
    decreases h.len(),
{
    if h.len() == 0 {
        Seq::empty()
    } else {
        let pre = vals_in::<V>(h.drop_last(), lo, hi);
        if lo <= h.last().0 && h.last().0 < hi {
            pre.push(h.last().1)
        } else {
            pre
        }
    }
}

/// The values among `h` whose timestamp, shifted right by `i`, is `p`: the
/// contributions to the level-`i` cell at logical position `p`, in push
/// order.
pub open spec fn cell_vals<V: Semigroup>(h: Seq<(u64, <V as Semigroup>::M)>, i: u64, p: u64) -> Seq<
    <V as Semigroup>::M,
>
    decreases h.len(),
{
    if h.len() == 0 {
        Seq::empty()
    } else {
        let pre = cell_vals::<V>(h.drop_last(), i, p);
        if h.last().0 >> i == p {
            pre.push(h.last().1)
        } else {
            pre
        }
    }
}

/// A well-formed push history: timestamps in `[max(1, origin), 1 << 63)`,
/// non-decreasing.
pub open spec fn hist_ok<V: Semigroup>(h: Seq<(u64, <V as Semigroup>::M)>, origin: u64) -> bool {
    &&& (forall|j: int|
        0 <= j < h.len() ==> 1 <= (#[trigger] h[j]).0 && h[j].0 < TIMESTAMP_LIMIT && origin
            <= h[j].0)
    &&& (forall|j: int, k: int|
        #![trigger h[j], h[k]]
        0 <= j <= k < h.len() ==> h[j].0 <= h[k].0)
}

/// What line `i` of an index with history `h` and construction start
/// `origin` must look like: window bounds as the shifted history demands, and
/// each stored position holding the fold of its cell's contributions.
pub open spec fn line_ok_for<V: Semigroup>(
    ln: Line<V>,
    h: Seq<(u64, <V as Semigroup>::M)>,
    origin: u64,
    i: u64,
) -> bool {
    &&& ln.inv()
    &&& ln.start_spec() == origin >> i
    &&& ln.end_spec() == if h.len() > 0 && h.last().0 >> i >= 1 {
        (h.last().0 >> i) + 1
    } else {
        (origin >> i) as int
    }
    &&& (forall|p: u64|
        #[trigger] ln.contents().dom().contains(p) <==> (p >= 1 && cell_vals::<V>(h, i, p).len()
            > 0))
    &&& (forall|p: u64|
        ln.contents().dom().contains(p) ==> #[trigger] ln.contents()[p] == fold_m::<V>(
            cell_vals::<V>(h, i, p),
        ))
}

/// The 64-level skip index: one line per bit-shift level.
pub struct DataPart<V: Semigroup> {
    lines: Vec<Line<V>>,
    hist: Ghost<Seq<(u64, <V as Semigroup>::M)>>,
    origin: Ghost<u64>,
}

impl<V: Semigroup> DataPart<V> {
    /// The push history: each recorded write, as `(timestamp, model)`, in
    /// order.
    pub closed spec fn history(&self) -> Seq<(u64, <V as Semigroup>::M)> {
        self.hist@
    }

    /// The starting global timestamp the index was built with.
    pub closed spec fn origin_spec(&self) -> u64 {
        self.origin@
    }

    /// The index is well formed: 64 lines, a well-formed history, and every
    /// line holding exactly its levels' folds.
    pub closed spec fn wf(&self) -> bool {
        &&& self.lines@.len() == 64
        &&& hist_ok::<V>(self.hist@, self.origin@)
        &&& (forall|i: u64|
            i < 64 ==> #[trigger] line_ok_for::<V>(self.lines@[i as int], self.hist@, self.origin@, i))
    }

    /// One past the highest timestamp written, or the start if none was.
    pub open spec fn global_end(&self) -> u64 {
        if self.history().len() == 0 {
            self.origin_spec()
        } else {
            (self.history().last().0 + 1) as u64
        }
    }

    /// The models pushed with a timestamp in `[lo, hi)`, in push order.
    pub open spec fn range_models(&self, lo: u64, hi: u64) -> Seq<<V as Semigroup>::M> {
        vals_in::<V>(self.history(), lo, hi)
    }

    /// Whether some write fell in `[lo, hi)`.
    pub open spec fn has_vals(&self, lo: u64, hi: u64) -> bool {
        self.range_models(lo, hi).len() > 0
    }

    /// The fold of all writes with timestamps in `[lo, hi)`, in order.
    pub open spec fn agg_model(&self, lo: u64, hi: u64) -> <V as Semigroup>::M {
        fold_m::<V>(self.range_models(lo, hi))
    }

    /// Whether some write hit `t` exactly.
    pub open spec fn pushed_at(&self, t: u64) -> bool {
        exists|j: int| 0 <= j < self.history().len() && (#[trigger] self.history()[j]).0 == t
    }

    /// Every timestamp in `[lo, hi)` was written at least once.
    pub open spec fn covered(&self, lo: u64, hi: u64) -> bool {
        forall|t: u64| lo <= t < hi ==> self.pushed_at(t)
    }

    /// The right end of the level-`i` block starting at `t`, clamped to the
    /// populated window.
    pub open spec fn level_right(&self, t: u64, i: u64) -> u64 {
        if t + pow2(i as nat) < self.global_end() {
            (t + pow2(i as nat)) as u64
        } else {
            self.global_end()
        }
    }

    /// Whether the level-`i` block starting at `t` holds any write.
    pub open spec fn block_populated(&self, t: u64, i: u64) -> bool {
        self.has_vals(t, self.level_right(t, i))
    }

    /// Build an index whose level `i` starts at `start >> i` and caches
    /// `size_fn(i)` line entries.
    pub fn new<F: Fn(u64) -> usize>(start: u64, size_fn: F) -> (r: Self)
        requires
            forall|i: u64| size_fn.requires((i,)),
        ensures
            r.wf(),
            r.history().len() == 0,
            r.origin_spec() == start,
    {
        let mut lines: Vec<Line<V>> = Vec::with_capacity(64);
        let mut i: u64 = 0;
        while i < 64
            invariant
                i <= 64,
                lines@.len() == i,
                forall|i2: u64| size_fn.requires((i2,)),
                forall|j: u64|
                    j < i ==> #[trigger] line_ok_for::<V>(lines@[j as int], Seq::empty(), start, j),
            decreases 64 - i,
        {
            let cap = size_fn(i);
            let ln = Line::new(cap, start >> i);
            proof {
                assert(cell_vals::<V>(Seq::empty(), i, 0).len() == 0);
            }
            lines.push(ln);
            i += 1;
        }
        let r = DataPart { lines, hist: Ghost(Seq::empty()), origin: Ghost(start) };
        r
    }

    /// Record `value` at `timestamp`: the write reaches every level whose
    /// shifted position is still non-zero.  Timestamps must be pushed in
    /// non-decreasing order, at or above the construction start.  The
    /// reference implementation aborts on an out-of-order push; here that
    /// caller error is excluded by precondition (`try_push` checks it
    /// instead).
    pub fn push(&mut self, timestamp: u64, value: V)
        requires
            old(self).wf(),
            1 <= timestamp < TIMESTAMP_LIMIT,
            old(self).origin_spec() <= timestamp,
            old(self).history().len() > 0 ==> old(self).history().last().0 <= timestamp,
        ensures
            final(self).wf(),
            final(self).history() == old(self).history().push((timestamp, value.model())),
            final(self).origin_spec() == old(self).origin_spec(),
    {
        let ghost h = self.hist@;
        let ghost org = self.origin@;
        let ghost e = (timestamp, value.model());
        let ghost h2 = h.push(e);
        let mut i: u64 = 0;
        let mut done: bool = false;
        while i < 64 && !done
            invariant
                old(self).wf(),
                i <= 64,
                h == old(self).hist@,
                org == old(self).origin@,
                e == (timestamp, value.model()),
                h2 == h.push(e),
                1 <= timestamp < TIMESTAMP_LIMIT,
                org <= timestamp,
                h.len() > 0 ==> h.last().0 <= timestamp,
                self.lines@.len() == 64,
                self.hist@ == h,
                self.origin@ == org,
                done ==> timestamp >> i == 0,
                forall|j: u64| j < i ==> timestamp >> j >= 1,
                forall|j: u64|
                    j < i ==> #[trigger] line_ok_for::<V>(self.lines@[j as int], h2, org, j),
                forall|j: u64|
                    i <= j < 64 ==> #[trigger] line_ok_for::<V>(self.lines@[j as int], h, org, j),
            decreases 64 - i + (if done { 0int } else { 1int }),
        {
            let p = timestamp >> i;
            if p == 0 {
                done = true;
            } else {
                proof {
                    lemma_shr_le(org, timestamp, i);
                    lemma_shr_self(timestamp, i);
                    if h.len() > 0 {
                        lemma_shr_le(h.last().0, timestamp, i);
                    }
                    assert(line_ok_for::<V>(self.lines@[i as int], h, org, i));
                }
                let copy = value.dup();
                let line = &mut self.lines[i as usize];
                line.push(p, copy);
                proof {
                    let ln0 = old(self).lines@[i as int];
                    let lnp = self.lines@[i as int];
                    lemma_cell_vals_push::<V>(h, i, e);
                    assert forall|q: u64| #[trigger]
                        lnp.contents().dom().contains(q) <==> (q >= 1 && cell_vals::<V>(
                            h2,
                            i,
                            q,
                        ).len() > 0) by {
                        if q != p {
                            assert(cell_vals::<V>(h2, i, q) == cell_vals::<V>(h, i, q));
                        }
                    }
                    assert forall|q: u64| lnp.contents().dom().contains(q) implies #[trigger] lnp.contents()[q]
                        == fold_m::<V>(cell_vals::<V>(h2, i, q)) by {
                        if q == p {
                            let old_cell = cell_vals::<V>(h, i, p);
                            if old_cell.len() > 0 {
                                lemma_fold_m_push::<V>(old_cell, e.1);
                            } else {
                                assert(cell_vals::<V>(h2, i, p) =~= seq![e.1]);
                            }
                        } else {
                            assert(cell_vals::<V>(h2, i, q) == cell_vals::<V>(h, i, q));
                        }
                    }
                    assert(line_ok_for::<V>(lnp, h2, org, i));
                }
                i += 1;
            }
        }
        proof {
            assert forall|j: u64| i <= j < 64 implies #[trigger] line_ok_for::<V>(
                self.lines@[j as int],
                h2,
                org,
                j,
            ) by {
                assert(line_ok_for::<V>(self.lines@[j as int], h, org, j));
                if done {
                    lemma_shr_shift_le(timestamp, i, j);
                } else {
                    assert(i == 64 && !(j < 64));
                }
                assert(timestamp >> j == 0);
                lemma_cell_vals_push::<V>(h, j, e);
                assert forall|p: u64| p >= 1 implies cell_vals::<V>(h2, j, p) == cell_vals::<V>(
                    h,
                    j,
                    p,
                ) by {
                    assert(e.0 >> j != p);
                }
                if h.len() > 0 {
                    lemma_shr_le(h.last().0, timestamp, j);
                }
            }
        }
        self.hist = Ghost(h2);
        proof {
            assert forall|j: int, k: int|
                #![trigger h2[j], h2[k]]
                0 <= j <= k < h2.len() implies h2[j].0 <= h2[k].0 by {
                if k < h2.len() - 1 {
                    assert(h[j].0 <= h[k].0);
                } else if j < h2.len() - 1 {
                    assert(h[j].0 <= h.last().0);
                }
            }
            assert(hist_ok::<V>(h2, org));
        }
    }

    /// What a constrained query promises.  On success, `[t, x)` is a
    /// populated level-aligned block (clamped to the populated window) with
    /// `x <= r`, the value is the fold over it, and `x` is the largest right
    /// end among the admissible levels; on failure, no level at or below
    /// `t`'s own is both populated and admissible.  Contents never change.
    pub open spec fn cq_post_spec(
        pre: Self,
        post: Self,
        t: u64,
        r: u64,
        result: Option<(V, u64)>,
    ) -> bool {
        &&& post.wf()
        &&& post.history() == pre.history()
        &&& post.origin_spec() == pre.origin_spec()
        &&& (result matches Some((v, x)) ==> ({
            &&& t < x <= r
            &&& x <= pre.global_end()
            &&& pre.has_vals(t, x)
            &&& v.model() == pre.agg_model(t, x)
            &&& (exists|i: u64|
                i <= u64_trailing_zeros(t) && #[trigger] pre.level_right(t, i) == x
                    && pre.block_populated(t, i))
            &&& (forall|j: u64|
                j <= u64_trailing_zeros(t) && #[trigger] pre.block_populated(t, j)
                    && pre.level_right(t, j) <= r ==> pre.level_right(t, j) <= x)
        }))
        &&& (result is None ==> (forall|j: u64|
            j <= u64_trailing_zeros(t) ==> !(#[trigger] pre.block_populated(t, j)
                && pre.level_right(t, j) <= r)))
    }

    /// The level-`i` cell at `t`'s position holds exactly the writes in
    /// `[t, level_right(t, i))`, and a populated block pins the position
    /// inside the line's window.
    proof fn lemma_block_chain(self, t: u64, i: u64)
        requires
            self.wf(),
            1 <= t < TIMESTAMP_LIMIT,
            i <= u64_trailing_zeros(t),
        ensures
            cell_vals::<V>(self.history(), i, t >> i) == self.range_models(
                t,
                self.level_right(t, i),
            ),
            self.block_populated(t, i) ==> t < self.level_right(t, i),
            self.block_populated(t, i) ==> (self.origin_spec() >> i) <= (t >> i),
            self.block_populated(t, i) ==> self.history().len() > 0 && (t >> i)
                < (self.history().last().0 >> i) + 1 && (self.history().last().0 >> i) >= 1,
    {
        let h = self.history();
        let g = self.global_end();
        lemma_tz_facts(t, i);
        lemma_shl_pow2(i);
        assert(i < 63 ==> (1u64 << i) <= 0x4000_0000_0000_0000u64) by (bit_vector);
        let hi = (t + (1u64 << i)) as u64;
        lemma_cell_eq_block::<V>(h, t, i);
        if h.len() == 0 {
            assert(vals_in::<V>(h, t, hi) =~= vals_in::<V>(h, t, self.level_right(t, i)));
        } else {
            assert forall|j: int| 0 <= j < h.len() implies (#[trigger] h[j]).0 < g by {
                assert(h[j].0 <= h[h.len() - 1].0);
            }
            if t + pow2(i as nat) < g {
            } else {
                lemma_vals_in_clip::<V>(h, t, hi, g, g);
            }
        }
        if self.block_populated(t, i) {
            lemma_has_vals_iff::<V>(h, t, self.level_right(t, i));
            let j = choose|j: int|
                0 <= j < h.len() && t <= (#[trigger] h[j]).0 < self.level_right(t, i);
            let q = h[j].0;
            assert(self.level_right(t, i) <= t + pow2(i as nat));
            lemma_cell_iff_range(t, q, i);
            lemma_shr_le(self.origin_spec(), q, i);
            lemma_shr_le(t, q, i);
            assert(h[j].0 <= h[h.len() - 1].0);
            lemma_shr_le(q, h.last().0, i);
        }
    }

    /// Clamped block ends only grow with the level.
    proof fn lemma_level_right_mono(self, t: u64, j: u64, i: u64)
        requires
            j <= i,
        ensures
            self.level_right(t, j) <= self.level_right(t, i),
    {
        lemma_pow2_mono(j as nat, i as nat);
    }

    /// Return the fold over `[timestamp, x)` where `x <= r` is as large as a
    /// populated aligned block allows, together with `x`; `None` when no
    /// level qualifies.  Queries promote cache entries but never change the
    /// contents.
    pub fn constrained_query(&mut self, timestamp: u64, r: u64) -> (result: Option<(V, u64)>)
        requires
            old(self).wf(),
            1 <= timestamp < TIMESTAMP_LIMIT,
        ensures
            Self::cq_post_spec(*old(self), *final(self), timestamp, r, result),
    {
        let ghost pre = *old(self);
        let lvl: u32 = timestamp.trailing_zeros();
        proof {
            lemma_shr_zero(timestamp);
            lemma_shr_zero(pre.origin_spec());
            if pre.history().len() > 0 {
                lemma_shr_zero(pre.history().last().0);
                assert(pre.history().last() == pre.history()[pre.history().len() - 1]);
            }
            assert(line_ok_for::<V>(self.lines@[0], self.hist@, self.origin@, 0));
        }
        let first = &self.lines[0];
        let pair = first.get_range();
        let global_r = pair.1;
        let mut i: u64 = lvl as u64 + 1;
        let mut found: bool = false;
        let mut result: Option<(V, u64)> = None;
        let ghost mut fi: u64 = 0;
        while i > 0 && !found
            invariant
                self.wf(),
                self.history() == pre.history(),
                self.origin_spec() == pre.origin_spec(),
                pre.wf(),
                1 <= timestamp < TIMESTAMP_LIMIT,
                lvl == u64_trailing_zeros(timestamp),
                i <= lvl as u64 + 1,
                global_r == pre.global_end(),
                !found ==> result is None,
                !found ==> (forall|j: u64|
                    i <= j <= lvl as u64 ==> !(#[trigger] pre.block_populated(timestamp, j)
                        && pre.level_right(timestamp, j) <= r)),
                found ==> (result matches Some((v, x)) && fi <= lvl as u64 && x
                    == pre.level_right(timestamp, fi) && pre.block_populated(timestamp, fi) && x
                    <= r && v.model() == pre.agg_model(timestamp, x) && (forall|j: u64|
                    fi < j <= lvl as u64 ==> !(#[trigger] pre.block_populated(timestamp, j)
                        && pre.level_right(timestamp, j) <= r))),
            decreases i,
        {
            i -= 1;
            let p = timestamp >> i;
            proof {
                lemma_tz_facts(timestamp, i);
                assert(i < 63 ==> (1u64 << i) <= 0x4000_0000_0000_0000u64) by (bit_vector);
                pre.lemma_block_chain(timestamp, i);
                assert(line_ok_for::<V>(self.lines@[i as int], self.hist@, self.origin@, i));
            }
            let ln = &mut self.lines[i as usize];
            let in_range = ln.check_range(p);
            if in_range {
                let cand = (1u64 << i) + timestamp;
                let level_r = if cand < global_r {
                    cand
                } else {
                    global_r
                };
                proof {
                    lemma_shl_pow2(i);
                    assert(level_r == pre.level_right(timestamp, i));
                }
                if level_r <= r {
                    match ln.get(p) {
                        Some(v) => {
                            result = Some((v, level_r));
                            found = true;
                            proof {
                                fi = i;
                            }
                        },
                        None => {
                            proof {
                                assert(!pre.block_populated(timestamp, i));
                            }
                        },
                    }
                } else {
                    proof {
                        assert(!(pre.block_populated(timestamp, i) && pre.level_right(
                            timestamp,
                            i,
                        ) <= r));
                    }
                }
            } else {
                proof {
                    if pre.block_populated(timestamp, i) {
                        assert(false);
                    }
                }
            }
            proof {
                assert forall|j: u64| j < 64 implies #[trigger] line_ok_for::<V>(
                    self.lines@[j as int],
                    self.hist@,
                    self.origin@,
                    j,
                ) by {
                    assert(line_ok_for::<V>(pre.lines@[j as int], pre.hist@, pre.origin@, j));
                }
            }
        }
        proof {
            if found {
                assert forall|j: u64|
                    j <= u64_trailing_zeros(timestamp) && #[trigger] pre.block_populated(
                        timestamp,
                        j,
                    ) && pre.level_right(timestamp, j) <= r implies pre.level_right(timestamp, j)
                    <= pre.level_right(timestamp, fi) by {
                    if j <= fi {
                        pre.lemma_level_right_mono(timestamp, j, fi);
                    }
                }
                pre.lemma_block_chain(timestamp, fi);
            }
        }
        result
    }
}

/// The level of a queried timestamp is below 63 and leaves it aligned:
/// shifting down and back up restores `t`, and the shifted position is
/// positive.
proof fn lemma_tz_facts(t: u64, i: u64)
    requires
        1 <= t < TIMESTAMP_LIMIT,
        i <= u64_trailing_zeros(t),
    ensures
        i < 63,
        t >> i >= 1,
        (t >> i) << i == t,
        t & (((1u64 << i) - 1) as u64) == 0,
{
    let z = u64_trailing_zeros(t) as u64;
    assert(z < 64 && (t >> z) & 1u64 == 1u64);
    assert(t << ((64u64 - z) as u64) == 0);
    assert(z < 64 && (t >> z) & 1u64 == 1u64 && t < 0x8000_0000_0000_0000 ==> z < 63)
        by (bit_vector);
    assert(i <= z && z < 63 && (t >> z) & 1u64 == 1u64 && t << ((64u64 - z) as u64) == 0 ==> (t >> i >= 1
        && (t >> i) << i == t && t & (((1u64 << i) - 1) as u64) == 0)) by (bit_vector);
}

/// `1 << i` is `pow2(i)`.
proof fn lemma_shl_pow2(i: u64)
    requires
        i < 64,
    ensures
        (1u64 << i) == pow2(i as nat),
        pow2(i as nat) >= 1,
{
    vstd::bits::lemma_u64_pow2_no_overflow(i as nat);
    vstd::bits::lemma_u64_shl_is_mul(1u64, i);
}

/// Powers of two do not shrink with the exponent.
proof fn lemma_pow2_mono(a: nat, b: nat)
    requires
        a <= b,
    ensures
        pow2(a) <= pow2(b),
{
    if a < b {
        vstd::arithmetic::power2::lemma_pow2_strictly_increases(a, b);
    }
}

/// At a level at or below the timestamp's own, sharing the shifted position
/// means lying in the aligned block `[t, t + (1 << i))`.
proof fn lemma_cell_iff_range(t: u64, q: u64, i: u64)
    requires
        1 <= t < TIMESTAMP_LIMIT,
        i <= u64_trailing_zeros(t),
    ensures
        (q >> i == t >> i) <==> (t <= q && q < t + (1u64 << i)),
{
    lemma_tz_facts(t, i);
    assert(i < 63 && t & (((1u64 << i) - 1) as u64) == 0 && t < 0x8000_0000_0000_0000 ==> ((q >> i == t
        >> i) <==> (t <= q && q - t < (1u64 << i)))) by (bit_vector);
}

/// The level-`i` cell at `t`'s own position collects exactly the writes in
/// the aligned block `[t, t + (1 << i))`.
proof fn lemma_cell_eq_block<V: Semigroup>(h: Seq<(u64, <V as Semigroup>::M)>, t: u64, i: u64)
    requires
        1 <= t < TIMESTAMP_LIMIT,
        i <= u64_trailing_zeros(t),
    ensures
        cell_vals::<V>(h, i, t >> i) == vals_in::<V>(h, t, (t + (1u64 << i)) as u64),
    decreases h.len(),
{
    lemma_tz_facts(t, i);
    assert(i < 63 ==> (1u64 << i) >= 1 && (1u64 << i) <= 0x4000_0000_0000_0000u64)
        by (bit_vector);
    let hi = (t + (1u64 << i)) as u64;
    if h.len() > 0 {
        lemma_cell_eq_block::<V>(h.drop_last(), t, i);
        lemma_cell_iff_range(t, h.last().0, i);
    }
}

/// Widening the right bound past every written timestamp changes nothing.
proof fn lemma_vals_in_clip<V: Semigroup>(
    h: Seq<(u64, <V as Semigroup>::M)>,
    lo: u64,
    hi: u64,
    hi2: u64,
    b: u64,
)
    requires
        forall|j: int| 0 <= j < h.len() ==> (#[trigger] h[j]).0 < b,
        b <= hi,
        b <= hi2,
    ensures
        vals_in::<V>(h, lo, hi) == vals_in::<V>(h, lo, hi2),
    decreases h.len(),
{
    if h.len() > 0 {
        assert(h.last() == h[h.len() - 1]);
        lemma_vals_in_clip::<V>(h.drop_last(), lo, hi, hi2, b);
    }
}

/// A slice of the history is inhabited exactly when some write fell in it.
proof fn lemma_has_vals_iff<V: Semigroup>(h: Seq<(u64, <V as Semigroup>::M)>, lo: u64, hi: u64)
    ensures
        vals_in::<V>(h, lo, hi).len() > 0 <==> exists|j: int|
            0 <= j < h.len() && lo <= (#[trigger] h[j]).0 < hi,
    decreases h.len(),
{
    if h.len() > 0 {
        let h0 = h.drop_last();
        lemma_has_vals_iff::<V>(h0, lo, hi);
        let e = h.last();
        assert(e == h[h.len() - 1]);
        assert(forall|j: int| 0 <= j < h0.len() ==> #[trigger] h0[j] == h[j]);
        if lo <= e.0 && e.0 < hi {
            assert(lo <= (h[h.len() - 1]).0 < hi);
        } else {
            if vals_in::<V>(h0, lo, hi).len() > 0 {
                let j = choose|j: int| 0 <= j < h0.len() && lo <= (#[trigger] h0[j]).0 < hi;
                assert(lo <= (h[j]).0 < hi);
            }
            if exists|j: int| 0 <= j < h.len() && lo <= (#[trigger] h[j]).0 < hi {
                let j = choose|j: int| 0 <= j < h.len() && lo <= (#[trigger] h[j]).0 < hi;
                assert(j != h.len() - 1);
                assert(lo <= (h0[j]).0 < hi);
            }
        }
    }
}

/// Splitting a sorted slice at a middle bound splits its values in order.
pub proof fn lemma_vals_in_split<V: Semigroup>(
    h: Seq<(u64, <V as Semigroup>::M)>,
    lo: u64,
    mid: u64,
    hi: u64,
)
    requires
        forall|a: int, b: int|
            #![trigger h[a], h[b]]
            0 <= a <= b < h.len() ==> h[a].0 <= h[b].0,
        lo <= mid <= hi,
    ensures
        vals_in::<V>(h, lo, hi) == vals_in::<V>(h, lo, mid) + vals_in::<V>(h, mid, hi),
    decreases h.len(),
{
    if h.len() == 0 {
        assert(vals_in::<V>(h, lo, hi) =~= vals_in::<V>(h, lo, mid) + vals_in::<V>(h, mid, hi));
    } else {
        let h0 = h.drop_last();
        let e = h.last();
        assert(e == h[h.len() - 1]);
        assert forall|a: int, b: int|
            #![trigger h0[a], h0[b]]
            0 <= a <= b < h0.len() implies h0[a].0 <= h0[b].0 by {
            assert(h0[a] == h[a] && h0[b] == h[b]);
        }
        lemma_vals_in_split::<V>(h0, lo, mid, hi);
        if mid <= e.0 && e.0 < hi {
            assert(vals_in::<V>(h, lo, mid) == vals_in::<V>(h0, lo, mid));
            assert(vals_in::<V>(h, lo, hi) =~= vals_in::<V>(h, lo, mid) + vals_in::<V>(
                h,
                mid,
                hi,
            ));
        } else if e.0 < mid {
            lemma_has_vals_iff::<V>(h0, mid, hi);
            assert forall|j: int| 0 <= j < h0.len() implies !(mid <= (#[trigger] h0[j]).0 < hi) by {
                assert(h0[j] == h[j]);
                assert(h[j].0 <= h[h.len() - 1].0);
            }
            assert(vals_in::<V>(h0, mid, hi).len() == 0);
            assert(vals_in::<V>(h, mid, hi).len() == 0);
            assert(vals_in::<V>(h, lo, hi) =~= vals_in::<V>(h, lo, mid) + vals_in::<V>(
                h,
                mid,
                hi,
            ));
        } else {
            assert(vals_in::<V>(h, lo, hi) =~= vals_in::<V>(h, lo, mid) + vals_in::<V>(
                h,
                mid,
                hi,
            ));
        }
    }

}

/// Shifting by zero changes nothing.
proof fn lemma_shr_zero(x: u64)
    ensures
        x >> 0u64 == x,
{
    assert(x >> 0u64 == x) by (bit_vector);
}

/// A right shift never grows a value.
proof fn lemma_shr_self(t: u64, i: u64)
    ensures
        t >> i <= t,
{
    assert(t >> i <= t) by (bit_vector);
}

/// Shifting preserves order: `a <= b` gives `a >> i <= b >> i`.
proof fn lemma_shr_le(a: u64, b: u64, i: u64)
    requires
        a <= b,
    ensures
        a >> i <= b >> i,
{
    assert(a <= b ==> a >> i <= b >> i) by (bit_vector);
}

/// Shifting further only shrinks: `i <= j` gives `t >> j <= t >> i`.
proof fn lemma_shr_shift_le(t: u64, i: u64, j: u64)
    requires
        i <= j,
    ensures
        t >> j <= t >> i,
{
    assert(i <= j ==> t >> j <= t >> i) by (bit_vector);
}

/// Appending one entry extends exactly the cell it falls in.
proof fn lemma_cell_vals_push<V: Semigroup>(
    h: Seq<(u64, <V as Semigroup>::M)>,
    i: u64,
    e: (u64, <V as Semigroup>::M),
)
    ensures
        forall|p: u64|
            #[trigger] cell_vals::<V>(h.push(e), i, p) == if e.0 >> i == p {
                cell_vals::<V>(h, i, p).push(e.1)
            } else {
                cell_vals::<V>(h, i, p)
            },
{
    assert(h.push(e).drop_last() =~= h);
    assert(h.push(e).last() == e);
    assert(h.push(e).len() == h.len() + 1);
}

impl<V: Semigroup> DataPart<V> {
    /// Greedy is constrained with no upper bound.
    pub fn greedy_query(&mut self, timestamp: u64) -> (result: Option<(V, u64)>)
        requires
            old(self).wf(),
            1 <= timestamp < TIMESTAMP_LIMIT,
        ensures
            Self::cq_post_spec(*old(self), *final(self), timestamp, u64::MAX, result),
    {
        self.constrained_query(timestamp, u64::MAX)
    }

    /// One constrained step under the bound `rbound`: `[t, x)` is the
    /// largest populated level-aligned block starting at `t` whose clamped
    /// right end stays at or below `rbound`.
    pub open spec fn cq_step(pre: Self, rbound: u64, t: u64, x: u64) -> bool {
        &&& t < x <= rbound
        &&& x <= pre.global_end()
        &&& pre.has_vals(t, x)
        &&& (exists|i: u64|
            i <= u64_trailing_zeros(t) && #[trigger] pre.level_right(t, i) == x
                && pre.block_populated(t, i))
        &&& (forall|j: u64|
            j <= u64_trailing_zeros(t) && #[trigger] pre.block_populated(t, j)
                && pre.level_right(t, j) <= rbound ==> pre.level_right(t, j) <= x)
    }

    /// A chain of constrained steps under the bound `rbound`, starting at
    /// `l`.
    pub open spec fn rq_chain_ok(pre: Self, rbound: u64, cuts: Seq<u64>, l: u64) -> bool {
        &&& cuts.len() >= 1
        &&& cuts[0] == l
        &&& (forall|j: int|
            0 <= j < cuts.len() - 1 ==> Self::cq_step(pre, rbound, #[trigger] cuts[j], cuts[j + 1]))
    }

    /// No constrained step under the bound `rbound` leaves `t`: every level
    /// at or below `t`'s own is unpopulated or reaches past the bound.
    pub open spec fn cq_stuck(pre: Self, rbound: u64, t: u64) -> bool {
        forall|j: u64|
            j <= u64_trailing_zeros(t) ==> !(#[trigger] pre.block_populated(t, j)
                && pre.level_right(t, j) <= rbound)
    }

    /// What a range query promises.  On success the value is the fold over
    /// `[l, r)`, reached by a chain of constrained steps ending exactly at
    /// `r`; on failure the chain of constrained steps from `l` gets stuck
    /// before reaching `r`.  Whenever every timestamp in a non-empty
    /// `[l, r)` inside the populated window was written, success is owed.
    pub open spec fn rq_post_spec(pre: Self, post: Self, l: u64, r: u64, result: Option<V>) -> bool {
        &&& post.wf()
        &&& post.history() == pre.history()
        &&& post.origin_spec() == pre.origin_spec()
        &&& (result matches Some(v) ==> l < r <= pre.global_end() && pre.has_vals(l, r)
            && v.model() == pre.agg_model(l, r))
        &&& (result matches Some(v) ==> (exists|cuts: Seq<u64>|
            #[trigger] Self::rq_chain_ok(pre, r, cuts, l) && cuts.last() == r))
        &&& (result is None ==> (exists|cuts: Seq<u64>|
            #[trigger] Self::rq_chain_ok(pre, r, cuts, l) && Self::cq_stuck(
                pre,
                r,
                cuts.last(),
            )))
        &&& ((l < r <= pre.global_end() && pre.covered(l, r)) ==> result is Some)
    }

    /// A timestamp that was written yields a populated single block.
    proof fn lemma_pushed_level0(self, t: u64)
        requires
            self.wf(),
            1 <= t < TIMESTAMP_LIMIT,
            self.pushed_at(t),
            t < self.global_end(),
        ensures
            self.block_populated(t, 0),
            self.level_right(t, 0) == t + 1,
    {
        vstd::arithmetic::power2::lemma2_to64();
        let h = self.history();
        let j = choose|j: int| 0 <= j < h.len() && (#[trigger] h[j]).0 == t;
        lemma_has_vals_iff::<V>(h, t, (t + 1) as u64);
        assert(t <= h[j].0 < t + 1);
    }

    /// The fold over `[l, r)` splits at any written boundary.
    proof fn lemma_agg_split(self, l: u64, m: u64, r: u64)
        requires
            self.wf(),
            l <= m <= r,
            self.has_vals(l, m),
            self.has_vals(m, r),
        ensures
            self.has_vals(l, r),
            self.agg_model(l, r) == <V as Semigroup>::combine_model(
                self.agg_model(l, m),
                self.agg_model(m, r),
            ),
    {
        let h = self.history();
        lemma_vals_in_split::<V>(h, l, m, r);
        lemma_fold_m_concat::<V>(vals_in::<V>(h, l, m), vals_in::<V>(h, m, r));
    }

    /// Return the fold over the interval `[l, r)`, by repeated constrained
    /// queries; `None` when the interval is empty, ends past the populated
    /// window, or crosses an unpopulated timestamp.
    pub fn range_query(&mut self, l: u64, r: u64) -> (result: Option<V>)
        requires
            old(self).wf(),
            1 <= l < TIMESTAMP_LIMIT,
        ensures
            Self::rq_post_spec(*old(self), *final(self), l, r, result),
    {
        let ghost pre = *old(self);
        let mut cur: u64 = l;
        let mut acc: Option<V> = None;
        let mut out: Option<V> = None;
        let mut done: bool = false;
        let ghost mut cuts: Seq<u64> = seq![l];
        while !done
            invariant
                self.wf(),
                self.history() == pre.history(),
                self.origin_spec() == pre.origin_spec(),
                pre.wf(),
                1 <= l < TIMESTAMP_LIMIT,
                l <= cur,
                cur <= TIMESTAMP_LIMIT,
                Self::rq_chain_ok(pre, r, cuts, l),
                cuts.last() == cur,
                !done ==> out is None,
                !done ==> (acc is None ==> cur == l),
                !done ==> (acc matches Some(a) ==> l < cur && cur < r && cur
                    <= pre.global_end() && pre.has_vals(l, cur) && a.model() == pre.agg_model(
                    l,
                    cur,
                )),
                done ==> Self::rq_post_spec(pre, *self, l, r, out),
            decreases TIMESTAMP_LIMIT - cur, (if done { 0int } else { 1int }),
        {
            if cur >= TIMESTAMP_LIMIT {
                proof {
                    assert(cur == TIMESTAMP_LIMIT);
                    assert(!(r <= pre.global_end() && l < r && pre.covered(l, r)));
                    assert(acc is Some);
                    assert(pre.global_end() == TIMESTAMP_LIMIT);
                    let h = pre.history();
                    assert forall|j: u64|
                        j <= u64_trailing_zeros(cur) implies !(#[trigger] pre.block_populated(
                        cur,
                        j,
                    ) && pre.level_right(cur, j) <= r) by {
                        lemma_has_vals_iff::<V>(h, cur, pre.level_right(cur, j));
                        if pre.block_populated(cur, j) {
                            let q = choose|q: int|
                                0 <= q < h.len() && cur <= (#[trigger] h[q]).0 < pre.level_right(
                                    cur,
                                    j,
                                );
                            assert(pre.level_right(cur, j) <= pre.global_end());
                            assert(false);
                        }
                    }
                    assert(Self::cq_stuck(pre, r, cuts.last()));
                }
                out = None;
                done = true;
            } else {
                let ghost snap = *self;
                match self.constrained_query(cur, r) {
                    None => {
                        proof {
                            if l < r && r <= pre.global_end() && pre.covered(l, r) {
                                assert(l <= cur && cur < r);
                                assert(pre.pushed_at(cur));
                                assert(snap.global_end() == pre.global_end());
                                snap.lemma_pushed_level0(cur);
                                assert(false);
                            }
                            assert forall|j: u64|
                                j <= u64_trailing_zeros(cur) implies !(
                            #[trigger] pre.block_populated(cur, j) && pre.level_right(cur, j)
                                <= r) by {
                                if pre.block_populated(cur, j) && pre.level_right(cur, j) <= r {
                                    assert(snap.block_populated(cur, j));
                                    assert(snap.level_right(cur, j) <= r);
                                    assert(false);
                                }
                            }
                            assert(Self::cq_stuck(pre, r, cuts.last()));
                        }
                        out = None;
                        done = true;
                    },
                    Some((v, x)) => {
                        let ghost mid = cur;
                        proof {
                            assert(snap.global_end() == pre.global_end());
                            assert(v.model() == pre.agg_model(mid, x));
                            assert(pre.has_vals(mid, x));
                            let wi = choose|i: u64|
                                i <= u64_trailing_zeros(mid) && #[trigger] snap.level_right(
                                    mid,
                                    i,
                                ) == x && snap.block_populated(mid, i);
                            assert(pre.level_right(mid, wi) == x && pre.block_populated(mid, wi));
                            assert forall|j: u64|
                                j <= u64_trailing_zeros(mid) && #[trigger] pre.block_populated(
                                    mid,
                                    j,
                                ) && pre.level_right(mid, j) <= r implies pre.level_right(mid, j)
                                <= x by {
                                assert(snap.block_populated(mid, j));
                                assert(snap.level_right(mid, j) <= r);
                            }
                            assert(Self::cq_step(pre, r, mid, x));
                            let prior = cuts;
                            cuts = cuts.push(x);
                            assert forall|j: int|
                                0 <= j < cuts.len() - 1 implies Self::cq_step(
                                pre,
                                r,
                                #[trigger] cuts[j],
                                cuts[j + 1],
                            ) by {
                                if j < prior.len() - 1 {
                                    assert(cuts[j] == prior[j] && cuts[j + 1] == prior[j + 1]);
                                    assert(Self::cq_step(pre, r, prior[j], prior[j + 1]));
                                } else {
                                    assert(cuts[j] == prior.last() && cuts[j + 1] == x);
                                }
                            }
                            assert(Self::rq_chain_ok(pre, r, cuts, l));
                        }
                        let taken = acc;
                        acc = None;
                        let next_acc = match taken {
                            None => v,
                            Some(a) => {
                                proof {
                                    pre.lemma_agg_split(l, mid, x);
                                }
                                a.combine(v)
                            },
                        };
                        cur = x;
                        if x == r {
                            out = Some(next_acc);
                            done = true;
                        } else {
                            acc = Some(next_acc);
                        }
                    },
                }
            }
        }
        out
    }

    /// One greedy step: `[t, x)` is the largest populated level-aligned
    /// block starting at `t`, clamped to the populated window.
    pub open spec fn greedy_step(pre: Self, t: u64, x: u64) -> bool {
        &&& t < x <= pre.global_end()
        &&& pre.has_vals(t, x)
        &&& (exists|i: u64|
            i <= u64_trailing_zeros(t) && #[trigger] pre.level_right(t, i) == x
                && pre.block_populated(t, i))
        &&& (forall|j: u64|
            j <= u64_trailing_zeros(t) && #[trigger] pre.block_populated(t, j)
                ==> pre.level_right(t, j) <= x)
    }

    /// A chain of greedy steps from `t` to `x`.
    pub open spec fn sq_chain_ok(pre: Self, cuts: Seq<u64>, t: u64, x: u64) -> bool {
        &&& cuts.len() >= 2
        &&& cuts[0] == t
        &&& cuts.last() == x
        &&& (forall|j: int|
            0 <= j < cuts.len() - 1 ==> Self::greedy_step(pre, #[trigger] cuts[j], cuts[j + 1]))
    }

    /// The folds of a chain's blocks, later blocks first.
    pub open spec fn rev_block_folds(pre: Self, cuts: Seq<u64>) -> Seq<<V as Semigroup>::M> {
        Seq::new(
            (cuts.len() - 1) as nat,
            |i: int| pre.agg_model(cuts[cuts.len() - 2 - i], cuts[cuts.len() - 1 - i]),
        )
    }

    /// What a suffix query promises.  On success `[t, x)` decomposes into a
    /// maximal chain of greedy blocks whose folds, combined later-block
    /// first, give the value; when every timestamp from `t` to the window's
    /// end was written, `x` is that end; and for a commutative combiner the
    /// value is exactly the fold over `[t, x)`.
    pub open spec fn sq_post_spec(
        pre: Self,
        post: Self,
        t: u64,
        result: Option<(V, u64)>,
    ) -> bool {
        &&& post.wf()
        &&& post.history() == pre.history()
        &&& post.origin_spec() == pre.origin_spec()
        &&& (result matches Some((v, x)) ==> ({
            &&& t < x <= pre.global_end()
            &&& pre.has_vals(t, x)
            &&& ((forall|j: u64|
                j <= u64_trailing_zeros(x) ==> !(#[trigger] pre.block_populated(x, j))) || x
                == TIMESTAMP_LIMIT)
            &&& (exists|cuts: Seq<u64>|
                #[trigger] Self::sq_chain_ok(pre, cuts, t, x) && v.model() == fold_m::<V>(
                    Self::rev_block_folds(pre, cuts),
                ))
        }))
        &&& (result is None ==> (forall|j: u64|
            j <= u64_trailing_zeros(t) ==> !(#[trigger] pre.block_populated(t, j))))
        &&& ((t < pre.global_end() && pre.covered(t, pre.global_end())) ==> (result matches Some(
            (v, x),
        ) && x == pre.global_end()))
        &&& ((forall|a: <V as Semigroup>::M, b: <V as Semigroup>::M|
            #[trigger] <V as Semigroup>::combine_model(a, b) == <V as Semigroup>::combine_model(
                b,
                a,
            )) ==> (result matches Some((v, x)) ==> v.model() == pre.agg_model(t, x)))
    }

    /// Return the combined value over `[t, end)` for the largest reachable
    /// `end`, by repeated greedy queries.  The later block is combined first,
    /// as the reference recursion does; for a commutative combiner the result
    /// is the fold over the interval.
    pub fn suffix_query(&mut self, timestamp: u64) -> (result: Option<(V, u64)>)
        requires
            old(self).wf(),
            1 <= timestamp < TIMESTAMP_LIMIT,
        ensures
            Self::sq_post_spec(*old(self), *final(self), timestamp, result),
    {
        let ghost pre = *old(self);
        let ghost comm = forall|a: <V as Semigroup>::M, b: <V as Semigroup>::M|
            #[trigger] <V as Semigroup>::combine_model(a, b) == <V as Semigroup>::combine_model(
                b,
                a,
            );
        let mut cur: u64 = timestamp;
        let mut out: Option<(V, u64)> = None;
        let mut done: bool = false;
        let ghost mut cuts: Seq<u64> = Seq::empty();
        while !done
            invariant
                self.wf(),
                self.history() == pre.history(),
                self.origin_spec() == pre.origin_spec(),
                pre.wf(),
                1 <= timestamp < TIMESTAMP_LIMIT,
                timestamp <= cur,
                cur <= TIMESTAMP_LIMIT,
                comm == (forall|a: <V as Semigroup>::M, b: <V as Semigroup>::M|
                    #[trigger] <V as Semigroup>::combine_model(a, b)
                        == <V as Semigroup>::combine_model(b, a)),
                !done ==> (out is None ==> cur == timestamp),
                out matches Some((v, x)) ==> ({
                    &&& timestamp < x <= pre.global_end()
                    &&& x == cur
                    &&& pre.has_vals(timestamp, x)
                    &&& Self::sq_chain_ok(pre, cuts, timestamp, x)
                    &&& v.model() == fold_m::<V>(Self::rev_block_folds(pre, cuts))
                    &&& (comm ==> v.model() == pre.agg_model(timestamp, x))
                }),
                done ==> Self::sq_post_spec(pre, *self, timestamp, out),
            decreases TIMESTAMP_LIMIT - cur, (if done { 0int } else { 1int }),
        {
            if cur >= TIMESTAMP_LIMIT {
                proof {
                    assert(cur == TIMESTAMP_LIMIT && pre.global_end() == TIMESTAMP_LIMIT);
                }
                done = true;
            } else {
                let ghost snap = *self;
                match self.greedy_query(cur) {
                    None => {
                        proof {
                            assert(snap.global_end() == pre.global_end());
                            if cur < pre.global_end() && timestamp < pre.global_end()
                                && pre.covered(timestamp, pre.global_end()) {
                                assert(pre.pushed_at(cur));
                                snap.lemma_pushed_level0(cur);
                                assert(snap.level_right(cur, 0) <= u64::MAX);
                                assert(false);
                            }
                            assert forall|j: u64|
                                j <= u64_trailing_zeros(cur) implies !(
                            #[trigger] pre.block_populated(cur, j)) by {
                                assert(snap.level_right(cur, j) <= u64::MAX);
                                assert(!snap.block_populated(cur, j));
                            }
                        }
                        done = true;
                    },
                    Some((v, x)) => {
                        let ghost mid = cur;
                        proof {
                            assert(snap.global_end() == pre.global_end());
                            assert(v.model() == pre.agg_model(mid, x));
                            assert(pre.has_vals(mid, x));
                            let wi = choose|i: u64|
                                i <= u64_trailing_zeros(mid) && #[trigger] snap.level_right(
                                    mid,
                                    i,
                                ) == x && snap.block_populated(mid, i);
                            assert(pre.level_right(mid, wi) == x && pre.block_populated(mid, wi));
                            assert forall|j: u64|
                                j <= u64_trailing_zeros(mid) && #[trigger] pre.block_populated(
                                    mid,
                                    j,
                                ) implies pre.level_right(mid, j) <= x by {
                                assert(snap.block_populated(mid, j));
                                assert(snap.level_right(mid, j) <= u64::MAX);
                            }
                            assert(Self::greedy_step(pre, mid, x));
                        }
                        let taken = out;
                        out = None;
                        let merged = match taken {
                            None => {
                                proof {
                                    cuts = seq![timestamp, x];
                                    assert(Self::sq_chain_ok(pre, cuts, timestamp, x));
                                    assert(Self::rev_block_folds(pre, cuts) =~= seq![
                                        pre.agg_model(timestamp, x),
                                    ]);
                                }
                                v
                            },
                            Some((a, _)) => {
                                proof {
                                    pre.lemma_agg_split(timestamp, mid, x);
                                    let prior = cuts;
                                    cuts = cuts.push(x);
                                    assert forall|j: int|
                                        0 <= j < cuts.len() - 1 implies Self::greedy_step(
                                        pre,
                                        #[trigger] cuts[j],
                                        cuts[j + 1],
                                    ) by {
                                        if j < prior.len() - 1 {
                                            assert(cuts[j] == prior[j] && cuts[j + 1] == prior[j
                                                + 1]);
                                            assert(Self::greedy_step(pre, prior[j], prior[j + 1]));
                                        } else {
                                            assert(cuts[j] == prior.last() && cuts[j + 1] == x);
                                        }
                                    }
                                    assert(Self::sq_chain_ok(pre, cuts, timestamp, x));
                                    assert(Self::rev_block_folds(pre, cuts) =~= seq![
                                        pre.agg_model(mid, x),
                                    ] + Self::rev_block_folds(pre, prior));
                                    assert(fold_m::<V>(seq![pre.agg_model(mid, x)])
                                        == pre.agg_model(mid, x));
                                    lemma_fold_m_concat::<V>(
                                        seq![pre.agg_model(mid, x)],
                                        Self::rev_block_folds(pre, prior),
                                    );
                                }
                                v.combine(a)
                            },
                        };
                        out = Some((merged, x));
                        cur = x;
                    },
                }
            }
        }
        out
    }

    /// Record `value` at `timestamp` if the push is in order, and say whether
    /// it was.  An out-of-order, zero, or out-of-limit timestamp (the pushes
    /// the reference implementation treats as fatal) is rejected and leaves
    /// the index unchanged.
    pub fn try_push(&mut self, timestamp: u64, value: V) -> (r: bool)
        requires
            old(self).wf(),
        ensures
            final(self).wf(),
            final(self).origin_spec() == old(self).origin_spec(),
            r == (1 <= timestamp && timestamp < TIMESTAMP_LIMIT && old(self).origin_spec()
                <= timestamp && (old(self).history().len() == 0 || old(
                self,
            ).history().last().0 <= timestamp)),
            r ==> final(self).history() == old(self).history().push((timestamp, value.model())),
            !r ==> final(self).history() == old(self).history(),
    {
        proof {
            lemma_shr_zero(self.origin@);
            if self.hist@.len() > 0 {
                lemma_shr_zero(self.hist@.last().0);
                assert(self.hist@.last() == self.hist@[self.hist@.len() - 1]);
            }
            assert(line_ok_for::<V>(self.lines@[0], self.hist@, self.origin@, 0));
        }
        let first = &self.lines[0];
        let pair = first.get_range();
        let ok = 1 <= timestamp && timestamp < TIMESTAMP_LIMIT && pair.0 <= timestamp && pair.1
            <= timestamp + 1;
        if ok {
            self.push(timestamp, value);
            true
        } else {
            false
        }
    }

    /// How many reads level `level`'s bounded cache failed to serve.
    pub closed spec fn miss_at(&self, level: int) -> u64 {
        self.lines@[level].miss_count()
    }

    /// How many reads level `level`'s bounded cache failed to serve.
    pub fn line_cache_miss(&self, level: usize) -> (r: u64)
        requires
            self.wf(),
            level < 64,
        ensures
            r == self.miss_at(level as int),
    {
        proof {
            assert(line_ok_for::<V>(
                self.lines@[level as int],
                self.hist@,
                self.origin@,
                level as u64,
            ));
        }
        let ln = &self.lines[level];
        ln.cache_miss()
    }
}

/// Laws relating the queries to the push history.
impl<V: Semigroup> DataPart<V> {
    /// Law: a constrained query over the single block `[t, t + 1)` at a
    /// written timestamp succeeds with exactly that timestamp's fold and the
    /// right end `t + 1`.
    pub proof fn lemma_single_block_identity(
        pre: Self,
        post: Self,
        t: u64,
        result: Option<(V, u64)>,
    )
        requires
            pre.wf(),
            1 <= t < TIMESTAMP_LIMIT,
            pre.pushed_at(t),
            Self::cq_post_spec(pre, post, t, (t + 1) as u64, result),
        ensures
            result matches Some((v, x)) && x == t + 1 && v.model() == pre.agg_model(
                t,
                (t + 1) as u64,
            ),
    {
        let h = pre.history();
        let j = choose|j: int| 0 <= j < h.len() && (#[trigger] h[j]).0 == t;
        assert(h[j].0 <= h[h.len() - 1].0);
        assert(t < pre.global_end());
        pre.lemma_pushed_level0(t);
        assert(pre.level_right(t, 0) <= t + 1);
        if result is None {
            assert(!(pre.block_populated(t, 0) && pre.level_right(t, 0) <= t + 1));
            assert(false);
        }
    }

    /// Law: a successful constrained query is right-maximal and aligned:
    /// `x <= r`, `t < x`, `x` stays in the populated window, and unless the
    /// block was clamped at the window's end, `x - t` is a power of two
    /// dividing `t`.
    pub proof fn lemma_right_maximal_alignment(
        pre: Self,
        post: Self,
        t: u64,
        r: u64,
        result: Option<(V, u64)>,
    )
        requires
            pre.wf(),
            1 <= t < TIMESTAMP_LIMIT,
            Self::cq_post_spec(pre, post, t, r, result),
        ensures
            result matches Some((v, x)) ==> t < x <= r && x <= pre.global_end() && (x
                == pre.global_end() || (exists|i: u64|
                i < 63 && x - t == pow2(i as nat) && t % ((pow2(i as nat)) as u64) == 0)),
    {
        match result {
            None => {},
            Some((v, x)) => {
                let i = choose|i: u64|
                    i <= u64_trailing_zeros(t) && #[trigger] pre.level_right(t, i) == x
                        && pre.block_populated(t, i);
                lemma_tz_facts(t, i);
                lemma_shl_pow2(i);
                if x != pre.global_end() {
                    assert(t + pow2(i as nat) < pre.global_end());
                    assert(x - t == pow2(i as nat));
                    let d = pow2(i as nat) as int;
                    vstd::bits::lemma_u64_shr_is_div(t, i);
                    vstd::arithmetic::div_mod::lemma_fundamental_div_mod(t as int, d);
                    vstd::arithmetic::div_mod::lemma_mod_bound(t as int, d);
                    assert((t >> i) * d <= t);
                    vstd::bits::lemma_u64_shl_is_mul(t >> i, i);
                    assert(t % ((pow2(i as nat)) as u64) == 0);
                }
            },
        }
    }

    /// Law: the constrained-query contract pins its result down.  Any two
    /// results admitted by it for the same index and arguments agree on
    /// presence, right end, and value model.
    pub proof fn lemma_cq_deterministic(
        pre: Self,
        post1: Self,
        post2: Self,
        t: u64,
        r: u64,
        r1: Option<(V, u64)>,
        r2: Option<(V, u64)>,
    )
        requires
            pre.wf(),
            1 <= t < TIMESTAMP_LIMIT,
            Self::cq_post_spec(pre, post1, t, r, r1),
            Self::cq_post_spec(pre, post2, t, r, r2),
        ensures
            (r1 is Some) == (r2 is Some),
            (r1 matches Some((v1, x1)) ==> (r2 matches Some((v2, x2)) ==> x1 == x2 && v1.model()
                == v2.model())),
    {
        match (r1, r2) {
            (Some((v1, x1)), Some((v2, x2))) => {
                let i1 = choose|i: u64|
                    i <= u64_trailing_zeros(t) && #[trigger] pre.level_right(t, i) == x1
                        && pre.block_populated(t, i);
                let i2 = choose|i: u64|
                    i <= u64_trailing_zeros(t) && #[trigger] pre.level_right(t, i) == x2
                        && pre.block_populated(t, i);
                assert(pre.level_right(t, i2) <= x1);
                assert(pre.level_right(t, i1) <= x2);
            },
            (Some((v1, x1)), None) => {
                let i1 = choose|i: u64|
                    i <= u64_trailing_zeros(t) && #[trigger] pre.level_right(t, i) == x1
                        && pre.block_populated(t, i);
                assert(!(pre.block_populated(t, i1) && pre.level_right(t, i1) <= r));
            },
            (None, Some((v2, x2))) => {
                let i2 = choose|i: u64|
                    i <= u64_trailing_zeros(t) && #[trigger] pre.level_right(t, i) == x2
                        && pre.block_populated(t, i);
                assert(!(pre.block_populated(t, i2) && pre.level_right(t, i2) <= r));
            },
            (None, None) => {},
        }
    }

    /// Law: over a fully written interval inside the populated window, the
    /// range query returns exactly the in-order fold.
    pub proof fn lemma_range_correct(pre: Self, post: Self, l: u64, r: u64, result: Option<V>)
        requires
            pre.wf(),
            1 <= l < TIMESTAMP_LIMIT,
            l < r,
            r <= pre.global_end(),
            pre.covered(l, r),
            Self::rq_post_spec(pre, post, l, r, result),
        ensures
            result matches Some(v) && v.model() == pre.agg_model(l, r),
    {
    }

    /// Law: with a commutative combiner, over a fully written suffix the
    /// suffix query returns exactly the fold up to the populated window's
    /// end, and reports that end.
    pub proof fn lemma_suffix_correct(pre: Self, post: Self, t: u64, result: Option<(V, u64)>)
        requires
            pre.wf(),
            1 <= t < TIMESTAMP_LIMIT,
            t < pre.global_end(),
            pre.covered(t, pre.global_end()),
            forall|a: <V as Semigroup>::M, b: <V as Semigroup>::M|
                #[trigger] <V as Semigroup>::combine_model(a, b)
                    == <V as Semigroup>::combine_model(b, a),
            Self::sq_post_spec(pre, post, t, result),
        ensures
            result matches Some((v, x)) && x == pre.global_end() && v.model() == pre.agg_model(
                t,
                pre.global_end(),
            ),
    {
    }
}

impl<V: Semigroup> TimestampPush<V> for DataPart<V> {
    open spec fn can_push(&self, timestamp: u64) -> bool {
        &&& self.wf()
        &&& 1 <= timestamp < TIMESTAMP_LIMIT
        &&& self.origin_spec() <= timestamp
        &&& (self.history().len() > 0 ==> self.history().last().0 <= timestamp)
    }

    open spec fn push_post(pre: Self, post: Self, timestamp: u64, value: V) -> bool {
        &&& post.wf()
        &&& post.history() == pre.history().push((timestamp, value.model()))
        &&& post.origin_spec() == pre.origin_spec()
    }

    fn push(&mut self, timestamp: u64, value: V) {
        self.push(timestamp, value);
    }
}

impl<V: Semigroup> ConstrainedQuery<V> for DataPart<V> {
    open spec fn query_ready(&self, timestamp: u64) -> bool {
        self.wf() && 1 <= timestamp < TIMESTAMP_LIMIT
    }

    open spec fn cq_post(
        pre: Self,
        post: Self,
        timestamp: u64,
        r: u64,
        result: Option<(V, u64)>,
    ) -> bool {
        Self::cq_post_spec(pre, post, timestamp, r, result)
    }

    fn constrained_query(&mut self, timestamp: u64, r: u64) -> (result: Option<(V, u64)>) {
        self.constrained_query(timestamp, r)
    }
}

impl<V: Semigroup> GreedyQuery<V> for DataPart<V> {
    open spec fn greedy_ready(&self, timestamp: u64) -> bool {
        self.wf() && 1 <= timestamp < TIMESTAMP_LIMIT
    }

    open spec fn gq_post(pre: Self, post: Self, timestamp: u64, result: Option<(V, u64)>) -> bool {
        Self::cq_post_spec(pre, post, timestamp, u64::MAX, result)
    }

    fn greedy_query(&mut self, timestamp: u64) -> (result: Option<(V, u64)>) {
        self.greedy_query(timestamp)
    }
}

impl<V: Semigroup> SuffixQuery<V> for DataPart<V> {
    open spec fn sq_post(pre: Self, post: Self, timestamp: u64, result: Option<(V, u64)>) -> bool {
        Self::sq_post_spec(pre, post, timestamp, result)
    }

    fn suffix_query(&mut self, timestamp: u64) -> (result: Option<(V, u64)>) {
        self.suffix_query(timestamp)
    }
}

impl<V: Semigroup> RangeQuery<V> for DataPart<V> {
    open spec fn rq_post(pre: Self, post: Self, l: u64, r: u64, result: Option<V>) -> bool {
        Self::rq_post_spec(pre, post, l, r, result)
    }

    fn range_query(&mut self, l: u64, r: u64) -> (result: Option<V>) {
        self.range_query(l, r)
    }
}

} // verus!
