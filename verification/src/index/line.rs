//! A dense line with a built-in binary skip structure.
//!
//! Positions live at `offset + index`; `data` keeps the latest value written
//! at each position, while `aggregate` folds each write into a chain of
//! cells picked by the timestamp's trailing-zero steps, so that suffix
//! aggregates can be read in logarithmically many probes.

use crate::aggregate::Aggregate;
use crate::data::lemma_vals_in_split;
use crate::data::vals_in;
use crate::traits::fold_m;
use crate::traits::lemma_fold_m_concat;
use crate::traits::lemma_fold_m_push;
use crate::traits::Monoid;
use crate::traits::Semigroup;
use vstd::prelude::*;
use vstd::std_specs::bits::u64_trailing_zeros;

verus! {

broadcast use vstd::std_specs::bits::group_bits_axioms;

/// A sequence of optional values, grown with absent entries to length `n`
/// when shorter.
pub open spec fn pad_to<M>(s: Seq<Option<M>>, n: int) -> Seq<Option<M>> {
    if s.len() >= n {
        s
    } else {
        s + Seq::new((n - s.len()) as nat, |_i: int| None)
    }
}

/// The timestamps whose aggregate cells one write touches: from the written
/// timestamp, repeatedly subtract the lowest set bit while the result stays
/// at or above `offset`.
pub open spec fn agg_chain(t: u64, offset: u64, fuel: nat) -> Seq<u64>
    decreases fuel,
{
    if t == 0 || fuel == 0 {
        seq![t]
    } else {
        let step = 1u64 << (u64_trailing_zeros(t) as u64);
        if t >= step + offset {
            seq![t] + agg_chain((t - step) as u64, offset, (fuel - 1) as nat)
        } else {
            seq![t]
        }
    }
}

/// Fold `m` into each chained cell in turn (an absent cell starts at `m`).
pub open spec fn apply_chain<V: Semigroup>(
    s: Seq<Option<<V as Semigroup>::M>>,
    chain: Seq<u64>,
    offset: u64,
    m: <V as Semigroup>::M,
) -> Seq<Option<<V as Semigroup>::M>>
    decreases chain.len(),
{
    if chain.len() == 0 {
        s
    } else {
        let idx = (chain[0] - offset) as int;
        let cell = match s[idx] {
            Some(o) => Some(<V as Semigroup>::combine_model(o, m)),
            None => Some(m),
        };
        apply_chain::<V>(s.update(idx, cell), chain.drop_first(), offset, m)
    }
}

/// The timestamps one aggregate read visits: from the queried timestamp,
/// repeatedly add the lowest set bit while the result stays at or below
/// `cur`.
pub open spec fn up_chain(t: u64, cur: u64, fuel: nat) -> Seq<u64>
    decreases fuel,
{
    if t == 0 || fuel == 0 {
        seq![t]
    } else {
        let step = 1u64 << (u64_trailing_zeros(t) as u64);
        if t + step <= cur {
            seq![t] + up_chain((t + step) as u64, cur, (fuel - 1) as nat)
        } else {
            seq![t]
        }
    }
}

/// Fold the present values of the chained cells onto `acc`, left to right.
pub open spec fn fold_chain<V: Semigroup>(
    s: Seq<Option<<V as Semigroup>::M>>,
    chain: Seq<u64>,
    offset: u64,
    acc: <V as Semigroup>::M,
) -> <V as Semigroup>::M
    decreases chain.len(),
{
    if chain.len() == 0 {
        acc
    } else {
        let idx = (chain[0] - offset) as int;
        let acc2 = match s[idx] {
            Some(v) => <V as Semigroup>::combine_model(acc, v),
            None => acc,
        };
        fold_chain::<V>(s, chain.drop_first(), offset, acc2)
    }
}

/// Folding over a one-element chain updates that cell alone.
proof fn lemma_apply_chain_one<V: Semigroup>(
    s: Seq<Option<<V as Semigroup>::M>>,
    t: u64,
    offset: u64,
    m: <V as Semigroup>::M,
)
    ensures
        apply_chain::<V>(s, seq![t], offset, m) == s.update(
            (t - offset) as int,
            match s[(t - offset) as int] {
                Some(o) => Some(<V as Semigroup>::combine_model(o, m)),
                None => Some(m),
            },
        ),
{
    let chain = seq![t];
    assert(chain[0] == t);
    assert(chain.drop_first() =~= Seq::<u64>::empty());
    let s2 = s.update(
        (t - offset) as int,
        match s[(t - offset) as int] {
            Some(o) => Some(<V as Semigroup>::combine_model(o, m)),
            None => Some(m),
        },
    );
    assert(apply_chain::<V>(s2, Seq::<u64>::empty(), offset, m) == s2);
}

/// Folding over a chain beginning with `t` first updates `t`'s cell.
proof fn lemma_apply_chain_cons<V: Semigroup>(
    s: Seq<Option<<V as Semigroup>::M>>,
    t: u64,
    rest: Seq<u64>,
    offset: u64,
    m: <V as Semigroup>::M,
)
    ensures
        apply_chain::<V>(s, seq![t] + rest, offset, m) == apply_chain::<V>(
            s.update(
                (t - offset) as int,
                match s[(t - offset) as int] {
                    Some(o) => Some(<V as Semigroup>::combine_model(o, m)),
                    None => Some(m),
                },
            ),
            rest,
            offset,
            m,
        ),
{
    let chain = seq![t] + rest;
    assert(chain[0] == t);
    assert(chain.drop_first() =~= rest);
    assert(chain.len() == 1 + rest.len());
}

/// Reading a chain beginning with `t` first folds `t`'s cell.
proof fn lemma_fold_chain_cons<V: Semigroup>(
    s: Seq<Option<<V as Semigroup>::M>>,
    t: u64,
    rest: Seq<u64>,
    offset: u64,
    acc: <V as Semigroup>::M,
)
    ensures
        fold_chain::<V>(s, seq![t] + rest, offset, acc) == fold_chain::<V>(
            s,
            rest,
            offset,
            match s[(t - offset) as int] {
                Some(v) => <V as Semigroup>::combine_model(acc, v),
                None => acc,
            },
        ),
{
    let chain = seq![t] + rest;
    assert(chain[0] == t);
    assert(chain.drop_first() =~= rest);
    assert(chain.len() == 1 + rest.len());
}

/// The lowest set bit of a non-zero value is at least one and at most the
/// value.
proof fn lemma_lowbit(t: u64)
    requires
        t >= 1,
    ensures
        1 <= (1u64 << (u64_trailing_zeros(t) as u64)) <= t,
{
    let z = u64_trailing_zeros(t) as u64;
    assert(z < 64 && (t >> z) & 1u64 == 1u64);
    assert(z < 64 && (t >> z) & 1u64 == 1u64 ==> 1 <= (1u64 << z) <= t) by (bit_vector);
}

/// The width of the aggregate cell anchored at position `p`.
pub open spec fn cell_width(p: u64) -> u64 {
    1u64 << (u64_trailing_zeros(p) as u64)
}

/// Whether the aggregate cell anchored at `p` covers timestamp `q`: the cell
/// at `p` spans `[p, p + cell_width(p))`, and the cell at zero spans
/// everything.
pub open spec fn cell_covers(p: u64, q: u64) -> bool {
    p <= q && (p == 0 || q - p < cell_width(p))
}

/// The appended values that the cell at `p` covers, in append order.
pub open spec fn covered_vals<V: Semigroup>(h: Seq<(u64, <V as Semigroup>::M)>, p: u64) -> Seq<
    <V as Semigroup>::M,
>
    decreases h.len(),
{
    if h.len() == 0 {
        Seq::empty()
    } else {
        let prefix = covered_vals::<V>(h.drop_last(), p);
        if cell_covers(p, h.last().0) {
            prefix.push(h.last().1)
        } else {
            prefix
        }
    }
}

/// A store of aggregate cells tracks an append history: every cell in the
/// window holds the fold of the appends it covers, and is absent exactly
/// when none fell in it.
pub open spec fn tracks<V: Semigroup>(
    agg: Seq<Option<<V as Semigroup>::M>>,
    offset: u64,
    h: Seq<(u64, <V as Semigroup>::M)>,
) -> bool {
    forall|p: u64|
        offset <= p && p - offset < agg.len() ==> #[trigger] agg[(p - offset) as int] == (
        if covered_vals::<V>(h, p).len() == 0 {
            None
        } else {
            Some(fold_m::<V>(covered_vals::<V>(h, p)))
        })
}

/// Clearing a timestamp's lowest set bit preserves which other cells cover
/// it: the descending chain from `t` passes through exactly the anchors of
/// the cells that cover `t`.
proof fn lemma_cover_step(p: u64, t: u64)
    requires
        1 <= t,
        p != t,
    ensures
        cell_covers(p, t) <==> cell_covers(
            p,
            (t - (1u64 << (u64_trailing_zeros(t) as u64))) as u64,
        ),
{
    let zt = u64_trailing_zeros(t) as u64;
    assert(zt < 64 && (t >> zt) & 1u64 == 1u64);
    assert(t << ((64u64 - zt) as u64) == 0);
    assert(zt < 64 && (t >> zt) & 1u64 == 1u64 ==> (1u64 << zt) <= t) by (bit_vector);
    if p == 0 {
    } else {
        let zp = u64_trailing_zeros(p) as u64;
        assert(zp < 64 && (p >> zp) & 1u64 == 1u64);
        assert(p << ((64u64 - zp) as u64) == 0);
        assert((1 <= t && p >= 1 && p != t && zt < 64 && (t >> zt) & 1u64 == 1u64 && t << ((64u64
            - zt) as u64) == 0 && zp < 64 && (p >> zp) & 1u64 == 1u64 && p << ((64u64 - zp) as u64)
            == 0) ==> ((p <= t && t - p < (1u64 << zp)) <==> (p <= (t - (1u64 << zt)) as u64 && ((t
            - (1u64 << zt)) as u64) - p < (1u64 << zp)))) by (bit_vector);
    }
}

/// Appending one entry extends exactly the covers of its timestamp.
proof fn lemma_covered_vals_push<V: Semigroup>(
    h: Seq<(u64, <V as Semigroup>::M)>,
    e: (u64, <V as Semigroup>::M),
)
    ensures
        forall|p: u64|
            #[trigger] covered_vals::<V>(h.push(e), p) == (if cell_covers(p, e.0) {
                covered_vals::<V>(h, p).push(e.1)
            } else {
                covered_vals::<V>(h, p)
            }),
{
    assert(h.push(e).drop_last() =~= h);
    assert(h.push(e).last() == e);
    assert(h.push(e).len() == h.len() + 1);
}

/// A cell covers some append exactly when some entry falls in it.
proof fn lemma_covered_iff<V: Semigroup>(h: Seq<(u64, <V as Semigroup>::M)>, p: u64)
    ensures
        covered_vals::<V>(h, p).len() > 0 <==> exists|j: int|
            0 <= j < h.len() && cell_covers(p, (#[trigger] h[j]).0),
    decreases h.len(),
{
    if h.len() > 0 {
        let h0 = h.drop_last();
        lemma_covered_iff::<V>(h0, p);
        let e = h.last();
        assert(e == h[h.len() - 1]);
        assert(forall|j: int| 0 <= j < h0.len() ==> #[trigger] h0[j] == h[j]);
        if cell_covers(p, e.0) {
            assert(cell_covers(p, (h[h.len() - 1]).0));
        } else {
            if covered_vals::<V>(h0, p).len() > 0 {
                let j = choose|j: int| 0 <= j < h0.len() && cell_covers(p, (#[trigger] h0[j]).0);
                assert(cell_covers(p, (h[j]).0));
            }
            if exists|j: int| 0 <= j < h.len() && cell_covers(p, (#[trigger] h[j]).0) {
                let j = choose|j: int| 0 <= j < h.len() && cell_covers(p, (#[trigger] h[j]).0);
                assert(j != h.len() - 1);
                assert(cell_covers(p, (h0[j]).0));
            }
        }
    }
}

/// When a cell's cover agrees with a plain interval on every entry, the
/// covered values are the interval's values.
pub proof fn lemma_covered_eq_vals<V: Semigroup>(h: Seq<(u64, <V as Semigroup>::M)>, p: u64, hi: u64)
    requires
        forall|j: int|
            0 <= j < h.len() ==> (cell_covers(p, (#[trigger] h[j]).0) <==> (p <= h[j].0
                && h[j].0 < hi)),
    ensures
        covered_vals::<V>(h, p) == vals_in::<V>(h, p, hi),
    decreases h.len(),
{
    if h.len() > 0 {
        let h0 = h.drop_last();
        assert(h.last() == h[h.len() - 1]);
        assert(forall|j: int| 0 <= j < h0.len() ==> #[trigger] h0[j] == h[j]);
        lemma_covered_eq_vals::<V>(h0, p, hi);
    }
}

/// What the descending update chain does to every cell in the window: the
/// cells whose anchors cover `t` fold `m` in; the rest are untouched.
proof fn lemma_chain_apply<V: Semigroup>(
    s: Seq<Option<<V as Semigroup>::M>>,
    t: u64,
    offset: u64,
    fuel: nat,
    m: <V as Semigroup>::M,
)
    requires
        offset <= t,
        t - offset < s.len(),
        fuel >= 1 + t - offset,
    ensures
        forall|p: u64|
            offset <= p && p - offset < s.len() ==> #[trigger] apply_chain::<V>(
                s,
                agg_chain(t, offset, fuel),
                offset,
                m,
            )[(p - offset) as int] == (if cell_covers(p, t) {
                match s[(p - offset) as int] {
                    Some(o) => Some(<V as Semigroup>::combine_model(o, m)),
                    None => Some(m),
                }
            } else {
                s[(p - offset) as int]
            }),
    decreases t,
{
    let chain = agg_chain(t, offset, fuel);
    let cell = match s[(t - offset) as int] {
        Some(o) => Some(<V as Semigroup>::combine_model(o, m)),
        None => Some(m),
    };
    let s2 = s.update((t - offset) as int, cell);
    if t == 0 {
        assert(chain == seq![t]);
        lemma_apply_chain_one::<V>(s, t, offset, m);
        assert forall|p: u64|
            offset <= p && p - offset < s.len() implies #[trigger] apply_chain::<V>(
            s,
            chain,
            offset,
            m,
        )[(p - offset) as int] == (if cell_covers(p, t) {
            match s[(p - offset) as int] {
                Some(o) => Some(<V as Semigroup>::combine_model(o, m)),
                None => Some(m),
            }
        } else {
            s[(p - offset) as int]
        }) by {
            if p != t {
                assert(!cell_covers(p, t));
            }
        }
    } else {
        lemma_lowbit(t);
        let step = 1u64 << (u64_trailing_zeros(t) as u64);
        if t >= step + offset {
            let t2 = (t - step) as u64;
            let rest = agg_chain(t2, offset, (fuel - 1) as nat);
            assert(chain == seq![t] + rest);
            lemma_apply_chain_cons::<V>(s, t, rest, offset, m);
            lemma_chain_apply::<V>(s2, t2, offset, (fuel - 1) as nat, m);
            assert forall|p: u64|
                offset <= p && p - offset < s.len() implies #[trigger] apply_chain::<V>(
                s,
                chain,
                offset,
                m,
            )[(p - offset) as int] == (if cell_covers(p, t) {
                match s[(p - offset) as int] {
                    Some(o) => Some(<V as Semigroup>::combine_model(o, m)),
                    None => Some(m),
                }
            } else {
                s[(p - offset) as int]
            }) by {
                assert(apply_chain::<V>(s2, rest, offset, m)[(p - offset) as int] == (
                if cell_covers(p, t2) {
                    match s2[(p - offset) as int] {
                        Some(o) => Some(<V as Semigroup>::combine_model(o, m)),
                        None => Some(m),
                    }
                } else {
                    s2[(p - offset) as int]
                }));
                if p == t {
                    assert(!cell_covers(p, t2));
                    assert(cell_covers(p, t));
                } else {
                    lemma_cover_step(p, t);
                    assert(s2[(p - offset) as int] == s[(p - offset) as int]);
                }
            }
        } else {
            assert(chain == seq![t]);
            lemma_apply_chain_one::<V>(s, t, offset, m);
            assert forall|p: u64|
                offset <= p && p - offset < s.len() implies #[trigger] apply_chain::<V>(
                s,
                chain,
                offset,
                m,
            )[(p - offset) as int] == (if cell_covers(p, t) {
                match s[(p - offset) as int] {
                    Some(o) => Some(<V as Semigroup>::combine_model(o, m)),
                    None => Some(m),
                }
            } else {
                s[(p - offset) as int]
            }) by {
                if p != t && cell_covers(p, t) {
                    lemma_cover_step(p, t);
                    assert(cell_covers(p, (t - step) as u64));
                    assert(false);
                }
            }
        }
    }
}

/// The descending chain stays between the window start and its head.
proof fn lemma_agg_chain_elems(t: u64, offset: u64, fuel: nat)
    requires
        offset <= t,
    ensures
        forall|k: int|
            0 <= k < agg_chain(t, offset, fuel).len() ==> offset <= #[trigger] agg_chain(
                t,
                offset,
                fuel,
            )[k] <= t,
    decreases fuel,
{
    let chain = agg_chain(t, offset, fuel);
    if t == 0 || fuel == 0 {
        assert(chain == seq![t]);
    } else {
        lemma_lowbit(t);
        let step = 1u64 << (u64_trailing_zeros(t) as u64);
        if t >= step + offset {
            let rest = agg_chain((t - step) as u64, offset, (fuel - 1) as nat);
            assert(chain == seq![t] + rest);
            lemma_agg_chain_elems((t - step) as u64, offset, (fuel - 1) as nat);
            assert forall|k: int| 0 <= k < chain.len() implies offset <= #[trigger] chain[k]
                <= t by {
                if k >= 1 {
                    assert(chain[k] == rest[k - 1]);
                }
            }
        } else {
            assert(chain == seq![t]);
        }
    }
}

/// Folding along an in-window chain never changes how many cells there are.
proof fn lemma_apply_chain_len<V: Semigroup>(
    s: Seq<Option<<V as Semigroup>::M>>,
    chain: Seq<u64>,
    offset: u64,
    m: <V as Semigroup>::M,
)
    requires
        forall|k: int|
            0 <= k < chain.len() ==> offset <= #[trigger] chain[k] && chain[k] - offset < s.len(),
    ensures
        apply_chain::<V>(s, chain, offset, m).len() == s.len(),
    decreases chain.len(),
{
    if chain.len() > 0 {
        let idx = (chain[0] - offset) as int;
        let cell = match s[idx] {
            Some(o) => Some(<V as Semigroup>::combine_model(o, m)),
            None => Some(m),
        };
        let s2 = s.update(idx, cell);
        assert forall|k: int|
            0 <= k < chain.drop_first().len() implies offset <= #[trigger] chain.drop_first()[k]
            && chain.drop_first()[k] - offset < s2.len() by {
            assert(chain.drop_first()[k] == chain[k + 1]);
        }
        lemma_apply_chain_len::<V>(s2, chain.drop_first(), offset, m);
    }
}

/// Law: an append keeps the aggregate cells tracking the history.  The
/// store that `append` produces tracks the history extended by the new
/// entry, provided timestamps never decreased and every windowed entry sat
/// inside the old store.
pub proof fn lemma_append_tracks<V: Semigroup>(
    old_agg: Seq<Option<<V as Semigroup>::M>>,
    offset: u64,
    h: Seq<(u64, <V as Semigroup>::M)>,
    t: u64,
    m: <V as Semigroup>::M,
)
    requires
        tracks::<V>(old_agg, offset, h),
        offset <= t < 0x8000_0000_0000_0000u64,
        forall|j: int| 0 <= j < h.len() ==> (#[trigger] h[j]).0 <= t,
        forall|j: int|
            0 <= j < h.len() ==> ((#[trigger] h[j]).0 >= offset ==> h[j].0 - offset
                < old_agg.len()),
    ensures
        tracks::<V>(
            apply_chain::<V>(
                pad_to(old_agg, t - offset + 1),
                agg_chain(t, offset, (t + 1) as nat),
                offset,
                m,
            ),
            offset,
            h.push((t, m)),
        ),
{
    let padded = pad_to(old_agg, t - offset + 1);
    let result = apply_chain::<V>(padded, agg_chain(t, offset, (t + 1) as nat), offset, m);
    lemma_covered_vals_push::<V>(h, (t, m));
    lemma_chain_apply::<V>(padded, t, offset, (t + 1) as nat, m);
    lemma_agg_chain_elems(t, offset, (t + 1) as nat);
    lemma_apply_chain_len::<V>(padded, agg_chain(t, offset, (t + 1) as nat), offset, m);
    assert(result.len() == padded.len());
    assert forall|p: u64|
        offset <= p && p - offset < result.len() implies #[trigger] result[(p - offset) as int]
        == (if covered_vals::<V>(h.push((t, m)), p).len() == 0 {
        None
    } else {
        Some(fold_m::<V>(covered_vals::<V>(h.push((t, m)), p)))
    }) by {
        let old_covered = covered_vals::<V>(h, p);
        if p - offset >= old_agg.len() {
            lemma_covered_iff::<V>(h, p);
            if old_covered.len() > 0 {
                let j = choose|j: int| 0 <= j < h.len() && cell_covers(p, (#[trigger] h[j]).0);
                assert(h[j].0 >= p >= offset);
                assert(false);
            }
            assert(padded[(p - offset) as int] is None);
        } else {
            assert(padded[(p - offset) as int] == old_agg[(p - offset) as int]);
        }
        if cell_covers(p, t) {
            if old_covered.len() == 0 {
                assert(covered_vals::<V>(h.push((t, m)), p) =~= seq![m]);
            } else {
                lemma_fold_m_push::<V>(old_covered, m);
            }
        }
    }
}

/// Law: dropping the first position keeps the remaining cells tracking the
/// history, against the advanced window start.
pub proof fn lemma_pop_tracks<V: Semigroup>(
    agg: Seq<Option<<V as Semigroup>::M>>,
    offset: u64,
    h: Seq<(u64, <V as Semigroup>::M)>,
)
    requires
        tracks::<V>(agg, offset, h),
        agg.len() >= 1,
        offset < u64::MAX,
    ensures
        tracks::<V>(agg.drop_first(), (offset + 1) as u64, h),
{
    assert forall|p: u64|
        offset + 1 <= p && p - (offset + 1) < agg.drop_first().len() implies #[trigger] agg.drop_first()[(p
        - (offset + 1)) as int] == (if covered_vals::<V>(h, p).len() == 0 {
        None
    } else {
        Some(fold_m::<V>(covered_vals::<V>(h, p)))
    }) by {
        assert(agg.drop_first()[(p - (offset + 1)) as int] == agg[(p - offset) as int]);
    }
}

/// Law: a store of absent cells tracks the empty history.
pub proof fn lemma_new_tracks<V: Semigroup>(agg: Seq<Option<<V as Semigroup>::M>>, offset: u64)
    requires
        forall|i: int| 0 <= i < agg.len() ==> (#[trigger] agg[i]) is None,
    ensures
        tracks::<V>(agg, offset, Seq::empty()),
{
}

/// Folding the ascending chain of cells from `t` onto `acc` folds in
/// exactly the appends with timestamps in `[t, cur]`, in order.
proof fn lemma_fold_chain_covers<V: Semigroup>(
    s: Seq<Option<<V as Semigroup>::M>>,
    offset: u64,
    cur: u64,
    h: Seq<(u64, <V as Semigroup>::M)>,
    t: u64,
    acc: <V as Semigroup>::M,
    fuel: nat,
)
    requires
        tracks::<V>(s, offset, h),
        forall|a: int, b: int|
            #![trigger h[a], h[b]]
            0 <= a <= b < h.len() ==> h[a].0 <= h[b].0,
        forall|j: int| 0 <= j < h.len() ==> (#[trigger] h[j]).0 <= cur,
        1 <= t,
        offset <= t <= cur,
        cur < 0x8000_0000_0000_0000u64,
        cur - offset < s.len(),
        fuel >= 1 + cur - t,
    ensures
        fold_chain::<V>(s, up_chain(t, cur, fuel), offset, acc) == (if vals_in::<V>(
            h,
            t,
            (cur + 1) as u64,
        ).len() == 0 {
            acc
        } else {
            <V as Semigroup>::combine_model(
                acc,
                fold_m::<V>(vals_in::<V>(h, t, (cur + 1) as u64)),
            )
        }),
    decreases cur - t,
{
    lemma_lowbit(t);
    let step = 1u64 << (u64_trailing_zeros(t) as u64);
    let chain = up_chain(t, cur, fuel);
    let cell = s[(t - offset) as int];
    let acc1 = match cell {
        Some(v) => <V as Semigroup>::combine_model(acc, v),
        None => acc,
    };
    if t + step > cur {
        assert(chain == seq![t]);
        assert(chain =~= seq![t] + Seq::<u64>::empty());
        lemma_fold_chain_cons::<V>(s, t, Seq::empty(), offset, acc);
        assert(fold_chain::<V>(s, chain, offset, acc) == acc1);
        assert forall|j: int|
            0 <= j < h.len() implies (cell_covers(t, (#[trigger] h[j]).0) <==> (t <= h[j].0
            && h[j].0 < (cur + 1) as u64)) by {
            assert(h[j].0 <= cur);
        }
        lemma_covered_eq_vals::<V>(h, t, (cur + 1) as u64);
    } else {
        let next = (t + step) as u64;
        let rest = up_chain(next, cur, (fuel - 1) as nat);
        assert(chain == seq![t] + rest);
        lemma_fold_chain_cons::<V>(s, t, rest, offset, acc);
        assert(fold_chain::<V>(s, chain, offset, acc) == fold_chain::<V>(s, rest, offset, acc1));
        lemma_fold_chain_covers::<V>(s, offset, cur, h, next, acc1, (fuel - 1) as nat);
        assert forall|j: int|
            0 <= j < h.len() implies (cell_covers(t, (#[trigger] h[j]).0) <==> (t <= h[j].0
            && h[j].0 < next)) by {}
        lemma_covered_eq_vals::<V>(h, t, next);
        lemma_vals_in_split::<V>(h, t, next, (cur + 1) as u64);
        let part_a = vals_in::<V>(h, t, next);
        let part_b = vals_in::<V>(h, next, (cur + 1) as u64);
        assert(vals_in::<V>(h, t, (cur + 1) as u64) == part_a + part_b);
        if part_a.len() == 0 {
            assert(cell is None);
            assert(acc1 == acc);
            if part_b.len() > 0 {
                assert(part_a + part_b =~= part_b);
            } else {
                assert((part_a + part_b).len() == 0);
            }
        } else {
            assert(cell == Some(fold_m::<V>(part_a)));
            if part_b.len() == 0 {
                assert(part_a + part_b =~= part_a);
            } else {
                V::lemma_combine_assoc(acc, fold_m::<V>(part_a), fold_m::<V>(part_b));
                lemma_fold_m_concat::<V>(part_a, part_b);
            }
        }
    }
}

/// A dense line: latest values plus chained aggregates, over a sliding
/// window that starts at `offset`.
pub struct Line<V> {
    data: Vec<Option<V>>,
    aggregate: Vec<Option<V>>,
    offset: u64,
    current_timestamp: u64,
}

impl<V: Semigroup> Line<V> {
    /// The latest-value store, as models.
    pub closed spec fn data_view(&self) -> Seq<Option<<V as Semigroup>::M>> {
        self.data@.map_values(
            |o: Option<V>|
                match o {
                    Some(v) => Some(v.model()),
                    None => None,
                },
        )
    }

    /// The aggregate cells, as models.
    pub closed spec fn agg_view(&self) -> Seq<Option<<V as Semigroup>::M>> {
        self.aggregate@.map_values(
            |o: Option<V>|
                match o {
                    Some(v) => Some(v.model()),
                    None => None,
                },
        )
    }

    /// The first represented position.
    pub closed spec fn offset_spec(&self) -> u64 {
        self.offset
    }

    /// The highest timestamp written so far (or the construction value).
    pub closed spec fn current_spec(&self) -> u64 {
        self.current_timestamp
    }

    /// Both stores cover the same window, the bounds stay below `1 << 63`,
    /// and the store reaches the current timestamp once one is written.
    pub closed spec fn wf(&self) -> bool {
        &&& self.data@.len() == self.aggregate@.len()
        &&& self.offset + self.data@.len() <= u64::MAX
        &&& self.current_timestamp < 0x8000_0000_0000_0000u64
        &&& (self.current_timestamp > self.offset ==> self.current_timestamp - self.offset
            < self.data@.len())
    }

    /// Build a line of `length` empty positions starting at `offset`.
    pub fn new(length: usize, offset: u64, current_timestamp: u64) -> (r: Line<V>)
        requires
            offset + length <= u64::MAX,
            current_timestamp < 0x8000_0000_0000_0000u64,
            current_timestamp <= offset || current_timestamp - offset < length,
        ensures
            r.wf(),
            r.offset_spec() == offset,
            r.current_spec() == current_timestamp,
            r.data_view() == Seq::new(length as nat, |_i: int| None::<<V as Semigroup>::M>),
            r.agg_view() == Seq::new(length as nat, |_i: int| None::<<V as Semigroup>::M>),
    {
        let mut data: Vec<Option<V>> = Vec::new();
        let mut aggregate: Vec<Option<V>> = Vec::new();
        let mut i: usize = 0;
        while i < length
            invariant
                i <= length,
                data@.len() == i,
                aggregate@.len() == i,
                forall|j: int| 0 <= j < i ==> data@[j] is None,
                forall|j: int| 0 <= j < i ==> aggregate@[j] is None,
            decreases length - i,
        {
            data.push(None);
            aggregate.push(None);
            i += 1;
        }
        let r = Line { data, aggregate, offset, current_timestamp };
        proof {
            assert(r.data_view() =~= Seq::new(length as nat, |_i: int| None::<
                <V as Semigroup>::M,
            >));
            assert(r.agg_view() =~= Seq::new(length as nat, |_i: int| None::<
                <V as Semigroup>::M,
            >));
        }
        r
    }

    /// Remove the first position, advancing the window, and return its
    /// stored value; absent on an empty line.
    pub fn pop_front(&mut self) -> (r: Option<V>)
        requires
            old(self).wf(),
        ensures
            final(self).wf(),
            final(self).current_spec() == old(self).current_spec(),
            old(self).data_view().len() == 0 ==> *final(self) == *old(self) && r is None,
            old(self).data_view().len() > 0 ==> ({
                &&& final(self).offset_spec() == old(self).offset_spec() + 1
                &&& final(self).data_view() == old(self).data_view().drop_first()
                &&& final(self).agg_view() == old(self).agg_view().drop_first()
                &&& ((r is Some) == (old(self).data_view()[0] is Some))
                &&& (r matches Some(v) ==> old(self).data_view()[0] == Some(v.model()))
            }),
    {
        if self.data.len() == 0 {
            return None;
        }
        let ret = self.data.remove(0);
        self.offset = self.offset + 1;
        self.aggregate.remove(0);
        proof {
            assert(self.data_view() =~= old(self).data_view().drop_first());
            assert(self.agg_view() =~= old(self).agg_view().drop_first());
        }
        ret
    }

    /// Record `value` at `timestamp`: pad the stores out to the position,
    /// replace the latest value there, and fold the value into every
    /// aggregate cell on the timestamp's descending chain.  Timestamps must
    /// not go backwards (the reference implementation aborts on that).
    pub fn append(&mut self, timestamp: u64, value: V)
        requires
            old(self).wf(),
            old(self).offset_spec() <= timestamp,
            old(self).current_spec() <= timestamp,
            timestamp < 0x8000_0000_0000_0000u64,
        ensures
            final(self).wf(),
            final(self).offset_spec() == old(self).offset_spec(),
            final(self).current_spec() == timestamp,
            final(self).data_view() == pad_to(
                old(self).data_view(),
                timestamp - old(self).offset_spec() + 1,
            ).update((timestamp - old(self).offset_spec()) as int, Some(value.model())),
            final(self).agg_view() == apply_chain::<V>(
                pad_to(old(self).agg_view(), timestamp - old(self).offset_spec() + 1),
                agg_chain(timestamp, old(self).offset_spec(), (timestamp + 1) as nat),
                old(self).offset_spec(),
                value.model(),
            ),
    {
        let ghost m = value.model();
        let ghost off = self.offset;
        let target: u64 = timestamp - self.offset;
        while (self.data.len() as u64) <= target
            invariant
                old(self).wf(),
                self.offset == off,
                self.current_timestamp == old(self).current_timestamp,
                self.data@.len() == self.aggregate@.len(),
                self.data_view().len() >= old(self).data_view().len(),
                forall|j: int|
                    0 <= j < old(self).data_view().len() ==> self.data_view()[j] == old(
                        self,
                    ).data_view()[j],
                forall|j: int|
                    old(self).data_view().len() <= j < self.data_view().len()
                        ==> self.data_view()[j] is None,
                forall|j: int|
                    0 <= j < old(self).agg_view().len() ==> self.agg_view()[j] == old(
                        self,
                    ).agg_view()[j],
                forall|j: int|
                    old(self).agg_view().len() <= j < self.agg_view().len()
                        ==> self.agg_view()[j] is None,
                self.data_view().len() > old(self).data_view().len() ==> self.data_view().len()
                    <= target + 1,
            decreases target + 1 - self.data@.len(),
        {
            let ghost pre_dv = self.data_view();
            let ghost pre_av = self.agg_view();
            self.data.push(None);
            self.aggregate.push(None);
            proof {
                assert(self.data_view() =~= pre_dv.push(None::<<V as Semigroup>::M>));
                assert(self.agg_view() =~= pre_av.push(None::<<V as Semigroup>::M>));
                assert forall|j: int|
                    0 <= j < old(self).agg_view().len() implies self.agg_view()[j] == old(
                    self,
                ).agg_view()[j] by {
                    assert(self.agg_view()[j] == pre_av[j]);
                }
                assert forall|j: int|
                    old(self).agg_view().len() <= j < self.agg_view().len() implies self.agg_view()[j]
                    is None by {
                    if j < pre_av.len() {
                        assert(self.agg_view()[j] == pre_av[j]);
                    }
                }
            }
        }
        proof {
            assert(self.data_view() =~= pad_to(old(self).data_view(), target + 1));
            assert(self.agg_view() =~= pad_to(old(self).agg_view(), target + 1));
        }
        let ghost padded_data = self.data_view();
        let ghost padded_agg = self.agg_view();
        self.current_timestamp = timestamp;
        let ti = target as usize;
        let dv = value.dup();
        let dslot = &mut self.data[ti];
        *dslot = Some(dv);
        proof {
            assert(self.data_view() =~= padded_data.update(ti as int, Some(m)));
        }
        let ghost target_agg = apply_chain::<V>(
            padded_agg,
            agg_chain(timestamp, off, (timestamp + 1) as nat),
            off,
            m,
        );
        let mut current_index: u64 = target;
        let mut updating: u64 = timestamp;
        let mut done: bool = false;
        let ghost mut fuel: nat = (timestamp + 1) as nat;
        while !done
            invariant
                self.offset == off,
                off <= timestamp,
                self.current_timestamp == timestamp,
                timestamp < 0x8000_0000_0000_0000u64,
                self.data@.len() == self.aggregate@.len(),
                self.data_view() == padded_data.update(target as int, Some(m)),
                self.agg_view().len() == padded_agg.len(),
                padded_agg.len() > target,
                m == value.model(),
                target == timestamp - off,
                target_agg == apply_chain::<V>(
                    padded_agg,
                    agg_chain(timestamp, off, (timestamp + 1) as nat),
                    off,
                    m,
                ),
                !done ==> ({
                    &&& off <= updating <= timestamp
                    &&& current_index == updating - off
                    &&& fuel >= 1 + updating - off
                    &&& apply_chain::<V>(self.agg_view(), agg_chain(updating, off, fuel), off, m)
                        == target_agg
                }),
                done ==> self.agg_view() == target_agg,
            decreases updating, (if done { 0int } else { 1int }),
        {
            let ci = current_index as usize;
            let ghost pre_agg = self.agg_view();
            let aslot = &mut self.aggregate[ci];
            let prev = aslot.take();
            let newv = match prev {
                Some(o) => o.combine(value.dup()),
                None => value.dup(),
            };
            *aslot = Some(newv);
            proof {
                assert(self.agg_view() =~= pre_agg.update(
                    ci as int,
                    match pre_agg[ci as int] {
                        Some(o) => Some(<V as Semigroup>::combine_model(o, m)),
                        None => Some(m),
                    },
                ));
            }
            if updating == 0 {
                done = true;
                proof {
                    let chain = agg_chain(updating, off, fuel);
                    assert(chain == seq![updating]);
                    lemma_apply_chain_one::<V>(pre_agg, updating, off, m);
                    assert(apply_chain::<V>(pre_agg, chain, off, m) == self.agg_view());
                }
            } else {
                let sh = updating.trailing_zeros() as u64;
                let step = 1u64 << sh;
                proof {
                    lemma_lowbit(updating);
                }
                if updating < step + self.offset {
                    done = true;
                    proof {
                        let chain = agg_chain(updating, off, fuel);
                        assert(chain == seq![updating]);
                        vstd::std_specs::vec::axiom_spec_len(&self.aggregate);
                        assert(current_index < self.aggregate@.len());
                        assert(ci as int == (updating - off) as int);
                        lemma_apply_chain_one::<V>(pre_agg, updating, off, m);
                        assert(apply_chain::<V>(pre_agg, chain, off, m) == self.agg_view());
                    }
                } else {
                    proof {
                        assert(fuel > 0);
                        let chain = agg_chain(updating, off, fuel);
                        let rest = agg_chain((updating - step) as u64, off, (fuel - 1) as nat);
                        assert(chain == seq![updating] + rest);
                        vstd::std_specs::vec::axiom_spec_len(&self.aggregate);
                        assert(current_index < self.aggregate@.len());
                        assert(ci as int == (updating - off) as int);
                        lemma_apply_chain_cons::<V>(pre_agg, updating, rest, off, m);
                        assert(apply_chain::<V>(pre_agg, chain, off, m) == apply_chain::<V>(
                            self.agg_view(),
                            rest,
                            off,
                            m,
                        ));
                        fuel = (fuel - 1) as nat;
                    }
                    updating = updating - step;
                    current_index = updating - self.offset;
                }
            }
        }
    }

    /// The stored value at `timestamp`, which must lie inside the window.
    pub fn query_value(&self, timestamp: u64) -> (r: &Option<V>)
        requires
            self.offset_spec() <= timestamp,
            timestamp - self.offset_spec() < self.data_view().len(),
        ensures
            ((*r) is Some) == (self.data_view()[(timestamp - self.offset_spec()) as int] is Some),
            (*r) matches Some(v) ==> self.data_view()[(timestamp - self.offset_spec()) as int]
                == Some(v.model()),
    {
        let index = timestamp - self.offset;
        let r = &self.data[index as usize];
        proof {
            vstd::std_specs::vec::axiom_spec_len(&self.data);
            assert(index < self.data@.len());
            assert((index as usize) as int == index as int);
            assert(*r == self.data@[index as int]);
            assert(self.data_view()[index as int] == (match self.data@[index as int] {
                Some(v) => Some(v.model()),
                None => None::<<V as Semigroup>::M>,
            }));
        }
        r
    }

    /// The fold of the aggregate cells on the ascending chain from
    /// `timestamp` (which must hold a cell) up to the current timestamp.
    pub fn query_agg(&self, timestamp: u64) -> (r: V)
        requires
            self.wf(),
            1 <= timestamp,
            self.offset_spec() <= timestamp,
            timestamp - self.offset_spec() < self.agg_view().len(),
            self.agg_view()[(timestamp - self.offset_spec()) as int] is Some,
            timestamp <= self.current_spec(),
        ensures
            ({
                let chain = up_chain(
                    timestamp,
                    self.current_spec(),
                    (self.current_spec() + 1) as nat,
                );
                r.model() == fold_chain::<V>(
                    self.agg_view(),
                    chain.drop_first(),
                    self.offset_spec(),
                    self.agg_view()[(timestamp - self.offset_spec()) as int]->Some_0,
                )
            }),
    {
        let ghost off = self.offset;
        let ghost cur = self.current_timestamp;
        let ghost fuel0: nat = (self.current_spec() + 1) as nat;
        let mut aggregating_index: u64 = timestamp - self.offset;
        proof {
            vstd::std_specs::vec::axiom_spec_len(&self.aggregate);
            assert(aggregating_index < self.aggregate@.len());
            assert((aggregating_index as usize) as int == aggregating_index as int);
            assert(self.agg_view()[aggregating_index as int] == (
            match self.aggregate@[aggregating_index as int] {
                Some(v) => Some(v.model()),
                None => None::<<V as Semigroup>::M>,
            }));
        }
        let first = match &self.aggregate[aggregating_index as usize] {
            Some(v) => v.dup(),
            None => unreached(),
        };
        let ghost target = fold_chain::<V>(
            self.agg_view(),
            up_chain(timestamp, cur, fuel0).drop_first(),
            off,
            self.agg_view()[(timestamp - off) as int]->Some_0,
        );
        let mut result = first;
        let mut aggregating_timestamp: u64 = timestamp;
        let mut done: bool = false;
        let ghost mut fuel: nat = fuel0;
        while !done
            invariant
                self.wf(),
                off == self.offset_spec(),
                cur == self.current_spec(),
                !done ==> ({
                    &&& 1 <= aggregating_timestamp <= cur
                    &&& off <= aggregating_timestamp
                    &&& aggregating_index == aggregating_timestamp - off
                    &&& fuel >= 1 + cur - aggregating_timestamp
                    &&& fold_chain::<V>(
                        self.agg_view(),
                        up_chain(aggregating_timestamp, cur, fuel).drop_first(),
                        off,
                        result.model(),
                    ) == target
                }),
                done ==> result.model() == target,
            decreases 1 + cur - aggregating_timestamp, (if done { 0int } else { 1int }),
        {
            let sh = aggregating_timestamp.trailing_zeros() as u64;
            let step = 1u64 << sh;
            proof {
                lemma_lowbit(aggregating_timestamp);
            }
            if aggregating_timestamp + step > self.current_timestamp {
                done = true;
                proof {
                    let chain = up_chain(aggregating_timestamp, cur, fuel);
                    assert(chain == seq![aggregating_timestamp]);
                    assert(chain.drop_first() =~= Seq::<u64>::empty());
                    assert(fold_chain::<V>(self.agg_view(), chain.drop_first(), off, result.model())
                        == result.model());
                }
            } else {
                let ghost prev_t = aggregating_timestamp;
                proof {
                    assert(fuel > 0);
                    let chain = up_chain(prev_t, cur, fuel);
                    let rest = up_chain((prev_t + step) as u64, cur, (fuel - 1) as nat);
                    assert(chain == seq![prev_t] + rest);
                    assert(chain.drop_first() =~= rest);
                    fuel = (fuel - 1) as nat;
                }
                aggregating_timestamp = aggregating_timestamp + step;
                aggregating_index = aggregating_timestamp - self.offset;
                proof {
                    vstd::std_specs::vec::axiom_spec_len(&self.aggregate);
                    assert(aggregating_timestamp - off < self.aggregate@.len());
                    assert((aggregating_index as usize) as int == aggregating_index as int);
                }
                let taken = result;
                let ghost acc0 = taken.model();
                let agg = &self.aggregate[aggregating_index as usize];
                result = match agg {
                    Some(v) => taken.combine(v.dup()),
                    None => taken,
                };
                proof {
                    let rest = up_chain(aggregating_timestamp, cur, fuel);
                    assert(rest[0] == aggregating_timestamp);
                    assert(self.agg_view()[(aggregating_timestamp - off) as int] == (
                    match self.aggregate@[(aggregating_timestamp - off) as int] {
                        Some(v) => Some(v.model()),
                        None => None::<<V as Semigroup>::M>,
                    }));
                    lemma_fold_chain_cons::<V>(self.agg_view(), aggregating_timestamp, rest.drop_first(), off, acc0);
                    assert(seq![aggregating_timestamp] + rest.drop_first() =~= rest);
                }
            }
        }
        result
    }

    /// Law: against an append history that the aggregate cells track (with
    /// non-decreasing timestamps reaching at most the current one), an
    /// aggregate read at `timestamp` returns the fold, in order, of every
    /// value appended with a timestamp in `[timestamp, current]`.
    pub proof fn lemma_query_agg_law(&self, h: Seq<(u64, <V as Semigroup>::M)>, timestamp: u64)
        requires
            self.wf(),
            tracks::<V>(self.agg_view(), self.offset_spec(), h),
            forall|a: int, b: int|
                #![trigger h[a], h[b]]
                0 <= a <= b < h.len() ==> h[a].0 <= h[b].0,
            forall|j: int| 0 <= j < h.len() ==> (#[trigger] h[j]).0 <= self.current_spec(),
            1 <= timestamp,
            self.offset_spec() <= timestamp,
            timestamp - self.offset_spec() < self.agg_view().len(),
            self.agg_view()[(timestamp - self.offset_spec()) as int] is Some,
            timestamp <= self.current_spec(),
        ensures
            vals_in::<V>(h, timestamp, (self.current_spec() + 1) as u64).len() > 0,
            fold_chain::<V>(
                self.agg_view(),
                up_chain(
                    timestamp,
                    self.current_spec(),
                    (self.current_spec() + 1) as nat,
                ).drop_first(),
                self.offset_spec(),
                self.agg_view()[(timestamp - self.offset_spec()) as int]->Some_0,
            ) == fold_m::<V>(vals_in::<V>(h, timestamp, (self.current_spec() + 1) as u64)),
    {
        let s = self.agg_view();
        let off = self.offset_spec();
        let cur = self.current_spec();
        let t = timestamp;
        let fuel0 = (cur + 1) as nat;
        let c = s[(t - off) as int]->Some_0;
        lemma_lowbit(t);
        let step = 1u64 << (u64_trailing_zeros(t) as u64);
        let chain = up_chain(t, cur, fuel0);
        assert(covered_vals::<V>(h, t).len() > 0) by {
            if covered_vals::<V>(h, t).len() == 0 {
                assert(s[(t - off) as int] is None);
            }
        }
        if t + step > cur {
            assert(chain == seq![t]);
            assert(chain.drop_first() =~= Seq::<u64>::empty());
            assert(fold_chain::<V>(s, Seq::<u64>::empty(), off, c) == c);
            assert forall|j: int|
                0 <= j < h.len() implies (cell_covers(t, (#[trigger] h[j]).0) <==> (t <= h[j].0
                && h[j].0 < (cur + 1) as u64)) by {
                assert(h[j].0 <= cur);
            }
            lemma_covered_eq_vals::<V>(h, t, (cur + 1) as u64);
        } else {
            let next = (t + step) as u64;
            let rest = up_chain(next, cur, (fuel0 - 1) as nat);
            assert(chain == seq![t] + rest);
            assert(chain.drop_first() =~= rest);
            assert(cur > self.offset_spec() ==> cur - self.offset_spec()
                < self.agg_view().len());
            lemma_fold_chain_covers::<V>(s, off, cur, h, next, c, (fuel0 - 1) as nat);
            assert forall|j: int|
                0 <= j < h.len() implies (cell_covers(t, (#[trigger] h[j]).0) <==> (t <= h[j].0
                && h[j].0 < next)) by {}
            lemma_covered_eq_vals::<V>(h, t, next);
            lemma_vals_in_split::<V>(h, t, next, (cur + 1) as u64);
            let part_a = vals_in::<V>(h, t, next);
            let part_b = vals_in::<V>(h, next, (cur + 1) as u64);
            assert(c == fold_m::<V>(part_a));
            if part_b.len() == 0 {
                assert(part_a + part_b =~= part_a);
            } else {
                lemma_fold_m_concat::<V>(part_a, part_b);
            }
        }
    }
}

impl<V: Monoid> Aggregate<V> for Line<V> {
    open spec fn inv(&self) -> bool {
        self.wf()
    }

    open spec fn agg_map(&self) -> Map<u64, <V as Semigroup>::M> {
        Map::new(
            |q: u64|
                self.offset_spec() <= q && q - self.offset_spec() < self.agg_view().len()
                    && self.agg_view()[(q - self.offset_spec()) as int] is Some,
            |q: u64| self.agg_view()[(q - self.offset_spec()) as int]->Some_0,
        )
    }

    open spec fn in_bound(&self, timestamp: u64) -> bool {
        self.offset_spec() <= timestamp && timestamp - self.offset_spec()
            < self.agg_view().len()
    }

    fn identity(&self) -> (r: V) {
        V::identity()
    }

    fn check_bound(&self, timestamp: u64) -> (r: bool) {
        self.offset <= timestamp && (timestamp - self.offset) < (self.aggregate.len() as u64)
    }

    fn agg(&self, timestamp: u64) -> (r: Option<V>) {
        let index = timestamp - self.offset;
        proof {
            vstd::std_specs::vec::axiom_spec_len(&self.aggregate);
            assert((index as usize) as int == index as int);
            assert(self.agg_view()[index as int] == (match self.aggregate@[index as int] {
                Some(v) => Some(v.model()),
                None => None::<<V as Semigroup>::M>,
            }));
        }
        match &self.aggregate[index as usize] {
            Some(v) => Some(v.dup()),
            None => None,
        }
    }

    fn set_agg(&mut self, timestamp: u64, value: V) {
        let index = timestamp - self.offset;
        let ghost pre = *self;
        proof {
            vstd::std_specs::vec::axiom_spec_len(&self.aggregate);
            assert((index as usize) as int == index as int);
        }
        let slot = &mut self.aggregate[index as usize];
        *slot = Some(value);
        proof {
            assert(self.agg_view() =~= pre.agg_view().update(
                index as int,
                Some(value.model()),
            ));
            assert forall|q: u64| true implies #[trigger] self.in_bound(q) == pre.in_bound(
                q,
            ) by {}
            assert(self.agg_map() =~= pre.agg_map().insert(timestamp, value.model()));
        }
    }
}

} // verus!
