//! The capability interfaces of the index: the combiner contract on values,
//! and the push/query capabilities that the data structures expose.

use vstd::prelude::*;

verus! {

/// A value type equipped with an associative binary combiner.
///
/// Contracts speak of values through an abstract model (`M`): the model of a
/// combined value is the combined model.  The index never assumes an identity
/// element: queries over an empty interval return an absent result instead.
pub trait Semigroup: Sized {
    /// The mathematical model of a value.
    type M;

    /// The model of `self`.
    spec fn model(self) -> Self::M;

    /// What `combine` computes, on models.
    spec fn combine_model(a: Self::M, b: Self::M) -> Self::M;

    /// The combiner is associative.
    proof fn lemma_combine_assoc(a: Self::M, b: Self::M, c: Self::M)
        ensures
            Self::combine_model(Self::combine_model(a, b), c) == Self::combine_model(
                a,
                Self::combine_model(b, c),
            ),
    ;

    /// Combine two values.
    fn combine(self, other: Self) -> (r: Self)
        ensures
            r.model() == Self::combine_model(self.model(), other.model()),
    ;

    /// Produce a value with the model of `self`; the index stores one copy of
    /// a pushed value per level.
    fn dup(&self) -> (r: Self)
        ensures
            r.model() == self.model(),
    ;
}

/// A semigroup with an identity element.
pub trait Monoid: Semigroup {
    /// The model of the identity element.
    spec fn identity_model() -> Self::M;

    /// The identity is neutral on both sides.
    proof fn lemma_identity(a: Self::M)
        ensures
            Self::combine_model(Self::identity_model(), a) == a,
            Self::combine_model(a, Self::identity_model()) == a,
    ;

    /// The identity element.
    fn identity() -> (r: Self)
        ensures
            r.model() == Self::identity_model(),
    ;
}

/// The left fold of a non-empty sequence of models under the combiner.
pub open spec fn fold_m<V: Semigroup>(s: Seq<V::M>) -> V::M
    recommends
        s.len() >= 1,
    decreases s.len(),
{
    if s.len() <= 1 {
        s[0]
    } else {
        V::combine_model(fold_m::<V>(s.drop_last()), s.last())
    }
}

/// Folding one more model on the right combines it after the rest.
pub proof fn lemma_fold_m_push<V: Semigroup>(s: Seq<V::M>, v: V::M)
    requires
        s.len() >= 1,
    ensures
        fold_m::<V>(s.push(v)) == V::combine_model(fold_m::<V>(s), v),
{
    assert(s.push(v).drop_last() =~= s);
    assert(s.push(v).last() == v);
}

/// Folding a concatenation of non-empty sequences combines the two folds.
pub proof fn lemma_fold_m_concat<V: Semigroup>(a: Seq<V::M>, b: Seq<V::M>)
    requires
        a.len() >= 1,
        b.len() >= 1,
    ensures
        fold_m::<V>(a + b) == V::combine_model(fold_m::<V>(a), fold_m::<V>(b)),
    decreases b.len(),
{
    if b.len() == 1 {
        assert(a + b =~= a.push(b[0]));
        lemma_fold_m_push::<V>(a, b[0]);
        assert(fold_m::<V>(b) == b[0]);
    } else {
        let b0 = b.drop_last();
        let x = b.last();
        assert(a + b =~= (a + b0).push(x));
        lemma_fold_m_push::<V>(a + b0, x);
        lemma_fold_m_concat::<V>(a, b0);
        lemma_fold_m_push::<V>(b0, x);
        V::lemma_combine_assoc(fold_m::<V>(a), fold_m::<V>(b0), x);
    }
}

/// A store that can tell whether a timestamp lies in its current window.
pub trait CheckBound {
    /// Whether `timestamp` lies in the window, at the specification level.
    spec fn bound_spec(&self, timestamp: u64) -> bool;

    fn check_bound(&self, timestamp: u64) -> (r: bool)
        ensures
            r == self.bound_spec(timestamp),
    ;
}

/// A store fed by timestamp-keyed writes.
pub trait TimestampPush<V>: Sized {
    /// When a push of `timestamp` is allowed (the reference aborts otherwise).
    spec fn can_push(&self, timestamp: u64) -> bool;

    /// How the store after a push relates to the store before it.
    spec fn push_post(pre: Self, post: Self, timestamp: u64, value: V) -> bool;

    /// Record `value` at `timestamp`.
    fn push(&mut self, timestamp: u64, value: V)
        requires
            old(self).can_push(timestamp),
        ensures
            Self::push_post(*old(self), *final(self), timestamp, value),
    ;
}

/// Aggregation over the largest level-aligned block `[timestamp, x)` with
/// `x <= r`.
pub trait ConstrainedQuery<V>: Sized {
    /// When the query may be asked.
    spec fn query_ready(&self, timestamp: u64) -> bool;

    /// How the result and the store after the query relate to the store
    /// before it (queries may touch caches but not contents).
    spec fn cq_post(pre: Self, post: Self, timestamp: u64, r: u64, result: Option<(V, u64)>) -> bool;

    fn constrained_query(&mut self, timestamp: u64, r: u64) -> (result: Option<(V, u64)>)
        requires
            old(self).query_ready(timestamp),
        ensures
            Self::cq_post(*old(self), *final(self), timestamp, r, result),
    ;
}

/// Aggregation over the largest level-aligned block starting at `timestamp`,
/// with no upper constraint.
pub trait GreedyQuery<V>: Sized {
    /// When the query may be asked.
    spec fn greedy_ready(&self, timestamp: u64) -> bool;

    /// How the result and the store after the query relate to the store
    /// before it.
    spec fn gq_post(pre: Self, post: Self, timestamp: u64, result: Option<(V, u64)>) -> bool;

    fn greedy_query(&mut self, timestamp: u64) -> (result: Option<(V, u64)>)
        requires
            old(self).greedy_ready(timestamp),
        ensures
            Self::gq_post(*old(self), *final(self), timestamp, result),
    ;
}

/// Aggregation over `[timestamp, end)` where `end` is the end of the
/// populated window.
pub trait SuffixQuery<V>: GreedyQuery<V> {
    /// How the result and the store after the query relate to the store
    /// before it.
    spec fn sq_post(pre: Self, post: Self, timestamp: u64, result: Option<(V, u64)>) -> bool;

    fn suffix_query(&mut self, timestamp: u64) -> (result: Option<(V, u64)>)
        requires
            old(self).greedy_ready(timestamp),
        ensures
            Self::sq_post(*old(self), *final(self), timestamp, result),
    ;
}

/// Aggregation over an explicit half-open interval `[l, r)`.
pub trait RangeQuery<V>: ConstrainedQuery<V> {
    /// How the result and the store after the query relate to the store
    /// before it.
    spec fn rq_post(pre: Self, post: Self, l: u64, r: u64, result: Option<V>) -> bool;

    fn range_query(&mut self, l: u64, r: u64) -> (result: Option<V>)
        requires
            old(self).query_ready(l),
        ensures
            Self::rq_post(*old(self), *final(self), l, r, result),
    ;
}

/// `u64` under wrapping addition.
impl Semigroup for u64 {
    type M = u64;

    open spec fn model(self) -> u64 {
        self
    }

    open spec fn combine_model(a: u64, b: u64) -> u64 {
        vstd::wrapping::u64_specs::wrapping_add(a, b)
    }

    proof fn lemma_combine_assoc(a: u64, b: u64, c: u64) {
    }

    fn combine(self, other: Self) -> (r: Self) {
        self.wrapping_add(other)
    }

    fn dup(&self) -> (r: Self) {
        *self
    }
}

impl Monoid for u64 {
    open spec fn identity_model() -> u64 {
        0
    }

    proof fn lemma_identity(a: u64) {
    }

    fn identity() -> (r: Self) {
        0
    }
}

/// A `u64` whose combiner keeps the left (earliest) operand: a left
/// projection, the simplest non-commutative combiner.
#[derive(Clone, Copy, Debug, PartialEq, Eq, Structural)]
pub struct First(pub u64);

impl Semigroup for First {
    type M = u64;

    open spec fn model(self) -> u64 {
        self.0
    }

    open spec fn combine_model(a: u64, b: u64) -> u64 {
        a
    }

    proof fn lemma_combine_assoc(a: u64, b: u64, c: u64) {
    }

    fn combine(self, other: Self) -> (r: Self) {
        self
    }

    fn dup(&self) -> (r: Self) {
        First(self.0)
    }
}

/// A `String` under concatenation: an associative, non-commutative combiner
/// whose model is the character sequence.
pub struct Join(pub String);

impl Semigroup for Join {
    type M = Seq<char>;

    open spec fn model(self) -> Seq<char> {
        self.0@
    }

    open spec fn combine_model(a: Seq<char>, b: Seq<char>) -> Seq<char> {
        a + b
    }

    proof fn lemma_combine_assoc(a: Seq<char>, b: Seq<char>, c: Seq<char>) {
        assert((a + b) + c =~= a + (b + c));
    }

    fn combine(self, other: Self) -> (r: Self) {
        let mut s = self.0;
        s.append(other.0.as_str());
        Join(s)
    }

    fn dup(&self) -> (r: Self) {
        Join(self.0.clone())
    }
}

} // verus!
