//! The pluggable summary contract: a neutral element, a one-element summary,
//! and a commutative, associative merge. The traversal combines precomputed
//! block summaries and individually initialized leaf summaries through the
//! one merge operation, so every implementation must prove the algebraic
//! laws the traversal rearranges merges under.

use vstd::prelude::*;

use crate::interval::{range_seq, overlap_indices, Interval};

verus! {

/// A mergeable summary over stored `(interval, value)` pairs.
///
/// `empty_spec`/`initial_spec`/`merge_spec` are the mathematical model of the
/// three executable operations; the proof obligations state that `empty_spec`
/// is a two-sided identity and that `merge_spec` is commutative and
/// associative, which lets a traversal merge blocks and single elements in
/// any grouping without changing the result.
pub trait Aggregate<V>: Sized {
    /// Model of the neutral element.
    spec fn empty_spec() -> Self;

    /// Model of the one-element summary.
    spec fn initial_spec(interval: Interval, value: V) -> Self;

    /// Model of the in-place merge.
    spec fn merge_spec(self, other: Self) -> Self;

    /// Merging the neutral element with any summary, on either side, leaves
    /// it unchanged.
    proof fn lemma_empty_neutral(a: Self)
        ensures
            Self::empty_spec().merge_spec(a) == a,
            a.merge_spec(Self::empty_spec()) == a;

    /// Merge order does not matter.
    proof fn lemma_merge_commutative(a: Self, b: Self)
        ensures
            a.merge_spec(b) == b.merge_spec(a);

    /// Merge grouping does not matter.
    proof fn lemma_merge_associative(a: Self, b: Self, c: Self)
        ensures
            a.merge_spec(b).merge_spec(c) == a.merge_spec(b.merge_spec(c));

    /// The neutral element: identity for `aggregate`.
    fn empty() -> (r: Self)
        ensures
            r == Self::empty_spec();

    /// The summary of a single stored pair.
    fn initial(interval: &Interval, value: &V) -> (r: Self)
        requires
            interval.wf(),
        ensures
            r == Self::initial_spec(*interval, *value);

    /// In-place merge of another summary into this one.
    fn aggregate(&mut self, other: &Self)
        ensures
            *final(self) == old(self).merge_spec(*other);
}

/// The default statistics summary: minimum, maximum and total duration of
/// the summarized intervals, and how many there are. The neutral element
/// carries `u64::MAX` as its minimum so that merging it changes nothing.
#[derive(Copy, Clone, Debug, PartialEq, Eq, Structural)]
pub struct DefaultStatistics {
    pub min: u64,
    pub max: u64,
    pub total_duration: u64,
    pub count: usize,
}

impl<V> Aggregate<V> for DefaultStatistics {
    open spec fn empty_spec() -> Self {
        DefaultStatistics { min: u64::MAX, max: 0, total_duration: 0, count: 0 }
    }

    open spec fn initial_spec(interval: Interval, _value: V) -> Self {
        let duration = (interval.end - interval.start) as u64;
        DefaultStatistics { min: duration, max: duration, total_duration: duration, count: 1 }
    }

    open spec fn merge_spec(self, other: Self) -> Self {
        DefaultStatistics {
            min: if other.min < self.min { other.min } else { self.min },
            max: if other.max > self.max { other.max } else { self.max },
            total_duration: if self.total_duration + other.total_duration > u64::MAX {
                u64::MAX
            } else {
                (self.total_duration + other.total_duration) as u64
            },
            count: if self.count + other.count > usize::MAX {
                usize::MAX
            } else {
                (self.count + other.count) as usize
            },
        }
    }

    proof fn lemma_empty_neutral(a: Self) {
    }

    proof fn lemma_merge_commutative(a: Self, b: Self) {
    }

    proof fn lemma_merge_associative(a: Self, b: Self, c: Self) {
    }

    fn empty() -> (r: Self) {
        DefaultStatistics { min: u64::MAX, max: 0, total_duration: 0, count: 0 }
    }

    fn initial(interval: &Interval, _value: &V) -> (r: Self) {
        let duration = interval.end - interval.start;
        DefaultStatistics { min: duration, max: duration, total_duration: duration, count: 1 }
    }

    fn aggregate(&mut self, other: &Self) {
        if other.min < self.min {
            self.min = other.min;
        }
        if other.max > self.max {
            self.max = other.max;
        }
        self.total_duration = self.total_duration.saturating_add(other.total_duration);
        self.count = self.count.saturating_add(other.count);
    }
}

/// Left fold of the one-element summaries at the given slow-lane indices,
/// starting from the neutral element. This is the meaning of every summary
/// the index stores or returns.
pub open spec fn fold_idxs<V, A: Aggregate<V>>(
    ivs: Seq<Interval>,
    vals: Seq<V>,
    idxs: Seq<int>,
) -> A
    decreases idxs.len(),
{
    if idxs.len() == 0 {
        A::empty_spec()
    } else {
        fold_idxs::<V, A>(ivs, vals, idxs.drop_last()).merge_spec(
            A::initial_spec(ivs[idxs.last()], vals[idxs.last()]),
        )
    }
}

/// What summarizing a window returns: the fold over exactly the overlapping
/// indices, in insertion order. Both the index and the brute-force baseline
/// return precisely this.
pub open spec fn aggregate_model<V, A: Aggregate<V>>(
    ivs: Seq<Interval>,
    vals: Seq<V>,
    window: Interval,
) -> A {
    fold_idxs::<V, A>(ivs, vals, overlap_indices(ivs, window))
}

/// Folding a concatenation merges the folds of the parts: the shape in which
/// the traversal consumes whole precomputed blocks.
pub proof fn lemma_fold_concat<V, A: Aggregate<V>>(
    ivs: Seq<Interval>,
    vals: Seq<V>,
    a: Seq<int>,
    b: Seq<int>,
)
    ensures
        fold_idxs::<V, A>(ivs, vals, a + b) == fold_idxs::<V, A>(ivs, vals, a).merge_spec(
            fold_idxs::<V, A>(ivs, vals, b),
        ),
    decreases b.len(),
{
    let fa = fold_idxs::<V, A>(ivs, vals, a);
    if b.len() == 0 {
        assert(a + b =~= a);
        A::lemma_empty_neutral(fa);
    } else {
        lemma_fold_concat::<V, A>(ivs, vals, a, b.drop_last());
        assert((a + b).drop_last() =~= a + b.drop_last());
        assert((a + b).last() == b.last());
        let fb1 = fold_idxs::<V, A>(ivs, vals, b.drop_last());
        let last = A::initial_spec(ivs[b.last()], vals[b.last()]);
        A::lemma_merge_associative(fa, fb1, last);
    }
}

/// The fold ignores everything at or past the sequences' shared length, so
/// appending pairs leaves a fold over existing indices unchanged.
pub proof fn lemma_fold_frame<V, A: Aggregate<V>>(
    ivs: Seq<Interval>,
    vals: Seq<V>,
    more_ivs: Seq<Interval>,
    more_vals: Seq<V>,
    idxs: Seq<int>,
)
    requires
        ivs.len() == vals.len(),
        more_ivs.len() >= ivs.len(),
        more_vals.len() >= vals.len(),
        forall|i: int| 0 <= i < ivs.len() ==> ivs[i] == #[trigger] more_ivs[i],
        forall|i: int| 0 <= i < vals.len() ==> vals[i] == #[trigger] more_vals[i],
        forall|m: int| 0 <= m < idxs.len() ==> 0 <= #[trigger] idxs[m] < ivs.len(),
    ensures
        fold_idxs::<V, A>(more_ivs, more_vals, idxs) == fold_idxs::<V, A>(ivs, vals, idxs),
    decreases idxs.len(),
{
    if idxs.len() > 0 {
        lemma_fold_frame::<V, A>(ivs, vals, more_ivs, more_vals, idxs.drop_last());
    }
}

/// All groupings and orderings of merging three summaries agree. For three
/// one-element summaries this is the statement that a traversal may combine
/// leaves in whatever association the block structure dictates.
pub proof fn lemma_merge_groupings<V, A: Aggregate<V>>(a: A, b: A, c: A)
    ensures
        a.merge_spec(b).merge_spec(c) == a.merge_spec(b.merge_spec(c)),
        a.merge_spec(b).merge_spec(c) == b.merge_spec(a).merge_spec(c),
        a.merge_spec(b).merge_spec(c) == a.merge_spec(c).merge_spec(b),
        a.merge_spec(b).merge_spec(c) == c.merge_spec(b).merge_spec(a),
        a.merge_spec(b).merge_spec(c) == b.merge_spec(c).merge_spec(a),
        a.merge_spec(b).merge_spec(c) == c.merge_spec(a).merge_spec(b),
        a.merge_spec(b).merge_spec(c) == c.merge_spec(a.merge_spec(b)),
{
    A::lemma_merge_commutative(a, b);
    A::lemma_merge_commutative(a, c);
    A::lemma_merge_commutative(b, c);
    A::lemma_merge_associative(a, b, c);
    A::lemma_merge_associative(b, a, c);
    A::lemma_merge_associative(a, c, b);
    A::lemma_merge_associative(c, b, a);
    A::lemma_merge_associative(b, c, a);
    A::lemma_merge_associative(c, a, b);
    A::lemma_merge_commutative(a, b.merge_spec(c));
    A::lemma_merge_commutative(b, a.merge_spec(c));
    A::lemma_merge_commutative(c, a.merge_spec(b));
    A::lemma_merge_commutative(a.merge_spec(b), c);
}

/// Summarizing an empty index yields the neutral element, whatever the
/// window.
pub proof fn lemma_aggregate_model_empty<V, A: Aggregate<V>>(window: Interval)
    ensures
        aggregate_model::<V, A>(Seq::empty(), Seq::empty(), window) == A::empty_spec(),
{
}

/// A fold over one single index is that index's one-element summary.
pub proof fn lemma_fold_single<V, A: Aggregate<V>>(
    ivs: Seq<Interval>,
    vals: Seq<V>,
    i: int,
)
    ensures
        fold_idxs::<V, A>(ivs, vals, range_seq(i, i + 1)) == A::initial_spec(ivs[i], vals[i]),
{
    let r = range_seq(i, i + 1);
    assert(r.len() == 1);
    assert(r.last() == i);
    assert(r.drop_last() =~= Seq::<int>::empty());
    assert(fold_idxs::<V, A>(ivs, vals, r.drop_last()) == A::empty_spec());
    assert(fold_idxs::<V, A>(ivs, vals, r) == fold_idxs::<V, A>(ivs, vals, r.drop_last())
        .merge_spec(A::initial_spec(ivs[r.last()], vals[r.last()])));
    A::lemma_empty_neutral(A::initial_spec(ivs[i], vals[i]));
}

} // verus!
