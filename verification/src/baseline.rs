//! The brute-force reference index: the same push/query/aggregate semantics
//! as the fast-lane index, by a linear scan per query. It is the correctness
//! oracle the fast index is compared against, and its contracts state the
//! same models (`query_model`, `aggregate_model`) as the fast index's, so
//! the two agree on every window by construction.

use vstd::prelude::*;

use crate::aggregate::{aggregate_model, fold_idxs, Aggregate};
use crate::interval::{
    all_valid, olap_in, overlap_indices, query_model, sorted_by_start, spec_overlaps, vals_of,
    Interval,
};

verus! {

/// Equivalence to the oracle: a fast index and a baseline holding the same
/// stored pairs answer every window identically. `IntervalIndex::aggregate`
/// and `BaselineIntervalIndex::aggregate` each return exactly
/// `aggregate_model` of their contents, and the two `query` results each
/// flatten to `query_model`, so equal contents give field-for-field equal
/// summaries and the same value sequence (hence the same multiset).
pub proof fn lemma_matches_oracle<V, A: Aggregate<V>>(
    index: &crate::index::IntervalIndex<V, A>,
    oracle: &BaselineIntervalIndex<V, A>,
    window: Interval,
)
    requires
        index.wf(),
        oracle.wf(),
        index.ivs() == oracle.ivs(),
        index.vals() == oracle.vals(),
    ensures
        aggregate_model::<V, A>(index.ivs(), index.vals(), window) == aggregate_model::<V, A>(
            oracle.ivs(),
            oracle.vals(),
            window,
        ),
        query_model(index.ivs(), index.vals(), window) == query_model(
            oracle.ivs(),
            oracle.vals(),
            window,
        ),
{
}

/// An intervals-plus-values list answering each query by a linear scan.
pub struct BaselineIntervalIndex<V, A> {
    intervals: Vec<Interval>,
    values: Vec<V>,
    phantom: core::marker::PhantomData<A>,
}

impl<V, A: Aggregate<V>> BaselineIntervalIndex<V, A> {
    pub closed spec fn ivs(&self) -> Seq<Interval> {
        self.intervals@
    }

    pub closed spec fn vals(&self) -> Seq<V> {
        self.values@
    }

    /// Stored pairs are aligned, well-formed and in non-decreasing start
    /// order; the scans' early cutoff depends on the last point.
    pub open spec fn wf(&self) -> bool {
        &&& self.ivs().len() == self.vals().len()
        &&& all_valid(self.ivs())
        &&& sorted_by_start(self.ivs())
    }

    pub fn new() -> (r: Self)
        ensures
            r.wf(),
            r.ivs().len() == 0,
            r.vals().len() == 0,
    {
        BaselineIntervalIndex {
            intervals: Vec::new(),
            values: Vec::new(),
            phantom: core::marker::PhantomData,
        }
    }

    pub fn push(&mut self, interval: Interval, value: V)
        requires
            old(self).wf(),
            interval.wf(),
            old(self).ivs().len() > 0 ==> old(self).ivs().last().start <= interval.start,
        ensures
            final(self).wf(),
            final(self).ivs() == old(self).ivs().push(interval),
            final(self).vals() == old(self).vals().push(value),
    {
        self.intervals.push(interval);
        self.values.push(value);
    }

    /// All values whose interval overlaps the window, in insertion order.
    pub fn query(&self, window: Interval) -> (r: Vec<&V>)
        requires
            self.wf(),
        ensures
            r@.map_values(|v: &V| *v) == query_model(self.ivs(), self.vals(), window),
    {
        let ghost ivs = self.ivs();
        let ghost vals = self.vals();
        let length = self.intervals.len();
        let mut out: Vec<&V> = Vec::new();
        let mut i: usize = 0;
        let mut done = false;
        while i < length && !done
            invariant
                self.wf(),
                length == ivs.len(),
                ivs == self.ivs(),
                vals == self.vals(),
                i <= length,
                !done ==> out@.map_values(|v: &V| *v) == vals_of(
                    vals,
                    olap_in(ivs, window, 0, i as int),
                ),
                done ==> out@.map_values(|v: &V| *v) == query_model(ivs, vals, window),
            decreases (if done { 0int } else { 1int }), length - i,
        {
            let ghost prev = out@;
            let interval = self.intervals[i];
            if interval.overlaps(window) {
                out.push(&self.values[i]);
                proof {
                    assert(out@.drop_last() =~= prev);
                    assert(out@.map_values(|v: &V| *v) =~= prev.map_values(|v: &V| *v).push(
                        vals[i as int],
                    ));
                    assert(vals_of(vals, olap_in(ivs, window, 0, i + 1)) =~= vals_of(
                        vals,
                        olap_in(ivs, window, 0, i as int),
                    ).push(vals[i as int]));
                }
            }
            if interval.start > window.end {
                done = true;
                proof {
                    crate::interval::lemma_sorted_cutoff(ivs, window, i as int);
                    crate::interval::lemma_olap_in_concat(
                        ivs,
                        window,
                        0,
                        i + 1,
                        ivs.len() as int,
                    );
                    crate::interval::lemma_olap_in_empty(ivs, window, i + 1, ivs.len() as int);
                    if spec_overlaps(ivs[i as int], window) {
                        assert(overlap_indices(ivs, window) =~= olap_in(ivs, window, 0, i + 1));
                    } else {
                        assert(olap_in(ivs, window, 0, i + 1) == olap_in(
                            ivs,
                            window,
                            0,
                            i as int,
                        ));
                        assert(overlap_indices(ivs, window) =~= olap_in(ivs, window, 0, i + 1));
                    }
                }
            }
            i += 1;
        }
        proof {
            if !done {
                assert(olap_in(ivs, window, 0, i as int) == overlap_indices(ivs, window));
            }
        }
        out
    }

    /// The summary over all values whose interval overlaps the window.
    pub fn aggregate(&self, window: Interval) -> (r: A)
        requires
            self.wf(),
        ensures
            r == aggregate_model::<V, A>(self.ivs(), self.vals(), window),
    {
        let ghost ivs = self.ivs();
        let ghost vals = self.vals();
        let length = self.intervals.len();
        let mut out = A::empty();
        let mut i: usize = 0;
        let mut done = false;
        while i < length && !done
            invariant
                self.wf(),
                length == ivs.len(),
                ivs == self.ivs(),
                vals == self.vals(),
                i <= length,
                !done ==> out == fold_idxs::<V, A>(ivs, vals, olap_in(ivs, window, 0, i as int)),
                done ==> out == aggregate_model::<V, A>(ivs, vals, window),
            decreases (if done { 0int } else { 1int }), length - i,
        {
            let interval = self.intervals[i];
            if interval.start > window.end {
                done = true;
                proof {
                    crate::interval::lemma_sorted_cutoff(ivs, window, i as int);
                    crate::interval::lemma_olap_in_concat(ivs, window, 0, i as int, ivs.len() as int);
                    crate::interval::lemma_olap_in_empty(ivs, window, i as int, ivs.len() as int);
                    assert(overlap_indices(ivs, window) =~= olap_in(ivs, window, 0, i as int));
                }
            } else {
                if interval.overlaps(window) {
                    let single = A::initial(&self.intervals[i], &self.values[i]);
                    out.aggregate(&single);
                    proof {
                        assert(olap_in(ivs, window, 0, i + 1).drop_last() =~= olap_in(
                            ivs,
                            window,
                            0,
                            i as int,
                        ));
                    }
                } else {
                    proof {
                        assert(olap_in(ivs, window, 0, i + 1) == olap_in(ivs, window, 0, i as int));
                    }
                }
                i += 1;
            }
        }
        out
    }
}

} // verus!
