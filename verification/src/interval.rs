//! Closed `[start, end]` timestamp ranges, their overlap and containment
//! predicates, and the sequence-level facts (sortedness, bounding maxima,
//! overlap filtering) that the index's search shortcuts rest on.

use vstd::prelude::*;

verus! {

pub type Timestamp = u64;

/// A closed range of timestamps: both endpoints belong to the interval.
#[derive(Copy, Clone, Debug, PartialEq, PartialOrd, Ord, Eq, Structural)]
pub struct Interval {
    pub start: Timestamp,
    pub end: Timestamp,
}

/// Two closed intervals overlap when neither lies strictly beyond the other.
/// A shared endpoint counts as overlap.
pub open spec fn spec_overlaps(a: Interval, b: Interval) -> bool {
    a.start <= b.end && a.end >= b.start
}

/// `a` contains `b` when every timestamp of `b` also lies in `a`.
pub open spec fn spec_contains(a: Interval, b: Interval) -> bool {
    a.start <= b.start && b.end <= a.end
}

impl Interval {
    /// A well-formed interval does not end before it starts. This is a caller
    /// obligation, not a checked invariant.
    pub open spec fn wf(self) -> bool {
        self.start <= self.end
    }

    pub fn new(start: Timestamp, end: Timestamp) -> (r: Self)
        ensures
            r.start == start,
            r.end == end,
    {
        Interval { start, end }
    }

    #[inline]
    pub fn overlaps(&self, other: Self) -> (r: bool)
        ensures
            r == spec_overlaps(*self, other),
    {
        self.start <= other.end && self.end >= other.start
    }

    #[inline]
    pub fn contains(&self, other: Self) -> (r: bool)
        ensures
            r == spec_contains(*self, other),
    {
        self.start <= other.start && other.end <= self.end
    }
}

impl From<(Timestamp, Timestamp)> for Interval {
    fn from(pair: (Timestamp, Timestamp)) -> (r: Interval)
        ensures
            r == (Interval { start: pair.0, end: pair.1 }),
    {
        Interval { start: pair.0, end: pair.1 }
    }
}

impl vstd::std_specs::convert::FromSpecImpl<(Timestamp, Timestamp)> for Interval {
    open spec fn obeys_from_spec() -> bool {
        true
    }

    open spec fn from_spec(pair: (Timestamp, Timestamp)) -> Interval {
        Interval { start: pair.0, end: pair.1 }
    }
}

/// Closed-interval boundary semantics: a well-formed interval overlaps
/// itself, so a window equal to a stored interval matches it, and a window
/// touching only at a shared endpoint still counts as overlapping.
pub proof fn lemma_boundary_overlap(a: Interval, b: Interval)
    requires
        a.wf(),
        b.wf(),
    ensures
        spec_overlaps(a, a),
        a.end == b.start ==> spec_overlaps(a, b),
        b.end == a.start ==> spec_overlaps(a, b),
{
}

/// Every interval of the sequence is well-formed.
pub open spec fn all_valid(ivs: Seq<Interval>) -> bool {
    forall|i: int| 0 <= i < ivs.len() ==> (#[trigger] ivs[i]).wf()
}

/// The sequence is non-decreasing by `start`, the insertion-order invariant
/// that all search shortcuts depend on.
pub open spec fn sorted_by_start(ivs: Seq<Interval>) -> bool {
    forall|i: int, j: int|
        0 <= i <= j < ivs.len() ==> #[trigger] ivs[i].start <= #[trigger] ivs[j].start
}

/// The maximum `end` among `ivs[lo..hi)`; meaningful only for `lo < hi`.
pub open spec fn max_end(ivs: Seq<Interval>, lo: int, hi: int) -> u64
    decreases hi - lo,
{
    if hi <= lo + 1 {
        ivs[lo].end
    } else {
        let rest = max_end(ivs, lo, hi - 1);
        if ivs[hi - 1].end > rest {
            ivs[hi - 1].end
        } else {
            rest
        }
    }
}

/// The indices in `[lo, hi)` whose interval overlaps `window`, in increasing
/// order.
pub open spec fn olap_in(ivs: Seq<Interval>, window: Interval, lo: int, hi: int) -> Seq<int>
    decreases hi - lo,
{
    if hi <= lo {
        Seq::empty()
    } else {
        let rest = olap_in(ivs, window, lo, hi - 1);
        if spec_overlaps(ivs[hi - 1], window) {
            rest.push(hi - 1)
        } else {
            rest
        }
    }
}

/// All indices of `ivs` whose interval overlaps `window`.
pub open spec fn overlap_indices(ivs: Seq<Interval>, window: Interval) -> Seq<int> {
    olap_in(ivs, window, 0, ivs.len() as int)
}

/// The values sitting at the given indices, in order.
pub open spec fn vals_of<V>(vals: Seq<V>, idxs: Seq<int>) -> Seq<V> {
    idxs.map_values(|i: int| vals[i])
}

/// What enumerating a window returns: the values of all overlapping
/// intervals, in insertion order.
pub open spec fn query_model<V>(ivs: Seq<Interval>, vals: Seq<V>, window: Interval) -> Seq<V> {
    vals_of(vals, overlap_indices(ivs, window))
}

/// The integers `lo, lo + 1, ..., hi - 1`.
pub open spec fn range_seq(lo: int, hi: int) -> Seq<int> {
    Seq::new(if hi >= lo { (hi - lo) as nat } else { 0 }, |k: int| lo + k)
}

pub proof fn lemma_range_seq_concat(a: int, b: int, c: int)
    requires
        a <= b <= c,
    ensures
        range_seq(a, b) + range_seq(b, c) =~= range_seq(a, c),
{
}

/// Every end in `ivs[lo..hi)` is bounded by `max_end`, which is itself one of
/// those ends.
pub proof fn lemma_max_end_bounds(ivs: Seq<Interval>, lo: int, hi: int)
    requires
        0 <= lo < hi <= ivs.len(),
    ensures
        forall|i: int| lo <= i < hi ==> (#[trigger] ivs[i]).end <= max_end(ivs, lo, hi),
        exists|i: int| lo <= i < hi && (#[trigger] ivs[i]).end == max_end(ivs, lo, hi),
    decreases hi - lo,
{
    if hi <= lo + 1 {
        assert(ivs[lo].end == max_end(ivs, lo, hi));
    } else {
        lemma_max_end_bounds(ivs, lo, hi - 1);
    }
}

/// `max_end` ignores everything at or past `hi`, so appending to the sequence
/// leaves it unchanged.
pub proof fn lemma_max_end_frame(ivs: Seq<Interval>, more: Seq<Interval>, lo: int, hi: int)
    requires
        0 <= lo < hi <= ivs.len(),
        forall|i: int| 0 <= i < ivs.len() ==> ivs[i] == #[trigger] more[i],
        more.len() >= ivs.len(),
    ensures
        max_end(more, lo, hi) == max_end(ivs, lo, hi),
    decreases hi - lo,
{
    if hi > lo + 1 {
        lemma_max_end_frame(ivs, more, lo, hi - 1);
    }
}

/// A block whose bounding interval misses the window holds no overlapping
/// element: the bound's start is a lower bound on the elements' starts (by
/// sortedness) and its end an upper bound on their ends.
pub proof fn lemma_block_not_overlapping(
    ivs: Seq<Interval>,
    window: Interval,
    lo: int,
    hi: int,
)
    requires
        0 <= lo < hi <= ivs.len(),
        sorted_by_start(ivs),
        !spec_overlaps(Interval { start: ivs[lo].start, end: max_end(ivs, lo, hi) }, window),
    ensures
        forall|i: int| lo <= i < hi ==> !spec_overlaps(#[trigger] ivs[i], window),
{
    lemma_max_end_bounds(ivs, lo, hi);
}

/// A block whose bounding interval is fully contained in the window holds
/// only overlapping elements, provided the elements are well-formed.
pub proof fn lemma_block_contained(ivs: Seq<Interval>, window: Interval, lo: int, hi: int)
    requires
        0 <= lo < hi <= ivs.len(),
        all_valid(ivs),
        sorted_by_start(ivs),
        spec_contains(window, Interval { start: ivs[lo].start, end: max_end(ivs, lo, hi) }),
    ensures
        forall|i: int| lo <= i < hi ==> spec_overlaps(#[trigger] ivs[i], window),
{
    lemma_max_end_bounds(ivs, lo, hi);
    assert forall|i: int| lo <= i < hi implies spec_overlaps(#[trigger] ivs[i], window) by {
        assert(ivs[i].start >= ivs[lo].start);
        assert(ivs[i].end <= max_end(ivs, lo, hi));
    }
}

/// The overlapping indices of `[lo, hi)` all lie in `[lo, hi)` and increase
/// strictly.
pub proof fn lemma_olap_in_props(ivs: Seq<Interval>, window: Interval, lo: int, hi: int)
    requires
        lo <= hi,
    ensures
        forall|m: int|
            0 <= m < olap_in(ivs, window, lo, hi).len()
                ==> lo <= #[trigger] olap_in(ivs, window, lo, hi)[m] < hi,
        forall|m1: int, m2: int|
            0 <= m1 < m2 < olap_in(ivs, window, lo, hi).len()
                ==> #[trigger] olap_in(ivs, window, lo, hi)[m1]
                    < #[trigger] olap_in(ivs, window, lo, hi)[m2],
    decreases hi - lo,
{
    if hi > lo {
        lemma_olap_in_props(ivs, window, lo, hi - 1);
        let rest = olap_in(ivs, window, lo, hi - 1);
        let whole = olap_in(ivs, window, lo, hi);
        if spec_overlaps(ivs[hi - 1], window) {
            assert(whole == rest.push(hi - 1));
            assert(forall|m: int| 0 <= m < rest.len() ==> whole[m] == #[trigger] rest[m]);
            assert(whole[whole.len() - 1] == hi - 1);
        }
    }
}

/// Splitting the scanned range splits its overlapping indices.
pub proof fn lemma_olap_in_concat(ivs: Seq<Interval>, window: Interval, a: int, b: int, c: int)
    requires
        a <= b <= c,
    ensures
        olap_in(ivs, window, a, c) == olap_in(ivs, window, a, b) + olap_in(ivs, window, b, c),
    decreases c - b,
{
    if c <= b {
        assert(olap_in(ivs, window, a, c) =~= olap_in(ivs, window, a, b) + olap_in(
            ivs,
            window,
            b,
            c,
        ));
    } else {
        lemma_olap_in_concat(ivs, window, a, b, c - 1);
        if spec_overlaps(ivs[c - 1], window) {
            assert(olap_in(ivs, window, a, c) =~= olap_in(ivs, window, a, b) + olap_in(
                ivs,
                window,
                b,
                c,
            ));
        } else {
            assert(olap_in(ivs, window, a, c) =~= olap_in(ivs, window, a, b) + olap_in(
                ivs,
                window,
                b,
                c,
            ));
        }
    }
}

/// A range with no overlapping element contributes nothing.
pub proof fn lemma_olap_in_empty(ivs: Seq<Interval>, window: Interval, lo: int, hi: int)
    requires
        lo <= hi,
        forall|i: int| lo <= i < hi ==> !spec_overlaps(#[trigger] ivs[i], window),
    ensures
        olap_in(ivs, window, lo, hi) == Seq::<int>::empty(),
    decreases hi - lo,
{
    if hi > lo {
        lemma_olap_in_empty(ivs, window, lo, hi - 1);
        assert(olap_in(ivs, window, lo, hi) =~= Seq::<int>::empty());
    }
}

/// A range where every element overlaps contributes all of its indices.
pub proof fn lemma_olap_in_full(ivs: Seq<Interval>, window: Interval, lo: int, hi: int)
    requires
        lo <= hi,
        forall|i: int| lo <= i < hi ==> spec_overlaps(#[trigger] ivs[i], window),
    ensures
        olap_in(ivs, window, lo, hi) == range_seq(lo, hi),
    decreases hi - lo,
{
    if hi > lo {
        lemma_olap_in_full(ivs, window, lo, hi - 1);
        assert(olap_in(ivs, window, lo, hi) =~= range_seq(lo, hi));
    } else {
        assert(olap_in(ivs, window, lo, hi) =~= range_seq(lo, hi));
    }
}

/// Querying an empty store yields nothing, whatever the window.
pub proof fn lemma_query_model_empty<V>(window: Interval)
    ensures
        query_model::<V>(Seq::empty(), Seq::empty(), window) == Seq::<V>::empty(),
{
    assert(query_model::<V>(Seq::empty(), Seq::empty(), window) =~= Seq::<V>::empty());
}


/// Looking up values distributes over concatenation of index sequences.
pub proof fn lemma_vals_of_concat<V>(vals: Seq<V>, a: Seq<int>, b: Seq<int>)
    ensures
        vals_of(vals, a + b) == vals_of(vals, a) + vals_of(vals, b),
{
    assert(vals_of(vals, a + b) =~= vals_of(vals, a) + vals_of(vals, b));
}

/// A subrange of the values is the lookup of the corresponding index range.
pub proof fn lemma_subrange_vals<V>(vals: Seq<V>, s: int, e: int)
    requires
        0 <= s <= e <= vals.len(),
    ensures
        vals.subrange(s, e) == vals_of(vals, range_seq(s, e)),
{
    assert(vals.subrange(s, e) =~= vals_of(vals, range_seq(s, e)));
}

/// Once an element starts past the window's end, sortedness rules out any
/// later overlap: the remaining scan can stop.
pub proof fn lemma_sorted_cutoff(ivs: Seq<Interval>, window: Interval, j: int)
    requires
        0 <= j < ivs.len(),
        sorted_by_start(ivs),
        ivs[j].start > window.end,
    ensures
        forall|i: int| j <= i < ivs.len() ==> !spec_overlaps(#[trigger] ivs[i], window),
{
    assert forall|i: int| j <= i < ivs.len() implies !spec_overlaps(#[trigger] ivs[i], window) by {
        assert(ivs[i].start >= ivs[j].start);
    }
}

} // verus!
