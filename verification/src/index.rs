//! The multi-level fast-lane index: an append-only slow lane of raw
//! `(interval, value)` pairs plus a fixed stack of fast lanes, each grouping
//! consecutive slow-lane positions into fixed-width blocks that carry one
//! bounding interval and one precomputed summary. Queries localize a start
//! position by descending the lanes, then walk forward, skipping a whole
//! block whenever its bounding interval lies fully inside the window and
//! falling back to element-by-element scanning otherwise.

use vstd::arithmetic::div_mod::{lemma_fundamental_div_mod, lemma_fundamental_div_mod_converse};
use vstd::arithmetic::power::{lemma_pow_adds, lemma_pow_increases, lemma_pow_positive, pow};
use vstd::prelude::*;

use crate::aggregate::{
    aggregate_model, fold_idxs, lemma_fold_concat, lemma_fold_frame, Aggregate,
};
use crate::interval::{
    all_valid, lemma_block_contained, lemma_block_not_overlapping, lemma_max_end_bounds,
    lemma_max_end_frame, lemma_olap_in_concat, lemma_olap_in_empty, lemma_olap_in_full,
    lemma_olap_in_props, lemma_range_seq_concat, lemma_sorted_cutoff, max_end, olap_in,
    overlap_indices, query_model, range_seq, sorted_by_start, spec_contains, spec_overlaps,
    vals_of, Interval,
};

verus! {

/// How many width-`w` blocks cover `n` slow-lane positions: `n / w` rounded
/// up.
pub open spec fn n_blocks(n: int, w: int) -> int {
    (n + w - 1) / w
}

/// The end (exclusive) of block `k`'s slow-lane range, clipped to the lane
/// length.
pub open spec fn block_hi(n: int, w: int, k: int) -> int {
    if (k + 1) * w < n {
        (k + 1) * w
    } else {
        n
    }
}

/// The bounding interval of the elements `ivs[lo..hi)`: the first element's
/// start (a lower bound on all starts, by sortedness) and the running
/// maximum of the ends.
pub open spec fn block_bound(ivs: Seq<Interval>, lo: int, hi: int) -> Interval {
    Interval { start: ivs[lo].start, end: max_end(ivs, lo, hi) }
}

/// The ground-truth append-only storage: parallel interval and value
/// sequences in insertion order.
pub struct SlowLane<V> {
    intervals: Vec<Interval>,
    values: Vec<V>,
}

impl<V> SlowLane<V> {
    pub closed spec fn ivs(&self) -> Seq<Interval> {
        self.intervals@
    }

    pub closed spec fn vals(&self) -> Seq<V> {
        self.values@
    }

    /// Parallel sequences are aligned; intervals are well-formed and in
    /// non-decreasing start order.
    pub open spec fn wf(&self) -> bool {
        &&& self.ivs().len() == self.vals().len()
        &&& all_valid(self.ivs())
        &&& sorted_by_start(self.ivs())
    }

    fn new() -> (r: Self)
        ensures
            r.wf(),
            r.ivs().len() == 0,
            r.vals().len() == 0,
    {
        SlowLane { intervals: Vec::new(), values: Vec::new() }
    }

    fn len(&self) -> (r: usize)
        ensures
            r == self.ivs().len(),
    {
        self.intervals.len()
    }

    fn push(&mut self, interval: Interval, value: V)
        requires
            old(self).wf(),
            interval.wf(),
            old(self).ivs().len() > 0 ==> old(self).ivs().last().start <= interval.start,
        ensures
            final(self).wf(),
            final(self).ivs() == old(self).ivs().push(interval),
            final(self).vals() == old(self).vals().push(value),
    {
        self.intervals.push(interval);
        self.values.push(value);
    }
}

/// One compression level: fixed-width blocks over the slow lane, each with
/// a bounding interval and an incrementally merged summary.
#[derive(Debug)]
pub struct FastLane<V, A> {
    /// The block width: how many consecutive slow-lane positions one block
    /// covers.
    pub interval: usize,
    intervals: Vec<Interval>,
    aggregations: Vec<A>,
    phantom: core::marker::PhantomData<V>,
}

impl<V, A: Aggregate<V>> FastLane<V, A> {
    pub closed spec fn bounds(&self) -> Seq<Interval> {
        self.intervals@
    }

    pub closed spec fn aggs(&self) -> Seq<A> {
        self.aggregations@
    }

    pub closed spec fn width(&self) -> int {
        self.interval as int
    }

    /// The lane is a faithful compression of the given slow-lane contents:
    /// one block per started range of `width()` positions, each block's
    /// bounding interval and summary covering exactly its range.
    pub open spec fn wf_for(&self, ivs: Seq<Interval>, vals: Seq<V>) -> bool {
        &&& self.width() >= 1
        &&& self.bounds().len() == n_blocks(ivs.len() as int, self.width())
        &&& self.aggs().len() == self.bounds().len()
        &&& forall|k: int|
            0 <= k < self.bounds().len() ==> #[trigger] self.bounds()[k] == block_bound(
                ivs,
                k * self.width(),
                block_hi(ivs.len() as int, self.width(), k),
            )
        &&& forall|k: int|
            0 <= k < self.aggs().len() ==> #[trigger] self.aggs()[k] == fold_idxs::<V, A>(
                ivs,
                vals,
                range_seq(k * self.width(), block_hi(ivs.len() as int, self.width(), k)),
            )
    }

    pub fn new(interval: usize) -> (r: Self)
        requires
            interval >= 1,
        ensures
            r.width() == interval as int,
            r.bounds().len() == 0,
            r.aggs().len() == 0,
    {
        FastLane {
            interval,
            intervals: Vec::new(),
            aggregations: Vec::new(),
            phantom: core::marker::PhantomData,
        }
    }

    pub fn len(&self) -> (r: usize)
        ensures
            r == self.bounds().len(),
    {
        self.intervals.len()
    }

    fn push(&mut self, interval: Interval, aggregate: A)
        ensures
            final(self).interval == old(self).interval,
            final(self).bounds() == old(self).bounds().push(interval),
            final(self).aggs() == old(self).aggs().push(aggregate),
    {
        self.intervals.push(interval);
        self.aggregations.push(aggregate);
    }

    fn update(&mut self, index: usize, interval: Interval, aggregate: A)
        requires
            index < old(self).bounds().len(),
            old(self).aggs().len() == old(self).bounds().len(),
        ensures
            final(self).interval == old(self).interval,
            final(self).bounds() == old(self).bounds().update(
                index as int,
                Interval {
                    start: old(self).bounds()[index as int].start,
                    end: if interval.end > old(self).bounds()[index as int].end {
                        interval.end
                    } else {
                        old(self).bounds()[index as int].end
                    },
                },
            ),
            final(self).aggs() == old(self).aggs().update(
                index as int,
                old(self).aggs()[index as int].merge_spec(aggregate),
            ),
    {
        let other = self.intervals[index];
        let new_end = if interval.end > other.end {
            interval.end
        } else {
            other.end
        };
        self.intervals[index] = Interval { start: other.start, end: new_end };
        self.aggregations[index].aggregate(&aggregate);
    }
}

/// Ceiling-division facts relating a lane's block count before and after
/// one more element is appended.
proof fn lemma_block_arith(n: int, w: int)
    requires
        w >= 1,
        n >= 0,
    ensures
        n % w == 0 ==> n_blocks(n, w) == n / w,
        n % w != 0 ==> n_blocks(n, w) == n / w + 1,
        n_blocks(n + 1, w) == n / w + 1,
        (n / w) * w <= n < (n / w + 1) * w,
        n % w != 0 ==> (n / w) * w < n,
        n_blocks(n, w) * w >= n,
        n_blocks(n, w) <= n,
{
    lemma_fundamental_div_mod(n, w);
    vstd::arithmetic::div_mod::lemma_mod_division_less_than_divisor(n, w);
    let q = n / w;
    let r = n % w;
    assert(n == w * q + r);
    assert(0 <= r < w);
    assert(q >= 0) by (nonlinear_arith)
        requires
            n == w * q + r,
            n >= 0,
            w >= 1,
            0 <= r < w,
    ;
    assert((q + 1) * w == q * w + w && q * w == w * q) by (nonlinear_arith);
    if r == 0 {
        lemma_fundamental_div_mod_converse(n + w - 1, w, q, w - 1);
        assert(n_blocks(n, w) == q);
    } else {
        lemma_fundamental_div_mod_converse(n + w - 1, w, q + 1, r - 1);
        assert(n_blocks(n, w) == q + 1);
    }
    lemma_fundamental_div_mod_converse(n + w, w, q + 1, r);
    assert(n_blocks(n + 1, w) == (n + w) / w == q + 1);
    assert(n_blocks(n, w) * w >= n) by (nonlinear_arith)
        requires
            n == w * q + r,
            0 <= r < w,
            w >= 1,
            n_blocks(n, w) == if r == 0 { q } else { q + 1 },
    ;
    assert(n_blocks(n, w) <= n) by (nonlinear_arith)
        requires
            n >= 0,
            w >= 1,
            q >= 0,
            n == w * q + r,
            0 <= r < w,
            n_blocks(n, w) == if r == 0 { q } else { q + 1 },
    ;
}

/// Blocks strictly before the last cover ranges that lie entirely within the
/// first `n` positions, so appending an element leaves them untouched.
proof fn lemma_lane_old_blocks_frame<V, A: Aggregate<V>>(
    lane: FastLane<V, A>,
    ivs: Seq<Interval>,
    vals: Seq<V>,
    iv: Interval,
    v: V,
    k: int,
)
    requires
        ivs.len() == vals.len(),
        lane.wf_for(ivs, vals),
        0 <= k < lane.bounds().len(),
        (k + 1) * lane.width() <= ivs.len(),
    ensures
        lane.bounds()[k] == block_bound(
            ivs.push(iv),
            k * lane.width(),
            block_hi(ivs.len() as int + 1, lane.width(), k),
        ),
        lane.aggs()[k] == fold_idxs::<V, A>(
            ivs.push(iv),
            vals.push(v),
            range_seq(k * lane.width(), block_hi(ivs.len() as int + 1, lane.width(), k)),
        ),
{
    let w = lane.width();
    let n = ivs.len() as int;
    let hi = block_hi(n, w, k);
    assert(k * w >= 0 && k * w < (k + 1) * w) by (nonlinear_arith)
        requires
            k >= 0,
            w >= 1,
    ;
    assert(block_hi(n + 1, w, k) == hi);
    lemma_max_end_frame(ivs, ivs.push(iv), k * w, hi);
    lemma_fold_frame::<V, A>(ivs, vals, ivs.push(iv), vals.push(v), range_seq(k * w, hi));
}

/// Starting a fresh block with the new element's interval and one-element
/// summary keeps the lane a faithful compression of the extended slow lane.
proof fn lemma_lane_new_block<V, A: Aggregate<V>>(
    lane: FastLane<V, A>,
    new_lane: FastLane<V, A>,
    ivs: Seq<Interval>,
    vals: Seq<V>,
    iv: Interval,
    v: V,
)
    requires
        ivs.len() == vals.len(),
        lane.wf_for(ivs, vals),
        ivs.len() as int % lane.width() == 0,
        new_lane.width() == lane.width(),
        new_lane.bounds() == lane.bounds().push(iv),
        new_lane.aggs() == lane.aggs().push(A::initial_spec(iv, v)),
    ensures
        new_lane.wf_for(ivs.push(iv), vals.push(v)),
{
    let w = lane.width();
    let n = ivs.len() as int;
    let q = n / w;
    lemma_block_arith(n, w);
    assert(lane.bounds().len() == q);
    assert(new_lane.bounds().len() == n_blocks(n + 1, w));
    assert(q * w == n);
    let ivs1 = ivs.push(iv);
    let vals1 = vals.push(v);
    // the fresh block covers exactly the new position
    assert(block_hi(n + 1, w, q) == n + 1) by {
        assert((q + 1) * w == q * w + w) by (nonlinear_arith);
    }
    assert(ivs1[n] == iv);
    assert(block_bound(ivs1, q * w, n + 1) == iv);
    crate::aggregate::lemma_fold_single::<V, A>(ivs1, vals1, n);
    assert forall|k: int| 0 <= k < new_lane.bounds().len() implies #[trigger] new_lane.bounds()[k]
        == block_bound(ivs1, k * w, block_hi(ivs1.len() as int, w, k)) by {
        if k < q {
            assert((k + 1) * w <= q * w) by (nonlinear_arith)
                requires
                    k + 1 <= q,
                    w >= 1,
            ;
            lemma_lane_old_blocks_frame::<V, A>(lane, ivs, vals, iv, v, k);
        } else {
            assert(k == q);
            assert(new_lane.bounds()[q] == iv);
        }
    }
    assert forall|k: int| 0 <= k < new_lane.aggs().len() implies #[trigger] new_lane.aggs()[k]
        == fold_idxs::<V, A>(ivs1, vals1, range_seq(k * w, block_hi(ivs1.len() as int, w, k))) by {
        if k < q {
            assert((k + 1) * w <= q * w) by (nonlinear_arith)
                requires
                    k + 1 <= q,
                    w >= 1,
            ;
            lemma_lane_old_blocks_frame::<V, A>(lane, ivs, vals, iv, v, k);
        } else {
            assert(k == q);
            assert(new_lane.aggs()[q] == A::initial_spec(iv, v));
        }
    }
}

/// Extending the last open block — raising its bounding end and merging in
/// the one-element summary — keeps the lane a faithful compression of the
/// extended slow lane.
proof fn lemma_lane_extend_block<V, A: Aggregate<V>>(
    lane: FastLane<V, A>,
    new_lane: FastLane<V, A>,
    ivs: Seq<Interval>,
    vals: Seq<V>,
    iv: Interval,
    v: V,
)
    requires
        ivs.len() == vals.len(),
        lane.wf_for(ivs, vals),
        ivs.len() as int % lane.width() != 0,
        new_lane.width() == lane.width(),
        new_lane.bounds() == lane.bounds().update(
            ivs.len() as int / lane.width(),
            Interval {
                start: lane.bounds()[ivs.len() as int / lane.width()].start,
                end: if iv.end > lane.bounds()[ivs.len() as int / lane.width()].end {
                    iv.end
                } else {
                    lane.bounds()[ivs.len() as int / lane.width()].end
                },
            },
        ),
        new_lane.aggs() == lane.aggs().update(
            ivs.len() as int / lane.width(),
            lane.aggs()[ivs.len() as int / lane.width()].merge_spec(A::initial_spec(iv, v)),
        ),
    ensures
        new_lane.wf_for(ivs.push(iv), vals.push(v)),
{
    let w = lane.width();
    let n = ivs.len() as int;
    let q = n / w;
    lemma_block_arith(n, w);
    assert(lane.bounds().len() == q + 1);
    assert(new_lane.bounds().len() == n_blocks(n + 1, w));
    assert(q * w < n);
    let ivs1 = ivs.push(iv);
    let vals1 = vals.push(v);
    // the last block's range grows from [q*w, n) to [q*w, n + 1)
    assert((q + 1) * w == q * w + w) by (nonlinear_arith);
    assert(block_hi(n, w, q) == n);
    assert(block_hi(n + 1, w, q) == n + 1);
    lemma_max_end_frame(ivs, ivs1, q * w, n);
    assert(max_end(ivs1, q * w, n + 1) == if iv.end > max_end(ivs, q * w, n) {
        iv.end
    } else {
        max_end(ivs, q * w, n)
    });
    assert(ivs1[q * w] == ivs[q * w]);
    assert(new_lane.bounds()[q] == block_bound(ivs1, q * w, n + 1));
    // the stored summary folds one more index on the right
    let r_old = range_seq(q * w, n);
    let r_new = range_seq(q * w, n + 1);
    assert(r_new.last() == n);
    assert(r_new.drop_last() =~= r_old);
    lemma_fold_frame::<V, A>(ivs, vals, ivs1, vals1, r_old);
    assert(fold_idxs::<V, A>(ivs1, vals1, r_new) == fold_idxs::<V, A>(ivs, vals, r_old)
        .merge_spec(A::initial_spec(iv, v)));
    assert(new_lane.aggs()[q] == fold_idxs::<V, A>(ivs1, vals1, r_new));
    assert forall|k: int| 0 <= k < new_lane.bounds().len() implies #[trigger] new_lane.bounds()[k]
        == block_bound(ivs1, k * w, block_hi(ivs1.len() as int, w, k)) by {
        if k < q {
            assert((k + 1) * w <= q * w) by (nonlinear_arith)
                requires
                    k + 1 <= q,
                    w >= 1,
            ;
            lemma_lane_old_blocks_frame::<V, A>(lane, ivs, vals, iv, v, k);
        } else {
            assert(k == q);
        }
    }
    assert forall|k: int| 0 <= k < new_lane.aggs().len() implies #[trigger] new_lane.aggs()[k]
        == fold_idxs::<V, A>(ivs1, vals1, range_seq(k * w, block_hi(ivs1.len() as int, w, k))) by {
        if k < q {
            assert((k + 1) * w <= q * w) by (nonlinear_arith)
                requires
                    k + 1 <= q,
                    w >= 1,
            ;
            lemma_lane_old_blocks_frame::<V, A>(lane, ivs, vals, iv, v, k);
        } else {
            assert(k == q);
        }
    }
}

/// A slow-lane position lies in a block with a valid index, strictly before
/// the lane's block count.
proof fn lemma_block_index(n: int, w: int, i: int)
    requires
        w >= 1,
        0 <= i < n,
    ensures
        0 <= i / w < n_blocks(n, w),
        (i / w) * w <= i < (i / w + 1) * w,
        i % w == 0 ==> (i / w) * w == i,
{
    lemma_block_arith(n, w);
    lemma_fundamental_div_mod(i, w);
    vstd::arithmetic::div_mod::lemma_mod_division_less_than_divisor(i, w);
    let k = i / w;
    assert(k * w <= i < (k + 1) * w) by (nonlinear_arith)
        requires
            i == w * k + i % w,
            0 <= i % w < w,
    ;
    assert(k >= 0) by (nonlinear_arith)
        requires
            k * w <= i,
            0 <= i,
            w >= 1,
            i < (k + 1) * w,
    ;
    assert(k < n_blocks(n, w)) by (nonlinear_arith)
        requires
            n_blocks(n, w) * w >= n,
            i < n,
            k * w <= i,
            w >= 1,
    ;
}

/// If `x` is a multiple of `m` and `d` divides `m`, then `x` is a multiple
/// of `d`.
proof fn lemma_mod_chain(x: int, m: int, d: int)
    requires
        m >= 1,
        d >= 1,
        x >= 0,
        x % m == 0,
        m % d == 0,
    ensures
        x % d == 0,
{
    lemma_fundamental_div_mod(x, m);
    lemma_fundamental_div_mod(m, d);
    let a = x / m;
    let c = m / d;
    assert(x == d * (c * a)) by (nonlinear_arith)
        requires
            x == m * a,
            m == d * c,
    ;
    assert(c * a >= 0) by (nonlinear_arith)
        requires
            x >= 0,
            x == d * (c * a),
            d >= 1,
    ;
    lemma_fundamental_div_mod_converse(x, d, c * a, 0);
}

/// The sum of two multiples of `d` is a multiple of `d`.
proof fn lemma_mod_sum_multiples(a: int, b: int, d: int)
    requires
        d >= 1,
        a >= 0,
        b >= 0,
        a % d == 0,
        b % d == 0,
    ensures
        (a + b) % d == 0,
{
    lemma_fundamental_div_mod(a, d);
    lemma_fundamental_div_mod(b, d);
    assert(a + b == (a / d + b / d) * d) by (nonlinear_arith)
        requires
            a == d * (a / d),
            b == d * (b / d),
    ;
    assert(a / d + b / d >= 0) by (nonlinear_arith)
        requires
            a + b >= 0,
            a + b == (a / d + b / d) * d,
            d >= 1,
    ;
    lemma_fundamental_div_mod_converse(a + b, d, a / d + b / d, 0);
}

/// A smaller power of a base divides a larger one.
proof fn lemma_pow_divides(b: int, e1: nat, e2: nat)
    requires
        b >= 1,
        e1 <= e2,
    ensures
        pow(b, e2) % pow(b, e1) == 0,
{
    lemma_pow_adds(b, e1, (e2 - e1) as nat);
    lemma_pow_positive(b, e1);
    lemma_pow_positive(b, (e2 - e1) as nat);
    assert(pow(b, e2) == pow(b, (e2 - e1) as nat) * pow(b, e1) + 0) by (nonlinear_arith)
        requires
            pow(b, e2) == pow(b, e1) * pow(b, (e2 - e1) as nat),
    ;
    lemma_fundamental_div_mod_converse(pow(b, e2), pow(b, e1), pow(b, (e2 - e1) as nat), 0);
}

/// Advancing from `idx` to the next `stride`-aligned position `nidx` cannot
/// cross into the interior of a wider block whose width `stride` divides:
/// if `nidx` cuts that block mid-way, it is the same block `idx` was in.
proof fn lemma_same_block(idx: int, nidx: int, wl: int, stride: int)
    requires
        wl >= 1,
        stride >= 1,
        wl % stride == 0,
        0 <= idx < nidx,
        nidx % stride == 0,
        nidx - idx <= stride,
        nidx % wl != 0,
    ensures
        nidx / wl == idx / wl,
{
    let k = nidx / wl;
    lemma_fundamental_div_mod(nidx, wl);
    vstd::arithmetic::div_mod::lemma_mod_division_less_than_divisor(nidx, wl);
    assert(k * wl <= nidx < (k + 1) * wl) by (nonlinear_arith)
        requires
            nidx == wl * k + nidx % wl,
            0 <= nidx % wl < wl,
    ;
    assert(k * wl < nidx);
    assert(k >= 0) by (nonlinear_arith)
        requires
            k * wl <= nidx,
            nidx >= 0,
            wl >= 1,
            (k + 1) * wl > nidx,
    ;
    assert(k * wl % wl == 0) by {
        assert(k * wl == wl * k + 0) by (nonlinear_arith);
        lemma_fundamental_div_mod_converse(k * wl, wl, k, 0);
    }
    assert(k * wl >= 0) by (nonlinear_arith)
        requires
            k >= 0,
            wl >= 1,
    ;
    lemma_mod_chain(k * wl, wl, stride);
    lemma_multiples_apart(k * wl, nidx, stride);
    assert(k * wl <= idx);
    lemma_fundamental_div_mod_converse(idx, wl, k, idx - k * wl);
}

/// Two distinct multiples of `d` are at least `d` apart.
proof fn lemma_multiples_apart(m1: int, m2: int, d: int)
    requires
        d >= 1,
        m1 % d == 0,
        m2 % d == 0,
        m1 < m2,
    ensures
        m1 + d <= m2,
{
    lemma_fundamental_div_mod(m1, d);
    lemma_fundamental_div_mod(m2, d);
    assert(m1 + d <= m2) by (nonlinear_arith)
        requires
            m1 == d * (m1 / d),
            m2 == d * (m2 / d),
            m1 < m2,
            d >= 1,
    ;
}

/// The block invariant: after any sequence of pushes, block `k` of any fast
/// lane bounds its slow-lane range exactly — its end is the maximum end
/// among the elements at positions `[k*width, min((k+1)*width, len))`, and
/// its start is the first of those elements' starts, a lower bound on all
/// of them by sortedness.
pub proof fn lemma_block_invariant<V, A: Aggregate<V>>(
    index: &IntervalIndex<V, A>,
    l: int,
    k: int,
)
    requires
        index.wf(),
        0 <= l < index.fast_lanes@.len(),
        0 <= k < index.fast_lanes@[l].bounds().len(),
    ensures
        index.fast_lanes@[l].bounds()[k].start == index.ivs()[k * index.fast_lanes@[l].width()].start,
        forall|i: int|
            k * index.fast_lanes@[l].width() <= i < block_hi(
                index.ivs().len() as int,
                index.fast_lanes@[l].width(),
                k,
            ) ==> (#[trigger] index.ivs()[i]).end <= index.fast_lanes@[l].bounds()[k].end,
        exists|i: int|
            k * index.fast_lanes@[l].width() <= i < block_hi(
                index.ivs().len() as int,
                index.fast_lanes@[l].width(),
                k,
            ) && (#[trigger] index.ivs()[i]).end == index.fast_lanes@[l].bounds()[k].end,
{
    let lane = index.fast_lanes@[l];
    let w = lane.width();
    let n = index.ivs().len() as int;
    let hi = block_hi(n, w, k);
    let nb = n_blocks(n, w);
    lemma_block_arith(n, w);
    lemma_fundamental_div_mod(n + w - 1, w);
    vstd::arithmetic::div_mod::lemma_mod_division_less_than_divisor(n + w - 1, w);
    assert(k * w < n) by (nonlinear_arith)
        requires
            n + w - 1 == w * nb + ((n + w - 1) % w),
            0 <= (n + w - 1) % w < w,
            k < nb,
            0 <= k,
            w >= 1,
    ;
    assert((k + 1) * w == k * w + w) by (nonlinear_arith);
    assert(k * w < hi);
    assert(k * w >= 0) by (nonlinear_arith)
        requires
            k >= 0,
            w >= 1,
    ;
    lemma_max_end_bounds(index.ivs(), k * w, hi);
    assert(lane.bounds()[k] == block_bound(index.ivs(), k * w, hi));
}

/// The traversal's consumer: one callback for a whole skipped block, one for
/// a single overlapping element. `taken()` is the visitor's abstract record
/// of the slow-lane positions it has absorbed, in increasing order; `inv` is
/// what it maintains about its own state relative to the stored contents.
pub trait QueryVisitor<V, A>: Sized where A: Aggregate<V> {
    spec fn inv(&self, ivs: Seq<Interval>, vals: Seq<V>, window: Interval) -> bool;

    spec fn taken(&self) -> Seq<int>;

    /// Absorb the whole block of `lane` that starts at slow-lane position
    /// `index`: every position of the block up to the end of the data.
    fn visit_fast_lane(
        &mut self,
        lane: &FastLane<V, A>,
        index: usize,
        ivs: Ghost<Seq<Interval>>,
        vals: Ghost<Seq<V>>,
        window: Ghost<Interval>,
    )
        requires
            old(self).inv(ivs@, vals@, window@),
            ivs@.len() == vals@.len(),
            lane.wf_for(ivs@, vals@),
            index < ivs@.len(),
            index as int % lane.width() == 0,
            old(self).taken().len() > 0 ==> old(self).taken().last() < index as int,
        ensures
            final(self).inv(ivs@, vals@, window@),
            final(self).taken() == old(self).taken() + range_seq(
                index as int,
                block_hi(ivs@.len() as int, lane.width(), index as int / lane.width()),
            ),
    ;

    /// Absorb the single element at slow-lane position `index`.
    fn visit_slow_lane(&mut self, lane: &SlowLane<V>, index: usize, window: Ghost<Interval>)
        requires
            old(self).inv(lane.ivs(), lane.vals(), window@),
            lane.wf(),
            index < lane.ivs().len(),
            old(self).taken().len() > 0 ==> old(self).taken().last() < index as int,
        ensures
            final(self).inv(lane.ivs(), lane.vals(), window@),
            final(self).taken() == old(self).taken().push(index as int),
    ;
}

/// The summary-building consumer: merges each visited block summary or
/// one-element summary into a running total.
struct AggregateVisitor<V, A> {
    output: A,
    history: Ghost<Seq<int>>,
    phantom: core::marker::PhantomData<V>,
}

impl<V, A: Aggregate<V>> QueryVisitor<V, A> for AggregateVisitor<V, A> {
    closed spec fn inv(&self, ivs: Seq<Interval>, vals: Seq<V>, window: Interval) -> bool {
        self.output == fold_idxs::<V, A>(ivs, vals, self.history@)
    }

    closed spec fn taken(&self) -> Seq<int> {
        self.history@
    }

    fn visit_fast_lane(
        &mut self,
        lane: &FastLane<V, A>,
        index: usize,
        ivs: Ghost<Seq<Interval>>,
        vals: Ghost<Seq<V>>,
        window: Ghost<Interval>,
    ) {
        let ghost n = ivs@.len() as int;
        let ghost w = lane.width();
        let lane_index = index / lane.interval;
        proof {
            lemma_block_index(n, w, index as int);
        }
        self.output.aggregate(&lane.aggregations[lane_index]);
        proof {
            let k = index as int / w;
            let hi = block_hi(n, w, k);
            let r = range_seq(index as int, hi);
            assert(k * w == index as int);
            assert(lane.aggs()[k] == fold_idxs::<V, A>(ivs@, vals@, range_seq(k * w, hi)));
            lemma_fold_concat::<V, A>(ivs@, vals@, self.history@, r);
            self.history@ = self.history@ + r;
        }
    }

    fn visit_slow_lane(&mut self, lane: &SlowLane<V>, index: usize, window: Ghost<Interval>) {
        let single = A::initial(&lane.intervals[index], &lane.values[index]);
        self.output.aggregate(&single);
        proof {
            let t = self.history@.push(index as int);
            assert(t.drop_last() =~= self.history@);
            assert(t.last() == index as int);
            self.history@ = t;
        }
    }
}

/// The flattened positions of a list of index ranges, in order.
spec fn ranges_flat(rs: Seq<(usize, usize)>) -> Seq<int>
    decreases rs.len(),
{
    if rs.len() == 0 {
        Seq::empty()
    } else {
        ranges_flat(rs.drop_last()) + range_seq(rs.last().0 as int, rs.last().1 as int)
    }
}

/// Nonempty, in-bounds ranges, strictly separated: the minimal coalesced
/// form of an increasing position sequence.
spec fn ranges_wf(rs: Seq<(usize, usize)>, n: int) -> bool {
    &&& forall|i: int| 0 <= i < rs.len() ==> (#[trigger] rs[i]).0 < rs[i].1 <= n
    &&& forall|i: int| 0 <= i < rs.len() - 1 ==> (#[trigger] rs[i]).1 < rs[i + 1].0
}

/// The range-coalescing consumer: records each visited block or element as
/// an index range, merging a new range into the last one when adjacent.
struct RangeVisitor<V, A> {
    limit: usize,
    output: Vec<(usize, usize)>,
    history: Ghost<Seq<int>>,
    phantom: core::marker::PhantomData<(V, A)>,
}

impl<V, A: Aggregate<V>> RangeVisitor<V, A> {
    /// Append the positions `[lo, hi)` to the recorded ranges, coalescing
    /// with the last range when adjacent.
    fn absorb(&mut self, lo: usize, hi: usize)
        requires
            lo < hi,
            ranges_wf(old(self).output@, old(self).limit as int),
            ranges_flat(old(self).output@) == old(self).history@,
            hi <= old(self).limit,
            old(self).history@.len() > 0 ==> old(self).history@.last() < lo as int,
            old(self).output@.len() > 0 ==> old(self).output@.last().1 as int - 1
                == old(self).history@.last(),
        ensures
            final(self).limit == old(self).limit,
            ranges_wf(final(self).output@, final(self).limit as int),
            ranges_flat(final(self).output@) == final(self).history@,
            final(self).history@ == old(self).history@ + range_seq(lo as int, hi as int),
            final(self).output@.len() > 0,
            final(self).output@.last().1 == hi,
    {
        let ghost old_rs = self.output@;
        let m = self.output.len();
        if m > 0 && self.output[m - 1].1 == lo {
            let s = self.output[m - 1].0;
            self.output[m - 1] = (s, hi);
            proof {
                assert(self.output@.drop_last() =~= old_rs.drop_last());
                assert(ranges_flat(self.output@) == ranges_flat(old_rs.drop_last()) + range_seq(
                    s as int,
                    hi as int,
                ));
                lemma_range_seq_concat(s as int, lo as int, hi as int);
                assert(ranges_flat(old_rs.drop_last()) + range_seq(s as int, hi as int)
                    =~= (ranges_flat(old_rs.drop_last()) + range_seq(s as int, lo as int))
                    + range_seq(lo as int, hi as int));
            }
        } else {
            self.output.push((lo, hi));
            proof {
                assert(self.output@.drop_last() =~= old_rs);
                if old_rs.len() > 0 {
                    assert(old_rs.last().1 != lo);
                    assert(old_rs.last().1 as int - 1 < lo as int);
                }
            }
        }
        proof {
            self.history@ = self.history@ + range_seq(lo as int, hi as int);
        }
    }
}

impl<V, A: Aggregate<V>> QueryVisitor<V, A> for RangeVisitor<V, A> {
    closed spec fn inv(&self, ivs: Seq<Interval>, vals: Seq<V>, window: Interval) -> bool {
        &&& self.limit == ivs.len()
        &&& ranges_wf(self.output@, self.limit as int)
        &&& ranges_flat(self.output@) == self.history@
        &&& self.output@.len() > 0 ==> self.history@.len() > 0 && self.output@.last().1 as int - 1
            == self.history@.last()
        &&& self.output@.len() == 0 ==> self.history@.len() == 0
    }

    closed spec fn taken(&self) -> Seq<int> {
        self.history@
    }

    fn visit_fast_lane(
        &mut self,
        lane: &FastLane<V, A>,
        index: usize,
        ivs: Ghost<Seq<Interval>>,
        vals: Ghost<Seq<V>>,
        window: Ghost<Interval>,
    ) {
        let ghost n = ivs@.len() as int;
        let ghost w = lane.width();
        proof {
            lemma_block_index(n, w, index as int);
        }
        let width = lane.interval;
        let end = if width >= self.limit - index {
            self.limit
        } else {
            index + width
        };
        proof {
            let k = index as int / w;
            assert(k * w == index as int);
            assert((k + 1) * w == k * w + w) by (nonlinear_arith);
            assert(end as int == block_hi(n, w, k));
        }
        self.absorb(index, end);
    }

    fn visit_slow_lane(&mut self, lane: &SlowLane<V>, index: usize, window: Ghost<Interval>) {
        self.absorb(index, index + 1);
        proof {
            assert(self.history@ =~= old(self).history@.push(index as int));
        }
    }
}

/// The multi-level index: a fixed, coarsest-first stack of fast lanes over
/// the slow lane. Lane `l` of `max_lanes` has block width
/// `base_size^(max_lanes - l)`.
pub struct IntervalIndex<V, A> {
    /// The fan-out factor between adjacent lanes.
    pub base_size: usize,
    /// The fixed number of fast lanes, chosen at construction.
    pub max_lanes: usize,
    /// The lane stack, coarsest (widest blocks) first.
    pub fast_lanes: Vec<FastLane<V, A>>,
    /// The ground-truth storage.
    pub slow_lane: SlowLane<V>,
}

impl<V, A: Aggregate<V>> IntervalIndex<V, A> {
    pub open spec fn ivs(&self) -> Seq<Interval> {
        self.slow_lane.ivs()
    }

    pub open spec fn vals(&self) -> Seq<V> {
        self.slow_lane.vals()
    }

    /// The slow lane is sorted and well-formed, there are exactly
    /// `max_lanes` lanes with geometrically decreasing widths, and every
    /// lane is a faithful compression of the slow lane.
    pub open spec fn wf(&self) -> bool {
        &&& self.base_size >= 1
        &&& self.fast_lanes@.len() == self.max_lanes
        &&& pow(self.base_size as int, self.max_lanes as nat) <= usize::MAX as int
        &&& self.slow_lane.wf()
        &&& forall|l: int|
            0 <= l < self.max_lanes ==> (#[trigger] self.fast_lanes@[l]).width() == pow(
                self.base_size as int,
                (self.max_lanes - l) as nat,
            )
        &&& forall|l: int|
            0 <= l < self.max_lanes ==> (#[trigger] self.fast_lanes@[l]).wf_for(
                self.ivs(),
                self.vals(),
            )
    }

    /// An empty index with `max_lanes` lanes of widths
    /// `base_size^max_lanes, ..., base_size^1`, coarsest first.
    pub fn new(max_lanes: usize, base_size: usize) -> (r: Self)
        requires
            base_size >= 1,
            pow(base_size as int, max_lanes as nat) <= usize::MAX as int,
        ensures
            r.wf(),
            r.ivs().len() == 0,
            r.vals().len() == 0,
            r.base_size == base_size,
            r.max_lanes == max_lanes,
    {
        let mut widths: Vec<usize> = Vec::new();
        let mut i: usize = 0;
        let mut w: usize = 1;
        proof {
            vstd::arithmetic::power::lemma_pow0(base_size as int);
        }
        while i < max_lanes
            invariant
                base_size >= 1,
                i <= max_lanes,
                pow(base_size as int, max_lanes as nat) <= usize::MAX as int,
                w as int == pow(base_size as int, i as nat),
                widths@.len() == i,
                forall|j: int|
                    0 <= j < i ==> #[trigger] widths@[j] as int == pow(
                        base_size as int,
                        (j + 1) as nat,
                    ),
            decreases max_lanes - i,
        {
            proof {
                lemma_pow_adds(base_size as int, i as nat, 1nat);
                vstd::arithmetic::power::lemma_pow1(base_size as int);
                lemma_pow_increases(base_size as nat, (i + 1) as nat, max_lanes as nat);
            }
            let next = w * base_size;
            widths.push(next);
            w = next;
            i += 1;
        }
        let mut fast_lanes: Vec<FastLane<V, A>> = Vec::new();
        let mut l: usize = 0;
        while l < max_lanes
            invariant
                base_size >= 1,
                l <= max_lanes,
                widths@.len() == max_lanes,
                forall|j: int|
                    0 <= j < max_lanes ==> #[trigger] widths@[j] as int == pow(
                        base_size as int,
                        (j + 1) as nat,
                    ),
                fast_lanes@.len() == l,
                forall|m: int|
                    0 <= m < l ==> (#[trigger] fast_lanes@[m]).width() == pow(
                        base_size as int,
                        (max_lanes - m) as nat,
                    ),
                forall|m: int|
                    0 <= m < l ==> (#[trigger] fast_lanes@[m]).bounds().len() == 0
                        && fast_lanes@[m].aggs().len() == 0,
            decreases max_lanes - l,
        {
            let width = widths[max_lanes - 1 - l];
            proof {
                lemma_pow_positive(base_size as int, (max_lanes - l) as nat);
            }
            fast_lanes.push(FastLane::new(width));
            l += 1;
        }
        let r = IntervalIndex { base_size, max_lanes, fast_lanes, slow_lane: SlowLane::new() };
        proof {
            assert forall|l2: int| 0 <= l2 < max_lanes implies (#[trigger] r.fast_lanes@[l2])
                .wf_for(r.ivs(), r.vals()) by {
                let lane = r.fast_lanes@[l2];
                lemma_pow_positive(base_size as int, (max_lanes - l2) as nat);
                assert(n_blocks(0, lane.width()) == 0) by {
                    vstd::arithmetic::div_mod::lemma_basic_div(lane.width() - 1, lane.width());
                }
            }
        }
        r
    }

    /// Append a pair: seed or extend the current block of every fast lane,
    /// then append to the slow lane. Cost is one operation per lane,
    /// independent of how much is stored.
    pub fn push(&mut self, interval: Interval, value: V)
        requires
            old(self).wf(),
            interval.wf(),
            old(self).ivs().len() > 0 ==> old(self).ivs().last().start <= interval.start,
        ensures
            final(self).wf(),
            final(self).ivs() == old(self).ivs().push(interval),
            final(self).vals() == old(self).vals().push(value),
            final(self).base_size == old(self).base_size,
            final(self).max_lanes == old(self).max_lanes,
    {
        let ghost ivs0 = self.ivs();
        let ghost vals0 = self.vals();
        let index = self.slow_lane.len();
        let n_lanes = self.fast_lanes.len();
        let mut l: usize = 0;
        while l < n_lanes
            invariant
                old(self).wf(),
                interval.wf(),
                ivs0 == old(self).ivs(),
                vals0 == old(self).vals(),
                index == ivs0.len(),
                self.slow_lane == old(self).slow_lane,
                self.base_size == old(self).base_size,
                self.max_lanes == old(self).max_lanes,
                n_lanes == self.fast_lanes@.len(),
                self.fast_lanes@.len() == old(self).fast_lanes@.len(),
                l <= n_lanes,
                forall|m: int|
                    0 <= m < self.fast_lanes@.len() ==> (#[trigger] self.fast_lanes@[m]).width()
                        == old(self).fast_lanes@[m].width(),
                forall|m: int|
                    l <= m < self.fast_lanes@.len() ==> #[trigger] self.fast_lanes@[m] == old(
                        self,
                    ).fast_lanes@[m],
                forall|m: int|
                    0 <= m < l ==> (#[trigger] self.fast_lanes@[m]).wf_for(
                        ivs0.push(interval),
                        vals0.push(value),
                    ),
            decreases n_lanes - l,
        {
            let ghost old_lane = self.fast_lanes@[l as int];
            let lane_width = self.fast_lanes[l].interval;
            proof {
                assert(old_lane.wf_for(ivs0, vals0));
                assert(lane_width as int == old_lane.width());
            }
            let aggregate = A::initial(&interval, &value);
            if index % lane_width == 0 {
                self.fast_lanes[l].push(interval, aggregate);
                proof {
                    lemma_lane_new_block::<V, A>(
                        old_lane,
                        self.fast_lanes@[l as int],
                        ivs0,
                        vals0,
                        interval,
                        value,
                    );
                }
            } else {
                proof {
                    lemma_block_arith(index as int, lane_width as int);
                }
                self.fast_lanes[l].update(index / lane_width, interval, aggregate);
                proof {
                    lemma_lane_extend_block::<V, A>(
                        old_lane,
                        self.fast_lanes@[l as int],
                        ivs0,
                        vals0,
                        interval,
                        value,
                    );
                }
            }
            l += 1;
        }
        self.slow_lane.push(interval, value);
    }

    /// Phase 1 of the search: descend the lanes, coarsest to finest,
    /// skipping blocks whose bounding interval misses the window, and
    /// rescale the skip count by the fan-out at each step. Everything
    /// strictly before the returned slow-lane position misses the window.
    fn first_fastlane_overlap(&self, window: Interval) -> (r: usize)
        requires
            self.wf(),
        ensures
            r <= self.ivs().len(),
            forall|i: int| 0 <= i < r ==> !spec_overlaps(#[trigger] self.ivs()[i], window),
    {
        let ghost ivs = self.ivs();
        let length = self.slow_lane.len();
        let mut offset: usize = 0;
        let mut l: usize = 0;
        while l < self.fast_lanes.len()
            invariant
                self.wf(),
                ivs == self.ivs(),
                length == ivs.len(),
                l <= self.fast_lanes@.len(),
                offset <= length,
                l < self.fast_lanes@.len() ==> forall|i: int|
                    0 <= i < offset * self.fast_lanes@[l as int].width() && i < length
                        ==> !spec_overlaps(#[trigger] ivs[i], window),
                l == self.fast_lanes@.len() ==> forall|i: int|
                    0 <= i < offset ==> !spec_overlaps(#[trigger] ivs[i], window),
            decreases self.fast_lanes@.len() - l,
        {
            let ghost lane = self.fast_lanes@[l as int];
            let ghost w = lane.width();
            let nblocks = self.fast_lanes[l].len();
            let lane_width = self.fast_lanes[l].interval;
            proof {
                assert(lane_width as int == w);
                lemma_block_arith(length as int, w);
            }
            let mut j = offset;
            let mut hit = false;
            while j < nblocks && !hit
                invariant
                    self.wf(),
                    ivs == self.ivs(),
                    length == ivs.len(),
                    l < self.fast_lanes@.len(),
                    lane == self.fast_lanes@[l as int],
                    w == lane.width(),
                    nblocks == lane.bounds().len(),
                    offset <= j <= length,
                    j <= nblocks || j == offset,
                    forall|i: int|
                        0 <= i < offset * w && i < length ==> !spec_overlaps(
                            #[trigger] ivs[i],
                            window,
                        ),
                    forall|k: int|
                        offset <= k < j ==> !spec_overlaps(
                            #[trigger] lane.bounds()[k],
                            window,
                        ),
                    hit ==> j < nblocks && spec_overlaps(lane.bounds()[j as int], window),
                decreases nblocks - j + (if hit { 0int } else { 1int }),
            {
                if self.fast_lanes[l].intervals[j].overlaps(window) {
                    hit = true;
                } else {
                    proof {
                        lemma_block_arith(length as int, w);
                        assert(nblocks <= length);
                    }
                    j += 1;
                }
            }
            proof {
                lemma_block_arith(length as int, w);
                // blocks [offset, j) hold no overlapping element
                assert forall|i: int| 0 <= i < j * w && i < length implies !spec_overlaps(
                    #[trigger] ivs[i],
                    window,
                ) by {
                    if i >= offset * w {
                        let k = i / w;
                        lemma_fundamental_div_mod(i, w);
                        vstd::arithmetic::div_mod::lemma_mod_division_less_than_divisor(i, w);
                        assert(k * w <= i < (k + 1) * w) by (nonlinear_arith)
                            requires
                                i == w * k + i % w,
                                0 <= i % w < w,
                        ;
                        assert(offset <= k < j) by (nonlinear_arith)
                            requires
                                k * w <= i < j * w,
                                offset * w <= i,
                                (k + 1) * w > i,
                                w >= 1,
                        ;
                        assert(k < nblocks);
                        let lo = k * w;
                        let hi = block_hi(length as int, w, k);
                        assert(lane.bounds()[k] == block_bound(ivs, lo, hi));
                        assert(lo < hi) by {
                            assert((k + 1) * w == k * w + w) by (nonlinear_arith);
                            assert(k * w < length) by (nonlinear_arith)
                                requires
                                    k < nblocks,
                                    nblocks * w >= length,
                                    k * w <= i < length,
                            ;
                        }
                        lemma_block_not_overlapping(ivs, window, lo, hi);
                        assert(lo <= i < hi) by {
                            assert((k + 1) * w == k * w + w) by (nonlinear_arith);
                        }
                    }
                }
            }
            // rescale the skip count for the next, finer lane
            let q_len = length / self.base_size;
            let mut next_offset: usize = length;
            if j <= q_len {
                proof {
                    let base = self.base_size as int;
                    lemma_fundamental_div_mod(length as int, base);
                    vstd::arithmetic::div_mod::lemma_mod_division_less_than_divisor(
                        length as int,
                        base,
                    );
                    assert(j * base <= length) by (nonlinear_arith)
                        requires
                            j <= length as int / base,
                            length as int == base * (length as int / base) + length as int % base,
                            0 <= length as int % base,
                            base >= 1,
                    ;
                }
                next_offset = j * self.base_size;
            }
            proof {
                let base = self.base_size as int;
                let ghost next_unit: int = if l + 1 < self.fast_lanes@.len() {
                    self.fast_lanes@[l as int + 1].width()
                } else {
                    1
                };
                // this lane's width is the next unit scaled by the fan-out
                assert(w == base * next_unit) by {
                    if l + 1 < self.fast_lanes@.len() {
                        lemma_pow_adds(
                            base,
                            1nat,
                            (self.max_lanes - l - 1) as nat,
                        );
                        vstd::arithmetic::power::lemma_pow1(base);
                    } else {
                        assert(w == pow(base, 1nat));
                        vstd::arithmetic::power::lemma_pow1(base);
                    }
                }
                if j > q_len {
                    // j * base already reaches past the end: everything misses
                    lemma_fundamental_div_mod(length as int, base);
                    vstd::arithmetic::div_mod::lemma_mod_division_less_than_divisor(
                        length as int,
                        base,
                    );
                    assert(j * base >= length) by (nonlinear_arith)
                        requires
                            j >= length as int / base + 1,
                            length as int == base * (length as int / base) + length as int % base,
                            0 <= length as int % base < base,
                            base >= 1,
                    ;
                    assert forall|i: int|
                        0 <= i < next_offset * next_unit && i < length implies !spec_overlaps(
                        #[trigger] ivs[i],
                        window,
                    ) by {
                        assert(j * w >= length) by (nonlinear_arith)
                            requires
                                j * base >= length,
                                w == base * next_unit,
                                next_unit >= 1,
                                length >= 0,
                        ;
                    }
                } else {
                    assert(next_offset * next_unit == j * w) by (nonlinear_arith)
                        requires
                            next_offset == j * base,
                            w == base * next_unit,
                    ;
                }
                if l + 1 == self.fast_lanes@.len() {
                    assert(next_unit == 1);
                    assert forall|i: int| 0 <= i < next_offset implies !spec_overlaps(
                        #[trigger] ivs[i],
                        window,
                    ) by {
                        assert(i < next_offset * 1 || next_offset > length);
                    }
                }
            }
            offset = next_offset;
            l += 1;
        }
        offset
    }

    /// Phase 2: from the phase-1 position, linearly scan the slow lane to
    /// the exact first overlapping element. If nothing overlaps anywhere,
    /// the phase-1 position is returned unchanged; the traversal absorbs
    /// that as "nothing to visit".
    fn first_overlap(&self, window: Interval) -> (r: usize)
        requires
            self.wf(),
        ensures
            r <= self.ivs().len(),
            forall|i: int| 0 <= i < r ==> !spec_overlaps(#[trigger] self.ivs()[i], window),
            (exists|i: int|
                0 <= i < self.ivs().len() && spec_overlaps(#[trigger] self.ivs()[i], window))
                ==> r < self.ivs().len() && spec_overlaps(self.ivs()[r as int], window),
    {
        let ghost ivs = self.ivs();
        let index = self.first_fastlane_overlap(window);
        let length = self.slow_lane.len();
        let mut j = index;
        let mut hit = false;
        while j < length && !hit
            invariant
                self.wf(),
                ivs == self.ivs(),
                length == ivs.len(),
                index <= j <= length,
                forall|i: int| 0 <= i < j ==> !spec_overlaps(#[trigger] ivs[i], window),
                hit ==> j < length && spec_overlaps(ivs[j as int], window),
            decreases length - j + (if hit { 0int } else { 1int }),
        {
            if self.slow_lane.intervals[j].overlaps(window) {
                hit = true;
            } else {
                j += 1;
            }
        }
        if hit {
            j
        } else {
            index
        }
    }

    /// No lane's block is both cut mid-way by position `idx` and fully
    /// contained in the window. The traversal preserves this, so a skip
    /// always consumes a block from its first position and never revisits
    /// elements already handed to the visitor.
    spec fn open_blocks_unclaimed(&self, window: Interval, idx: int) -> bool {
        forall|l: int|
            0 <= l < self.fast_lanes@.len() ==> (idx % (#[trigger] self.fast_lanes@[l]).width()
                != 0 ==> !spec_contains(
                window,
                self.fast_lanes@[l].bounds()[idx / self.fast_lanes@[l].width()],
            ))
    }

    /// When nothing before `idx` overlaps the window, a block cut mid-way by
    /// `idx` cannot be contained in it: its first element lies before `idx`.
    proof fn lemma_alignment_initial(&self, window: Interval, idx: int)
        requires
            self.wf(),
            0 <= idx < self.ivs().len(),
            forall|i: int| 0 <= i < idx ==> !spec_overlaps(#[trigger] self.ivs()[i], window),
        ensures
            self.open_blocks_unclaimed(window, idx),
    {
        let ivs = self.ivs();
        let n = ivs.len() as int;
        assert forall|l: int|
            0 <= l < self.fast_lanes@.len() && idx % (self.fast_lanes@[l]).width() != 0 implies
            !spec_contains(
            window,
            (#[trigger] self.fast_lanes@[l]).bounds()[idx / self.fast_lanes@[l].width()],
        ) by {
            let lane = self.fast_lanes@[l];
            let wl = lane.width();
            lemma_block_index(n, wl, idx);
            let k = idx / wl;
            let hi = block_hi(n, wl, k);
            assert(k * wl < idx) by {
                lemma_fundamental_div_mod(idx, wl);
            }
            assert(k * wl < hi <= n);
            if spec_contains(window, lane.bounds()[k]) {
                lemma_block_contained(ivs, window, k * wl, hi);
                assert(spec_overlaps(ivs[k * wl], window));
                assert(false);
            }
        }
    }

    /// After skipping the aligned, contained block of lane `l`, the new
    /// position cuts no contained block mid-way: finer lanes stay aligned,
    /// and any coarser lane's block is the one already found uncontained.
    proof fn lemma_alignment_after_step(&self, window: Interval, idx: int, nidx: int, l: int)
        requires
            self.wf(),
            0 <= l < self.fast_lanes@.len(),
            0 <= idx < nidx < self.ivs().len(),
            idx % self.fast_lanes@[l as int].width() == 0,
            nidx == idx + self.fast_lanes@[l as int].width(),
            forall|ll: int|
                0 <= ll < l ==> !spec_contains(
                    window,
                    (#[trigger] self.fast_lanes@[ll]).bounds()[idx / self.fast_lanes@[ll].width()],
                ),
        ensures
            self.open_blocks_unclaimed(window, nidx),
    {
        let base = self.base_size as int;
        let ghost cnt = self.fast_lanes@.len() as int;
        let w = self.fast_lanes@[l].width();
        assert(nidx % w == 0) by {
            lemma_fundamental_div_mod(idx, w);
            assert(w * (idx / w + 1) + 0 == nidx) by (nonlinear_arith)
                requires
                    idx == w * (idx / w) + idx % w,
                    idx % w == 0,
                    nidx == idx + w,
            ;
            lemma_fundamental_div_mod_converse(nidx, w, idx / w + 1, 0);
        }
        assert forall|ll: int|
            0 <= ll < cnt && nidx % (self.fast_lanes@[ll]).width() != 0 implies !spec_contains(
            window,
            (#[trigger] self.fast_lanes@[ll]).bounds()[nidx / self.fast_lanes@[ll].width()],
        ) by {
            let lane = self.fast_lanes@[ll];
            let wl = lane.width();
            if ll >= l {
                // wl divides w, so the new position is still aligned to wl
                lemma_pow_divides(base, (self.max_lanes - ll) as nat, (self.max_lanes - l) as nat);
                assert(w % wl == 0);
                lemma_mod_chain(idx, w, wl);
                lemma_mod_sum_multiples(idx, w, wl);
                assert(nidx % wl == 0);
                assert(false);
            } else {
                // a coarser lane: the same block as at the old position
                lemma_pow_divides(base, (self.max_lanes - l) as nat, (self.max_lanes - ll) as nat);
                assert(wl % w == 0);
                lemma_same_block(idx, nidx, wl, w);
            }
        }
    }

    /// After an element scan to the next fan-out boundary, the new position
    /// cuts no contained block mid-way: every lane's width is a multiple of
    /// the fan-out, so any mid-cut block is the one already found
    /// uncontained before the scan.
    proof fn lemma_alignment_after_scan(&self, window: Interval, idx: int, nidx: int)
        requires
            self.wf(),
            0 <= idx < nidx < self.ivs().len(),
            nidx % self.base_size as int == 0,
            nidx - idx <= self.base_size as int,
            forall|ll: int|
                0 <= ll < self.fast_lanes@.len() ==> !spec_contains(
                    window,
                    (#[trigger] self.fast_lanes@[ll]).bounds()[idx / self.fast_lanes@[ll].width()],
                ),
        ensures
            self.open_blocks_unclaimed(window, nidx),
    {
        let base = self.base_size as int;
        let ghost cnt = self.fast_lanes@.len() as int;
        assert forall|ll: int|
            0 <= ll < cnt && nidx % (self.fast_lanes@[ll]).width() != 0 implies !spec_contains(
            window,
            (#[trigger] self.fast_lanes@[ll]).bounds()[nidx / self.fast_lanes@[ll].width()],
        ) by {
            let lane = self.fast_lanes@[ll];
            let wl = lane.width();
            lemma_pow_divides(base, 1nat, (self.max_lanes - ll) as nat);
            vstd::arithmetic::power::lemma_pow1(base);
            assert(wl % base == 0);
            lemma_same_block(idx, nidx, wl, base);
        }
    }

    /// The shared traversal: from the first possible overlap, repeatedly
    /// skip a whole fast-lane block when its bounding interval is fully
    /// contained in the window, else scan elements up to the next fan-out
    /// boundary, stopping as soon as an element starts past the window. The
    /// visitor ends up having absorbed exactly the overlapping positions,
    /// in increasing order.
    pub fn query_with<Q: QueryVisitor<V, A>>(&self, window: Interval, visitor: &mut Q)
        requires
            self.wf(),
            old(visitor).inv(self.ivs(), self.vals(), window),
            old(visitor).taken() == Seq::<int>::empty(),
        ensures
            final(visitor).inv(self.ivs(), self.vals(), window),
            final(visitor).taken() == overlap_indices(self.ivs(), window),
    {
        let ghost ivs = self.ivs();
        let ghost vals = self.vals();
        let length = self.slow_lane.len();
        let mut index = self.first_overlap(window);
        let mut done = false;
        proof {
            lemma_olap_in_empty(ivs, window, 0, index as int);
            if index < length {
                self.lemma_alignment_initial(window, index as int);
            }
        }
        while index < length && !done
            invariant
                self.wf(),
                ivs == self.ivs(),
                vals == self.vals(),
                length == ivs.len(),
                index <= length,
                visitor.inv(ivs, vals, window),
                !done ==> visitor.taken() == olap_in(ivs, window, 0, index as int),
                !done && index < length ==> self.open_blocks_unclaimed(window, index as int),
                done ==> visitor.taken() == overlap_indices(ivs, window),
            decreases (if done { 0int } else { 1int }), length - index,
        {
            let n_lanes = self.fast_lanes.len();
            let mut l: usize = 0;
            let mut found = false;
            while l < n_lanes && !found
                invariant
                    self.wf(),
                    ivs == self.ivs(),
                    length == ivs.len(),
                    index < length,
                    n_lanes == self.fast_lanes@.len(),
                    l <= n_lanes,
                    !found ==> forall|ll: int|
                        0 <= ll < l ==> !spec_contains(
                            window,
                            (#[trigger] self.fast_lanes@[ll]).bounds()[index as int
                                / self.fast_lanes@[ll].width()],
                        ),
                    found ==> l < n_lanes && spec_contains(
                        window,
                        self.fast_lanes@[l as int].bounds()[index as int
                            / self.fast_lanes@[l as int].width()],
                    ) && forall|ll: int|
                        0 <= ll < l ==> !spec_contains(
                            window,
                            (#[trigger] self.fast_lanes@[ll]).bounds()[index as int
                                / self.fast_lanes@[ll].width()],
                        ),
                decreases n_lanes - l + (if found { 0int } else { 1int }),
            {
                proof {
                    lemma_block_index(
                        length as int,
                        self.fast_lanes@[l as int].width(),
                        index as int,
                    );
                }
                let lane_width = self.fast_lanes[l].interval;
                let k = index / lane_width;
                if window.contains(self.fast_lanes[l].intervals[k]) {
                    found = true;
                } else {
                    l += 1;
                }
            }
            if found {
                let ghost lane = self.fast_lanes@[l as int];
                let ghost w = lane.width();
                let ghost k = index as int / w;
                let ghost hi = block_hi(length as int, w, k);
                proof {
                    lemma_block_index(length as int, w, index as int);
                    // the contained block starts exactly at the current position
                    assert(index as int % w == 0);
                    assert(k * w == index as int);
                    assert((k + 1) * w == k * w + w) by (nonlinear_arith);
                    assert(index < hi <= length);
                    assert(lane.bounds()[k] == block_bound(ivs, k * w, hi));
                    lemma_block_contained(ivs, window, k * w, hi);
                    lemma_olap_in_props(ivs, window, 0, index as int);
                }
                let lane_ref = &self.fast_lanes[l];
                visitor.visit_fast_lane(lane_ref, index, Ghost(ivs), Ghost(vals), Ghost(window));
                let width = lane_ref.interval;
                let advance = if width >= length - index {
                    length - index
                } else {
                    width
                };
                let ghost old_index = index as int;
                index = index + advance;
                proof {
                    assert(index as int == hi);
                    lemma_olap_in_concat(ivs, window, 0, old_index, hi);
                    lemma_olap_in_full(ivs, window, old_index, hi);
                    assert(visitor.taken() == olap_in(ivs, window, 0, index as int));
                    if index < length {
                        assert(index as int == old_index + w);
                        self.lemma_alignment_after_step(window, old_index, index as int, l as int);
                    }
                }
            } else {
                let stride = self.base_size;
                let rem = stride - (index % stride);
                let end = if rem >= length - index {
                    length
                } else {
                    index + rem
                };
                let ghost start_j = index as int;
                let mut j = index;
                while j < end && !done
                    invariant
                        self.wf(),
                        ivs == self.ivs(),
                        vals == self.vals(),
                        length == ivs.len(),
                        start_j <= j as int,
                        j <= end,
                        end <= length,
                        visitor.inv(ivs, vals, window),
                        !done ==> visitor.taken() == olap_in(ivs, window, 0, j as int),
                        done ==> visitor.taken() == overlap_indices(ivs, window),
                    decreases (if done { 0int } else { 1int }), end - j,
                {
                    let iv = self.slow_lane.intervals[j];
                    if iv.start > window.end {
                        proof {
                            lemma_sorted_cutoff(ivs, window, j as int);
                            lemma_olap_in_concat(ivs, window, 0, j as int, length as int);
                            lemma_olap_in_empty(ivs, window, j as int, length as int);
                            assert(overlap_indices(ivs, window) =~= olap_in(
                                ivs,
                                window,
                                0,
                                j as int,
                            ));
                        }
                        done = true;
                    } else {
                        if iv.overlaps(window) {
                            proof {
                                lemma_olap_in_props(ivs, window, 0, j as int);
                            }
                            visitor.visit_slow_lane(&self.slow_lane, j, Ghost(window));
                            proof {
                                assert(olap_in(ivs, window, 0, j + 1) == olap_in(
                                    ivs,
                                    window,
                                    0,
                                    j as int,
                                ).push(j as int));
                            }
                        }
                        j += 1;
                    }
                }
                let ghost old_index = index as int;
                index = end;
                proof {
                    if !done {
                        assert(j == end);
                        if index < length {
                            assert(end as int == old_index + rem);
                            assert(end as int % stride as int == 0) by {
                                let st = stride as int;
                                lemma_fundamental_div_mod(old_index, st);
                                assert(st * (old_index / st + 1) + 0 == end as int)
                                    by (nonlinear_arith)
                                    requires
                                        old_index == st * (old_index / st) + old_index % st,
                                        end as int == old_index + (st - old_index % st),
                                ;
                                lemma_fundamental_div_mod_converse(
                                    end as int,
                                    st,
                                    old_index / st + 1,
                                    0,
                                );
                            }
                            self.lemma_alignment_after_scan(window, old_index, end as int);
                        }
                    }
                }
            }
        }
        proof {
            if !done {
                assert(index == length);
            }
        }
    }

    /// The summary over all values whose interval overlaps the window,
    /// combining precomputed block summaries with one-element summaries.
    pub fn aggregate(&self, window: Interval) -> (r: A)
        requires
            self.wf(),
        ensures
            r == aggregate_model::<V, A>(self.ivs(), self.vals(), window),
    {
        let mut visitor = AggregateVisitor {
            output: A::empty(),
            history: Ghost(Seq::empty()),
            phantom: core::marker::PhantomData,
        };
        self.query_with(window, &mut visitor);
        visitor.output
    }

    /// All stored values whose interval overlaps the window, as borrowed
    /// slices of contiguous slow-lane runs, in insertion order.
    pub fn query(&self, window: Interval) -> (r: Vec<&[V]>)
        requires
            self.wf(),
        ensures
            r@.map_values(|s: &[V]| s@).flatten() == query_model(
                self.ivs(),
                self.vals(),
                window,
            ),
            forall|i: int| 0 <= i < r@.len() ==> (#[trigger] r@[i])@.len() > 0,
    {
        let ghost ivs = self.ivs();
        let ghost vals = self.vals();
        let mut visitor = RangeVisitor::<V, A> {
            limit: self.slow_lane.len(),
            output: Vec::new(),
            history: Ghost(Seq::empty()),
            phantom: core::marker::PhantomData,
        };
        self.query_with(window, &mut visitor);
        let ghost ranges = visitor.output@;
        let mut out: Vec<&[V]> = Vec::new();
        let mut i: usize = 0;
        while i < visitor.output.len()
            invariant
                self.wf(),
                ivs == self.ivs(),
                vals == self.vals(),
                ranges == visitor.output@,
                ranges_wf(ranges, vals.len() as int),
                i <= ranges.len(),
                out@.map_values(|s: &[V]| s@).flatten() == vals_of(
                    vals,
                    ranges_flat(ranges.take(i as int)),
                ),
                forall|m: int| 0 <= m < out@.len() ==> (#[trigger] out@[m])@.len() > 0,
            decreases ranges.len() - i,
        {
            let ghost prev = out@;
            let (s, e) = visitor.output[i];
            let slice = vstd::slice::slice_subrange(self.slow_lane.values.as_slice(), s, e);
            out.push(slice);
            i += 1;
            proof {
                assert(out@.drop_last() =~= prev);
                let f = |sl: &[V]| sl@;
                assert(out@.map_values(f) =~= prev.map_values(f).push(slice@));
                prev.map_values(f).lemma_flatten_push(slice@);
                assert(ranges.take(i as int).drop_last() =~= ranges.take(i as int - 1));
                assert(ranges.take(i as int).last() == ranges[i as int - 1]);
                assert(ranges_flat(ranges.take(i as int)) == ranges_flat(
                    ranges.take(i as int - 1),
                ) + range_seq(s as int, e as int));
                crate::interval::lemma_vals_of_concat(
                    vals,
                    ranges_flat(ranges.take(i as int - 1)),
                    range_seq(s as int, e as int),
                );
                crate::interval::lemma_subrange_vals(vals, s as int, e as int);
            }
        }
        proof {
            assert(ranges.take(ranges.len() as int) =~= ranges);
        }
        out
    }
}

} // verus!
