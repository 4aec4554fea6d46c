use interval_experiments::{
    Aggregate, BaselineIntervalIndex, DefaultStatistics, Interval, IntervalIndex,
};

type Index = IntervalIndex<u64, DefaultStatistics>;
type BaselineIndex = BaselineIntervalIndex<u64, DefaultStatistics>;

fn flatten(groups: Vec<&[u64]>) -> Vec<u64> {
    let mut out = Vec::new();
    for group in groups {
        for v in group {
            out.push(*v);
        }
    }
    out
}

#[test]
fn test_empty_index_query() {
    let index = Index::new(2, 4);
    let window = Interval::new(0, 1_000_000);
    assert_eq!(flatten(index.query(window)), Vec::<u64>::new());
    let agg = index.aggregate(window);
    assert_eq!(agg.count, 0);
    assert_eq!(agg.total_duration, 0);
    assert_eq!(agg.max, 0);
    assert_eq!(agg.min, u64::MAX);
}

#[test]
fn test_window_outside_all_data() {
    let mut index = Index::new(2, 2);
    index.push(Interval::new(0, 4), 1);
    index.push(Interval::new(10, 14), 2);
    let window = Interval::new(100, 200);
    assert_eq!(flatten(index.query(window)), Vec::<u64>::new());
    assert_eq!(index.aggregate(window).count, 0);
}

#[test]
fn test_boundary_window() {
    let mut index = Index::new(1, 2);
    index.push(Interval::new(0, 4), 1);
    index.push(Interval::new(10, 20), 2);
    index.push(Interval::new(30, 40), 3);

    // a window exactly equal to one stored interval returns that one item
    assert_eq!(flatten(index.query(Interval::new(10, 20))), vec![2]);
    assert_eq!(index.aggregate(Interval::new(10, 20)).count, 1);

    // touching only at a shared endpoint still counts as overlap
    assert_eq!(flatten(index.query(Interval::new(5, 10))), vec![2]);
    assert_eq!(flatten(index.query(Interval::new(20, 29))), vec![2]);
}

#[test]
fn test_concrete_scenario() {
    let mut index = Index::new(1, 2);
    index.push(Interval::new(0, 10), 1);
    index.push(Interval::new(5, 6), 2);
    index.push(Interval::new(20, 30), 3);

    let hits = flatten(index.query(Interval::new(4, 7)));
    assert_eq!(hits, vec![1, 2]);
    assert_eq!(index.aggregate(Interval::new(4, 7)).count, 2);

    let misses = flatten(index.query(Interval::new(15, 19)));
    assert_eq!(misses, Vec::<u64>::new());
    assert_eq!(index.aggregate(Interval::new(15, 19)).count, 0);
}

#[test]
fn test_statistics_initial_exact() {
    let stats: DefaultStatistics =
        <DefaultStatistics as Aggregate<u64>>::initial(&Interval::new(3, 10), &42);
    assert_eq!(stats.min, 7);
    assert_eq!(stats.max, 7);
    assert_eq!(stats.total_duration, 7);
    assert_eq!(stats.count, 1);
}

#[test]
fn test_statistics_merge_exact() {
    let mut a: DefaultStatistics =
        <DefaultStatistics as Aggregate<u64>>::initial(&Interval::new(0, 3), &1);
    let b: DefaultStatistics =
        <DefaultStatistics as Aggregate<u64>>::initial(&Interval::new(10, 18), &2);
    Aggregate::<u64>::aggregate(&mut a, &b);
    assert_eq!(a.min, 3);
    assert_eq!(a.max, 8);
    assert_eq!(a.total_duration, 11);
    assert_eq!(a.count, 2);
}

#[test]
fn test_merge_neutrality() {
    let single: DefaultStatistics =
        <DefaultStatistics as Aggregate<u64>>::initial(&Interval::new(2, 9), &7);
    let empty: DefaultStatistics = <DefaultStatistics as Aggregate<u64>>::empty();

    let mut left = empty;
    Aggregate::<u64>::aggregate(&mut left, &single);
    assert_eq!(left, single);

    let mut right = single;
    Aggregate::<u64>::aggregate(&mut right, &empty);
    assert_eq!(right, single);
}

#[test]
fn test_merge_groupings_agree() {
    let a: DefaultStatistics =
        <DefaultStatistics as Aggregate<u64>>::initial(&Interval::new(0, 5), &1);
    let b: DefaultStatistics =
        <DefaultStatistics as Aggregate<u64>>::initial(&Interval::new(3, 4), &2);
    let c: DefaultStatistics =
        <DefaultStatistics as Aggregate<u64>>::initial(&Interval::new(7, 20), &3);

    let mut ab_c = a;
    Aggregate::<u64>::aggregate(&mut ab_c, &b);
    Aggregate::<u64>::aggregate(&mut ab_c, &c);

    let mut bc = b;
    Aggregate::<u64>::aggregate(&mut bc, &c);
    let mut a_bc = a;
    Aggregate::<u64>::aggregate(&mut a_bc, &bc);

    let mut cb_a = c;
    Aggregate::<u64>::aggregate(&mut cb_a, &b);
    Aggregate::<u64>::aggregate(&mut cb_a, &a);

    let mut ba_c = b;
    Aggregate::<u64>::aggregate(&mut ba_c, &a);
    Aggregate::<u64>::aggregate(&mut ba_c, &c);

    assert_eq!(ab_c, a_bc);
    assert_eq!(ab_c, cb_a);
    assert_eq!(ab_c, ba_c);
}

#[test]
fn test_matches_oracle_small() {
    let mut index = Index::new(2, 2);
    let mut baseline = BaselineIndex::new();
    let data = [(0u64, 10u64, 1u64), (2, 3, 2), (5, 6, 3), (5, 20, 4), (9, 11, 5), (14, 15, 6)];
    for (start, end, id) in data {
        index.push(Interval::new(start, end), id);
        baseline.push(Interval::new(start, end), id);
    }
    for (ws, we) in [(0u64, 30u64), (4, 8), (11, 13), (21, 40), (0, 0), (10, 10)] {
        let window = Interval::new(ws, we);
        let a = index.aggregate(window);
        let b = baseline.aggregate(window);
        assert_eq!(a.count, b.count);
        assert_eq!(a.min, b.min);
        assert_eq!(a.max, b.max);
        assert_eq!(a.total_duration, b.total_duration);
        let got = flatten(index.query(window));
        let want: Vec<u64> = baseline.query(window).into_iter().copied().collect();
        assert_eq!(got, want);
    }
}

#[test]
fn test_scale_scenario() {
    // 256 intervals sorted by start, base_size = 8, max_lanes = 4,
    // checked against the brute-force oracle on a held-out window set.
    let mut seed: u64 = 0x2545_f491_4f6c_dd1d;
    let mut next = move || {
        seed ^= seed << 13;
        seed ^= seed >> 7;
        seed ^= seed << 17;
        seed
    };

    let mut rows: Vec<(u64, u64, u64)> = Vec::new();
    let mut start: u64 = 0;
    for id in 0..256u64 {
        start += next() % 17;
        let end = start + next() % 97;
        rows.push((start, end, id));
    }

    let mut index = Index::new(4, 8);
    let mut baseline = BaselineIndex::new();
    for (s, e, id) in &rows {
        index.push(Interval::new(*s, *e), *id);
        baseline.push(Interval::new(*s, *e), *id);
    }

    let max_start = rows.last().unwrap().0;
    let mut windows: Vec<(u64, u64)> = vec![(0, u64::MAX), (0, 0), (max_start, max_start + 50)];
    for _ in 0..64 {
        let a = next() % (max_start + 100);
        let b = a + next() % 200;
        windows.push((a, b));
    }

    for (ws, we) in windows {
        let window = Interval::new(ws, we);
        let a = index.aggregate(window);
        let b = baseline.aggregate(window);
        assert_eq!(a.count, b.count);
        assert_eq!(a.min, b.min);
        assert_eq!(a.max, b.max);
        assert_eq!(a.total_duration, b.total_duration);
        let got = flatten(index.query(window));
        let want: Vec<u64> = baseline.query(window).into_iter().copied().collect();
        assert_eq!(got, want);
    }
}

#[test]
fn test_push_order_preserved_in_query() {
    let mut index = Index::new(3, 2);
    for i in 0..20u64 {
        index.push(Interval::new(i, i + 5), i);
    }
    let all = flatten(index.query(Interval::new(0, 100)));
    assert_eq!(all, (0..20u64).collect::<Vec<u64>>());
}
