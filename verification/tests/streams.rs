use rangeset_int::from_slice_iter::FromSliceIter;
use rangeset_int::merge::{KMerge, Merge};
use rangeset_int::RangeSetInt;

fn drain_merge(mut m: Merge) -> Vec<(u64, u64)> {
    let mut out = Vec::new();
    while let Some(r) = m.next() {
        out.push(r);
    }
    out
}

fn drain_kmerge(mut m: KMerge) -> Vec<(u64, u64)> {
    let mut out = Vec::new();
    while let Some(r) = m.next() {
        out.push(r);
    }
    out
}

fn drain_slices(mut it: FromSliceIter) -> Vec<(u64, u64)> {
    let mut out = Vec::new();
    while let Some(r) = it.next() {
        out.push(r);
    }
    out
}

#[test]
fn merge_orders_by_start_with_left_bias() {
    let left = vec![(1, 2), (5, 100)];
    let right = vec![(2, 6)];
    let merged = drain_merge(Merge::new(left, right));
    assert_eq!(merged, vec![(1, 2), (2, 6), (5, 100)]);
}

#[test]
fn merge_output_coalesces_to_one_range() {
    let merged = drain_merge(Merge::new(vec![(1, 2), (5, 100)], vec![(2, 6)]));
    // A coalescing consumer: feed the sorted-by-start inclusive ranges into
    // the engine as half-open ranges.
    let mut set = RangeSetInt::new();
    for (s, e) in merged {
        set.internal_add(s, e + 1);
    }
    assert_eq!(set.ranges_len(), 1);
    assert_eq!(set.range_at(0), (1, 101));
    assert_eq!(set.len(), 100);
}

#[test]
fn merge_left_bias_on_equal_starts() {
    let merged = drain_merge(Merge::new(vec![(4, 9)], vec![(4, 5)]));
    assert_eq!(merged, vec![(4, 9), (4, 5)]);
}

#[test]
fn merge_size_hint_is_exact() {
    let mut m = Merge::new(vec![(1, 2), (5, 100)], vec![(2, 6)]);
    assert_eq!(m.size_hint(), (3, Some(3)));
    m.next();
    assert_eq!(m.size_hint(), (2, Some(2)));
}

#[test]
fn kmerge_of_three_streams() {
    let merged = drain_kmerge(KMerge::new(vec![
        vec![(1, 2), (5, 100)],
        vec![(2, 6)],
        vec![(0, 0), (200, 201)],
    ]));
    assert_eq!(merged.len(), 5);
    // Sorted by start.
    for w in merged.windows(2) {
        assert!(w[0].0 <= w[1].0);
    }
    // Same ranges as the inputs, as a multiset.
    let mut sorted = merged.clone();
    sorted.sort();
    assert_eq!(sorted, vec![(0, 0), (1, 2), (2, 6), (5, 100), (200, 201)]);
}

#[test]
fn kmerge_of_no_streams_is_empty() {
    let mut m = KMerge::new(Vec::new());
    assert_eq!(m.size_hint(), (0, Some(0)));
    assert_eq!(m.next(), None);
}

#[test]
fn compressor_finds_maximal_runs() {
    let values = [1u64, 2, 5, 6, 7, 10];
    let ranges = drain_slices(FromSliceIter::new(&values));
    assert_eq!(ranges, vec![(1, 2), (5, 7), (10, 10)]);
}

#[test]
fn compressor_on_empty_slice() {
    let values: [u64; 0] = [];
    let mut it = FromSliceIter::new(&values);
    assert_eq!(it.size_hint(), (0, Some(1)));
    assert_eq!(it.next(), None);
}

#[test]
fn compressor_on_fully_consecutive_slice() {
    let values = [4u64, 5, 6, 7];
    let ranges = drain_slices(FromSliceIter::new(&values));
    assert_eq!(ranges, vec![(4, 7)]);
}

#[test]
fn compressor_on_gapped_slice() {
    let values = [1u64, 4, 7];
    let ranges = drain_slices(FromSliceIter::new(&values));
    assert_eq!(ranges, vec![(1, 1), (4, 4), (7, 7)]);
}

#[test]
fn compressor_keeps_duplicates_as_new_ranges() {
    let values = [1u64, 1, 2];
    let ranges = drain_slices(FromSliceIter::new(&values));
    assert_eq!(ranges, vec![(1, 1), (1, 2)]);
    // The round trip: expanding every range reproduces the input.
    let mut expanded = Vec::new();
    for (s, e) in ranges {
        for v in s..=e {
            expanded.push(v);
        }
    }
    assert_eq!(expanded, values.to_vec());
}

#[test]
fn compressor_size_hint_bounds() {
    let values = [1u64, 2, 5, 6, 7, 10];
    let it = FromSliceIter::new(&values);
    assert_eq!(it.size_hint(), (5, Some(7)));
}
