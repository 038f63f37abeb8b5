use rangeset_int::{internal_add, RangeSetInt};

#[test]
fn add_overlapping_ranges_coalesces() {
    let mut items: Vec<(u64, u64)> = Vec::new();
    let mut len: u64 = 0;
    internal_add(&mut items, &mut len, 1, 4);
    internal_add(&mut items, &mut len, 3, 6);
    assert_eq!(items, vec![(1, 6)]);
    assert_eq!(len, 5);
}

#[test]
fn add_adjacent_ranges_coalesces() {
    let mut items: Vec<(u64, u64)> = Vec::new();
    let mut len: u64 = 0;
    internal_add(&mut items, &mut len, 1, 3);
    internal_add(&mut items, &mut len, 3, 5);
    assert_eq!(items, vec![(1, 5)]);
    assert_eq!(len, 4);
}

#[test]
fn add_disjoint_ranges_kept_apart() {
    let mut items: Vec<(u64, u64)> = Vec::new();
    let mut len: u64 = 0;
    internal_add(&mut items, &mut len, 10, 12);
    internal_add(&mut items, &mut len, 1, 3);
    internal_add(&mut items, &mut len, 5, 6);
    assert_eq!(items, vec![(1, 3), (5, 6), (10, 12)]);
    assert_eq!(len, 5);
}

#[test]
fn add_swallows_many_successors() {
    let mut items: Vec<(u64, u64)> = Vec::new();
    let mut len: u64 = 0;
    internal_add(&mut items, &mut len, 2, 4);
    internal_add(&mut items, &mut len, 6, 8);
    internal_add(&mut items, &mut len, 10, 12);
    internal_add(&mut items, &mut len, 0, 11);
    assert_eq!(items, vec![(0, 12)]);
    assert_eq!(len, 12);
}

#[test]
fn add_contained_range_changes_nothing() {
    let mut items: Vec<(u64, u64)> = Vec::new();
    let mut len: u64 = 0;
    internal_add(&mut items, &mut len, 1, 10);
    internal_add(&mut items, &mut len, 3, 5);
    assert_eq!(items, vec![(1, 10)]);
    assert_eq!(len, 9);
}

#[test]
fn add_twice_is_idempotent() {
    let mut once: Vec<(u64, u64)> = Vec::new();
    let mut once_len: u64 = 0;
    internal_add(&mut once, &mut once_len, 3, 6);
    let mut twice = once.clone();
    let mut twice_len = once_len;
    internal_add(&mut twice, &mut twice_len, 3, 6);
    assert_eq!(once, twice);
    assert_eq!(once_len, twice_len);
}

#[test]
fn append_moves_and_empties() {
    let mut a = RangeSetInt::new();
    a.internal_add(1, 4);
    let mut b = RangeSetInt::new();
    b.internal_add(3, 6);
    a.append(&mut b);
    assert_eq!(a.len(), 5);
    assert_eq!(b.len(), 0);
    assert!(a.contains(1));
    assert!(a.contains(2));
    assert!(a.contains(3));
    assert!(a.contains(4));
    assert!(a.contains(5));
    assert!(!a.contains(0));
    assert!(!a.contains(6));
}

#[test]
fn contains_on_discrete_values() {
    let set = RangeSetInt::from_values(&[1, 2, 3]);
    assert_eq!(set.contains(1), true);
    assert_eq!(set.contains(4), false);
}

#[test]
fn union_of_discrete_sets() {
    let a = RangeSetInt::from_values(&[1, 2, 3]);
    let b = RangeSetInt::from_values(&[3, 4, 5]);
    let result = a.bitor(&b);
    assert_eq!(result, RangeSetInt::from_values(&[1, 2, 3, 4, 5]));
    assert_eq!(result.len(), 5);
    assert_eq!(result.ranges_len(), 1);
    assert_eq!(result.range_at(0), (1, 6));
}

#[test]
fn union_is_commutative() {
    let a = RangeSetInt::from_values(&[1, 9, 10]);
    let b = RangeSetInt::from_values(&[2, 3, 11]);
    assert_eq!(a.bitor(&b), b.bitor(&a));
}

#[test]
fn union_is_associative() {
    let a = RangeSetInt::from_values(&[1, 5]);
    let b = RangeSetInt::from_values(&[2, 6]);
    let c = RangeSetInt::from_values(&[3, 4]);
    assert_eq!(a.bitor(&b).bitor(&c), a.bitor(&b.bitor(&c)));
}

#[test]
fn new_and_clear_leave_empty() {
    let mut set = RangeSetInt::new();
    assert_eq!(set.len(), 0);
    set.internal_add(7, 9);
    assert_eq!(set.len(), 2);
    set.clear();
    assert_eq!(set.len(), 0);
    assert!(!set.contains(7));
}

#[test]
fn into_iter_yields_all_values_in_order() {
    let set = RangeSetInt::from_values(&[1, 2, 3, 4]);
    let mut iter = set.into_iter();
    let mut out: Vec<u64> = Vec::new();
    while let Some(v) = iter.next() {
        out.push(v);
    }
    assert_eq!(out, vec![1, 2, 3, 4]);
}

#[test]
fn into_iter_crosses_range_gaps() {
    let mut set = RangeSetInt::new();
    set.internal_add(1, 3);
    set.internal_add(10, 12);
    let mut iter = set.into_iter();
    let mut out: Vec<u64> = Vec::new();
    while let Some(v) = iter.next() {
        out.push(v);
    }
    assert_eq!(out, vec![1, 2, 10, 11]);
}

#[test]
fn fmt_renders_half_open_ranges() {
    let mut items: Vec<(u64, u64)> = Vec::new();
    let mut len: u64 = 0;
    internal_add(&mut items, &mut len, 1, 4);
    internal_add(&mut items, &mut len, 3, 6);
    assert_eq!(rangeset_int::fmt(&items), "1..6");
    internal_add(&mut items, &mut len, 10, 12);
    assert_eq!(rangeset_int::fmt(&items), "1..6,10..12");
}

#[test]
fn fmt_of_empty_list_is_empty() {
    let items: Vec<(u64, u64)> = Vec::new();
    assert_eq!(rangeset_int::fmt(&items), "");
}

#[test]
fn fmt_renders_all_digits() {
    let items: Vec<(u64, u64)> = vec![(0, 1234567890), (9876543210, 9876543211)];
    assert_eq!(rangeset_int::fmt(&items), "0..1234567890,9876543210..9876543211");
}
