use rangeset_int::unsorted_disjoint::{AssumeSortedStarts, SortedDisjointWithLenSoFar, UnsortedDisjoint};
use rangeset_int::{ParseError, RangeSetInt};

fn set_of(values: &[u64]) -> RangeSetInt {
    RangeSetInt::from_values(&values.to_vec())
}

#[test]
fn empty_set() {
    let s = RangeSetInt::new();
    assert_eq!(s.len(), 0u128);
    assert_eq!(s.len_slow(), 0u128);
    assert!(!s.contains(0));
    assert!(!s.contains(u64::MAX));
    assert_eq!(s.to_text(), "");
}

#[test]
fn insert_and_contains() {
    let mut s = RangeSetInt::new();
    s.insert_range(10, 20);
    assert!(s.contains(10));
    assert!(s.contains(19));
    assert!(!s.contains(9));
    assert!(!s.contains(20));
    assert_eq!(s.len(), 10u128);
    assert_eq!(s.to_text(), "10..20");
}

#[test]
fn merge_on_touch() {
    // inserting [1,4) then [4,7) must yield one stored range 1..7, length 6
    let mut s = RangeSetInt::new();
    s.insert_range(1, 4);
    s.insert_range(4, 7);
    assert_eq!(s.to_text(), "1..7");
    assert_eq!(s.len(), 6u128);
    assert_eq!(s.len_slow(), 6u128);
}

#[test]
fn merge_overlap_and_absorb() {
    let mut s = RangeSetInt::new();
    s.insert_range(10, 12);
    s.insert_range(20, 25);
    s.insert_range(30, 31);
    // a range bridging all three
    s.insert_range(11, 30);
    assert_eq!(s.to_text(), "10..31");
    assert_eq!(s.len(), 21u128);
    assert_eq!(s.len_slow(), 21u128);
}

#[test]
fn insert_contained_is_noop() {
    let mut s = RangeSetInt::new();
    s.insert_range(5, 50);
    let before = s.to_text();
    s.insert_range(7, 12);
    assert_eq!(s.to_text(), before);
    assert_eq!(s.len(), 45u128);
}

#[test]
fn insert_disjoint_keeps_order() {
    let mut s = RangeSetInt::new();
    s.insert_range(50, 60);
    s.insert_range(1, 4);
    s.insert_range(20, 30);
    assert_eq!(s.to_text(), "1..4,20..30,50..60");
    assert_eq!(s.len(), 23u128);
    assert_eq!(s.len_slow(), 23u128);
}

#[test]
fn idempotent_insert() {
    // inserting the same range twice gives the same set and length
    let mut once = RangeSetInt::new();
    once.insert_range(3, 9);
    let mut twice = RangeSetInt::new();
    twice.insert_range(3, 9);
    twice.insert_range(3, 9);
    assert_eq!(once, twice);
    assert_eq!(once.len(), twice.len());
    assert_eq!(once.to_text(), twice.to_text());
}

#[test]
fn union_commutes() {
    let a = set_of(&[1, 2, 3, 40, 41, 99]);
    let b = set_of(&[3, 4, 5, 41, 100]);
    let ab = a.union(&b);
    let ba = b.union(&a);
    assert_eq!(ab, ba);
    assert_eq!(ab.len(), ba.len());
    assert_eq!(ab.to_text(), ba.to_text());
}

#[test]
fn union_of_values_renders_merged() {
    // {1,2,3} union {3,4,5} covers 1..6, five elements
    let a = set_of(&[1, 2, 3]);
    let b = set_of(&[3, 4, 5]);
    let u = a.union(&b);
    assert_eq!(u.to_text(), "1..6");
    assert_eq!(u.len(), 5u128);
    // operands unchanged
    assert_eq!(a.len(), 3u128);
    assert_eq!(b.len(), 3u128);
}

#[test]
fn append_drains_other() {
    // append(a = {1..4}, b = {3..6}) leaves b empty and a covering 1..=5
    let mut a = RangeSetInt::new();
    a.insert_range(1, 4);
    let mut b = RangeSetInt::new();
    b.insert_range(3, 6);
    a.append(&mut b);
    assert_eq!(b.len(), 0u128);
    assert_eq!(a.len(), 5u128);
    for v in 1..=5u64 {
        assert!(a.contains(v));
    }
    assert!(!a.contains(0));
    assert!(!a.contains(6));
}

#[test]
fn from_values_dedups() {
    let s = set_of(&[7, 7, 7, 9]);
    assert_eq!(s.len(), 2u128);
    assert_eq!(s.to_text(), "7..8,9..10");
}

#[test]
fn contains_matches_ranges() {
    let mut s = RangeSetInt::new();
    s.insert_range(2, 5);
    s.insert_range(8, 10);
    let covered: Vec<u64> = (0..12).filter(|v| s.contains(*v)).collect();
    assert_eq!(covered, vec![2, 3, 4, 8, 9]);
}

#[test]
fn clear_resets() {
    let mut s = set_of(&[1, 5, 9]);
    s.clear();
    assert_eq!(s.len(), 0u128);
    assert_eq!(s.to_text(), "");
    assert!(!s.contains(1));
}

#[test]
fn into_iter_yields_all_values_in_order() {
    let s = set_of(&[1, 2, 3, 4]);
    let mut it = s.into_iter();
    let mut got = Vec::new();
    while let Some(v) = it.next() {
        got.push(v);
    }
    assert_eq!(got, vec![1, 2, 3, 4]);
}

#[test]
fn into_iter_crosses_range_gaps() {
    let mut s = RangeSetInt::new();
    s.insert_range(10, 12);
    s.insert_range(1, 3);
    let mut it = s.into_iter();
    let mut got = Vec::new();
    while let Some(v) = it.next() {
        got.push(v);
    }
    assert_eq!(got, vec![1, 2, 10, 11]);
}

#[test]
fn overflow_boundary_length() {
    // a range ending at the maximum representable value must not
    // overflow the wide length accounting
    let mut s = RangeSetInt::new();
    s.insert_range(0, u64::MAX);
    assert_eq!(s.len(), u64::MAX as u128);
    assert_eq!(s.len_slow(), u64::MAX as u128);
    assert!(s.contains(u64::MAX - 1));
    assert!(!s.contains(u64::MAX));
}

#[test]
fn free_functions_match_methods() {
    let mut items: Vec<(u64, u64)> = Vec::new();
    let mut len: u128 = 0;
    rangeset_int::internal_add(&mut items, &mut len, 1, 4);
    rangeset_int::internal_add(&mut items, &mut len, 4, 7);
    assert_eq!(items, vec![(1, 7)]);
    assert_eq!(len, 6u128);
    assert_eq!(rangeset_int::len_slow(&items), 6u128);
    assert_eq!(rangeset_int::fmt(&items), "1..7");
}

#[test]
fn fusion_merges_unsorted_by_end() {
    // [1,3], [2,5], [10,12], [11,11] fuses to exactly [1,5], [10,12]
    let input: Vec<(u64, u64)> = vec![(1, 3), (2, 5), (10, 12), (11, 11)];
    let mut fused = UnsortedDisjoint::new(input);
    assert_eq!(fused.next(), Some((1, 5)));
    assert_eq!(fused.next(), Some((10, 12)));
    assert_eq!(fused.next(), None);
}

#[test]
fn fusion_skips_empty_and_merges_touching() {
    // (9,3) is empty and skipped; [1,4] and [5,8] touch (gap of zero) and merge
    let input: Vec<(u64, u64)> = vec![(1, 4), (9, 3), (5, 8), (20, 21)];
    let mut fused = UnsortedDisjoint::new(input);
    assert_eq!(fused.next(), Some((1, 8)));
    assert_eq!(fused.next(), Some((20, 21)));
    assert_eq!(fused.next(), None);
}

#[test]
fn fusion_near_minimum_is_underflow_safe() {
    // starts at the minimum value: the gap test must not underflow
    let input: Vec<(u64, u64)> = vec![(0, 0), (1, 1), (3, 4)];
    let mut fused = UnsortedDisjoint::new(input);
    assert_eq!(fused.next(), Some((0, 1)));
    assert_eq!(fused.next(), Some((3, 4)));
    assert_eq!(fused.next(), None);
}

#[test]
fn fusion_to_string_renders_inclusive() {
    let input: Vec<(u64, u64)> = vec![(1, 3), (2, 5), (10, 12), (11, 11)];
    let fused = UnsortedDisjoint::new(input);
    assert_eq!(fused.to_string(), "1..=5, 10..=12");
}

#[test]
fn fusion_size_hint_estimates() {
    let input: Vec<(u64, u64)> = vec![(1, 3), (5, 7)];
    let mut fused = UnsortedDisjoint::new(input);
    assert_eq!(fused.size_hint(), (1, Some(2)));
    let first = fused.next();
    assert_eq!(first, Some((1, 3)));
    // both inputs consumed, one range pending: the lower bound reflects
    // only the unconsumed input, as an estimate
    assert_eq!(fused.size_hint(), (0, Some(1)));
    assert_eq!(fused.next(), Some((5, 7)));
    assert_eq!(fused.size_hint(), (0, Some(0)));
    let empty = UnsortedDisjoint::new(Vec::new());
    assert_eq!(empty.size_hint(), (0, Some(0)));
}

#[test]
fn len_so_far_accumulates_inclusive_widths() {
    let input: Vec<(u64, u64)> = vec![(1, 5), (10, 12)];
    let mut it = SortedDisjointWithLenSoFar::new(input);
    assert_eq!(it.len_so_far(), 0u128);
    assert_eq!(it.next(), Some((1, 5)));
    assert_eq!(it.len_so_far(), 5u128);
    assert_eq!(it.next(), Some((10, 12)));
    assert_eq!(it.len_so_far(), 8u128);
    assert_eq!(it.next(), None);
    assert_eq!(it.len_so_far(), 8u128);
}

#[test]
fn len_so_far_full_domain_does_not_overflow() {
    // the inclusive range covering every u64 value counts 2^64 elements,
    // one more than naive end-minus-start in the element type
    let input: Vec<(u64, u64)> = vec![(0, u64::MAX)];
    let mut it = SortedDisjointWithLenSoFar::new(input);
    assert_eq!(it.next(), Some((0, u64::MAX)));
    assert_eq!(it.len_so_far(), (u64::MAX as u128) + 1);
}

#[test]
fn len_so_far_size_hint_is_exact() {
    let input: Vec<(u64, u64)> = vec![(1, 5), (10, 12)];
    let mut it = SortedDisjointWithLenSoFar::new(input);
    assert_eq!(it.size_hint(), (2, Some(2)));
    it.next();
    assert_eq!(it.size_hint(), (1, Some(1)));
}

#[test]
fn assume_sorted_starts_passes_through() {
    let input: Vec<(u64, u64)> = vec![(1, 3), (2, 9), (10, 11)];
    let mut it = AssumeSortedStarts::new(input);
    assert_eq!(it.size_hint(), (3, Some(3)));
    assert_eq!(it.next(), Some((1, 3)));
    assert_eq!(it.next(), Some((2, 9)));
    assert_eq!(it.next(), Some((10, 11)));
    assert_eq!(it.next(), None);
    assert_eq!(it.size_hint(), (0, Some(0)));
}

#[test]
fn from_text_parses_range_lists() {
    let s = RangeSetInt::from_text("1..4,6..10").unwrap();
    assert_eq!(s.len(), 7u128);
    assert_eq!(s.to_text(), "1..4,6..10");
    let merged = RangeSetInt::from_text("1..4,3..6").unwrap();
    assert_eq!(merged.to_text(), "1..6");
    assert_eq!(merged.len(), 5u128);
}

#[test]
fn from_text_round_trips_rendering() {
    let mut s = RangeSetInt::new();
    s.insert_range(2, 9);
    s.insert_range(100, 250);
    let back = RangeSetInt::from_text(&s.to_text()).unwrap();
    assert_eq!(back, s);
}

#[test]
fn from_text_reports_error_kinds() {
    assert_eq!(RangeSetInt::from_text(""), Err(ParseError::NotANumber));
    assert_eq!(RangeSetInt::from_text("a..2"), Err(ParseError::NotANumber));
    assert_eq!(RangeSetInt::from_text("1.."), Err(ParseError::NotANumber));
    assert_eq!(RangeSetInt::from_text("1..2,"), Err(ParseError::NotANumber));
    assert_eq!(RangeSetInt::from_text("12"), Err(ParseError::BadToken));
    assert_eq!(RangeSetInt::from_text("1.2"), Err(ParseError::BadToken));
    assert_eq!(RangeSetInt::from_text("1..2;3..4"), Err(ParseError::BadToken));
    assert_eq!(RangeSetInt::from_text("5..5"), Err(ParseError::EmptyRange));
    assert_eq!(RangeSetInt::from_text("7..3"), Err(ParseError::EmptyRange));
    assert_eq!(
        RangeSetInt::from_text("99999999999999999999999..99999999999999999999999999"),
        Err(ParseError::NumberTooLarge)
    );
}

#[test]
fn length_counts_distinct_insertions() {
    // the tracked length equals the count of distinct integers inserted
    let mut s = RangeSetInt::new();
    s.insert_range(1, 10);
    s.insert_range(5, 15);
    s.insert_range(1, 3);
    let mut distinct = 0u128;
    for v in 0..20u64 {
        if s.contains(v) {
            distinct += 1;
        }
    }
    assert_eq!(s.len(), distinct);
    assert_eq!(s.len_slow(), distinct);
}
