use range_set_blaze::{
    collect_ranges, equal, is_sorted_disjoint, AssumeSortedStarts, CheckSortedDisjoint, Integer,
    KMerge, Merge, NotIter, RangeSetBlaze, SortedDisjointIter, SortedDisjointWithLenSoFar,
    SymDiffIter, SymDiffIterKMerge, SymDiffIterMerge, UIntPlusOne, UnionIter, UnsortedDisjoint,
    VecRangeIter,
};
use range_set_blaze::RangeIter;

fn checked<T: Integer>(ranges: Vec<(T, T)>) -> CheckSortedDisjoint<T, VecRangeIter<T>> {
    CheckSortedDisjoint::new(VecRangeIter::new(ranges))
}

fn sorted_starts<T: Integer>(ranges: Vec<(T, T)>) -> AssumeSortedStarts<T, VecRangeIter<T>> {
    AssumeSortedStarts::new(VecRangeIter::new(ranges))
}

#[test]
fn union_of_two_streams() {
    let a = checked(vec![(1, 2), (5, 100)]);
    let b = checked(vec![(2, 6)]);
    let union = UnionIter::new(Merge::new(a, b));
    assert_eq!(collect_ranges(union), vec![(1, 100)]);
}

#[test]
fn union_of_three_streams() {
    let a = checked(vec![(1, 2), (5, 100)]);
    let b = checked(vec![(2, 6)]);
    let c = checked(vec![(-1, -1)]);
    let union = UnionIter::new(KMerge::new(vec![a, b, c]));
    assert_eq!(collect_ranges(union), vec![(-1, -1), (1, 100)]);
}

#[test]
fn union_of_many_streams_at_once() {
    let a = checked(vec![(1u8, 2), (5, 100)]);
    let b = checked(vec![(2u8, 6)]);
    let c = checked(vec![(0u8, 0), (102, 255)]);
    let d = checked(vec![(101u8, 101)]);
    let union = range_set_blaze::union_k(vec![a, b, c, d]);
    assert_eq!(collect_ranges(union), vec![(0, 255)]);
}

#[test]
fn union_of_no_streams() {
    let none: Vec<CheckSortedDisjoint<i32, VecRangeIter<i32>>> = vec![];
    let union = UnionIter::new(KMerge::new(none));
    assert_eq!(collect_ranges(union), vec![]);
}

#[test]
fn kmerge_keeps_every_range_and_sorts_by_start() {
    let a = checked(vec![(1, 2), (9, 9)]);
    let b = checked(vec![(0, 5), (7, 20)]);
    let c = checked(vec![(3, 3)]);
    let merged = collect_ranges(KMerge::new(vec![a, b, c]));
    assert_eq!(merged, vec![(0, 5), (1, 2), (3, 3), (7, 20), (9, 9)]);
}

#[test]
fn merge_takes_the_right_stream_first_on_ties() {
    let a = checked(vec![(1, 2), (5, 9)]);
    let b = checked(vec![(1, 7), (5, 5)]);
    let merged = collect_ranges(Merge::new(a, b));
    assert_eq!(merged, vec![(1, 7), (1, 2), (5, 5), (5, 9)]);
}

#[test]
fn union_of_sorted_starts() {
    let a = UnionIter::new(sorted_starts(vec![(1, 5), (2, 100)]));
    assert_eq!(collect_ranges(a), vec![(1, 100)]);
}

#[test]
fn union_joins_touching_ranges() {
    let a = UnionIter::new(sorted_starts(vec![(3, 7), (8, 12)]));
    assert_eq!(collect_ranges(a), vec![(3, 12)]);
    let b = UnionIter::new(sorted_starts(vec![(3, 7), (9, 12)]));
    assert_eq!(collect_ranges(b), vec![(3, 7), (9, 12)]);
}

#[test]
fn union_drops_empty_ranges() {
    let a = UnionIter::new(sorted_starts(vec![(1, 0), (3, 7), (4, 2), (20, 21)]));
    assert_eq!(collect_ranges(a), vec![(3, 7), (20, 21)]);
}

#[test]
fn union_of_a_canonical_stream_is_the_stream() {
    let ranges = vec![(-9, -7), (1, 2), (5, 100), (102, 102)];
    let union = UnionIter::new(checked(ranges.clone()));
    assert_eq!(collect_ranges(union), ranges);
}

#[test]
fn union_at_the_end_of_the_type() {
    let a = UnionIter::new(sorted_starts(vec![(250u8, 255), (255, 255)]));
    assert_eq!(collect_ranges(a), vec![(250, 255)]);
    let b = UnionIter::new(sorted_starts(vec![(i8::MIN, -100), (-99, 10), (127, 127)]));
    assert_eq!(collect_ranges(b), vec![(-128, 10), (127, 127)]);
}

#[test]
fn union_from_unsorted_ranges() {
    let a = UnionIter::from_iter(vec![(5, 100), (5, 5), (1, 4), (200, 100), (-3, -3)]);
    assert_eq!(collect_ranges(a), vec![(-3, -3), (1, 100)]);
}

#[test]
fn union_from_points() {
    let a = UnionIter::from_points(vec![3, 2, 1, 100, 1]);
    assert_eq!(collect_ranges(a), vec![(1, 3), (100, 100)]);
    let b = SortedDisjointIter::from_points(vec![u8::MAX, 0, 254, 1]);
    assert_eq!(collect_ranges(b), vec![(0, 1), (254, 255)]);
    let c = SortedDisjointIter::from_iter(vec![(5, 100), (1, 4), (7, 6)]);
    assert_eq!(collect_ranges(c), vec![(1, 100)]);
    let d = SortedDisjointIter::from(UnsortedDisjoint::new(VecRangeIter::new(vec![(9, 9), (1, 1)])));
    assert_eq!(collect_ranges(d), vec![(1, 1), (9, 9)]);
}

#[test]
fn sorted_disjoint_iter_makes_canonical() {
    let a = SortedDisjointIter::new(sorted_starts(vec![(1, 0), (1, 5), (2, 3), (6, 6), (8, 9)]));
    assert_eq!(collect_ranges(a), vec![(1, 6), (8, 9)]);
}

#[test]
fn unsorted_disjoint_joins_neighbours_only() {
    let a = UnsortedDisjoint::new(VecRangeIter::new(vec![
        (10, 12),
        (13, 14),
        (1, 2),
        (5, 4),
        (3, 3),
        (12, 12),
    ]));
    assert_eq!(collect_ranges(a), vec![(10, 14), (1, 3), (12, 12)]);
}

#[test]
fn unsorted_disjoint_at_the_bounds_of_the_type() {
    let a = UnsortedDisjoint::new(VecRangeIter::new(vec![(0u8, 0), (1, 1), (3, 255), (0, 1)]));
    assert_eq!(collect_ranges(a), vec![(0, 1), (3, 255), (0, 1)]);
    let b = UnsortedDisjoint::new(VecRangeIter::new(vec![(2u8, 2), (0, 0), (1, 1)]));
    assert_eq!(collect_ranges(b), vec![(2, 2), (0, 1)]);
}

#[test]
fn complement_on_u8() {
    let a = checked(vec![(1u8, 2), (5, 100)]);
    let b = NotIter::new(a);
    assert_eq!(collect_ranges(b), vec![(0, 0), (3, 4), (101, 255)]);
}

#[test]
fn complement_of_nothing_and_of_everything() {
    let nothing: Vec<(u8, u8)> = vec![];
    assert_eq!(collect_ranges(NotIter::new(checked(nothing))), vec![(0, 255)]);
    let everything = vec![(0u8, 255)];
    assert_eq!(collect_ranges(NotIter::new(checked(everything))), vec![]);
    let full = vec![(i128::MIN, i128::MAX)];
    assert_eq!(collect_ranges(NotIter::new(checked(full))), vec![]);
}

#[test]
fn complement_at_the_bounds() {
    let a = checked(vec![(0u8, 3), (10, 255)]);
    assert_eq!(collect_ranges(NotIter::new(a)), vec![(4, 9)]);
    let b = checked(vec![(i16::MIN, -1)]);
    assert_eq!(collect_ranges(NotIter::new(b)), vec![(0, i16::MAX)]);
    let c = checked(vec![(7u64, u64::MAX)]);
    assert_eq!(collect_ranges(NotIter::new(c)), vec![(0, 6)]);
}

#[test]
fn complement_stays_empty_after_the_end() {
    let mut a = NotIter::new(checked(vec![(0u8, 3)]));
    assert_eq!(a.next(), Some((4, 255)));
    assert_eq!(a.next(), None);
    assert_eq!(a.next(), None);
}

#[test]
fn complement_twice_gives_the_stream_back() {
    let ranges = vec![(-9i16, -7), (1, 2), (5, 100), (i16::MAX, i16::MAX)];
    let twice = NotIter::new(NotIter::new(checked(ranges.clone())));
    assert_eq!(collect_ranges(twice), ranges);
}

#[test]
fn de_morgan_on_small_sets() {
    let a = vec![(1u8, 2), (5, 100)];
    let b = vec![(2u8, 6), (200, 255)];
    // complement(a | b)
    let left = NotIter::new(UnionIter::new(Merge::new(checked(a.clone()), checked(b.clone()))));
    // complement(a) & complement(b), with the intersection written as
    // complement(complement(x) | complement(y))
    let not_a = NotIter::new(checked(a));
    let not_b = NotIter::new(checked(b));
    let right = NotIter::new(UnionIter::new(Merge::new(
        NotIter::new(not_a),
        NotIter::new(not_b),
    )));
    assert!(equal(left, right));
}

#[test]
fn symmetric_difference_is_union_without_intersection() {
    let a = vec![(1u8, 10), (20, 30)];
    let b = vec![(5u8, 25), (40, 40)];
    let xor = collect_ranges(SymDiffIterMerge::new2(checked(a.clone()), checked(b.clone())));
    assert_eq!(xor, vec![(1, 4), (11, 19), (26, 30), (40, 40)]);
    // (a | b) - (a & b) == (a | b) & !(a & b) == !(!(a | b) | (a & b))
    let union = UnionIter::new(Merge::new(checked(a.clone()), checked(b.clone())));
    let intersection = NotIter::new(UnionIter::new(Merge::new(
        NotIter::new(checked(a)),
        NotIter::new(checked(b)),
    )));
    let difference = NotIter::new(UnionIter::new(Merge::new(NotIter::new(union), intersection)));
    assert_eq!(collect_ranges(difference), xor);
}

#[test]
fn union_is_associative_and_commutative() {
    let a = vec![(1, 2), (5, 100)];
    let b = vec![(2, 6)];
    let c = vec![(-1, -1), (150, 160)];
    let ab_c = UnionIter::new(Merge::new(
        UnionIter::new(Merge::new(checked(a.clone()), checked(b.clone()))),
        checked(c.clone()),
    ));
    let a_bc = UnionIter::new(Merge::new(
        checked(a.clone()),
        UnionIter::new(Merge::new(checked(b.clone()), checked(c.clone()))),
    ));
    let ba = UnionIter::new(Merge::new(checked(b.clone()), checked(a.clone())));
    let ab = UnionIter::new(Merge::new(checked(a.clone()), checked(b.clone())));
    let all = UnionIter::new(KMerge::new(vec![checked(a), checked(b), checked(c)]));
    let expected = vec![(-1, -1), (1, 100), (150, 160)];
    assert_eq!(collect_ranges(ab_c), expected);
    assert_eq!(collect_ranges(a_bc), expected);
    assert_eq!(collect_ranges(all), expected);
    assert!(equal(ab, ba));
}

#[test]
fn symmetric_difference_of_many_streams() {
    let a = checked(vec![(0u8, 10)]);
    let b = checked(vec![(5u8, 15)]);
    let c = checked(vec![(8u8, 20), (255, 255)]);
    let xor = SymDiffIterKMerge::new_k(vec![a, b, c]);
    assert_eq!(
        collect_ranges(xor),
        vec![(0, 4), (8, 10), (16, 20), (255, 255)]
    );
}

#[test]
fn symmetric_difference_counts_parity() {
    // every sorted list of up to three ranges over 0..=4, against a count by hand
    let mut ranges = Vec::new();
    for start in 0u8..=4 {
        for end in start..=4 {
            ranges.push((start, end));
        }
    }
    let n = ranges.len();
    for i in 0..n {
        for j in i..n {
            for k in j..n {
                for take in 1..=3 {
                    let mut input = vec![ranges[i]];
                    if take > 1 {
                        input.push(ranges[j]);
                    }
                    if take > 2 {
                        input.push(ranges[k]);
                    }
                    input.sort_by_key(|r| r.0);
                    let output = collect_ranges(SymDiffIter::new(sorted_starts(input.clone())));
                    assert!(is_sorted_disjoint(&output));
                    for x in 0u8..=6 {
                        let count = input.iter().filter(|r| r.0 <= x && x <= r.1).count();
                        let inside = output.iter().any(|r| r.0 <= x && x <= r.1);
                        assert_eq!(inside, count % 2 == 1);
                    }
                }
            }
        }
    }
}

#[test]
fn symmetric_difference_at_the_end_of_the_type() {
    let a = sorted_starts(vec![(250u8, 255), (250, 255), (253, 255)]);
    assert_eq!(collect_ranges(SymDiffIter::new(a)), vec![(253, 255)]);
}

#[test]
fn length_so_far() {
    let mut a = SortedDisjointWithLenSoFar::new(checked(vec![(1u8, 2), (5, 100)]));
    assert_eq!(a.len_so_far(), UIntPlusOne::UInt(0));
    assert_eq!(a.next(), Some((1, 2)));
    assert_eq!(a.len_so_far(), UIntPlusOne::UInt(2));
    assert_eq!(a.next(), Some((5, 100)));
    assert_eq!(a.len_so_far(), UIntPlusOne::UInt(98));
    assert_eq!(a.next(), None);
    assert_eq!(a.len_so_far(), UIntPlusOne::UInt(98));
}

#[test]
fn length_of_the_whole_widest_type() {
    let mut a = SortedDisjointWithLenSoFar::new(checked(vec![(0u128, u128::MAX)]));
    assert_eq!(a.next(), Some((0, u128::MAX)));
    assert_eq!(a.len_so_far(), UIntPlusOne::MaxPlusOne);
    let mut b = SortedDisjointWithLenSoFar::new(checked(vec![(i128::MIN, -1), (1, i128::MAX)]));
    assert_eq!(b.next(), Some((i128::MIN, -1)));
    assert_eq!(b.len_so_far(), UIntPlusOne::UInt(1u128 << 127));
    assert_eq!(b.next(), Some((1, i128::MAX)));
    assert_eq!(b.len_so_far(), UIntPlusOne::UInt(u128::MAX));
}

#[test]
fn checking_a_canonical_form() {
    assert!(is_sorted_disjoint::<i32>(&vec![]));
    assert!(is_sorted_disjoint(&vec![(1, 2), (4, 4)]));
    assert!(!is_sorted_disjoint(&vec![(1, 2), (3, 4)]));
    assert!(!is_sorted_disjoint(&vec![(1, 2), (2, 4)]));
    assert!(!is_sorted_disjoint(&vec![(4, 4), (1, 2)]));
    assert!(!is_sorted_disjoint(&vec![(2, 1)]));
    assert!(!is_sorted_disjoint(&vec![(1u8, 255), (0, 0)]));
    assert!(CheckSortedDisjoint::try_new(vec![(1, 2), (4, 4)]).is_some());
    assert!(CheckSortedDisjoint::try_new(vec![(2, 6), (-10, -5)]).is_none());
}

#[test]
fn equal_streams() {
    assert!(equal(checked(vec![(1, 2)]), checked(vec![(1, 2)])));
    assert!(!equal(checked(vec![(1, 2)]), checked(vec![(1, 3)])));
    assert!(!equal(checked(vec![(1, 2)]), checked(vec![(1, 2), (5, 5)])));
    assert!(!equal(checked(vec![(1, 2), (5, 5)]), checked(vec![(1, 2)])));
    assert!(equal(checked::<i32>(vec![]), checked(vec![])));
}

#[test]
fn set_from_scattered_ranges_and_by_single_adds() {
    let input = vec![(30u8, 40), (1, 2), (35, 50), (3, 3), (9, 8), (255, 255), (0, 0)];
    let at_once = RangeSetBlaze::from_iter(input.clone());
    let mut one_by_one = RangeSetBlaze::new();
    for range in input {
        one_by_one.internal_add(range);
    }
    assert_eq!(at_once.to_string(), "0..=3, 30..=50, 255..=255");
    assert_eq!(at_once.to_string(), one_by_one.to_string());
    assert_eq!(at_once.len(), UIntPlusOne::UInt(26));
    assert_eq!(one_by_one.len(), UIntPlusOne::UInt(26));
    assert_eq!(one_by_one.len_slow(), UIntPlusOne::UInt(26));
    assert_eq!(collect_ranges(at_once.ranges()), collect_ranges(one_by_one.ranges()));
}

#[test]
fn set_text_of_negative_numbers() {
    let set = RangeSetBlaze::from_iter(vec![(-10i64, -5), (0, 0), (i64::MIN, i64::MIN + 1)]);
    assert_eq!(
        set.to_string(),
        "-9223372036854775808..=-9223372036854775807, -10..=-5, 0..=0"
    );
    let wide = RangeSetBlaze::from_iter(vec![(i128::MIN, i128::MAX)]);
    assert_eq!(
        wide.to_string(),
        "-170141183460469231731687303715884105728..=170141183460469231731687303715884105727"
    );
    assert_eq!(wide.len(), UIntPlusOne::MaxPlusOne);
    assert_eq!(RangeSetBlaze::<u16>::new().to_string(), "");
}

#[test]
fn set_contains_and_sizes() {
    let set = AssumeSortedStarts::new(VecRangeIter::new(vec![(-10, -5), (-7, 2)]))
        .into_range_set_blaze();
    assert_eq!(set.to_string(), "-10..=2");
    assert!(set.contains(-10) && set.contains(0) && set.contains(2));
    assert!(!set.contains(-11) && !set.contains(3));
    assert_eq!(set.ranges_len(), 1);
    assert!(!set.is_empty());
    assert_eq!(set.first_and_last(), Some((-10, 2)));
    assert!(RangeSetBlaze::<i32>::new().is_empty());
    assert_eq!(RangeSetBlaze::<i32>::new().first_and_last(), None);
}
