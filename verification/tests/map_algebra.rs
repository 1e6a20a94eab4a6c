use range_set_blaze::{
    collect_ranges, equal_map, is_sorted_disjoint_map, non_zero_checked_sub, range_value_clone,
    AdjustPriorityMap, AnythingGoesMap, AssumePrioritySortedStartsMap, BitOrMapKMerge,
    BitOrMapMerge, CheckSortedDisjoint, CheckSortedDisjointMap, Integer, MergeMap,
    NonZeroEnumerate, Priority, PrioritySortedStartsMap, RangeToRangeValueIter,
    RangeValuesToRangesIter, SortedDisjointMapWithLenSoFar, UIntPlusOne, UnionIterMap,
    ValueOwned, VecMapIter, VecRangeIter,
};

fn checked_map<T: Integer, V: ValueOwned>(
    items: Vec<((T, T), V)>,
) -> CheckSortedDisjointMap<T, V, VecMapIter<T, V>> {
    CheckSortedDisjointMap::new(VecMapIter::new(items))
}

fn drain<T: Integer, V: ValueOwned, I: AnythingGoesMap<T, V>>(mut iter: I) -> Vec<((T, T), V)> {
    let mut out = Vec::new();
    while let Some(item) = iter.next() {
        out.push(item);
    }
    out
}

fn drain_ranked<T: Integer, V: ValueOwned, I: PrioritySortedStartsMap<T, V>>(
    mut iter: I,
) -> Vec<((T, T), V, usize)> {
    let mut out = Vec::new();
    while let Some(item) = iter.next() {
        let number = item.priority_number();
        let (range, value) = item.into_range_value();
        out.push((range, value, number));
    }
    out
}

#[test]
fn map_union_by_priority() {
    let input = vec![((1, 4), "a"), ((5, 100), "a"), ((5, 5), "b")];
    let ranked = input
        .into_iter()
        .enumerate()
        .map(|(i, range_value)| Priority::new(range_value, i))
        .collect();
    let union = UnionIterMap::new(AssumePrioritySortedStartsMap::new(ranked));
    assert_eq!(drain(union), vec![((1, 100), "a")]);
}

#[test]
fn map_union_lowest_priority_number_wins() {
    // the same ranges, with the ranks the other way round
    let ranked = vec![
        Priority::new(((1u8, 10), 'x'), 2),
        Priority::new(((3u8, 5), 'y'), 1),
        Priority::new(((4u8, 20), 'z'), 0),
    ];
    let union = UnionIterMap::new(AssumePrioritySortedStartsMap::new(ranked));
    assert_eq!(
        drain(union),
        vec![((1, 2), 'x'), ((3, 3), 'y'), ((4, 20), 'z')]
    );
    let ranked = vec![
        Priority::new(((1u8, 10), 'x'), 0),
        Priority::new(((3u8, 5), 'y'), 1),
        Priority::new(((4u8, 20), 'z'), 2),
    ];
    let union = UnionIterMap::new(AssumePrioritySortedStartsMap::new(ranked));
    assert_eq!(drain(union), vec![((1, 10), 'x'), ((11, 20), 'z')]);
}

#[test]
fn map_union_against_a_count_by_hand() {
    // every sorted list of three ranked ranges over 0..=4 with two values
    let mut ranges = Vec::new();
    for start in 0u8..=4 {
        for end in start..=4 {
            ranges.push((start, end));
        }
    }
    let n = ranges.len();
    let values = [7u32, 8u32];
    for i in 0..n {
        for j in 0..n {
            for k in 0..n {
                for choice in 0..8usize {
                    let mut input = vec![
                        (ranges[i], values[choice & 1], 0usize),
                        (ranges[j], values[(choice >> 1) & 1], 1usize),
                        (ranges[k], values[(choice >> 2) & 1], 2usize),
                    ];
                    input.sort_by_key(|item| (item.0).0);
                    let ranked = input
                        .iter()
                        .map(|item| Priority::new((item.0, item.1), item.2))
                        .collect();
                    let output =
                        drain(UnionIterMap::new(AssumePrioritySortedStartsMap::new(ranked)));
                    assert!(is_sorted_disjoint_map(&output));
                    for x in 0u8..=6 {
                        let best = input
                            .iter()
                            .filter(|item| (item.0).0 <= x && x <= (item.0).1)
                            .min_by_key(|item| item.2)
                            .map(|item| item.1);
                        let got = output
                            .iter()
                            .find(|item| (item.0).0 <= x && x <= (item.0).1)
                            .map(|item| item.1);
                        assert_eq!(got, best);
                    }
                }
            }
        }
    }
}

#[test]
fn map_union_at_the_end_of_the_type() {
    let ranked = vec![
        Priority::new(((250u8, 255), 1i8), 1),
        Priority::new(((250u8, 252), 2i8), 0),
        Priority::new(((255u8, 255), 3i8), 2),
    ];
    let union = UnionIterMap::new(AssumePrioritySortedStartsMap::new(ranked));
    assert_eq!(drain(union), vec![((250, 252), 2), ((253, 255), 1)]);
}

#[test]
fn map_union_from_unsorted_items() {
    let union = UnionIterMap::from_iter(vec![
        ((5, 100), "a"),
        ((5, 5), "b"),
        ((1, 4), "a"),
        ((9, 3), "c"),
        ((90, 110), "b"),
    ]);
    assert_eq!(drain(union), vec![((1, 100), "a"), ((101, 110), "b")]);
}

#[test]
fn map_union_from_points() {
    let union = UnionIterMap::from_points(vec![(5, "a"), (5, "b"), (1, "a"), (6, "a"), (2, "b")]);
    assert_eq!(
        drain(union),
        vec![((1, 1), "a"), ((2, 2), "b"), ((5, 6), "a")]
    );
}

#[test]
fn map_union_of_two_streams() {
    let left = checked_map(vec![((1, 2), "l"), ((10, 20), "l")]);
    let right = checked_map(vec![((2, 12), "r"), ((30, 30), "l")]);
    let union = BitOrMapMerge::new2(left, right);
    assert_eq!(
        drain(union),
        vec![((1, 2), "l"), ((3, 9), "r"), ((10, 20), "l"), ((30, 30), "l")]
    );
}

#[test]
fn map_union_of_many_streams() {
    let a = checked_map(vec![((1u16, 2), String::from("a"))]);
    let b = checked_map(vec![((0u16, 5), String::from("b"))]);
    let c = checked_map(vec![((4u16, 9), String::from("a")), ((65535, 65535), String::from("c"))]);
    let union = BitOrMapKMerge::new_k(vec![a, b, c]);
    assert_eq!(
        drain(union),
        vec![
            ((0, 0), String::from("b")),
            ((1, 2), String::from("a")),
            ((3, 5), String::from("b")),
            ((6, 9), String::from("a")),
            ((65535, 65535), String::from("c")),
        ]
    );
}

#[test]
fn merge_map_ranks_left_before_right() {
    let left = checked_map(vec![((1, 2), 10), ((5, 9), 11)]);
    let right = checked_map(vec![((1, 7), 20), ((8, 8), 21)]);
    let merged = drain_ranked(MergeMap::new(left, right));
    assert_eq!(
        merged,
        vec![((1, 7), 20, 1), ((1, 2), 10, 0), ((5, 9), 11, 0), ((8, 8), 21, 1)]
    );
}

#[test]
fn adjust_priority_sets_one_number() {
    let stream = AdjustPriorityMap::new(checked_map(vec![((1, 2), 'a'), ((3, 3), 'b')]), 7);
    assert_eq!(drain_ranked(stream), vec![((1, 2), 'a', 7), ((3, 3), 'b', 7)]);
}

#[test]
fn priority_accessors() {
    let mut p = Priority::new(((1, 4), "a"), 3);
    assert_eq!(p.priority_number(), 3);
    assert_eq!(p.range_value(), &((1, 4), "a"));
    assert_eq!(p.start(), 1);
    assert_eq!(p.end(), 4);
    assert_eq!(p.start_and_end(), (1, 4));
    assert_eq!(p.value(), &"a");
    p.set_range((2, 9));
    assert_eq!(p.start_and_end(), (2, 9));
    assert_eq!(p.value(), &"a");
    assert_eq!(p.priority_number(), 3);
    p.set_range_value(((7, 8), "b"));
    assert_eq!(p.range_value(), &((7, 8), "b"));
    assert_eq!(p.priority_number(), 3);
    let q = Priority::new(((0, 0), "c"), 4);
    assert!(p.outranks(&q));
    assert!(!q.outranks(&p));
    assert_eq!(q.into_range(), (0, 0));
    assert_eq!(p.into_range_value(), ((7, 8), "b"));
}

#[test]
fn values_compare_by_what_they_hold() {
    let a = String::from("same");
    let b = String::from("same");
    assert!(a.value_eq(&b));
    assert!(!a.value_eq(&String::from("other")));
    assert!("same".value_eq(&b.as_str()));
    assert!(!"same".value_eq(&"Same"));
    assert_eq!("text".value_clone(), "text");
    assert!(5u8.value_eq(&5) && !5u8.value_eq(&6));
    assert_eq!(range_value_clone(&((1, 2), String::from("v"))), ((1, 2), String::from("v")));
}

#[test]
fn checking_a_canonical_map() {
    assert!(is_sorted_disjoint_map::<i32, u8>(&vec![]));
    assert!(is_sorted_disjoint_map(&vec![((1, 2), 'a'), ((3, 4), 'b')]));
    assert!(is_sorted_disjoint_map(&vec![((1, 2), 'a'), ((4, 4), 'a')]));
    assert!(!is_sorted_disjoint_map(&vec![((1, 2), 'a'), ((3, 4), 'a')]));
    assert!(!is_sorted_disjoint_map(&vec![((1, 2), 'a'), ((2, 4), 'b')]));
    assert!(!is_sorted_disjoint_map(&vec![((3, 4), 'a'), ((1, 2), 'b')]));
    assert!(!is_sorted_disjoint_map(&vec![((2, 1), 'a')]));
    assert!(CheckSortedDisjointMap::try_new(vec![((1, 2), 'a'), ((3, 4), 'b')]).is_some());
    assert!(CheckSortedDisjointMap::try_new(vec![((1, 2), 'a'), ((3, 4), 'a')]).is_none());
}

#[test]
fn equal_maps() {
    assert!(equal_map(
        checked_map(vec![((1, 2), "a")]),
        checked_map(vec![((1, 2), "a")])
    ));
    assert!(!equal_map(
        checked_map(vec![((1, 2), "a")]),
        checked_map(vec![((1, 2), "b")])
    ));
    assert!(!equal_map(
        checked_map(vec![((1, 2), "a")]),
        checked_map(vec![((1, 3), "a")])
    ));
    assert!(!equal_map(
        checked_map(vec![((1, 2), "a")]),
        checked_map(vec![((1, 2), "a"), ((4, 4), "a")])
    ));
}

#[test]
fn ranges_of_a_map() {
    let map = checked_map(vec![((1, 2), 'a'), ((3, 4), 'b'), ((6, 6), 'b'), ((7, 9), 'c')]);
    let ranges = RangeValuesToRangesIter::new(map);
    assert_eq!(collect_ranges(ranges), vec![(1, 4), (6, 9)]);
}

#[test]
fn one_value_for_every_range() {
    let ranges = CheckSortedDisjoint::new(VecRangeIter::new(vec![(1u8, 2), (5, 100)]));
    let map = RangeToRangeValueIter::new(ranges, String::from("v"));
    assert_eq!(
        drain(map),
        vec![((1, 2), String::from("v")), ((5, 100), String::from("v"))]
    );
}

#[test]
fn map_length_so_far() {
    let mut a = SortedDisjointMapWithLenSoFar::from(checked_map(vec![
        ((1u8, 2), 'a'),
        ((3, 100), 'b'),
    ]));
    assert_eq!(a.len_so_far(), UIntPlusOne::UInt(0));
    assert_eq!(a.next(), Some(((1, 2), 'a')));
    assert_eq!(a.len_so_far(), UIntPlusOne::UInt(2));
    assert_eq!(a.next(), Some(((3, 100), 'b')));
    assert_eq!(a.len_so_far(), UIntPlusOne::UInt(100));
    assert_eq!(a.next(), None);
}

#[test]
fn checked_subtraction_that_stays_positive() {
    assert_eq!(non_zero_checked_sub(5, 1), Some(4));
    assert_eq!(non_zero_checked_sub(5, 4), Some(1));
    assert_eq!(non_zero_checked_sub(5, 5), None);
    assert_eq!(non_zero_checked_sub(5, 6), None);
    assert_eq!(non_zero_checked_sub(usize::MAX, 0), Some(usize::MAX));
}

#[test]
fn numbering_downwards() {
    let mut numbered = NonZeroEnumerate::new(VecRangeIter::new(vec![(1, 2), (0, 0)]));
    assert_eq!(numbered.next(), Some((usize::MAX, (1, 2))));
    assert_eq!(numbered.next(), Some((usize::MAX - 1, (0, 0))));
    assert_eq!(numbered.next(), None);
}
