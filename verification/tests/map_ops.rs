use range_set_blaze::{
    collect_ranges, complement_map, complement_to_set, difference_map, difference_with_set,
    intersection_map, intersection_with_set, into_sorted_disjoint, is_empty_map,
    is_sorted_disjoint_map, AnythingGoesMap, CheckSortedDisjoint, CheckSortedDisjointMap, Integer,
    NotIter, SortedDisjointIter, UnionIter, UnsortedDisjoint, UnsortedPriorityDisjointMap,
    ValueOwned, VecMapIter, VecRangeIter,
};
use range_set_blaze::DebugToString;

fn checked<T: Integer>(ranges: Vec<(T, T)>) -> CheckSortedDisjoint<T, VecRangeIter<T>> {
    CheckSortedDisjoint::new(VecRangeIter::new(ranges))
}

fn checked_map<T: Integer, V: ValueOwned>(
    items: Vec<((T, T), V)>,
) -> CheckSortedDisjointMap<T, V, VecMapIter<T, V>> {
    CheckSortedDisjointMap::new(VecMapIter::new(items))
}

fn drain<T: Integer, V: ValueOwned, I: AnythingGoesMap<T, V>>(mut iter: I) -> Vec<((T, T), V)> {
    let mut out = Vec::new();
    while let Some(item) = iter.next() {
        out.push(item);
    }
    out
}

#[test]
fn map_over_a_set() {
    let map = checked_map(vec![((1u8, 10), 'a'), ((11, 20), 'b'), ((30, 40), 'a')]);
    let set = checked(vec![(0u8, 2), (5, 12), (14, 14), (20, 35), (50, 60)]);
    assert_eq!(
        drain(intersection_with_set(map, set)),
        vec![
            ((1, 2), 'a'),
            ((5, 10), 'a'),
            ((11, 12), 'b'),
            ((14, 14), 'b'),
            ((20, 20), 'b'),
            ((30, 35), 'a'),
        ]
    );
}

#[test]
fn map_over_a_set_against_a_count_by_hand() {
    let maps = vec![
        vec![((0u8, 3), 1u8), ((4, 4), 2), ((6, 9), 1)],
        vec![((2u8, 2), 5u8)],
        vec![((0u8, 255), 9u8)],
        vec![],
    ];
    let sets = vec![
        vec![(0u8, 0), (2, 4), (6, 6), (8, 255)],
        vec![(3u8, 7)],
        vec![(0u8, 255)],
        vec![],
    ];
    for map in &maps {
        for set in &sets {
            let output = drain(intersection_with_set(
                checked_map(map.clone()),
                checked(set.clone()),
            ));
            assert!(is_sorted_disjoint_map(&output));
            for x in 0u8..=255 {
                let in_set = set.iter().any(|r| r.0 <= x && x <= r.1);
                let expected = map
                    .iter()
                    .find(|e| (e.0).0 <= x && x <= (e.0).1)
                    .map(|e| e.1)
                    .filter(|_| in_set);
                let got = output
                    .iter()
                    .find(|e| (e.0).0 <= x && x <= (e.0).1)
                    .map(|e| e.1);
                assert_eq!(got, expected);
            }
        }
    }
}

#[test]
fn map_without_a_set_and_without_a_map() {
    let map = vec![((1i8, 10), "a"), ((11, 20), "b")];
    let set = vec![(i8::MIN, 2), (11, 11), (19, i8::MAX)];
    assert_eq!(
        drain(difference_with_set(checked_map(map.clone()), checked(set))),
        vec![((3, 10), "a"), ((12, 18), "b")]
    );
    let other = vec![((5i8, 12), "z")];
    assert_eq!(
        drain(difference_map(checked_map(map.clone()), checked_map(other.clone()))),
        vec![((1, 4), "a"), ((13, 20), "b")]
    );
    assert_eq!(
        drain(intersection_map(checked_map(map), checked_map(other))),
        vec![((5, 10), "a"), ((11, 12), "b")]
    );
}

#[test]
fn complement_of_a_map() {
    let map = vec![((1u8, 10), 'a'), ((11, 20), 'b'), ((22, 255), 'a')];
    assert_eq!(
        collect_ranges(complement_to_set(checked_map(map.clone()))),
        vec![(0, 0), (21, 21)]
    );
    assert_eq!(
        complement_map(checked_map(map.clone()), 'z').to_string(),
        "(0..=0, 'z'), (21..=21, 'z')"
    );
    assert_eq!(
        collect_ranges(into_sorted_disjoint(checked_map(map))),
        vec![(1, 20), (22, 255)]
    );
}

#[test]
fn empty_and_not_empty_maps() {
    assert!(is_empty_map(checked_map::<i32, u8>(vec![])));
    assert!(!is_empty_map(checked_map(vec![((1, 1), 0u8)])));
    assert!(is_empty_map(intersection_with_set(
        checked_map(vec![((1, 5), 0u8)]),
        checked(vec![(6, 9)])
    )));
}

#[test]
fn ranking_unsorted_items() {
    let mut ranked = UnsortedPriorityDisjointMap::new(VecMapIter::new(vec![
        ((10u8, 12), 'a'),
        ((13, 14), 'a'),
        ((9, 3), 'q'),
        ((14, 20), 'b'),
        ((0, 1), 'b'),
        ((2, 2), 'b'),
    ]));
    let mut out = Vec::new();
    while let Some(item) = ranked.next() {
        out.push((item.start_and_end(), *item.value(), item.priority_number()));
    }
    assert_eq!(
        out,
        vec![((10, 14), 'a', 0), ((14, 20), 'b', 3), ((0, 2), 'b', 4)]
    );
}

#[test]
fn bounds_on_what_is_to_come() {
    assert_eq!(
        NotIter::<u8, CheckSortedDisjoint<u8, VecRangeIter<u8>>>::size_hint((0, Some(0))),
        (0, Some(1))
    );
    assert_eq!(
        NotIter::<u8, CheckSortedDisjoint<u8, VecRangeIter<u8>>>::size_hint((3, Some(usize::MAX))),
        (2, Some(usize::MAX))
    );
    assert_eq!(
        NotIter::<u8, CheckSortedDisjoint<u8, VecRangeIter<u8>>>::size_hint((1, None)),
        (0, None)
    );
    let mut union = UnionIter::new(checked(vec![(1, 2), (4, 5), (7, 8)]));
    assert_eq!(union.size_hint((3, Some(3))), (1, Some(3)));
    assert_eq!(range_set_blaze::RangeIter::next(&mut union), Some((1, 2)));
    assert_eq!(union.size_hint((1, Some(1))), (1, Some(2)));
    assert_eq!(union.size_hint((0, None)), (0, None));
    let canonical = SortedDisjointIter::new(checked(vec![(1, 2)]));
    assert_eq!(canonical.size_hint((1, Some(1))), (1, Some(1)));
    let mut joined = UnsortedDisjoint::new(VecRangeIter::new(vec![(1, 2), (9, 9), (4, 5)]));
    assert_eq!(joined.size_hint((3, Some(3))), (1, Some(3)));
    assert_eq!(range_set_blaze::RangeIter::next(&mut joined), Some((1, 2)));
    assert_eq!(joined.size_hint((1, Some(1))), (1, Some(2)));
    let ranked = UnsortedPriorityDisjointMap::new(VecMapIter::new(vec![((1, 2), 0u8)]));
    assert_eq!(ranked.size_hint((1, Some(1))), (1, Some(1)));
    assert_eq!(ranked.size_hint((0, Some(0))), (0, Some(0)));
}
