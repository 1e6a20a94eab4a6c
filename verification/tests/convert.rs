use itertools::Itertools;
use range_set_blaze::{
    equal, equal_map, AssumePrioritySortedStartsMap, AssumeSortedStarts, CheckSortedDisjoint,
    CheckSortedDisjointMap, Priority, UnionIter, UnionIterMap, UnsortedPriorityDisjointMap,
    VecMapIter, VecRangeIter,
};

type Entry = ((i32, i32), &'static str);

fn checked_map(items: Vec<Entry>) -> CheckSortedDisjointMap<i32, &'static str, VecMapIter<i32, &'static str>> {
    CheckSortedDisjointMap::new(VecMapIter::new(items))
}

fn checked(ranges: Vec<(i32, i32)>) -> CheckSortedDisjoint<i32, VecRangeIter<i32>> {
    CheckSortedDisjoint::new(VecRangeIter::new(ranges))
}

fn ranked(items: Vec<Entry>) -> Vec<Priority<i32, &'static str>> {
    items
        .into_iter()
        .enumerate()
        .map(|(i, range_value)| Priority::new(range_value, i))
        .collect()
}

fn sorted_by_start(items: Vec<Priority<i32, &'static str>>) -> Vec<Priority<i32, &'static str>> {
    items
        .into_iter()
        .sorted_by(|a, b| {
            // We sort only by start -- priority is not used until later.
            a.start().cmp(&b.start())
        })
        .collect()
}

fn drain_ranked(
    mut stream: UnsortedPriorityDisjointMap<i32, &'static str, VecMapIter<i32, &'static str>>,
) -> Vec<Priority<i32, &'static str>> {
    let mut out = Vec::new();
    while let Some(item) = stream.next() {
        out.push(item);
    }
    out
}

#[test]
pub fn convert_challenge() {
    //===========================
    // Map - ranges
    //===========================

    // * from sorted_disjoint
    let a = checked_map(vec![((1, 2), "a"), ((5, 100), "a")]);
    assert!(equal_map(a, checked_map(vec![((1, 2), "a"), ((5, 100), "a")])));

    // * from (priority) sorted_starts
    let a = ranked(vec![((1, 4), "a"), ((5, 100), "a"), ((5, 5), "b")]);
    let a = AssumePrioritySortedStartsMap::new(a);
    let a = UnionIterMap::new(a);
    assert!(equal_map(a, checked_map(vec![((1, 100), "a")])));

    // * from unsorted_disjoint
    let iter = ranked(vec![((5, 100), "a"), ((5, 5), "b"), ((1, 4), "a")]);
    let iter = sorted_by_start(iter);
    let iter = AssumePrioritySortedStartsMap::new(iter);
    let iter = UnionIterMap::new(iter);
    assert!(equal_map(iter, checked_map(vec![((1, 100), "a")])));

    // * anything
    let iter = vec![(5, "a"), (5, "b"), (1, "a")]
        .into_iter()
        .map(|(x, y)| ((x, x), y))
        .collect();
    let iter = UnsortedPriorityDisjointMap::new(VecMapIter::new(iter));
    let iter = sorted_by_start(drain_ranked(iter));
    let iter = AssumePrioritySortedStartsMap::new(iter);
    let iter = UnionIterMap::new(iter);
    assert!(equal_map(
        iter,
        checked_map(vec![((1, 1), "a"), ((5, 5), "a")])
    ));

    //===========================
    // Map - points
    //===========================

    // * from sorted_disjoint
    let a = vec![(1, "a"), (5, "a")]
        .into_iter()
        .map(|(x, y)| ((x, x), y))
        .collect();
    let a = checked_map(a);
    assert!(equal_map(a, checked_map(vec![((1, 1), "a"), ((5, 5), "a")])));

    // * from (priority) sorted_starts
    let a = vec![(1, "a"), (5, "a"), (5, "b")]
        .into_iter()
        .enumerate()
        .map(|(i, (k, v))| Priority::new(((k, k), v), i))
        .collect();
    let a = AssumePrioritySortedStartsMap::new(a);
    let a = UnionIterMap::new(a);
    assert!(equal_map(a, checked_map(vec![((1, 1), "a"), ((5, 5), "a")])));

    // * from unsorted_disjoint
    let iter = vec![(5, "a"), (5, "b"), (1, "a")]
        .into_iter()
        .enumerate()
        .map(|(i, (k, v))| Priority::new(((k, k), v), i))
        .collect();
    let iter = sorted_by_start(iter);
    let iter = AssumePrioritySortedStartsMap::new(iter);
    let iter = UnionIterMap::new(iter);
    assert!(equal_map(iter, checked_map(vec![((1, 1), "a"), ((5, 5), "a")])));

    // * anything
    let iter = vec![((5, 100), "a"), ((5, 5), "b"), ((1, 4), "a")];
    let iter = UnsortedPriorityDisjointMap::new(VecMapIter::new(iter));
    let iter = sorted_by_start(drain_ranked(iter));
    let iter = AssumePrioritySortedStartsMap::new(iter);
    let iter = UnionIterMap::new(iter);
    assert!(equal_map(iter, checked_map(vec![((1, 100), "a")])));

    //===========================
    // Set - ranges
    //===========================

    // * from sorted_disjoint
    let a = checked(vec![(1, 2), (5, 100)]);
    assert!(equal(a, checked(vec![(1, 2), (5, 100)])));

    // * from (priority) sorted_starts
    let a = vec![(1, 4), (5, 100), (5, 5)];
    let a = AssumeSortedStarts::new(VecRangeIter::new(a));
    let a = UnionIter::new(a);
    assert!(equal(a, checked(vec![(1, 100)])));

    // * from unsorted_disjoint
    let iter: Vec<(i32, i32)> = vec![(5, 100), (5, 5), (1, 4)]
        .into_iter()
        .sorted_by(|a, b| {
            // We sort only by start -- priority is not used until later.
            a.0.cmp(&b.0)
        })
        .collect();
    let iter = AssumeSortedStarts::new(VecRangeIter::new(iter));
    let iter = UnionIter::new(iter);
    assert!(equal(iter, checked(vec![(1, 100)])));

    // * anything
    let iter: Vec<(i32, i32)> = vec![(5, 100), (5, 5), (1, 5)]
        .into_iter()
        .sorted_by(|a, b| {
            // We sort only by start -- priority is not used until later.
            a.0.cmp(&b.0)
        })
        .collect();
    let iter = AssumeSortedStarts::new(VecRangeIter::new(iter));
    let iter = UnionIter::new(iter);
    assert!(equal(iter, checked(vec![(1, 100)])));
}
