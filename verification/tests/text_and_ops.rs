use range_set_blaze::{
    cmk_debug_string, collect_ranges, complement, difference, equal, intersection,
    into_range_map_blaze, is_empty, ranges_to_string, symmetric_difference, union,
    CheckSortedDisjoint, CheckSortedDisjointMap, Integer, RangeMapBlaze, UIntPlusOne, UnionIterMap,
    ValueOwned, VecMapIter, VecRangeIter,
};
use range_set_blaze::DebugToString;

fn checked<T: Integer>(ranges: Vec<(T, T)>) -> CheckSortedDisjoint<T, VecRangeIter<T>> {
    CheckSortedDisjoint::new(VecRangeIter::new(ranges))
}

fn checked_map<T: Integer, V: ValueOwned>(
    items: Vec<((T, T), V)>,
) -> CheckSortedDisjointMap<T, V, VecMapIter<T, V>> {
    CheckSortedDisjointMap::new(VecMapIter::new(items))
}

#[test]
fn text_of_a_stream_of_ranges() {
    let b = complement(checked(vec![(1u8, 2), (5, 100)]));
    assert_eq!(ranges_to_string(b), "0..=0, 3..=4, 101..=255");
    assert_eq!(ranges_to_string(checked::<i32>(vec![])), "");
    assert_eq!(ranges_to_string(checked(vec![(-3, 7)])), "-3..=7");
}

#[test]
fn text_of_a_stream_of_entries() {
    let a = checked_map(vec![((1, 2), "a"), ((5, 100), "b")]);
    assert_eq!(a.to_string(), "(1..=2, \"a\"), (5..=100, \"b\")");
    let b = checked_map(vec![((-1i8, 2), 7u16)]);
    assert_eq!(b.to_string(), "(-1..=2, 7)");
    let c = checked_map(vec![((0u8, 0), true), ((1, 1), false)]);
    assert_eq!(c.to_string(), "(0..=0, true), (1..=1, false)");
    let d = checked_map(vec![((0u8, 0), 'x'), ((1, 1), '\n')]);
    assert_eq!(d.to_string(), "(0..=0, 'x'), (1..=1, '\\n')");
    let e = checked_map(vec![((0u8, 0), String::from("say \"hi\""))]);
    assert_eq!(e.to_string(), "(0..=0, \"say \\\"hi\\\"\")");
    let f: CheckSortedDisjointMap<i32, u8, _> = checked_map(vec![]);
    assert_eq!(f.to_string(), "");
}

#[test]
fn text_of_an_entry_that_may_be_missing() {
    assert_eq!(cmk_debug_string(&Some(((1, 4), "a"))), "Some(1..=4)");
    assert_eq!(cmk_debug_string::<i32, u8>(&None), "None");
}

#[test]
fn the_set_operations() {
    let a = vec![(1, 2), (5, 100)];
    let b = vec![(2, 6), (200, 300)];
    assert_eq!(
        collect_ranges(union(checked(a.clone()), checked(b.clone()))),
        vec![(1, 100), (200, 300)]
    );
    assert_eq!(
        collect_ranges(intersection(checked(a.clone()), checked(b.clone()))),
        vec![(2, 2), (5, 6)]
    );
    assert_eq!(
        collect_ranges(difference(checked(a.clone()), checked(b.clone()))),
        vec![(1, 1), (7, 100)]
    );
    assert_eq!(
        collect_ranges(symmetric_difference(checked(a.clone()), checked(b.clone()))),
        vec![(1, 1), (3, 4), (7, 100), (200, 300)]
    );
    assert_eq!(
        collect_ranges(complement(checked(vec![(i32::MIN, 0), (10, i32::MAX)]))),
        vec![(1, 9)]
    );
    assert!(is_empty(difference(checked(vec![(2, 2)]), checked(vec![(1, 3)]))));
    assert!(!is_empty(difference(checked(vec![(2, 2), (4, 4)]), checked(vec![(1, 3)]))));
}

#[test]
fn the_laws_on_given_sets() {
    let a = vec![(1u8, 2), (5, 100), (255, 255)];
    let b = vec![(0u8, 0), (2, 6), (90, 254)];
    // complement(a | b) == complement(a) & complement(b)
    assert!(equal(
        complement(union(checked(a.clone()), checked(b.clone()))),
        intersection(complement(checked(a.clone())), complement(checked(b.clone())))
    ));
    // a - b == a & complement(b)
    assert!(equal(
        difference(checked(a.clone()), checked(b.clone())),
        intersection(checked(a.clone()), complement(checked(b.clone())))
    ));
    // a ^ b == (a | b) - (a & b)
    assert!(equal(
        symmetric_difference(checked(a.clone()), checked(b.clone())),
        difference(
            union(checked(a.clone()), checked(b.clone())),
            intersection(checked(a.clone()), checked(b.clone()))
        )
    ));
}

#[test]
fn a_map_from_scattered_items() {
    let map = RangeMapBlaze::from_iter(vec![
        ((5u8, 100), "a"),
        ((5, 5), "b"),
        ((1, 4), "a"),
        ((90, 110), "b"),
        ((255, 255), "c"),
    ]);
    assert_eq!(
        map.to_string(),
        "(1..=100, \"a\"), (101..=110, \"b\"), (255..=255, \"c\")"
    );
    assert_eq!(map.len(), UIntPlusOne::UInt(111));
    assert_eq!(map.range_values_len(), 3);
    let copy = into_range_map_blaze(map.range_values());
    assert_eq!(copy.to_string(), map.to_string());
    let again = RangeMapBlaze::from_sorted_disjoint_map(map.into_range_values());
    assert_eq!(again.to_string(), copy.to_string());
    assert_eq!(RangeMapBlaze::<i16, u8>::new().to_string(), "");
    assert_eq!(RangeMapBlaze::<i16, u8>::new().len(), UIntPlusOne::UInt(0));
}

#[test]
fn a_map_at_once_and_item_by_item() {
    // the earlier item wins, whether the items come at once or one stream each
    let items = vec![((3u8, 9), 1u8), ((0, 4), 2), ((8, 12), 3), ((20, 20), 1), ((21, 22), 1)];
    let at_once = RangeMapBlaze::from_iter(items.clone());
    let streams = items
        .into_iter()
        .map(|item| checked_map(vec![item]))
        .collect();
    let one_each = into_range_map_blaze(range_set_blaze::BitOrMapKMerge::new_k(streams));
    assert_eq!(at_once.to_string(), "(0..=2, 2), (3..=9, 1), (10..=12, 3), (20..=22, 1)");
    assert_eq!(at_once.to_string(), one_each.to_string());
    let _ = UnionIterMap::from_iter(Vec::<((u8, u8), u8)>::new());
}
