//! Ordering whole buffers of ranges by start: the one place where ranges
//! are sorted, and the merge of any number of sorted lists.

use crate::integer::Integer;
use crate::map::ValueOwned;
use crate::ranges::sorted_starts;
use crate::sorted_disjoint::ints_of;
use crate::sorted_disjoint_map::{ranked_of, sorted_starts_ranked, Priority, Ranked};
use core::cmp::Ordering;
use itertools::Itertools;
use vstd::prelude::*;

verus! {

/// Whether the range `a` starts below the range `b`.
pub fn starts_before<T: Integer>(a: &(T, T), b: &(T, T)) -> (r: bool)
    ensures
        r == (a.0.as_int() < b.0.as_int()),
{
    a.0.is_lt(b.0)
}

/// How the start of the range `a` stands to the start of the range `b`.
pub fn start_order<T: Integer>(a: &(T, T), b: &(T, T)) -> (r: Ordering)
    ensures
        match r {
            Ordering::Less => a.0.as_int() < b.0.as_int(),
            Ordering::Equal => a.0.as_int() == b.0.as_int(),
            Ordering::Greater => a.0.as_int() > b.0.as_int(),
        },
{
    if a.0.is_lt(b.0) {
        Ordering::Less
    } else if b.0.is_lt(a.0) {
        Ordering::Greater
    } else {
        Ordering::Equal
    }
}

/// The ranges of all the lists of `lists`, list after list.
pub open spec fn lists_flat<T: Integer>(lists: Seq<Vec<(T, T)>>) -> Seq<(int, int)>
    decreases lists.len(),
{
    if lists.len() == 0 {
        Seq::empty()
    } else {
        lists_flat(lists.drop_last()) + ints_of(lists.last()@)
    }
}

/// Whether each list of `lists` is sorted by start.
pub open spec fn lists_sorted<T: Integer>(lists: Seq<Vec<(T, T)>>) -> bool {
    forall|i: int| 0 <= i < lists.len() ==> sorted_starts(ints_of(#[trigger] lists[i]@))
}

/// Sorts ranges by start, with `Itertools::sorted_by` and [`start_order`].
///
/// Trusted: the result holds the same ranges, each as often as `ranges`
/// does, and they come sorted by start. The outside function collects the
/// items and sorts them with the slice's stable sort.
#[verifier::external_body]
pub(crate) fn sorted_by_start<T: Integer>(ranges: Vec<(T, T)>) -> (out: Vec<(T, T)>)
    ensures
        sorted_starts(ints_of(out@)),
        ints_of(out@).to_multiset() == ints_of(ranges@).to_multiset(),
{
    ranges.into_iter().sorted_by(|a, b| start_order(a, b)).collect()
}

/// Merges lists of ranges by start, with `Itertools::kmerge_by` and
/// [`starts_before`].
///
/// Trusted: the result holds the ranges of all the lists, each as often as
/// the lists together do, and where every list is sorted by start, so is
/// the result. The outside function keeps the lists in a heap ordered by
/// their first items and hands out the least first item each time.
#[verifier::external_body]
pub(crate) fn kmerge_by_start<T: Integer>(lists: Vec<Vec<(T, T)>>) -> (out: Vec<(T, T)>)
    ensures
        ints_of(out@).to_multiset() == lists_flat(lists@).to_multiset(),
        lists_sorted(lists@) ==> sorted_starts(ints_of(out@)),
{
    lists.into_iter().kmerge_by(|a, b| starts_before(a, b)).collect()
}

/// Whether the ranked entry `a` starts below the ranked entry `b`.
pub fn priority_starts_before<T: Integer, V: ValueOwned>(
    a: &Priority<T, V>,
    b: &Priority<T, V>,
) -> (r: bool)
    ensures
        r == (a@.range.0 < b@.range.0),
{
    a.start().is_lt(b.start())
}

/// How the start of the ranked entry `a` stands to the start of the ranked
/// entry `b`. The priority numbers play no part.
pub fn priority_start_order<T: Integer, V: ValueOwned>(
    a: &Priority<T, V>,
    b: &Priority<T, V>,
) -> (r: Ordering)
    ensures
        match r {
            Ordering::Less => a@.range.0 < b@.range.0,
            Ordering::Equal => a@.range.0 == b@.range.0,
            Ordering::Greater => a@.range.0 > b@.range.0,
        },
{
    if a.start().is_lt(b.start()) {
        Ordering::Less
    } else if b.start().is_lt(a.start()) {
        Ordering::Greater
    } else {
        Ordering::Equal
    }
}

/// The ranked entries of all the lists of `lists`, list after list.
pub open spec fn priority_lists_flat<T: Integer, V: ValueOwned>(
    lists: Seq<Vec<Priority<T, V>>>,
) -> Seq<Ranked<V::V>>
    decreases lists.len(),
{
    if lists.len() == 0 {
        Seq::empty()
    } else {
        priority_lists_flat(lists.drop_last()) + ranked_of(lists.last()@)
    }
}

/// Whether each list of `lists` is sorted by start.
pub open spec fn priority_lists_sorted<T: Integer, V: ValueOwned>(
    lists: Seq<Vec<Priority<T, V>>>,
) -> bool {
    forall|i: int|
        0 <= i < lists.len() ==> sorted_starts_ranked(ranked_of(#[trigger] lists[i]@))
}

/// Sorts ranked entries by start, with `Itertools::sorted_by` and
/// [`priority_start_order`].
///
/// Trusted: the result holds the same ranked entries, each as often as
/// `items` does, and they come sorted by start. The outside function
/// collects the items and sorts them with the slice's stable sort.
#[verifier::external_body]
pub(crate) fn sorted_priorities_by_start<T: Integer, V: ValueOwned>(
    items: Vec<Priority<T, V>>,
) -> (out: Vec<Priority<T, V>>)
    ensures
        sorted_starts_ranked(ranked_of(out@)),
        ranked_of(out@).to_multiset() == ranked_of(items@).to_multiset(),
{
    items.into_iter().sorted_by(|a, b| priority_start_order(a, b)).collect()
}

/// Merges lists of ranked entries by start, with `Itertools::kmerge_by`
/// and [`priority_starts_before`].
///
/// Trusted: the result holds the ranked entries of all the lists, each as
/// often as the lists together do, and where every list is sorted by
/// start, so is the result.
#[verifier::external_body]
pub(crate) fn kmerge_priorities_by_start<T: Integer, V: ValueOwned>(
    lists: Vec<Vec<Priority<T, V>>>,
) -> (out: Vec<Priority<T, V>>)
    ensures
        ranked_of(out@).to_multiset() == priority_lists_flat(lists@).to_multiset(),
        priority_lists_sorted(lists@) ==> sorted_starts_ranked(ranked_of(out@)),
{
    lists.into_iter().kmerge_by(|a, b| priority_starts_before(a, b)).collect()
}

} // verus!
