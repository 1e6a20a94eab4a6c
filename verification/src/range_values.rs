//! Adapters between streams of ranges and streams of ranges with values.

use crate::integer::Integer;
use crate::map::ValueOwned;
use crate::map_ranges::{lemma_one_entry_holds, ranges_of, sorted_disjoint_map};
use crate::ranges::{
    all_within, in_range, lemma_sorted_disjoint_is_sorted_starts, sorted_starts, starts_from,
};
use crate::sorted_disjoint::{as_ints, pulled, RangeIter, SortedDisjoint, SortedStarts};
use crate::sorted_disjoint_map::{
    all_valid_ranked, contends, sorted_starts_ranked, values_decided, with_priority,
    AnythingGoesMap, Priority, PrioritySortedDisjointMap, PrioritySortedStartsMap, Ranked,
    SortedDisjointMap, SortedStartsMap,
};
use crate::union_iter::{
    coalesce, lemma_coalesce, lemma_coalesce_within, lemma_union_ranges, lemma_union_ranges_within,
    union_ranges,
};
use core::marker::PhantomData;
use vstd::prelude::*;

verus! {

/// The ranges of a canonical sequence of entries are non-empty, sorted by
/// start, and each ends below the start of the next.
pub proof fn lemma_ranges_of_canonical<VV>(s: Seq<((int, int), VV)>)
    requires
        sorted_disjoint_map(s),
    ensures
        sorted_starts(ranges_of(s)),
        forall|i: int| 0 <= i < s.len() ==> (#[trigger] ranges_of(s)[i]).0 <= ranges_of(s)[i].1,
        forall|i: int, j: int|
            0 <= i < j < s.len() ==> (#[trigger] ranges_of(s)[i]).1 < (#[trigger] ranges_of(
                s,
            )[j]).0,
{
    let r = ranges_of(s);
    assert forall|i: int, j: int| 0 <= i < j < r.len() implies (#[trigger] r[i]).0 <= (
    #[trigger] r[j]).0 by {
        assert(s[i].0.1 < s[j].0.0);
        assert(s[i].0.0 <= s[i].0.1);
    }
    assert forall|i: int| 0 <= i < s.len() implies (#[trigger] r[i]).0 <= r[i].1 by {
        assert(s[i].0.0 <= s[i].0.1);
    }
    assert forall|i: int, j: int| 0 <= i < j < s.len() implies (#[trigger] r[i]).1 < (
    #[trigger] r[j]).0 by {
        assert(s[i].0.1 < s[j].0.0);
    }
}

/// Turns a canonical stream of ranges with values into the canonical
/// stream of the integers that it holds: the values are dropped, and ranges
/// that touch are joined.
pub struct RangeValuesToRangesIter<T: Integer, V: ValueOwned, I: SortedDisjointMap<T, V>> {
    iter: I,
    option_ranges: Option<(T, T)>,
    phantom: PhantomData<V>,
}

impl<T: Integer, V: ValueOwned, I: SortedDisjointMap<T, V>> RangeValuesToRangesIter<T, V, I> {
    /// The ranges of `iter`, without their values.
    pub fn new(iter: I) -> (r: Self)
        requires
            iter.inv(),
        ensures
            r.inv(),
            r.remaining() == union_ranges(ranges_of(iter.remaining())),
    {
        RangeValuesToRangesIter { iter, option_ranges: None, phantom: PhantomData }
    }
}

impl<T: Integer, V: ValueOwned, I: SortedDisjointMap<T, V>> RangeIter<
    T,
> for RangeValuesToRangesIter<T, V, I> {
    closed spec fn inv(&self) -> bool {
        &&& self.iter.inv()
        &&& match self.option_ranges {
            Some(cur) => cur.0.as_int() <= cur.1.as_int() && starts_from(
                ranges_of(self.iter.remaining()),
                cur.1.as_int() + 1,
            ),
            None => true,
        }
    }

    closed spec fn remaining(&self) -> Seq<(int, int)> {
        match self.option_ranges {
            Some(cur) => coalesce(as_ints(cur), ranges_of(self.iter.remaining())),
            None => union_ranges(ranges_of(self.iter.remaining())),
        }
    }

    proof fn lemma_within(&self) {
        self.iter.lemma_within();
        let r = ranges_of(self.iter.remaining());
        assert(all_within(r, T::min_int(), T::max_int())) by {
            assert forall|i: int| 0 <= i < r.len() implies T::min_int() <= (#[trigger] r[i]).0
                <= T::max_int() && T::min_int() <= r[i].1 <= T::max_int() by {
                assert(r[i] == self.iter.remaining()[i].0);
            }
        }
        match self.option_ranges {
            Some(cur) => {
                cur.0.lemma_in_bounds();
                cur.1.lemma_in_bounds();
                lemma_coalesce_within(as_ints(cur), r, T::min_int(), T::max_int());
            },
            None => {
                lemma_union_ranges_within(r, T::min_int(), T::max_int());
            },
        }
    }

    fn next(&mut self) -> (r: Option<(T, T)>) {
        loop
            invariant
                self.inv(),
                self.remaining() == old(self).remaining(),
            decreases self.iter.remaining().len(),
        {
            let ghost entries = self.iter.remaining();
            let ghost rest = ranges_of(entries);
            proof {
                self.iter.lemma_sorted_disjoint();
                lemma_ranges_of_canonical(entries);
            }
            let (next_start, next_end) = match self.iter.next() {
                Some(next_range_value) => next_range_value.0,
                None => {
                    let last = self.option_ranges;
                    self.option_ranges = None;
                    proof {
                        assert(rest =~= Seq::empty());
                        assert(ranges_of(self.iter.remaining()) =~= Seq::empty());
                        if let Some(cur) = last {
                            assert(old(self).remaining() == seq![as_ints(cur)]);
                            assert(old(self).remaining().skip(1) =~= self.remaining());
                        }
                    }
                    return last;
                },
            };
            proof {
                assert(rest[0] == (next_start.as_int(), next_end.as_int()));
                assert(ranges_of(self.iter.remaining()) =~= rest.skip(1));
                assert forall|i: int| 0 <= i < rest.skip(1).len() implies next_end.as_int() + 1 <= (
                #[trigger] rest.skip(1)[i]).0 by {
                    assert(rest.skip(1)[i] == rest[i + 1]);
                    assert(rest[0].1 < rest[i + 1].0);
                }
            }
            let (current_start, current_end) = match self.option_ranges {
                Some(current_range) => current_range,
                None => {
                    self.option_ranges = Some((next_start, next_end));
                    continue ;
                },
            };
            proof {
                current_end.lemma_in_bounds();
                next_start.lemma_in_bounds();
            }
            if current_end.add_one().is_eq(next_start) {
                self.option_ranges = Some((current_start, next_end));
                continue ;
            }
            self.option_ranges = Some((next_start, next_end));
            proof {
                let out = old(self).remaining();
                assert(out == seq![as_ints((current_start, current_end))] + self.remaining());
                assert(out.skip(1) =~= self.remaining());
            }
            return Some((current_start, current_end));
        }
    }
}

impl<T: Integer, V: ValueOwned, I: SortedDisjointMap<T, V>> SortedStarts<
    T,
> for RangeValuesToRangesIter<T, V, I> {
    proof fn lemma_sorted_starts(&self) {
        self.lemma_sorted_disjoint();
        lemma_sorted_disjoint_is_sorted_starts(self.remaining());
    }
}

impl<T: Integer, V: ValueOwned, I: SortedDisjointMap<T, V>> SortedDisjoint<
    T,
> for RangeValuesToRangesIter<T, V, I> {
    proof fn lemma_sorted_disjoint(&self) {
        self.iter.lemma_sorted_disjoint();
        let r = ranges_of(self.iter.remaining());
        lemma_ranges_of_canonical(self.iter.remaining());
        match self.option_ranges {
            Some(cur) => {
                assert forall|i: int| 0 <= i < r.len() implies cur.0.as_int() <= (
                #[trigger] r[i]).0 by {}
                lemma_coalesce(as_ints(cur), r);
            },
            None => {
                lemma_union_ranges(r);
            },
        }
    }
}

/// The difference `value - subtrahend` if it is positive, and `None` if it
/// is not.
pub fn non_zero_checked_sub(value: usize, subtrahend: usize) -> (r: Option<usize>)
    requires
        value > 0,
    ensures
        r == if value > subtrahend {
            Some((value - subtrahend) as usize)
        } else {
            None
        },
{
    if value > subtrahend {
        Some(value - subtrahend)
    } else {
        None
    }
}

/// Numbers the ranges of a stream downwards from the largest `usize`, so
/// that no number is zero.
pub struct NonZeroEnumerate<T: Integer, I: RangeIter<T>> {
    inner: I,
    current_index: usize,
    phantom: PhantomData<T>,
}

impl<T: Integer, I: RangeIter<T>> NonZeroEnumerate<T, I> {
    /// The ranges of `inner`, numbered from `usize::MAX` downwards.
    pub fn new(inner: I) -> (r: Self)
        requires
            inner.inv(),
            inner.remaining().len() < usize::MAX,
        ensures
            r.inv(),
            r.remaining() == inner.remaining(),
            r.next_number() == usize::MAX,
    {
        NonZeroEnumerate { inner, current_index: usize::MAX, phantom: PhantomData }
    }

    /// The invariant: the numbers that are left suffice for the ranges that
    /// are left.
    pub closed spec fn inv(&self) -> bool {
        self.inner.inv() && self.inner.remaining().len() < self.current_index
    }

    /// The ranges that are still to come.
    pub closed spec fn remaining(&self) -> Seq<(int, int)> {
        self.inner.remaining()
    }

    /// The number that the next range gets.
    pub closed spec fn next_number(&self) -> usize {
        self.current_index
    }

    /// Hands out the next range with its number, or `None` when no range
    /// is left.
    pub fn next(&mut self) -> (r: Option<(usize, (T, T))>)
        requires
            old(self).inv(),
        ensures
            final(self).inv(),
            match r {
                Some((index, range)) => {
                    &&& index == old(self).next_number()
                    &&& final(self).next_number() == index - 1
                    &&& pulled(
                        old(self).remaining(),
                        Some(as_ints(range)),
                        final(self).remaining(),
                    )
                },
                None => pulled(old(self).remaining(), None, final(self).remaining())
                    && final(self).next_number() == old(self).next_number(),
            },
    {
        match self.inner.next() {
            Some(item) => {
                let index = self.current_index;
                match non_zero_checked_sub(self.current_index, 1) {
                    Some(lower) => {
                        self.current_index = lower;
                    },
                    None => {},
                }
                Some((index, item))
            },
            None => None,
        }
    }
}

/// Gives every entry of a canonical stream of ranges with values one and
/// the same priority number.
pub struct AdjustPriorityMap<T: Integer, V: ValueOwned, I: SortedDisjointMap<T, V>> {
    iter: I,
    new_priority: usize,
    phantom: PhantomData<(T, V)>,
}

impl<T: Integer, V: ValueOwned, I: SortedDisjointMap<T, V>> AdjustPriorityMap<T, V, I> {
    /// The entries of `iter`, each ranked by `new_priority`.
    pub fn new(iter: I, new_priority: usize) -> (r: Self)
        requires
            iter.inv(),
        ensures
            r.inv(),
            r.remaining() == with_priority(iter.remaining(), new_priority as nat),
    {
        AdjustPriorityMap { iter, new_priority, phantom: PhantomData }
    }
}

/// The ranked entries of a canonical sequence that all get one priority
/// number are non-empty and sorted by start, end each below the start of
/// the next, and have ranks that decide every value.
pub proof fn lemma_with_priority<VV>(s: Seq<((int, int), VV)>, priority: nat)
    requires
        sorted_disjoint_map(s),
    ensures
        all_valid_ranked(with_priority(s, priority)),
        sorted_starts_ranked(with_priority(s, priority)),
        values_decided(with_priority(s, priority)),
        forall|i: int, j: int|
            0 <= i < j < s.len() ==> (#[trigger] with_priority(s, priority)[i]).range.1 < (
            #[trigger] with_priority(s, priority)[j]).range.0,
{
    let r = with_priority(s, priority);
    assert forall|i: int| 0 <= i < r.len() implies (#[trigger] r[i]).range.0
        <= r[i].range.1 by {
        assert(s[i].0.0 <= s[i].0.1);
    }
    assert forall|i: int, j: int| 0 <= i < j < r.len() implies (#[trigger] r[i]).range.0 <= (
    #[trigger] r[j]).range.0 && r[i].range.1 < r[j].range.0 by {
        assert(s[i].0.1 < s[j].0.0);
        assert(s[i].0.0 <= s[i].0.1);
    }
    assert forall|x: int, pr: nat, v1: VV, v2: VV|
        #[trigger] contends(r, x, pr, v1) && #[trigger] contends(r, x, pr, v2) implies v1
        == v2 by {
        let i = choose|i: int|
            0 <= i < r.len() && in_range((#[trigger] r[i]).range, x) && r[i].priority == pr
                && r[i].value == v1;
        let j = choose|j: int|
            0 <= j < r.len() && in_range((#[trigger] r[j]).range, x) && r[j].priority == pr
                && r[j].value == v2;
        lemma_one_entry_holds(s, i, j, x);
    }
}

impl<T: Integer, V: ValueOwned, I: SortedDisjointMap<T, V>> PrioritySortedStartsMap<
    T,
    V,
> for AdjustPriorityMap<T, V, I> {
    closed spec fn inv(&self) -> bool {
        self.iter.inv()
    }

    closed spec fn remaining(&self) -> Seq<Ranked<V::V>> {
        with_priority(self.iter.remaining(), self.new_priority as nat)
    }

    proof fn lemma_promise(&self) {
        self.iter.lemma_sorted_disjoint();
        self.iter.lemma_within();
        lemma_with_priority(self.iter.remaining(), self.new_priority as nat);
        let r = self.remaining();
        assert forall|i: int| 0 <= i < r.len() implies T::min_int() <= (#[trigger] r[i]).range.0
            <= T::max_int() && T::min_int() <= r[i].range.1 <= T::max_int() by {
            assert(r[i].range == self.iter.remaining()[i].0);
        }
    }

    fn next(&mut self) -> (r: Option<Priority<T, V>>) {
        match self.iter.next() {
            Some(range_value) => {
                proof {
                    assert(self.remaining() =~= old(self).remaining().skip(1));
                }
                Some(Priority::new(range_value, self.new_priority))
            },
            None => None,
        }
    }
}

impl<T: Integer, V: ValueOwned, I: SortedDisjointMap<T, V>> PrioritySortedDisjointMap<
    T,
    V,
> for AdjustPriorityMap<T, V, I> {
    proof fn lemma_disjoint(&self) {
        self.iter.lemma_sorted_disjoint();
        lemma_with_priority(self.iter.remaining(), self.new_priority as nat);
    }
}

} // verus!
