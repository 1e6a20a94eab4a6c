//! A set of integers, kept as a vector of ranges in canonical form.

use crate::integer::{max_plus_one, Integer, UIntPlusOne};
use crate::merge::{lemma_merge_counts, lemma_merge_sorted, merge_by_start, Merge};
use crate::ranges::{
    all_within, canonical, covers, in_range, lemma_canonical_is, lemma_cover_count_zero,
    lemma_sorted_disjoint_is_sorted_starts, lemma_sorted_disjoint_skip, lemma_total_len_bound,
    lemma_total_len_skip, points, sorted_disjoint, total_len,
};
use crate::sorted_disjoint::{
    as_ints, ints_of, CheckSortedDisjoint, RangeIter, SortedDisjoint, SortedStarts, VecRangeIter,
};
use crate::text::{push_range, range_text, ranges_text};
use crate::union_iter::{lemma_union_ranges_canonical, union_ranges, UnionIter};
use crate::unsorted_disjoint::SortedDisjointWithLenSoFar;
use vstd::prelude::*;
use vstd::string::StringExecFns;

verus! {

/// A set of integers, stored as the sorted and disjoint ranges that make
/// it up.
pub struct RangeSetBlaze<T: Integer> {
    ranges: Vec<(T, T)>,
    len: UIntPlusOne,
}

/// A canonical stream over the ranges of a [`RangeSetBlaze`], which it
/// borrows.
pub struct RangesIter<'a, T: Integer> {
    ranges: &'a Vec<(T, T)>,
    pos: usize,
}

impl<'a, T: Integer> RangeIter<T> for RangesIter<'a, T> {
    closed spec fn inv(&self) -> bool {
        self.pos <= self.ranges.len() && sorted_disjoint(ints_of(self.ranges@))
    }

    closed spec fn remaining(&self) -> Seq<(int, int)> {
        ints_of(self.ranges@).skip(self.pos as int)
    }

    proof fn lemma_within(&self) {
        let s = self.remaining();
        assert forall|i: int| 0 <= i < s.len() implies T::min_int() <= (#[trigger] s[i]).0
            <= T::max_int() && T::min_int() <= s[i].1 <= T::max_int() by {
            let r = self.ranges@[i + self.pos];
            r.0.lemma_in_bounds();
            r.1.lemma_in_bounds();
        }
    }

    fn next(&mut self) -> (r: Option<(T, T)>) {
        if self.pos < self.ranges.len() {
            let item = self.ranges[self.pos];
            self.pos = self.pos + 1;
            assert(self.remaining() =~= old(self).remaining().skip(1));
            Some(item)
        } else {
            None
        }
    }
}

impl<'a, T: Integer> SortedStarts<T> for RangesIter<'a, T> {
    proof fn lemma_sorted_starts(&self) {
        self.lemma_sorted_disjoint();
        lemma_sorted_disjoint_is_sorted_starts(self.remaining());
    }
}

impl<'a, T: Integer> SortedDisjoint<T> for RangesIter<'a, T> {
    proof fn lemma_sorted_disjoint(&self) {
        let all = ints_of(self.ranges@);
        let s = self.remaining();
        assert forall|i: int| 0 <= i < s.len() implies (#[trigger] s[i]).0 <= s[i].1 by {
            assert(s[i] == all[i + self.pos]);
        }
        assert forall|i: int, j: int| 0 <= i < j < s.len() implies (#[trigger] s[i]).1 + 1 < (
        #[trigger] s[j]).0 by {
            assert(s[i] == all[i + self.pos]);
            assert(s[j] == all[j + self.pos]);
        }
    }
}

impl<T: Integer> View for RangeSetBlaze<T> {
    type V = Set<int>;

    /// The integers of the set.
    closed spec fn view(&self) -> Set<int> {
        points(ints_of(self.ranges@))
    }
}

impl<T: Integer> RangeSetBlaze<T> {
    /// The ranges of the set, in rising order.
    pub closed spec fn range_seq(&self) -> Seq<(int, int)> {
        ints_of(self.ranges@)
    }

    /// The invariant of the set: its ranges are in canonical form, and its
    /// length is the number of integers in them.
    pub closed spec fn wf(&self) -> bool {
        &&& sorted_disjoint(self.range_seq())
        &&& self.len.as_int() == total_len(self.range_seq())
    }

    /// The integers of the set are those that its ranges cover.
    pub proof fn lemma_view(&self)
        ensures
            self@ == points(self.range_seq()),
    {
    }

    /// Every range of the set lies within the element type.
    pub proof fn lemma_within(&self)
        ensures
            all_within(self.range_seq(), T::min_int(), T::max_int()),
    {
        let s = self.range_seq();
        assert forall|i: int| 0 <= i < s.len() implies T::min_int() <= (#[trigger] s[i]).0
            <= T::max_int() && T::min_int() <= s[i].1 <= T::max_int() by {
            let r = self.ranges@[i];
            r.0.lemma_in_bounds();
            r.1.lemma_in_bounds();
        }
    }

    /// The empty set.
    pub fn new() -> (r: Self)
        ensures
            r.wf(),
            r.range_seq() == Seq::<(int, int)>::empty(),
    {
        let r = RangeSetBlaze { ranges: Vec::new(), len: UIntPlusOne::zero() };
        assert(r.range_seq() =~= Seq::empty());
        r
    }

    /// The set of the ranges of a canonical stream.
    pub fn from_sorted_disjoint<I: SortedDisjoint<T>>(iter: I) -> (r: Self)
        requires
            iter.inv(),
        ensures
            r.wf(),
            r.range_seq() == iter.remaining(),
    {
        let ghost all = iter.remaining();
        proof {
            iter.lemma_sorted_disjoint();
        }
        let mut counting = SortedDisjointWithLenSoFar::new(iter);
        let mut ranges: Vec<(T, T)> = Vec::new();
        loop
            invariant
                counting.inv(),
                ints_of(ranges@) + counting.remaining() == all,
                counting.counted() + total_len(counting.remaining()) == total_len(all),
            ensures
                ints_of(ranges@) == all,
                counting.counted() == total_len(all),
            decreases counting.remaining().len(),
        {
            match counting.next() {
                Some(range) => {
                    let ghost before = ints_of(ranges@);
                    ranges.push(range);
                    proof {
                        assert(ints_of(ranges@) =~= before.push(as_ints(range)));
                        assert(ints_of(ranges@) + counting.remaining() =~= all);
                    }
                },
                None => {
                    proof {
                        assert(ints_of(ranges@) =~= all);
                        assert(counting.remaining() =~= Seq::empty());
                    }
                    break ;
                },
            }
        }
        RangeSetBlaze { ranges, len: counting.len_so_far() }
    }

    /// The set of the integers that the ranges of a stream cover, which
    /// come sorted by start.
    pub fn from_sorted_starts<I: SortedStarts<T>>(iter: I) -> (r: Self)
        requires
            iter.inv(),
        ensures
            r.wf(),
            r.range_seq() == union_ranges(iter.remaining()),
    {
        Self::from_sorted_disjoint(UnionIter::new(iter))
    }

    /// The set of the integers that the ranges `ranges` cover. The ranges
    /// may come in any order, overlap, and be empty.
    pub fn from_iter(ranges: Vec<(T, T)>) -> (r: Self)
        ensures
            r.wf(),
            r.range_seq() == canonical(points(ints_of(ranges@)), T::min_int(), T::max_int()),
    {
        Self::from_sorted_disjoint(UnionIter::from_iter(ranges))
    }

    /// A canonical stream over the ranges of the set.
    pub fn ranges(&self) -> (r: RangesIter<'_, T>)
        requires
            self.wf(),
        ensures
            r.inv(),
            r.remaining() == self.range_seq(),
    {
        let r = RangesIter { ranges: &self.ranges, pos: 0 };
        assert(r.remaining() =~= self.range_seq());
        r
    }

    /// Adds the integers of `range` to the set. An empty range adds
    /// nothing.
    pub fn internal_add(&mut self, range: (T, T))
        requires
            old(self).wf(),
        ensures
            final(self).wf(),
            final(self).range_seq() == canonical(
                points(old(self).range_seq().push(as_ints(range))),
                T::min_int(),
                T::max_int(),
            ),
    {
        let ghost lo = T::min_int();
        let ghost hi = T::max_int();
        let ghost before = self.range_seq();
        let ghost added = before.push(as_ints(range));
        let ghost one = seq![as_ints(range)];
        proof {
            range.0.lemma_in_bounds();
            range.1.lemma_in_bounds();
        }
        if range.1.is_lt(range.0) {
            proof {
                self.lemma_within();
                assert forall|x: int| covers(before, x) == (lo <= x <= hi && points(
                    added,
                ).contains(x)) by {
                    if covers(before, x) {
                        let i = choose|i: int|
                            0 <= i < before.len() && in_range(#[trigger] before[i], x);
                        assert(added[i] == before[i]);
                    }
                    if covers(added, x) {
                        let i = choose|i: int|
                            0 <= i < added.len() && in_range(#[trigger] added[i], x);
                        assert(added[i] == before[i]);
                    }
                }
                lemma_canonical_is(before, points(added), lo, hi);
            }
            return ;
        }
        let single = VecRangeIter::new(vec![range]);
        proof {
            assert(single.remaining() =~= one);
        }
        let extra = CheckSortedDisjoint::new(single);
        let current = self.ranges();
        proof {
            current.lemma_within();
            extra.lemma_within();
            current.lemma_sorted_starts();
            extra.lemma_sorted_starts();
        }
        let merged = Merge::new(current, extra);
        let ghost m = merge_by_start(before, one);
        let union = UnionIter::new(merged);
        let result = Self::from_sorted_disjoint(union);
        proof {
            lemma_merge_sorted(before, one);
            assert(all_within(m, lo, hi));
            lemma_union_ranges_canonical(m, lo, hi);
            assert(points(m) =~= points(added)) by {
                assert forall|x: int| covers(m, x) == covers(added, x) by {
                    lemma_merge_counts(before, one, x);
                    crate::ranges::lemma_cover_count_concat(before, one, x);
                    assert(before + one =~= added);
                    lemma_cover_count_zero(m, x);
                    lemma_cover_count_zero(added, x);
                }
            }
        }
        *self = result;
    }

    /// The number of integers in the set.
    pub fn len(&self) -> (r: UIntPlusOne)
        requires
            self.wf(),
        ensures
            r.as_int() == total_len(self.range_seq()),
    {
        self.len
    }

    /// The number of integers in the set, counted range by range.
    pub fn len_slow(&self) -> (r: UIntPlusOne)
        requires
            self.wf(),
        ensures
            r.as_int() == total_len(self.range_seq()),
    {
        let ghost all = self.range_seq();
        let mut total = UIntPlusOne::zero();
        let mut i: usize = 0;
        proof {
            self.lemma_within();
            T::lemma_domain_size();
            lemma_total_len_bound(all, T::min_int(), T::max_int());
            assert(all.skip(0) =~= all);
        }
        while i < self.ranges.len()
            invariant
                0 <= i <= self.ranges.len(),
                all == ints_of(self.ranges@),
                sorted_disjoint(all.skip(i as int)),
                0 <= total_len(all) <= max_plus_one(),
                0 <= total.as_int(),
                total.as_int() + total_len(all.skip(i as int)) == total_len(all),
            decreases self.ranges.len() - i,
        {
            let (start, end) = self.ranges[i];
            proof {
                let rest = all.skip(i as int);
                assert(rest[0] == all[i as int]);
                assert(rest[0].0 <= rest[0].1);
                lemma_total_len_skip(rest);
                lemma_sorted_disjoint_skip(rest);
                assert(rest.skip(1) =~= all.skip(i + 1));
                self.lemma_within();
                T::lemma_domain_size();
                assert(all_within(all.skip(i + 1), T::min_int(), T::max_int())) by {
                    assert forall|k: int| 0 <= k < all.skip(i + 1).len() implies T::min_int() <= (
                    #[trigger] all.skip(i + 1)[k]).0 <= T::max_int() && T::min_int() <= all.skip(
                        i + 1,
                    )[k].1 <= T::max_int() by {
                        assert(all.skip(i + 1)[k] == all[k + i + 1]);
                    }
                }
                lemma_total_len_bound(all.skip(i + 1), T::min_int(), T::max_int());
            }
            total = total.plus(UIntPlusOne::from_span(T::span(start, end)));
            i += 1;
        }
        proof {
            assert(all.skip(self.ranges.len() as int) =~= Seq::empty());
        }
        total
    }

    /// The number of ranges in the set.
    pub fn ranges_len(&self) -> (r: usize)
        ensures
            r == self.range_seq().len(),
    {
        self.ranges.len()
    }

    /// Whether the set holds no integer.
    pub fn is_empty(&self) -> (r: bool)
        ensures
            r == (self.range_seq().len() == 0),
    {
        self.ranges.len() == 0
    }

    /// Whether the set holds `value`.
    pub fn contains(&self, value: T) -> (r: bool)
        ensures
            r == self@.contains(value.as_int()),
    {
        let ghost all = self.range_seq();
        let ghost x = value.as_int();
        let mut i: usize = 0;
        while i < self.ranges.len()
            invariant
                0 <= i <= self.ranges.len(),
                all == ints_of(self.ranges@),
                x == value.as_int(),
                forall|k: int| 0 <= k < i ==> !in_range(#[trigger] all[k], x),
            decreases self.ranges.len() - i,
        {
            let (start, end) = self.ranges[i];
            if start.is_le(value) && value.is_le(end) {
                proof {
                    assert(in_range(all[i as int], x));
                }
                return true;
            }
            i += 1;
        }
        proof {
            if covers(all, x) {
                let k = choose|k: int| 0 <= k < all.len() && in_range(#[trigger] all[k], x);
            }
        }
        false
    }

    /// The text of the set: its ranges as `start..=end`, joined by a comma
    /// and a space.
    pub fn to_string(&self) -> (r: String)
        ensures
            r@ == ranges_text(self.range_seq()),
    {
        let ghost all = self.range_seq();
        let mut text = String::new();
        let mut i: usize = 0;
        proof {
            assert(all.take(0) =~= Seq::empty());
        }
        while i < self.ranges.len()
            invariant
                0 <= i <= self.ranges.len(),
                all == ints_of(self.ranges@),
                text@ == ranges_text(all.take(i as int)),
            decreases self.ranges.len() - i,
        {
            let ghost so_far = text@;
            if i > 0 {
                proof {
                    reveal_strlit(", ");
                }
                text.append(", ");
            }
            push_range(&mut text, self.ranges[i]);
            proof {
                let prefix = all.take(i + 1);
                assert(prefix.drop_last() =~= all.take(i as int));
                assert(prefix.last() == all[i as int]);
                reveal_strlit(", ");
                assert(", "@ =~= seq![',', ' ']);
                if i == 0 {
                    assert(so_far =~= Seq::empty());
                    assert(text@ =~= range_text(all[0]));
                } else {
                    assert(text@ =~= so_far + seq![',', ' '] + range_text(all[i as int]));
                }
            }
            i += 1;
        }
        proof {
            assert(all.take(self.ranges.len() as int) =~= all);
        }
        text
    }

    /// The first and the last integer of the set, if it holds any.
    pub fn first_and_last(&self) -> (r: Option<(T, T)>)
        requires
            self.wf(),
        ensures
            match r {
                Some((first, last)) => self.range_seq().len() > 0 && first.as_int()
                    == self.range_seq()[0].0 && last.as_int() == self.range_seq().last().1,
                None => self.range_seq().len() == 0,
            },
    {
        if self.ranges.len() == 0 {
            None
        } else {
            Some((self.ranges[0].0, self.ranges[self.ranges.len() - 1].1))
        }
    }
}

} // verus!
