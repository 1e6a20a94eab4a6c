//! Streams of ranges in any order: joining neighbours as they come,
//! promising an order without checking it, and counting what passes.

use crate::integer::{max_plus_one, Integer, UIntPlusOne};
use crate::not_iter::SizeHint;
use crate::ranges::{
    all_valid, all_within, covers, in_range, lemma_covers_skip, lemma_sorted_disjoint_skip,
    lemma_sorted_starts_skip, lemma_total_len_bound, lemma_total_len_skip, max_int, min_int,
    sorted_disjoint, sorted_starts, total_len,
};
use crate::set::RangeSetBlaze;
use crate::sorted_disjoint::{as_ints, RangeIter, SortedDisjoint, SortedStarts};
use crate::union_iter::union_ranges;
use core::marker::PhantomData;
use vstd::prelude::*;

verus! {

/// Gives a stream of ranges the promise of [`SortedStarts`] without any
/// check: whoever makes one vouches that the ranges come sorted by start.
pub struct AssumeSortedStarts<T: Integer, I: RangeIter<T>> {
    iter: I,
    phantom: PhantomData<T>,
}

impl<T: Integer, I: RangeIter<T>> AssumeSortedStarts<T, I> {
    /// The stream `iter`, whose ranges are sorted by start.
    pub fn new(iter: I) -> (r: Self)
        requires
            iter.inv(),
            sorted_starts(iter.remaining()),
        ensures
            r.inv(),
            r.remaining() == iter.remaining(),
    {
        AssumeSortedStarts { iter, phantom: PhantomData }
    }

    /// The set of the integers that the ranges of the stream cover.
    pub fn into_range_set_blaze(self) -> (r: RangeSetBlaze<T>)
        requires
            self.inv(),
        ensures
            r.wf(),
            r.range_seq() == union_ranges(self.remaining()),
    {
        RangeSetBlaze::from_sorted_starts(self)
    }
}

impl<T: Integer, I: RangeIter<T>> RangeIter<T> for AssumeSortedStarts<T, I> {
    closed spec fn inv(&self) -> bool {
        self.iter.inv() && sorted_starts(self.iter.remaining())
    }

    closed spec fn remaining(&self) -> Seq<(int, int)> {
        self.iter.remaining()
    }

    proof fn lemma_within(&self) {
        self.iter.lemma_within();
    }

    fn next(&mut self) -> (r: Option<(T, T)>) {
        let ghost before = self.iter.remaining();
        let r = self.iter.next();
        proof {
            if before.len() > 0 {
                lemma_sorted_starts_skip(before);
            }
        }
        r
    }
}

impl<T: Integer, I: RangeIter<T>> SortedStarts<T> for AssumeSortedStarts<T, I> {
    proof fn lemma_sorted_starts(&self) {
    }
}

/// Whether the ranges `a` and `b` overlap or touch, so that together they
/// hold the integers of one range.
pub open spec fn touching(a: (int, int), b: (int, int)) -> bool {
    !(a.1 + 1 < b.0 || b.1 + 1 < a.0)
}

/// The range from the lesser start to the greater end of `a` and `b`.
pub open spec fn hull(a: (int, int), b: (int, int)) -> (int, int) {
    (min_int(a.0, b.0), max_int(a.1, b.1))
}

/// What comes out when the non-empty range `cur` is pending and the ranges
/// `rest` are still to be read: an empty range of `rest` is dropped, one that
/// overlaps or touches `cur` is joined to it, and any other sends `cur` out
/// and takes its place.
pub open spec fn join_neighbours(cur: (int, int), rest: Seq<(int, int)>) -> Seq<(int, int)>
    decreases rest.len(),
{
    if rest.len() == 0 {
        seq![cur]
    } else {
        let r = rest[0];
        if r.0 > r.1 {
            join_neighbours(cur, rest.skip(1))
        } else if touching(cur, r) {
            join_neighbours(hull(cur, r), rest.skip(1))
        } else {
            seq![cur] + join_neighbours(r, rest.skip(1))
        }
    }
}

/// The ranges `s` with each run of successive ranges that overlap or touch
/// joined into one, and with the empty ranges dropped. The result is in no
/// particular order.
pub open spec fn unsorted_disjoint(s: Seq<(int, int)>) -> Seq<(int, int)>
    decreases s.len(),
{
    if s.len() == 0 {
        Seq::empty()
    } else if s[0].0 > s[0].1 {
        unsorted_disjoint(s.skip(1))
    } else {
        join_neighbours(s[0], s.skip(1))
    }
}

/// `join_neighbours(cur, rest)` holds only non-empty ranges, and covers
/// what `cur` and `rest` cover.
pub proof fn lemma_join_neighbours(cur: (int, int), rest: Seq<(int, int)>)
    requires
        cur.0 <= cur.1,
    ensures
        all_valid(join_neighbours(cur, rest)),
        forall|x: int|
            covers(join_neighbours(cur, rest), x) == (in_range(cur, x) || covers(rest, x)),
    decreases rest.len(),
{
    let out = join_neighbours(cur, rest);
    if rest.len() == 0 {
        assert forall|x: int| covers(out, x) == (in_range(cur, x) || covers(rest, x)) by {
            if in_range(cur, x) {
                assert(in_range(out[0], x));
            }
        }
    } else {
        let r = rest[0];
        let tail = rest.skip(1);
        if r.0 > r.1 {
            lemma_join_neighbours(cur, tail);
            assert forall|x: int| covers(out, x) == (in_range(cur, x) || covers(rest, x)) by {
                lemma_covers_skip(rest, x);
            }
        } else if touching(cur, r) {
            lemma_join_neighbours(hull(cur, r), tail);
            assert forall|x: int| covers(out, x) == (in_range(cur, x) || covers(rest, x)) by {
                lemma_covers_skip(rest, x);
                assert(in_range(hull(cur, r), x) == (in_range(cur, x) || in_range(r, x)));
            }
        } else {
            let t = join_neighbours(r, tail);
            lemma_join_neighbours(r, tail);
            assert forall|i: int| 0 <= i < out.len() implies (#[trigger] out[i]).0 <= out[i].1 by {
                if i > 0 {
                    assert(out[i] == t[i - 1]);
                }
            }
            assert forall|x: int| covers(out, x) == (in_range(cur, x) || covers(rest, x)) by {
                lemma_covers_skip(rest, x);
                lemma_covers_skip(out, x);
                assert(out.skip(1) =~= t);
            }
        }
    }
}

/// `unsorted_disjoint(s)` holds only non-empty ranges, and covers what `s`
/// covers.
pub proof fn lemma_unsorted_disjoint(s: Seq<(int, int)>)
    ensures
        all_valid(unsorted_disjoint(s)),
        forall|x: int| covers(unsorted_disjoint(s), x) == covers(s, x),
    decreases s.len(),
{
    if s.len() > 0 {
        if s[0].0 > s[0].1 {
            lemma_unsorted_disjoint(s.skip(1));
        } else {
            lemma_join_neighbours(s[0], s.skip(1));
        }
        assert forall|x: int| covers(unsorted_disjoint(s), x) == covers(s, x) by {
            lemma_covers_skip(s, x);
        }
    }
}

/// Every range of `join_neighbours(cur, rest)` lies within bounds that hold
/// `cur` and every range of `rest`.
pub proof fn lemma_join_neighbours_within(
    cur: (int, int),
    rest: Seq<(int, int)>,
    lo: int,
    hi: int,
)
    requires
        lo <= cur.0 <= hi,
        lo <= cur.1 <= hi,
        all_within(rest, lo, hi),
    ensures
        all_within(join_neighbours(cur, rest), lo, hi),
    decreases rest.len(),
{
    if rest.len() > 0 {
        let r = rest[0];
        let tail = rest.skip(1);
        assert forall|i: int| 0 <= i < tail.len() implies lo <= (#[trigger] tail[i]).0 <= hi && lo
            <= tail[i].1 <= hi by {
            assert(tail[i] == rest[i + 1]);
        }
        if r.0 > r.1 {
            lemma_join_neighbours_within(cur, tail, lo, hi);
        } else if touching(cur, r) {
            lemma_join_neighbours_within(hull(cur, r), tail, lo, hi);
        } else {
            lemma_join_neighbours_within(r, tail, lo, hi);
        }
    }
}

/// Every range of `unsorted_disjoint(s)` lies within bounds that hold every
/// range of `s`.
pub proof fn lemma_unsorted_disjoint_within(s: Seq<(int, int)>, lo: int, hi: int)
    requires
        all_within(s, lo, hi),
    ensures
        all_within(unsorted_disjoint(s), lo, hi),
    decreases s.len(),
{
    if s.len() > 0 {
        let tail = s.skip(1);
        assert forall|i: int| 0 <= i < tail.len() implies lo <= (#[trigger] tail[i]).0 <= hi && lo
            <= tail[i].1 <= hi by {
            assert(tail[i] == s[i + 1]);
        }
        if s[0].0 > s[0].1 {
            lemma_unsorted_disjoint_within(tail, lo, hi);
        } else {
            lemma_join_neighbours_within(s[0], tail, lo, hi);
        }
    }
}

/// Joins each run of successive ranges of a stream that overlap or touch
/// into one range, and drops the empty ranges. The stream may come in any
/// order, and what comes out is in no particular order either.
pub struct UnsortedDisjoint<T: Integer, I: RangeIter<T>> {
    iter: I,
    option_range: Option<(T, T)>,
    min_value_plus_2: T,
}

impl<T: Integer, I: RangeIter<T>> UnsortedDisjoint<T, I> {
    /// The ranges of `iter` with neighbours joined.
    pub fn new(iter: I) -> (r: Self)
        requires
            iter.inv(),
        ensures
            r.inv(),
            r.remaining() == unsorted_disjoint(iter.remaining()),
    {
        proof {
            T::lemma_domain_size();
        }
        UnsortedDisjoint {
            iter,
            option_range: None,
            min_value_plus_2: T::min_value().add_one().add_one(),
        }
    }
}

impl<T: Integer, I: RangeIter<T>> UnsortedDisjoint<T, I> {
    /// Whether a range is pending.
    pub closed spec fn has_pending(&self) -> bool {
        self.option_range is Some
    }

    /// The bounds on the number of ranges that are still to come, from the
    /// bounds `inner` on the number of ranges of the stream below: there may
    /// be as few as one, or none if the stream is empty, and as many as the
    /// stream has, and one more if a range is pending.
    pub fn size_hint(&self, inner: SizeHint) -> (r: SizeHint)
        requires
            self.has_pending() && inner.1 is Some ==> inner.1.unwrap() < usize::MAX,
        ensures
            r.0 == if inner.0 == 0 {
                0usize
            } else {
                1usize
            },
            r.1 == match inner.1 {
                Some(high) => Some(
                    if self.has_pending() {
                        (high + 1) as usize
                    } else {
                        high
                    },
                ),
                None => None,
            },
    {
        let (lower, upper) = inner;
        let lower: usize = if lower == 0 {
            0
        } else {
            1
        };
        if self.option_range.is_some() {
            let upper = match upper {
                Some(x) => Some(x + 1),
                None => None,
            };
            (lower, upper)
        } else {
            (lower, upper)
        }
    }
}

impl<T: Integer, I: RangeIter<T>> RangeIter<T> for UnsortedDisjoint<T, I> {
    closed spec fn inv(&self) -> bool {
        &&& self.iter.inv()
        &&& self.min_value_plus_2.as_int() == T::min_int() + 2
        &&& self.option_range matches Some(cur) ==> cur.0.as_int() <= cur.1.as_int()
    }

    closed spec fn remaining(&self) -> Seq<(int, int)> {
        match self.option_range {
            Some(cur) => join_neighbours(as_ints(cur), self.iter.remaining()),
            None => unsorted_disjoint(self.iter.remaining()),
        }
    }

    proof fn lemma_within(&self) {
        self.iter.lemma_within();
        match self.option_range {
            Some(cur) => {
                cur.0.lemma_in_bounds();
                cur.1.lemma_in_bounds();
                lemma_join_neighbours_within(
                    as_ints(cur),
                    self.iter.remaining(),
                    T::min_int(),
                    T::max_int(),
                );
            },
            None => {
                lemma_unsorted_disjoint_within(self.iter.remaining(), T::min_int(), T::max_int());
            },
        }
    }

    fn next(&mut self) -> (r: Option<(T, T)>) {
        loop
            invariant
                self.inv(),
                self.remaining() == old(self).remaining(),
            decreases self.iter.remaining().len(),
        {
            let (next_start, next_end) = match self.iter.next() {
                Some(range) => range,
                None => {
                    let last = self.option_range;
                    self.option_range = None;
                    proof {
                        if let Some(cur) = last {
                            assert(old(self).remaining() == seq![as_ints(cur)]);
                            assert(old(self).remaining().skip(1) =~= self.remaining());
                        }
                    }
                    return last;
                },
            };
            if next_end.is_lt(next_start) {
                continue ;
            }
            let (self_start, self_end) = match self.option_range {
                Some(cur) => cur,
                None => {
                    self.option_range = Some((next_start, next_end));
                    continue ;
                },
            };
            proof {
                next_start.lemma_in_bounds();
                self_start.lemma_in_bounds();
                next_end.lemma_in_bounds();
                self_end.lemma_in_bounds();
            }
            if (self.min_value_plus_2.is_le(next_start) && self_end.is_le(
                next_start.sub_one().sub_one(),
            )) || (self.min_value_plus_2.is_le(self_start) && next_end.is_le(
                self_start.sub_one().sub_one(),
            )) {
                self.option_range = Some((next_start, next_end));
                proof {
                    let out = old(self).remaining();
                    assert(out == seq![as_ints((self_start, self_end))] + self.remaining());
                    assert(out.skip(1) =~= self.remaining());
                }
                return Some((self_start, self_end));
            }
            let lower = if self_start.is_lt(next_start) {
                self_start
            } else {
                next_start
            };
            let upper = if self_end.is_lt(next_end) {
                next_end
            } else {
                self_end
            };
            self.option_range = Some((lower, upper));
        }
    }
}

/// Passes a canonical stream of ranges on and counts the integers that have
/// gone through.
pub struct SortedDisjointWithLenSoFar<T: Integer, I: SortedDisjoint<T>> {
    iter: I,
    len: UIntPlusOne,
    phantom: PhantomData<T>,
}

impl<T: Integer, I: SortedDisjoint<T>> SortedDisjointWithLenSoFar<T, I> {
    /// The stream `iter`, with nothing counted yet.
    pub fn new(iter: I) -> (r: Self)
        requires
            iter.inv(),
        ensures
            r.inv(),
            r.remaining() == iter.remaining(),
            r.counted() == 0,
    {
        proof {
            iter.lemma_sorted_disjoint();
            iter.lemma_within();
            T::lemma_domain_size();
            lemma_total_len_bound(iter.remaining(), T::min_int(), T::max_int());
        }
        SortedDisjointWithLenSoFar { iter, len: UIntPlusOne::zero(), phantom: PhantomData }
    }

    /// The number of integers in the ranges that have gone through.
    pub closed spec fn counted(&self) -> int {
        self.len.as_int()
    }

    /// The number of integers in the ranges that have gone through so far.
    pub fn len_so_far(&self) -> (r: UIntPlusOne)
        ensures
            r.as_int() == self.counted(),
    {
        self.len
    }
}

impl<T: Integer, I: SortedDisjoint<T>> RangeIter<T> for SortedDisjointWithLenSoFar<T, I> {
    closed spec fn inv(&self) -> bool {
        &&& self.iter.inv()
        &&& 0 <= self.len.as_int()
        &&& self.len.as_int() + total_len(self.iter.remaining()) <= max_plus_one()
    }

    closed spec fn remaining(&self) -> Seq<(int, int)> {
        self.iter.remaining()
    }

    proof fn lemma_within(&self) {
        self.iter.lemma_within();
    }

    fn next(&mut self) -> (r: Option<(T, T)>)
        ensures
            final(self).counted() + total_len(final(self).remaining()) == old(self).counted()
                + total_len(old(self).remaining()),
    {
        let ghost rest = self.iter.remaining();
        proof {
            self.iter.lemma_sorted_disjoint();
        }
        match self.iter.next() {
            Some((start, end)) => {
                proof {
                    assert(rest[0].0 <= rest[0].1);
                    lemma_total_len_skip(rest);
                    lemma_sorted_disjoint_skip(rest);
                    self.iter.lemma_within();
                    T::lemma_domain_size();
                    lemma_total_len_bound(rest.skip(1), T::min_int(), T::max_int());
                }
                self.len = self.len.plus(UIntPlusOne::from_span(T::span(start, end)));
                Some((start, end))
            },
            None => {
                proof {
                    assert(self.iter.remaining() =~= rest);
                }
                None
            },
        }
    }
}

impl<T: Integer, I: SortedDisjoint<T>> SortedStarts<T> for SortedDisjointWithLenSoFar<T, I> {
    proof fn lemma_sorted_starts(&self) {
        self.iter.lemma_sorted_starts();
    }
}

impl<T: Integer, I: SortedDisjoint<T>> SortedDisjoint<T> for SortedDisjointWithLenSoFar<T, I> {
    proof fn lemma_sorted_disjoint(&self) {
        self.iter.lemma_sorted_disjoint();
    }
}

} // verus!
