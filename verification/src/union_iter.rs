//! Union: turns a stream of ranges sorted by start into the canonical
//! stream of the integers that they cover.

use crate::integer::Integer;
use crate::not_iter::SizeHint;
use crate::ranges::{
    all_within, canonical, covers, in_range, lemma_canonical_is, lemma_covers_permutation,
    lemma_covers_skip, lemma_prepend_canonical, lemma_sorted_starts_skip, max_int, points,
    sorted_disjoint, sorted_starts, starts_from,
};
use crate::sorted_disjoint::{
    as_ints, collect_ranges, ints_of, RangeIter, SortedDisjoint, SortedStarts, VecRangeIter,
};
use crate::sorting::sorted_by_start;
use crate::unsorted_disjoint::{lemma_unsorted_disjoint, AssumeSortedStarts, UnsortedDisjoint};
use vstd::prelude::*;

verus! {

/// The canonical ranges that come out when the non-empty range `cur` is
/// being extended and the ranges `rest` are still to be read: a range of
/// `rest` that is empty is dropped, one that overlaps or touches `cur` is
/// absorbed into it, and the first one that lies beyond `cur` closes it.
pub open spec fn coalesce(cur: (int, int), rest: Seq<(int, int)>) -> Seq<(int, int)>
    decreases rest.len(),
{
    if rest.len() == 0 {
        seq![cur]
    } else {
        let r = rest[0];
        if r.1 < r.0 {
            coalesce(cur, rest.skip(1))
        } else if r.0 <= cur.1 + 1 {
            coalesce((cur.0, max_int(cur.1, r.1)), rest.skip(1))
        } else {
            seq![cur] + coalesce(r, rest.skip(1))
        }
    }
}

/// The union of the ranges `s`, which are sorted by start: the canonical
/// sequence of the integers that they cover.
pub open spec fn union_ranges(s: Seq<(int, int)>) -> Seq<(int, int)>
    decreases s.len(),
{
    if s.len() == 0 {
        Seq::empty()
    } else if s[0].1 < s[0].0 {
        union_ranges(s.skip(1))
    } else {
        coalesce(s[0], s.skip(1))
    }
}

/// Extending `cur` by ranges that are sorted by start, none of which
/// starts below it, gives a canonical sequence that starts where `cur`
/// starts and covers what `cur` and the ranges cover.
pub proof fn lemma_coalesce(cur: (int, int), rest: Seq<(int, int)>)
    requires
        cur.0 <= cur.1,
        sorted_starts(rest),
        starts_from(rest, cur.0),
    ensures
        sorted_disjoint(coalesce(cur, rest)),
        coalesce(cur, rest).len() > 0,
        coalesce(cur, rest)[0].0 == cur.0,
        forall|x: int| covers(coalesce(cur, rest), x) == (in_range(cur, x) || covers(rest, x)),
    decreases rest.len(),
{
    let out = coalesce(cur, rest);
    if rest.len() == 0 {
        assert(out[0] == cur);
        assert forall|x: int| covers(out, x) == (in_range(cur, x) || covers(rest, x)) by {
            if in_range(cur, x) {
                assert(in_range(out[0], x));
            }
        }
    } else {
        let r = rest[0];
        let tail = rest.skip(1);
        lemma_sorted_starts_skip(rest);
        assert forall|i: int| 0 <= i < tail.len() implies r.0 <= (#[trigger] tail[i]).0 by {
            assert(tail[i] == rest[i + 1]);
        }
        if r.1 < r.0 {
            assert forall|i: int| 0 <= i < tail.len() implies cur.0 <= (#[trigger] tail[i]).0 by {
                assert(tail[i] == rest[i + 1]);
            }
            lemma_coalesce(cur, tail);
            assert forall|x: int| covers(out, x) == (in_range(cur, x) || covers(rest, x)) by {
                lemma_covers_skip(rest, x);
            }
        } else if r.0 <= cur.1 + 1 {
            let wider = (cur.0, max_int(cur.1, r.1));
            assert(cur.0 <= r.0);
            assert forall|i: int| 0 <= i < tail.len() implies wider.0 <= (#[trigger] tail[i]).0 by {
                assert(tail[i] == rest[i + 1]);
            }
            lemma_coalesce(wider, tail);
            assert(out == coalesce(wider, tail));
            assert forall|x: int| covers(out, x) == (in_range(cur, x) || covers(rest, x)) by {
                lemma_covers_skip(rest, x);
                assert(in_range(wider, x) == (in_range(cur, x) || in_range(r, x)));
            }
        } else {
            let t = coalesce(r, tail);
            lemma_coalesce(r, tail);
            lemma_prepend_canonical(cur, t);
            assert(out[0] == cur);
            assert forall|x: int| covers(out, x) == (in_range(cur, x) || covers(rest, x)) by {
                lemma_covers_skip(rest, x);
                lemma_covers_skip(out, x);
                assert(out.skip(1) =~= t);
            }
        }
    }
}

/// The union of ranges that are sorted by start is canonical and covers
/// exactly what the ranges cover.
pub proof fn lemma_union_ranges(s: Seq<(int, int)>)
    requires
        sorted_starts(s),
    ensures
        sorted_disjoint(union_ranges(s)),
        forall|x: int| covers(union_ranges(s), x) == covers(s, x),
    decreases s.len(),
{
    if s.len() == 0 {
    } else {
        let tail = s.skip(1);
        lemma_sorted_starts_skip(s);
        if s[0].1 < s[0].0 {
            lemma_union_ranges(tail);
            assert forall|x: int| covers(union_ranges(s), x) == covers(s, x) by {
                lemma_covers_skip(s, x);
            }
        } else {
            assert forall|i: int| 0 <= i < tail.len() implies s[0].0 <= (#[trigger] tail[i]).0 by {
                assert(tail[i] == s[i + 1]);
            }
            lemma_coalesce(s[0], tail);
            assert forall|x: int| covers(union_ranges(s), x) == covers(s, x) by {
                lemma_covers_skip(s, x);
            }
        }
    }
}

/// Every range of `coalesce(cur, rest)` lies within bounds that hold `cur`
/// and every range of `rest`.
pub proof fn lemma_coalesce_within(cur: (int, int), rest: Seq<(int, int)>, lo: int, hi: int)
    requires
        lo <= cur.0 <= hi,
        lo <= cur.1 <= hi,
        all_within(rest, lo, hi),
    ensures
        all_within(coalesce(cur, rest), lo, hi),
    decreases rest.len(),
{
    if rest.len() > 0 {
        let r = rest[0];
        let tail = rest.skip(1);
        assert forall|i: int| 0 <= i < tail.len() implies lo <= (#[trigger] tail[i]).0 <= hi && lo
            <= tail[i].1 <= hi by {
            assert(tail[i] == rest[i + 1]);
        }
        if r.1 < r.0 {
            lemma_coalesce_within(cur, tail, lo, hi);
        } else if r.0 <= cur.1 + 1 {
            lemma_coalesce_within((cur.0, max_int(cur.1, r.1)), tail, lo, hi);
        } else {
            lemma_coalesce_within(r, tail, lo, hi);
        }
    }
}

/// Every range of a union lies within bounds that hold every range that
/// went into it.
pub proof fn lemma_union_ranges_within(s: Seq<(int, int)>, lo: int, hi: int)
    requires
        all_within(s, lo, hi),
    ensures
        all_within(union_ranges(s), lo, hi),
    decreases s.len(),
{
    if s.len() > 0 {
        let tail = s.skip(1);
        assert forall|i: int| 0 <= i < tail.len() implies lo <= (#[trigger] tail[i]).0 <= hi && lo
            <= tail[i].1 <= hi by {
            assert(tail[i] == s[i + 1]);
        }
        if s[0].1 < s[0].0 {
            lemma_union_ranges_within(tail, lo, hi);
        } else {
            lemma_coalesce_within(s[0], tail, lo, hi);
        }
    }
}

/// Turns a stream of ranges that is sorted by start into the canonical
/// stream of their union: overlapping and touching ranges are joined, empty
/// ranges are dropped.
pub struct UnionIter<T: Integer, I: SortedStarts<T>> {
    iter: I,
    option_range: Option<(T, T)>,
}

impl<T: Integer, I: SortedStarts<T>> UnionIter<T, I> {
    /// The union of the ranges of `iter`.
    pub fn new(iter: I) -> (r: Self)
        requires
            iter.inv(),
        ensures
            r.inv(),
            r.remaining() == union_ranges(iter.remaining()),
    {
        UnionIter { iter, option_range: None }
    }
}

impl<T: Integer, I: SortedStarts<T>> UnionIter<T, I> {
    /// Whether a range is being extended.
    pub closed spec fn has_pending(&self) -> bool {
        self.option_range is Some
    }

    /// The bounds on the number of ranges of a union, from the bounds
    /// `inner` on the number of ranges of the stream below it: there may be
    /// as few as one, or none if the stream is empty, and as many as the
    /// stream has, and one more if a range is being extended.
    pub fn size_hint(&self, inner: SizeHint) -> (r: SizeHint)
        requires
            self.has_pending() && inner.1 is Some ==> inner.1.unwrap() < usize::MAX,
        ensures
            r.0 == if inner.0 < 1 {
                inner.0
            } else {
                1
            },
            r.1 == match inner.1 {
                Some(high) => Some(
                    if self.has_pending() {
                        (high + 1) as usize
                    } else {
                        high
                    },
                ),
                None => None,
            },
    {
        let (low, high) = inner;
        let low = if low < 1 {
            low
        } else {
            1
        };
        if self.option_range.is_some() {
            let high = match high {
                Some(x) => Some(x + 1),
                None => None,
            };
            (low, high)
        } else {
            (low, high)
        }
    }
}

impl<T: Integer, I: SortedStarts<T>> RangeIter<T> for UnionIter<T, I> {
    closed spec fn inv(&self) -> bool {
        &&& self.iter.inv()
        &&& match self.option_range {
            Some(cur) => cur.0.as_int() <= cur.1.as_int() && starts_from(
                self.iter.remaining(),
                cur.0.as_int(),
            ),
            None => true,
        }
    }

    closed spec fn remaining(&self) -> Seq<(int, int)> {
        match self.option_range {
            Some(cur) => coalesce(as_ints(cur), self.iter.remaining()),
            None => union_ranges(self.iter.remaining()),
        }
    }

    proof fn lemma_within(&self) {
        self.iter.lemma_within();
        match self.option_range {
            Some(cur) => {
                cur.0.lemma_in_bounds();
                cur.1.lemma_in_bounds();
                lemma_coalesce_within(
                    as_ints(cur),
                    self.iter.remaining(),
                    T::min_int(),
                    T::max_int(),
                );
            },
            None => {
                lemma_union_ranges_within(self.iter.remaining(), T::min_int(), T::max_int());
            },
        }
    }

    fn next(&mut self) -> (r: Option<(T, T)>) {
        loop
            invariant
                self.inv(),
                self.remaining() == old(self).remaining(),
            decreases self.iter.remaining().len(),
        {
            let ghost rest = self.iter.remaining();
            proof {
                self.iter.lemma_sorted_starts();
            }
            let (start, end) = match self.iter.next() {
                Some(range) => range,
                None => {
                    let last = self.option_range;
                    self.option_range = None;
                    proof {
                        assert(rest.len() == 0);
                        if let Some(cur) = last {
                            assert(old(self).remaining() == seq![as_ints(cur)]);
                            assert(old(self).remaining().skip(1) =~= self.remaining());
                        }
                    }
                    return last;
                },
            };
            proof {
                lemma_sorted_starts_skip(rest);
                assert forall|i: int| 0 <= i < rest.skip(1).len() implies rest[0].0 <= (
                #[trigger] rest.skip(1)[i]).0 by {
                    assert(rest.skip(1)[i] == rest[i + 1]);
                }
            }
            if end.is_lt(start) {
                proof {
                    if let Some(cur) = self.option_range {
                        assert forall|i: int| 0 <= i < rest.skip(1).len() implies cur.0.as_int()
                            <= (#[trigger] rest.skip(1)[i]).0 by {
                            assert(rest.skip(1)[i] == rest[i + 1]);
                        }
                    }
                }
                continue ;
            }
            let (current_start, current_end) = match self.option_range {
                Some(cur) => cur,
                None => {
                    self.option_range = Some((start, end));
                    continue ;
                },
            };
            assert(current_start.as_int() <= rest[0].0);
            if !current_end.is_lt(start) || (current_end.is_lt(T::max_value())
                && !current_end.add_one().is_lt(start)) {
                let new_end = if current_end.is_lt(end) {
                    end
                } else {
                    current_end
                };
                self.option_range = Some((current_start, new_end));
                proof {
                    assert forall|i: int| 0 <= i < rest.skip(1).len() implies current_start.as_int()
                        <= (#[trigger] rest.skip(1)[i]).0 by {
                        assert(rest.skip(1)[i] == rest[i + 1]);
                    }
                }
            } else {
                self.option_range = Some((start, end));
                proof {
                    current_end.lemma_in_bounds();
                    start.lemma_in_bounds();
                    let out = old(self).remaining();
                    assert(out == seq![as_ints((current_start, current_end))] + self.remaining());
                    assert(out.skip(1) =~= self.remaining());
                }
                return Some((current_start, current_end));
            }
        }
    }
}

impl<T: Integer, I: SortedStarts<T>> SortedStarts<T> for UnionIter<T, I> {
    proof fn lemma_sorted_starts(&self) {
        self.lemma_sorted_disjoint();
        crate::ranges::lemma_sorted_disjoint_is_sorted_starts(self.remaining());
    }
}

impl<T: Integer, I: SortedStarts<T>> SortedDisjoint<T> for UnionIter<T, I> {
    proof fn lemma_sorted_disjoint(&self) {
        self.iter.lemma_sorted_starts();
        match self.option_range {
            Some(cur) => {
                lemma_coalesce(as_ints(cur), self.iter.remaining());
            },
            None => {
                lemma_union_ranges(self.iter.remaining());
            },
        }
    }
}

/// The union of ranges that are sorted by start and lie between `lo` and
/// `hi` is the canonical sequence of the integers that they cover.
pub proof fn lemma_union_ranges_canonical(s: Seq<(int, int)>, lo: int, hi: int)
    requires
        sorted_starts(s),
        all_within(s, lo, hi),
    ensures
        union_ranges(s) == canonical(points(s), lo, hi),
{
    lemma_union_ranges(s);
    assert forall|x: int| covers(union_ranges(s), x) == (lo <= x <= hi && points(s).contains(x)) by {
        if covers(s, x) {
            let i = choose|i: int| 0 <= i < s.len() && in_range(#[trigger] s[i], x);
        }
    }
    lemma_canonical_is(union_ranges(s), points(s), lo, hi);
}

/// The degenerate ranges of the integers `points`: each from an integer to
/// itself.
pub open spec fn point_ranges(points: Seq<int>) -> Seq<(int, int)> {
    Seq::new(points.len(), |i: int| (points[i], points[i]))
}

/// The integers that a sequence of values stands for.
pub open spec fn points_of<T: Integer>(points: Seq<T>) -> Seq<int> {
    Seq::new(points.len(), |i: int| points[i].as_int())
}

/// The degenerate ranges of the points of `points`.
pub fn points_to_ranges<T: Integer>(points: Vec<T>) -> (out: Vec<(T, T)>)
    ensures
        ints_of(out@) == point_ranges(points_of(points@)),
{
    let mut out: Vec<(T, T)> = Vec::new();
    let mut i: usize = 0;
    while i < points.len()
        invariant
            0 <= i <= points.len(),
            out.len() == i,
            forall|k: int| 0 <= k < i ==> (#[trigger] out[k]) == (points[k], points[k]),
        decreases points.len() - i,
    {
        out.push((points[i], points[i]));
        i += 1;
    }
    assert(ints_of(out@) =~= point_ranges(points_of(points@)));
    out
}

/// A stream over a buffer of ranges that has been sorted by start.
pub type SortedRangeInclusiveVec<T> = AssumeSortedStarts<T, VecRangeIter<T>>;

impl<T: Integer> UnionIter<T, SortedRangeInclusiveVec<T>> {
    /// The union of the ranges of `unsorted_disjoint`, which may come in any
    /// order: they are buffered and sorted by start, the one step of the
    /// algebra that is not lazy.
    pub fn from<I: RangeIter<T>>(unsorted_disjoint: UnsortedDisjoint<T, I>) -> (r: Self)
        requires
            unsorted_disjoint.inv(),
        ensures
            r.inv(),
            r.remaining() == canonical(
                points(unsorted_disjoint.remaining()),
                T::min_int(),
                T::max_int(),
            ),
    {
        let ghost input = unsorted_disjoint.remaining();
        proof {
            unsorted_disjoint.lemma_within();
        }
        let buffer = collect_ranges(unsorted_disjoint);
        let sorted = sorted_by_start(buffer);
        let ghost s = ints_of(sorted@);
        let source = VecRangeIter::new(sorted);
        proof {
            source.lemma_within();
        }
        let iter = AssumeSortedStarts::new(source);
        let r = UnionIter::new(iter);
        proof {
            lemma_union_ranges_canonical(s, T::min_int(), T::max_int());
            assert(points(s) =~= points(input)) by {
                assert forall|x: int| covers(s, x) == covers(input, x) by {
                    lemma_covers_permutation(s, input, x);
                }
            }
        }
        r
    }

    /// The union of the ranges `ranges`, which may come in any order,
    /// overlap, and be empty.
    pub fn from_iter(ranges: Vec<(T, T)>) -> (r: Self)
        ensures
            r.inv(),
            r.remaining() == canonical(points(ints_of(ranges@)), T::min_int(), T::max_int()),
    {
        let ghost input = ints_of(ranges@);
        let unsorted = UnsortedDisjoint::new(VecRangeIter::new(ranges));
        proof {
            lemma_unsorted_disjoint(input);
            assert(points(unsorted.remaining()) =~= points(input));
        }
        Self::from(unsorted)
    }

    /// The union of the integers `values`, which may come in any order and
    /// more than once.
    pub fn from_points(values: Vec<T>) -> (r: Self)
        ensures
            r.inv(),
            r.remaining() == canonical(
                points(point_ranges(points_of(values@))),
                T::min_int(),
                T::max_int(),
            ),
    {
        Self::from_iter(points_to_ranges(values))
    }
}

} // verus!
