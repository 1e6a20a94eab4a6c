//! The canonical form of a stream of ranges that is sorted by start.

use crate::integer::Integer;
use crate::not_iter::SizeHint;
use crate::ranges::{canonical, covers, lemma_covers_permutation, points};
use crate::sorted_disjoint::{collect_ranges, ints_of, VecRangeIter};
use crate::sorting::sorted_by_start;
use crate::union_iter::{
    lemma_union_ranges_canonical, point_ranges, points_of, points_to_ranges,
    SortedRangeInclusiveVec,
};
use crate::unsorted_disjoint::{lemma_unsorted_disjoint, AssumeSortedStarts, UnsortedDisjoint};
use crate::ranges::{lemma_sorted_disjoint_is_sorted_starts, lemma_sorted_starts_skip, starts_from};
use crate::sorted_disjoint::{as_ints, RangeIter, SortedDisjoint, SortedStarts};
use crate::union_iter::{
    coalesce, lemma_coalesce, lemma_coalesce_within, lemma_union_ranges, lemma_union_ranges_within,
    union_ranges,
};
use vstd::prelude::*;

verus! {

/// Makes a stream of ranges that is sorted by start canonical: ranges that
/// overlap or touch come out as one, and empty ranges do not come out.
pub struct SortedDisjointIter<T: Integer, I: SortedStarts<T>> {
    iter: I,
    range: Option<(T, T)>,
}

impl<T: Integer, I: SortedStarts<T>> SortedDisjointIter<T, I> {
    /// The canonical form of the ranges of `iter`.
    pub fn new(iter: I) -> (r: Self)
        requires
            iter.inv(),
        ensures
            r.inv(),
            r.remaining() == union_ranges(iter.remaining()),
    {
        SortedDisjointIter { iter, range: None }
    }
}

impl<T: Integer, I: SortedStarts<T>> SortedDisjointIter<T, I> {
    /// Whether a range is being extended.
    pub closed spec fn has_pending(&self) -> bool {
        self.range is Some
    }

    /// The bounds on the number of ranges of the canonical form, from the bounds
    /// `inner` on the number of ranges of the stream below it: there may be
    /// as few as one, or none if the stream is empty, and as many as the
    /// stream has, and one more if a range is being extended.
    pub fn size_hint(&self, inner: SizeHint) -> (r: SizeHint)
        requires
            self.has_pending() && inner.1 is Some ==> inner.1.unwrap() < usize::MAX,
        ensures
            r.0 == if inner.0 < 1 {
                inner.0
            } else {
                1
            },
            r.1 == match inner.1 {
                Some(high) => Some(
                    if self.has_pending() {
                        (high + 1) as usize
                    } else {
                        high
                    },
                ),
                None => None,
            },
    {
        let (low, high) = inner;
        let low = if low < 1 {
            low
        } else {
            1
        };
        if self.range.is_some() {
            let high = match high {
                Some(x) => Some(x + 1),
                None => None,
            };
            (low, high)
        } else {
            (low, high)
        }
    }
}

impl<T: Integer, I: SortedStarts<T>> RangeIter<T> for SortedDisjointIter<T, I> {
    closed spec fn inv(&self) -> bool {
        &&& self.iter.inv()
        &&& match self.range {
            Some(cur) => cur.0.as_int() <= cur.1.as_int() && starts_from(
                self.iter.remaining(),
                cur.0.as_int(),
            ),
            None => true,
        }
    }

    closed spec fn remaining(&self) -> Seq<(int, int)> {
        match self.range {
            Some(cur) => coalesce(as_ints(cur), self.iter.remaining()),
            None => union_ranges(self.iter.remaining()),
        }
    }

    proof fn lemma_within(&self) {
        self.iter.lemma_within();
        match self.range {
            Some(cur) => {
                cur.0.lemma_in_bounds();
                cur.1.lemma_in_bounds();
                lemma_coalesce_within(
                    as_ints(cur),
                    self.iter.remaining(),
                    T::min_int(),
                    T::max_int(),
                );
            },
            None => {
                lemma_union_ranges_within(self.iter.remaining(), T::min_int(), T::max_int());
            },
        }
    }

    fn next(&mut self) -> (r: Option<(T, T)>) {
        loop
            invariant
                self.inv(),
                self.remaining() == old(self).remaining(),
            decreases self.iter.remaining().len(),
        {
            let ghost rest = self.iter.remaining();
            proof {
                self.iter.lemma_sorted_starts();
            }
            let (start, end) = match self.iter.next() {
                Some(range) => range,
                None => {
                    let last = self.range;
                    self.range = None;
                    proof {
                        assert(rest.len() == 0);
                        if let Some(cur) = last {
                            assert(old(self).remaining() == seq![as_ints(cur)]);
                            assert(old(self).remaining().skip(1) =~= self.remaining());
                        }
                    }
                    return last;
                },
            };
            proof {
                lemma_sorted_starts_skip(rest);
                assert forall|i: int| 0 <= i < rest.skip(1).len() implies rest[0].0 <= (
                #[trigger] rest.skip(1)[i]).0 by {
                    assert(rest.skip(1)[i] == rest[i + 1]);
                }
            }
            if end.is_lt(start) {
                proof {
                    if let Some(cur) = self.range {
                        assert forall|i: int| 0 <= i < rest.skip(1).len() implies cur.0.as_int()
                            <= (#[trigger] rest.skip(1)[i]).0 by {
                            assert(rest.skip(1)[i] == rest[i + 1]);
                        }
                    }
                }
                continue ;
            }
            let (current_first, current_stop) = match self.range {
                Some(cur) => cur,
                None => {
                    self.range = Some((start, end));
                    continue ;
                },
            };
            assert(current_first.as_int() <= rest[0].0);
            if !current_stop.is_lt(start) || (current_stop.is_lt(T::max_value())
                && !current_stop.add_one().is_lt(start)) {
                let new_end = if current_stop.is_lt(end) {
                    end
                } else {
                    current_stop
                };
                self.range = Some((current_first, new_end));
                proof {
                    assert forall|i: int| 0 <= i < rest.skip(1).len() implies current_first.as_int()
                        <= (#[trigger] rest.skip(1)[i]).0 by {
                        assert(rest.skip(1)[i] == rest[i + 1]);
                    }
                }
            } else {
                self.range = Some((start, end));
                proof {
                    current_stop.lemma_in_bounds();
                    start.lemma_in_bounds();
                    let out = old(self).remaining();
                    assert(out == seq![as_ints((current_first, current_stop))] + self.remaining());
                    assert(out.skip(1) =~= self.remaining());
                }
                return Some((current_first, current_stop));
            }
        }
    }
}

impl<T: Integer, I: SortedStarts<T>> SortedStarts<T> for SortedDisjointIter<T, I> {
    proof fn lemma_sorted_starts(&self) {
        self.lemma_sorted_disjoint();
        lemma_sorted_disjoint_is_sorted_starts(self.remaining());
    }
}

impl<T: Integer, I: SortedStarts<T>> SortedDisjoint<T> for SortedDisjointIter<T, I> {
    proof fn lemma_sorted_disjoint(&self) {
        self.iter.lemma_sorted_starts();
        match self.range {
            Some(cur) => {
                lemma_coalesce(as_ints(cur), self.iter.remaining());
            },
            None => {
                lemma_union_ranges(self.iter.remaining());
            },
        }
    }
}

impl<T: Integer> SortedDisjointIter<T, SortedRangeInclusiveVec<T>> {
    /// The canonical form of the ranges of `unsorted_disjoint`, which may
    /// come in any order: they are buffered and sorted by start first.
    pub fn from<I: RangeIter<T>>(unsorted_disjoint: UnsortedDisjoint<T, I>) -> (r: Self)
        requires
            unsorted_disjoint.inv(),
        ensures
            r.inv(),
            r.remaining() == canonical(
                points(unsorted_disjoint.remaining()),
                T::min_int(),
                T::max_int(),
            ),
    {
        let ghost input = unsorted_disjoint.remaining();
        proof {
            unsorted_disjoint.lemma_within();
        }
        let buffer = collect_ranges(unsorted_disjoint);
        let sorted = sorted_by_start(buffer);
        let ghost s = ints_of(sorted@);
        let source = VecRangeIter::new(sorted);
        proof {
            source.lemma_within();
        }
        let iter = AssumeSortedStarts::new(source);
        let r = SortedDisjointIter::new(iter);
        proof {
            lemma_union_ranges_canonical(s, T::min_int(), T::max_int());
            assert(points(s) =~= points(input)) by {
                assert forall|x: int| covers(s, x) == covers(input, x) by {
                    lemma_covers_permutation(s, input, x);
                }
            }
        }
        r
    }

    /// The canonical form of the ranges `ranges`, which may come in any
    /// order, overlap, and be empty.
    pub fn from_iter(ranges: Vec<(T, T)>) -> (r: Self)
        ensures
            r.inv(),
            r.remaining() == canonical(points(ints_of(ranges@)), T::min_int(), T::max_int()),
    {
        let ghost input = ints_of(ranges@);
        let unsorted = UnsortedDisjoint::new(VecRangeIter::new(ranges));
        proof {
            lemma_unsorted_disjoint(input);
            assert(points(unsorted.remaining()) =~= points(input));
        }
        Self::from(unsorted)
    }

    /// The canonical form of the integers `values`, which may come in any
    /// order and more than once.
    pub fn from_points(values: Vec<T>) -> (r: Self)
        ensures
            r.inv(),
            r.remaining() == canonical(
                points(point_ranges(points_of(values@))),
                T::min_int(),
                T::max_int(),
            ),
    {
        Self::from_iter(points_to_ranges(values))
    }
}

} // verus!
