//! Streams of ranges: the pull-based sequences that every stage of the
//! range algebra consumes and produces, and the promises that a stream can
//! make about the order of its ranges.

use crate::integer::Integer;
use crate::ranges::{
    all_within, lemma_sorted_disjoint_is_sorted_starts, lemma_sorted_disjoint_skip,
    sorted_disjoint, sorted_starts,
};
use core::marker::PhantomData;
use vstd::prelude::*;

verus! {

/// The range of mathematical integers that a pair of values stands for.
pub open spec fn as_ints<T: Integer>(r: (T, T)) -> (int, int) {
    (r.0.as_int(), r.1.as_int())
}

/// The ranges of mathematical integers that a sequence of pairs stands for.
pub open spec fn ints_of<T: Integer>(s: Seq<(T, T)>) -> Seq<(int, int)> {
    Seq::new(s.len(), |i: int| as_ints(s[i]))
}

/// What one pull does to a stream: it hands out the first of the items
/// that were still to come and leaves the rest, or it hands out nothing
/// because nothing was left, and then nothing is left afterwards either.
pub open spec fn pulled<A>(before: Seq<A>, item: Option<A>, after: Seq<A>) -> bool {
    match item {
        Some(x) => before.len() > 0 && x == before[0] && after == before.skip(1),
        None => before.len() == 0 && after.len() == 0,
    }
}

/// The range that an item pulled from a stream stands for, if any.
pub open spec fn opt_ints<T: Integer>(r: Option<(T, T)>) -> Option<(int, int)> {
    match r {
        Some(x) => Some(as_ints(x)),
        None => None,
    }
}

/// A pull-based stream of inclusive ranges `(start, end)`, in any order.
///
/// `remaining` is the sequence of ranges that the stream has yet to hand
/// out; each call of `next` hands out its first range.
pub trait RangeIter<T: Integer>: Sized {
    /// The invariant that the stream needs to work.
    spec fn inv(&self) -> bool;

    /// The ranges that are still to come, in the order in which they come.
    spec fn remaining(&self) -> Seq<(int, int)>;

    /// Every range that is still to come lies within the element type.
    proof fn lemma_within(&self)
        requires
            self.inv(),
        ensures
            all_within(self.remaining(), T::min_int(), T::max_int()),
    ;

    /// Hands out the next range, or `None` when none is left.
    fn next(&mut self) -> (r: Option<(T, T)>)
        requires
            old(self).inv(),
        ensures
            final(self).inv(),
            pulled(old(self).remaining(), opt_ints(r), final(self).remaining()),
    ;
}

/// The promise that the ranges of a stream come sorted by start. They may
/// overlap, and some may be empty.
pub trait SortedStarts<T: Integer>: RangeIter<T> {
    /// The ranges that are still to come are sorted by start.
    proof fn lemma_sorted_starts(&self)
        requires
            self.inv(),
        ensures
            sorted_starts(self.remaining()),
    ;
}

/// The promise that the ranges of a stream are in canonical form: non-empty,
/// sorted, and neither overlapping nor touching.
pub trait SortedDisjoint<T: Integer>: SortedStarts<T> {
    /// The ranges that are still to come are in canonical form.
    proof fn lemma_sorted_disjoint(&self)
        requires
            self.inv(),
        ensures
            sorted_disjoint(self.remaining()),
    ;
}

/// A stream over the ranges of a vector, from first to last.
pub struct VecRangeIter<T: Integer> {
    ranges: Vec<(T, T)>,
    pos: usize,
}

impl<T: Integer> VecRangeIter<T> {
    /// A stream that hands out the ranges of `ranges` in order.
    pub fn new(ranges: Vec<(T, T)>) -> (r: Self)
        ensures
            r.inv(),
            r.remaining() == ints_of(ranges@),
    {
        let r = VecRangeIter { ranges, pos: 0 };
        assert(r.remaining() =~= ints_of(ranges@));
        r
    }
}

impl<T: Integer> RangeIter<T> for VecRangeIter<T> {
    closed spec fn inv(&self) -> bool {
        self.pos <= self.ranges.len()
    }

    closed spec fn remaining(&self) -> Seq<(int, int)> {
        ints_of(self.ranges@).skip(self.pos as int)
    }

    proof fn lemma_within(&self) {
        let s = self.remaining();
        assert forall|i: int| 0 <= i < s.len() implies T::min_int() <= (#[trigger] s[i]).0
            <= T::max_int() && T::min_int() <= s[i].1 <= T::max_int() by {
            let r = self.ranges@[i + self.pos];
            r.0.lemma_in_bounds();
            r.1.lemma_in_bounds();
        }
    }

    fn next(&mut self) -> (r: Option<(T, T)>) {
        if self.pos < self.ranges.len() {
            let item = self.ranges[self.pos];
            self.pos = self.pos + 1;
            assert(self.remaining() =~= old(self).remaining().skip(1));
            Some(item)
        } else {
            None
        }
    }
}

/// Drains a stream into a vector.
pub fn collect_ranges<T: Integer, I: RangeIter<T>>(iter: I) -> (out: Vec<(T, T)>)
    requires
        iter.inv(),
    ensures
        ints_of(out@) == iter.remaining(),
{
    let mut iter = iter;
    let mut out: Vec<(T, T)> = Vec::new();
    let ghost all = iter.remaining();
    loop
        invariant
            iter.inv(),
            ints_of(out@) + iter.remaining() == all,
        ensures
            ints_of(out@) == all,
        decreases iter.remaining().len(),
    {
        match iter.next() {
            Some(range) => {
                let ghost before = ints_of(out@);
                out.push(range);
                assert(ints_of(out@) =~= before.push(as_ints(range)));
                assert(ints_of(out@) + iter.remaining() =~= all);
            },
            None => {
                assert(ints_of(out@) =~= all);
                break ;
            },
        }
    }
    out
}

/// Whether the ranges of `ranges` are in canonical form: non-empty, sorted,
/// and neither overlapping nor touching.
pub fn is_sorted_disjoint<T: Integer>(ranges: &Vec<(T, T)>) -> (b: bool)
    ensures
        b == sorted_disjoint(ints_of(ranges@)),
{
    let ghost s = ints_of(ranges@);
    let mut i: usize = 0;
    while i < ranges.len()
        invariant
            0 <= i <= ranges.len(),
            s == ints_of(ranges@),
            sorted_disjoint(s.take(i as int)),
        decreases ranges.len() - i,
    {
        let (start, end) = ranges[i];
        let ghost prefix = s.take(i as int);
        let ghost longer = s.take(i + 1);
        if end.is_lt(start) {
            proof {
                if sorted_disjoint(s) {
                    assert(s[i as int].0 <= s[i as int].1);
                }
            }
            return false;
        }
        if i > 0 {
            let previous_end = ranges[i - 1].1;
            proof {
                previous_end.lemma_in_bounds();
                start.lemma_in_bounds();
            }
            if !previous_end.is_lt(start) || previous_end.add_one().is_eq(start) {
                proof {
                    if sorted_disjoint(s) {
                        assert(s[i - 1].1 + 1 < s[i as int].0);
                    }
                }
                return false;
            }
        }
        proof {
            assert forall|k: int| 0 <= k < longer.len() implies (#[trigger] longer[k]).0
                <= longer[k].1 by {
                if k < i {
                    assert(longer[k] == prefix[k]);
                }
            }
            assert forall|k: int, j: int| 0 <= k < j < longer.len() implies (
            #[trigger] longer[k]).1 + 1 < (#[trigger] longer[j]).0 by {
                assert(longer[k] == prefix[k]);
                if j < i {
                    assert(longer[j] == prefix[j]);
                } else {
                    assert(prefix[i - 1] == s[i - 1]);
                    if k < i - 1 {
                        assert(prefix[k].1 + 1 < prefix[i - 1].0);
                        assert(prefix[i - 1].0 <= prefix[i - 1].1);
                    }
                }
            }
        }
        i += 1;
    }
    proof {
        assert(s.take(ranges.len() as int) =~= s);
    }
    true
}

/// Gives a stream of ranges the promise of [`SortedDisjoint`]: whoever
/// makes one has to show that the ranges are in canonical form.
pub struct CheckSortedDisjoint<T: Integer, I: RangeIter<T>> {
    iter: I,
    phantom: PhantomData<T>,
}

impl<T: Integer, I: RangeIter<T>> CheckSortedDisjoint<T, I> {
    /// The stream `iter`, whose ranges are in canonical form.
    pub fn new(iter: I) -> (r: Self)
        requires
            iter.inv(),
            sorted_disjoint(iter.remaining()),
        ensures
            r.inv(),
            r.remaining() == iter.remaining(),
    {
        CheckSortedDisjoint { iter, phantom: PhantomData }
    }
}

impl<T: Integer> CheckSortedDisjoint<T, VecRangeIter<T>> {
    /// A stream over the ranges of `ranges` if they are in canonical form,
    /// and `None` if they are not.
    pub fn try_new(ranges: Vec<(T, T)>) -> (r: Option<Self>)
        ensures
            r is Some == sorted_disjoint(ints_of(ranges@)),
            r matches Some(stream) ==> stream.inv() && stream.remaining() == ints_of(ranges@),
    {
        if is_sorted_disjoint(&ranges) {
            Some(CheckSortedDisjoint::new(VecRangeIter::new(ranges)))
        } else {
            None
        }
    }
}

impl<T: Integer, I: RangeIter<T>> RangeIter<T> for CheckSortedDisjoint<T, I> {
    closed spec fn inv(&self) -> bool {
        self.iter.inv() && sorted_disjoint(self.iter.remaining())
    }

    closed spec fn remaining(&self) -> Seq<(int, int)> {
        self.iter.remaining()
    }

    proof fn lemma_within(&self) {
        self.iter.lemma_within();
    }

    fn next(&mut self) -> (r: Option<(T, T)>) {
        let ghost before = self.iter.remaining();
        let r = self.iter.next();
        proof {
            if before.len() > 0 {
                lemma_sorted_disjoint_skip(before);
            } else {
                assert(self.iter.remaining() =~= before);
            }
        }
        r
    }
}

impl<T: Integer, I: RangeIter<T>> SortedStarts<T> for CheckSortedDisjoint<T, I> {
    proof fn lemma_sorted_starts(&self) {
        lemma_sorted_disjoint_is_sorted_starts(self.iter.remaining());
    }
}

impl<T: Integer, I: RangeIter<T>> SortedDisjoint<T> for CheckSortedDisjoint<T, I> {
    proof fn lemma_sorted_disjoint(&self) {
    }
}

/// Whether two canonical streams hand out the same ranges. Both are used
/// up, as far as the comparison has to go.
pub fn equal<T: Integer, L: SortedDisjoint<T>, R: SortedDisjoint<T>>(left: L, right: R) -> (b: bool)
    requires
        left.inv(),
        right.inv(),
    ensures
        b == (left.remaining() == right.remaining()),
{
    let mut left_iter = left;
    let mut right_iter = right;
    loop
        invariant
            left_iter.inv(),
            right_iter.inv(),
            (left.remaining() == right.remaining()) == (left_iter.remaining()
                == right_iter.remaining()),
        decreases left_iter.remaining().len(),
    {
        let ghost la = left_iter.remaining();
        let ghost rb = right_iter.remaining();
        let from_left = left_iter.next();
        let from_right = right_iter.next();
        match (from_left, from_right) {
            (Some(l), Some(r)) => {
                if !(l.0.is_eq(r.0) && l.1.is_eq(r.1)) {
                    proof {
                        assert(la[0] != rb[0]);
                    }
                    return false;
                }
                proof {
                    assert(la =~= seq![la[0]] + la.skip(1));
                    assert(rb =~= seq![rb[0]] + rb.skip(1));
                    if la.skip(1) == rb.skip(1) {
                        assert(la == rb);
                    }
                }
            },
            (None, None) => {
                proof {
                    assert(la =~= rb);
                }
                return true;
            },
            _ => {
                proof {
                    assert(la.len() != rb.len());
                }
                return false;
            },
        }
    }
}

} // verus!
