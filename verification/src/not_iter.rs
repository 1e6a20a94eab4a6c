//! Complement: turns a canonical stream of ranges into the canonical stream
//! of the integers of the element type that it does not cover.

use crate::integer::Integer;
use crate::ranges::{
    all_within, canonical, covers, in_range, lemma_canonical, lemma_canonical_empty,
    lemma_canonical_ext, lemma_canonical_first, lemma_canonical_is, lemma_covers_skip,
    lemma_sorted_disjoint_is_sorted_starts, sorted_disjoint, starts_from,
};
use crate::sorted_disjoint::{RangeIter, SortedDisjoint, SortedStarts};
use vstd::prelude::*;

verus! {

/// The set of the integers that no range of `s` holds.
pub open spec fn gaps(s: Seq<(int, int)>) -> Set<int> {
    Set::new(|x: int| !covers(s, x))
}

/// The complement of the ranges `s` within the bounds `lo` and `hi`: the
/// canonical sequence of the integers between the bounds that no range of
/// `s` holds.
pub open spec fn complement_ranges(s: Seq<(int, int)>, lo: int, hi: int) -> Seq<(int, int)> {
    canonical(gaps(s), lo, hi)
}

/// The integers that a complement has yet to hand out when it has come to
/// `start_not` and the ranges `rest` are still to be read: those from
/// `start_not` on that no range of `rest` holds, or none once it is done.
pub open spec fn gaps_from(done: bool, start_not: int, rest: Seq<(int, int)>) -> Set<int> {
    Set::new(|x: int| !done && start_not <= x && !covers(rest, x))
}

/// Ranges that all start above `x` do not cover `x`.
pub proof fn lemma_not_covered_below(s: Seq<(int, int)>, x: int)
    requires
        starts_from(s, x + 1),
    ensures
        !covers(s, x),
{
    if covers(s, x) {
        let i = choose|i: int| 0 <= i < s.len() && in_range(#[trigger] s[i], x);
        assert(x + 1 <= s[i].0);
    }
}

/// In a canonical sequence, every range after the first starts at least two
/// above the end of the first.
pub proof fn lemma_tail_starts(s: Seq<(int, int)>)
    requires
        sorted_disjoint(s),
        s.len() > 0,
    ensures
        starts_from(s.skip(1), s[0].1 + 2),
{
    let t = s.skip(1);
    assert forall|i: int| 0 <= i < t.len() implies s[0].1 + 2 <= (#[trigger] t[i]).0 by {
        assert(t[i] == s[i + 1]);
    }
}

/// Turns a canonical stream of ranges into the canonical stream of its
/// complement: the integers of the element type that the stream does not
/// cover.
pub struct NotIter<T: Integer, I: SortedDisjoint<T>> {
    iter: I,
    start_not: T,
    next_time_return_none: bool,
}

impl<T: Integer, I: SortedDisjoint<T>> NotIter<T, I> {
    /// The complement of the ranges of `iter`.
    pub fn new(iter: I) -> (r: Self)
        requires
            iter.inv(),
        ensures
            r.inv(),
            r.remaining() == complement_ranges(iter.remaining(), T::min_int(), T::max_int()),
    {
        let r = NotIter { iter, start_not: T::min_value(), next_time_return_none: false };
        proof {
            iter.lemma_within();
            assert(starts_from(iter.remaining(), T::min_int()));
            lemma_canonical_ext(
                gaps_from(false, T::min_int(), iter.remaining()),
                gaps(iter.remaining()),
                T::min_int(),
                T::max_int(),
            );
        }
        r
    }
}

/// A bound on the number of ranges that a stream may yet hand out: at
/// least `.0`, and at most `.1` if that is known.
pub type SizeHint = (usize, Option<usize>);

impl<T: Integer, I: SortedDisjoint<T>> NotIter<T, I> {
    /// The bounds on the number of ranges of a complement, from the bounds
    /// `inner` on the number of ranges of the stream that it complements:
    /// there may be one less or one more.
    pub fn size_hint(inner: SizeHint) -> (r: SizeHint)
        ensures
            r.0 == if inner.0 > 0 {
                inner.0 - 1
            } else {
                0
            },
            r.1 == match inner.1 {
                Some(high) => Some(
                    if high < usize::MAX {
                        (high + 1) as usize
                    } else {
                        usize::MAX
                    },
                ),
                None => None,
            },
    {
        let (low, high) = inner;
        let low = if low > 0 {
            low - 1
        } else {
            0
        };
        let high = match high {
            Some(high) => Some(
                if high < usize::MAX {
                    high + 1
                } else {
                    usize::MAX
                },
            ),
            None => None,
        };
        (low, high)
    }
}

impl<T: Integer, I: SortedDisjoint<T>> RangeIter<T> for NotIter<T, I> {
    closed spec fn inv(&self) -> bool {
        &&& self.iter.inv()
        &&& !self.next_time_return_none ==> starts_from(
            self.iter.remaining(),
            self.start_not.as_int(),
        )
    }

    closed spec fn remaining(&self) -> Seq<(int, int)> {
        canonical(
            gaps_from(self.next_time_return_none, self.start_not.as_int(), self.iter.remaining()),
            T::min_int(),
            T::max_int(),
        )
    }

    proof fn lemma_within(&self) {
        lemma_canonical(
            gaps_from(self.next_time_return_none, self.start_not.as_int(), self.iter.remaining()),
            T::min_int(),
            T::max_int(),
        );
    }

    fn next(&mut self) -> (r: Option<(T, T)>) {
        let ghost lo = T::min_int();
        let ghost hi = T::max_int();
        loop
            invariant
                self.inv(),
                self.remaining() == old(self).remaining(),
                lo == T::min_int(),
                hi == T::max_int(),
            decreases self.iter.remaining().len(),
        {
            if self.next_time_return_none {
                proof {
                    lemma_canonical_empty(
                        gaps_from(true, self.start_not.as_int(), self.iter.remaining()),
                        lo,
                        hi,
                    );
                }
                return None;
            }
            let ghost rest = self.iter.remaining();
            let ghost from = self.start_not.as_int();
            let ghost before = gaps_from(false, from, rest);
            proof {
                self.iter.lemma_sorted_disjoint();
                self.start_not.lemma_in_bounds();
            }
            match self.iter.next() {
                Some((start, end)) => {
                    let ghost tail = rest.skip(1);
                    proof {
                        start.lemma_in_bounds();
                        end.lemma_in_bounds();
                        lemma_tail_starts(rest);
                        assert(from <= rest[0].0);
                        assert(rest[0].0 <= rest[0].1);
                        assert forall|x: int| covers(rest, x) == (in_range(rest[0], x) || covers(
                            tail,
                            x,
                        )) by {
                            lemma_covers_skip(rest, x);
                        }
                        assert forall|x: int| x <= rest[0].1 + 1 implies !covers(tail, x) by {
                            assert forall|i: int| 0 <= i < tail.len() implies x + 1 <= (
                            #[trigger] tail[i]).0 by {}
                            lemma_not_covered_below(tail, x);
                        }
                    }
                    if self.start_not.is_lt(start) {
                        let result = (self.start_not, start.sub_one());
                        if end.is_lt(T::max_value()) {
                            self.start_not = end.add_one();
                        } else {
                            self.next_time_return_none = true;
                        }
                        proof {
                            let after = gaps_from(
                                self.next_time_return_none,
                                self.start_not.as_int(),
                                tail,
                            );
                            lemma_canonical_first(
                                before,
                                (from, start.as_int() - 1),
                                after,
                                lo,
                                hi,
                            );
                            assert(old(self).remaining().skip(1) =~= self.remaining());
                        }
                        return Some(result);
                    } else if end.is_lt(T::max_value()) {
                        self.start_not = end.add_one();
                        proof {
                            let after = gaps_from(false, self.start_not.as_int(), tail);
                            lemma_canonical_ext(before, after, lo, hi);
                        }
                    } else {
                        self.next_time_return_none = true;
                        proof {
                            let after = gaps_from(true, self.start_not.as_int(), tail);
                            lemma_canonical_empty(before, lo, hi);
                            lemma_canonical_empty(after, lo, hi);
                        }
                        return None;
                    }
                },
                None => {
                    self.next_time_return_none = true;
                    let result = (self.start_not, T::max_value());
                    proof {
                        assert(self.iter.remaining() =~= rest);
                        let after = gaps_from(true, from, rest);
                        assert forall|x: int| !covers(rest, x) by {
                            if covers(rest, x) {
                                let i = choose|i: int|
                                    0 <= i < rest.len() && in_range(#[trigger] rest[i], x);
                            }
                        }
                        lemma_canonical_first(before, (from, hi), after, lo, hi);
                        lemma_canonical_empty(after, lo, hi);
                        assert(old(self).remaining().skip(1) =~= self.remaining());
                    }
                    return Some(result);
                },
            }
        }
    }
}

impl<T: Integer, I: SortedDisjoint<T>> SortedStarts<T> for NotIter<T, I> {
    proof fn lemma_sorted_starts(&self) {
        self.lemma_sorted_disjoint();
        lemma_sorted_disjoint_is_sorted_starts(self.remaining());
    }
}

impl<T: Integer, I: SortedDisjoint<T>> SortedDisjoint<T> for NotIter<T, I> {
    proof fn lemma_sorted_disjoint(&self) {
        lemma_canonical(
            gaps_from(self.next_time_return_none, self.start_not.as_int(), self.iter.remaining()),
            T::min_int(),
            T::max_int(),
        );
    }
}

/// The complement of the complement of a canonical sequence is the
/// sequence itself.
pub proof fn lemma_complement_involution(s: Seq<(int, int)>, lo: int, hi: int)
    requires
        sorted_disjoint(s),
        all_within(s, lo, hi),
    ensures
        complement_ranges(complement_ranges(s, lo, hi), lo, hi) == s,
{
    let c = complement_ranges(s, lo, hi);
    lemma_canonical(gaps(s), lo, hi);
    assert forall|x: int| covers(s, x) == (lo <= x <= hi && gaps(c).contains(x)) by {
        if covers(s, x) {
            let i = choose|i: int| 0 <= i < s.len() && in_range(#[trigger] s[i], x);
        }
    }
    lemma_canonical_is(s, gaps(c), lo, hi);
}

/// The complement of nothing is the whole range from `lo` to `hi`, and the
/// complement of that range is nothing.
pub proof fn lemma_complement_of_empty_and_full(lo: int, hi: int)
    requires
        lo <= hi,
    ensures
        complement_ranges(Seq::empty(), lo, hi) == seq![(lo, hi)],
        complement_ranges(seq![(lo, hi)], lo, hi) == Seq::<(int, int)>::empty(),
{
    let e = Seq::<(int, int)>::empty();
    let full = seq![(lo, hi)];
    assert forall|x: int| covers(full, x) == (lo <= x <= hi && gaps(e).contains(x)) by {
        if lo <= x <= hi {
            assert(in_range(full[0], x));
        }
    }
    lemma_canonical_is(full, gaps(e), lo, hi);
    assert forall|x: int| lo <= x <= hi implies !gaps(full).contains(x) by {
        assert(in_range(full[0], x));
    }
    lemma_canonical_empty(gaps(full), lo, hi);
}

} // verus!
