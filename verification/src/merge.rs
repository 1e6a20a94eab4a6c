//! Merging streams of ranges that are sorted by start into one such stream.

use crate::integer::Integer;
use crate::ranges::{
    all_valid, all_within, cover_count, lemma_cover_count_concat, lemma_sorted_starts_skip,
    opt_seq, sorted_starts,
};
use crate::sorted_disjoint::{
    collect_ranges, ints_of, opt_ints, RangeIter, SortedStarts, VecRangeIter,
};
use crate::sorting::{kmerge_by_start, lists_flat, lists_sorted};
use crate::unsorted_disjoint::AssumeSortedStarts;
use vstd::seq_lib::lemma_multiset_commutative;
use vstd::prelude::*;

verus! {

/// The ranges of `a` and `b` merged by start: at each step the first range
/// of `a` comes next if it starts below the first range of `b`, else the
/// first range of `b` does.
pub open spec fn merge_by_start(a: Seq<(int, int)>, b: Seq<(int, int)>) -> Seq<(int, int)>
    decreases a.len() + b.len(),
{
    if a.len() == 0 {
        b
    } else if b.len() == 0 {
        a
    } else if a[0].0 < b[0].0 {
        seq![a[0]] + merge_by_start(a.skip(1), b)
    } else {
        seq![b[0]] + merge_by_start(a, b.skip(1))
    }
}

/// Merging keeps every range: the merged sequence holds each integer as
/// often as the two sequences together.
pub proof fn lemma_merge_counts(a: Seq<(int, int)>, b: Seq<(int, int)>, x: int)
    ensures
        cover_count(merge_by_start(a, b), x) == cover_count(a, x) + cover_count(b, x),
    decreases a.len() + b.len(),
{
    if a.len() == 0 {
    } else if b.len() == 0 {
    } else if a[0].0 < b[0].0 {
        let m = merge_by_start(a.skip(1), b);
        lemma_merge_counts(a.skip(1), b, x);
        lemma_cover_count_concat(seq![a[0]], m, x);
        lemma_cover_count_concat(seq![a[0]], a.skip(1), x);
        assert(seq![a[0]] + a.skip(1) =~= a);
    } else {
        let m = merge_by_start(a, b.skip(1));
        lemma_merge_counts(a, b.skip(1), x);
        lemma_cover_count_concat(seq![b[0]], m, x);
        lemma_cover_count_concat(seq![b[0]], b.skip(1), x);
        assert(seq![b[0]] + b.skip(1) =~= b);
    }
}

/// Merging two sequences that are sorted by start gives a sequence that is
/// sorted by start, whose ranges are non-empty where theirs are, and which
/// starts where the earlier of the two starts.
pub proof fn lemma_merge_sorted(a: Seq<(int, int)>, b: Seq<(int, int)>)
    requires
        sorted_starts(a),
        sorted_starts(b),
    ensures
        sorted_starts(merge_by_start(a, b)),
        merge_by_start(a, b).len() == a.len() + b.len(),
        all_valid(a) && all_valid(b) ==> all_valid(merge_by_start(a, b)),
        forall|lo: int, hi: int|
            all_within(a, lo, hi) && all_within(b, lo, hi) ==> #[trigger] all_within(
                merge_by_start(a, b),
                lo,
                hi,
            ),
        forall|i: int|
            0 <= i < merge_by_start(a, b).len() ==> (a.len() > 0 && a[0].0 <= (
            #[trigger] merge_by_start(a, b)[i]).0) || (b.len() > 0 && b[0].0 <= merge_by_start(
                a,
                b,
            )[i].0),
    decreases a.len() + b.len(),
{
    let out = merge_by_start(a, b);
    if a.len() == 0 {
        assert forall|i: int| 0 <= i < out.len() implies b[0].0 <= (#[trigger] out[i]).0 by {
            if i > 0 {
                assert(b[0].0 <= b[i].0);
            }
        }
    } else if b.len() == 0 {
        assert forall|i: int| 0 <= i < out.len() implies a[0].0 <= (#[trigger] out[i]).0 by {
            if i > 0 {
                assert(a[0].0 <= a[i].0);
            }
        }
    } else {
        let (first, ta, tb) = if a[0].0 < b[0].0 {
            (a[0], a.skip(1), b)
        } else {
            (b[0], a, b.skip(1))
        };
        let m = merge_by_start(ta, tb);
        assert(out == seq![first] + m);
        lemma_sorted_starts_skip(a);
        lemma_sorted_starts_skip(b);
        lemma_merge_sorted(ta, tb);
        if a.len() > 1 {
            assert(a.skip(1)[0] == a[1]);
            assert(a[0].0 <= a[1].0);
        }
        if b.len() > 1 {
            assert(b.skip(1)[0] == b[1]);
            assert(b[0].0 <= b[1].0);
        }
        assert forall|i: int| 0 <= i < m.len() implies first.0 <= (#[trigger] m[i]).0 by {}
        assert forall|i: int, j: int| 0 <= i < j < out.len() implies (#[trigger] out[i]).0 <= (
        #[trigger] out[j]).0 by {
            assert(out[j] == m[j - 1]);
            if i > 0 {
                assert(out[i] == m[i - 1]);
            }
        }
        assert forall|i: int| 0 <= i < out.len() implies (a.len() > 0 && a[0].0 <= (
        #[trigger] out[i]).0) || (b.len() > 0 && b[0].0 <= out[i].0) by {
            if i > 0 {
                assert(out[i] == m[i - 1]);
            }
        }
        if all_valid(a) && all_valid(b) {
            assert(all_valid(ta)) by {
                assert forall|i: int| 0 <= i < ta.len() implies (#[trigger] ta[i]).0
                    <= ta[i].1 by {
                    if a[0].0 < b[0].0 {
                        assert(ta[i] == a[i + 1]);
                    }
                }
            }
            assert(all_valid(tb)) by {
                assert forall|i: int| 0 <= i < tb.len() implies (#[trigger] tb[i]).0
                    <= tb[i].1 by {
                    if !(a[0].0 < b[0].0) {
                        assert(tb[i] == b[i + 1]);
                    }
                }
            }
            assert forall|i: int| 0 <= i < out.len() implies (#[trigger] out[i]).0
                <= out[i].1 by {
                if i > 0 {
                    assert(out[i] == m[i - 1]);
                }
            }
        }
        assert forall|lo: int, hi: int|
            all_within(a, lo, hi) && all_within(b, lo, hi) implies #[trigger] all_within(
            out,
            lo,
            hi,
        ) by {
            assert(all_within(ta, lo, hi)) by {
                assert forall|i: int| 0 <= i < ta.len() implies lo <= (#[trigger] ta[i]).0 <= hi
                    && lo <= ta[i].1 <= hi by {
                    if a[0].0 < b[0].0 {
                        assert(ta[i] == a[i + 1]);
                    }
                }
            }
            assert(all_within(tb, lo, hi)) by {
                assert forall|i: int| 0 <= i < tb.len() implies lo <= (#[trigger] tb[i]).0 <= hi
                    && lo <= tb[i].1 <= hi by {
                    if !(a[0].0 < b[0].0) {
                        assert(tb[i] == b[i + 1]);
                    }
                }
            }
            assert(all_within(m, lo, hi));
            assert forall|i: int| 0 <= i < out.len() implies lo <= (#[trigger] out[i]).0 <= hi
                && lo <= out[i].1 <= hi by {
                if i > 0 {
                    assert(out[i] == m[i - 1]);
                }
            }
        }
    }
}

/// Merges two streams of ranges that are sorted by start into one stream
/// that is sorted by start. Where two ranges start together, the one of the
/// right stream comes first.
pub struct Merge<T: Integer, L: SortedStarts<T>, R: SortedStarts<T>> {
    left: L,
    right: R,
    left_head: Option<(T, T)>,
    right_head: Option<(T, T)>,
}

impl<T: Integer, L: SortedStarts<T>, R: SortedStarts<T>> Merge<T, L, R> {
    /// The ranges of the left stream that are still to come.
    pub closed spec fn left_remaining(&self) -> Seq<(int, int)> {
        opt_seq(opt_ints(self.left_head)) + self.left.remaining()
    }

    /// The ranges of the right stream that are still to come.
    pub closed spec fn right_remaining(&self) -> Seq<(int, int)> {
        opt_seq(opt_ints(self.right_head)) + self.right.remaining()
    }

    /// The streams `left` and `right` merged by start.
    pub fn new(left: L, right: R) -> (r: Self)
        requires
            left.inv(),
            right.inv(),
        ensures
            r.inv(),
            r.remaining() == merge_by_start(left.remaining(), right.remaining()),
    {
        let mut left = left;
        let mut right = right;
        let ghost a = left.remaining();
        let ghost b = right.remaining();
        proof {
            left.lemma_sorted_starts();
            right.lemma_sorted_starts();
        }
        let left_head = left.next();
        let right_head = right.next();
        let r = Merge { left, right, left_head, right_head };
        proof {
            assert(r.left_remaining() =~= a);
            assert(r.right_remaining() =~= b);
        }
        r
    }
}

impl<T: Integer, L: SortedStarts<T>, R: SortedStarts<T>> RangeIter<T> for Merge<T, L, R> {
    closed spec fn inv(&self) -> bool {
        &&& self.left.inv()
        &&& self.right.inv()
        &&& self.left_head is None ==> self.left.remaining().len() == 0
        &&& self.right_head is None ==> self.right.remaining().len() == 0
        &&& sorted_starts(self.left_remaining())
        &&& sorted_starts(self.right_remaining())
    }

    closed spec fn remaining(&self) -> Seq<(int, int)> {
        merge_by_start(self.left_remaining(), self.right_remaining())
    }

    proof fn lemma_within(&self) {
        let lo = T::min_int();
        let hi = T::max_int();
        self.left.lemma_within();
        self.right.lemma_within();
        let a = self.left_remaining();
        let b = self.right_remaining();
        assert forall|i: int| 0 <= i < a.len() implies lo <= (#[trigger] a[i]).0 <= hi && lo
            <= a[i].1 <= hi by {
            if let Some(h) = self.left_head {
                h.0.lemma_in_bounds();
                h.1.lemma_in_bounds();
                if i > 0 {
                    assert(a[i] == self.left.remaining()[i - 1]);
                }
            } else {
                assert(a[i] == self.left.remaining()[i]);
            }
        }
        assert forall|i: int| 0 <= i < b.len() implies lo <= (#[trigger] b[i]).0 <= hi && lo
            <= b[i].1 <= hi by {
            if let Some(h) = self.right_head {
                h.0.lemma_in_bounds();
                h.1.lemma_in_bounds();
                if i > 0 {
                    assert(b[i] == self.right.remaining()[i - 1]);
                }
            } else {
                assert(b[i] == self.right.remaining()[i]);
            }
        }
        lemma_merge_sorted(a, b);
        assert(all_within(merge_by_start(a, b), lo, hi));
    }

    fn next(&mut self) -> (r: Option<(T, T)>) {
        let ghost a = self.left_remaining();
        let ghost b = self.right_remaining();
        let take_left = match (self.left_head, self.right_head) {
            (None, None) => {
                proof {
                    assert(a =~= Seq::empty());
                    assert(b =~= Seq::empty());
                }
                return None;
            },
            (Some(_), None) => true,
            (None, Some(_)) => false,
            (Some(l), Some(r)) => l.0.is_lt(r.0),
        };
        if take_left {
            let head = self.left_head;
            self.left_head = self.left.next();
            proof {
                assert(a[0] == opt_ints(head).unwrap());
                assert(self.left_remaining() =~= a.skip(1));
                lemma_sorted_starts_skip(a);
                if b.len() == 0 {
                    assert(merge_by_start(a.skip(1), b) =~= a.skip(1));
                    assert(self.remaining() =~= a.skip(1));
                } else {
                    assert(merge_by_start(a, b) == seq![a[0]] + merge_by_start(a.skip(1), b));
                    assert(merge_by_start(a, b).skip(1) =~= merge_by_start(a.skip(1), b));
                }
            }
            head
        } else {
            let head = self.right_head;
            self.right_head = self.right.next();
            proof {
                assert(b[0] == opt_ints(head).unwrap());
                assert(self.right_remaining() =~= b.skip(1));
                lemma_sorted_starts_skip(b);
                if a.len() == 0 {
                    assert(merge_by_start(a, b.skip(1)) =~= b.skip(1));
                } else {
                    assert(merge_by_start(a, b) == seq![b[0]] + merge_by_start(a, b.skip(1)));
                    assert(merge_by_start(a, b).skip(1) =~= merge_by_start(a, b.skip(1)));
                }
            }
            head
        }
    }
}

impl<T: Integer, L: SortedStarts<T>, R: SortedStarts<T>> SortedStarts<T> for Merge<T, L, R> {
    proof fn lemma_sorted_starts(&self) {
        lemma_merge_sorted(self.left_remaining(), self.right_remaining());
    }
}

/// The ranges that all the streams of `streams` have yet to hand out,
/// stream after stream.
pub open spec fn streams_flat<T: Integer, I: RangeIter<T>>(streams: Seq<I>) -> Seq<(int, int)>
    decreases streams.len(),
{
    if streams.len() == 0 {
        Seq::empty()
    } else {
        streams_flat::<T, I>(streams.drop_last()) + streams.last().remaining()
    }
}

/// Merges any number of streams of ranges that are sorted by start into
/// one stream that is sorted by start.
pub struct KMerge<T: Integer> {
    iter: AssumeSortedStarts<T, VecRangeIter<T>>,
}

impl<T: Integer> KMerge<T> {
    /// The streams of `iters` merged by start: a stream that is sorted by
    /// start and hands out the ranges of all of them, each as often as it
    /// occurs in them.
    pub fn new<I: SortedStarts<T>>(iters: Vec<I>) -> (r: Self)
        requires
            forall|i: int| 0 <= i < iters.len() ==> (#[trigger] iters[i]).inv(),
        ensures
            r.inv(),
            r.remaining().to_multiset() == streams_flat::<T, I>(iters@).to_multiset(),
    {
        let mut iters = iters;
        let ghost all = streams_flat::<T, I>(iters@);
        let mut lists: Vec<Vec<(T, T)>> = Vec::new();
        proof {
            assert(lists_flat(lists@) =~= Seq::empty());
            assert(all.to_multiset() =~= lists_flat(lists@).to_multiset().add(all.to_multiset()))
                by {
                lemma_multiset_commutative(lists_flat(lists@), all);
                assert(lists_flat(lists@) + all =~= all);
            }
        }
        loop
            invariant
                forall|i: int| 0 <= i < iters.len() ==> (#[trigger] iters[i]).inv(),
                lists_sorted(lists@),
                lists_flat(lists@).to_multiset().add(
                    streams_flat::<T, I>(iters@).to_multiset(),
                ) == all.to_multiset(),
            ensures
                lists_sorted(lists@),
                lists_flat(lists@).to_multiset() == all.to_multiset(),
            decreases iters.len(),
        {
            let ghost before = iters@;
            let ghost done = lists@;
            match iters.pop() {
                Some(it) => {
                    proof {
                        assert(it == before[before.len() - 1]);
                        assert(iters@ =~= before.drop_last());
                        assert forall|i: int| 0 <= i < iters.len() implies (
                        #[trigger] iters[i]).inv() by {
                            assert(iters[i] == before[i]);
                        }
                        it.lemma_sorted_starts();
                    }
                    let list = collect_ranges(it);
                    lists.push(list);
                    proof {
                        assert(lists@.drop_last() =~= done);
                        let a = lists_flat(done);
                        let b = streams_flat::<T, I>(iters@);
                        let c = it.remaining();
                        lemma_multiset_commutative(a, c);
                        lemma_multiset_commutative(b, c);
                        assert(a.to_multiset().add(c.to_multiset()).add(b.to_multiset())
                            =~= a.to_multiset().add(b.to_multiset().add(c.to_multiset())));
                        assert forall|i: int| 0 <= i < lists.len() implies sorted_starts(
                            ints_of(#[trigger] lists[i]@),
                        ) by {
                            if i < done.len() {
                                assert(lists[i] == done[i]);
                            }
                        }
                    }
                },
                None => {
                    proof {
                        let e = streams_flat::<T, I>(iters@);
                        assert(e =~= Seq::empty());
                        lemma_multiset_commutative(lists_flat(lists@), e);
                        assert(lists_flat(lists@) + e =~= lists_flat(lists@));
                    }
                    break ;
                },
            }
        }
        let merged = kmerge_by_start(lists);
        KMerge { iter: AssumeSortedStarts::new(VecRangeIter::new(merged)) }
    }
}

impl<T: Integer> RangeIter<T> for KMerge<T> {
    closed spec fn inv(&self) -> bool {
        self.iter.inv()
    }

    closed spec fn remaining(&self) -> Seq<(int, int)> {
        self.iter.remaining()
    }

    proof fn lemma_within(&self) {
        self.iter.lemma_within();
    }

    fn next(&mut self) -> (r: Option<(T, T)>) {
        self.iter.next()
    }
}

impl<T: Integer> SortedStarts<T> for KMerge<T> {
    proof fn lemma_sorted_starts(&self) {
        self.iter.lemma_sorted_starts();
    }
}

} // verus!
