//! The set operations on canonical streams of ranges: union, intersection,
//! difference, symmetric difference and complement, each as a lazy stream
//! over its operands.

use crate::integer::Integer;
use crate::merge::{
    lemma_merge_counts, lemma_merge_sorted, merge_by_start, streams_flat, KMerge, Merge,
};
use crate::not_iter::{complement_ranges, gaps, NotIter};
use crate::ranges::{
    all_within, canonical, covers, in_range, lemma_canonical, lemma_canonical_ext,
    lemma_cover_count_zero, lemma_covers_permutation, points, sorted_disjoint,
};
use crate::sorted_disjoint::{RangeIter, SortedDisjoint, SortedStarts};
use crate::sym_diff_iter::{sym_diff_ranges, SymDiffIterMerge};
use crate::union_iter::{lemma_union_ranges_canonical, UnionIter};
use vstd::prelude::*;

verus! {

/// The union of the ranges `a` and `b` between `lo` and `hi`: the canonical
/// sequence of the integers that `a` or `b` covers.
pub open spec fn union_of(a: Seq<(int, int)>, b: Seq<(int, int)>, lo: int, hi: int) -> Seq<
    (int, int),
> {
    canonical(points(a).union(points(b)), lo, hi)
}

/// The intersection of the ranges `a` and `b` between `lo` and `hi`: the
/// canonical sequence of the integers that both `a` and `b` cover.
pub open spec fn intersection_of(a: Seq<(int, int)>, b: Seq<(int, int)>, lo: int, hi: int) -> Seq<
    (int, int),
> {
    canonical(points(a).intersect(points(b)), lo, hi)
}

/// The difference of the ranges `a` and `b` between `lo` and `hi`: the
/// canonical sequence of the integers that `a` covers and `b` does not.
pub open spec fn difference_of(a: Seq<(int, int)>, b: Seq<(int, int)>, lo: int, hi: int) -> Seq<
    (int, int),
> {
    canonical(points(a).difference(points(b)), lo, hi)
}

/// A merged sequence covers what either of the two sequences covers.
pub proof fn lemma_merge_covers(a: Seq<(int, int)>, b: Seq<(int, int)>, x: int)
    ensures
        covers(merge_by_start(a, b), x) == (covers(a, x) || covers(b, x)),
{
    lemma_merge_counts(a, b, x);
    lemma_cover_count_zero(merge_by_start(a, b), x);
    lemma_cover_count_zero(a, x);
    lemma_cover_count_zero(b, x);
}

/// The union of two canonical streams.
pub type BitOrMerge<T, L, R> = UnionIter<T, Merge<T, L, R>>;

/// The intersection of two canonical streams, by way of the complement of
/// the union of their complements.
pub type BitAndMerge<T, L, R> = NotIter<T, BitOrMerge<T, NotIter<T, L>, NotIter<T, R>>>;

/// The difference of two canonical streams, by way of the complement of the
/// union of the second with the complement of the first.
pub type BitSubMerge<T, L, R> = NotIter<T, BitOrMerge<T, NotIter<T, L>, R>>;

/// The stream of the complement of a canonical stream: the integers of the
/// element type that it does not hold.
pub fn complement<T: Integer, I: SortedDisjoint<T>>(iter: I) -> (r: NotIter<T, I>)
    requires
        iter.inv(),
    ensures
        r.inv(),
        r.remaining() == complement_ranges(iter.remaining(), T::min_int(), T::max_int()),
{
    NotIter::new(iter)
}

/// The stream of the union of two canonical streams: the integers that
/// either holds.
pub fn union<T: Integer, L: SortedDisjoint<T>, R: SortedDisjoint<T>>(left: L, right: R) -> (r:
    BitOrMerge<T, L, R>)
    requires
        left.inv(),
        right.inv(),
    ensures
        r.inv(),
        r.remaining() == union_of(
            left.remaining(),
            right.remaining(),
            T::min_int(),
            T::max_int(),
        ),
{
    let ghost a = left.remaining();
    let ghost b = right.remaining();
    let ghost lo = T::min_int();
    let ghost hi = T::max_int();
    proof {
        left.lemma_sorted_starts();
        right.lemma_sorted_starts();
        left.lemma_within();
        right.lemma_within();
        lemma_merge_sorted(a, b);
        assert(all_within(merge_by_start(a, b), lo, hi));
        lemma_union_ranges_canonical(merge_by_start(a, b), lo, hi);
        assert(points(merge_by_start(a, b)) =~= points(a).union(points(b))) by {
            assert forall|x: int|
                covers(merge_by_start(a, b), x) == (covers(a, x) || covers(b, x)) by {
                lemma_merge_covers(a, b, x);
            }
        }
    }
    UnionIter::new(Merge::new(left, right))
}

/// The union of any number of canonical streams.
pub type BitOrKMerge<T> = UnionIter<T, KMerge<T>>;

/// The stream of the union of any number of canonical streams: the
/// integers that any of them holds.
pub fn union_k<T: Integer, I: SortedDisjoint<T>>(streams: Vec<I>) -> (r: BitOrKMerge<T>)
    requires
        forall|i: int| 0 <= i < streams.len() ==> (#[trigger] streams[i]).inv(),
    ensures
        r.inv(),
        r.remaining() == canonical(
            points(streams_flat::<T, I>(streams@)),
            T::min_int(),
            T::max_int(),
        ),
{
    let ghost flat = streams_flat::<T, I>(streams@);
    let merged = KMerge::new(streams);
    proof {
        merged.lemma_sorted_starts();
        merged.lemma_within();
        lemma_union_ranges_canonical(merged.remaining(), T::min_int(), T::max_int());
        assert(points(merged.remaining()) =~= points(flat)) by {
            assert forall|x: int| covers(merged.remaining(), x) == covers(flat, x) by {
                lemma_covers_permutation(merged.remaining(), flat, x);
            }
        }
    }
    UnionIter::new(merged)
}

/// Ranges between `lo` and `hi` cover only integers between `lo` and `hi`.
pub proof fn lemma_covers_within(s: Seq<(int, int)>, lo: int, hi: int, x: int)
    requires
        all_within(s, lo, hi),
        covers(s, x),
    ensures
        lo <= x <= hi,
{
    let i = choose|i: int| 0 <= i < s.len() && in_range(#[trigger] s[i], x);
    assert(lo <= s[i].0 && s[i].1 <= hi);
}

/// The stream of the intersection of two canonical streams: the integers
/// that both hold.
pub fn intersection<T: Integer, L: SortedDisjoint<T>, R: SortedDisjoint<T>>(
    left: L,
    right: R,
) -> (r: BitAndMerge<T, L, R>)
    requires
        left.inv(),
        right.inv(),
    ensures
        r.inv(),
        r.remaining() == intersection_of(
            left.remaining(),
            right.remaining(),
            T::min_int(),
            T::max_int(),
        ),
{
    let ghost a = left.remaining();
    let ghost b = right.remaining();
    let ghost lo = T::min_int();
    let ghost hi = T::max_int();
    let not_left = complement(left);
    let not_right = complement(right);
    let either = union(not_left, not_right);
    proof {
        let ca = complement_ranges(a, lo, hi);
        let cb = complement_ranges(b, lo, hi);
        let u = union_of(ca, cb, lo, hi);
        lemma_canonical(gaps(a), lo, hi);
        lemma_canonical(gaps(b), lo, hi);
        lemma_canonical(points(ca).union(points(cb)), lo, hi);
        assert forall|x: int| lo <= x <= hi implies gaps(u).contains(x) == points(a).intersect(
            points(b),
        ).contains(x) by {}
        lemma_canonical_ext(gaps(u), points(a).intersect(points(b)), lo, hi);
    }
    complement(either)
}

/// The stream of the difference of two canonical streams: the integers
/// that the first holds and the second does not.
pub fn difference<T: Integer, L: SortedDisjoint<T>, R: SortedDisjoint<T>>(left: L, right: R) -> (r:
    BitSubMerge<T, L, R>)
    requires
        left.inv(),
        right.inv(),
    ensures
        r.inv(),
        r.remaining() == difference_of(
            left.remaining(),
            right.remaining(),
            T::min_int(),
            T::max_int(),
        ),
{
    let ghost a = left.remaining();
    let ghost b = right.remaining();
    let ghost lo = T::min_int();
    let ghost hi = T::max_int();
    let not_left = complement(left);
    let either = union(not_left, right);
    proof {
        let ca = complement_ranges(a, lo, hi);
        let u = union_of(ca, b, lo, hi);
        lemma_canonical(gaps(a), lo, hi);
        lemma_canonical(points(ca).union(points(b)), lo, hi);
        assert forall|x: int| lo <= x <= hi implies gaps(u).contains(x) == points(a).difference(
            points(b),
        ).contains(x) by {}
        lemma_canonical_ext(gaps(u), points(a).difference(points(b)), lo, hi);
    }
    complement(either)
}

/// The stream of the symmetric difference of two canonical streams: the
/// integers that exactly one of them holds.
pub fn symmetric_difference<T: Integer, L: SortedDisjoint<T>, R: SortedDisjoint<T>>(
    left: L,
    right: R,
) -> (r: SymDiffIterMerge<T, L, R>)
    requires
        left.inv(),
        right.inv(),
    ensures
        r.inv(),
        r.remaining() == sym_diff_ranges(
            merge_by_start(left.remaining(), right.remaining()),
            T::min_int(),
            T::max_int(),
        ),
{
    SymDiffIterMerge::new2(left, right)
}

/// Whether a canonical stream has no range left.
pub fn is_empty<T: Integer, I: SortedDisjoint<T>>(iter: I) -> (b: bool)
    requires
        iter.inv(),
    ensures
        b == (iter.remaining().len() == 0),
{
    let mut stream = iter;
    stream.next().is_none()
}

} // verus!
