//! Intersection of a range map with a set of ranges: the part of the map
//! that lies over the set, and from it the derived operations on range
//! maps.

use crate::integer::Integer;
use crate::map::ValueOwned;
use crate::map_ranges::{
    all_within_map, canonical_map, covers_map, holds, lemma_canonical_map,
    lemma_canonical_map_empty, lemma_canonical_map_ext, lemma_canonical_map_first,
    lemma_holds_skip, lemma_one_entry_holds, lemma_sorted_disjoint_map_skip, opt_seq_map,
    ranges_of, sorted_disjoint_map,
};
use crate::not_iter::{complement_ranges, NotIter};
use crate::range_values::RangeValuesToRangesIter;
use crate::ranges::{
    all_within, covers, in_range, lemma_covers_skip, lemma_sorted_disjoint_skip, opt_seq,
    sorted_disjoint,
};
use crate::sorted_disjoint::{as_ints, opt_ints, RangeIter, SortedDisjoint, SortedStarts};
use crate::sorted_disjoint_map::{
    entry_of, lemma_sorted_disjoint_map_is_sorted_starts, opt_entry, with_value, AnythingGoesMap,
    RangeToRangeValueIter, SortedDisjointMap, SortedStartsMap,
};
use crate::union_iter::union_ranges;
use vstd::prelude::*;

verus! {

/// The value with which the entries `s` hold `x`, if they hold it.
pub open spec fn value_at<VV>(s: Seq<((int, int), VV)>, x: int) -> VV {
    choose|v: VV| holds(s, x, v)
}

/// The part of the range map `entries` that lies over the ranges `set`: the
/// partial function that gives an integer the value of `entries` if both
/// hold it.
pub open spec fn restricted<VV>(entries: Seq<((int, int), VV)>, set: Seq<(int, int)>) -> Map<
    int,
    VV,
> {
    Map::new(|x: int| covers_map(entries, x) && covers(set, x), |x: int| value_at(entries, x))
}

/// The intersection of the range map `entries` with the ranges `set`
/// between `lo` and `hi`, in canonical form.
pub open spec fn intersection_map_ranges<VV>(
    entries: Seq<((int, int), VV)>,
    set: Seq<(int, int)>,
    lo: int,
    hi: int,
) -> Seq<((int, int), VV)> {
    canonical_map(restricted(entries, set), lo, hi)
}

/// In a canonical sequence, the value with which an integer is held is the
/// value of the one entry that holds it.
pub proof fn lemma_value_at<VV>(s: Seq<((int, int), VV)>, x: int, v: VV)
    requires
        sorted_disjoint_map(s),
        holds(s, x, v),
    ensures
        value_at(s, x) == v,
        covers_map(s, x),
{
    let w = value_at(s, x);
    let i = choose|i: int| 0 <= i < s.len() && in_range((#[trigger] s[i]).0, x) && s[i].1 == v;
    let j = choose|j: int| 0 <= j < s.len() && in_range((#[trigger] s[j]).0, x) && s[j].1 == w;
    lemma_one_entry_holds(s, i, j, x);
}

/// An integer that a sequence covers is held with the value `value_at`.
pub proof fn lemma_covered_is_held<VV>(s: Seq<((int, int), VV)>, x: int)
    requires
        covers_map(s, x),
    ensures
        holds(s, x, value_at(s, x)),
{
    let i = choose|i: int| 0 <= i < s.len() && in_range((#[trigger] s[i]).0, x);
    assert(holds(s, x, s[i].1));
}

/// The intersection of a range map with ranges is in canonical form and
/// holds an integer between the bounds with a value exactly if the map
/// holds it with that value and the ranges cover it.
pub proof fn lemma_intersection_map_ranges<VV>(
    entries: Seq<((int, int), VV)>,
    set: Seq<(int, int)>,
    lo: int,
    hi: int,
)
    requires
        sorted_disjoint_map(entries),
    ensures
        sorted_disjoint_map(intersection_map_ranges(entries, set, lo, hi)),
        all_within_map(intersection_map_ranges(entries, set, lo, hi), lo, hi),
        forall|x: int, v: VV|
            #![trigger holds(intersection_map_ranges(entries, set, lo, hi), x, v)]
            holds(intersection_map_ranges(entries, set, lo, hi), x, v) == (lo <= x <= hi && holds(
                entries,
                x,
                v,
            ) && covers(set, x)),
{
    let f = restricted(entries, set);
    lemma_canonical_map(f, lo, hi);
    assert forall|x: int, v: VV|
        #![trigger holds(intersection_map_ranges(entries, set, lo, hi), x, v)]
        holds(intersection_map_ranges(entries, set, lo, hi), x, v) == (lo <= x <= hi && holds(
            entries,
            x,
            v,
        ) && covers(set, x)) by {
        if holds(entries, x, v) {
            lemma_value_at(entries, x, v);
        }
        if covers_map(entries, x) {
            lemma_covered_is_held(entries, x);
        }
        assert(f.contains_pair(x, v) == (holds(entries, x, v) && covers(set, x)));
    }
}

/// One step of the intersection that hands out nothing: where two states
/// hold the same integers with the same values over their sets, what is to
/// come out is the same.
proof fn lemma_same_restriction<VV>(
    a: Seq<((int, int), VV)>,
    sa: Seq<(int, int)>,
    b: Seq<((int, int), VV)>,
    sb: Seq<(int, int)>,
    lo: int,
    hi: int,
)
    requires
        sorted_disjoint_map(a),
        sorted_disjoint_map(b),
        forall|x: int, v: VV|
            #![trigger holds(a, x, v)]
            #![trigger holds(b, x, v)]
            (holds(a, x, v) && covers(sa, x)) == (holds(b, x, v) && covers(sb, x)),
    ensures
        canonical_map(restricted(a, sa), lo, hi) == canonical_map(restricted(b, sb), lo, hi),
{
    let f = restricted(a, sa);
    let g = restricted(b, sb);
    assert forall|x: int| lo <= x <= hi implies (#[trigger] f.dom().contains(x))
        == g.dom().contains(x) && (f.dom().contains(x) ==> f[x] == g[x]) by {
        if covers_map(a, x) && covers(sa, x) {
            lemma_covered_is_held(a, x);
            let v = value_at(a, x);
            assert(holds(a, x, v) && covers(sa, x));
            assert(holds(b, x, v) && covers(sb, x));
            lemma_value_at(b, x, v);
        }
        if covers_map(b, x) && covers(sb, x) {
            lemma_covered_is_held(b, x);
            let v = value_at(b, x);
            assert(holds(b, x, v) && covers(sb, x));
            assert(holds(a, x, v) && covers(sa, x));
            lemma_value_at(a, x, v);
        }
    }
    lemma_canonical_map_ext(f, g, lo, hi);
}

/// One step of the intersection that hands out the entry `first`: what was
/// to come out is `first` followed by what is now to come out.
proof fn lemma_restriction_first<VV>(
    a: Seq<((int, int), VV)>,
    sa: Seq<(int, int)>,
    first: ((int, int), VV),
    b: Seq<((int, int), VV)>,
    sb: Seq<(int, int)>,
    lo: int,
    hi: int,
)
    requires
        sorted_disjoint_map(a),
        sorted_disjoint_map(b),
        lo <= first.0.0 <= first.0.1 <= hi,
        forall|x: int, v: VV|
            #![trigger holds(a, x, v)]
            #![trigger holds(b, x, v)]
            (holds(a, x, v) && covers(sa, x)) == ((in_range(first.0, x) && v == first.1) || (holds(
                b,
                x,
                v,
            ) && covers(sb, x))),
        forall|x: int, v: VV| #[trigger] holds(b, x, v) && covers(sb, x) ==> x > first.0.1,
        forall|v: VV|
            #[trigger] holds(b, first.0.1 + 1, v) && covers(sb, first.0.1 + 1) ==> v != first.1,
    ensures
        canonical_map(restricted(a, sa), lo, hi) == seq![first] + canonical_map(
            restricted(b, sb),
            lo,
            hi,
        ),
{
    let g = restricted(a, sa);
    let f = restricted(b, sb);
    assert forall|x: int, v: VV| lo <= x <= hi implies #[trigger] g.contains_pair(x, v) == ((
    in_range(first.0, x) && v == first.1) || f.contains_pair(x, v)) by {
        if covers_map(a, x) {
            lemma_covered_is_held(a, x);
        }
        if holds(a, x, v) {
            lemma_value_at(a, x, v);
        }
        if covers_map(b, x) {
            lemma_covered_is_held(b, x);
        }
        if holds(b, x, v) {
            lemma_value_at(b, x, v);
        }
        if in_range(first.0, x) && v == first.1 {
            assert(holds(a, x, v) && covers(sa, x));
            lemma_value_at(a, x, v);
        }
    }
    assert forall|x: int| lo <= x <= hi && #[trigger] f.dom().contains(x) implies x
        > first.0.1 by {
        lemma_covered_is_held(b, x);
        assert(holds(b, x, value_at(b, x)) && covers(sb, x));
    }
    let y = first.0.1 + 1;
    if f.dom().contains(y) {
        lemma_covered_is_held(b, y);
        assert(holds(b, y, value_at(b, y)) && covers(sb, y));
    }
    lemma_canonical_map_first(g, first, f, lo, hi);
}

/// What the first entry of a canonical sequence of entries and the first
/// range of a canonical sequence of ranges have to do with the rest.
proof fn lemma_heads<VV>(a: Seq<((int, int), VV)>, sa: Seq<(int, int)>)
    requires
        sorted_disjoint_map(a),
        sorted_disjoint(sa),
        a.len() > 0,
        sa.len() > 0,
    ensures
        sorted_disjoint_map(a.skip(1)),
        sorted_disjoint(sa.skip(1)),
        a[0].0.0 <= a[0].0.1,
        sa[0].0 <= sa[0].1,
        forall|x: int, v: VV|
            #![trigger holds(a, x, v)]
            #![trigger holds(a.skip(1), x, v)]
            holds(a, x, v) == ((in_range(a[0].0, x) && a[0].1 == v) || holds(a.skip(1), x, v)),
        forall|x: int|
            #![trigger covers(sa, x)]
            #![trigger covers(sa.skip(1), x)]
            covers(sa, x) == (in_range(sa[0], x) || covers(sa.skip(1), x)),
        forall|x: int, v: VV| #[trigger] holds(a.skip(1), x, v) ==> x > a[0].0.1,
        forall|x: int| #[trigger] covers(sa.skip(1), x) ==> x > sa[0].1 + 1,
        forall|v: VV| #[trigger] holds(a.skip(1), a[0].0.1 + 1, v) ==> v != a[0].1,
{
    let ta = a.skip(1);
    let tsa = sa.skip(1);
    lemma_sorted_disjoint_map_skip(a);
    lemma_sorted_disjoint_skip(sa);
    assert forall|x: int, v: VV|
        #![trigger holds(a, x, v)]
        #![trigger holds(a.skip(1), x, v)]
        holds(a, x, v) == ((in_range(a[0].0, x) && a[0].1 == v) || holds(ta, x, v)) by {
        lemma_holds_skip(a, x, v);
    }
    assert forall|x: int|
        #![trigger covers(sa, x)]
        #![trigger covers(sa.skip(1), x)]
        covers(sa, x) == (in_range(sa[0], x) || covers(tsa, x)) by {
        lemma_covers_skip(sa, x);
    }
    assert forall|x: int, v: VV| #[trigger] holds(ta, x, v) implies x > a[0].0.1 by {
        let i = choose|i: int|
            0 <= i < ta.len() && in_range((#[trigger] ta[i]).0, x) && ta[i].1 == v;
        assert(ta[i] == a[i + 1]);
    }
    assert forall|x: int| #[trigger] covers(tsa, x) implies x > sa[0].1 + 1 by {
        let i = choose|i: int| 0 <= i < tsa.len() && in_range(#[trigger] tsa[i], x);
        assert(tsa[i] == sa[i + 1]);
    }
    assert forall|v: VV| #[trigger] holds(ta, a[0].0.1 + 1, v) implies v != a[0].1 by {
        let i = choose|i: int|
            0 <= i < ta.len() && in_range((#[trigger] ta[i]).0, a[0].0.1 + 1) && ta[i].1 == v;
        assert(ta[i] == a[i + 1]);
        if i > 0 {
            assert(a[1].0.1 < a[i + 1].0.0);
            assert(a[1].0.0 <= a[1].0.1);
            assert(a[0].0.1 < a[1].0.0);
        }
        assert(a[0int + 1] == a[1]);
    }
}

/// A range of the set that ends before the first entry of the map starts
/// takes no part in the intersection.
proof fn lemma_skip_range<VV>(a: Seq<((int, int), VV)>, sa: Seq<(int, int)>, lo: int, hi: int)
    requires
        sorted_disjoint_map(a),
        sorted_disjoint(sa),
        a.len() > 0,
        sa.len() > 0,
        sa[0].1 < a[0].0.0,
    ensures
        canonical_map(restricted(a, sa), lo, hi) == canonical_map(
            restricted(a, sa.skip(1)),
            lo,
            hi,
        ),
{
    lemma_heads(a, sa);
    lemma_same_restriction(a, sa, a, sa.skip(1), lo, hi);
}

/// An entry of the map that ends before the first range of the set starts
/// takes no part in the intersection.
proof fn lemma_skip_entry<VV>(a: Seq<((int, int), VV)>, sa: Seq<(int, int)>, lo: int, hi: int)
    requires
        sorted_disjoint_map(a),
        sorted_disjoint(sa),
        a.len() > 0,
        sa.len() > 0,
        a[0].0.1 < sa[0].0,
    ensures
        canonical_map(restricted(a, sa), lo, hi) == canonical_map(
            restricted(a.skip(1), sa),
            lo,
            hi,
        ),
{
    lemma_heads(a, sa);
    lemma_same_restriction(a, sa, a.skip(1), sa, lo, hi);
}

/// Where the first entry of the map and the first range of the set meet,
/// the intersection starts with what they share, and goes on with what is
/// left when whichever of the two ends there is dropped.
proof fn lemma_shared_part<VV>(a: Seq<((int, int), VV)>, sa: Seq<(int, int)>, lo: int, hi: int)
    requires
        sorted_disjoint_map(a),
        sorted_disjoint(sa),
        a.len() > 0,
        sa.len() > 0,
        a[0].0.0 <= sa[0].1,
        sa[0].0 <= a[0].0.1,
        lo <= a[0].0.0 && a[0].0.1 <= hi,
    ensures
        ({
            let start = crate::ranges::max_int(a[0].0.0, sa[0].0);
            let end = crate::ranges::min_int(a[0].0.1, sa[0].1);
            let b = if end < a[0].0.1 {
                a
            } else {
                a.skip(1)
            };
            let sb = if end < sa[0].1 {
                sa
            } else {
                sa.skip(1)
            };
            canonical_map(restricted(a, sa), lo, hi) == seq![((start, end), a[0].1)]
                + canonical_map(restricted(b, sb), lo, hi)
        }),
{
    let start = crate::ranges::max_int(a[0].0.0, sa[0].0);
    let end = crate::ranges::min_int(a[0].0.1, sa[0].1);
    let b = if end < a[0].0.1 {
        a
    } else {
        a.skip(1)
    };
    let sb = if end < sa[0].1 {
        sa
    } else {
        sa.skip(1)
    };
    lemma_heads(a, sa);
    lemma_restriction_first(a, sa, ((start, end), a[0].1), b, sb, lo, hi);
}

/// Turns a canonical stream of ranges with values and a canonical stream of
/// ranges into the canonical stream of the part of the first that lies over
/// the second. Ranges of the map are cut where the ranges of the set begin
/// and end.
pub struct IntersectionIterMap<
    T: Integer,
    V: ValueOwned,
    IM: SortedDisjointMap<T, V>,
    IS: SortedDisjoint<T>,
> {
    iter_left: IM,
    iter_right: IS,
    left: Option<((T, T), V)>,
    right: Option<(T, T)>,
}

impl<
    T: Integer,
    V: ValueOwned,
    IM: SortedDisjointMap<T, V>,
    IS: SortedDisjoint<T>,
> IntersectionIterMap<T, V, IM, IS> {
    /// The entries of the map that are still to be read.
    pub closed spec fn left_remaining(&self) -> Seq<((int, int), V::V)> {
        opt_seq_map(opt_entry(self.left)) + self.iter_left.remaining()
    }

    /// The ranges of the set that are still to be read.
    pub closed spec fn right_remaining(&self) -> Seq<(int, int)> {
        opt_seq(opt_ints(self.right)) + self.iter_right.remaining()
    }

    /// The part of the map `iter_left` that lies over the set `iter_right`.
    pub fn new(iter_left: IM, iter_right: IS) -> (r: Self)
        requires
            iter_left.inv(),
            iter_right.inv(),
        ensures
            r.inv(),
            r.remaining() == intersection_map_ranges(
                iter_left.remaining(),
                iter_right.remaining(),
                T::min_int(),
                T::max_int(),
            ),
    {
        proof {
            iter_left.lemma_sorted_disjoint();
            iter_right.lemma_sorted_disjoint();
            iter_left.lemma_within();
            iter_right.lemma_within();
        }
        let r = IntersectionIterMap { iter_left, iter_right, left: None, right: None };
        proof {
            assert(r.left_remaining() =~= iter_left.remaining());
            assert(r.right_remaining() =~= iter_right.remaining());
        }
        r
    }
}

impl<
    T: Integer,
    V: ValueOwned,
    IM: SortedDisjointMap<T, V>,
    IS: SortedDisjoint<T>,
> AnythingGoesMap<T, V> for IntersectionIterMap<T, V, IM, IS> {
    closed spec fn inv(&self) -> bool {
        &&& self.iter_left.inv()
        &&& self.iter_right.inv()
        &&& sorted_disjoint_map(self.left_remaining())
        &&& sorted_disjoint(self.right_remaining())
        &&& all_within_map(self.left_remaining(), T::min_int(), T::max_int())
        &&& all_within(self.right_remaining(), T::min_int(), T::max_int())
    }

    closed spec fn remaining(&self) -> Seq<((int, int), V::V)> {
        canonical_map(
            restricted(self.left_remaining(), self.right_remaining()),
            T::min_int(),
            T::max_int(),
        )
    }

    proof fn lemma_within(&self) {
        lemma_canonical_map(
            restricted(self.left_remaining(), self.right_remaining()),
            T::min_int(),
            T::max_int(),
        );
    }

    fn next(&mut self) -> (r: Option<((T, T), V)>) {
        let ghost lo = T::min_int();
        let ghost hi = T::max_int();
        loop
            invariant
                self.inv(),
                self.remaining() == old(self).remaining(),
                lo == T::min_int(),
                hi == T::max_int(),
            decreases self.left_remaining().len() + self.right_remaining().len(),
        {
            let ghost a = self.left_remaining();
            let ghost sa = self.right_remaining();
            let left = match self.left.take() {
                Some(left) => left,
                None => match self.iter_left.next() {
                    Some(left) => left,
                    None => {
                        proof {
                            assert(self.left_remaining() =~= Seq::empty());
                            assert(a =~= Seq::empty());
                            assert(self.right_remaining() == sa);
                            assert forall|x: int| !covers_map(a, x) by {
                                if covers_map(a, x) {
                                    let i = choose|i: int|
                                        0 <= i < a.len() && in_range((#[trigger] a[i]).0, x);
                                }
                            }
                            lemma_canonical_map_empty(restricted(a, sa), lo, hi);
                        }
                        return None;
                    },
                },
            };
            proof {
                assert(a =~= seq![entry_of(left)] + self.iter_left.remaining());
            }
            let right = match self.right {
                Some(right) => right,
                None => match self.iter_right.next() {
                    Some(right) => right,
                    None => {
                        self.left = Some(left);
                        proof {
                            assert(self.left_remaining() =~= a);
                            assert(self.right_remaining() =~= Seq::empty());
                            assert(sa =~= Seq::empty());
                            assert forall|x: int| !covers(sa, x) by {
                                if covers(sa, x) {
                                    let i = choose|i: int|
                                        0 <= i < sa.len() && in_range(#[trigger] sa[i], x);
                                }
                            }
                            lemma_canonical_map_empty(restricted(a, sa), lo, hi);
                        }
                        return None;
                    },
                },
            };
            self.right = None;
            proof {
                assert(sa =~= seq![as_ints(right)] + self.iter_right.remaining());
            }
            let (left_start, left_end) = left.0;
            let (right_start, right_end) = right;
            proof {
                assert(a.skip(1) =~= self.iter_left.remaining());
                assert(sa.skip(1) =~= self.iter_right.remaining());
                assert(a[0] == entry_of(left));
                assert(sa[0] == as_ints(right));
                lemma_sorted_disjoint_map_skip(a);
                lemma_sorted_disjoint_skip(sa);
                assert forall|i: int| 0 <= i < a.skip(1).len() implies lo <= (
                #[trigger] a.skip(1)[i]).0.0 <= hi && lo <= a.skip(1)[i].0.1 <= hi by {
                    assert(a.skip(1)[i] == a[i + 1]);
                }
                assert forall|i: int| 0 <= i < sa.skip(1).len() implies lo <= (
                #[trigger] sa.skip(1)[i]).0 <= hi && lo <= sa.skip(1)[i].1 <= hi by {
                    assert(sa.skip(1)[i] == sa[i + 1]);
                }
            }
            if right_end.is_lt(left_start) {
                // the range of the set lies before the entry: on to the next range
                self.left = Some(left);
                proof {
                    assert(self.left_remaining() =~= a);
                    assert(self.right_remaining() =~= sa.skip(1));
                    lemma_skip_range(a, sa, lo, hi);
                }
                continue ;
            }
            if left_end.is_lt(right_start) {
                // the entry lies before the range of the set: on to the next entry
                self.right = Some(right);
                proof {
                    assert(self.left_remaining() =~= a.skip(1));
                    assert(self.right_remaining() =~= sa);
                    lemma_skip_entry(a, sa, lo, hi);
                }
                continue ;
            }
            let start = if left_start.is_lt(right_start) {
                right_start
            } else {
                left_start
            };
            let end = if left_end.is_lt(right_end) {
                left_end
            } else {
                right_end
            };
            let value = left.1.value_clone();
            if end.is_lt(left_end) {
                self.left = Some(left);
            }
            if end.is_lt(right_end) {
                self.right = Some(right);
            }
            proof {
                if end.as_int() < left_end.as_int() {
                    assert(self.left_remaining() =~= a);
                    assert(self.right_remaining() =~= sa.skip(1));
                } else {
                    assert(self.left_remaining() =~= a.skip(1));
                    if end.as_int() < right_end.as_int() {
                        assert(self.right_remaining() =~= sa);
                    } else {
                        assert(self.right_remaining() =~= sa.skip(1));
                    }
                }
                lemma_shared_part(a, sa, lo, hi);
                assert(a[0].0.0 <= a[0].0.1);
                assert(old(self).remaining().skip(1) =~= self.remaining());
            }
            return Some(((start, end), value));
        }
    }
}

impl<
    T: Integer,
    V: ValueOwned,
    IM: SortedDisjointMap<T, V>,
    IS: SortedDisjoint<T>,
> SortedStartsMap<T, V> for IntersectionIterMap<T, V, IM, IS> {
    proof fn lemma_sorted_starts(&self) {
        self.lemma_sorted_disjoint();
        lemma_sorted_disjoint_map_is_sorted_starts(self.remaining());
    }
}

impl<
    T: Integer,
    V: ValueOwned,
    IM: SortedDisjointMap<T, V>,
    IS: SortedDisjoint<T>,
> SortedDisjointMap<T, V> for IntersectionIterMap<T, V, IM, IS> {
    proof fn lemma_sorted_disjoint(&self) {
        lemma_canonical_map(
            restricted(self.left_remaining(), self.right_remaining()),
            T::min_int(),
            T::max_int(),
        );
    }
}

/// The part of a range map that lies over a set of ranges.
pub type BitAndRangesMap<T, V, L, R> = IntersectionIterMap<T, V, L, R>;

/// The part of a range map that does not lie over a set of ranges.
pub type BitSubRangesMap<T, V, L, R> = IntersectionIterMap<T, V, L, NotIter<T, R>>;

/// The stream of the ranges of a canonical stream of ranges with values:
/// the integers that it holds, without their values.
pub fn into_sorted_disjoint<T: Integer, V: ValueOwned, I: SortedDisjointMap<T, V>>(iter: I) -> (r:
    RangeValuesToRangesIter<T, V, I>)
    requires
        iter.inv(),
    ensures
        r.inv(),
        r.remaining() == union_ranges(ranges_of(iter.remaining())),
{
    RangeValuesToRangesIter::new(iter)
}

/// The stream of the part of the map `left` that lies over the set `right`.
pub fn intersection_with_set<
    T: Integer,
    V: ValueOwned,
    L: SortedDisjointMap<T, V>,
    R: SortedDisjoint<T>,
>(left: L, right: R) -> (r: BitAndRangesMap<T, V, L, R>)
    requires
        left.inv(),
        right.inv(),
    ensures
        r.inv(),
        r.remaining() == intersection_map_ranges(
            left.remaining(),
            right.remaining(),
            T::min_int(),
            T::max_int(),
        ),
{
    IntersectionIterMap::new(left, right)
}

/// The stream of the part of the map `left` that does not lie over the set
/// `right`.
pub fn difference_with_set<
    T: Integer,
    V: ValueOwned,
    L: SortedDisjointMap<T, V>,
    R: SortedDisjoint<T>,
>(left: L, right: R) -> (r: BitSubRangesMap<T, V, L, R>)
    requires
        left.inv(),
        right.inv(),
    ensures
        r.inv(),
        r.remaining() == intersection_map_ranges(
            left.remaining(),
            complement_ranges(right.remaining(), T::min_int(), T::max_int()),
            T::min_int(),
            T::max_int(),
        ),
{
    IntersectionIterMap::new(left, NotIter::new(right))
}

/// The stream of the part of the map `left` that lies over the integers of
/// the map `right`.
pub fn intersection_map<
    T: Integer,
    V: ValueOwned,
    L: SortedDisjointMap<T, V>,
    R: SortedDisjointMap<T, V>,
>(left: L, right: R) -> (r: BitAndRangesMap<T, V, L, RangeValuesToRangesIter<T, V, R>>)
    requires
        left.inv(),
        right.inv(),
    ensures
        r.inv(),
        r.remaining() == intersection_map_ranges(
            left.remaining(),
            union_ranges(ranges_of(right.remaining())),
            T::min_int(),
            T::max_int(),
        ),
{
    IntersectionIterMap::new(left, into_sorted_disjoint(right))
}

/// The stream of the part of the map `left` that does not lie over the
/// integers of the map `right`.
pub fn difference_map<
    T: Integer,
    V: ValueOwned,
    L: SortedDisjointMap<T, V>,
    R: SortedDisjointMap<T, V>,
>(left: L, right: R) -> (r: BitSubRangesMap<T, V, L, RangeValuesToRangesIter<T, V, R>>)
    requires
        left.inv(),
        right.inv(),
    ensures
        r.inv(),
        r.remaining() == intersection_map_ranges(
            left.remaining(),
            complement_ranges(
                union_ranges(ranges_of(right.remaining())),
                T::min_int(),
                T::max_int(),
            ),
            T::min_int(),
            T::max_int(),
        ),
{
    IntersectionIterMap::new(left, NotIter::new(into_sorted_disjoint(right)))
}

/// The stream of the integers of the element type that a range map does
/// not hold.
pub fn complement_to_set<T: Integer, V: ValueOwned, I: SortedDisjointMap<T, V>>(iter: I) -> (r:
    NotIter<T, RangeValuesToRangesIter<T, V, I>>)
    requires
        iter.inv(),
    ensures
        r.inv(),
        r.remaining() == complement_ranges(
            union_ranges(ranges_of(iter.remaining())),
            T::min_int(),
            T::max_int(),
        ),
{
    NotIter::new(into_sorted_disjoint(iter))
}

/// The stream of the range map that gives the value `v` to every integer
/// of the element type that the map `iter` does not hold.
pub fn complement_map<T: Integer, V: ValueOwned, I: SortedDisjointMap<T, V>>(iter: I, v: V) -> (r:
    RangeToRangeValueIter<T, V, NotIter<T, RangeValuesToRangesIter<T, V, I>>>)
    requires
        iter.inv(),
    ensures
        r.inv(),
        r.remaining() == with_value(
            complement_ranges(
                union_ranges(ranges_of(iter.remaining())),
                T::min_int(),
                T::max_int(),
            ),
            v@,
        ),
{
    RangeToRangeValueIter::new(complement_to_set(iter), v)
}

/// Whether a canonical stream of ranges with values has no entry left.
pub fn is_empty_map<T: Integer, V: ValueOwned, I: SortedDisjointMap<T, V>>(iter: I) -> (b: bool)
    requires
        iter.inv(),
    ensures
        b == (iter.remaining().len() == 0),
{
    let mut stream = iter;
    stream.next().is_none()
}

} // verus!
