//! The laws of the range algebra, each proved of the sequences that the
//! streams hand out.

use crate::map_ranges::{
    all_within_map, holds, lemma_canonical_map_is, lemma_one_entry_holds, sorted_disjoint_map,
};
use crate::integer::Integer;
use crate::intersection_iter_map::{intersection_map_ranges, lemma_intersection_map_ranges};
use crate::merge::{lemma_merge_counts, merge_by_start, streams_flat};
use crate::sorted_disjoint::{RangeIter, SortedDisjoint};
use crate::not_iter::{complement_ranges, gaps, lemma_complement_involution};
use crate::ops::{difference_of, intersection_of, lemma_covers_within, union_of};
use crate::ranges::{
    all_within, canonical, cover_count, covers, in_range, lemma_canonical, lemma_canonical_ext,
    lemma_canonical_is, lemma_canonical_unique, lemma_cover_count_zero, lemma_covers_concat,
    lemma_sorted_disjoint_is_sorted_starts, odd_points, points, sorted_disjoint, sorted_starts,
};
use crate::sorted_disjoint_map::{contends, with_priority, Ranked};
use crate::sym_diff_iter::sym_diff_ranges;
use crate::union_iter::{lemma_union_ranges, union_ranges};
use crate::union_iter_map::{
    best_at, lemma_best_wins, lemma_union_map_ranges, sweep_map, union_map_ranges, wins,
};
use crate::unsorted_disjoint_map::{lemma_rank_unsorted_values, numbered, rank_unsorted};
use vstd::prelude::*;

verus! {

/// Making a canonical sequence canonical changes nothing: the union of a
/// sequence that is already sorted and disjoint is that sequence.
pub proof fn law_union_idempotent(s: Seq<(int, int)>)
    requires
        sorted_disjoint(s),
    ensures
        union_ranges(s) == s,
{
    lemma_sorted_disjoint_is_sorted_starts(s);
    lemma_union_ranges(s);
    lemma_canonical_unique(union_ranges(s), s);
}

/// The union of a canonical sequence with itself, and with nothing, is that
/// sequence.
pub proof fn law_union_with_itself(s: Seq<(int, int)>, lo: int, hi: int)
    requires
        sorted_disjoint(s),
        all_within(s, lo, hi),
    ensures
        union_of(s, s, lo, hi) == s,
        union_of(s, Seq::empty(), lo, hi) == s,
{
    let e = Seq::<(int, int)>::empty();
    assert forall|x: int| covers(s, x) == (lo <= x <= hi && points(s).union(points(s)).contains(
        x,
    )) by {
        if covers(s, x) {
            lemma_covers_within(s, lo, hi, x);
        }
    }
    lemma_canonical_is(s, points(s).union(points(s)), lo, hi);
    assert forall|x: int| covers(s, x) == (lo <= x <= hi && points(s).union(points(e)).contains(
        x,
    )) by {
        if covers(s, x) {
            lemma_covers_within(s, lo, hi, x);
        }
        if covers(e, x) {
            let i = choose|i: int| 0 <= i < e.len() && in_range(#[trigger] e[i], x);
        }
    }
    lemma_canonical_is(s, points(s).union(points(e)), lo, hi);
}

/// The complement of the complement of a canonical sequence is the sequence
/// itself.
pub proof fn law_complement_involution(s: Seq<(int, int)>, lo: int, hi: int)
    requires
        sorted_disjoint(s),
        all_within(s, lo, hi),
    ensures
        complement_ranges(complement_ranges(s, lo, hi), lo, hi) == s,
{
    lemma_complement_involution(s, lo, hi);
}

/// De Morgan: the complement of a union is the intersection of the
/// complements.
pub proof fn law_de_morgan(a: Seq<(int, int)>, b: Seq<(int, int)>, lo: int, hi: int)
    ensures
        complement_ranges(union_of(a, b, lo, hi), lo, hi) == intersection_of(
            complement_ranges(a, lo, hi),
            complement_ranges(b, lo, hi),
            lo,
            hi,
        ),
{
    let u = union_of(a, b, lo, hi);
    let ca = complement_ranges(a, lo, hi);
    let cb = complement_ranges(b, lo, hi);
    lemma_canonical(points(a).union(points(b)), lo, hi);
    lemma_canonical(gaps(a), lo, hi);
    lemma_canonical(gaps(b), lo, hi);
    assert forall|x: int| lo <= x <= hi implies gaps(u).contains(x) == points(ca).intersect(
        points(cb),
    ).contains(x) by {}
    lemma_canonical_ext(gaps(u), points(ca).intersect(points(cb)), lo, hi);
}

/// A difference is the intersection with the complement.
pub proof fn law_difference_is_intersection_with_complement(
    a: Seq<(int, int)>,
    b: Seq<(int, int)>,
    lo: int,
    hi: int,
)
    ensures
        difference_of(a, b, lo, hi) == intersection_of(a, complement_ranges(b, lo, hi), lo, hi),
{
    let cb = complement_ranges(b, lo, hi);
    lemma_canonical(gaps(b), lo, hi);
    assert forall|x: int| lo <= x <= hi implies points(a).difference(points(b)).contains(x)
        == points(a).intersect(points(cb)).contains(x) by {}
    lemma_canonical_ext(
        points(a).difference(points(b)),
        points(a).intersect(points(cb)),
        lo,
        hi,
    );
}

/// A canonical sequence holds no integer twice.
pub proof fn lemma_canonical_counts(s: Seq<(int, int)>, x: int)
    requires
        sorted_disjoint(s),
    ensures
        cover_count(s, x) == if covers(s, x) {
            1nat
        } else {
            0nat
        },
    decreases s.len(),
{
    lemma_cover_count_zero(s, x);
    if s.len() > 0 {
        let t = s.drop_last();
        let last = s.last();
        assert(last == s[s.len() - 1]);
        assert forall|i: int| 0 <= i < t.len() implies (#[trigger] t[i]).0 <= t[i].1 by {
            assert(t[i] == s[i]);
        }
        assert forall|i: int, j: int| 0 <= i < j < t.len() implies (#[trigger] t[i]).1 + 1 < (
        #[trigger] t[j]).0 by {
            assert(t[i] == s[i]);
            assert(t[j] == s[j]);
        }
        lemma_canonical_counts(t, x);
        lemma_cover_count_zero(t, x);
        if in_range(last, x) && covers(t, x) {
            let i = choose|i: int| 0 <= i < t.len() && in_range(#[trigger] t[i], x);
            assert(t[i] == s[i]);
            assert(s[i].1 + 1 < s[s.len() - 1].0);
        }
    }
}

/// The symmetric difference of two canonical sequences is their union
/// without their intersection.
pub proof fn law_symmetric_difference(a: Seq<(int, int)>, b: Seq<(int, int)>, lo: int, hi: int)
    requires
        sorted_disjoint(a),
        sorted_disjoint(b),
    ensures
        sym_diff_ranges(merge_by_start(a, b), lo, hi) == difference_of(
            union_of(a, b, lo, hi),
            intersection_of(a, b, lo, hi),
            lo,
            hi,
        ),
{
    let m = merge_by_start(a, b);
    let u = union_of(a, b, lo, hi);
    let n = intersection_of(a, b, lo, hi);
    lemma_canonical(points(a).union(points(b)), lo, hi);
    lemma_canonical(points(a).intersect(points(b)), lo, hi);
    assert forall|x: int| lo <= x <= hi implies odd_points(m).contains(x) == points(
        u,
    ).difference(points(n)).contains(x) by {
        lemma_merge_counts(a, b, x);
        lemma_canonical_counts(a, x);
        lemma_canonical_counts(b, x);
    }
    lemma_canonical_ext(odd_points(m), points(u).difference(points(n)), lo, hi);
}

/// Union is commutative.
pub proof fn law_union_commutative(a: Seq<(int, int)>, b: Seq<(int, int)>, lo: int, hi: int)
    ensures
        union_of(a, b, lo, hi) == union_of(b, a, lo, hi),
{
    assert(points(a).union(points(b)) =~= points(b).union(points(a)));
}

/// Union is associative, and the union of three sequences, taken in either
/// grouping, is the union of all their ranges taken at once.
pub proof fn law_union_associative(
    a: Seq<(int, int)>,
    b: Seq<(int, int)>,
    c: Seq<(int, int)>,
    lo: int,
    hi: int,
)
    ensures
        union_of(union_of(a, b, lo, hi), c, lo, hi) == union_of(a, union_of(b, c, lo, hi), lo, hi),
        union_of(union_of(a, b, lo, hi), c, lo, hi) == canonical(points(a + b + c), lo, hi),
{
    let ab = union_of(a, b, lo, hi);
    let bc = union_of(b, c, lo, hi);
    let all = points(a + b + c);
    lemma_canonical(points(a).union(points(b)), lo, hi);
    lemma_canonical(points(b).union(points(c)), lo, hi);
    assert forall|x: int| lo <= x <= hi implies points(ab).union(points(c)).contains(x)
        == all.contains(x) && points(a).union(points(bc)).contains(x) == all.contains(x) by {
        lemma_covers_concat(a + b, c, x);
        lemma_covers_concat(a, b, x);
    }
    lemma_canonical_ext(points(ab).union(points(c)), all, lo, hi);
    lemma_canonical_ext(points(a).union(points(bc)), all, lo, hi);
}

/// The union of three streams taken at once is the union of the first two
/// with the third.
pub proof fn law_union_of_three<T: Integer, I: SortedDisjoint<T>>(
    streams: Seq<I>,
    lo: int,
    hi: int,
)
    requires
        streams.len() == 3,
    ensures
        canonical(points(streams_flat::<T, I>(streams)), lo, hi) == union_of(
            union_of(streams[0].remaining(), streams[1].remaining(), lo, hi),
            streams[2].remaining(),
            lo,
            hi,
        ),
{
    let a = streams[0].remaining();
    let b = streams[1].remaining();
    let c = streams[2].remaining();
    let two = streams.drop_last();
    let one = two.drop_last();
    assert(one.drop_last().len() == 0);
    assert(streams.last() == streams[2]);
    assert(two.last() == streams[1]);
    assert(one.last() == streams[0]);
    reveal_with_fuel(streams_flat, 4);
    assert(streams_flat::<T, I>(streams) =~= a + b + c);
    law_union_associative(a, b, c, lo, hi);
}

/// The part of a canonical range map that lies over ranges holds an integer
/// between the bounds with a value exactly if the map holds it with that
/// value and the ranges cover it.
pub proof fn law_intersection_with_set<VV>(
    entries: Seq<((int, int), VV)>,
    set: Seq<(int, int)>,
    lo: int,
    hi: int,
    x: int,
    v: VV,
)
    requires
        sorted_disjoint_map(entries),
    ensures
        sorted_disjoint_map(intersection_map_ranges(entries, set, lo, hi)),
        holds(intersection_map_ranges(entries, set, lo, hi), x, v) == (lo <= x <= hi && holds(
            entries,
            x,
            v,
        ) && covers(set, x)),
{
    lemma_intersection_map_ranges(entries, set, lo, hi);
}

/// The union of ranges that are sorted by start depends only on the
/// integers that they cover: it is the canonical sequence of those.
pub proof fn law_union_canonical(s: Seq<(int, int)>, lo: int, hi: int)
    requires
        sorted_starts(s),
        all_within(s, lo, hi),
    ensures
        union_ranges(s) == canonical(points(s), lo, hi),
{
    crate::union_iter::lemma_union_ranges_canonical(s, lo, hi);
}

/// Two ranges of which the second starts just above the end of the first
/// come out of a union as one range.
pub proof fn law_adjacent_ranges_coalesce(a: int, b: int, c: int)
    requires
        a <= b < c,
    ensures
        union_ranges(seq![(a, b), (b + 1, c)]) == seq![(a, c)],
{
    let s = seq![(a, b), (b + 1, c)];
    let t = s.skip(1);
    assert(t.len() == 1);
    assert(t[0] == (b + 1, c));
    assert(t.skip(1).len() == 0);
    reveal_with_fuel(crate::union_iter::coalesce, 3);
    assert(crate::union_iter::coalesce((a, c), t.skip(1)) == seq![(a, c)]);
}

/// The complement of the whole range from `lo` to `hi` is empty, and the
/// complement of nothing is the whole range.
pub proof fn law_complement_at_the_bounds(lo: int, hi: int)
    requires
        lo <= hi,
    ensures
        complement_ranges(seq![(lo, hi)], lo, hi) == Seq::<(int, int)>::empty(),
        complement_ranges(Seq::empty(), lo, hi) == seq![(lo, hi)],
{
    crate::not_iter::lemma_complement_of_empty_and_full(lo, hi);
}

/// In a union of range maps, an integer gets a value exactly if some entry
/// holds it, and then it is the value of an entry that holds it and whose
/// priority number no entry that holds it undercuts.
pub proof fn law_best_priority_wins<VV>(s: Seq<Ranked<VV>>, lo: int, hi: int, x: int, v: VV)
    requires
        lo <= x <= hi,
    ensures
        sorted_disjoint_map(union_map_ranges(s, lo, hi)),
        holds(union_map_ranges(s, lo, hi), x, v) ==> exists|pr: nat| wins(s, x, pr, v),
        (exists|pr: nat, w: VV| contends(s, x, pr, w)) ==> exists|w: VV|
            holds(union_map_ranges(s, lo, hi), x, w),
{
    lemma_union_map_ranges(s, lo, hi);
    lemma_best_wins(s, x);
    if holds(union_map_ranges(s, lo, hi), x, v) {
        let r = best_at(s, x).unwrap();
        assert(wins(s, x, r.priority, r.value));
    }
    if exists|pr: nat, w: VV| contends(s, x, pr, w) {
        let r = best_at(s, x).unwrap();
        assert(holds(union_map_ranges(s, lo, hi), x, r.value));
    }
}

/// The union of one canonical range map, whatever priority number its
/// entries get, is that map.
pub proof fn law_union_map_idempotent<VV>(
    s: Seq<((int, int), VV)>,
    priority: nat,
    lo: int,
    hi: int,
)
    requires
        sorted_disjoint_map(s),
        all_within_map(s, lo, hi),
    ensures
        union_map_ranges(with_priority(s, priority), lo, hi) == s,
{
    let r = with_priority(s, priority);
    let f = sweep_map(None, r);
    assert forall|x: int, v: VV| holds(s, x, v) == (lo <= x <= hi && f.contains_pair(x, v)) by {
        lemma_best_wins(r, x);
        if holds(s, x, v) {
            let i = choose|i: int|
                0 <= i < s.len() && in_range((#[trigger] s[i]).0, x) && s[i].1 == v;
            assert(lo <= s[i].0.0 && s[i].0.1 <= hi);
            assert(in_range(r[i].range, x));
            assert(contends(r, x, priority, v));
            let b = best_at(r, x).unwrap();
            assert(contends(r, x, b.priority, b.value));
            let j = choose|j: int|
                0 <= j < r.len() && in_range((#[trigger] r[j]).range, x) && r[j].priority
                    == b.priority && r[j].value == b.value;
            lemma_one_entry_holds(s, i, j, x);
        }
        if lo <= x <= hi && f.contains_pair(x, v) {
            let b = best_at(r, x).unwrap();
            assert(contends(r, x, b.priority, b.value));
            let j = choose|j: int|
                0 <= j < r.len() && in_range((#[trigger] r[j]).range, x) && r[j].priority
                    == b.priority && r[j].value == b.value;
            assert(in_range(s[j].0, x));
        }
    }
    lemma_canonical_map_is(s, f, lo, hi);
}

/// The symmetric difference of ranges holds an integer between the bounds
/// exactly if an odd number of the ranges hold it.
pub proof fn law_symmetric_difference_parity(s: Seq<(int, int)>, lo: int, hi: int, x: int)
    ensures
        sorted_disjoint(sym_diff_ranges(s, lo, hi)),
        covers(sym_diff_ranges(s, lo, hi), x) == (lo <= x <= hi && cover_count(s, x) % 2 == 1),
{
    crate::sym_diff_iter::lemma_sym_diff_ranges(s, lo, hi);
}

/// The set that comes of adding the ranges `s` one by one to the empty set,
/// each time making the result canonical.
pub open spec fn added_one_by_one(s: Seq<(int, int)>, lo: int, hi: int) -> Seq<(int, int)>
    decreases s.len(),
{
    if s.len() == 0 {
        Seq::empty()
    } else {
        canonical(points(added_one_by_one(s.drop_last(), lo, hi).push(s.last())), lo, hi)
    }
}

/// Round trip: a set built from scattered ranges at once has the same
/// canonical form as one built by adding the ranges one by one.
pub proof fn law_round_trip(s: Seq<(int, int)>, lo: int, hi: int)
    ensures
        added_one_by_one(s, lo, hi) == canonical(points(s), lo, hi),
    decreases s.len(),
{
    if s.len() == 0 {
        let e = Seq::<(int, int)>::empty();
        assert forall|x: int| covers(e, x) == (lo <= x <= hi && points(s).contains(x)) by {
            if covers(s, x) {
                let i = choose|i: int| 0 <= i < s.len() && in_range(#[trigger] s[i], x);
            }
        }
        lemma_canonical_is(e, points(s), lo, hi);
    } else {
        let before = s.drop_last();
        let last = s.last();
        let built = added_one_by_one(before, lo, hi);
        law_round_trip(before, lo, hi);
        lemma_canonical(points(before), lo, hi);
        assert forall|x: int| lo <= x <= hi implies points(built.push(last)).contains(x)
            == points(s).contains(x) by {
            lemma_covers_concat(built, seq![last], x);
            lemma_covers_concat(before, seq![last], x);
            assert(built.push(last) =~= built + seq![last]);
            assert(s =~= before + seq![last]);
        }
        lemma_canonical_ext(points(built.push(last)), points(s), lo, hi);
    }
}

/// A range map built from scattered items gives every integer the value of
/// the earliest item that holds it: joining neighbours on the way in
/// changes nothing.
pub proof fn law_earliest_item_wins<VV>(s: Seq<((int, int), VV)>, lo: int, hi: int)
    ensures
        union_map_ranges(rank_unsorted(s, 0), lo, hi) == union_map_ranges(numbered(s, 0), lo, hi),
{
    let a = rank_unsorted(s, 0);
    let b = numbered(s, 0);
    assert forall|x: int|
        (#[trigger] best_at(a, x) is Some) == (best_at(b, x) is Some) && (best_at(a, x) is Some
            ==> best_at(a, x).unwrap().value == best_at(b, x).unwrap().value) by {
        lemma_rank_unsorted_values(s, 0, x);
    }
    assert(sweep_map(None, a) =~= sweep_map(None, b));
}

} // verus!
