//! Merging canonical streams of ranges with values into one stream of
//! ranked entries that is sorted by start.

use crate::integer::Integer;
use crate::map::ValueOwned;
use crate::map_ranges::{lemma_sorted_disjoint_map_skip, opt_seq_map, sorted_disjoint_map};
use crate::range_values::lemma_with_priority;
use crate::ranges::in_range;
use crate::sorted_disjoint_map::{
    all_valid_ranked, all_within_ranked, contends, opt_entry, ranked_of, sorted_starts_ranked,
    values_decided, with_priority, AnythingGoesMap, Priority, PrioritySortedStartsMap, Ranked,
    SortedDisjointMap, SortedStartsMap,
};
use crate::sorting::{kmerge_priorities_by_start, priority_lists_flat, priority_lists_sorted};
use crate::unsorted_disjoint_map::AssumePrioritySortedStartsMap;
use vstd::prelude::*;
use vstd::seq_lib::lemma_multiset_commutative;

verus! {

/// The ranked entries of `a` and `b` merged by start: at each step the
/// first entry of `a` comes next if it starts below the first entry of `b`,
/// else the first entry of `b` does.
pub open spec fn merge_ranked<VV>(a: Seq<Ranked<VV>>, b: Seq<Ranked<VV>>) -> Seq<Ranked<VV>>
    decreases a.len() + b.len(),
{
    if a.len() == 0 {
        b
    } else if b.len() == 0 {
        a
    } else if a[0].range.0 < b[0].range.0 {
        seq![a[0]] + merge_ranked(a.skip(1), b)
    } else {
        seq![b[0]] + merge_ranked(a, b.skip(1))
    }
}

/// What contends in a sequence is its first entry and what contends in the
/// rest.
pub proof fn lemma_contends_skip<VV>(s: Seq<Ranked<VV>>, x: int, pr: nat, v: VV)
    requires
        s.len() > 0,
    ensures
        contends(s, x, pr, v) == ((in_range(s[0].range, x) && s[0].priority == pr && s[0].value
            == v) || contends(s.skip(1), x, pr, v)),
{
    let t = s.skip(1);
    if contends(s, x, pr, v) {
        let i = choose|i: int|
            0 <= i < s.len() && in_range((#[trigger] s[i]).range, x) && s[i].priority == pr
                && s[i].value == v;
        if i > 0 {
            assert(t[i - 1] == s[i]);
        }
    }
    if contends(t, x, pr, v) {
        let i = choose|i: int|
            0 <= i < t.len() && in_range((#[trigger] t[i]).range, x) && t[i].priority == pr
                && t[i].value == v;
        assert(t[i] == s[i + 1]);
    }
}

/// Merging keeps every entry: what contends in the merged sequence is what
/// contends in either of the two.
pub proof fn lemma_merge_ranked_contends<VV>(
    a: Seq<Ranked<VV>>,
    b: Seq<Ranked<VV>>,
    x: int,
    pr: nat,
    v: VV,
)
    ensures
        contends(merge_ranked(a, b), x, pr, v) == (contends(a, x, pr, v) || contends(b, x, pr, v)),
    decreases a.len() + b.len(),
{
    let m = merge_ranked(a, b);
    if a.len() == 0 {
        if contends(a, x, pr, v) {
            let i = choose|i: int|
                0 <= i < a.len() && in_range((#[trigger] a[i]).range, x) && a[i].priority == pr
                    && a[i].value == v;
        }
    } else if b.len() == 0 {
        if contends(b, x, pr, v) {
            let i = choose|i: int|
                0 <= i < b.len() && in_range((#[trigger] b[i]).range, x) && b[i].priority == pr
                    && b[i].value == v;
        }
    } else if a[0].range.0 < b[0].range.0 {
        lemma_merge_ranked_contends(a.skip(1), b, x, pr, v);
        lemma_contends_skip(m, x, pr, v);
        lemma_contends_skip(a, x, pr, v);
        assert(m.skip(1) =~= merge_ranked(a.skip(1), b));
    } else {
        lemma_merge_ranked_contends(a, b.skip(1), x, pr, v);
        lemma_contends_skip(m, x, pr, v);
        lemma_contends_skip(b, x, pr, v);
        assert(m.skip(1) =~= merge_ranked(a, b.skip(1)));
    }
}

/// Merging two sequences that are sorted by start gives a sequence that is
/// sorted by start, whose ranges are non-empty and within bounds where
/// theirs are.
pub proof fn lemma_merge_ranked_sorted<VV>(a: Seq<Ranked<VV>>, b: Seq<Ranked<VV>>, lo: int, hi: int)
    requires
        sorted_starts_ranked(a),
        sorted_starts_ranked(b),
        all_valid_ranked(a),
        all_valid_ranked(b),
        all_within_ranked(a, lo, hi),
        all_within_ranked(b, lo, hi),
    ensures
        sorted_starts_ranked(merge_ranked(a, b)),
        all_valid_ranked(merge_ranked(a, b)),
        all_within_ranked(merge_ranked(a, b), lo, hi),
        merge_ranked(a, b).len() == a.len() + b.len(),
        forall|i: int|
            0 <= i < merge_ranked(a, b).len() ==> (a.len() > 0 && a[0].range.0 <= (
            #[trigger] merge_ranked(a, b)[i]).range.0) || (b.len() > 0 && b[0].range.0
                <= merge_ranked(a, b)[i].range.0),
    decreases a.len() + b.len(),
{
    let out = merge_ranked(a, b);
    if a.len() == 0 {
        assert forall|i: int| 0 <= i < out.len() implies b[0].range.0 <= (
        #[trigger] out[i]).range.0 by {
            if i > 0 {
                assert(b[0].range.0 <= b[i].range.0);
            }
        }
    } else if b.len() == 0 {
        assert forall|i: int| 0 <= i < out.len() implies a[0].range.0 <= (
        #[trigger] out[i]).range.0 by {
            if i > 0 {
                assert(a[0].range.0 <= a[i].range.0);
            }
        }
    } else {
        let left = a[0].range.0 < b[0].range.0;
        let (first, ta, tb) = if left {
            (a[0], a.skip(1), b)
        } else {
            (b[0], a, b.skip(1))
        };
        let m = merge_ranked(ta, tb);
        assert(out == seq![first] + m);
        assert forall|i: int| 0 <= i < ta.len() implies (#[trigger] ta[i]).range.0
            <= ta[i].range.1 && lo <= ta[i].range.0 <= hi && lo <= ta[i].range.1 <= hi by {
            if left {
                assert(ta[i] == a[i + 1]);
            }
        }
        assert forall|i: int| 0 <= i < tb.len() implies (#[trigger] tb[i]).range.0
            <= tb[i].range.1 && lo <= tb[i].range.0 <= hi && lo <= tb[i].range.1 <= hi by {
            if !left {
                assert(tb[i] == b[i + 1]);
            }
        }
        assert forall|i: int, j: int| 0 <= i < j < ta.len() implies (
        #[trigger] ta[i]).range.0 <= (#[trigger] ta[j]).range.0 by {
            if left {
                assert(ta[i] == a[i + 1]);
                assert(ta[j] == a[j + 1]);
            }
        }
        assert forall|i: int, j: int| 0 <= i < j < tb.len() implies (
        #[trigger] tb[i]).range.0 <= (#[trigger] tb[j]).range.0 by {
            if !left {
                assert(tb[i] == b[i + 1]);
                assert(tb[j] == b[j + 1]);
            }
        }
        lemma_merge_ranked_sorted(ta, tb, lo, hi);
        if a.len() > 1 {
            assert(a.skip(1)[0] == a[1]);
            assert(a[0].range.0 <= a[1].range.0);
        }
        if b.len() > 1 {
            assert(b.skip(1)[0] == b[1]);
            assert(b[0].range.0 <= b[1].range.0);
        }
        assert forall|i: int| 0 <= i < m.len() implies first.range.0 <= (
        #[trigger] m[i]).range.0 by {}
        assert forall|i: int, j: int| 0 <= i < j < out.len() implies (
        #[trigger] out[i]).range.0 <= (#[trigger] out[j]).range.0 by {
            assert(out[j] == m[j - 1]);
            if i > 0 {
                assert(out[i] == m[i - 1]);
            }
        }
        assert forall|i: int| 0 <= i < out.len() implies (#[trigger] out[i]).range.0
            <= out[i].range.1 && lo <= out[i].range.0 <= hi && lo <= out[i].range.1 <= hi && ((
        a.len() > 0 && a[0].range.0 <= out[i].range.0) || (b.len() > 0 && b[0].range.0
            <= out[i].range.0)) by {
            if i > 0 {
                assert(out[i] == m[i - 1]);
            }
        }
    }
}

/// Merges two canonical streams of ranges with values into one stream of
/// ranked entries that is sorted by start. The entries of the left stream
/// get the priority number 0, those of the right stream 1, so that the left
/// stream wins where the two overlap. Where two entries start together, the
/// one of the right stream comes first.
pub struct MergeMap<
    T: Integer,
    V: ValueOwned,
    L: SortedDisjointMap<T, V>,
    R: SortedDisjointMap<T, V>,
> {
    left: L,
    right: R,
    left_head: Option<((T, T), V)>,
    right_head: Option<((T, T), V)>,
}

impl<
    T: Integer,
    V: ValueOwned,
    L: SortedDisjointMap<T, V>,
    R: SortedDisjointMap<T, V>,
> MergeMap<T, V, L, R> {
    /// The entries of the left stream that are still to come.
    pub closed spec fn left_remaining(&self) -> Seq<((int, int), V::V)> {
        opt_seq_map(opt_entry(self.left_head)) + self.left.remaining()
    }

    /// The entries of the right stream that are still to come.
    pub closed spec fn right_remaining(&self) -> Seq<((int, int), V::V)> {
        opt_seq_map(opt_entry(self.right_head)) + self.right.remaining()
    }

    /// The streams `left` and `right` merged by start, ranked 0 and 1.
    pub fn new(left: L, right: R) -> (r: Self)
        requires
            left.inv(),
            right.inv(),
        ensures
            r.inv(),
            r.remaining() == merge_ranked(
                with_priority(left.remaining(), 0),
                with_priority(right.remaining(), 1),
            ),
    {
        let ghost a = left.remaining();
        let ghost b = right.remaining();
        let mut left = left;
        let mut right = right;
        proof {
            left.lemma_sorted_disjoint();
            right.lemma_sorted_disjoint();
            left.lemma_within();
            right.lemma_within();
        }
        let left_head = left.next();
        let right_head = right.next();
        let r = MergeMap { left, right, left_head, right_head };
        proof {
            assert(r.left_remaining() =~= a);
            assert(r.right_remaining() =~= b);
        }
        r
    }
}

impl<
    T: Integer,
    V: ValueOwned,
    L: SortedDisjointMap<T, V>,
    R: SortedDisjointMap<T, V>,
> PrioritySortedStartsMap<T, V> for MergeMap<T, V, L, R> {
    closed spec fn inv(&self) -> bool {
        &&& self.left.inv()
        &&& self.right.inv()
        &&& self.left_head is None ==> self.left.remaining().len() == 0
        &&& self.right_head is None ==> self.right.remaining().len() == 0
        &&& sorted_disjoint_map(self.left_remaining())
        &&& sorted_disjoint_map(self.right_remaining())
        &&& crate::map_ranges::all_within_map(self.left_remaining(), T::min_int(), T::max_int())
        &&& crate::map_ranges::all_within_map(self.right_remaining(), T::min_int(), T::max_int())
    }

    closed spec fn remaining(&self) -> Seq<Ranked<V::V>> {
        merge_ranked(
            with_priority(self.left_remaining(), 0),
            with_priority(self.right_remaining(), 1),
        )
    }

    proof fn lemma_promise(&self) {
        let a = with_priority(self.left_remaining(), 0);
        let b = with_priority(self.right_remaining(), 1);
        let m = merge_ranked(a, b);
        lemma_with_priority(self.left_remaining(), 0);
        lemma_with_priority(self.right_remaining(), 1);
        assert(all_within_ranked(a, T::min_int(), T::max_int())) by {
            assert forall|i: int| 0 <= i < a.len() implies T::min_int() <= (
            #[trigger] a[i]).range.0 <= T::max_int() && T::min_int() <= a[i].range.1
                <= T::max_int() by {
                assert(a[i].range == self.left_remaining()[i].0);
            }
        }
        assert(all_within_ranked(b, T::min_int(), T::max_int())) by {
            assert forall|i: int| 0 <= i < b.len() implies T::min_int() <= (
            #[trigger] b[i]).range.0 <= T::max_int() && T::min_int() <= b[i].range.1
                <= T::max_int() by {
                assert(b[i].range == self.right_remaining()[i].0);
            }
        }
        lemma_merge_ranked_sorted(a, b, T::min_int(), T::max_int());
        assert forall|x: int, pr: nat, v1: V::V, v2: V::V|
            #[trigger] contends(m, x, pr, v1) && #[trigger] contends(m, x, pr, v2) implies v1
            == v2 by {
            lemma_merge_ranked_contends(a, b, x, pr, v1);
            lemma_merge_ranked_contends(a, b, x, pr, v2);
            if contends(a, x, pr, v1) {
                let i = choose|i: int|
                    0 <= i < a.len() && in_range((#[trigger] a[i]).range, x) && a[i].priority
                        == pr && a[i].value == v1;
                assert(pr == 0);
            }
            if contends(a, x, pr, v2) {
                let i = choose|i: int|
                    0 <= i < a.len() && in_range((#[trigger] a[i]).range, x) && a[i].priority
                        == pr && a[i].value == v2;
                assert(pr == 0);
            }
            if contends(b, x, pr, v1) {
                let i = choose|i: int|
                    0 <= i < b.len() && in_range((#[trigger] b[i]).range, x) && b[i].priority
                        == pr && b[i].value == v1;
                assert(pr == 1);
            }
            if contends(b, x, pr, v2) {
                let i = choose|i: int|
                    0 <= i < b.len() && in_range((#[trigger] b[i]).range, x) && b[i].priority
                        == pr && b[i].value == v2;
                assert(pr == 1);
            }
        }
    }

    fn next(&mut self) -> (r: Option<Priority<T, V>>) {
        let ghost la = self.left_remaining();
        let ghost rb = self.right_remaining();
        let ghost a = with_priority(la, 0);
        let ghost b = with_priority(rb, 1);
        let take_left = match (&self.left_head, &self.right_head) {
            (None, None) => {
                proof {
                    assert(a =~= Seq::empty());
                    assert(b =~= Seq::empty());
                }
                return None;
            },
            (Some(_), None) => true,
            (None, Some(_)) => false,
            (Some(l), Some(r)) => l.0.0.is_lt(r.0.0),
        };
        if take_left {
            let head = self.left_head.take();
            self.left_head = self.left.next();
            proof {
                assert(la[0] == opt_entry(head).unwrap());
                assert(self.left_remaining() =~= la.skip(1));
                lemma_sorted_disjoint_map_skip(la);
                assert(with_priority(la.skip(1), 0) =~= a.skip(1));
                assert forall|i: int| 0 <= i < la.skip(1).len() implies T::min_int() <= (
                #[trigger] la.skip(1)[i]).0.0 <= T::max_int() && T::min_int() <= la.skip(
                    1,
                )[i].0.1 <= T::max_int() by {
                    assert(la.skip(1)[i] == la[i + 1]);
                }
                if b.len() == 0 {
                    assert(merge_ranked(a.skip(1), b) =~= a.skip(1));
                } else {
                    assert(merge_ranked(a, b) == seq![a[0]] + merge_ranked(a.skip(1), b));
                    assert(merge_ranked(a, b).skip(1) =~= merge_ranked(a.skip(1), b));
                }
            }
            match head {
                Some(item) => Some(Priority::new(item, 0)),
                None => None,
            }
        } else {
            let head = self.right_head.take();
            self.right_head = self.right.next();
            proof {
                assert(rb[0] == opt_entry(head).unwrap());
                assert(self.right_remaining() =~= rb.skip(1));
                lemma_sorted_disjoint_map_skip(rb);
                assert(with_priority(rb.skip(1), 1) =~= b.skip(1));
                assert forall|i: int| 0 <= i < rb.skip(1).len() implies T::min_int() <= (
                #[trigger] rb.skip(1)[i]).0.0 <= T::max_int() && T::min_int() <= rb.skip(
                    1,
                )[i].0.1 <= T::max_int() by {
                    assert(rb.skip(1)[i] == rb[i + 1]);
                }
                if a.len() == 0 {
                    assert(merge_ranked(a, b.skip(1)) =~= b.skip(1));
                } else {
                    assert(merge_ranked(a, b) == seq![b[0]] + merge_ranked(a, b.skip(1)));
                    assert(merge_ranked(a, b).skip(1) =~= merge_ranked(a, b.skip(1)));
                }
            }
            match head {
                Some(item) => Some(Priority::new(item, 1)),
                None => None,
            }
        }
    }
}

/// The ranked entries that all the streams of `streams` have yet to hand
/// out, stream after stream, each entry ranked by the place of its stream.
pub open spec fn ranked_streams_flat<T: Integer, V: ValueOwned, I: SortedDisjointMap<T, V>>(
    streams: Seq<I>,
) -> Seq<Ranked<V::V>>
    decreases streams.len(),
{
    if streams.len() == 0 {
        Seq::empty()
    } else {
        ranked_streams_flat::<T, V, I>(streams.drop_last()) + with_priority(
            streams.last().remaining(),
            (streams.len() - 1) as nat,
        )
    }
}

/// The ranked entries of canonical streams, each ranked by the place of its
/// stream, have non-empty ranges within the element type and ranks that
/// decide every value; and no priority number reaches the number of
/// streams.
pub proof fn lemma_ranked_streams<T: Integer, V: ValueOwned, I: SortedDisjointMap<T, V>>(
    streams: Seq<I>,
)
    requires
        forall|i: int| 0 <= i < streams.len() ==> (#[trigger] streams[i]).inv(),
    ensures
        all_valid_ranked(ranked_streams_flat::<T, V, I>(streams)),
        all_within_ranked(ranked_streams_flat::<T, V, I>(streams), T::min_int(), T::max_int()),
        values_decided(ranked_streams_flat::<T, V, I>(streams)),
        forall|i: int|
            0 <= i < ranked_streams_flat::<T, V, I>(streams).len() ==> (
            #[trigger] ranked_streams_flat::<T, V, I>(streams)[i]).priority < streams.len(),
    decreases streams.len(),
{
    let flat = ranked_streams_flat::<T, V, I>(streams);
    if streams.len() > 0 {
        let n = (streams.len() - 1) as nat;
        let before = streams.drop_last();
        let last = streams.last();
        let fb = ranked_streams_flat::<T, V, I>(before);
        let wp = with_priority(last.remaining(), n);
        assert forall|i: int| 0 <= i < before.len() implies (#[trigger] before[i]).inv() by {
            assert(before[i] == streams[i]);
        }
        lemma_ranked_streams::<T, V, I>(before);
        assert(last == streams[n as int]);
        last.lemma_sorted_disjoint();
        last.lemma_within();
        lemma_with_priority(last.remaining(), n);
        assert forall|i: int| 0 <= i < flat.len() implies (#[trigger] flat[i]).range.0
            <= flat[i].range.1 && flat[i].priority < streams.len() && T::min_int()
            <= flat[i].range.0 <= T::max_int() && T::min_int() <= flat[i].range.1
            <= T::max_int() by {
            if i < fb.len() {
                assert(flat[i] == fb[i]);
            } else {
                assert(flat[i] == wp[i - fb.len()]);
                assert(wp[i - fb.len()].range == last.remaining()[i - fb.len()].0);
            }
        }
        assert forall|x: int, pr: nat, v1: V::V, v2: V::V|
            #[trigger] contends(flat, x, pr, v1) && #[trigger] contends(
                flat,
                x,
                pr,
                v2,
            ) implies v1 == v2 by {
            crate::union_iter_map::lemma_contends_concat(fb, wp, x, pr, v1);
            crate::union_iter_map::lemma_contends_concat(fb, wp, x, pr, v2);
            if contends(fb, x, pr, v1) {
                let i = choose|i: int|
                    0 <= i < fb.len() && in_range((#[trigger] fb[i]).range, x) && fb[i].priority
                        == pr && fb[i].value == v1;
                assert(pr < n);
            }
            if contends(fb, x, pr, v2) {
                let i = choose|i: int|
                    0 <= i < fb.len() && in_range((#[trigger] fb[i]).range, x) && fb[i].priority
                        == pr && fb[i].value == v2;
                assert(pr < n);
            }
            if contends(wp, x, pr, v1) {
                let i = choose|i: int|
                    0 <= i < wp.len() && in_range((#[trigger] wp[i]).range, x) && wp[i].priority
                        == pr && wp[i].value == v1;
                assert(pr == n);
            }
            if contends(wp, x, pr, v2) {
                let i = choose|i: int|
                    0 <= i < wp.len() && in_range((#[trigger] wp[i]).range, x) && wp[i].priority
                        == pr && wp[i].value == v2;
                assert(pr == n);
            }
        }
    }
}

/// Two sequences that hold the same ranked entries, each as often as the
/// other, have the same contenders for every integer, and the ranges of the
/// one are non-empty where those of the other are.
pub proof fn lemma_ranked_permutation<VV>(a: Seq<Ranked<VV>>, b: Seq<Ranked<VV>>)
    requires
        a.to_multiset() == b.to_multiset(),
    ensures
        forall|x: int, pr: nat, v: VV| contends(a, x, pr, v) == contends(b, x, pr, v),
        all_valid_ranked(a) == all_valid_ranked(b),
        values_decided(a) == values_decided(b),
        forall|lo: int, hi: int| all_within_ranked(a, lo, hi) == all_within_ranked(b, lo, hi),
{
    a.to_multiset_ensures();
    b.to_multiset_ensures();
    assert forall|i: int| 0 <= i < a.len() implies b.contains(#[trigger] a[i]) by {
        assert(a.contains(a[i]));
        assert(a.to_multiset().count(a[i]) > 0);
    }
    assert forall|i: int| 0 <= i < b.len() implies a.contains(#[trigger] b[i]) by {
        assert(b.contains(b[i]));
        assert(b.to_multiset().count(b[i]) > 0);
    }
    assert forall|x: int, pr: nat, v: VV| contends(a, x, pr, v) == contends(b, x, pr, v) by {
        if contends(a, x, pr, v) {
            let i = choose|i: int|
                0 <= i < a.len() && in_range((#[trigger] a[i]).range, x) && a[i].priority == pr
                    && a[i].value == v;
            assert(b.contains(a[i]));
            let j = choose|j: int| 0 <= j < b.len() && b[j] == a[i];
            assert(in_range(b[j].range, x));
        }
        if contends(b, x, pr, v) {
            let i = choose|i: int|
                0 <= i < b.len() && in_range((#[trigger] b[i]).range, x) && b[i].priority == pr
                    && b[i].value == v;
            assert(a.contains(b[i]));
            let j = choose|j: int| 0 <= j < a.len() && a[j] == b[i];
            assert(in_range(a[j].range, x));
        }
    }
    if all_valid_ranked(a) {
        assert forall|i: int| 0 <= i < b.len() implies (#[trigger] b[i]).range.0
            <= b[i].range.1 by {
            assert(a.contains(b[i]));
            let j = choose|j: int| 0 <= j < a.len() && a[j] == b[i];
            assert(a[j].range.0 <= a[j].range.1);
        }
    }
    if all_valid_ranked(b) {
        assert forall|i: int| 0 <= i < a.len() implies (#[trigger] a[i]).range.0
            <= a[i].range.1 by {
            assert(b.contains(a[i]));
            let j = choose|j: int| 0 <= j < b.len() && b[j] == a[i];
            assert(b[j].range.0 <= b[j].range.1);
        }
    }
    assert forall|lo: int, hi: int| all_within_ranked(a, lo, hi) == all_within_ranked(
        b,
        lo,
        hi,
    ) by {
        if all_within_ranked(a, lo, hi) {
            assert forall|i: int| 0 <= i < b.len() implies lo <= (#[trigger] b[i]).range.0 <= hi
                && lo <= b[i].range.1 <= hi by {
                assert(a.contains(b[i]));
                let j = choose|j: int| 0 <= j < a.len() && a[j] == b[i];
                assert(lo <= a[j].range.0 <= hi);
            }
        }
        if all_within_ranked(b, lo, hi) {
            assert forall|i: int| 0 <= i < a.len() implies lo <= (#[trigger] a[i]).range.0 <= hi
                && lo <= a[i].range.1 <= hi by {
                assert(b.contains(a[i]));
                let j = choose|j: int| 0 <= j < b.len() && b[j] == a[i];
                assert(lo <= b[j].range.0 <= hi);
            }
        }
    }
    if values_decided(a) {
        assert forall|x: int, pr: nat, v1: VV, v2: VV|
            #[trigger] contends(b, x, pr, v1) && #[trigger] contends(b, x, pr, v2) implies v1
            == v2 by {
            assert(contends(a, x, pr, v1));
            assert(contends(a, x, pr, v2));
        }
    }
    if values_decided(b) {
        assert forall|x: int, pr: nat, v1: VV, v2: VV|
            #[trigger] contends(a, x, pr, v1) && #[trigger] contends(a, x, pr, v2) implies v1
            == v2 by {
            assert(contends(b, x, pr, v1));
            assert(contends(b, x, pr, v2));
        }
    }
}

/// Drains a canonical stream of ranges with values into a vector of ranked
/// entries that all get the priority number `priority`.
pub fn collect_with_priority<T: Integer, V: ValueOwned, I: SortedDisjointMap<T, V>>(
    iter: I,
    priority: usize,
) -> (out: Vec<Priority<T, V>>)
    requires
        iter.inv(),
    ensures
        ranked_of(out@) == with_priority(iter.remaining(), priority as nat),
{
    let ghost all = with_priority(iter.remaining(), priority as nat);
    let mut stream = iter;
    let mut out: Vec<Priority<T, V>> = Vec::new();
    proof {
        assert(ranked_of(out@) + with_priority(stream.remaining(), priority as nat) =~= all);
    }
    loop
        invariant
            stream.inv(),
            ranked_of(out@) + with_priority(stream.remaining(), priority as nat) == all,
        ensures
            ranked_of(out@) == all,
        decreases stream.remaining().len(),
    {
        let ghost rest = stream.remaining();
        match stream.next() {
            Some(range_value) => {
                let ghost before = ranked_of(out@);
                let item = Priority::new(range_value, priority);
                out.push(item);
                proof {
                    assert(ranked_of(out@) =~= before.push(item@));
                    assert(with_priority(rest, priority as nat) =~= seq![item@] + with_priority(
                        stream.remaining(),
                        priority as nat,
                    ));
                    assert(ranked_of(out@) + with_priority(stream.remaining(), priority as nat)
                        =~= all);
                }
            },
            None => {
                proof {
                    assert(with_priority(stream.remaining(), priority as nat) =~= Seq::empty());
                    assert(ranked_of(out@) =~= all);
                }
                break ;
            },
        }
    }
    out
}

/// Merges any number of canonical streams of ranges with values into one
/// stream of ranked entries that is sorted by start. The entries of each
/// stream get the place of the stream as their priority number, so that an
/// earlier stream wins over a later one.
pub struct KMergeMap<T: Integer, V: ValueOwned> {
    iter: AssumePrioritySortedStartsMap<T, V>,
}

impl<T: Integer, V: ValueOwned> KMergeMap<T, V> {
    /// The streams of `iter` merged by start: a stream that is sorted by
    /// start and hands out the entries of all of them, each ranked by the
    /// place of its stream.
    pub fn new<I: SortedDisjointMap<T, V>>(iter: Vec<I>) -> (r: Self)
        requires
            forall|i: int| 0 <= i < iter.len() ==> (#[trigger] iter[i]).inv(),
        ensures
            r.inv(),
            r.remaining().to_multiset() == ranked_streams_flat::<T, V, I>(iter@).to_multiset(),
    {
        let mut iters = iter;
        let ghost all = ranked_streams_flat::<T, V, I>(iters@);
        let mut lists: Vec<Vec<Priority<T, V>>> = Vec::new();
        proof {
            lemma_ranked_streams::<T, V, I>(iters@);
            assert(priority_lists_flat(lists@) =~= Seq::empty());
            lemma_multiset_commutative(priority_lists_flat(lists@), all);
            assert(priority_lists_flat(lists@) + all =~= all);
        }
        loop
            invariant
                forall|i: int| 0 <= i < iters.len() ==> (#[trigger] iters[i]).inv(),
                priority_lists_sorted(lists@),
                priority_lists_flat(lists@).to_multiset().add(
                    ranked_streams_flat::<T, V, I>(iters@).to_multiset(),
                ) == all.to_multiset(),
            ensures
                priority_lists_sorted(lists@),
                priority_lists_flat(lists@).to_multiset() == all.to_multiset(),
            decreases iters.len(),
        {
            let ghost before = iters@;
            let ghost done = lists@;
            match iters.pop() {
                Some(it) => {
                    let priority_number = iters.len();
                    proof {
                        assert(it == before[before.len() - 1]);
                        assert(iters@ =~= before.drop_last());
                        assert forall|i: int| 0 <= i < iters.len() implies (
                        #[trigger] iters[i]).inv() by {
                            assert(iters[i] == before[i]);
                        }
                        it.lemma_sorted_disjoint();
                        lemma_with_priority(it.remaining(), priority_number as nat);
                    }
                    let list = collect_with_priority(it, priority_number);
                    lists.push(list);
                    proof {
                        assert(lists@.drop_last() =~= done);
                        let a = priority_lists_flat(done);
                        let b = ranked_streams_flat::<T, V, I>(iters@);
                        let c = with_priority(it.remaining(), priority_number as nat);
                        lemma_multiset_commutative(a, c);
                        lemma_multiset_commutative(b, c);
                        assert(a.to_multiset().add(c.to_multiset()).add(b.to_multiset())
                            =~= a.to_multiset().add(b.to_multiset().add(c.to_multiset())));
                        assert forall|i: int| 0 <= i < lists.len() implies sorted_starts_ranked(
                            ranked_of(#[trigger] lists[i]@),
                        ) by {
                            if i < done.len() {
                                assert(lists[i] == done[i]);
                            }
                        }
                    }
                },
                None => {
                    proof {
                        let e = ranked_streams_flat::<T, V, I>(iters@);
                        assert(e =~= Seq::empty());
                        lemma_multiset_commutative(priority_lists_flat(lists@), e);
                        assert(priority_lists_flat(lists@) + e =~= priority_lists_flat(lists@));
                    }
                    break ;
                },
            }
        }
        let merged = kmerge_priorities_by_start(lists);
        proof {
            lemma_ranked_permutation(ranked_of(merged@), all);
        }
        KMergeMap { iter: AssumePrioritySortedStartsMap::new(merged) }
    }
}

impl<T: Integer, V: ValueOwned> PrioritySortedStartsMap<T, V> for KMergeMap<T, V> {
    closed spec fn inv(&self) -> bool {
        self.iter.inv()
    }

    closed spec fn remaining(&self) -> Seq<Ranked<V::V>> {
        self.iter.remaining()
    }

    proof fn lemma_promise(&self) {
        self.iter.lemma_promise();
    }

    fn next(&mut self) -> (r: Option<Priority<T, V>>) {
        self.iter.next()
    }
}

} // verus!
