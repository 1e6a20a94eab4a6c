//! Streams of ranked entries: promising an order without checking it, and
//! ranking the entries of a stream that comes in any order.

use crate::integer::{max_plus_one, Integer, UIntPlusOne};
use crate::map::ValueOwned;
use crate::map_ranges::{
    all_within_map, lemma_sorted_disjoint_map_skip, ranges_of, sorted_disjoint_map,
};
use crate::not_iter::SizeHint;
use crate::range_values::lemma_ranges_of_canonical;
use crate::ranges::{
    all_within, in_range, lemma_total_len_apart, lemma_total_len_skip, sorted_apart, total_len,
};
use crate::sorted_disjoint::pulled;
use crate::sorted_disjoint_map::{
    all_valid_ranked, all_within_ranked, contends, opt_ranked, ranked_of, sorted_starts_ranked,
    values_decided, AnythingGoesMap, Priority, PrioritySortedStartsMap, Ranked, SortedDisjointMap,
    SortedStartsMap,
};
use crate::union_iter_map::{best_at, best_value};
use crate::unsorted_disjoint::{hull, touching};
use core::marker::PhantomData;
use vstd::prelude::*;

verus! {

/// Gives a buffer of ranked entries the promise of
/// [`PrioritySortedStartsMap`] without any check: whoever makes one vouches
/// that the entries come sorted by start, with non-empty ranges, and with
/// ranks that decide every value.
pub struct AssumePrioritySortedStartsMap<T: Integer, V: ValueOwned> {
    stack: Vec<Priority<T, V>>,
}

/// The sequence `s` from last to first.
pub open spec fn backwards<A>(s: Seq<A>) -> Seq<A> {
    Seq::new(s.len(), |i: int| s[s.len() - 1 - i])
}

impl<T: Integer, V: ValueOwned> AssumePrioritySortedStartsMap<T, V> {
    /// A stream that hands out the ranked entries of `iter` in order.
    pub fn new(iter: Vec<Priority<T, V>>) -> (r: Self)
        requires
            all_valid_ranked(ranked_of(iter@)),
            sorted_starts_ranked(ranked_of(iter@)),
            values_decided(ranked_of(iter@)),
        ensures
            r.inv(),
            r.remaining() == ranked_of(iter@),
    {
        let ghost all = iter@;
        let mut items = iter;
        let mut stack: Vec<Priority<T, V>> = Vec::new();
        loop
            invariant
                items@.len() + stack@.len() == all.len(),
                items@ == all.take(items@.len() as int),
                forall|i: int|
                    0 <= i < stack@.len() ==> (#[trigger] stack@[i]) == all[all.len() - 1 - i],
            ensures
                stack@.len() == all.len(),
                forall|i: int|
                    0 <= i < stack@.len() ==> (#[trigger] stack@[i]) == all[all.len() - 1 - i],
            decreases items@.len(),
        {
            match items.pop() {
                Some(item) => {
                    stack.push(item);
                    proof {
                        assert(items@ =~= all.take(items@.len() as int));
                    }
                },
                None => {
                    break ;
                },
            }
        }
        let r = AssumePrioritySortedStartsMap { stack };
        proof {
            assert(r.remaining() =~= ranked_of(all));
        }
        r
    }
}

impl<T: Integer, V: ValueOwned> PrioritySortedStartsMap<
    T,
    V,
> for AssumePrioritySortedStartsMap<T, V> {
    closed spec fn inv(&self) -> bool {
        let s = backwards(ranked_of(self.stack@));
        all_valid_ranked(s) && sorted_starts_ranked(s) && values_decided(s)
    }

    closed spec fn remaining(&self) -> Seq<Ranked<V::V>> {
        backwards(ranked_of(self.stack@))
    }

    proof fn lemma_promise(&self) {
        let s = self.remaining();
        assert forall|i: int| 0 <= i < s.len() implies T::min_int() <= (#[trigger] s[i]).range.0
            <= T::max_int() && T::min_int() <= s[i].range.1 <= T::max_int() by {
            self.stack@[s.len() - 1 - i].lemma_in_bounds();
        }
    }

    fn next(&mut self) -> (r: Option<Priority<T, V>>) {
        let ghost before = self.remaining();
        let r = self.stack.pop();
        proof {
            let after = self.remaining();
            if r is Some {
                assert(after =~= before.skip(1));
                assert forall|i: int| 0 <= i < after.len() implies (
                #[trigger] after[i]).range.0 <= after[i].range.1 by {
                    assert(after[i] == before[i + 1]);
                }
                assert forall|i: int, j: int| 0 <= i < j < after.len() implies (
                #[trigger] after[i]).range.0 <= (#[trigger] after[j]).range.0 by {
                    assert(after[i] == before[i + 1]);
                    assert(after[j] == before[j + 1]);
                }
                assert forall|x: int, pr: nat, v1: V::V, v2: V::V|
                    #[trigger] contends(after, x, pr, v1)
                        && #[trigger] contends(
                        after,
                        x,
                        pr,
                        v2,
                    ) implies v1 == v2 by {
                    let i = choose|i: int|
                        0 <= i < after.len() && in_range(
                            (#[trigger] after[i]).range,
                            x,
                        ) && after[i].priority == pr && after[i].value == v1;
                    let j = choose|j: int|
                        0 <= j < after.len() && in_range(
                            (#[trigger] after[j]).range,
                            x,
                        ) && after[j].priority == pr && after[j].value == v2;
                    assert(after[i] == before[i + 1]);
                    assert(after[j] == before[j + 1]);
                    assert(contends(before, x, pr, v1));
                    assert(contends(before, x, pr, v2));
                }
            }
        }
        r
    }
}

/// What comes out when the ranked entry `cur` is pending, the entries
/// `rest` are still to be read, and the next of them gets the priority
/// number `number`: an entry with an empty range is dropped, one that
/// overlaps or touches `cur` and carries the same value is joined to it, and
/// any other sends `cur` out and takes its place. Every entry of `rest`
/// uses up one priority number, whatever becomes of it.
pub open spec fn join_ranked<VV>(cur: Ranked<VV>, rest: Seq<((int, int), VV)>, number: nat) -> Seq<
    Ranked<VV>,
>
    decreases rest.len(),
{
    if rest.len() == 0 {
        seq![cur]
    } else {
        let r = rest[0];
        if r.0.0 > r.0.1 {
            join_ranked(cur, rest.skip(1), number + 1)
        } else if !touching(cur.range, r.0) || cur.value != r.1 {
            seq![cur] + join_ranked(
                Ranked { range: r.0, value: r.1, priority: number },
                rest.skip(1),
                number + 1,
            )
        } else {
            join_ranked(Ranked { range: hull(cur.range, r.0), ..cur }, rest.skip(1), number + 1)
        }
    }
}

/// The entries `s` ranked by their places, counted from `number`, with
/// each run of successive entries that overlap or touch and carry one value
/// joined into one entry, and with the entries of empty range dropped. An
/// earlier entry outranks a later one. The result is in no particular
/// order.
pub open spec fn rank_unsorted<VV>(s: Seq<((int, int), VV)>, number: nat) -> Seq<Ranked<VV>>
    decreases s.len(),
{
    if s.len() == 0 {
        Seq::empty()
    } else if s[0].0.0 > s[0].0.1 {
        rank_unsorted(s.skip(1), number + 1)
    } else {
        join_ranked(
            Ranked { range: s[0].0, value: s[0].1, priority: number },
            s.skip(1),
            number + 1,
        )
    }
}

/// What `join_ranked` yields has non-empty ranges within the bounds of what
/// went in, and priority numbers that rise from that of `cur`, so that the
/// ranks decide every value.
pub proof fn lemma_join_ranked<VV>(
    cur: Ranked<VV>,
    rest: Seq<((int, int), VV)>,
    number: nat,
    lo: int,
    hi: int,
)
    requires
        cur.range.0 <= cur.range.1,
        lo <= cur.range.0 && cur.range.1 <= hi,
        cur.priority < number,
        all_within_map(rest, lo, hi),
    ensures
        all_valid_ranked(join_ranked(cur, rest, number)),
        all_within_ranked(join_ranked(cur, rest, number), lo, hi),
        join_ranked(cur, rest, number).len() > 0,
        join_ranked(cur, rest, number)[0].priority == cur.priority,
        forall|i: int, j: int|
            0 <= i < j < join_ranked(cur, rest, number).len() ==> (#[trigger] join_ranked(
                cur,
                rest,
                number,
            )[i]).priority < (#[trigger] join_ranked(cur, rest, number)[j]).priority,
    decreases rest.len(),
{
    let out = join_ranked(cur, rest, number);
    if rest.len() > 0 {
        let r = rest[0];
        let tail = rest.skip(1);
        assert forall|i: int| 0 <= i < tail.len() implies lo <= (#[trigger] tail[i]).0.0 <= hi
            && lo <= tail[i].0.1 <= hi by {
            assert(tail[i] == rest[i + 1]);
        }
        if r.0.0 > r.0.1 {
            lemma_join_ranked(cur, tail, number + 1, lo, hi);
        } else if !touching(cur.range, r.0) || cur.value != r.1 {
            let fresh = Ranked { range: r.0, value: r.1, priority: number };
            let t = join_ranked(fresh, tail, number + 1);
            lemma_join_ranked(fresh, tail, number + 1, lo, hi);
            assert(out == seq![cur] + t);
            assert forall|i: int| 0 <= i < out.len() implies (#[trigger] out[i]).range.0
                <= out[i].range.1 && lo <= out[i].range.0 <= hi && lo <= out[i].range.1
                <= hi by {
                if i > 0 {
                    assert(out[i] == t[i - 1]);
                }
            }
            assert forall|i: int, j: int| 0 <= i < j < out.len() implies (
            #[trigger] out[i]).priority < (#[trigger] out[j]).priority by {
                assert(out[j] == t[j - 1]);
                if i > 0 {
                    assert(out[i] == t[i - 1]);
                } else if j > 1 {
                    assert(t[0].priority < t[j - 1].priority);
                }
            }
        } else {
            lemma_join_ranked(
                Ranked { range: hull(cur.range, r.0), ..cur },
                tail,
                number + 1,
                lo,
                hi,
            );
        }
    }
}

/// What `rank_unsorted` yields has non-empty ranges within the bounds of
/// what went in, and rising priority numbers, so that the ranks decide
/// every value.
pub proof fn lemma_rank_unsorted<VV>(s: Seq<((int, int), VV)>, number: nat, lo: int, hi: int)
    requires
        all_within_map(s, lo, hi),
    ensures
        all_valid_ranked(rank_unsorted(s, number)),
        all_within_ranked(rank_unsorted(s, number), lo, hi),
        forall|i: int, j: int|
            0 <= i < j < rank_unsorted(s, number).len() ==> (#[trigger] rank_unsorted(
                s,
                number,
            )[i]).priority < (#[trigger] rank_unsorted(s, number)[j]).priority,
    decreases s.len(),
{
    if s.len() > 0 {
        let tail = s.skip(1);
        assert forall|i: int| 0 <= i < tail.len() implies lo <= (#[trigger] tail[i]).0.0 <= hi
            && lo <= tail[i].0.1 <= hi by {
            assert(tail[i] == s[i + 1]);
        }
        if s[0].0.0 > s[0].0.1 {
            lemma_rank_unsorted(tail, number + 1, lo, hi);
        } else {
            lemma_join_ranked(
                Ranked { range: s[0].0, value: s[0].1, priority: number },
                tail,
                number + 1,
                lo,
                hi,
            );
        }
    }
}

/// Where the priority numbers of a sequence rise, its ranks decide every
/// value.
pub proof fn lemma_rising_priorities_decide<VV>(s: Seq<Ranked<VV>>)
    requires
        forall|i: int, j: int|
            0 <= i < j < s.len() ==> (#[trigger] s[i]).priority < (#[trigger] s[j]).priority,
    ensures
        values_decided(s),
{
    assert forall|x: int, pr: nat, v1: VV, v2: VV|
        #[trigger] contends(s, x, pr, v1) && #[trigger] contends(s, x, pr, v2) implies v1
        == v2 by {
        let i = choose|i: int|
            0 <= i < s.len() && in_range((#[trigger] s[i]).range, x) && s[i].priority == pr
                && s[i].value == v1;
        let j = choose|j: int|
            0 <= j < s.len() && in_range((#[trigger] s[j]).range, x) && s[j].priority == pr
                && s[j].value == v2;
        if i < j {
            assert(s[i].priority < s[j].priority);
        }
        if j < i {
            assert(s[j].priority < s[i].priority);
        }
    }
}

/// Ranks the entries of a stream by the order in which they come: the
/// first entry gets the priority number 0 and outranks all later ones. Each
/// run of successive entries that overlap or touch and carry one value is
/// joined into one entry, and entries of empty range are dropped. The
/// stream may come in any order, and what comes out is in no particular
/// order either.
pub struct UnsortedPriorityDisjointMap<T: Integer, V: ValueOwned, I: AnythingGoesMap<T, V>> {
    iter: I,
    option_priority: Option<Priority<T, V>>,
    min_value_plus_2: T,
    priority_number: usize,
}

impl<T: Integer, V: ValueOwned, I: AnythingGoesMap<T, V>> UnsortedPriorityDisjointMap<T, V, I> {
    /// The entries of `into_iter`, ranked and with neighbours joined.
    pub fn new(into_iter: I) -> (r: Self)
        requires
            into_iter.inv(),
            into_iter.remaining().len() <= usize::MAX,
        ensures
            r.inv(),
            r.remaining() == rank_unsorted(into_iter.remaining(), 0),
    {
        proof {
            T::lemma_domain_size();
        }
        UnsortedPriorityDisjointMap {
            iter: into_iter,
            option_priority: None,
            min_value_plus_2: T::min_value().add_one().add_one(),
            priority_number: 0,
        }
    }

    /// The invariant that the stream needs to work.
    pub closed spec fn inv(&self) -> bool {
        &&& self.iter.inv()
        &&& self.min_value_plus_2.as_int() == T::min_int() + 2
        &&& self.priority_number + self.iter.remaining().len() <= usize::MAX
        &&& self.option_priority matches Some(cur) ==> cur@.range.0 <= cur@.range.1
            && cur@.priority < self.priority_number
    }

    /// The ranked entries that are still to come, in the order in which
    /// they come.
    pub closed spec fn remaining(&self) -> Seq<Ranked<V::V>> {
        match self.option_priority {
            Some(cur) => join_ranked(cur@, self.iter.remaining(), self.priority_number as nat),
            None => rank_unsorted(self.iter.remaining(), self.priority_number as nat),
        }
    }

    /// What is still to come has non-empty ranges within the element type,
    /// and ranks that decide every value.
    pub proof fn lemma_promise(&self)
        requires
            self.inv(),
        ensures
            all_valid_ranked(self.remaining()),
            all_within_ranked(self.remaining(), T::min_int(), T::max_int()),
            values_decided(self.remaining()),
    {
        self.iter.lemma_within();
        match self.option_priority {
            Some(cur) => {
                cur.lemma_in_bounds();
                lemma_join_ranked(
                    cur@,
                    self.iter.remaining(),
                    self.priority_number as nat,
                    T::min_int(),
                    T::max_int(),
                );
            },
            None => {
                lemma_rank_unsorted(
                    self.iter.remaining(),
                    self.priority_number as nat,
                    T::min_int(),
                    T::max_int(),
                );
            },
        }
        lemma_rising_priorities_decide(self.remaining());
    }

    /// Hands out the next ranked entry, or `None` when none is left.
    pub fn next(&mut self) -> (r: Option<Priority<T, V>>)
        requires
            old(self).inv(),
        ensures
            final(self).inv(),
            pulled(old(self).remaining(), opt_ranked(r), final(self).remaining()),
    {
        loop
            invariant
                self.inv(),
                self.remaining() == old(self).remaining(),
            decreases self.iter.remaining().len(),
        {
            let next_range_value = match self.iter.next() {
                Some(next_range_value) => next_range_value,
                None => {
                    let last = self.option_priority.take();
                    proof {
                        if last is Some {
                            assert(old(self).remaining() == seq![last.unwrap()@]);
                            assert(old(self).remaining().skip(1) =~= self.remaining());
                        }
                    }
                    return last;
                },
            };
            let next_priority = Priority::new(next_range_value, self.priority_number);
            self.priority_number = self.priority_number + 1;
            let (next_start, next_end) = next_priority.start_and_end();
            if next_end.is_lt(next_start) {
                continue ;
            }
            let mut current_priority = match self.option_priority.take() {
                Some(current_priority) => current_priority,
                None => {
                    self.option_priority = Some(next_priority);
                    continue ;
                },
            };
            let (current_start, current_end) = current_priority.start_and_end();
            proof {
                next_start.lemma_in_bounds();
                current_start.lemma_in_bounds();
                next_end.lemma_in_bounds();
                current_end.lemma_in_bounds();
            }
            let apart = (self.min_value_plus_2.is_le(next_start) && current_end.is_le(
                next_start.sub_one().sub_one(),
            )) || (self.min_value_plus_2.is_le(current_start) && next_end.is_le(
                current_start.sub_one().sub_one(),
            ));
            if apart || !current_priority.value().value_eq(next_priority.value()) {
                let ghost sent = current_priority@;
                self.option_priority = Some(next_priority);
                proof {
                    let out = old(self).remaining();
                    assert(out == seq![sent] + self.remaining());
                    assert(out.skip(1) =~= self.remaining());
                }
                return Some(current_priority);
            }
            let lower = if current_start.is_lt(next_start) {
                current_start
            } else {
                next_start
            };
            let upper = if current_end.is_lt(next_end) {
                next_end
            } else {
                current_end
            };
            current_priority.set_range((lower, upper));
            self.option_priority = Some(current_priority);
        }
    }

    /// Whether an entry is pending.
    pub closed spec fn has_pending(&self) -> bool {
        self.option_priority is Some
    }

    /// The bounds on the number of entries that are still to come, from the
    /// bounds `inner` on the number of entries of the stream below: there
    /// may be as few as one, or none if the stream is empty, and as many as
    /// the stream has, and one more if an entry is pending.
    pub fn size_hint(&self, inner: SizeHint) -> (r: SizeHint)
        requires
            self.has_pending() && inner.1 is Some ==> inner.1.unwrap() < usize::MAX,
        ensures
            r.0 == if inner.0 < 1 {
                inner.0
            } else {
                1
            },
            r.1 == match inner.1 {
                Some(high) => Some(
                    if self.has_pending() {
                        (high + 1) as usize
                    } else {
                        high
                    },
                ),
                None => None,
            },
    {
        let (lower, upper) = inner;
        let lower = if lower < 1 {
            lower
        } else {
            1
        };
        if self.option_priority.is_some() {
            let upper = match upper {
                Some(x) => Some(x + 1),
                None => None,
            };
            (lower, upper)
        } else {
            (lower, upper)
        }
    }

    /// Drains the stream into a vector.
    pub fn collect(self) -> (out: Vec<Priority<T, V>>)
        requires
            self.inv(),
        ensures
            ranked_of(out@) == self.remaining(),
    {
        let ghost all = self.remaining();
        let mut stream = self;
        let mut out: Vec<Priority<T, V>> = Vec::new();
        proof {
            assert(ranked_of(out@) + stream.remaining() =~= all);
        }
        loop
            invariant
                stream.inv(),
                ranked_of(out@) + stream.remaining() == all,
            ensures
                ranked_of(out@) == all,
            decreases stream.remaining().len(),
        {
            match stream.next() {
                Some(item) => {
                    let ghost before = ranked_of(out@);
                    let ghost entry = item@;
                    out.push(item);
                    proof {
                        assert(ranked_of(out@) =~= before.push(entry));
                        assert(ranked_of(out@) + stream.remaining() =~= all);
                    }
                },
                None => {
                    proof {
                        assert(ranked_of(out@) =~= all);
                    }
                    break ;
                },
            }
        }
        out
    }
}

/// Passes a canonical stream of ranges with values on and counts the
/// integers that have gone through.
pub struct SortedDisjointMapWithLenSoFar<T: Integer, V: ValueOwned, I: SortedDisjointMap<T, V>> {
    iter: I,
    len: UIntPlusOne,
    phantom_data: PhantomData<(T, V)>,
}

/// The ranges of a canonical sequence of entries within bounds are apart
/// and within those bounds.
pub proof fn lemma_ranges_apart<VV>(s: Seq<((int, int), VV)>, lo: int, hi: int)
    requires
        sorted_disjoint_map(s),
        all_within_map(s, lo, hi),
    ensures
        sorted_apart(ranges_of(s)),
        all_within(ranges_of(s), lo, hi),
{
    lemma_ranges_of_canonical(s);
    let r = ranges_of(s);
    assert forall|i: int| 0 <= i < r.len() implies lo <= (#[trigger] r[i]).0 <= hi && lo
        <= r[i].1 <= hi by {
        assert(r[i] == s[i].0);
    }
}

impl<T: Integer, V: ValueOwned, I: SortedDisjointMap<T, V>> SortedDisjointMapWithLenSoFar<
    T,
    V,
    I,
> {
    /// The stream `into_iter`, with nothing counted yet.
    pub fn from(into_iter: I) -> (r: Self)
        requires
            into_iter.inv(),
        ensures
            r.inv(),
            r.remaining() == into_iter.remaining(),
            r.counted() == 0,
    {
        proof {
            into_iter.lemma_sorted_disjoint();
            into_iter.lemma_within();
            T::lemma_domain_size();
            lemma_ranges_apart(into_iter.remaining(), T::min_int(), T::max_int());
            lemma_total_len_apart(ranges_of(into_iter.remaining()), T::min_int(), T::max_int());
        }
        SortedDisjointMapWithLenSoFar {
            iter: into_iter,
            len: UIntPlusOne::zero(),
            phantom_data: PhantomData,
        }
    }

    /// The number of integers in the ranges that have gone through.
    pub closed spec fn counted(&self) -> int {
        self.len.as_int()
    }

    /// The number of integers in the ranges that have gone through so far.
    pub fn len_so_far(&self) -> (r: UIntPlusOne)
        ensures
            r.as_int() == self.counted(),
    {
        self.len
    }
}

impl<T: Integer, V: ValueOwned, I: SortedDisjointMap<T, V>> AnythingGoesMap<
    T,
    V,
> for SortedDisjointMapWithLenSoFar<T, V, I> {
    closed spec fn inv(&self) -> bool {
        &&& self.iter.inv()
        &&& 0 <= self.len.as_int()
        &&& self.len.as_int() + total_len(ranges_of(self.iter.remaining())) <= max_plus_one()
    }

    closed spec fn remaining(&self) -> Seq<((int, int), V::V)> {
        self.iter.remaining()
    }

    proof fn lemma_within(&self) {
        self.iter.lemma_within();
    }

    fn next(&mut self) -> (r: Option<((T, T), V)>)
        ensures
            final(self).counted() + total_len(ranges_of(final(self).remaining())) == old(
                self,
            ).counted() + total_len(ranges_of(old(self).remaining())),
    {
        let ghost rest = self.iter.remaining();
        proof {
            self.iter.lemma_sorted_disjoint();
            self.iter.lemma_within();
        }
        match self.iter.next() {
            Some((range, value)) => {
                let (start, end) = range;
                proof {
                    let r = ranges_of(rest);
                    assert(r[0] == rest[0].0);
                    assert(rest[0].0.0 <= rest[0].0.1);
                    lemma_total_len_skip(r);
                    assert(r.skip(1) =~= ranges_of(rest.skip(1)));
                    lemma_sorted_disjoint_map_skip(rest);
                    T::lemma_domain_size();
                    assert(all_within_map(rest.skip(1), T::min_int(), T::max_int())) by {
                        assert forall|i: int| 0 <= i < rest.skip(1).len() implies T::min_int() <= (
                        #[trigger] rest.skip(1)[i]).0.0 <= T::max_int() && T::min_int()
                            <= rest.skip(1)[i].0.1 <= T::max_int() by {
                            assert(rest.skip(1)[i] == rest[i + 1]);
                        }
                    }
                    lemma_ranges_apart(rest.skip(1), T::min_int(), T::max_int());
                    lemma_total_len_apart(
                        ranges_of(rest.skip(1)),
                        T::min_int(),
                        T::max_int(),
                    );
                }
                self.len = self.len.plus(UIntPlusOne::from_span(T::span(start, end)));
                Some(((start, end), value))
            },
            None => {
                proof {
                    assert(self.iter.remaining() =~= rest);
                }
                None
            },
        }
    }
}

impl<T: Integer, V: ValueOwned, I: SortedDisjointMap<T, V>> SortedStartsMap<
    T,
    V,
> for SortedDisjointMapWithLenSoFar<T, V, I> {
    proof fn lemma_sorted_starts(&self) {
        self.iter.lemma_sorted_starts();
    }
}

impl<T: Integer, V: ValueOwned, I: SortedDisjointMap<T, V>> SortedDisjointMap<
    T,
    V,
> for SortedDisjointMapWithLenSoFar<T, V, I> {
    proof fn lemma_sorted_disjoint(&self) {
        self.iter.lemma_sorted_disjoint();
    }
}

/// The entries `s`, each ranked by its place, counted from `number`.
pub open spec fn numbered<VV>(s: Seq<((int, int), VV)>, number: nat) -> Seq<Ranked<VV>> {
    Seq::new(
        s.len(),
        |i: int| Ranked { range: s[i].0, value: s[i].1, priority: (number + i) as nat },
    )
}

/// Where the ranked entry `c` has a lower priority number than every entry
/// of `s`, the best entry at `x` of the sequence of `c` and then `s` is `c`
/// if `c` holds `x`, and else the best entry at `x` of `s`.
pub proof fn lemma_best_with_lowest_first<VV>(c: Ranked<VV>, s: Seq<Ranked<VV>>, x: int)
    requires
        forall|i: int| 0 <= i < s.len() ==> c.priority < (#[trigger] s[i]).priority,
    ensures
        best_at(seq![c] + s, x) == if in_range(c.range, x) {
            Some(c)
        } else {
            best_at(s, x)
        },
    decreases s.len(),
{
    let all = seq![c] + s;
    if s.len() == 0 {
        assert(all.drop_last() =~= Seq::empty());
        assert(all.last() == c);
        assert(best_at(all.drop_last(), x) is None);
    } else {
        let t = s.drop_last();
        assert(all.drop_last() =~= seq![c] + t);
        assert(all.last() == s.last());
        assert forall|i: int| 0 <= i < t.len() implies c.priority < (#[trigger] t[i]).priority by {
            assert(t[i] == s[i]);
        }
        lemma_best_with_lowest_first(c, t, x);
        assert(s.last() == s[s.len() - 1]);
    }
}

/// Joining neighbours changes no value: what `join_ranked` yields gives
/// every integer the value that the pending entry and the entries still to
/// be read, each ranked by its place, give it.
pub proof fn lemma_join_ranked_values<VV>(
    cur: Ranked<VV>,
    rest: Seq<((int, int), VV)>,
    number: nat,
    x: int,
)
    requires
        cur.range.0 <= cur.range.1,
        cur.priority < number,
    ensures
        best_value(join_ranked(cur, rest, number), x) == best_value(
            seq![cur] + numbered(rest, number),
            x,
        ),
    decreases rest.len(),
{
    let plain = numbered(rest, number);
    assert forall|i: int| 0 <= i < plain.len() implies cur.priority < (
    #[trigger] plain[i]).priority by {}
    lemma_best_with_lowest_first(cur, plain, x);
    if rest.len() == 0 {
        assert(plain =~= Seq::empty());
        assert(seq![cur] + plain =~= join_ranked(cur, rest, number));
    } else {
        let r = rest[0];
        let tail = rest.skip(1);
        let plain_tail = numbered(tail, number + 1);
        let fresh = Ranked { range: r.0, value: r.1, priority: number };
        assert(plain =~= seq![fresh] + plain_tail);
        assert forall|i: int| 0 <= i < plain_tail.len() implies number < (
        #[trigger] plain_tail[i]).priority by {}
        lemma_best_with_lowest_first(fresh, plain_tail, x);
        assert forall|i: int| 0 <= i < plain_tail.len() implies cur.priority < (
        #[trigger] plain_tail[i]).priority by {}
        if r.0.0 > r.0.1 {
            lemma_join_ranked_values(cur, tail, number + 1, x);
            lemma_best_with_lowest_first(cur, plain_tail, x);
        } else if !touching(cur.range, r.0) || cur.value != r.1 {
            let joined = join_ranked(fresh, tail, number + 1);
            lemma_join_ranked_values(fresh, tail, number + 1, x);
            lemma_join_priorities(fresh, tail, number + 1);
            assert forall|i: int| 0 <= i < joined.len() implies cur.priority < (
            #[trigger] joined[i]).priority by {}
            lemma_best_with_lowest_first(cur, joined, x);
        } else {
            let wider = Ranked { range: hull(cur.range, r.0), ..cur };
            lemma_join_ranked_values(wider, tail, number + 1, x);
            lemma_best_with_lowest_first(wider, plain_tail, x);
            assert(in_range(wider.range, x) == (in_range(cur.range, x) || in_range(r.0, x)));
        }
    }
}

/// The priority numbers of what `join_ranked` yields are that of the
/// pending entry or higher.
pub proof fn lemma_join_priorities<VV>(cur: Ranked<VV>, rest: Seq<((int, int), VV)>, number: nat)
    requires
        cur.priority < number,
    ensures
        forall|i: int|
            0 <= i < join_ranked(cur, rest, number).len() ==> cur.priority <= (
            #[trigger] join_ranked(cur, rest, number)[i]).priority,
    decreases rest.len(),
{
    let out = join_ranked(cur, rest, number);
    if rest.len() > 0 {
        let r = rest[0];
        let tail = rest.skip(1);
        if r.0.0 > r.0.1 {
            lemma_join_priorities(cur, tail, number + 1);
            assert(out == join_ranked(cur, tail, number + 1));
        } else if !touching(cur.range, r.0) || cur.value != r.1 {
            let fresh = Ranked { range: r.0, value: r.1, priority: number };
            let t = join_ranked(fresh, tail, number + 1);
            lemma_join_priorities(fresh, tail, number + 1);
            assert(out == seq![cur] + t);
            assert forall|i: int| 0 <= i < out.len() implies cur.priority <= (
            #[trigger] out[i]).priority by {
                if i > 0 {
                    assert(out[i] == t[i - 1]);
                    assert(fresh.priority <= t[i - 1].priority);
                } else {
                    assert(out[0] == cur);
                }
            }
        } else {
            let wider = Ranked { range: hull(cur.range, r.0), ..cur };
            lemma_join_priorities(wider, tail, number + 1);
            assert(out == join_ranked(wider, tail, number + 1));
        }
    } else {
        assert(out[0] == cur);
    }
}

/// Ranking and joining changes no value: what `rank_unsorted` yields gives
/// every integer the value of the earliest entry of `s` that holds it.
pub proof fn lemma_rank_unsorted_values<VV>(s: Seq<((int, int), VV)>, number: nat, x: int)
    ensures
        best_value(rank_unsorted(s, number), x) == best_value(numbered(s, number), x),
    decreases s.len(),
{
    let plain = numbered(s, number);
    if s.len() == 0 {
        assert(plain =~= Seq::empty());
    } else {
        let tail = s.skip(1);
        let plain_tail = numbered(tail, number + 1);
        let first = Ranked { range: s[0].0, value: s[0].1, priority: number };
        assert(plain =~= seq![first] + plain_tail);
        assert forall|i: int| 0 <= i < plain_tail.len() implies number < (
        #[trigger] plain_tail[i]).priority by {}
        lemma_best_with_lowest_first(first, plain_tail, x);
        if s[0].0.0 > s[0].0.1 {
            lemma_rank_unsorted_values(tail, number + 1, x);
        } else {
            lemma_join_ranked_values(first, tail, number + 1, x);
        }
    }
}

} // verus!
