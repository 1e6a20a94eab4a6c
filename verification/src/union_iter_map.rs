//! Union of range maps: turns a stream of ranked entries sorted by start
//! into the canonical stream that gives each integer the value of the best
//! ranked entry that holds it.

use crate::integer::Integer;
use crate::map::ValueOwned;
use crate::map_ranges::{
    all_within_map, canonical_map, holds, lemma_canonical_map, lemma_canonical_map_empty,
    lemma_canonical_map_ext, lemma_canonical_map_first, lemma_prepend_canonical_map, opt_seq_map,
    sorted_disjoint_map,
};
use crate::merge_map::{
    lemma_ranked_permutation, lemma_ranked_streams, merge_ranked, ranked_streams_flat, KMergeMap,
    MergeMap,
};
use crate::ranges::in_range;
use crate::sorted_disjoint::as_ints;
use crate::sorted_disjoint_map::{
    all_start_at_ranked, all_valid_ranked, all_within_ranked, contends, entries_of, entry_of,
    opt_entry, opt_ranked, opt_seq_ranked, ranked_of, sorted_starts_ranked, starts_from_ranked,
    values_decided, with_priority, AnythingGoesMap, Priority, PrioritySortedStartsMap, Ranked,
    SortedDisjointMap, SortedStartsMap, VecMapIter,
};
use crate::sorting::sorted_priorities_by_start;
use crate::unsorted_disjoint_map::{
    rank_unsorted, AssumePrioritySortedStartsMap, UnsortedPriorityDisjointMap,
};
use vstd::prelude::*;

verus! {

/// Whether an entry of `s` with the priority number `pr` and the value `v`
/// wins `x`: it holds `x`, and no entry that holds `x` has a lower priority
/// number.
pub open spec fn wins<VV>(s: Seq<Ranked<VV>>, x: int, pr: nat, v: VV) -> bool {
    &&& contends(s, x, pr, v)
    &&& forall|pr2: nat, v2: VV| #[trigger] contends(s, x, pr2, v2) ==> pr <= pr2
}

/// The best entry among those of `s` that hold `x`: the one with the
/// lowest priority number, and the earliest of those.
pub open spec fn best_at<VV>(s: Seq<Ranked<VV>>, x: int) -> Option<Ranked<VV>>
    decreases s.len(),
{
    if s.len() == 0 {
        None
    } else {
        let before = best_at(s.drop_last(), x);
        let last = s.last();
        if in_range(last.range, x) && (before matches Some(b) ==> last.priority < b.priority) {
            Some(last)
        } else {
            before
        }
    }
}

/// The value that the entries of `s` give `x`: that of the best entry that
/// holds `x`.
pub open spec fn best_value<VV>(s: Seq<Ranked<VV>>, x: int) -> Option<VV> {
    match best_at(s, x) {
        Some(r) => Some(r.value),
        None => None,
    }
}

/// The partial function that a union of range maps has yet to hand out
/// when it has gathered the entry `gather` and has the ranked entries
/// `input` before it: the value of `gather` on its range, and elsewhere the
/// value of the best entry of `input`.
pub open spec fn sweep_map<VV>(gather: Option<((int, int), VV)>, input: Seq<Ranked<VV>>) -> Map<
    int,
    VV,
> {
    Map::new(
        |x: int| (gather matches Some(g) && in_range(g.0, x)) || best_at(input, x) is Some,
        |x: int|
            if gather matches Some(g) && in_range(g.0, x) {
                gather.unwrap().1
            } else {
                best_at(input, x).unwrap().value
            },
    )
}

/// The union of the ranked entries `s` between `lo` and `hi`: the canonical
/// sequence that gives each integer the value of the best entry that holds
/// it.
pub open spec fn union_map_ranges<VV>(s: Seq<Ranked<VV>>, lo: int, hi: int) -> Seq<
    ((int, int), VV),
> {
    canonical_map(sweep_map(None, s), lo, hi)
}

/// The best entry at `x` wins `x`, and there is one whenever some entry
/// holds `x`.
pub proof fn lemma_best_wins<VV>(s: Seq<Ranked<VV>>, x: int)
    ensures
        match best_at(s, x) {
            Some(r) => wins(s, x, r.priority, r.value),
            None => forall|pr: nat, v: VV| !contends(s, x, pr, v),
        },
    decreases s.len(),
{
    if s.len() > 0 {
        let t = s.drop_last();
        let last = s.last();
        let n = s.len() - 1;
        lemma_best_wins(t, x);
        assert(last == s[n]);
        // how contending in s relates to contending in t
        assert forall|pr: nat, v: VV|
            contends(s, x, pr, v) == (contends(t, x, pr, v) || (in_range(last.range, x)
                && last.priority == pr && last.value == v)) by {
            if contends(s, x, pr, v) {
                let i = choose|i: int|
                    0 <= i < s.len() && in_range((#[trigger] s[i]).range, x) && s[i].priority == pr
                        && s[i].value == v;
                if i < n {
                    assert(t[i] == s[i]);
                }
            }
            if contends(t, x, pr, v) {
                let i = choose|i: int|
                    0 <= i < t.len() && in_range((#[trigger] t[i]).range, x) && t[i].priority == pr
                        && t[i].value == v;
                assert(t[i] == s[i]);
            }
        }
        match best_at(s, x) {
            Some(r) => {
                assert(contends(s, x, r.priority, r.value));
                assert forall|pr2: nat, v2: VV| #[trigger]
                    contends(s, x, pr2, v2) implies r.priority <= pr2 by {
                    if contends(t, x, pr2, v2) {
                        let b = best_at(t, x).unwrap();
                        assert(wins(t, x, b.priority, b.value));
                    }
                }
            },
            None => {},
        }
    }
}

/// Where the ranks decide every value, an entry that wins `x` gives the
/// value of `x`.
pub proof fn lemma_winner_gives_value<VV>(s: Seq<Ranked<VV>>, x: int, pr: nat, v: VV)
    requires
        values_decided(s),
        wins(s, x, pr, v),
    ensures
        best_value(s, x) == Some(v),
{
    lemma_best_wins(s, x);
    let r = best_at(s, x).unwrap();
    assert(contends(s, x, r.priority, r.value));
    assert(r.priority == pr);
}

/// Two sequences in which the same priority numbers and values contend for
/// `x` give `x` the same value, where in both the ranks decide every value.
pub proof fn lemma_same_contenders<VV>(a: Seq<Ranked<VV>>, b: Seq<Ranked<VV>>, x: int)
    requires
        values_decided(a),
        values_decided(b),
        forall|pr: nat, v: VV| contends(a, x, pr, v) == contends(b, x, pr, v),
    ensures
        best_value(a, x) == best_value(b, x),
{
    lemma_best_wins(a, x);
    lemma_best_wins(b, x);
    match best_at(a, x) {
        Some(r) => {
            assert(contends(a, x, r.priority, r.value));
            assert(wins(b, x, r.priority, r.value));
            lemma_winner_gives_value(b, x, r.priority, r.value);
        },
        None => {
            if let Some(r) = best_at(b, x) {
                assert(contends(b, x, r.priority, r.value));
            }
        },
    }
}

/// What contends in a concatenation is what contends in either part.
pub proof fn lemma_contends_concat<VV>(a: Seq<Ranked<VV>>, b: Seq<Ranked<VV>>, x: int, pr: nat, v: VV)
    ensures
        contends(a + b, x, pr, v) == (contends(a, x, pr, v) || contends(b, x, pr, v)),
{
    let s = a + b;
    if contends(s, x, pr, v) {
        let i = choose|i: int|
            0 <= i < s.len() && in_range((#[trigger] s[i]).range, x) && s[i].priority == pr
                && s[i].value == v;
        if i < a.len() {
            assert(a[i] == s[i]);
        } else {
            assert(b[i - a.len()] == s[i]);
        }
    }
    if contends(a, x, pr, v) {
        let i = choose|i: int|
            0 <= i < a.len() && in_range((#[trigger] a[i]).range, x) && a[i].priority == pr
                && a[i].value == v;
        assert(s[i] == a[i]);
    }
    if contends(b, x, pr, v) {
        let i = choose|i: int|
            0 <= i < b.len() && in_range((#[trigger] b[i]).range, x) && b[i].priority == pr
                && b[i].value == v;
        assert(s[i + a.len()] == b[i]);
    }
}

/// Taking an entry away does not change the value of `x` where another
/// entry of no higher priority number holds every integer that the entry
/// holds.
pub proof fn lemma_dominated<VV>(
    with: Seq<Ranked<VV>>,
    without: Seq<Ranked<VV>>,
    n: Ranked<VV>,
    d: Ranked<VV>,
    x: int,
)
    requires
        values_decided(with),
        forall|pr: nat, v: VV|
            contends(with, x, pr, v) == (contends(without, x, pr, v) || (in_range(n.range, x)
                && pr == n.priority && v == n.value)),
        in_range(n.range, x) ==> contends(without, x, d.priority, d.value),
        d.priority <= n.priority,
    ensures
        best_value(with, x) == best_value(without, x),
{
    lemma_best_wins(without, x);
    match best_at(without, x) {
        Some(r) => {
            assert(contends(without, x, r.priority, r.value));
            assert(contends(with, x, r.priority, r.value));
            assert forall|pr2: nat, v2: VV| #[trigger]
                contends(with, x, pr2, v2) implies r.priority <= pr2 by {
                if !contends(without, x, pr2, v2) {
                    assert(contends(without, x, d.priority, d.value));
                }
            }
            lemma_winner_gives_value(with, x, r.priority, r.value);
        },
        None => {
            lemma_best_wins(with, x);
            if let Some(r) = best_at(with, x) {
                assert(contends(with, x, r.priority, r.value));
            }
        },
    }
}

/// The entry gathered and the entry that is ready to go out, after a step
/// of the sweep from `p` to `b` on which the value `v` wins: a gathered entry
/// that ends just below `p` with the same value grows to `b`, and any other
/// goes out and gives way to a new one from `p` to `b`.
pub open spec fn gather_step_map<VV>(g: Option<((int, int), VV)>, p: int, b: int, v: VV) -> (
    Option<((int, int), VV)>,
    Option<((int, int), VV)>,
) {
    match g {
        Some(r) => if r.1 == v && r.0.1 + 1 == p {
            (Some(((r.0.0, b), v)), None)
        } else {
            (Some(((p, b), v)), Some(r))
        },
        None => (Some(((p, b), v)), None),
    }
}

/// What the entries before and after a step of the sweep give `x`: above
/// the boundary the same, up to the boundary nothing afterwards, and before
/// the step the winning value from the start of the workspace on and
/// nothing below it.
proof fn lemma_step_values<VV>(
    old_input: Seq<Ranked<VV>>,
    new_input: Seq<Ranked<VV>>,
    p: int,
    b: int,
    best_priority: nat,
    v: VV,
    x: int,
)
    requires
        values_decided(old_input),
        values_decided(new_input),
        forall|y: int| p <= y <= b ==> #[trigger] wins(old_input, y, best_priority, v),
        forall|y: int, pr: nat, w: VV| y < p ==> !#[trigger] contends(old_input, y, pr, w),
        forall|y: int, pr: nat, w: VV| y <= b ==> !#[trigger] contends(new_input, y, pr, w),
        forall|y: int, pr: nat, w: VV|
            y > b ==> #[trigger] contends(new_input, y, pr, w) == contends(old_input, y, pr, w),
    ensures
        x > b ==> best_value(new_input, x) == best_value(old_input, x),
        x <= b ==> best_at(new_input, x) is None,
        p <= x <= b ==> best_value(old_input, x) == Some(v),
        x < p ==> best_at(old_input, x) is None,
{
    lemma_best_wins(new_input, x);
    lemma_best_wins(old_input, x);
    if x > b {
        lemma_same_contenders(new_input, old_input, x);
    }
    if x <= b {
        if let Some(r) = best_at(new_input, x) {
            assert(contends(new_input, x, r.priority, r.value));
        }
    }
    if p <= x <= b {
        assert(wins(old_input, x, best_priority, v));
        lemma_winner_gives_value(old_input, x, best_priority, v);
    }
    if x < p {
        if let Some(r) = best_at(old_input, x) {
            assert(contends(old_input, x, r.priority, r.value));
        }
    }
}

/// One step of the sweep keeps what is to come out: the entry that it makes
/// ready, if any, followed by what the new state yields, is what the old
/// state yields.
pub proof fn lemma_union_step<VV>(
    g: Option<((int, int), VV)>,
    old_input: Seq<Ranked<VV>>,
    new_input: Seq<Ranked<VV>>,
    p: int,
    b: int,
    best_priority: nat,
    v: VV,
    lo: int,
    hi: int,
)
    requires
        lo <= p <= b <= hi,
        g matches Some(r) ==> lo <= r.0.0 <= r.0.1 < p,
        values_decided(old_input),
        forall|x: int| p <= x <= b ==> #[trigger] wins(old_input, x, best_priority, v),
        forall|x: int, pr: nat, w: VV| x < p ==> !#[trigger] contends(old_input, x, pr, w),
        forall|x: int, pr: nat, w: VV| x <= b ==> !#[trigger] contends(new_input, x, pr, w),
        forall|x: int, pr: nat, w: VV|
            x > b ==> #[trigger] contends(new_input, x, pr, w) == contends(old_input, x, pr, w),
    ensures
        values_decided(new_input),
        canonical_map(sweep_map(g, old_input), lo, hi) == opt_seq_map(
            gather_step_map(g, p, b, v).1,
        ) + canonical_map(sweep_map(gather_step_map(g, p, b, v).0, new_input), lo, hi),
{
    let (g2, ready) = gather_step_map(g, p, b, v);
    let old_map = sweep_map(g, old_input);
    let new_map = sweep_map(g2, new_input);
    assert(values_decided(new_input)) by {
        assert forall|x: int, pr: nat, v1: VV, v2: VV|
            #[trigger] contends(new_input, x, pr, v1) && #[trigger] contends(
                new_input,
                x,
                pr,
                v2,
            ) implies v1 == v2 by {
            assert(x > b);
            assert(contends(old_input, x, pr, v1));
            assert(contends(old_input, x, pr, v2));
        }
    }
    match ready {
        Some(first) => {
            assert forall|x: int, w: VV| lo <= x <= hi implies #[trigger] old_map.contains_pair(
                x,
                w,
            ) == ((in_range(first.0, x) && w == first.1) || new_map.contains_pair(x, w)) by {
                lemma_step_values(old_input, new_input, p, b, best_priority, v, x);
            }
            assert forall|x: int| lo <= x <= hi && #[trigger] new_map.dom().contains(
                x,
            ) implies x > first.0.1 by {
                lemma_step_values(old_input, new_input, p, b, best_priority, v, x);
            }
            let y = first.0.1 + 1;
            assert(y <= b);
            lemma_best_wins(new_input, y);
            if let Some(r) = best_at(new_input, y) {
                assert(contends(new_input, y, r.priority, r.value));
            }
            lemma_canonical_map_first(old_map, first, new_map, lo, hi);
        },
        None => {
            assert forall|x: int| lo <= x <= hi implies (#[trigger] old_map.dom().contains(x))
                == new_map.dom().contains(x) by {
                lemma_step_values(old_input, new_input, p, b, best_priority, v, x);
            }
            assert forall|x: int| lo <= x <= hi && #[trigger] old_map.dom().contains(
                x,
            ) implies old_map[x] == new_map[x] by {
                lemma_step_values(old_input, new_input, p, b, best_priority, v, x);
            }
            lemma_canonical_map_ext(old_map, new_map, lo, hi);
            assert(opt_seq_map(ready) + canonical_map(new_map, lo, hi) =~= canonical_map(
                new_map,
                lo,
                hi,
            ));
        },
    }
}

/// The place of a best entry of the workspace: one with the lowest
/// priority number.
fn best_index<T: Integer, V: ValueOwned>(workspace: &Vec<Priority<T, V>>) -> (k: usize)
    requires
        workspace.len() > 0,
    ensures
        k < workspace.len(),
        forall|i: int|
            0 <= i < workspace.len() ==> workspace[k as int]@.priority <= (
            #[trigger] workspace[i])@.priority,
{
    let mut k: usize = 0;
    let mut i: usize = 1;
    while i < workspace.len()
        invariant
            0 <= k < i <= workspace.len(),
            forall|j: int|
                0 <= j < i ==> workspace[k as int]@.priority <= (#[trigger] workspace[j])@.priority,
        decreases workspace.len() - i,
    {
        if workspace[i].outranks(&workspace[k]) {
            k = i;
        }
        i += 1;
    }
    k
}

/// What is left of the workspace above `next_end`: each entry that ends
/// above it, cut to start just above it. The entries come out in reverse
/// order.
fn trim_workspace<T: Integer, V: ValueOwned>(workspace: Vec<Priority<T, V>>, next_end: T) -> (out:
    Vec<Priority<T, V>>)
    requires
        forall|i: int|
            0 <= i < workspace.len() ==> (#[trigger] workspace[i])@.range.0 <= next_end.as_int()
                + 1,
    ensures
        all_start_at_ranked(ranked_of(out@), next_end.as_int() + 1),
        all_valid_ranked(ranked_of(out@)),
        forall|x: int, pr: nat, v: V::V|
            #[trigger] contends(ranked_of(out@), x, pr, v) == (x > next_end.as_int() && contends(
                ranked_of(workspace@),
                x,
                pr,
                v,
            )),
{
    let ghost all = ranked_of(workspace@);
    let ghost b = next_end.as_int();
    let mut workspace = workspace;
    let mut out: Vec<Priority<T, V>> = Vec::new();
    loop
        invariant
            b == next_end.as_int(),
            forall|i: int|
                0 <= i < workspace.len() ==> (#[trigger] workspace[i])@.range.0 <= b + 1,
            all_start_at_ranked(ranked_of(out@), b + 1),
            all_valid_ranked(ranked_of(out@)),
            forall|x: int, pr: nat, v: V::V|
                #![trigger contends(all, x, pr, v)]
                (x > b && contends(all, x, pr, v)) == (contends(ranked_of(out@), x, pr, v) || (x
                    > b && contends(ranked_of(workspace@), x, pr, v))),
        ensures
            all_start_at_ranked(ranked_of(out@), b + 1),
            all_valid_ranked(ranked_of(out@)),
            forall|x: int, pr: nat, v: V::V|
                #![trigger contends(all, x, pr, v)]
                (x > b && contends(all, x, pr, v)) == contends(ranked_of(out@), x, pr, v),
        decreases workspace.len(),
    {
        let ghost left = ranked_of(workspace@);
        let ghost done = ranked_of(out@);
        match workspace.pop() {
            Some(item) => {
                let mut item = item;
                let ghost entry = item@;
                let ghost rest = ranked_of(workspace@);
                proof {
                    assert(entry == left[left.len() - 1]);
                    assert(entry.range.0 <= b + 1);
                    assert(rest =~= left.drop_last());
                    assert(left =~= rest.push(entry));
                    assert(left =~= rest + seq![entry]);
                    item.lemma_in_bounds();
                    next_end.lemma_in_bounds();
                    assert forall|x: int, pr: nat, v: V::V|
                        contends(left, x, pr, v) == (contends(rest, x, pr, v) || (in_range(
                            entry.range,
                            x,
                        ) && entry.priority == pr && entry.value == v)) by {
                        lemma_contends_concat(rest, seq![entry], x, pr, v);
                        if contends(seq![entry], x, pr, v) {
                            let i = choose|i: int|
                                0 <= i < 1 && in_range((#[trigger] seq![entry][i]).range, x)
                                    && seq![entry][i].priority == pr && seq![entry][i].value == v;
                        }
                        if in_range(entry.range, x) && entry.priority == pr && entry.value == v {
                            assert(seq![entry][0] == entry);
                        }
                    }
                }
                if next_end.is_lt(item.end()) {
                    let end = item.end();
                    item.set_range((next_end.add_one(), end));
                    let ghost cut = item@;
                    out.push(item);
                    proof {
                        let now = ranked_of(out@);
                        assert(now =~= done + seq![cut]);
                        assert forall|i: int| 0 <= i < now.len() implies (#[trigger] now[i]).range.0
                            == b + 1 && now[i].range.0 <= now[i].range.1 by {
                            if i < done.len() {
                                assert(now[i] == done[i]);
                            }
                        }
                        assert forall|x: int, pr: nat, v: V::V|
                            contends(now, x, pr, v) == (contends(done, x, pr, v) || (in_range(
                                cut.range,
                                x,
                            ) && cut.priority == pr && cut.value == v)) by {
                            lemma_contends_concat(done, seq![cut], x, pr, v);
                            if contends(seq![cut], x, pr, v) {
                                let i = choose|i: int|
                                    0 <= i < 1 && in_range((#[trigger] seq![cut][i]).range, x)
                                        && seq![cut][i].priority == pr && seq![cut][i].value == v;
                            }
                            if in_range(cut.range, x) && cut.priority == pr && cut.value == v {
                                assert(seq![cut][0] == cut);
                            }
                        }
                    }
                }
            },
            None => {
                proof {
                    assert forall|x: int, pr: nat, v: V::V| !contends(left, x, pr, v) by {
                        if contends(left, x, pr, v) {
                            let i = choose|i: int|
                                0 <= i < left.len() && in_range((#[trigger] left[i]).range, x)
                                    && left[i].priority == pr && left[i].value == v;
                        }
                    }
                }
                break ;
            },
        }
    }
    out
}

/// The entry gathered and the entry that is ready to go out, after a step
/// of the sweep on which `best` wins the integers up to `next_end`.
fn next_gather<T: Integer, V: ValueOwned>(
    gather: Option<((T, T), V)>,
    best: &Priority<T, V>,
    next_end: T,
) -> (r: (((T, T), V), Option<((T, T), V)>))
    requires
        gather matches Some(g) ==> g.0.1.as_int() < best@.range.0,
    ensures
        (Some(entry_of(r.0)), opt_entry(r.1)) == gather_step_map(
            opt_entry(gather),
            best@.range.0,
            next_end.as_int(),
            best@.value,
        ),
{
    match gather {
        Some(g) => {
            proof {
                g.0.1.lemma_in_bounds();
                best.lemma_in_bounds();
            }
            if g.1.value_eq(best.value()) && g.0.1.add_one().is_eq(best.start()) {
                (((g.0.0, next_end), g.1), None)
            } else {
                (((best.start(), next_end), best.value().value_clone()), Some(g))
            }
        },
        None => (((best.start(), next_end), best.value().value_clone()), None),
    }
}

/// Turns a stream of ranked entries that is sorted by start into the
/// canonical stream of their union: each integer gets the value of the
/// entry with the lowest priority number that holds it, and neighbouring
/// ranges with one value are joined.
pub struct UnionIterMap<T: Integer, V: ValueOwned, I: PrioritySortedStartsMap<T, V>> {
    iter: I,
    next_item: Option<Priority<T, V>>,
    workspace: Vec<Priority<T, V>>,
    gather: Option<((T, T), V)>,
    ready_to_go: Option<((T, T), V)>,
}

impl<T: Integer, V: ValueOwned, I: PrioritySortedStartsMap<T, V>> UnionIterMap<T, V, I> {
    /// The ranked entries that have not yet entered the workspace.
    pub closed spec fn pending(&self) -> Seq<Ranked<V::V>> {
        opt_seq_ranked(opt_ranked(self.next_item)) + self.iter.remaining()
    }

    /// The ranked entries of the workspace.
    pub closed spec fn open_entries(&self) -> Seq<Ranked<V::V>> {
        ranked_of(self.workspace@)
    }

    /// The ranked entries that the sweep has before it: those of the
    /// workspace, then those that have not yet entered it.
    pub closed spec fn input(&self) -> Seq<Ranked<V::V>> {
        self.open_entries() + self.pending()
    }

    /// How far the workspace is from the end of the element type.
    pub closed spec fn distance(&self) -> int {
        if self.workspace.len() == 0 {
            0
        } else {
            T::max_int() - self.open_entries()[0].range.0 + 1
        }
    }

    /// The union of the ranked entries of `iter`.
    pub fn new(iter: I) -> (r: Self)
        requires
            iter.inv(),
        ensures
            r.inv(),
            r.remaining() == union_map_ranges(iter.remaining(), T::min_int(), T::max_int()),
    {
        let mut iter = iter;
        let ghost all = iter.remaining();
        proof {
            iter.lemma_promise();
        }
        let item = iter.next();
        let r = UnionIterMap {
            iter,
            next_item: item,
            workspace: Vec::new(),
            gather: None,
            ready_to_go: None,
        };
        proof {
            assert(r.open_entries() =~= Seq::empty());
            assert(r.pending() =~= all);
            assert(r.input() =~= all);
            assert(r.remaining() =~= union_map_ranges(all, T::min_int(), T::max_int()));
        }
        r
    }

    /// Moves the entry that was read ahead into the workspace, if it starts
    /// where the workspace starts or the workspace is empty, and reads the
    /// next one ahead. An entry that neither outranks the best of the
    /// workspace nor reaches beyond it is dropped instead. Says whether the
    /// entry left the input.
    fn absorb(&mut self) -> (moved: bool)
        requires
            old(self).inv(),
            old(self).ready_to_go is None,
        ensures
            final(self).inv(),
            final(self).ready_to_go is None,
            final(self).remaining() == old(self).remaining(),
            moved ==> final(self).pending().len() < old(self).pending().len(),
            !moved ==> final(self).pending() == old(self).pending() && final(self).workspace
                == old(self).workspace,
            !moved && final(self).workspace.len() == 0 ==> final(self).pending().len() == 0,
            !moved && final(self).workspace.len() > 0 ==> starts_from_ranked(
                final(self).pending(),
                final(self).open_entries()[0].range.0 + 1,
            ),
    {
        let ghost ws = self.open_entries();
        let ghost pending = self.pending();
        let ghost input = self.input();
        let ghost rest = self.iter.remaining();
        let next_item = match self.next_item.take() {
            Some(next_item) => next_item,
            None => {
                proof {
                    assert(pending =~= Seq::empty());
                    assert(self.pending() =~= pending);
                }
                return false;
            },
        };
        let ghost n = next_item@;
        proof {
            assert(pending[0] == n);
            assert(pending.skip(1) =~= rest);
            assert forall|i: int, j: int| 0 <= i < j < rest.len() implies (
            #[trigger] rest[i]).range.0 <= (#[trigger] rest[j]).range.0 by {
                assert(rest[i] == pending[i + 1]);
                assert(rest[j] == pending[j + 1]);
            }
            assert forall|i: int| 0 <= i < rest.len() implies n.range.0 <= (
            #[trigger] rest[i]).range.0 by {
                assert(rest[i] == pending[i + 1]);
            }
        }
        if self.workspace.len() == 0 {
            self.workspace.push(next_item);
            self.next_item = self.iter.next();
            proof {
                assert(self.open_entries() =~= ws.push(n));
                assert(self.pending() =~= rest);
                assert(self.input() =~= input);
            }
            return true;
        }
        if next_item.start().is_eq(self.workspace[0].start()) {
            let k = best_index(&self.workspace);
            let keep = next_item.outranks(&self.workspace[k]) || self.workspace[k].end().is_lt(
                next_item.end(),
            );
            let ghost d = self.workspace[k as int]@;
            if keep {
                self.workspace.push(next_item);
            }
            self.next_item = self.iter.next();
            proof {
                assert(ws[0] == input[0]);
                assert(self.pending() =~= rest);
                if keep {
                    assert(self.open_entries() =~= ws.push(n));
                    assert(self.input() =~= input);
                    assert forall|i: int| 0 <= i < self.open_entries().len() implies (
                    #[trigger] self.open_entries()[i]).range.0 == ws[0].range.0 by {
                        if i < ws.len() {
                            assert(self.open_entries()[i] == ws[i]);
                        }
                    }
                } else {
                    assert(self.open_entries() =~= ws);
                    let without = ws + rest;
                    assert(self.input() == without);
                    assert(input =~= ws + (seq![n] + rest));
                    assert(ws[k as int] == d);
                    assert(without[k as int] == d);
                    assert(input[ws.len() as int] == n);
                    assert(d.range.0 <= d.range.1) by {
                        assert(input[k as int] == d);
                    }
                    assert forall|x: int, pr: nat, v: V::V|
                        contends(input, x, pr, v) == (contends(without, x, pr, v) || (in_range(
                            n.range,
                            x,
                        ) && pr == n.priority && v == n.value)) by {
                        lemma_contends_concat(ws, seq![n] + rest, x, pr, v);
                        lemma_contends_concat(seq![n], rest, x, pr, v);
                        lemma_contends_concat(ws, rest, x, pr, v);
                        if contends(seq![n], x, pr, v) {
                            let i = choose|i: int|
                                0 <= i < 1 && in_range((#[trigger] seq![n][i]).range, x)
                                    && seq![n][i].priority == pr && seq![n][i].value == v;
                        }
                        if in_range(n.range, x) && pr == n.priority && v == n.value {
                            assert(seq![n][0] == n);
                        }
                    }
                    assert forall|x: int|
                        (#[trigger] best_at(input, x) is Some) == (best_at(without, x) is Some)
                            && (best_at(input, x) is Some ==> best_at(input, x).unwrap().value
                            == best_at(without, x).unwrap().value) by {
                        if in_range(n.range, x) {
                            assert(in_range(without[k as int].range, x));
                        }
                        lemma_dominated(input, without, n, d, x);
                    }
                    assert(sweep_map(opt_entry(self.gather), input) =~= sweep_map(
                        opt_entry(self.gather),
                        without,
                    ));
                    assert forall|i: int| 0 <= i < without.len() implies (
                    #[trigger] without[i]).range.0 <= without[i].range.1 && T::min_int()
                        <= without[i].range.0 <= T::max_int() && T::min_int() <= without[i].range.1
                        <= T::max_int() && (self.gather matches Some(g) ==> g.0.1.as_int()
                        < without[i].range.0) by {
                        if i < ws.len() {
                            assert(without[i] == input[i]);
                        } else {
                            assert(without[i] == input[i + 1]);
                        }
                    }
                }
            }
            return true;
        }
        self.next_item = Some(next_item);
        proof {
            assert(self.pending() =~= pending);
            assert(ws[0] == input[0]);
            assert forall|i: int| 0 <= i < pending.len() implies ws[0].range.0 + 1 <= (
            #[trigger] pending[i]).range.0 by {
                assert(pending[0].range.0 <= pending[i].range.0);
            }
        }
        false
    }

    /// Sweeps from the start of the workspace to the next boundary: the end
    /// of the best entry of the workspace, or just below the entry that was
    /// read ahead, whichever comes first.
    fn advance(&mut self)
        requires
            old(self).inv(),
            old(self).ready_to_go is None,
            old(self).workspace.len() > 0,
            starts_from_ranked(old(self).pending(), old(self).open_entries()[0].range.0 + 1),
        ensures
            final(self).inv(),
            final(self).remaining() == old(self).remaining(),
            final(self).pending() == old(self).pending(),
            0 <= final(self).distance() < old(self).distance(),
    {
        let ghost lo = T::min_int();
        let ghost hi = T::max_int();
        let ghost ws = self.open_entries();
        let ghost pending = self.pending();
        let ghost input = self.input();
        let ghost p = ws[0].range.0;
        let ghost old_gather = opt_entry(self.gather);
        let k = best_index(&self.workspace);
        let ghost best = ws[k as int];
        let mut next_end = self.workspace[k].end();
        proof {
            assert(self.workspace[k as int]@ == best);
            assert(input[k as int] == best);
            assert(input[0] == ws[0]);
            self.workspace[k as int].lemma_in_bounds();
            self.workspace[0].lemma_in_bounds();
        }
        match &self.next_item {
            Some(next_item) => {
                proof {
                    assert(pending[0] == next_item@);
                    next_item.lemma_in_bounds();
                }
                let prev = next_item.start().sub_one();
                if prev.is_lt(next_end) {
                    next_end = prev;
                }
            },
            None => {},
        }
        let ghost b = next_end.as_int();
        proof {
            next_end.lemma_in_bounds();
            assert(starts_from_ranked(pending, b + 1)) by {
                if pending.len() > 0 {
                    assert forall|i: int| 0 <= i < pending.len() implies b + 1 <= (
                    #[trigger] pending[i]).range.0 by {
                        assert(pending[0].range.0 <= pending[i].range.0);
                    }
                }
            }
            assert forall|i: int| 0 <= i < ws.len() implies (#[trigger] ws[i]).range.0 == p
                && ws[i].range.0 <= ws[i].range.1 && ws[i].range.0 <= b + 1 && lo
                <= ws[i].range.0 by {
                assert(input[i] == ws[i]);
            }
            if self.gather is Some {
                let g = self.gather.unwrap();
                g.0.0.lemma_in_bounds();
            }
        }
        let gather = self.gather.take();
        let (new_gather, ready) = next_gather(gather, &self.workspace[k], next_end);
        self.gather = Some(new_gather);
        self.ready_to_go = ready;
        let mut old_workspace: Vec<Priority<T, V>> = Vec::new();
        core::mem::swap(&mut self.workspace, &mut old_workspace);
        proof {
            assert(ranked_of(old_workspace@) == ws);
            assert forall|i: int| 0 <= i < old_workspace.len() implies (
            #[trigger] old_workspace[i])@.range.0 <= next_end.as_int() + 1 by {
                assert(ws[i] == old_workspace[i]@);
            }
        }
        self.workspace = trim_workspace(old_workspace, next_end);
        proof {
            let ws2 = self.open_entries();
            let new_input = ws2 + pending;
            assert(self.pending() == pending);
            assert(self.input() == new_input);
            assert(input == ws + pending);
            // the best entry wins every integer up to the boundary
            assert forall|x: int| p <= x <= b implies #[trigger] wins(
                input,
                x,
                best.priority,
                best.value,
            ) by {
                assert(in_range(input[k as int].range, x));
                assert forall|pr2: nat, v2: V::V| #[trigger]
                    contends(input, x, pr2, v2) implies best.priority <= pr2 by {
                    let i = choose|i: int|
                        0 <= i < input.len() && in_range((#[trigger] input[i]).range, x)
                            && input[i].priority == pr2 && input[i].value == v2;
                    if i < ws.len() {
                        assert(input[i] == ws[i]);
                    } else {
                        assert(input[i] == pending[i - ws.len()]);
                    }
                }
            }
            assert forall|x: int, pr: nat, w: V::V| x < p implies !#[trigger] contends(
                input,
                x,
                pr,
                w,
            ) by {
                if contends(input, x, pr, w) {
                    let i = choose|i: int|
                        0 <= i < input.len() && in_range((#[trigger] input[i]).range, x)
                            && input[i].priority == pr && input[i].value == w;
                    if i < ws.len() {
                        assert(input[i] == ws[i]);
                    } else {
                        assert(input[i] == pending[i - ws.len()]);
                    }
                }
            }
            assert forall|x: int, pr: nat, w: V::V|
                (x <= b ==> !#[trigger] contends(new_input, x, pr, w)) && (x > b ==> contends(
                    new_input,
                    x,
                    pr,
                    w,
                ) == contends(input, x, pr, w)) by {
                lemma_contends_concat(ws2, pending, x, pr, w);
                lemma_contends_concat(ws, pending, x, pr, w);
                if x <= b && contends(pending, x, pr, w) {
                    let i = choose|i: int|
                        0 <= i < pending.len() && in_range((#[trigger] pending[i]).range, x)
                            && pending[i].priority == pr && pending[i].value == w;
                }
            }
            lemma_union_step(old_gather, input, new_input, p, b, best.priority, best.value, lo, hi);
            // the new state is well formed
            assert forall|i: int| 0 <= i < new_input.len() implies (
            #[trigger] new_input[i]).range.0 <= new_input[i].range.1 && lo <= new_input[i].range.0
                <= hi && lo <= new_input[i].range.1 <= hi && b + 1 <= new_input[i].range.0 by {
                if i < ws2.len() {
                    assert(new_input[i] == ws2[i]);
                    self.workspace[i].lemma_in_bounds();
                } else {
                    assert(new_input[i] == pending[i - ws2.len()]);
                    assert(input[i - ws2.len() + ws.len()] == pending[i - ws2.len()]);
                }
            }
            if self.workspace.len() > 0 {
                assert(ws2[0] == new_input[0]);
            }
        }
    }
}

impl<T: Integer, V: ValueOwned, I: PrioritySortedStartsMap<T, V>> AnythingGoesMap<
    T,
    V,
> for UnionIterMap<T, V, I> {
    closed spec fn inv(&self) -> bool {
        let ws = self.open_entries();
        &&& self.iter.inv()
        &&& self.next_item is None ==> self.iter.remaining().len() == 0
        &&& all_valid_ranked(self.input())
        &&& all_within_ranked(self.input(), T::min_int(), T::max_int())
        &&& sorted_starts_ranked(self.pending())
        &&& values_decided(self.input())
        &&& ws.len() > 0 ==> all_start_at_ranked(ws, ws[0].range.0) && starts_from_ranked(
            self.pending(),
            ws[0].range.0,
        )
        &&& match self.gather {
            Some(g) => g.0.0.as_int() <= g.0.1.as_int() && starts_from_ranked(
                self.input(),
                g.0.1.as_int() + 1,
            ),
            None => true,
        }
        &&& match self.ready_to_go {
            Some(v) => {
                &&& v.0.0.as_int() <= v.0.1.as_int()
                &&& self.gather matches Some(g) && v.0.1.as_int() < g.0.0.as_int() && (
                v.0.1.as_int() + 1 == g.0.0.as_int() ==> v.1@ != g.1@)
            },
            None => true,
        }
    }

    closed spec fn remaining(&self) -> Seq<((int, int), V::V)> {
        opt_seq_map(opt_entry(self.ready_to_go)) + canonical_map(
            sweep_map(opt_entry(self.gather), self.input()),
            T::min_int(),
            T::max_int(),
        )
    }

    proof fn lemma_within(&self) {
        let c = canonical_map(
            sweep_map(opt_entry(self.gather), self.input()),
            T::min_int(),
            T::max_int(),
        );
        lemma_canonical_map(
            sweep_map(opt_entry(self.gather), self.input()),
            T::min_int(),
            T::max_int(),
        );
        let s = self.remaining();
        assert forall|i: int| 0 <= i < s.len() implies T::min_int() <= (#[trigger] s[i]).0.0
            <= T::max_int() && T::min_int() <= s[i].0.1 <= T::max_int() by {
            match self.ready_to_go {
                Some(v) => {
                    v.0.0.lemma_in_bounds();
                    v.0.1.lemma_in_bounds();
                    if i > 0 {
                        assert(s[i] == c[i - 1]);
                    }
                },
                None => {
                    assert(s[i] == c[i]);
                },
            }
        }
    }

    fn next(&mut self) -> (r: Option<((T, T), V)>) {
        loop
            invariant
                self.inv(),
                self.remaining() == old(self).remaining(),
            decreases self.pending().len(), self.distance(),
        {
            let ghost lo = T::min_int();
            let ghost hi = T::max_int();
            let ghost before = self.remaining();
            if self.ready_to_go.is_some() {
                let value = self.ready_to_go.take();
                proof {
                    assert(before.skip(1) =~= self.remaining());
                }
                return value;
            }
            if self.absorb() {
                continue ;
            }
            if self.workspace.len() == 0 {
                let value = self.gather.take();
                proof {
                    let e = Seq::<Ranked<V::V>>::empty();
                    assert(self.input() =~= e);
                    let g = opt_entry(value);
                    lemma_canonical_map_empty(sweep_map(None, e), lo, hi);
                    if value is Some {
                        let v = value.unwrap();
                        v.0.0.lemma_in_bounds();
                        v.0.1.lemma_in_bounds();
                        lemma_canonical_map_first(
                            sweep_map(g, e),
                            entry_of(v),
                            sweep_map(None, e),
                            lo,
                            hi,
                        );
                        assert(before.skip(1) =~= self.remaining());
                    }
                }
                return value;
            }
            self.advance();
        }
    }
}

impl<T: Integer, V: ValueOwned, I: PrioritySortedStartsMap<T, V>> SortedStartsMap<
    T,
    V,
> for UnionIterMap<T, V, I> {
    proof fn lemma_sorted_starts(&self) {
        self.lemma_sorted_disjoint();
        let s = self.remaining();
        assert forall|i: int, j: int| 0 <= i < j < s.len() implies (#[trigger] s[i]).0.0 <= (
        #[trigger] s[j]).0.0 by {
            assert(s[i].0.1 < s[j].0.0);
            assert(s[i].0.0 <= s[i].0.1);
        }
    }
}

impl<T: Integer, V: ValueOwned, I: PrioritySortedStartsMap<T, V>> SortedDisjointMap<
    T,
    V,
> for UnionIterMap<T, V, I> {
    proof fn lemma_sorted_disjoint(&self) {
        let map = sweep_map(opt_entry(self.gather), self.input());
        let c = canonical_map(map, T::min_int(), T::max_int());
        lemma_canonical_map(map, T::min_int(), T::max_int());
        match self.ready_to_go {
            Some(v) => {
                let g = self.gather.unwrap();
                if c.len() > 0 {
                    let x = c[0].0.0;
                    assert(in_range(c[0].0, x));
                    assert(holds(c, x, c[0].1));
                    assert(map.contains_pair(x, c[0].1));
                    lemma_best_wins(self.input(), x);
                    if !in_range(as_ints(g.0), x) {
                        let r = best_at(self.input(), x).unwrap();
                        assert(contends(self.input(), x, r.priority, r.value));
                        let i = choose|i: int|
                            0 <= i < self.input().len() && in_range(
                                (#[trigger] self.input()[i]).range,
                                x,
                            ) && self.input()[i].priority == r.priority && self.input()[i].value
                                == r.value;
                    }
                }
                lemma_prepend_canonical_map(entry_of(v), c);
            },
            None => {
                assert(self.remaining() =~= c);
            },
        }
    }
}

/// Two sequences that hold the same ranked entries, each as often as the
/// other, have the same union, where the ranks decide every value.
pub proof fn lemma_union_map_permutation<VV>(
    a: Seq<Ranked<VV>>,
    b: Seq<Ranked<VV>>,
    lo: int,
    hi: int,
)
    requires
        a.to_multiset() == b.to_multiset(),
        values_decided(a),
    ensures
        union_map_ranges(a, lo, hi) == union_map_ranges(b, lo, hi),
{
    lemma_ranked_permutation(a, b);
    assert forall|x: int|
        (#[trigger] best_at(a, x) is Some) == (best_at(b, x) is Some) && (best_at(a, x) is Some
            ==> best_at(a, x).unwrap().value == best_at(b, x).unwrap().value) by {
        lemma_same_contenders(a, b, x);
    }
    assert(sweep_map(None, a) =~= sweep_map(None, b));
}

/// The union of ranked entries is in canonical form and gives each integer
/// between `lo` and `hi` the value of the best entry that holds it: the one
/// with the lowest priority number.
pub proof fn lemma_union_map_ranges<VV>(s: Seq<Ranked<VV>>, lo: int, hi: int)
    ensures
        sorted_disjoint_map(union_map_ranges(s, lo, hi)),
        all_within_map(union_map_ranges(s, lo, hi), lo, hi),
        forall|x: int, v: VV|
            #![trigger holds(union_map_ranges(s, lo, hi), x, v)]
            holds(union_map_ranges(s, lo, hi), x, v) == (lo <= x <= hi && best_value(s, x)
                == Some(v)),
{
    lemma_canonical_map(sweep_map(None, s), lo, hi);
    assert forall|x: int, v: VV|
        #![trigger holds(union_map_ranges(s, lo, hi), x, v)]
        holds(union_map_ranges(s, lo, hi), x, v) == (lo <= x <= hi && best_value(s, x) == Some(
            v,
        )) by {
        assert(sweep_map(None, s).contains_pair(x, v) == (best_value(s, x) == Some(v)));
    }
}

/// A stream over a buffer of ranked entries that has been sorted by start.
pub type SortedStartsInVecMap<T, V> = AssumePrioritySortedStartsMap<T, V>;

impl<T: Integer, V: ValueOwned> UnionIterMap<T, V, SortedStartsInVecMap<T, V>> {
    /// The union of the ranked entries of `unsorted_disjoint`, which may
    /// come in any order: they are buffered and sorted by start, the one step
    /// of the algebra that is not lazy.
    pub fn from<I: AnythingGoesMap<T, V>>(
        unsorted_disjoint: UnsortedPriorityDisjointMap<T, V, I>,
    ) -> (r: Self)
        requires
            unsorted_disjoint.inv(),
        ensures
            r.inv(),
            r.remaining() == union_map_ranges(
                unsorted_disjoint.remaining(),
                T::min_int(),
                T::max_int(),
            ),
    {
        let ghost input = unsorted_disjoint.remaining();
        proof {
            unsorted_disjoint.lemma_promise();
        }
        let buffer = unsorted_disjoint.collect();
        let sorted = sorted_priorities_by_start(buffer);
        proof {
            lemma_ranked_permutation(ranked_of(sorted@), input);
            lemma_union_map_permutation(ranked_of(sorted@), input, T::min_int(), T::max_int());
        }
        let iter = AssumePrioritySortedStartsMap::new(sorted);
        UnionIterMap::new(iter)
    }

    /// The union of the ranges and values `items`, which may come in any
    /// order and overlap: where they do, the earlier item gives the value.
    pub fn from_iter(items: Vec<((T, T), V)>) -> (r: Self)
        ensures
            r.inv(),
            r.remaining() == union_map_ranges(
                rank_unsorted(entries_of(items@), 0),
                T::min_int(),
                T::max_int(),
            ),
    {
        let count = items.len();
        let source = VecMapIter::new(items);
        assert(source.remaining().len() == count);
        let iter = UnsortedPriorityDisjointMap::new(source);
        Self::from(iter)
    }
}

/// The degenerate entries of the points and values `s`: each from an
/// integer to itself, with its value.
pub open spec fn point_entries<VV>(s: Seq<(int, VV)>) -> Seq<((int, int), VV)> {
    Seq::new(s.len(), |i: int| ((s[i].0, s[i].0), s[i].1))
}

/// The points and values that a sequence of pairs stands for.
pub open spec fn point_values_of<T: Integer, V: ValueOwned>(s: Seq<(T, V)>) -> Seq<(int, V::V)> {
    Seq::new(s.len(), |i: int| (s[i].0.as_int(), s[i].1@))
}

/// The degenerate ranges of the points of `items`, each with its value.
pub fn points_to_entries<T: Integer, V: ValueOwned>(items: Vec<(T, V)>) -> (out: Vec<((T, T), V)>)
    ensures
        entries_of(out@) == point_entries(point_values_of(items@)),
{
    let mut out: Vec<((T, T), V)> = Vec::new();
    let mut i: usize = 0;
    while i < items.len()
        invariant
            0 <= i <= items.len(),
            out.len() == i,
            forall|k: int|
                0 <= k < i ==> entry_of(#[trigger] out[k]) == (
                    (items[k].0.as_int(), items[k].0.as_int()),
                    items[k].1@,
                ),
        decreases items.len() - i,
    {
        let point = items[i].0;
        let value = items[i].1.value_clone();
        out.push(((point, point), value));
        i += 1;
    }
    assert(entries_of(out@) =~= point_entries(point_values_of(items@)));
    out
}

impl<T: Integer, V: ValueOwned> UnionIterMap<T, V, SortedStartsInVecMap<T, V>> {
    /// The union of the points and values `items`, which may come in any
    /// order: where a point comes more than once, its first value stays.
    pub fn from_points(items: Vec<(T, V)>) -> (r: Self)
        ensures
            r.inv(),
            r.remaining() == union_map_ranges(
                rank_unsorted(point_entries(point_values_of(items@)), 0),
                T::min_int(),
                T::max_int(),
            ),
    {
        Self::from_iter(points_to_entries(items))
    }
}

/// The union of two canonical streams of ranges with values.
pub type BitOrMapMerge<T, V, L, R> = UnionIterMap<T, V, MergeMap<T, V, L, R>>;

/// The union of any number of canonical streams of ranges with values.
pub type BitOrMapKMerge<T, V> = UnionIterMap<T, V, KMergeMap<T, V>>;

impl<
    T: Integer,
    V: ValueOwned,
    L: SortedDisjointMap<T, V>,
    R: SortedDisjointMap<T, V>,
> BitOrMapMerge<T, V, L, R> {
    /// The union of the streams `left` and `right`. Where both hold an
    /// integer, `left` gives the value.
    pub fn new2(left: L, right: R) -> (r: Self)
        requires
            left.inv(),
            right.inv(),
        ensures
            r.inv(),
            r.remaining() == union_map_ranges(
                merge_ranked(
                    with_priority(left.remaining(), 0),
                    with_priority(right.remaining(), 1),
                ),
                T::min_int(),
                T::max_int(),
            ),
    {
        let iter = MergeMap::new(left, right);
        Self::new(iter)
    }
}

impl<T: Integer, V: ValueOwned> BitOrMapKMerge<T, V> {
    /// The union of the streams of `k`. Where several hold an integer, the
    /// earliest of them gives the value.
    pub fn new_k<J: SortedDisjointMap<T, V>>(k: Vec<J>) -> (r: Self)
        requires
            forall|i: int| 0 <= i < k.len() ==> (#[trigger] k[i]).inv(),
        ensures
            r.inv(),
            r.remaining() == union_map_ranges(
                ranked_streams_flat::<T, V, J>(k@),
                T::min_int(),
                T::max_int(),
            ),
    {
        let iter = KMergeMap::new(k);
        proof {
            lemma_ranked_streams::<T, V, J>(k@);
            lemma_union_map_permutation(
                ranked_streams_flat::<T, V, J>(k@),
                iter.remaining(),
                T::min_int(),
                T::max_int(),
            );
        }
        Self::new(iter)
    }
}

} // verus!
