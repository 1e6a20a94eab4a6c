//! Symmetric difference: turns a stream of ranges sorted by start into the
//! canonical stream of the integers that an odd number of them hold.

use crate::integer::Integer;
use crate::merge::{merge_by_start, streams_flat, KMerge, Merge};
use crate::ranges::{
    all_valid, all_within, canonical, cover_count, in_range, lemma_canonical,
    lemma_canonical_empty, lemma_canonical_ext, lemma_canonical_first, lemma_cover_count_all,
    lemma_cover_count_below, lemma_cover_count_concat, lemma_cover_count_permutation,
    lemma_prepend_canonical, lemma_sorted_disjoint_is_sorted_starts, min_int, odd_points, opt_seq,
    sorted_disjoint, sorted_starts, starts_from,
};
use crate::sorted_disjoint::{as_ints, ints_of, opt_ints, RangeIter, SortedDisjoint, SortedStarts};
use vstd::prelude::*;

verus! {

/// The symmetric difference of the ranges `s` within the bounds `lo` and
/// `hi`: the canonical sequence of the integers that an odd number of the
/// ranges hold.
pub open spec fn sym_diff_ranges(s: Seq<(int, int)>, lo: int, hi: int) -> Seq<(int, int)> {
    canonical(odd_points(s), lo, hi)
}

/// The integers that are still to come out of a sweep which has gathered the
/// range `gather` and has the ranges `input` before it: those of `gather`,
/// and those that an odd number of the ranges of `input` hold.
pub open spec fn sweep_points(gather: Option<(int, int)>, input: Seq<(int, int)>) -> Set<int> {
    Set::new(
        |x: int|
            (gather matches Some(g) && in_range(g, x)) || cover_count(input, x) % 2 == 1,
    )
}

/// The least end among the ranges of `ws`, which is not empty.
pub open spec fn min_end(ws: Seq<(int, int)>) -> int
    decreases ws.len(),
{
    if ws.len() == 0 {
        0
    } else if ws.len() == 1 {
        ws[0].1
    } else {
        min_int(min_end(ws.drop_last()), ws.last().1)
    }
}

/// What is left of the ranges `ws` above `b`: each range that ends above `b`,
/// cut to start at `b + 1`.
pub open spec fn trim(ws: Seq<(int, int)>, b: int) -> Seq<(int, int)>
    decreases ws.len(),
{
    if ws.len() == 0 {
        Seq::empty()
    } else {
        let before = trim(ws.drop_last(), b);
        if ws.last().1 > b {
            before.push((b + 1, ws.last().1))
        } else {
            before
        }
    }
}

/// Whether all ranges of `ws` start at `p`.
pub open spec fn all_start_at(ws: Seq<(int, int)>, p: int) -> bool {
    forall|i: int| 0 <= i < ws.len() ==> (#[trigger] ws[i]).0 == p
}

/// No range of `ws` ends below `min_end(ws)`.
pub proof fn lemma_min_end(ws: Seq<(int, int)>)
    requires
        ws.len() > 0,
    ensures
        forall|i: int| 0 <= i < ws.len() ==> min_end(ws) <= (#[trigger] ws[i]).1,
        exists|i: int| 0 <= i < ws.len() && min_end(ws) == (#[trigger] ws[i]).1,
    decreases ws.len(),
{
    if ws.len() == 1 {
        assert(min_end(ws) == ws[0].1);
    } else {
        let t = ws.drop_last();
        lemma_min_end(t);
        let n = ws.len() - 1;
        assert(ws.last() == ws[n]);
        assert forall|i: int| 0 <= i < ws.len() implies min_end(ws) <= (#[trigger] ws[i]).1 by {
            if i < n {
                assert(t[i] == ws[i]);
            }
        }
        let k = choose|i: int| 0 <= i < t.len() && min_end(t) == (#[trigger] t[i]).1;
        assert(t[k] == ws[k]);
        if min_end(ws) == ws[n].1 {
            assert(0 <= n < ws.len() && min_end(ws) == ws[n].1);
        } else {
            assert(0 <= k < ws.len() && min_end(ws) == ws[k].1);
        }
    }
}

/// What `trim(ws, b)` holds are non-empty ranges that start at `b + 1`, no
/// more of them than `ws` has.
pub proof fn lemma_trim_shape(ws: Seq<(int, int)>, b: int)
    ensures
        all_start_at(trim(ws, b), b + 1),
        all_valid(trim(ws, b)),
        trim(ws, b).len() <= ws.len(),
    decreases ws.len(),
{
    let out = trim(ws, b);
    if ws.len() > 0 {
        let before = trim(ws.drop_last(), b);
        lemma_trim_shape(ws.drop_last(), b);
        assert forall|i: int| 0 <= i < out.len() implies (#[trigger] out[i]).0 == b + 1 && out[i].0
            <= out[i].1 by {
            if i < before.len() {
                assert(out[i] == before[i]);
            }
        }
    }
}

/// `trim(ws, b)` holds no integer up to `b`, and each integer above `b` as
/// often as `ws` does, where no range of `ws` starts above `b + 1`.
pub proof fn lemma_trim_count(ws: Seq<(int, int)>, b: int, x: int)
    requires
        forall|i: int| 0 <= i < ws.len() ==> (#[trigger] ws[i]).0 <= b + 1,
    ensures
        cover_count(trim(ws, b), x) == if x > b {
            cover_count(ws, x)
        } else {
            0
        },
    decreases ws.len(),
{
    let out = trim(ws, b);
    if ws.len() > 0 {
        let t = ws.drop_last();
        let before = trim(t, b);
        assert forall|i: int| 0 <= i < t.len() implies (#[trigger] t[i]).0 <= b + 1 by {
            assert(t[i] == ws[i]);
        }
        lemma_trim_count(t, b, x);
        assert(ws.last() == ws[ws.len() - 1]);
        if ws.last().1 > b {
            assert(out.drop_last() =~= before);
            assert(out.last() == (b + 1, ws.last().1));
        }
    }
}

/// What one step of the sweep does to the gathered range: with the
/// workspace starting at `p`, the boundary at `b`, and `odd` saying whether
/// the workspace holds an odd number of ranges, the new gathered range and
/// the range that is ready to go out.
pub open spec fn gather_step(g: Option<(int, int)>, p: int, b: int, odd: bool) -> (
    Option<(int, int)>,
    Option<(int, int)>,
) {
    match g {
        Some(g) => if g.1 + 1 == p {
            if odd {
                (Some((g.0, b)), None)
            } else {
                (None, Some(g))
            }
        } else {
            (
                if odd {
                    Some((p, b))
                } else {
                    None
                },
                Some(g),
            )
        },
        None => (
            if odd {
                Some((p, b))
            } else {
                None
            },
            None,
        ),
    }
}

/// How often the ranges before and after a step of the sweep hold `x`.
proof fn lemma_step_counts(ws: Seq<(int, int)>, pending: Seq<(int, int)>, p: int, b: int, x: int)
    requires
        ws.len() > 0,
        all_start_at(ws, p),
        p <= b,
        forall|i: int| 0 <= i < ws.len() ==> b <= (#[trigger] ws[i]).1,
        starts_from(pending, b + 1),
    ensures
        x > b ==> cover_count(trim(ws, b) + pending, x) == cover_count(ws + pending, x),
        x <= b ==> cover_count(trim(ws, b) + pending, x) == 0,
        p <= x <= b ==> cover_count(ws + pending, x) == ws.len(),
        x < p ==> cover_count(ws + pending, x) == 0,
{
    let ws2 = trim(ws, b);
    lemma_cover_count_concat(ws2, pending, x);
    lemma_cover_count_concat(ws, pending, x);
    lemma_trim_count(ws, b, x);
    if x <= b {
        assert forall|k: int| 0 <= k < pending.len() implies x + 1 <= (#[trigger] pending[k]).0 by {}
        lemma_cover_count_below(pending, x);
        if x >= p {
            lemma_cover_count_all(ws, x);
        } else {
            assert forall|k: int| 0 <= k < ws.len() implies x + 1 <= (#[trigger] ws[k]).0 by {}
            lemma_cover_count_below(ws, x);
        }
    }
}

/// One step of the sweep keeps what is to come out: the range that it makes
/// ready, if any, followed by what the new state yields, is what the old
/// state yields.
pub proof fn lemma_sweep_step(
    g: Option<(int, int)>,
    ws: Seq<(int, int)>,
    pending: Seq<(int, int)>,
    p: int,
    b: int,
    lo: int,
    hi: int,
)
    requires
        ws.len() > 0,
        all_start_at(ws, p),
        lo <= p <= b <= hi,
        forall|i: int| 0 <= i < ws.len() ==> b <= (#[trigger] ws[i]).1,
        starts_from(pending, b + 1),
        g matches Some(r) ==> lo <= r.0 <= r.1 < p,
    ensures
        canonical(sweep_points(g, ws + pending), lo, hi) == opt_seq(
            gather_step(g, p, b, ws.len() % 2 == 1).1,
        ) + canonical(
            sweep_points(gather_step(g, p, b, ws.len() % 2 == 1).0, trim(ws, b) + pending),
            lo,
            hi,
        ),
{
    let odd = ws.len() % 2 == 1;
    let (g2, ready) = gather_step(g, p, b, odd);
    let old_input = ws + pending;
    let new_input = trim(ws, b) + pending;
    let old_set = sweep_points(g, old_input);
    let new_set = sweep_points(g2, new_input);
    assert forall|x: int|
        (x > b ==> cover_count(new_input, x) == cover_count(old_input, x)) && (x <= b
            ==> cover_count(new_input, x) == 0) && (p <= x <= b ==> cover_count(old_input, x)
            == ws.len()) && (x < p ==> cover_count(old_input, x) == 0) by {
        lemma_step_counts(ws, pending, p, b, x);
    }
    match ready {
        Some(v) => {
            assert forall|x: int| lo <= x <= hi implies old_set.contains(x) == (in_range(v, x)
                || new_set.contains(x)) by {
                lemma_step_counts(ws, pending, p, b, x);
            }
            assert forall|x: int| lo <= x <= hi && new_set.contains(x) implies x > v.1 + 1 by {
                lemma_step_counts(ws, pending, p, b, x);
            }
            lemma_canonical_first(old_set, v, new_set, lo, hi);
        },
        None => {
            assert forall|x: int| lo <= x <= hi implies old_set.contains(x) == new_set.contains(
                x,
            ) by {
                lemma_step_counts(ws, pending, p, b, x);
            }
            lemma_canonical_ext(old_set, new_set, lo, hi);
            assert(opt_seq(ready) + canonical(new_set, lo, hi) =~= canonical(new_set, lo, hi));
        },
    }
}

/// Turns a stream of non-empty ranges that is sorted by start into the
/// canonical stream of their symmetric difference: the integers that an odd
/// number of the ranges hold.
pub struct SymDiffIter<T: Integer, I: SortedStarts<T>> {
    iter: I,
    next_item: Option<(T, T)>,
    workspace: Vec<(T, T)>,
    workspace_next_end: Option<T>,
    gather: Option<(T, T)>,
    ready_to_go: Option<(T, T)>,
}

/// The smaller of the end `next_item_end` and the end `next_end`, if there
/// is one.
pub fn min_next_end<T: Integer>(next_end: &Option<T>, next_item_end: T) -> (r: Option<T>)
    ensures
        r matches Some(m) && m.as_int() == match *next_end {
            Some(current_end) => min_int(current_end.as_int(), next_item_end.as_int()),
            None => next_item_end.as_int(),
        },
{
    match *next_end {
        Some(current_end) => {
            if current_end.is_lt(next_item_end) {
                Some(current_end)
            } else {
                Some(next_item_end)
            }
        },
        None => Some(next_item_end),
    }
}

/// What is left of the workspace `workspace` above `next_end`, and the least
/// end among what is left.
fn trim_workspace<T: Integer>(workspace: &Vec<(T, T)>, next_end: T) -> (r: (Vec<(T, T)>, Option<T>))
    requires
        forall|k: int|
            0 <= k < workspace.len() ==> next_end.as_int() <= (#[trigger] workspace[k]).1.as_int(),
    ensures
        ints_of(r.0@) == trim(ints_of(workspace@), next_end.as_int()),
        match r.1 {
            Some(e) => r.0.len() > 0 && e.as_int() == min_end(ints_of(r.0@)),
            None => r.0.len() == 0,
        },
{
    let ghost ws = ints_of(workspace@);
    let ghost b = next_end.as_int();
    let mut new_workspace: Vec<(T, T)> = Vec::new();
    let mut new_next_end: Option<T> = None;
    let mut i: usize = 0;
    assert(ints_of(new_workspace@) =~= trim(ws.take(0), b));
    while i < workspace.len()
        invariant
            0 <= i <= workspace.len(),
            ints_of(workspace@) == ws,
            ints_of(new_workspace@) == trim(ws.take(i as int), b),
            b == next_end.as_int(),
            forall|k: int|
                0 <= k < workspace.len() ==> next_end.as_int() <= (
                #[trigger] workspace[k]).1.as_int(),
            match new_next_end {
                Some(e) => new_workspace.len() > 0 && e.as_int() == min_end(
                    ints_of(new_workspace@),
                ),
                None => new_workspace.len() == 0,
            },
        decreases workspace.len() - i,
    {
        let item = workspace[i];
        proof {
            assert(ws.take(i + 1).drop_last() =~= ws.take(i as int));
            assert(ws.take(i + 1).last() == ws[i as int]);
            assert(ws[i as int] == as_ints(item));
            item.1.lemma_in_bounds();
        }
        if next_end.is_lt(item.1) {
            let trimmed = (next_end.add_one(), item.1);
            let ghost prev_ws = ints_of(new_workspace@);
            new_next_end = min_next_end(&new_next_end, item.1);
            new_workspace.push(trimmed);
            proof {
                assert(ints_of(new_workspace@) =~= prev_ws.push(as_ints(trimmed)));
                assert(ints_of(new_workspace@).drop_last() =~= prev_ws);
            }
        }
        i += 1;
    }
    proof {
        assert(ws.take(ws.len() as int) =~= ws);
    }
    (new_workspace, new_next_end)
}

/// The new gathered range and the range that is ready to go out, after a
/// step of the sweep from `best_start` to `next_end`.
fn next_gather<T: Integer>(gather: Option<(T, T)>, best_start: T, next_end: T, odd: bool) -> (r: (
    Option<(T, T)>,
    Option<(T, T)>,
))
    requires
        gather matches Some(g) ==> g.1.as_int() < best_start.as_int(),
    ensures
        (opt_ints(r.0), opt_ints(r.1)) == gather_step(
            opt_ints(gather),
            best_start.as_int(),
            next_end.as_int(),
            odd,
        ),
        r.1 is Some ==> r.1 == gather,
{
    let fresh = if odd {
        Some((best_start, next_end))
    } else {
        None
    };
    match gather {
        Some(g) => {
            proof {
                g.1.lemma_in_bounds();
                best_start.lemma_in_bounds();
            }
            if g.1.add_one().is_eq(best_start) {
                if odd {
                    (Some((g.0, next_end)), None)
                } else {
                    (None, Some(g))
                }
            } else {
                (fresh, Some(g))
            }
        },
        None => (fresh, None),
    }
}

impl<T: Integer, I: SortedStarts<T>> SymDiffIter<T, I> {
    /// The ranges that have not yet entered the workspace.
    pub closed spec fn pending(&self) -> Seq<(int, int)> {
        opt_seq(opt_ints(self.next_item)) + self.iter.remaining()
    }

    /// The ranges of the workspace.
    pub closed spec fn open_ranges(&self) -> Seq<(int, int)> {
        ints_of(self.workspace@)
    }

    /// The ranges that the sweep has before it: those of the workspace, then
    /// those that have not yet entered it.
    pub closed spec fn input(&self) -> Seq<(int, int)> {
        self.open_ranges() + self.pending()
    }

    /// How far the workspace is from the end of the element type.
    pub closed spec fn distance(&self) -> int {
        if self.workspace.len() == 0 {
            0
        } else {
            T::max_int() - self.open_ranges()[0].0 + 1
        }
    }

    /// The symmetric difference of the ranges of `iter`.
    pub fn new(iter: I) -> (r: Self)
        requires
            iter.inv(),
            all_valid(iter.remaining()),
        ensures
            r.inv(),
            r.remaining() == sym_diff_ranges(iter.remaining(), T::min_int(), T::max_int()),
    {
        let mut iter = iter;
        let ghost all = iter.remaining();
        proof {
            iter.lemma_sorted_starts();
        }
        let item = iter.next();
        let r = SymDiffIter {
            iter,
            next_item: item,
            workspace: Vec::new(),
            workspace_next_end: None,
            gather: None,
            ready_to_go: None,
        };
        proof {
            assert(r.open_ranges() =~= Seq::empty());
            assert(r.pending() =~= all);
            assert(r.input() =~= all);
            assert(sweep_points(None, all) =~= odd_points(all));
            assert(r.remaining() =~= sym_diff_ranges(all, T::min_int(), T::max_int()));
        }
        r
    }

    /// Moves the range that was read ahead into the workspace, if it starts
    /// where the workspace starts or the workspace is empty, and reads the
    /// next one ahead. Says whether it did.
    fn absorb(&mut self) -> (moved: bool)
        requires
            old(self).inv(),
            old(self).ready_to_go is None,
        ensures
            final(self).inv(),
            final(self).ready_to_go is None,
            final(self).remaining() == old(self).remaining(),
            moved ==> final(self).pending().len() < old(self).pending().len(),
            !moved ==> *final(self) == *old(self),
            !moved && final(self).workspace.len() == 0 ==> final(self).pending().len() == 0,
            !moved && final(self).workspace.len() > 0 ==> starts_from(
                final(self).pending(),
                final(self).open_ranges()[0].0 + 1,
            ),
    {
        let ghost ws = self.open_ranges();
        let ghost pending = self.pending();
        match self.next_item {
            Some(next_item) => {
                let push = if self.workspace.len() == 0 {
                    true
                } else {
                    next_item.0.is_eq(self.workspace[0].0)
                };
                proof {
                    assert(pending[0] == as_ints(next_item));
                }
                if push {
                    let ghost before = self.input();
                    self.workspace_next_end = min_next_end(&self.workspace_next_end, next_item.1);
                    self.workspace.push(next_item);
                    self.next_item = self.iter.next();
                    proof {
                        let n = as_ints(next_item);
                        assert(self.open_ranges() =~= ws.push(n));
                        assert(self.pending() =~= pending.skip(1));
                        assert(self.input() =~= before);
                        assert(ws.push(n).drop_last() =~= ws);
                        assert forall|i: int, j: int|
                            0 <= i < j < self.pending().len() implies (
                        #[trigger] self.pending()[i]).0 <= (#[trigger] self.pending()[j]).0 by {
                            assert(self.pending()[i] == pending[i + 1]);
                            assert(self.pending()[j] == pending[j + 1]);
                        }
                        assert forall|i: int| 0 <= i < self.pending().len() implies n.0 <= (
                        #[trigger] self.pending()[i]).0 by {
                            assert(self.pending()[i] == pending[i + 1]);
                        }
                        assert(self.open_ranges()[0].0 == n.0);
                        assert forall|i: int| 0 <= i < self.open_ranges().len() implies (
                        #[trigger] self.open_ranges()[i]).0 == n.0 by {
                            if i < ws.len() {
                                assert(self.open_ranges()[i] == ws[i]);
                            }
                        }
                    }
                    true
                } else {
                    proof {
                        assert forall|i: int| 0 <= i < pending.len() implies ws[0].0 + 1 <= (
                        #[trigger] pending[i]).0 by {
                            assert(pending[0].0 <= pending[i].0);
                        }
                    }
                    false
                }
            },
            None => {
                proof {
                    assert(pending =~= Seq::empty());
                }
                false
            },
        }
    }

    /// Sweeps from the start of the workspace to the next boundary: the
    /// least end in the workspace, or just below the range that was read
    /// ahead, whichever comes first.
    fn advance(&mut self)
        requires
            old(self).inv(),
            old(self).ready_to_go is None,
            old(self).workspace.len() > 0,
            starts_from(old(self).pending(), old(self).open_ranges()[0].0 + 1),
        ensures
            final(self).inv(),
            final(self).remaining() == old(self).remaining(),
            final(self).pending() == old(self).pending(),
            0 <= final(self).distance() < old(self).distance(),
    {
        let ghost lo = T::min_int();
        let ghost hi = T::max_int();
        let ghost ws = self.open_ranges();
        let ghost pending = self.pending();
        let ghost p = ws[0].0;
        let ghost old_gather = opt_ints(self.gather);
        let best_start = self.workspace[0].0;
        let mut next_end = match self.workspace_next_end {
            Some(e) => e,
            None => best_start,
        };
        proof {
            lemma_min_end(ws);
            assert forall|i: int| 0 <= i < ws.len() implies p <= (#[trigger] ws[i]).1 by {
                assert(self.input()[i] == ws[i]);
            }
        }
        if let Some(next_item) = self.next_item {
            proof {
                assert(pending[0] == as_ints(next_item));
                next_item.0.lemma_in_bounds();
                best_start.lemma_in_bounds();
            }
            let prev = next_item.0.sub_one();
            if prev.is_lt(next_end) {
                next_end = prev;
            }
        }
        let ghost b = next_end.as_int();
        proof {
            assert(starts_from(pending, b + 1)) by {
                if pending.len() > 0 {
                    assert forall|i: int| 0 <= i < pending.len() implies b + 1 <= (
                    #[trigger] pending[i]).0 by {
                        assert(pending[0].0 <= pending[i].0);
                    }
                }
            }
            assert(self.input()[0] == ws[0]);
            assert forall|k: int| 0 <= k < self.workspace.len() implies next_end.as_int() <= (
            #[trigger] self.workspace[k]).1.as_int() by {
                assert(ws[k] == as_ints(self.workspace[k]));
            }
        }
        let odd = self.workspace.len() % 2 == 1;
        let (gather, ready) = next_gather(self.gather, best_start, next_end, odd);
        let (new_workspace, new_next_end) = trim_workspace(&self.workspace, next_end);
        self.gather = gather;
        self.ready_to_go = ready;
        self.workspace = new_workspace;
        self.workspace_next_end = new_next_end;
        proof {
            let ws2 = trim(ws, b);
            let new_input = ws2 + pending;
            assert(self.input() == new_input);
            lemma_trim_shape(ws, b);
            next_end.lemma_in_bounds();
            best_start.lemma_in_bounds();
            if let Some(g) = old(self).gather {
                g.0.lemma_in_bounds();
            }
            assert forall|k: int| 0 <= k < new_input.len() implies (#[trigger] new_input[k]).0
                <= new_input[k].1 && b + 1 <= new_input[k].0 by {
                if k < ws2.len() {
                    assert(new_input[k] == ws2[k]);
                } else {
                    assert(new_input[k] == pending[k - ws2.len()]);
                    assert(old(self).input()[k - ws2.len() + ws.len()] == pending[k - ws2.len()]);
                }
            }
            lemma_sweep_step(old_gather, ws, pending, p, b, lo, hi);
            if self.workspace.len() > 0 {
                self.workspace[0].0.lemma_in_bounds();
                assert(self.open_ranges()[0] == ws2[0]);
            }
        }
    }
}

impl<T: Integer, I: SortedStarts<T>> RangeIter<T> for SymDiffIter<T, I> {
    closed spec fn inv(&self) -> bool {
        let ws = self.open_ranges();
        &&& self.iter.inv()
        &&& self.next_item is None ==> self.iter.remaining().len() == 0
        &&& all_valid(self.input())
        &&& sorted_starts(self.pending())
        &&& ws.len() > 0 ==> all_start_at(ws, ws[0].0) && starts_from(self.pending(), ws[0].0)
        &&& match self.workspace_next_end {
            Some(e) => ws.len() > 0 && e.as_int() == min_end(ws),
            None => ws.len() == 0,
        }
        &&& match self.gather {
            Some(g) => g.0.as_int() <= g.1.as_int() && starts_from(self.input(), g.1.as_int() + 1),
            None => true,
        }
        &&& match self.ready_to_go {
            Some(v) => {
                &&& v.0.as_int() <= v.1.as_int()
                &&& starts_from(self.input(), v.1.as_int() + 2)
                &&& self.gather matches Some(g) ==> v.1.as_int() + 1 < g.0.as_int()
            },
            None => true,
        }
    }

    closed spec fn remaining(&self) -> Seq<(int, int)> {
        opt_seq(opt_ints(self.ready_to_go)) + canonical(
            sweep_points(opt_ints(self.gather), self.input()),
            T::min_int(),
            T::max_int(),
        )
    }

    proof fn lemma_within(&self) {
        let c = canonical(
            sweep_points(opt_ints(self.gather), self.input()),
            T::min_int(),
            T::max_int(),
        );
        lemma_canonical(
            sweep_points(opt_ints(self.gather), self.input()),
            T::min_int(),
            T::max_int(),
        );
        let s = self.remaining();
        assert forall|i: int| 0 <= i < s.len() implies T::min_int() <= (#[trigger] s[i]).0
            <= T::max_int() && T::min_int() <= s[i].1 <= T::max_int() by {
            match self.ready_to_go {
                Some(v) => {
                    v.0.lemma_in_bounds();
                    v.1.lemma_in_bounds();
                    if i > 0 {
                        assert(s[i] == c[i - 1]);
                    }
                },
                None => {
                    assert(s[i] == c[i]);
                },
            }
        }
    }

    fn next(&mut self) -> (r: Option<(T, T)>) {
        loop
            invariant
                self.inv(),
                self.remaining() == old(self).remaining(),
            decreases self.pending().len(), self.distance(),
        {
            let ghost lo = T::min_int();
            let ghost hi = T::max_int();
            let ghost before = *self;
            if let Some(value) = self.ready_to_go {
                self.ready_to_go = None;
                proof {
                    assert(before.remaining().skip(1) =~= self.remaining());
                }
                return Some(value);
            }
            if self.absorb() {
                continue ;
            }
            if self.workspace.len() == 0 {
                let value = self.gather;
                self.gather = None;
                proof {
                    assert(self.input() =~= Seq::empty());
                    let g = opt_ints(value);
                    let e = Seq::<(int, int)>::empty();
                    lemma_canonical_empty(sweep_points(None, e), lo, hi);
                    match value {
                        Some(v) => {
                            v.0.lemma_in_bounds();
                            v.1.lemma_in_bounds();
                            lemma_canonical_first(
                                sweep_points(g, e),
                                as_ints(v),
                                sweep_points(None, e),
                                lo,
                                hi,
                            );
                            assert(before.remaining().skip(1) =~= self.remaining());
                        },
                        None => {},
                    }
                }
                return value;
            }
            self.advance();
        }
    }
}

impl<T: Integer, I: SortedStarts<T>> SortedStarts<T> for SymDiffIter<T, I> {
    proof fn lemma_sorted_starts(&self) {
        self.lemma_sorted_disjoint();
        lemma_sorted_disjoint_is_sorted_starts(self.remaining());
    }
}

impl<T: Integer, I: SortedStarts<T>> SortedDisjoint<T> for SymDiffIter<T, I> {
    proof fn lemma_sorted_disjoint(&self) {
        let set = sweep_points(opt_ints(self.gather), self.input());
        let c = canonical(set, T::min_int(), T::max_int());
        lemma_canonical(set, T::min_int(), T::max_int());
        match self.ready_to_go {
            Some(v) => {
                if c.len() > 0 {
                    let x = c[0].0;
                    assert(in_range(c[0], x));
                    assert(crate::ranges::covers(c, x));
                    assert(set.contains(x));
                    if cover_count(self.input(), x) % 2 == 1 {
                        crate::ranges::lemma_cover_count_zero(self.input(), x);
                        let k = choose|k: int|
                            0 <= k < self.input().len() && in_range(#[trigger] self.input()[k], x);
                    }
                }
                lemma_prepend_canonical(as_ints(v), c);
            },
            None => {
                assert(self.remaining() =~= c);
            },
        }
    }
}

/// Two sequences that hold the same ranges, each as often as the other,
/// have the same symmetric difference.
pub proof fn lemma_sym_diff_permutation(a: Seq<(int, int)>, b: Seq<(int, int)>, lo: int, hi: int)
    requires
        a.to_multiset() == b.to_multiset(),
    ensures
        sym_diff_ranges(a, lo, hi) == sym_diff_ranges(b, lo, hi),
{
    assert(odd_points(a) =~= odd_points(b)) by {
        assert forall|x: int| cover_count(a, x) == cover_count(b, x) by {
            lemma_cover_count_permutation(a, b, x);
        }
    }
}

/// The symmetric difference of ranges is in canonical form and covers
/// exactly the integers between `lo` and `hi` that an odd number of the
/// ranges hold.
pub proof fn lemma_sym_diff_ranges(s: Seq<(int, int)>, lo: int, hi: int)
    ensures
        sorted_disjoint(sym_diff_ranges(s, lo, hi)),
        all_within(sym_diff_ranges(s, lo, hi), lo, hi),
        forall|x: int|
            #![trigger crate::ranges::covers(sym_diff_ranges(s, lo, hi), x)]
            crate::ranges::covers(sym_diff_ranges(s, lo, hi), x) == (lo <= x <= hi && cover_count(
                s,
                x,
            ) % 2 == 1),
{
    lemma_canonical(odd_points(s), lo, hi);
}

/// The symmetric difference of two canonical streams of ranges.
pub type SymDiffIterMerge<T, L, R> = SymDiffIter<T, Merge<T, L, R>>;

/// The symmetric difference of any number of canonical streams of ranges.
pub type SymDiffIterKMerge<T> = SymDiffIter<T, KMerge<T>>;

impl<T: Integer, L: SortedDisjoint<T>, R: SortedDisjoint<T>> SymDiffIterMerge<T, L, R> {
    /// The symmetric difference of the streams `left` and `right`: the
    /// integers that exactly one of them holds.
    pub fn new2(left: L, right: R) -> (r: Self)
        requires
            left.inv(),
            right.inv(),
        ensures
            r.inv(),
            r.remaining() == sym_diff_ranges(
                merge_by_start(left.remaining(), right.remaining()),
                T::min_int(),
                T::max_int(),
            ),
    {
        proof {
            left.lemma_sorted_disjoint();
            right.lemma_sorted_disjoint();
            lemma_sorted_disjoint_is_sorted_starts(left.remaining());
            lemma_sorted_disjoint_is_sorted_starts(right.remaining());
            crate::merge::lemma_merge_sorted(left.remaining(), right.remaining());
        }
        let iter = Merge::new(left, right);
        Self::new(iter)
    }
}

/// The ranges of canonical streams are all non-empty.
pub proof fn lemma_streams_flat_valid<T: Integer, I: SortedDisjoint<T>>(streams: Seq<I>)
    requires
        forall|i: int| 0 <= i < streams.len() ==> (#[trigger] streams[i]).inv(),
    ensures
        all_valid(streams_flat::<T, I>(streams)),
    decreases streams.len(),
{
    let flat = streams_flat::<T, I>(streams);
    if streams.len() > 0 {
        let before = streams.drop_last();
        let last = streams.last();
        let fb = streams_flat::<T, I>(before);
        assert forall|i: int| 0 <= i < before.len() implies (#[trigger] before[i]).inv() by {
            assert(before[i] == streams[i]);
        }
        lemma_streams_flat_valid::<T, I>(before);
        assert(last == streams[streams.len() - 1]);
        last.lemma_sorted_disjoint();
        assert forall|i: int| 0 <= i < flat.len() implies (#[trigger] flat[i]).0 <= flat[i].1 by {
            if i < fb.len() {
                assert(flat[i] == fb[i]);
            } else {
                assert(flat[i] == last.remaining()[i - fb.len()]);
            }
        }
    }
}

/// Sequences that hold the same ranges, each as often as the other, have
/// non-empty ranges together.
pub proof fn lemma_valid_permutation(a: Seq<(int, int)>, b: Seq<(int, int)>)
    requires
        a.to_multiset() == b.to_multiset(),
        all_valid(a),
    ensures
        all_valid(b),
{
    a.to_multiset_ensures();
    b.to_multiset_ensures();
    assert forall|i: int| 0 <= i < b.len() implies (#[trigger] b[i]).0 <= b[i].1 by {
        assert(b.contains(b[i]));
        assert(b.to_multiset().count(b[i]) > 0);
        assert(a.contains(b[i]));
        let j = choose|j: int| 0 <= j < a.len() && a[j] == b[i];
        assert(a[j].0 <= a[j].1);
    }
}

impl<T: Integer> SymDiffIterKMerge<T> {
    /// The symmetric difference of the streams of `k`: the integers that an
    /// odd number of them hold.
    pub fn new_k<J: SortedDisjoint<T>>(k: Vec<J>) -> (r: Self)
        requires
            forall|i: int| 0 <= i < k.len() ==> (#[trigger] k[i]).inv(),
        ensures
            r.inv(),
            r.remaining() == sym_diff_ranges(
                streams_flat::<T, J>(k@),
                T::min_int(),
                T::max_int(),
            ),
    {
        let iter = KMerge::new(k);
        proof {
            lemma_streams_flat_valid::<T, J>(k@);
            lemma_valid_permutation(streams_flat::<T, J>(k@), iter.remaining());
            lemma_sym_diff_permutation(
                streams_flat::<T, J>(k@),
                iter.remaining(),
                T::min_int(),
                T::max_int(),
            );
        }
        Self::new(iter)
    }
}

} // verus!
