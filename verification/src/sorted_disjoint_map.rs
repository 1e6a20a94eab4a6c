//! Streams of ranges that carry values: the promises that such a stream can
//! make, and the ranked entries that compete in a union of range maps.

use crate::integer::Integer;
use crate::map::ValueOwned;
use crate::map_ranges::{
    all_within_map, lemma_sorted_disjoint_map_skip, sorted_disjoint_map, sorted_starts_map,
};
use crate::ranges::{in_range, sorted_disjoint};
use crate::sorted_disjoint::{as_ints, pulled, RangeIter, SortedDisjoint};
use core::marker::PhantomData;
use vstd::prelude::*;

verus! {

/// The entry of a range map that a range and a value stand for.
pub open spec fn entry_of<T: Integer, V: ValueOwned>(item: ((T, T), V)) -> ((int, int), V::V) {
    (as_ints(item.0), item.1@)
}

/// The entries that a sequence of ranges and values stands for.
pub open spec fn entries_of<T: Integer, V: ValueOwned>(s: Seq<((T, T), V)>) -> Seq<
    ((int, int), V::V),
> {
    Seq::new(s.len(), |i: int| entry_of(s[i]))
}

/// The entry that an item pulled from a stream stands for, if any.
pub open spec fn opt_entry<T: Integer, V: ValueOwned>(r: Option<((T, T), V)>) -> Option<
    ((int, int), V::V),
> {
    match r {
        Some(item) => Some(entry_of(item)),
        None => None,
    }
}

/// A pull-based stream of ranges that each carry a value, in any order.
///
/// `remaining` is the sequence of entries that the stream has yet to hand
/// out; each call of `next` hands out its first entry.
pub trait AnythingGoesMap<T: Integer, V: ValueOwned>: Sized {
    /// The invariant that the stream needs to work.
    spec fn inv(&self) -> bool;

    /// The entries that are still to come, in the order in which they come.
    spec fn remaining(&self) -> Seq<((int, int), V::V)>;

    /// Every range that is still to come lies within the element type.
    proof fn lemma_within(&self)
        requires
            self.inv(),
        ensures
            all_within_map(self.remaining(), T::min_int(), T::max_int()),
    ;

    /// Hands out the next range with its value, or `None` when none is left.
    fn next(&mut self) -> (r: Option<((T, T), V)>)
        requires
            old(self).inv(),
        ensures
            final(self).inv(),
            pulled(old(self).remaining(), opt_entry(r), final(self).remaining()),
    ;
}

/// The promise that the entries of a stream come sorted by start. Their
/// ranges may overlap.
pub trait SortedStartsMap<T: Integer, V: ValueOwned>: AnythingGoesMap<T, V> {
    /// The entries that are still to come are sorted by start.
    proof fn lemma_sorted_starts(&self)
        requires
            self.inv(),
        ensures
            sorted_starts_map(self.remaining()),
    ;
}

/// The promise that the entries of a stream are in canonical form: their
/// ranges are non-empty, sorted and disjoint, and ranges that touch carry
/// different values.
pub trait SortedDisjointMap<T: Integer, V: ValueOwned>: SortedStartsMap<T, V> {
    /// The entries that are still to come are in canonical form.
    proof fn lemma_sorted_disjoint(&self)
        requires
            self.inv(),
        ensures
            sorted_disjoint_map(self.remaining()),
    ;
}

/// What a [`Priority`] stands for: a range, the value that it carries, and
/// the rank of the value among those that compete for one integer. The
/// lower number wins.
pub struct Ranked<VV> {
    pub range: (int, int),
    pub value: VV,
    pub priority: nat,
}

/// Whether every ranked entry of `s` has a non-empty range.
pub open spec fn all_valid_ranked<VV>(s: Seq<Ranked<VV>>) -> bool {
    forall|i: int| 0 <= i < s.len() ==> (#[trigger] s[i]).range.0 <= s[i].range.1
}

/// Whether the range of every ranked entry of `s` lies between `lo` and `hi`.
pub open spec fn all_within_ranked<VV>(s: Seq<Ranked<VV>>, lo: int, hi: int) -> bool {
    forall|i: int|
        0 <= i < s.len() ==> lo <= (#[trigger] s[i]).range.0 <= hi && lo <= s[i].range.1 <= hi
}

/// Whether the starts of the ranked entries of `s` never decrease.
pub open spec fn sorted_starts_ranked<VV>(s: Seq<Ranked<VV>>) -> bool {
    forall|i: int, j: int|
        0 <= i < j < s.len() ==> (#[trigger] s[i]).range.0 <= (#[trigger] s[j]).range.0
}

/// Whether the non-empty ranges `a` and `b` hold a common integer.
pub open spec fn ranges_meet(a: (int, int), b: (int, int)) -> bool {
    a.0 <= a.1 && b.0 <= b.1 && a.0 <= b.1 && b.0 <= a.1
}

/// Whether the ranks decide every contest: two ranked entries of `s` that
/// hold a common integer have different priority numbers.
pub open spec fn priorities_decide<VV>(s: Seq<Ranked<VV>>) -> bool {
    forall|i: int, j: int|
        0 <= i < s.len() && 0 <= j < s.len() && i != j && ranges_meet(
            (#[trigger] s[i]).range,
            (#[trigger] s[j]).range,
        ) ==> s[i].priority != s[j].priority
}

/// Whether some entry of `s` holds `x` with the priority number `pr` and
/// the value `v`.
pub open spec fn contends<VV>(s: Seq<Ranked<VV>>, x: int, pr: nat, v: VV) -> bool {
    exists|i: int|
        0 <= i < s.len() && in_range((#[trigger] s[i]).range, x) && s[i].priority == pr
            && s[i].value == v
}

/// Whether the ranks decide every value: two entries of `s` that hold a
/// common integer and have the same priority number carry the same value.
pub open spec fn values_decided<VV>(s: Seq<Ranked<VV>>) -> bool {
    forall|x: int, pr: nat, v1: VV, v2: VV|
        #[trigger] contends(s, x, pr, v1) && #[trigger] contends(s, x, pr, v2) ==> v1 == v2
}

/// Where two entries that hold a common integer never have the same
/// priority number, the ranks decide every value.
pub proof fn lemma_priorities_decide_values<VV>(s: Seq<Ranked<VV>>)
    requires
        priorities_decide(s),
    ensures
        values_decided(s),
{
    assert forall|x: int, pr: nat, v1: VV, v2: VV|
        #[trigger] contends(s, x, pr, v1) && #[trigger] contends(s, x, pr, v2) implies v1
        == v2 by {
        let i = choose|i: int|
            0 <= i < s.len() && in_range((#[trigger] s[i]).range, x) && s[i].priority == pr
                && s[i].value == v1;
        let j = choose|j: int|
            0 <= j < s.len() && in_range((#[trigger] s[j]).range, x) && s[j].priority == pr
                && s[j].value == v2;
        if i != j {
            assert(ranges_meet(s[i].range, s[j].range));
        }
    }
}

/// A range with its value and a priority number: one contribution to a
/// union of range maps. Where contributions overlap, the one with the
/// lowest priority number gives the value.
pub struct Priority<T: Integer, V: ValueOwned> {
    range_value: ((T, T), V),
    priority_number: usize,
}

impl<T: Integer, V: ValueOwned> View for Priority<T, V> {
    type V = Ranked<V::V>;

    closed spec fn view(&self) -> Ranked<V::V> {
        Ranked {
            range: as_ints(self.range_value.0),
            value: self.range_value.1@,
            priority: self.priority_number as nat,
        }
    }
}

impl<T: Integer, V: ValueOwned> Priority<T, V> {
    /// The range and value `range_value`, ranked by `priority_number`.
    pub fn new(range_value: ((T, T), V), priority_number: usize) -> (r: Self)
        ensures
            r@ == (Ranked {
                range: as_ints(range_value.0),
                value: range_value.1@,
                priority: priority_number as nat,
            }),
    {
        Priority { range_value, priority_number }
    }

    /// The priority number.
    pub fn priority_number(&self) -> (r: usize)
        ensures
            r == self@.priority,
    {
        self.priority_number
    }

    /// The range and the value.
    pub fn range_value(&self) -> (r: &((T, T), V))
        ensures
            as_ints(r.0) == self@.range,
            r.1@ == self@.value,
    {
        &self.range_value
    }

    /// Replaces the range and the value, and keeps the priority number.
    pub fn set_range_value(&mut self, value: ((T, T), V))
        ensures
            final(self)@ == (Ranked {
                range: as_ints(value.0),
                value: value.1@,
                priority: old(self)@.priority,
            }),
    {
        self.range_value = value;
    }

    /// Gives up the priority number and returns the range and the value.
    pub fn into_range_value(self) -> (r: ((T, T), V))
        ensures
            as_ints(r.0) == self@.range,
            r.1@ == self@.value,
    {
        self.range_value
    }

    /// Replaces the range, and keeps the value and the priority number.
    pub fn set_range(&mut self, range: (T, T))
        ensures
            final(self)@ == (Ranked { range: as_ints(range), ..old(self)@ }),
    {
        self.range_value.0 = range;
    }

    /// Gives up the value and the priority number and returns the range.
    pub fn into_range(self) -> (r: (T, T))
        ensures
            as_ints(r) == self@.range,
    {
        self.range_value.0
    }

    /// The start of the range.
    pub fn start(&self) -> (r: T)
        ensures
            r.as_int() == self@.range.0,
    {
        self.range_value.0.0
    }

    /// The end of the range.
    pub fn end(&self) -> (r: T)
        ensures
            r.as_int() == self@.range.1,
    {
        self.range_value.0.1
    }

    /// The start and the end of the range.
    pub fn start_and_end(&self) -> (r: (T, T))
        ensures
            as_ints(r) == self@.range,
    {
        (self.range_value.0.0, self.range_value.0.1)
    }

    /// The value.
    pub fn value(&self) -> (r: &V)
        ensures
            r@ == self@.value,
    {
        &self.range_value.1
    }

    /// The range lies within the element type.
    pub proof fn lemma_in_bounds(&self)
        ensures
            T::min_int() <= self@.range.0 <= T::max_int(),
            T::min_int() <= self@.range.1 <= T::max_int(),
    {
        self.range_value.0.0.lemma_in_bounds();
        self.range_value.0.1.lemma_in_bounds();
    }

    /// Whether `self` has a better rank than `other`: a lower priority
    /// number.
    pub fn outranks(&self, other: &Self) -> (r: bool)
        ensures
            r == (self@.priority < other@.priority),
    {
        self.priority_number < other.priority_number
    }
}

/// The ranked entries that a sequence of priorities stands for.
pub open spec fn ranked_of<T: Integer, V: ValueOwned>(s: Seq<Priority<T, V>>) -> Seq<
    Ranked<V::V>,
> {
    Seq::new(s.len(), |i: int| s[i]@)
}

/// The sequence of one ranked entry, or of none.
pub open spec fn opt_seq_ranked<VV>(o: Option<Ranked<VV>>) -> Seq<Ranked<VV>> {
    match o {
        Some(r) => seq![r],
        None => Seq::empty(),
    }
}

/// Whether no ranked entry of `s` starts below `lo`.
pub open spec fn starts_from_ranked<VV>(s: Seq<Ranked<VV>>, lo: int) -> bool {
    forall|i: int| 0 <= i < s.len() ==> lo <= (#[trigger] s[i]).range.0
}

/// Whether all ranked entries of `s` start at `p`.
pub open spec fn all_start_at_ranked<VV>(s: Seq<Ranked<VV>>, p: int) -> bool {
    forall|i: int| 0 <= i < s.len() ==> (#[trigger] s[i]).range.0 == p
}

/// The ranked entry that an item pulled from a stream stands for, if any.
pub open spec fn opt_ranked<T: Integer, V: ValueOwned>(r: Option<Priority<T, V>>) -> Option<
    Ranked<V::V>,
> {
    match r {
        Some(item) => Some(item@),
        None => None,
    }
}

/// A pull-based stream of ranked entries that come sorted by start, all
/// with non-empty ranges, and with ranks that decide every value.
pub trait PrioritySortedStartsMap<T: Integer, V: ValueOwned>: Sized {
    /// The invariant that the stream needs to work.
    spec fn inv(&self) -> bool;

    /// The ranked entries that are still to come, in the order in which
    /// they come.
    spec fn remaining(&self) -> Seq<Ranked<V::V>>;

    /// What the stream promises of the entries that are still to come.
    proof fn lemma_promise(&self)
        requires
            self.inv(),
        ensures
            all_within_ranked(self.remaining(), T::min_int(), T::max_int()),
            all_valid_ranked(self.remaining()),
            sorted_starts_ranked(self.remaining()),
            values_decided(self.remaining()),
    ;

    /// Hands out the next ranked entry, or `None` when none is left.
    fn next(&mut self) -> (r: Option<Priority<T, V>>)
        requires
            old(self).inv(),
        ensures
            final(self).inv(),
            pulled(old(self).remaining(), opt_ranked(r), final(self).remaining()),
    ;
}

/// The further promise that the ranges of a stream of ranked entries are
/// disjoint.
pub trait PrioritySortedDisjointMap<T: Integer, V: ValueOwned>: PrioritySortedStartsMap<T, V> {
    /// Each entry that is still to come ends below the start of every
    /// later one.
    proof fn lemma_disjoint(&self)
        requires
            self.inv(),
        ensures
            forall|i: int, j: int|
                0 <= i < j < self.remaining().len() ==> (#[trigger] self.remaining()[i]).range.1
                    < (#[trigger] self.remaining()[j]).range.0,
    ;
}

/// The ranked entries that the entries `s` make when each gets the
/// priority number `priority`.
pub open spec fn with_priority<VV>(s: Seq<((int, int), VV)>, priority: nat) -> Seq<Ranked<VV>> {
    Seq::new(s.len(), |i: int| Ranked { range: s[i].0, value: s[i].1, priority })
}

/// A canonical sequence is sorted by start.
pub proof fn lemma_sorted_disjoint_map_is_sorted_starts<VV>(s: Seq<((int, int), VV)>)
    requires
        sorted_disjoint_map(s),
    ensures
        sorted_starts_map(s),
{
    assert forall|i: int, j: int| 0 <= i < j < s.len() implies (#[trigger] s[i]).0.0 <= (
    #[trigger] s[j]).0.0 by {
        assert(s[i].0.1 < s[j].0.0);
        assert(s[i].0.0 <= s[i].0.1);
    }
}

/// A copy of a range and its value.
pub fn range_value_clone<T: Integer, V: ValueOwned>(range_value: &((T, T), V)) -> (r: ((T, T), V))
    ensures
        entry_of(r) == entry_of(*range_value),
{
    (range_value.0, range_value.1.value_clone())
}

/// A stream over the ranges and values of a vector, from first to last.
pub struct VecMapIter<T: Integer, V: ValueOwned> {
    items: Vec<((T, T), V)>,
    pos: usize,
}

impl<T: Integer, V: ValueOwned> VecMapIter<T, V> {
    /// A stream that hands out the ranges and values of `items` in order.
    pub fn new(items: Vec<((T, T), V)>) -> (r: Self)
        ensures
            r.inv(),
            r.remaining() == entries_of(items@),
    {
        let r = VecMapIter { items, pos: 0 };
        assert(r.remaining() =~= entries_of(items@));
        r
    }
}

impl<T: Integer, V: ValueOwned> AnythingGoesMap<T, V> for VecMapIter<T, V> {
    closed spec fn inv(&self) -> bool {
        self.pos <= self.items.len()
    }

    closed spec fn remaining(&self) -> Seq<((int, int), V::V)> {
        entries_of(self.items@).skip(self.pos as int)
    }

    proof fn lemma_within(&self) {
        let s = self.remaining();
        assert forall|i: int| 0 <= i < s.len() implies T::min_int() <= (#[trigger] s[i]).0.0
            <= T::max_int() && T::min_int() <= s[i].0.1 <= T::max_int() by {
            let r = self.items@[i + self.pos];
            r.0.0.lemma_in_bounds();
            r.0.1.lemma_in_bounds();
        }
    }

    fn next(&mut self) -> (r: Option<((T, T), V)>) {
        if self.pos < self.items.len() {
            let item = range_value_clone(&self.items[self.pos]);
            self.pos = self.pos + 1;
            assert(self.remaining() =~= old(self).remaining().skip(1));
            Some(item)
        } else {
            None
        }
    }
}

/// Whether the ranges and values of `items` are in canonical form: the
/// ranges non-empty, sorted and disjoint, and different values on ranges
/// that touch.
pub fn is_sorted_disjoint_map<T: Integer, V: ValueOwned>(items: &Vec<((T, T), V)>) -> (b: bool)
    ensures
        b == sorted_disjoint_map(entries_of(items@)),
{
    let ghost s = entries_of(items@);
    let mut i: usize = 0;
    while i < items.len()
        invariant
            0 <= i <= items.len(),
            s == entries_of(items@),
            sorted_disjoint_map(s.take(i as int)),
        decreases items.len() - i,
    {
        let (start, end) = items[i].0;
        let ghost prefix = s.take(i as int);
        let ghost longer = s.take(i + 1);
        if end.is_lt(start) {
            proof {
                if sorted_disjoint_map(s) {
                    assert(s[i as int].0.0 <= s[i as int].0.1);
                }
            }
            return false;
        }
        if i > 0 {
            let previous_end = items[i - 1].0.1;
            proof {
                previous_end.lemma_in_bounds();
                start.lemma_in_bounds();
            }
            if !previous_end.is_lt(start) {
                proof {
                    if sorted_disjoint_map(s) {
                        assert(s[i - 1].0.1 < s[i as int].0.0);
                    }
                }
                return false;
            }
            if previous_end.add_one().is_eq(start) && items[i - 1].1.value_eq(&items[i].1) {
                proof {
                    if sorted_disjoint_map(s) {
                        assert(s[i - 1].0.1 + 1 == s[i - 1 + 1].0.0);
                    }
                }
                return false;
            }
        }
        proof {
            assert forall|k: int| 0 <= k < longer.len() implies (#[trigger] longer[k]).0.0
                <= longer[k].0.1 by {
                if k < i {
                    assert(longer[k] == prefix[k]);
                }
            }
            assert forall|k: int, j: int| 0 <= k < j < longer.len() implies (
            #[trigger] longer[k]).0.1 < (#[trigger] longer[j]).0.0 by {
                assert(longer[k] == prefix[k]);
                if j < i {
                    assert(longer[j] == prefix[j]);
                } else {
                    assert(prefix[i - 1] == s[i - 1]);
                    if k < i - 1 {
                        assert(prefix[k].0.1 < prefix[i - 1].0.0);
                        assert(prefix[i - 1].0.0 <= prefix[i - 1].0.1);
                    }
                }
            }
            assert forall|k: int|
                0 <= k < longer.len() - 1 && (#[trigger] longer[k]).0.1 + 1 == longer[k
                    + 1].0.0 implies longer[k].1 != longer[k + 1].1 by {
                assert(longer[k] == prefix[k]);
                if k + 1 < i {
                    assert(longer[k + 1] == prefix[k + 1]);
                } else {
                    assert(longer[k] == s[i - 1]);
                    assert(longer[k + 1] == s[i as int]);
                }
            }
        }
        i += 1;
    }
    proof {
        assert(s.take(items.len() as int) =~= s);
    }
    true
}

/// Gives a stream of ranges with values the promise of
/// [`SortedDisjointMap`]: whoever makes one has to show that the entries are
/// in canonical form.
pub struct CheckSortedDisjointMap<T: Integer, V: ValueOwned, I: AnythingGoesMap<T, V>> {
    iter: I,
    phantom_data: PhantomData<(T, V)>,
}

impl<T: Integer, V: ValueOwned, I: AnythingGoesMap<T, V>> CheckSortedDisjointMap<T, V, I> {
    /// The stream `iter`, whose entries are in canonical form.
    pub fn new(iter: I) -> (r: Self)
        requires
            iter.inv(),
            sorted_disjoint_map(iter.remaining()),
        ensures
            r.inv(),
            r.remaining() == iter.remaining(),
    {
        CheckSortedDisjointMap { iter, phantom_data: PhantomData }
    }
}

impl<T: Integer, V: ValueOwned> CheckSortedDisjointMap<T, V, VecMapIter<T, V>> {
    /// A stream over the ranges and values of `items` if they are in
    /// canonical form, and `None` if they are not.
    pub fn try_new(items: Vec<((T, T), V)>) -> (r: Option<Self>)
        ensures
            r is Some == sorted_disjoint_map(entries_of(items@)),
            r matches Some(stream) ==> stream.inv() && stream.remaining() == entries_of(items@),
    {
        if is_sorted_disjoint_map(&items) {
            Some(CheckSortedDisjointMap::new(VecMapIter::new(items)))
        } else {
            None
        }
    }
}

impl<T: Integer, V: ValueOwned, I: AnythingGoesMap<T, V>> AnythingGoesMap<
    T,
    V,
> for CheckSortedDisjointMap<T, V, I> {
    closed spec fn inv(&self) -> bool {
        self.iter.inv() && sorted_disjoint_map(self.iter.remaining())
    }

    closed spec fn remaining(&self) -> Seq<((int, int), V::V)> {
        self.iter.remaining()
    }

    proof fn lemma_within(&self) {
        self.iter.lemma_within();
    }

    fn next(&mut self) -> (r: Option<((T, T), V)>) {
        let ghost before = self.iter.remaining();
        let r = self.iter.next();
        proof {
            if before.len() > 0 {
                lemma_sorted_disjoint_map_skip(before);
            } else {
                assert(self.iter.remaining() =~= before);
            }
        }
        r
    }
}

impl<T: Integer, V: ValueOwned, I: AnythingGoesMap<T, V>> SortedStartsMap<
    T,
    V,
> for CheckSortedDisjointMap<T, V, I> {
    proof fn lemma_sorted_starts(&self) {
        lemma_sorted_disjoint_map_is_sorted_starts(self.iter.remaining());
    }
}

impl<T: Integer, V: ValueOwned, I: AnythingGoesMap<T, V>> SortedDisjointMap<
    T,
    V,
> for CheckSortedDisjointMap<T, V, I> {
    proof fn lemma_sorted_disjoint(&self) {
    }
}

/// Whether two canonical streams hand out the same ranges with the same
/// values. Both are used up, as far as the comparison has to go.
pub fn equal_map<
    T: Integer,
    V: ValueOwned,
    L: SortedDisjointMap<T, V>,
    R: SortedDisjointMap<T, V>,
>(left: L, right: R) -> (b: bool)
    requires
        left.inv(),
        right.inv(),
    ensures
        b == (left.remaining() == right.remaining()),
{
    let mut left_iter = left;
    let mut right_iter = right;
    loop
        invariant
            left_iter.inv(),
            right_iter.inv(),
            (left.remaining() == right.remaining()) == (left_iter.remaining()
                == right_iter.remaining()),
        decreases left_iter.remaining().len(),
    {
        let ghost la = left_iter.remaining();
        let ghost rb = right_iter.remaining();
        let from_left = left_iter.next();
        let from_right = right_iter.next();
        match (from_left, from_right) {
            (Some(l), Some(r)) => {
                if !(l.0.0.is_eq(r.0.0) && l.0.1.is_eq(r.0.1) && l.1.value_eq(&r.1)) {
                    proof {
                        assert(la[0] != rb[0]);
                    }
                    return false;
                }
                proof {
                    assert(la =~= seq![la[0]] + la.skip(1));
                    assert(rb =~= seq![rb[0]] + rb.skip(1));
                    if la.skip(1) == rb.skip(1) {
                        assert(la == rb);
                    }
                }
            },
            (None, None) => {
                proof {
                    assert(la =~= rb);
                }
                return true;
            },
            _ => {
                proof {
                    assert(la.len() != rb.len());
                }
                return false;
            },
        }
    }
}

/// The entries that the ranges `s` make when each carries the value `v`.
pub open spec fn with_value<VV>(s: Seq<(int, int)>, v: VV) -> Seq<((int, int), VV)> {
    Seq::new(s.len(), |i: int| (s[i], v))
}

/// Gives every range of a canonical stream of ranges one and the same
/// value.
pub struct RangeToRangeValueIter<T: Integer, V: ValueOwned, I: SortedDisjoint<T>> {
    inner: I,
    value: V,
    phantom: PhantomData<T>,
}

impl<T: Integer, V: ValueOwned, I: SortedDisjoint<T>> RangeToRangeValueIter<T, V, I> {
    /// The ranges of `inner`, each with the value `value`.
    pub fn new(inner: I, value: V) -> (r: Self)
        requires
            inner.inv(),
        ensures
            r.inv(),
            r.remaining() == with_value(inner.remaining(), value@),
    {
        RangeToRangeValueIter { inner, value, phantom: PhantomData }
    }
}

impl<T: Integer, V: ValueOwned, I: SortedDisjoint<T>> AnythingGoesMap<
    T,
    V,
> for RangeToRangeValueIter<T, V, I> {
    closed spec fn inv(&self) -> bool {
        self.inner.inv()
    }

    closed spec fn remaining(&self) -> Seq<((int, int), V::V)> {
        with_value(self.inner.remaining(), self.value@)
    }

    proof fn lemma_within(&self) {
        self.inner.lemma_within();
        let s = self.remaining();
        assert forall|i: int| 0 <= i < s.len() implies T::min_int() <= (#[trigger] s[i]).0.0
            <= T::max_int() && T::min_int() <= s[i].0.1 <= T::max_int() by {
            assert(s[i].0 == self.inner.remaining()[i]);
        }
    }

    fn next(&mut self) -> (r: Option<((T, T), V)>) {
        match self.inner.next() {
            Some(range) => {
                proof {
                    assert(self.remaining() =~= old(self).remaining().skip(1));
                }
                Some((range, self.value.value_clone()))
            },
            None => None,
        }
    }
}

impl<T: Integer, V: ValueOwned, I: SortedDisjoint<T>> SortedStartsMap<
    T,
    V,
> for RangeToRangeValueIter<T, V, I> {
    proof fn lemma_sorted_starts(&self) {
        self.lemma_sorted_disjoint();
        lemma_sorted_disjoint_map_is_sorted_starts(self.remaining());
    }
}

impl<T: Integer, V: ValueOwned, I: SortedDisjoint<T>> SortedDisjointMap<
    T,
    V,
> for RangeToRangeValueIter<T, V, I> {
    proof fn lemma_sorted_disjoint(&self) {
        self.inner.lemma_sorted_disjoint();
        let r = self.inner.remaining();
        let s = self.remaining();
        assert forall|i: int| 0 <= i < s.len() implies (#[trigger] s[i]).0.0 <= s[i].0.1 by {
            assert(s[i].0 == r[i]);
        }
        assert forall|i: int, j: int| 0 <= i < j < s.len() implies (#[trigger] s[i]).0.1 < (
        #[trigger] s[j]).0.0 by {
            assert(s[i].0 == r[i]);
            assert(s[j].0 == r[j]);
            assert(r[i].1 + 1 < r[j].0);
        }
        assert forall|i: int|
            0 <= i < s.len() - 1 && (#[trigger] s[i]).0.1 + 1 == s[i + 1].0.0 implies s[i].1
            != s[i + 1].1 by {
            assert(s[i].0 == r[i]);
            assert(s[i + 1].0 == r[i + 1]);
            assert(r[i].1 + 1 < r[i + 1].0);
        }
    }
}

} // verus!
