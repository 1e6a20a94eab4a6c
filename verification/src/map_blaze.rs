//! A map from integers to values, kept as a vector of ranges with values in
//! canonical form, and the text of range maps.

use crate::integer::{Integer, UIntPlusOne};
use crate::map::ValueOwned;
use crate::map_ranges::{lemma_sorted_disjoint_map_skip, ranges_of, sorted_disjoint_map};
use crate::ranges::total_len;
use crate::sorted_disjoint::as_ints;
use crate::sorted_disjoint_map::{
    entries_of, entry_of, lemma_sorted_disjoint_map_is_sorted_starts, range_value_clone,
    AnythingGoesMap, SortedDisjointMap, SortedStartsMap,
};
use crate::text::{option_range_text, push_range, range_text};
use crate::union_iter_map::{union_map_ranges, UnionIterMap};
use crate::unsorted_disjoint_map::{rank_unsorted, SortedDisjointMapWithLenSoFar};
use vstd::prelude::*;
use vstd::string::StringExecFns;

verus! {

/// The text of the entry `e`: its range and its value, in brackets.
pub open spec fn entry_text<V: ValueOwned>(e: ((int, int), V::V)) -> Seq<char> {
    seq!['('] + range_text(e.0) + seq![',', ' '] + V::debug_text(e.1) + seq![')']
}

/// The text of the entries `s`: the text of each, joined by a comma and a
/// space.
pub open spec fn entries_text<V: ValueOwned>(s: Seq<((int, int), V::V)>) -> Seq<char>
    decreases s.len(),
{
    if s.len() == 0 {
        Seq::empty()
    } else if s.len() == 1 {
        entry_text::<V>(s[0])
    } else {
        entries_text::<V>(s.drop_last()) + seq![',', ' '] + entry_text::<V>(s.last())
    }
}

/// Appends the text of the range and value `item` to `text`.
pub fn push_entry<T: Integer, V: ValueOwned>(text: &mut String, item: &((T, T), V))
    ensures
        final(text)@ == old(text)@ + entry_text::<V>(entry_of(*item)),
{
    proof {
        reveal_strlit("(");
        reveal_strlit(", ");
        reveal_strlit(")");
    }
    text.append("(");
    push_range(text, item.0);
    text.append(", ");
    item.1.push_debug(text);
    text.append(")");
    proof {
        assert("("@ =~= seq!['(']);
        assert(", "@ =~= seq![',', ' ']);
        assert(")"@ =~= seq![')']);
        assert(final(text)@ =~= old(text)@ + entry_text::<V>(entry_of(*item)));
    }
}

/// The text of a canonical stream of ranges with values, for tests and
/// debugging: each entry as `(start..=end, value)`, joined by a comma and a
/// space.
pub trait DebugToString<T: Integer, V: ValueOwned>: SortedDisjointMap<T, V> {
    /// The text of the entries that the stream has yet to hand out. The
    /// stream is used up.
    fn to_string(self) -> (r: String)
        requires
            self.inv(),
        ensures
            r@ == entries_text::<V>(self.remaining()),
    ;
}

impl<T: Integer, V: ValueOwned, M: SortedDisjointMap<T, V>> DebugToString<T, V> for M {
    fn to_string(self) -> (r: String) {
        let ghost all = self.remaining();
        let mut stream = self;
        let mut text = String::new();
        let mut first = true;
        let ghost done = Seq::<((int, int), V::V)>::empty();
        loop
            invariant
                stream.inv(),
                done + stream.remaining() == all,
                first == (done.len() == 0),
                text@ == entries_text::<V>(done),
            ensures
                text@ == entries_text::<V>(all),
            decreases stream.remaining().len(),
        {
            match stream.next() {
                Some(item) => {
                    let ghost so_far = text@;
                    if !first {
                        proof {
                            reveal_strlit(", ");
                        }
                        text.append(", ");
                    }
                    push_entry(&mut text, &item);
                    proof {
                        let longer = done.push(entry_of(item));
                        assert(longer.drop_last() =~= done);
                        reveal_strlit(", ");
                        assert(", "@ =~= seq![',', ' ']);
                        if first {
                            assert(so_far =~= Seq::empty());
                            assert(text@ =~= entry_text::<V>(longer[0]));
                        } else {
                            assert(text@ =~= so_far + seq![',', ' '] + entry_text::<V>(
                                entry_of(item),
                            ));
                        }
                        done = longer;
                        assert(done + stream.remaining() =~= all);
                    }
                    first = false;
                },
                None => {
                    proof {
                        assert(done =~= all);
                    }
                    break ;
                },
            }
        }
        text
    }
}

/// The text of the range of an entry that may be missing, for debugging:
/// `Some(start..=end)` or `None`.
pub fn cmk_debug_string<T: Integer, V: ValueOwned>(item: &Option<((T, T), V)>) -> (r: String)
    ensures
        r@ == option_range_text(
            match *item {
                Some(entry) => Some(as_ints(entry.0)),
                None => None,
            },
        ),
{
    proof {
        reveal_strlit("Some(");
        reveal_strlit(")");
        reveal_strlit("None");
    }
    let mut text = String::new();
    match item {
        Some(entry) => {
            text.append("Some(");
            push_range(&mut text, entry.0);
            text.append(")");
            proof {
                assert("Some("@ =~= seq!['S', 'o', 'm', 'e', '(']);
                assert(")"@ =~= seq![')']);
                assert(text@ =~= seq!['S', 'o', 'm', 'e', '('] + range_text(as_ints(entry.0))
                    + seq![')']);
            }
        },
        None => {
            text.append("None");
            proof {
                assert("None"@ =~= seq!['N', 'o', 'n', 'e']);
                assert(text@ =~= seq!['N', 'o', 'n', 'e']);
            }
        },
    }
    text
}

/// A map from integers to values, stored as the sorted and disjoint ranges
/// that make it up, each with its value.
pub struct RangeMapBlaze<T: Integer, V: ValueOwned> {
    items: Vec<((T, T), V)>,
    len: UIntPlusOne,
}

/// A canonical stream over the ranges and values of a [`RangeMapBlaze`],
/// which it borrows.
pub struct RangeValuesIter<'a, T: Integer, V: ValueOwned> {
    items: &'a Vec<((T, T), V)>,
    pos: usize,
}

/// A canonical stream over the ranges and values of a [`RangeMapBlaze`],
/// which it has taken over.
pub struct IntoRangeValuesIter<T: Integer, V: ValueOwned> {
    items: Vec<((T, T), V)>,
    pos: usize,
}

/// What is left of a canonical sequence from some place on is canonical.
pub proof fn lemma_sorted_disjoint_map_from<VV>(s: Seq<((int, int), VV)>, from: int)
    requires
        sorted_disjoint_map(s),
        0 <= from <= s.len(),
    ensures
        sorted_disjoint_map(s.skip(from)),
    decreases from,
{
    if from == 0 {
        assert(s.skip(0) =~= s);
    } else {
        lemma_sorted_disjoint_map_from(s, from - 1);
        lemma_sorted_disjoint_map_skip(s.skip(from - 1));
        assert(s.skip(from - 1).skip(1) =~= s.skip(from));
    }
}

impl<'a, T: Integer, V: ValueOwned> AnythingGoesMap<T, V> for RangeValuesIter<'a, T, V> {
    closed spec fn inv(&self) -> bool {
        self.pos <= self.items.len() && sorted_disjoint_map(entries_of(self.items@))
    }

    closed spec fn remaining(&self) -> Seq<((int, int), V::V)> {
        entries_of(self.items@).skip(self.pos as int)
    }

    proof fn lemma_within(&self) {
        let s = self.remaining();
        assert forall|i: int| 0 <= i < s.len() implies T::min_int() <= (#[trigger] s[i]).0.0
            <= T::max_int() && T::min_int() <= s[i].0.1 <= T::max_int() by {
            let r = self.items@[i + self.pos];
            r.0.0.lemma_in_bounds();
            r.0.1.lemma_in_bounds();
        }
    }

    fn next(&mut self) -> (r: Option<((T, T), V)>) {
        if self.pos < self.items.len() {
            let item = range_value_clone(&self.items[self.pos]);
            self.pos = self.pos + 1;
            assert(self.remaining() =~= old(self).remaining().skip(1));
            Some(item)
        } else {
            None
        }
    }
}

impl<'a, T: Integer, V: ValueOwned> SortedStartsMap<T, V> for RangeValuesIter<'a, T, V> {
    proof fn lemma_sorted_starts(&self) {
        self.lemma_sorted_disjoint();
        lemma_sorted_disjoint_map_is_sorted_starts(self.remaining());
    }
}

impl<'a, T: Integer, V: ValueOwned> SortedDisjointMap<T, V> for RangeValuesIter<'a, T, V> {
    proof fn lemma_sorted_disjoint(&self) {
        lemma_sorted_disjoint_map_from(entries_of(self.items@), self.pos as int);
    }
}

impl<T: Integer, V: ValueOwned> AnythingGoesMap<T, V> for IntoRangeValuesIter<T, V> {
    closed spec fn inv(&self) -> bool {
        self.pos <= self.items.len() && sorted_disjoint_map(entries_of(self.items@))
    }

    closed spec fn remaining(&self) -> Seq<((int, int), V::V)> {
        entries_of(self.items@).skip(self.pos as int)
    }

    proof fn lemma_within(&self) {
        let s = self.remaining();
        assert forall|i: int| 0 <= i < s.len() implies T::min_int() <= (#[trigger] s[i]).0.0
            <= T::max_int() && T::min_int() <= s[i].0.1 <= T::max_int() by {
            let r = self.items@[i + self.pos];
            r.0.0.lemma_in_bounds();
            r.0.1.lemma_in_bounds();
        }
    }

    fn next(&mut self) -> (r: Option<((T, T), V)>) {
        if self.pos < self.items.len() {
            let item = range_value_clone(&self.items[self.pos]);
            self.pos = self.pos + 1;
            assert(self.remaining() =~= old(self).remaining().skip(1));
            Some(item)
        } else {
            None
        }
    }
}

impl<T: Integer, V: ValueOwned> SortedStartsMap<T, V> for IntoRangeValuesIter<T, V> {
    proof fn lemma_sorted_starts(&self) {
        self.lemma_sorted_disjoint();
        lemma_sorted_disjoint_map_is_sorted_starts(self.remaining());
    }
}

impl<T: Integer, V: ValueOwned> SortedDisjointMap<T, V> for IntoRangeValuesIter<T, V> {
    proof fn lemma_sorted_disjoint(&self) {
        lemma_sorted_disjoint_map_from(entries_of(self.items@), self.pos as int);
    }
}

impl<T: Integer, V: ValueOwned> RangeMapBlaze<T, V> {
    /// The ranges of the map with their values, in rising order.
    pub closed spec fn entry_seq(&self) -> Seq<((int, int), V::V)> {
        entries_of(self.items@)
    }

    /// The invariant of the map: its entries are in canonical form, and its
    /// length is the number of integers in their ranges.
    pub closed spec fn wf(&self) -> bool {
        &&& sorted_disjoint_map(self.entry_seq())
        &&& self.len.as_int() == total_len(ranges_of(self.entry_seq()))
    }

    /// The empty map.
    pub fn new() -> (r: Self)
        ensures
            r.wf(),
            r.entry_seq() == Seq::<((int, int), V::V)>::empty(),
    {
        let r = RangeMapBlaze { items: Vec::new(), len: UIntPlusOne::zero() };
        assert(r.entry_seq() =~= Seq::empty());
        assert(ranges_of(r.entry_seq()) =~= Seq::empty());
        r
    }

    /// The map of the entries of a canonical stream.
    pub fn from_sorted_disjoint_map<I: SortedDisjointMap<T, V>>(iter: I) -> (r: Self)
        requires
            iter.inv(),
        ensures
            r.wf(),
            r.entry_seq() == iter.remaining(),
    {
        let ghost all = iter.remaining();
        proof {
            iter.lemma_sorted_disjoint();
        }
        let mut counting = SortedDisjointMapWithLenSoFar::from(iter);
        let mut items: Vec<((T, T), V)> = Vec::new();
        proof {
            assert(entries_of(items@) + counting.remaining() =~= all);
        }
        loop
            invariant
                counting.inv(),
                entries_of(items@) + counting.remaining() == all,
                counting.counted() + total_len(ranges_of(counting.remaining())) == total_len(
                    ranges_of(all),
                ),
            ensures
                entries_of(items@) == all,
                counting.counted() == total_len(ranges_of(all)),
            decreases counting.remaining().len(),
        {
            match counting.next() {
                Some(item) => {
                    let ghost before = entries_of(items@);
                    let ghost entry = entry_of(item);
                    items.push(item);
                    proof {
                        assert(entries_of(items@) =~= before.push(entry));
                        assert(entries_of(items@) + counting.remaining() =~= all);
                    }
                },
                None => {
                    proof {
                        assert(entries_of(items@) =~= all);
                        assert(ranges_of(counting.remaining()) =~= Seq::empty());
                    }
                    break ;
                },
            }
        }
        RangeMapBlaze { items, len: counting.len_so_far() }
    }

    /// The map of the ranges and values `items`, which may come in any
    /// order and overlap: where they do, the earlier item gives the value.
    pub fn from_iter(items: Vec<((T, T), V)>) -> (r: Self)
        ensures
            r.wf(),
            r.entry_seq() == union_map_ranges(
                rank_unsorted(entries_of(items@), 0),
                T::min_int(),
                T::max_int(),
            ),
    {
        Self::from_sorted_disjoint_map(UnionIterMap::from_iter(items))
    }

    /// A canonical stream over the ranges and values of the map.
    pub fn range_values(&self) -> (r: RangeValuesIter<'_, T, V>)
        requires
            self.wf(),
        ensures
            r.inv(),
            r.remaining() == self.entry_seq(),
    {
        let r = RangeValuesIter { items: &self.items, pos: 0 };
        assert(r.remaining() =~= self.entry_seq());
        r
    }

    /// A canonical stream over the ranges and values of the map, which is
    /// used up.
    pub fn into_range_values(self) -> (r: IntoRangeValuesIter<T, V>)
        requires
            self.wf(),
        ensures
            r.inv(),
            r.remaining() == self.entry_seq(),
    {
        let r = IntoRangeValuesIter { items: self.items, pos: 0 };
        assert(r.remaining() =~= self.entry_seq());
        r
    }

    /// The number of integers that the map gives a value.
    pub fn len(&self) -> (r: UIntPlusOne)
        requires
            self.wf(),
        ensures
            r.as_int() == total_len(ranges_of(self.entry_seq())),
    {
        self.len
    }

    /// The number of ranges in the map.
    pub fn range_values_len(&self) -> (r: usize)
        ensures
            r == self.entry_seq().len(),
    {
        self.items.len()
    }

    /// The text of the map: its entries as `(start..=end, value)`, joined
    /// by a comma and a space.
    pub fn to_string(&self) -> (r: String)
        requires
            self.wf(),
        ensures
            r@ == entries_text::<V>(self.entry_seq()),
    {
        self.range_values().to_string()
    }
}

/// The map of the entries of a canonical stream.
pub fn into_range_map_blaze<T: Integer, V: ValueOwned, I: SortedDisjointMap<T, V>>(iter: I) -> (r:
    RangeMapBlaze<T, V>)
    requires
        iter.inv(),
    ensures
        r.wf(),
        r.entry_seq() == iter.remaining(),
{
    RangeMapBlaze::from_sorted_disjoint_map(iter)
}

} // verus!
