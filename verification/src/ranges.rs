//! The mathematical model: sequences of inclusive integer ranges, the set of
//! integers that such a sequence covers, and the canonical form in which
//! every set has exactly one sequence.

use vstd::prelude::*;

verus! {

/// Whether the integer `x` lies in the inclusive range `r`.
pub open spec fn in_range(r: (int, int), x: int) -> bool {
    r.0 <= x <= r.1
}

/// Whether some range of `s` holds `x`.
pub open spec fn covers(s: Seq<(int, int)>, x: int) -> bool {
    exists|i: int| 0 <= i < s.len() && in_range(#[trigger] s[i], x)
}

/// The number of ranges of `s` that hold `x`.
pub open spec fn cover_count(s: Seq<(int, int)>, x: int) -> nat
    decreases s.len(),
{
    if s.len() == 0 {
        0
    } else {
        cover_count(s.drop_last(), x) + if in_range(s.last(), x) {
            1nat
        } else {
            0nat
        }
    }
}

/// Whether every range of `s` has its start at or below its end.
pub open spec fn all_valid(s: Seq<(int, int)>) -> bool {
    forall|i: int| 0 <= i < s.len() ==> (#[trigger] s[i]).0 <= s[i].1
}

/// Whether every range of `s` lies between `lo` and `hi`.
pub open spec fn all_within(s: Seq<(int, int)>, lo: int, hi: int) -> bool {
    forall|i: int|
        0 <= i < s.len() ==> lo <= (#[trigger] s[i]).0 <= hi && lo <= s[i].1 <= hi
}

/// Whether the starts of `s` never decrease.
pub open spec fn sorted_starts(s: Seq<(int, int)>) -> bool {
    forall|i: int, j: int| 0 <= i < j < s.len() ==> (#[trigger] s[i]).0 <= (#[trigger] s[j]).0
}

/// The canonical form: every range is non-empty, and each range ends at
/// least two below the start of every later one, so that ranges neither
/// overlap nor touch.
pub open spec fn sorted_disjoint(s: Seq<(int, int)>) -> bool {
    &&& all_valid(s)
    &&& forall|i: int, j: int|
        0 <= i < j < s.len() ==> (#[trigger] s[i]).1 + 1 < (#[trigger] s[j]).0
}

/// The total number of integers in the ranges of `s`, each counted as often
/// as it occurs.
pub open spec fn total_len(s: Seq<(int, int)>) -> int
    decreases s.len(),
{
    if s.len() == 0 {
        0
    } else {
        total_len(s.drop_last()) + if s.last().0 <= s.last().1 {
            s.last().1 - s.last().0 + 1
        } else {
            0
        }
    }
}

/// A canonical sequence is sorted by start.
pub proof fn lemma_sorted_disjoint_is_sorted_starts(s: Seq<(int, int)>)
    requires
        sorted_disjoint(s),
    ensures
        sorted_starts(s),
{
    assert forall|i: int, j: int| 0 <= i < j < s.len() implies (#[trigger] s[i]).0 <= (
    #[trigger] s[j]).0 by {
        assert(s[i].0 <= s[i].1);
    }
}

/// What stays of a canonical sequence after its first range is canonical.
pub proof fn lemma_sorted_disjoint_skip(s: Seq<(int, int)>)
    requires
        sorted_disjoint(s),
        s.len() > 0,
    ensures
        sorted_disjoint(s.skip(1)),
{
    let t = s.skip(1);
    assert forall|i: int| 0 <= i < t.len() implies (#[trigger] t[i]).0 <= t[i].1 by {
        assert(t[i] == s[i + 1]);
    }
    assert forall|i: int, j: int| 0 <= i < j < t.len() implies (#[trigger] t[i]).1 + 1 < (
    #[trigger] t[j]).0 by {
        assert(t[i] == s[i + 1]);
        assert(t[j] == s[j + 1]);
    }
}

/// What stays of a sequence sorted by start after its first range is sorted
/// by start.
pub proof fn lemma_sorted_starts_skip(s: Seq<(int, int)>)
    requires
        sorted_starts(s),
        s.len() > 0,
    ensures
        sorted_starts(s.skip(1)),
{
    let t = s.skip(1);
    assert forall|i: int, j: int| 0 <= i < j < t.len() implies (#[trigger] t[i]).0 <= (
    #[trigger] t[j]).0 by {
        assert(t[i] == s[i + 1]);
        assert(t[j] == s[j + 1]);
    }
}

/// A sequence covers what its first range holds and what the rest covers.
pub proof fn lemma_covers_skip(s: Seq<(int, int)>, x: int)
    requires
        s.len() > 0,
    ensures
        covers(s, x) == (in_range(s[0], x) || covers(s.skip(1), x)),
{
    let t = s.skip(1);
    if covers(s, x) {
        let i = choose|i: int| 0 <= i < s.len() && in_range(#[trigger] s[i], x);
        if i > 0 {
            assert(t[i - 1] == s[i]);
        }
    }
    if covers(t, x) {
        let i = choose|i: int| 0 <= i < t.len() && in_range(#[trigger] t[i], x);
        assert(t[i] == s[i + 1]);
    }
}

/// A concatenation covers what either part covers.
pub proof fn lemma_covers_concat(a: Seq<(int, int)>, b: Seq<(int, int)>, x: int)
    ensures
        covers(a + b, x) == (covers(a, x) || covers(b, x)),
{
    let s = a + b;
    if covers(s, x) {
        let i = choose|i: int| 0 <= i < s.len() && in_range(#[trigger] s[i], x);
        if i < a.len() {
            assert(a[i] == s[i]);
        } else {
            assert(b[i - a.len()] == s[i]);
        }
    }
    if covers(a, x) {
        let i = choose|i: int| 0 <= i < a.len() && in_range(#[trigger] a[i], x);
        assert(s[i] == a[i]);
    }
    if covers(b, x) {
        let i = choose|i: int| 0 <= i < b.len() && in_range(#[trigger] b[i], x);
        assert(s[i + a.len()] == b[i]);
    }
}

/// Every set of integers has at most one canonical sequence: two canonical
/// sequences that cover the same integers are equal.
pub proof fn lemma_canonical_unique(a: Seq<(int, int)>, b: Seq<(int, int)>)
    requires
        sorted_disjoint(a),
        sorted_disjoint(b),
        forall|x: int| covers(a, x) == covers(b, x),
    ensures
        a == b,
    decreases a.len(),
{
    if a.len() == 0 {
        if b.len() > 0 {
            assert(in_range(b[0], b[0].0));
            assert(covers(b, b[0].0));
            assert(!covers(a, b[0].0));
        }
        assert(a =~= b);
    } else if b.len() == 0 {
        assert(in_range(a[0], a[0].0));
        assert(covers(a, a[0].0));
        assert(!covers(b, a[0].0));
    } else {
        lemma_first_range_determined(a, b);
        lemma_first_range_determined(b, a);
        assert(a[0] == b[0]);
        let ta = a.skip(1);
        let tb = b.skip(1);
        lemma_sorted_disjoint_skip(a);
        lemma_sorted_disjoint_skip(b);
        assert forall|x: int| covers(ta, x) == covers(tb, x) by {
            lemma_covers_skip(a, x);
            lemma_covers_skip(b, x);
            if covers(ta, x) {
                lemma_tail_above_head(a, x);
            }
            if covers(tb, x) {
                lemma_tail_above_head(b, x);
            }
        }
        lemma_canonical_unique(ta, tb);
        assert(a =~= seq![a[0]] + ta);
        assert(b =~= seq![b[0]] + tb);
    }
}

/// In a canonical sequence, what the ranges after the first cover lies
/// above the first range.
pub proof fn lemma_tail_above_head(s: Seq<(int, int)>, x: int)
    requires
        sorted_disjoint(s),
        s.len() > 0,
        covers(s.skip(1), x),
    ensures
        x > s[0].1 + 1,
{
    let t = s.skip(1);
    let i = choose|i: int| 0 <= i < t.len() && in_range(#[trigger] t[i], x);
    assert(t[i] == s[i + 1]);
}

/// The first range of a canonical sequence starts no later, and ends no
/// earlier, than that of another canonical sequence which covers the same
/// integers.
proof fn lemma_first_range_determined(a: Seq<(int, int)>, b: Seq<(int, int)>)
    requires
        sorted_disjoint(a),
        sorted_disjoint(b),
        a.len() > 0,
        b.len() > 0,
        forall|x: int| covers(a, x) == covers(b, x),
    ensures
        a[0].0 <= b[0].0,
        a[0].1 >= b[0].1,
{
    // the start of b's first range is covered by a, and nothing in a lies below a[0].0
    assert(in_range(b[0], b[0].0));
    assert(covers(b, b[0].0));
    assert(covers(a, b[0].0));
    let i = choose|i: int| 0 <= i < a.len() && in_range(#[trigger] a[i], b[0].0);
    assert(a[0].0 <= a[i].0) by {
        lemma_sorted_disjoint_is_sorted_starts(a);
    }
    // symmetric: a[0].0 is covered by b
    assert(in_range(a[0], a[0].0));
    assert(covers(a, a[0].0));
    assert(covers(b, a[0].0));
    let j = choose|j: int| 0 <= j < b.len() && in_range(#[trigger] b[j], a[0].0);
    assert(b[0].0 <= b[j].0) by {
        lemma_sorted_disjoint_is_sorted_starts(b);
    }
    assert(a[0].0 == b[0].0);
    // the end: suppose a[0].1 < b[0].1; then a[0].1 + 1 is covered by b, so by a,
    // but every later range of a starts above a[0].1 + 1
    if a[0].1 < b[0].1 {
        let y = a[0].1 + 1;
        assert(in_range(b[0], y));
        assert(covers(b, y));
        assert(covers(a, y));
        let k = choose|k: int| 0 <= k < a.len() && in_range(#[trigger] a[k], y);
        if k > 0 {
            assert(a[0].1 + 1 < a[k].0);
        }
        assert(false);
    }
}

} // verus!

verus! {

/// A canonical sequence stays canonical when a non-empty range is put in
/// front of it that ends at least two below the start of its first range.
pub proof fn lemma_prepend_canonical(c: (int, int), t: Seq<(int, int)>)
    requires
        c.0 <= c.1,
        sorted_disjoint(t),
        t.len() > 0 ==> c.1 + 1 < t[0].0,
    ensures
        sorted_disjoint(seq![c] + t),
{
    let s = seq![c] + t;
    lemma_sorted_disjoint_is_sorted_starts(t);
    assert forall|i: int| 0 <= i < s.len() implies (#[trigger] s[i]).0 <= s[i].1 by {
        if i > 0 {
            assert(s[i] == t[i - 1]);
        }
    }
    assert forall|i: int, j: int| 0 <= i < j < s.len() implies (#[trigger] s[i]).1 + 1 < (
    #[trigger] s[j]).0 by {
        assert(s[j] == t[j - 1]);
        if i > 0 {
            assert(s[i] == t[i - 1]);
        } else {
            assert(t[0].0 <= t[j - 1].0);
        }
    }
}

/// The larger of two integers.
pub open spec fn max_int(a: int, b: int) -> int {
    if a >= b {
        a
    } else {
        b
    }
}

/// The smaller of two integers.
pub open spec fn min_int(a: int, b: int) -> int {
    if a <= b {
        a
    } else {
        b
    }
}

} // verus!

verus! {

/// The canonical sequence of the integers of `f` between `lo` and `hi`: their
/// maximal runs, in rising order.
pub open spec fn canonical(f: Set<int>, lo: int, hi: int) -> Seq<(int, int)>
    decreases hi - lo + 1,
{
    if hi < lo {
        Seq::empty()
    } else {
        let below = canonical(f, lo, hi - 1);
        if !f.contains(hi) {
            below
        } else if below.len() > 0 && below.last().1 == hi - 1 {
            below.drop_last().push((below.last().0, hi))
        } else {
            below.push((hi, hi))
        }
    }
}

/// `canonical(f, lo, hi)` is in canonical form, lies between `lo` and `hi`,
/// and covers exactly the integers of `f` between them.
pub proof fn lemma_canonical(f: Set<int>, lo: int, hi: int)
    ensures
        sorted_disjoint(canonical(f, lo, hi)),
        all_within(canonical(f, lo, hi), lo, hi),
        forall|x: int|
            #![trigger covers(canonical(f, lo, hi), x)]
            #![trigger f.contains(x)]
            covers(canonical(f, lo, hi), x) == (lo <= x <= hi && f.contains(x)),
    decreases hi - lo + 1,
{
    let c = canonical(f, lo, hi);
    if hi < lo {
    } else {
        let below = canonical(f, lo, hi - 1);
        lemma_canonical(f, lo, hi - 1);
        if !f.contains(hi) {
            assert forall|x: int| covers(c, x) == (lo <= x <= hi && f.contains(x)) by {
                if covers(c, x) {
                    let i = choose|i: int| 0 <= i < c.len() && in_range(#[trigger] c[i], x);
                    assert(c[i].1 <= hi - 1);
                }
            }
            assert forall|i: int| 0 <= i < c.len() implies lo <= (#[trigger] c[i]).0 <= hi && lo
                <= c[i].1 <= hi by {
                assert(lo <= below[i].0 <= hi - 1);
            }
        } else if below.len() > 0 && below.last().1 == hi - 1 {
            let n = below.len() - 1;
            let a = below.last().0;
            assert(c.len() == below.len());
            assert(c[n] == (a, hi));
            assert forall|i: int| 0 <= i < c.len() implies (#[trigger] c[i]).0 <= c[i].1 && lo
                <= c[i].0 <= hi && lo <= c[i].1 <= hi by {
                if i < n {
                    assert(c[i] == below[i]);
                } else {
                    assert(below[n].0 <= below[n].1);
                }
            }
            assert forall|i: int, j: int| 0 <= i < j < c.len() implies (#[trigger] c[i]).1 + 1 < (
            #[trigger] c[j]).0 by {
                assert(c[i] == below[i]);
                assert(c[j].0 == below[j].0);
            }
            assert forall|x: int| covers(c, x) == (lo <= x <= hi && f.contains(x)) by {
                if covers(c, x) {
                    let i = choose|i: int| 0 <= i < c.len() && in_range(#[trigger] c[i], x);
                    if i < n {
                        assert(c[i] == below[i]);
                        assert(covers(below, x));
                    } else if x < hi {
                        assert(in_range(below[n], x));
                        assert(covers(below, x));
                    }
                }
                if lo <= x <= hi && f.contains(x) {
                    if x == hi {
                        assert(in_range(c[n], x));
                    } else {
                        assert(covers(below, x));
                        let i = choose|i: int| 0 <= i < below.len() && in_range(
                            #[trigger] below[i],
                            x,
                        );
                        if i < n {
                            assert(c[i] == below[i]);
                            assert(in_range(c[i], x));
                        } else {
                            assert(in_range(c[n], x));
                        }
                    }
                }
            }
        } else {
            let n = below.len() as int;
            assert(c[n] == (hi, hi));
            assert forall|i: int| 0 <= i < c.len() implies (#[trigger] c[i]).0 <= c[i].1 && lo
                <= c[i].0 <= hi && lo <= c[i].1 <= hi by {
                if i < n {
                    assert(c[i] == below[i]);
                    assert(lo <= below[i].0 <= hi - 1);
                }
            }
            assert forall|i: int, j: int| 0 <= i < j < c.len() implies (#[trigger] c[i]).1 + 1 < (
            #[trigger] c[j]).0 by {
                assert(c[i] == below[i]);
                if j < n {
                    assert(c[j] == below[j]);
                } else {
                    // below[i] ends no later than the last range of below, which ends below hi - 1
                    assert(below[i].1 <= hi - 1);
                    if i < n - 1 {
                        assert(below[i].1 + 1 < below[n - 1].0);
                        assert(below[n - 1].0 <= below[n - 1].1);
                    }
                    assert(below[n - 1].1 <= hi - 1);
                    assert(below.last() == below[n - 1]);
                }
            }
            assert forall|x: int| covers(c, x) == (lo <= x <= hi && f.contains(x)) by {
                if covers(c, x) {
                    let i = choose|i: int| 0 <= i < c.len() && in_range(#[trigger] c[i], x);
                    if i < n {
                        assert(c[i] == below[i]);
                        assert(covers(below, x));
                    }
                }
                if lo <= x <= hi && f.contains(x) {
                    if x == hi {
                        assert(in_range(c[n], x));
                    } else {
                        assert(covers(below, x));
                        let i = choose|i: int| 0 <= i < below.len() && in_range(
                            #[trigger] below[i],
                            x,
                        );
                        assert(c[i] == below[i]);
                        assert(in_range(c[i], x));
                    }
                }
            }
        }
    }
}

/// Two sets that agree between `lo` and `hi` have the same canonical
/// sequence there.
pub proof fn lemma_canonical_ext(f: Set<int>, g: Set<int>, lo: int, hi: int)
    requires
        forall|x: int| lo <= x <= hi ==> f.contains(x) == g.contains(x),
    ensures
        canonical(f, lo, hi) == canonical(g, lo, hi),
    decreases hi - lo + 1,
{
    if hi >= lo {
        lemma_canonical_ext(f, g, lo, hi - 1);
    }
}

/// A sequence in canonical form is the canonical sequence of any set that
/// holds, between `lo` and `hi`, exactly the integers that it covers.
pub proof fn lemma_canonical_is(s: Seq<(int, int)>, f: Set<int>, lo: int, hi: int)
    requires
        sorted_disjoint(s),
        forall|x: int| covers(s, x) == (lo <= x <= hi && f.contains(x)),
    ensures
        canonical(f, lo, hi) == s,
{
    lemma_canonical(f, lo, hi);
    lemma_canonical_unique(canonical(f, lo, hi), s);
}

/// Where `g` holds exactly the integers of the non-empty range `first` and
/// those of `f`, all of which lie at least two above `first`, the canonical
/// sequence of `g` is `first` followed by that of `f`.
pub proof fn lemma_canonical_first(
    g: Set<int>,
    first: (int, int),
    f: Set<int>,
    lo: int,
    hi: int,
)
    requires
        lo <= first.0 <= first.1 <= hi,
        forall|x: int| lo <= x <= hi ==> g.contains(x) == (in_range(first, x) || f.contains(x)),
        forall|x: int| lo <= x <= hi && f.contains(x) ==> x > first.1 + 1,
    ensures
        canonical(g, lo, hi) == seq![first] + canonical(f, lo, hi),
{
    let t = canonical(f, lo, hi);
    let s = seq![first] + t;
    lemma_canonical(f, lo, hi);
    if t.len() > 0 {
        assert(in_range(t[0], t[0].0));
        assert(covers(t, t[0].0));
    }
    lemma_prepend_canonical(first, t);
    assert forall|x: int| covers(s, x) == (lo <= x <= hi && g.contains(x)) by {
        lemma_covers_concat(seq![first], t, x);
        if covers(seq![first], x) {
            let i = choose|i: int| 0 <= i < 1 && in_range(#[trigger] seq![first][i], x);
        }
        if in_range(first, x) {
            assert(in_range(seq![first][0], x));
        }
    }
    lemma_canonical_is(s, g, lo, hi);
}

/// The canonical sequence of a set that holds no integer between `lo` and
/// `hi` is empty.
pub proof fn lemma_canonical_empty(f: Set<int>, lo: int, hi: int)
    requires
        forall|x: int| lo <= x <= hi ==> !f.contains(x),
    ensures
        canonical(f, lo, hi) == Seq::<(int, int)>::empty(),
{
    let e = Seq::<(int, int)>::empty();
    lemma_canonical_is(e, f, lo, hi);
}

/// The count of a concatenation is the sum of the counts of its parts.
pub proof fn lemma_cover_count_concat(a: Seq<(int, int)>, b: Seq<(int, int)>, x: int)
    ensures
        cover_count(a + b, x) == cover_count(a, x) + cover_count(b, x),
    decreases b.len(),
{
    if b.len() == 0 {
        assert(a + b =~= a);
    } else {
        assert((a + b).drop_last() =~= a + b.drop_last());
        assert((a + b).last() == b.last());
        lemma_cover_count_concat(a, b.drop_last(), x);
    }
}

/// A sequence that covers `x` no time at all does not cover it, and the
/// other way round.
pub proof fn lemma_cover_count_zero(s: Seq<(int, int)>, x: int)
    ensures
        (cover_count(s, x) == 0) == !covers(s, x),
    decreases s.len(),
{
    if s.len() > 0 {
        let t = s.drop_last();
        lemma_cover_count_zero(t, x);
        if covers(s, x) {
            let i = choose|i: int| 0 <= i < s.len() && in_range(#[trigger] s[i], x);
            if i < t.len() {
                assert(t[i] == s[i]);
            }
        }
        if covers(t, x) {
            let i = choose|i: int| 0 <= i < t.len() && in_range(#[trigger] t[i], x);
            assert(t[i] == s[i]);
        }
        if in_range(s.last(), x) {
            assert(in_range(s[s.len() - 1], x));
        }
    }
}

} // verus!

verus! {

/// The set of the integers that the ranges of `s` cover.
pub open spec fn points(s: Seq<(int, int)>) -> Set<int> {
    Set::new(|x: int| covers(s, x))
}

/// The set of the integers that an odd number of the ranges of `s` hold.
pub open spec fn odd_points(s: Seq<(int, int)>) -> Set<int> {
    Set::new(|x: int| cover_count(s, x) % 2 == 1)
}

/// Whether no range of `s` starts below `lo`.
pub open spec fn starts_from(s: Seq<(int, int)>, lo: int) -> bool {
    forall|i: int| 0 <= i < s.len() ==> lo <= (#[trigger] s[i]).0
}

/// The sequence of one range, or of none.
pub open spec fn opt_seq(o: Option<(int, int)>) -> Seq<(int, int)> {
    match o {
        Some(r) => seq![r],
        None => Seq::empty(),
    }
}

/// Ranges that all start above `x` do not hold `x`.
pub proof fn lemma_cover_count_below(s: Seq<(int, int)>, x: int)
    requires
        starts_from(s, x + 1),
    ensures
        cover_count(s, x) == 0,
    decreases s.len(),
{
    if s.len() > 0 {
        let t = s.drop_last();
        assert forall|i: int| 0 <= i < t.len() implies x + 1 <= (#[trigger] t[i]).0 by {
            assert(t[i] == s[i]);
        }
        lemma_cover_count_below(t, x);
        assert(s.last() == s[s.len() - 1]);
    }
}

/// Ranges that all hold `x` hold it as many times as there are ranges.
pub proof fn lemma_cover_count_all(s: Seq<(int, int)>, x: int)
    requires
        forall|i: int| 0 <= i < s.len() ==> in_range(#[trigger] s[i], x),
    ensures
        cover_count(s, x) == s.len(),
    decreases s.len(),
{
    if s.len() > 0 {
        let t = s.drop_last();
        assert forall|i: int| 0 <= i < t.len() implies in_range(#[trigger] t[i], x) by {
            assert(t[i] == s[i]);
        }
        lemma_cover_count_all(t, x);
        assert(s.last() == s[s.len() - 1]);
    }
}

} // verus!

verus! {

/// The number of integers in the range `r`.
pub open spec fn range_len(r: (int, int)) -> int {
    if r.0 <= r.1 {
        r.1 - r.0 + 1
    } else {
        0
    }
}

/// The total length of a sequence is the length of its first range and the
/// total length of the rest.
pub proof fn lemma_total_len_skip(s: Seq<(int, int)>)
    requires
        s.len() > 0,
    ensures
        total_len(s) == range_len(s[0]) + total_len(s.skip(1)),
    decreases s.len(),
{
    if s.len() == 1 {
        assert(s.drop_last() =~= Seq::empty());
        assert(s.skip(1) =~= Seq::empty());
    } else {
        let t = s.drop_last();
        lemma_total_len_skip(t);
        assert(t[0] == s[0]);
        assert(s.skip(1).drop_last() =~= t.skip(1));
        assert(s.skip(1).last() == s.last());
    }
}

/// Whether the ranges of `s` are non-empty and each ends below the start of
/// every later one. They may touch.
pub open spec fn sorted_apart(s: Seq<(int, int)>) -> bool {
    &&& all_valid(s)
    &&& forall|i: int, j: int| 0 <= i < j < s.len() ==> (#[trigger] s[i]).1 < (#[trigger] s[j]).0
}

/// The ranges of a canonical sequence are apart.
pub proof fn lemma_sorted_disjoint_is_apart(s: Seq<(int, int)>)
    requires
        sorted_disjoint(s),
    ensures
        sorted_apart(s),
{
    assert forall|i: int, j: int| 0 <= i < j < s.len() implies (#[trigger] s[i]).1 < (
    #[trigger] s[j]).0 by {
        assert(s[i].1 + 1 < s[j].0);
    }
}

/// Ranges between `lo` and `hi` that are apart hold no more integers than
/// there are between `lo` and `hi`.
pub proof fn lemma_total_len_apart(s: Seq<(int, int)>, lo: int, hi: int)
    requires
        sorted_apart(s),
        all_within(s, lo, hi),
        lo <= hi + 1,
    ensures
        0 <= total_len(s) <= hi - lo + 1,
    decreases s.len(),
{
    if s.len() > 0 {
        let t = s.drop_last();
        let last = s.last();
        assert(last == s[s.len() - 1]);
        assert(last.0 <= last.1);
        if t.len() > 0 {
            assert(t[0] == s[0]);
            assert(s[0].1 < last.0);
            assert(s[0].0 <= s[0].1);
            assert forall|i: int| 0 <= i < t.len() implies (#[trigger] t[i]).0 <= t[i].1 && lo
                <= t[i].0 <= last.0 - 1 && lo <= t[i].1 <= last.0 - 1 by {
                assert(t[i] == s[i]);
                assert(s[i].1 < s[s.len() - 1].0);
            }
            assert forall|i: int, j: int| 0 <= i < j < t.len() implies (#[trigger] t[i]).1 < (
            #[trigger] t[j]).0 by {
                assert(t[i] == s[i]);
                assert(t[j] == s[j]);
            }
            lemma_total_len_apart(t, lo, last.0 - 1);
        } else {
            assert(total_len(t) == 0);
        }
    }
}

/// The ranges of a canonical sequence between `lo` and `hi` hold no more
/// integers than there are between `lo` and `hi`.
pub proof fn lemma_total_len_bound(s: Seq<(int, int)>, lo: int, hi: int)
    requires
        sorted_disjoint(s),
        all_within(s, lo, hi),
        lo <= hi + 1,
    ensures
        0 <= total_len(s) <= hi - lo + 1,
{
    lemma_sorted_disjoint_is_apart(s);
    lemma_total_len_apart(s, lo, hi);
}

} // verus!

verus! {

/// Taking the range at `i` out of a sequence lowers the count of `x` by one
/// if that range holds `x`, and leaves it as it is if not.
pub proof fn lemma_cover_count_remove(s: Seq<(int, int)>, i: int, x: int)
    requires
        0 <= i < s.len(),
    ensures
        cover_count(s, x) == cover_count(s.remove(i), x) + if in_range(s[i], x) {
            1nat
        } else {
            0nat
        },
{
    let a = s.take(i);
    let b = s.skip(i + 1);
    let one = seq![s[i]];
    assert(s =~= a + one + b);
    assert(s.remove(i) =~= a + b);
    lemma_cover_count_concat(a + one, b, x);
    lemma_cover_count_concat(a, one, x);
    lemma_cover_count_concat(a, b, x);
    assert(one.drop_last() =~= Seq::empty());
    assert(one.last() == s[i]);
    assert(cover_count(one.drop_last(), x) == 0);
    assert(cover_count(one, x) == if in_range(s[i], x) {
        1nat
    } else {
        0nat
    });
}

/// Two sequences that hold the same ranges, each as often as the other, hold
/// every integer equally often.
pub proof fn lemma_cover_count_permutation(a: Seq<(int, int)>, b: Seq<(int, int)>, x: int)
    requires
        a.to_multiset() == b.to_multiset(),
    ensures
        cover_count(a, x) == cover_count(b, x),
    decreases a.len(),
{
    broadcast use vstd::seq_lib::group_to_multiset_ensures;

    a.to_multiset_ensures();
    b.to_multiset_ensures();
    if a.len() == 0 {
        assert(b.len() == 0);
    } else {
        let v = a.last();
        let a1 = a.drop_last();
        assert(a =~= a1.push(v));
        assert(a.contains(v)) by {
            assert(a[a.len() - 1] == v);
        }
        assert(b.to_multiset().count(v) > 0);
        assert(b.contains(v));
        let i = choose|i: int| 0 <= i < b.len() && b[i] == v;
        let b1 = b.remove(i);
        a1.to_multiset_ensures();
        assert(a1.to_multiset() =~= a.to_multiset().remove(v));
        assert(b1.to_multiset() =~= b.to_multiset().remove(v));
        lemma_cover_count_permutation(a1, b1, x);
        lemma_cover_count_remove(b, i, x);
    }
}

/// Two sequences that hold the same ranges, each as often as the other,
/// cover the same integers.
pub proof fn lemma_covers_permutation(a: Seq<(int, int)>, b: Seq<(int, int)>, x: int)
    requires
        a.to_multiset() == b.to_multiset(),
    ensures
        covers(a, x) == covers(b, x),
{
    lemma_cover_count_permutation(a, b, x);
    lemma_cover_count_zero(a, x);
    lemma_cover_count_zero(b, x);
}

} // verus!
