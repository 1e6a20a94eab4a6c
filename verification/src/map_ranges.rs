//! The mathematical model of range maps: sequences of ranges that each carry
//! a value, the partial function from integers to values that such a
//! sequence stands for, and the canonical form in which every such function
//! has exactly one sequence.

use crate::ranges::in_range;
use vstd::prelude::*;

verus! {

/// Whether some entry of `s` holds the integer `x` with the value `v`.
pub open spec fn holds<VV>(s: Seq<((int, int), VV)>, x: int, v: VV) -> bool {
    exists|i: int| 0 <= i < s.len() && in_range((#[trigger] s[i]).0, x) && s[i].1 == v
}

/// Whether some entry of `s` holds the integer `x`.
pub open spec fn covers_map<VV>(s: Seq<((int, int), VV)>, x: int) -> bool {
    exists|i: int| 0 <= i < s.len() && in_range((#[trigger] s[i]).0, x)
}

/// The ranges of the entries of `s`.
pub open spec fn ranges_of<VV>(s: Seq<((int, int), VV)>) -> Seq<(int, int)> {
    Seq::new(s.len(), |i: int| s[i].0)
}

/// Whether the range of every entry of `s` lies between `lo` and `hi`.
pub open spec fn all_within_map<VV>(s: Seq<((int, int), VV)>, lo: int, hi: int) -> bool {
    forall|i: int|
        0 <= i < s.len() ==> lo <= (#[trigger] s[i]).0.0 <= hi && lo <= s[i].0.1 <= hi
}

/// Whether every entry of `s` has a non-empty range.
pub open spec fn all_valid_map<VV>(s: Seq<((int, int), VV)>) -> bool {
    forall|i: int| 0 <= i < s.len() ==> (#[trigger] s[i]).0.0 <= s[i].0.1
}

/// Whether the starts of the entries of `s` never decrease.
pub open spec fn sorted_starts_map<VV>(s: Seq<((int, int), VV)>) -> bool {
    forall|i: int, j: int|
        0 <= i < j < s.len() ==> (#[trigger] s[i]).0.0 <= (#[trigger] s[j]).0.0
}

/// The canonical form of a range map: every range is non-empty, each range
/// ends below the start of every later one, and two ranges that touch carry
/// different values.
pub open spec fn sorted_disjoint_map<VV>(s: Seq<((int, int), VV)>) -> bool {
    &&& all_valid_map(s)
    &&& forall|i: int, j: int|
        0 <= i < j < s.len() ==> (#[trigger] s[i]).0.1 < (#[trigger] s[j]).0.0
    &&& forall|i: int|
        0 <= i < s.len() - 1 && (#[trigger] s[i]).0.1 + 1 == s[i + 1].0.0 ==> s[i].1 != s[i
            + 1].1
}

/// What stays of a canonical sequence after its first entry is canonical.
pub proof fn lemma_sorted_disjoint_map_skip<VV>(s: Seq<((int, int), VV)>)
    requires
        sorted_disjoint_map(s),
        s.len() > 0,
    ensures
        sorted_disjoint_map(s.skip(1)),
{
    let t = s.skip(1);
    assert forall|i: int| 0 <= i < t.len() implies (#[trigger] t[i]).0.0 <= t[i].0.1 by {
        assert(t[i] == s[i + 1]);
    }
    assert forall|i: int, j: int| 0 <= i < j < t.len() implies (#[trigger] t[i]).0.1 < (
    #[trigger] t[j]).0.0 by {
        assert(t[i] == s[i + 1]);
        assert(t[j] == s[j + 1]);
    }
    assert forall|i: int|
        0 <= i < t.len() - 1 && (#[trigger] t[i]).0.1 + 1 == t[i + 1].0.0 implies t[i].1 != t[i
        + 1].1 by {
        assert(t[i] == s[i + 1]);
        assert(t[i + 1] == s[i + 2]);
    }
}

/// A sequence holds what its first entry holds and what the rest holds.
pub proof fn lemma_holds_skip<VV>(s: Seq<((int, int), VV)>, x: int, v: VV)
    requires
        s.len() > 0,
    ensures
        holds(s, x, v) == ((in_range(s[0].0, x) && s[0].1 == v) || holds(s.skip(1), x, v)),
{
    let t = s.skip(1);
    if holds(s, x, v) {
        let i = choose|i: int|
            0 <= i < s.len() && in_range((#[trigger] s[i]).0, x) && s[i].1 == v;
        if i > 0 {
            assert(t[i - 1] == s[i]);
        }
    }
    if holds(t, x, v) {
        let i = choose|i: int|
            0 <= i < t.len() && in_range((#[trigger] t[i]).0, x) && t[i].1 == v;
        assert(t[i] == s[i + 1]);
    }
}

/// A canonical sequence stays canonical when an entry with a non-empty range
/// is put in front of it that ends below the start of its first entry, and
/// that carries another value if it touches that entry.
pub proof fn lemma_prepend_canonical_map<VV>(c: ((int, int), VV), t: Seq<((int, int), VV)>)
    requires
        c.0.0 <= c.0.1,
        sorted_disjoint_map(t),
        t.len() > 0 ==> c.0.1 < t[0].0.0,
        t.len() > 0 && c.0.1 + 1 == t[0].0.0 ==> c.1 != t[0].1,
    ensures
        sorted_disjoint_map(seq![c] + t),
{
    let s = seq![c] + t;
    assert forall|i: int| 0 <= i < s.len() implies (#[trigger] s[i]).0.0 <= s[i].0.1 by {
        if i > 0 {
            assert(s[i] == t[i - 1]);
        }
    }
    assert forall|i: int, j: int| 0 <= i < j < s.len() implies (#[trigger] s[i]).0.1 < (
    #[trigger] s[j]).0.0 by {
        assert(s[j] == t[j - 1]);
        if i > 0 {
            assert(s[i] == t[i - 1]);
        } else if j > 1 {
            assert(t[0].0.1 < t[j - 1].0.0);
            assert(t[0].0.0 <= t[0].0.1);
        }
    }
    assert forall|i: int|
        0 <= i < s.len() - 1 && (#[trigger] s[i]).0.1 + 1 == s[i + 1].0.0 implies s[i].1 != s[i
        + 1].1 by {
        assert(s[i + 1] == t[i]);
        if i > 0 {
            assert(s[i] == t[i - 1]);
        }
    }
}

/// In a canonical sequence, what the entries after the first hold lies above
/// the first entry.
pub proof fn lemma_tail_above_head_map<VV>(s: Seq<((int, int), VV)>, x: int)
    requires
        sorted_disjoint_map(s),
        s.len() > 0,
        covers_map(s.skip(1), x),
    ensures
        x > s[0].0.1,
{
    let t = s.skip(1);
    let i = choose|i: int| 0 <= i < t.len() && in_range((#[trigger] t[i]).0, x);
    assert(t[i] == s[i + 1]);
}

/// In a canonical sequence only one entry holds a given integer.
pub proof fn lemma_one_entry_holds<VV>(s: Seq<((int, int), VV)>, i: int, j: int, x: int)
    requires
        sorted_disjoint_map(s),
        0 <= i < s.len(),
        0 <= j < s.len(),
        in_range(s[i].0, x),
        in_range(s[j].0, x),
    ensures
        i == j,
{
    if i < j {
        assert(s[i].0.1 < s[j].0.0);
    }
    if j < i {
        assert(s[j].0.1 < s[i].0.0);
    }
}

/// The first entry of a canonical sequence starts no later than that of
/// another canonical sequence which holds the same integers with the same
/// values; where the two start together, they carry the same value and the
/// first ends no earlier.
proof fn lemma_first_entry_determined<VV>(a: Seq<((int, int), VV)>, b: Seq<((int, int), VV)>)
    requires
        sorted_disjoint_map(a),
        sorted_disjoint_map(b),
        a.len() > 0,
        b.len() > 0,
        forall|x: int, v: VV| holds(a, x, v) == holds(b, x, v),
    ensures
        a[0].0.0 <= b[0].0.0,
        a[0].0.0 == b[0].0.0 ==> a[0].1 == b[0].1 && a[0].0.1 >= b[0].0.1,
{
    let x = b[0].0.0;
    assert(in_range(b[0].0, x));
    assert(holds(b, x, b[0].1));
    assert(holds(a, x, b[0].1));
    let i = choose|i: int|
        0 <= i < a.len() && in_range((#[trigger] a[i]).0, x) && a[i].1 == b[0].1;
    if i > 0 {
        assert(a[0].0.1 < a[i].0.0);
        assert(a[0].0.0 <= a[0].0.1);
    }
    assert(a[0].0.0 <= x);
    if a[0].0.0 == x {
        lemma_one_entry_holds(a, i, 0, x);
    }
    if a[0].0.0 == b[0].0.0 && a[0].0.1 < b[0].0.1 {
        let y = a[0].0.1 + 1;
        assert(in_range(b[0].0, y));
        assert(holds(b, y, b[0].1));
        assert(holds(a, y, b[0].1));
        let k = choose|k: int|
            0 <= k < a.len() && in_range((#[trigger] a[k]).0, y) && a[k].1 == b[0].1;
        assert(k > 0);
        if k > 1 {
            assert(a[1].0.1 < a[k].0.0);
            assert(a[1].0.0 <= a[1].0.1);
            assert(a[0].0.1 < a[1].0.0);
        }
        assert(a[0].0.1 < a[k].0.0);
        assert(k == 1);
        assert(a[0].0.1 + 1 == a[1].0.0);
        assert(a[0int + 1] == a[1]);
        assert(false);
    }
}

/// Every partial function from integers to values has at most one canonical
/// sequence: two canonical sequences that hold the same integers with the
/// same values are equal.
pub proof fn lemma_canonical_map_unique<VV>(a: Seq<((int, int), VV)>, b: Seq<((int, int), VV)>)
    requires
        sorted_disjoint_map(a),
        sorted_disjoint_map(b),
        forall|x: int, v: VV| holds(a, x, v) == holds(b, x, v),
    ensures
        a == b,
    decreases a.len(),
{
    if a.len() == 0 {
        if b.len() > 0 {
            assert(in_range(b[0].0, b[0].0.0));
            assert(holds(b, b[0].0.0, b[0].1));
            assert(!holds(a, b[0].0.0, b[0].1));
        }
        assert(a =~= b);
    } else if b.len() == 0 {
        assert(in_range(a[0].0, a[0].0.0));
        assert(holds(a, a[0].0.0, a[0].1));
        assert(!holds(b, a[0].0.0, a[0].1));
    } else {
        lemma_first_entry_determined(a, b);
        lemma_first_entry_determined(b, a);
        assert(a[0] == b[0]);
        let ta = a.skip(1);
        let tb = b.skip(1);
        lemma_sorted_disjoint_map_skip(a);
        lemma_sorted_disjoint_map_skip(b);
        assert forall|x: int, v: VV| holds(ta, x, v) == holds(tb, x, v) by {
            lemma_holds_skip(a, x, v);
            lemma_holds_skip(b, x, v);
            if holds(ta, x, v) {
                let i = choose|i: int|
                    0 <= i < ta.len() && in_range((#[trigger] ta[i]).0, x) && ta[i].1 == v;
                lemma_tail_above_head_map(a, x);
            }
            if holds(tb, x, v) {
                let i = choose|i: int|
                    0 <= i < tb.len() && in_range((#[trigger] tb[i]).0, x) && tb[i].1 == v;
                lemma_tail_above_head_map(b, x);
            }
        }
        lemma_canonical_map_unique(ta, tb);
        assert(a =~= seq![a[0]] + ta);
        assert(b =~= seq![b[0]] + tb);
    }
}

/// The canonical sequence of the partial function `f` between `lo` and
/// `hi`: its maximal runs of one value, in rising order.
pub open spec fn canonical_map<VV>(f: Map<int, VV>, lo: int, hi: int) -> Seq<((int, int), VV)>
    decreases hi - lo + 1,
{
    if hi < lo {
        Seq::empty()
    } else {
        let below = canonical_map(f, lo, hi - 1);
        if !f.dom().contains(hi) {
            below
        } else if below.len() > 0 && below.last().0.1 == hi - 1 && below.last().1 == f[hi] {
            below.drop_last().push(((below.last().0.0, hi), f[hi]))
        } else {
            below.push(((hi, hi), f[hi]))
        }
    }
}

/// `canonical_map(f, lo, hi)` is in canonical form, lies between `lo` and
/// `hi`, and holds exactly the integers between them that `f` is defined
/// on, each with the value that `f` gives it.
pub proof fn lemma_canonical_map<VV>(f: Map<int, VV>, lo: int, hi: int)
    ensures
        sorted_disjoint_map(canonical_map(f, lo, hi)),
        all_within_map(canonical_map(f, lo, hi), lo, hi),
        forall|x: int, v: VV|
            #![trigger holds(canonical_map(f, lo, hi), x, v)]
            #![trigger f.contains_pair(x, v)]
            holds(canonical_map(f, lo, hi), x, v) == (lo <= x <= hi && f.contains_pair(x, v)),
    decreases hi - lo + 1,
{
    let c = canonical_map(f, lo, hi);
    if hi < lo {
    } else {
        let below = canonical_map(f, lo, hi - 1);
        lemma_canonical_map(f, lo, hi - 1);
        let n = below.len() as int;
        if !f.dom().contains(hi) {
            assert forall|x: int, v: VV| holds(c, x, v) == (lo <= x <= hi && f.contains_pair(x, v)) by {
                if holds(c, x, v) {
                    let i = choose|i: int|
                        0 <= i < c.len() && in_range((#[trigger] c[i]).0, x) && c[i].1 == v;
                    assert(c[i].0.1 <= hi - 1);
                }
            }
            assert forall|i: int| 0 <= i < c.len() implies lo <= (#[trigger] c[i]).0.0 <= hi && lo
                <= c[i].0.1 <= hi by {
                assert(lo <= below[i].0.0 <= hi - 1);
            }
        } else if below.len() > 0 && below.last().0.1 == hi - 1 && below.last().1 == f[hi] {
            let m = n - 1;
            let a = below.last().0.0;
            assert(below.last() == below[m]);
            assert(c.len() == n);
            assert(c[m] == ((a, hi), f[hi]));
            assert forall|i: int| 0 <= i < c.len() implies (#[trigger] c[i]).0.0 <= c[i].0.1 && lo
                <= c[i].0.0 <= hi && lo <= c[i].0.1 <= hi by {
                if i < m {
                    assert(c[i] == below[i]);
                } else {
                    assert(below[m].0.0 <= below[m].0.1);
                }
            }
            assert forall|i: int, j: int| 0 <= i < j < c.len() implies (#[trigger] c[i]).0.1 < (
            #[trigger] c[j]).0.0 by {
                assert(c[i] == below[i]);
                assert(c[j].0.0 == below[j].0.0);
            }
            assert forall|i: int|
                0 <= i < c.len() - 1 && (#[trigger] c[i]).0.1 + 1 == c[i + 1].0.0 implies c[i].1
                != c[i + 1].1 by {
                assert(c[i] == below[i]);
                assert(c[i + 1].0.0 == below[i + 1].0.0);
                assert(c[i + 1].1 == below[i + 1].1);
            }
            assert forall|x: int, v: VV| holds(c, x, v) == (lo <= x <= hi && f.contains_pair(x, v)) by {
                if holds(c, x, v) {
                    let i = choose|i: int|
                        0 <= i < c.len() && in_range((#[trigger] c[i]).0, x) && c[i].1 == v;
                    if i < m {
                        assert(c[i] == below[i]);
                        assert(holds(below, x, v));
                    } else if x < hi {
                        assert(in_range(below[m].0, x));
                        assert(holds(below, x, v));
                    }
                }
                if lo <= x <= hi && f.contains_pair(x, v) {
                    if x == hi {
                        assert(in_range(c[m].0, x));
                    } else {
                        assert(holds(below, x, v));
                        let i = choose|i: int|
                            0 <= i < below.len() && in_range((#[trigger] below[i]).0, x)
                                && below[i].1 == v;
                        if i < m {
                            assert(c[i] == below[i]);
                            assert(in_range(c[i].0, x));
                        } else {
                            assert(in_range(c[m].0, x));
                        }
                    }
                }
            }
        } else {
            assert(c[n] == ((hi, hi), f[hi]));
            assert forall|i: int| 0 <= i < n implies (#[trigger] below[i]).0.1 <= hi - 1 by {}
            assert forall|i: int| 0 <= i < c.len() implies (#[trigger] c[i]).0.0 <= c[i].0.1 && lo
                <= c[i].0.0 <= hi && lo <= c[i].0.1 <= hi by {
                if i < n {
                    assert(c[i] == below[i]);
                    assert(lo <= below[i].0.0 <= hi - 1);
                }
            }
            assert forall|i: int, j: int| 0 <= i < j < c.len() implies (#[trigger] c[i]).0.1 < (
            #[trigger] c[j]).0.0 by {
                assert(c[i] == below[i]);
                if j < n {
                    assert(c[j] == below[j]);
                } else {
                    assert(below[i].0.1 <= hi - 1);
                }
            }
            assert forall|i: int|
                0 <= i < c.len() - 1 && (#[trigger] c[i]).0.1 + 1 == c[i + 1].0.0 implies c[i].1
                != c[i + 1].1 by {
                assert(c[i] == below[i]);
                if i + 1 < n {
                    assert(c[i + 1] == below[i + 1]);
                } else {
                    assert(below.last() == below[n - 1]);
                }
            }
            assert forall|x: int, v: VV| holds(c, x, v) == (lo <= x <= hi && f.contains_pair(x, v)) by {
                if holds(c, x, v) {
                    let i = choose|i: int|
                        0 <= i < c.len() && in_range((#[trigger] c[i]).0, x) && c[i].1 == v;
                    if i < n {
                        assert(c[i] == below[i]);
                        assert(holds(below, x, v));
                    }
                }
                if lo <= x <= hi && f.contains_pair(x, v) {
                    if x == hi {
                        assert(in_range(c[n].0, x));
                    } else {
                        assert(holds(below, x, v));
                        let i = choose|i: int|
                            0 <= i < below.len() && in_range((#[trigger] below[i]).0, x)
                                && below[i].1 == v;
                        assert(c[i] == below[i]);
                        assert(in_range(c[i].0, x));
                    }
                }
            }
        }
    }
}

/// Two partial functions that agree between `lo` and `hi` have the same
/// canonical sequence there.
pub proof fn lemma_canonical_map_ext<VV>(f: Map<int, VV>, g: Map<int, VV>, lo: int, hi: int)
    requires
        forall|x: int|
            lo <= x <= hi ==> (#[trigger] f.dom().contains(x)) == g.dom().contains(x),
        forall|x: int| lo <= x <= hi && #[trigger] f.dom().contains(x) ==> f[x] == g[x],
    ensures
        canonical_map(f, lo, hi) == canonical_map(g, lo, hi),
    decreases hi - lo + 1,
{
    if hi >= lo {
        lemma_canonical_map_ext(f, g, lo, hi - 1);
        assert(f.dom().contains(hi) == g.dom().contains(hi));
    }
}

/// A sequence in canonical form is the canonical sequence of any partial
/// function that gives, between `lo` and `hi`, exactly the integers that it
/// holds the values with which it holds them.
pub proof fn lemma_canonical_map_is<VV>(
    s: Seq<((int, int), VV)>,
    f: Map<int, VV>,
    lo: int,
    hi: int,
)
    requires
        sorted_disjoint_map(s),
        forall|x: int, v: VV| holds(s, x, v) == (lo <= x <= hi && f.contains_pair(x, v)),
    ensures
        canonical_map(f, lo, hi) == s,
{
    lemma_canonical_map(f, lo, hi);
    lemma_canonical_map_unique(canonical_map(f, lo, hi), s);
}

/// Where `g` gives the integers of the non-empty range of `first` the value
/// of `first` and is otherwise `f`, which is defined only above that range
/// and gives the integer just above it, if any value, another value than
/// that of `first`, the canonical sequence of `g` is `first` followed by
/// that of `f`.
pub proof fn lemma_canonical_map_first<VV>(
    g: Map<int, VV>,
    first: ((int, int), VV),
    f: Map<int, VV>,
    lo: int,
    hi: int,
)
    requires
        lo <= first.0.0 <= first.0.1 <= hi,
        forall|x: int, v: VV|
            lo <= x <= hi ==> #[trigger] g.contains_pair(x, v) == ((in_range(first.0, x) && v
                == first.1) || f.contains_pair(x, v)),
        forall|x: int| lo <= x <= hi && #[trigger] f.dom().contains(x) ==> x > first.0.1,
        first.0.1 + 1 <= hi && f.dom().contains(first.0.1 + 1) ==> f[first.0.1 + 1] != first.1,
    ensures
        canonical_map(g, lo, hi) == seq![first] + canonical_map(f, lo, hi),
{
    let t = canonical_map(f, lo, hi);
    let s = seq![first] + t;
    lemma_canonical_map(f, lo, hi);
    if t.len() > 0 {
        let x = t[0].0.0;
        assert(in_range(t[0].0, x));
        assert(holds(t, x, t[0].1));
        assert(f.contains_pair(x, t[0].1));
        assert(f.dom().contains(x));
    }
    lemma_prepend_canonical_map(first, t);
    assert forall|x: int, v: VV| holds(s, x, v) == (lo <= x <= hi && g.contains_pair(x, v)) by {
        lemma_holds_skip(s, x, v);
        assert(s.skip(1) =~= t);
        assert(s[0] == first);
        if lo <= x <= hi {
            assert(g.contains_pair(x, v) == ((in_range(first.0, x) && v == first.1)
                || f.contains_pair(x, v)));
        }
    }
    lemma_canonical_map_is(s, g, lo, hi);
}

/// The canonical sequence of a partial function that is defined nowhere
/// between `lo` and `hi` is empty.
pub proof fn lemma_canonical_map_empty<VV>(f: Map<int, VV>, lo: int, hi: int)
    requires
        forall|x: int| lo <= x <= hi ==> !#[trigger] f.dom().contains(x),
    ensures
        canonical_map(f, lo, hi) == Seq::<((int, int), VV)>::empty(),
{
    let e = Seq::<((int, int), VV)>::empty();
    assert forall|x: int, v: VV| holds(e, x, v) == (lo <= x <= hi && f.contains_pair(x, v)) by {
        if lo <= x <= hi && f.contains_pair(x, v) {
            assert(f.dom().contains(x));
        }
    }
    lemma_canonical_map_is(e, f, lo, hi);
}

/// The sequence of one entry, or of none.
pub open spec fn opt_seq_map<VV>(o: Option<((int, int), VV)>) -> Seq<((int, int), VV)> {
    match o {
        Some(r) => seq![r],
        None => Seq::empty(),
    }
}

} // verus!
