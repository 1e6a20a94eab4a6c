use range_set_blaze::{AssumeSortedStarts, SymDiffIter, VecRangeIter};
use range_set_blaze::RangeIter;

fn sorted_starts(ranges: Vec<(i32, i32)>) -> AssumeSortedStarts<i32, VecRangeIter<i32>> {
    AssumeSortedStarts::new(VecRangeIter::new(ranges))
}

#[test]
fn sdi1() {
    let a = sorted_starts(vec![(157, 158), (158, 158)]);
    let mut iter = SymDiffIter::new(a);
    assert_eq!(iter.next(), Some((157, 157)));
    assert_eq!(iter.next(), None);

    let a = sorted_starts(vec![(0, 0), (0, 0), (0, 1), (2, 100)]);
    let mut iter = SymDiffIter::new(a);
    assert_eq!(iter.next(), Some((0, 100)));
    assert_eq!(iter.next(), None);

    let a = sorted_starts(vec![(0, 0), (0, 1), (2, 100)]);
    let mut iter = SymDiffIter::new(a);
    assert_eq!(iter.next(), Some((1, 100)));
    assert_eq!(iter.next(), None);

    let a = sorted_starts(vec![(0, 0), (0, 0), (2, 100)]);
    let mut iter = SymDiffIter::new(a);
    assert_eq!(iter.next(), Some((2, 100)));
    assert_eq!(iter.next(), None);

    let a = sorted_starts(vec![(0, 0), (0, 0), (0, 0), (2, 100)]);
    let mut iter = SymDiffIter::new(a);
    assert_eq!(iter.next(), Some((0, 0)));
    assert_eq!(iter.next(), Some((2, 100)));
    assert_eq!(iter.next(), None);
    {
        let a = sorted_starts(vec![(0, 1), (0, 0)]);
        let mut iter = SymDiffIter::new(a);
        assert_eq!(iter.next(), Some((1, 1)));
        assert_eq!(iter.next(), None);

        let a = sorted_starts(vec![(0, 1), (0, 0), (0, 0)]);
        let mut iter = SymDiffIter::new(a);
        assert_eq!(iter.next(), Some((0, 1)));
        assert_eq!(iter.next(), None);

        let a = sorted_starts(vec![(0, 0), (0, 0), (0, 0)]);
        let mut iter = SymDiffIter::new(a);
        assert_eq!(iter.next(), Some((0, 0)));
        assert_eq!(iter.next(), None);

        let a = sorted_starts(vec![(0, 0), (0, 0)]);
        let mut iter = SymDiffIter::new(a);
        assert_eq!(iter.next(), None);

        let a = sorted_starts(vec![(0, 0), (1, 1)]);
        let mut iter = SymDiffIter::new(a);
        assert_eq!(iter.next(), Some((0, 1)));
        assert_eq!(iter.next(), None);

        let a = sorted_starts(vec![(0, 0), (1, 1)]);
        let mut iter = SymDiffIter::new(a);
        assert_eq!(iter.next(), Some((0, 1)));
        assert_eq!(iter.next(), None);

        let a = sorted_starts(vec![(0, 0), (2, 2)]);
        let mut iter = SymDiffIter::new(a);
        assert_eq!(iter.next(), Some((0, 0)));
        assert_eq!(iter.next(), Some((2, 2)));
        assert_eq!(iter.next(), None);

        let a = sorted_starts(vec![(0, 0)]);
        let mut iter = SymDiffIter::new(a);
        assert_eq!(iter.next(), Some((0, 0)));
        assert_eq!(iter.next(), None);

        let a = sorted_starts(vec![]);
        let iter = SymDiffIter::new(a);
        let v = range_set_blaze::collect_ranges(iter);
        assert_eq!(v, vec![]);
    }
}
