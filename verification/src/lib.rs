//! Sets and maps of integers stored as sorted, disjoint, inclusive ranges,
//! together with the lazy range algebra (union, complement, symmetric
//! difference, merge) that works on streams of such ranges.

pub mod integer;
pub mod intersection_iter_map;
pub mod laws;
pub mod map;
pub mod map_blaze;
pub mod map_ranges;
pub mod merge;
pub mod merge_map;
pub mod not_iter;
pub mod ops;
pub mod range_values;
pub mod ranges;
pub mod set;
pub mod sorted_disjoint;
pub mod sorted_disjoint_iter;
pub mod sorted_disjoint_map;
pub mod sorting;
pub mod sym_diff_iter;
pub mod text;
pub mod union_iter;
pub mod union_iter_map;
pub mod unsorted_disjoint;
pub mod unsorted_disjoint_map;

pub use integer::{Integer, UIntPlusOne};
pub use intersection_iter_map::{
    complement_map, complement_to_set, difference_map, difference_with_set, intersection_map,
    intersection_with_set, into_sorted_disjoint, is_empty_map, BitAndRangesMap, BitSubRangesMap,
    IntersectionIterMap,
};
pub use map::ValueOwned;
pub use map_blaze::{
    cmk_debug_string, into_range_map_blaze, DebugToString, IntoRangeValuesIter, RangeMapBlaze,
    RangeValuesIter,
};
pub use merge::{KMerge, Merge};
pub use merge_map::{collect_with_priority, KMergeMap, MergeMap};
pub use not_iter::NotIter;
pub use ops::{
    complement, difference, intersection, is_empty, symmetric_difference, union, union_k,
    BitAndMerge, BitOrKMerge, BitOrMerge, BitSubMerge,
};
pub use range_values::{
    non_zero_checked_sub, AdjustPriorityMap, NonZeroEnumerate, RangeValuesToRangesIter,
};
pub use set::{RangeSetBlaze, RangesIter};
pub use sorted_disjoint::{
    collect_ranges, equal, is_sorted_disjoint, CheckSortedDisjoint, RangeIter, SortedDisjoint,
    SortedStarts, VecRangeIter,
};
pub use sorted_disjoint_iter::SortedDisjointIter;
pub use sorted_disjoint_map::{
    equal_map, is_sorted_disjoint_map, range_value_clone, AnythingGoesMap,
    CheckSortedDisjointMap, Priority, PrioritySortedDisjointMap, PrioritySortedStartsMap,
    RangeToRangeValueIter, SortedDisjointMap, SortedStartsMap, VecMapIter,
};
pub use sorting::{priority_start_order, priority_starts_before, start_order, starts_before};
pub use sym_diff_iter::{min_next_end, SymDiffIter, SymDiffIterKMerge, SymDiffIterMerge};
pub use text::ranges_to_string;
pub use union_iter::{SortedRangeInclusiveVec, UnionIter};
pub use union_iter_map::{BitOrMapKMerge, BitOrMapMerge, SortedStartsInVecMap, UnionIterMap};
pub use unsorted_disjoint::{AssumeSortedStarts, SortedDisjointWithLenSoFar, UnsortedDisjoint};
pub use unsorted_disjoint_map::{
    AssumePrioritySortedStartsMap, SortedDisjointMapWithLenSoFar, UnsortedPriorityDisjointMap,
};
