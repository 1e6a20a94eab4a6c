//! The integer element types of a range, and the length type that can count
//! every element of any of them.

use vstd::prelude::*;

verus! {

/// The number of values of the widest element type: `2^128`.
pub open spec fn max_plus_one() -> int {
    0x1_0000_0000_0000_0000_0000_0000_0000_0000int
}

/// A count between `0` and `2^128` inclusive: the number of integers in a
/// range, or in a whole set of ranges, of any element type.
#[derive(Clone, Copy, Debug, PartialEq, Eq, Structural)]
pub enum UIntPlusOne {
    /// A count that fits in `u128`.
    UInt(u128),
    /// The count `2^128`, one more than `u128::MAX`.
    MaxPlusOne,
}

impl UIntPlusOne {
    /// The count as a mathematical integer.
    pub open spec fn as_int(self) -> int {
        match self {
            UIntPlusOne::UInt(v) => v as int,
            UIntPlusOne::MaxPlusOne => max_plus_one(),
        }
    }

    /// The count zero.
    pub fn zero() -> (r: Self)
        ensures
            r.as_int() == 0,
    {
        UIntPlusOne::UInt(0)
    }

    /// The count `span + 1`: the length of a range whose last element lies
    /// `span` above its first.
    pub fn from_span(span: u128) -> (r: Self)
        ensures
            r.as_int() == span + 1,
    {
        if span == u128::MAX {
            UIntPlusOne::MaxPlusOne
        } else {
            UIntPlusOne::UInt(span + 1)
        }
    }

    /// The sum of two counts whose total does not exceed `2^128`.
    pub fn plus(self, other: Self) -> (r: Self)
        requires
            self.as_int() + other.as_int() <= max_plus_one(),
        ensures
            r.as_int() == self.as_int() + other.as_int(),
    {
        match (self, other) {
            (UIntPlusOne::UInt(a), UIntPlusOne::UInt(b)) => {
                if a <= u128::MAX - b {
                    UIntPlusOne::UInt(a + b)
                } else {
                    UIntPlusOne::MaxPlusOne
                }
            },
            (UIntPlusOne::MaxPlusOne, _) => UIntPlusOne::MaxPlusOne,
            (_, UIntPlusOne::MaxPlusOne) => UIntPlusOne::MaxPlusOne,
        }
    }
}

/// An integer type whose values can be the elements of a range.
///
/// Every value stands for the mathematical integer `as_int`, and the type
/// holds exactly the integers from `min_int` to `max_int`.
pub trait Integer: Copy + Sized {
    /// The mathematical integer that a value stands for.
    spec fn as_int(self) -> int;

    /// The smallest integer of the type.
    spec fn min_int() -> int;

    /// The largest integer of the type.
    spec fn max_int() -> int;

    /// Every value lies within the bounds of its type.
    proof fn lemma_in_bounds(self)
        ensures
            Self::min_int() <= self.as_int() <= Self::max_int(),
    ;

    /// Two values that stand for the same integer are the same value.
    proof fn lemma_as_int_injective(a: Self, b: Self)
        requires
            a.as_int() == b.as_int(),
        ensures
            a == b,
    ;

    /// Every type holds at least three integers and at most `2^128`.
    proof fn lemma_domain_size()
        ensures
            Self::min_int() + 2 <= Self::max_int(),
            Self::max_int() - Self::min_int() < max_plus_one(),
    ;

    /// The smallest value of the type.
    fn min_value() -> (r: Self)
        ensures
            r.as_int() == Self::min_int(),
    ;

    /// The largest value of the type.
    fn max_value() -> (r: Self)
        ensures
            r.as_int() == Self::max_int(),
    ;

    /// The successor of a value that is not the largest.
    fn add_one(self) -> (r: Self)
        requires
            self.as_int() < Self::max_int(),
        ensures
            r.as_int() == self.as_int() + 1,
    ;

    /// The predecessor of a value that is not the smallest.
    fn sub_one(self) -> (r: Self)
        requires
            self.as_int() > Self::min_int(),
        ensures
            r.as_int() == self.as_int() - 1,
    ;

    /// Whether `self` is smaller than `other`.
    fn is_lt(self, other: Self) -> (b: bool)
        ensures
            b == (self.as_int() < other.as_int()),
    ;

    /// Whether `self` is equal to `other`.
    fn is_eq(self, other: Self) -> (b: bool)
        ensures
            b == (self.as_int() == other.as_int()),
    ;

    /// Whether `self` is smaller than or equal to `other`.
    fn is_le(self, other: Self) -> (b: bool)
        ensures
            b == (self.as_int() <= other.as_int()),
    ;

    /// How far `end` lies above `start`.
    fn span(start: Self, end: Self) -> (r: u128)
        requires
            start.as_int() <= end.as_int(),
        ensures
            r == end.as_int() - start.as_int(),
    ;

    /// The sign and the absolute value of `self`.
    fn sign_and_magnitude(self) -> (r: (bool, u128))
        ensures
            r.0 == (self.as_int() < 0),
            r.1 == if self.as_int() < 0 {
                -self.as_int()
            } else {
                self.as_int()
            },
    ;
}

impl Integer for i8 {
    open spec fn as_int(self) -> int {
        self as int
    }

    open spec fn min_int() -> int {
        i8::MIN as int
    }

    open spec fn max_int() -> int {
        i8::MAX as int
    }

    proof fn lemma_in_bounds(self) {
    }

    proof fn lemma_as_int_injective(a: Self, b: Self) {
    }

    proof fn lemma_domain_size() {
    }

    fn min_value() -> (r: Self) {
        i8::MIN
    }

    fn max_value() -> (r: Self) {
        i8::MAX
    }

    fn add_one(self) -> (r: Self) {
        self + 1
    }

    fn sub_one(self) -> (r: Self) {
        self - 1
    }

    fn is_lt(self, other: Self) -> (b: bool) {
        self < other
    }

    fn is_eq(self, other: Self) -> (b: bool) {
        self == other
    }

    fn is_le(self, other: Self) -> (b: bool) {
        self <= other
    }

    fn span(start: Self, end: Self) -> (r: u128) {
        (end as i128 - start as i128) as u128
    }

    fn sign_and_magnitude(self) -> (r: (bool, u128)) {
        if self < 0 {
            (true, (-(self as i128)) as u128)
        } else {
            (false, self as u128)
        }
    }
}

impl Integer for u8 {
    open spec fn as_int(self) -> int {
        self as int
    }

    open spec fn min_int() -> int {
        u8::MIN as int
    }

    open spec fn max_int() -> int {
        u8::MAX as int
    }

    proof fn lemma_in_bounds(self) {
    }

    proof fn lemma_as_int_injective(a: Self, b: Self) {
    }

    proof fn lemma_domain_size() {
    }

    fn min_value() -> (r: Self) {
        u8::MIN
    }

    fn max_value() -> (r: Self) {
        u8::MAX
    }

    fn add_one(self) -> (r: Self) {
        self + 1
    }

    fn sub_one(self) -> (r: Self) {
        self - 1
    }

    fn is_lt(self, other: Self) -> (b: bool) {
        self < other
    }

    fn is_eq(self, other: Self) -> (b: bool) {
        self == other
    }

    fn is_le(self, other: Self) -> (b: bool) {
        self <= other
    }

    fn span(start: Self, end: Self) -> (r: u128) {
        (end - start) as u128
    }

    fn sign_and_magnitude(self) -> (r: (bool, u128)) {
        (false, self as u128)
    }
}

impl Integer for i16 {
    open spec fn as_int(self) -> int {
        self as int
    }

    open spec fn min_int() -> int {
        i16::MIN as int
    }

    open spec fn max_int() -> int {
        i16::MAX as int
    }

    proof fn lemma_in_bounds(self) {
    }

    proof fn lemma_as_int_injective(a: Self, b: Self) {
    }

    proof fn lemma_domain_size() {
    }

    fn min_value() -> (r: Self) {
        i16::MIN
    }

    fn max_value() -> (r: Self) {
        i16::MAX
    }

    fn add_one(self) -> (r: Self) {
        self + 1
    }

    fn sub_one(self) -> (r: Self) {
        self - 1
    }

    fn is_lt(self, other: Self) -> (b: bool) {
        self < other
    }

    fn is_eq(self, other: Self) -> (b: bool) {
        self == other
    }

    fn is_le(self, other: Self) -> (b: bool) {
        self <= other
    }

    fn span(start: Self, end: Self) -> (r: u128) {
        (end as i128 - start as i128) as u128
    }

    fn sign_and_magnitude(self) -> (r: (bool, u128)) {
        if self < 0 {
            (true, (-(self as i128)) as u128)
        } else {
            (false, self as u128)
        }
    }
}

impl Integer for u16 {
    open spec fn as_int(self) -> int {
        self as int
    }

    open spec fn min_int() -> int {
        u16::MIN as int
    }

    open spec fn max_int() -> int {
        u16::MAX as int
    }

    proof fn lemma_in_bounds(self) {
    }

    proof fn lemma_as_int_injective(a: Self, b: Self) {
    }

    proof fn lemma_domain_size() {
    }

    fn min_value() -> (r: Self) {
        u16::MIN
    }

    fn max_value() -> (r: Self) {
        u16::MAX
    }

    fn add_one(self) -> (r: Self) {
        self + 1
    }

    fn sub_one(self) -> (r: Self) {
        self - 1
    }

    fn is_lt(self, other: Self) -> (b: bool) {
        self < other
    }

    fn is_eq(self, other: Self) -> (b: bool) {
        self == other
    }

    fn is_le(self, other: Self) -> (b: bool) {
        self <= other
    }

    fn span(start: Self, end: Self) -> (r: u128) {
        (end - start) as u128
    }

    fn sign_and_magnitude(self) -> (r: (bool, u128)) {
        (false, self as u128)
    }
}

impl Integer for i32 {
    open spec fn as_int(self) -> int {
        self as int
    }

    open spec fn min_int() -> int {
        i32::MIN as int
    }

    open spec fn max_int() -> int {
        i32::MAX as int
    }

    proof fn lemma_in_bounds(self) {
    }

    proof fn lemma_as_int_injective(a: Self, b: Self) {
    }

    proof fn lemma_domain_size() {
    }

    fn min_value() -> (r: Self) {
        i32::MIN
    }

    fn max_value() -> (r: Self) {
        i32::MAX
    }

    fn add_one(self) -> (r: Self) {
        self + 1
    }

    fn sub_one(self) -> (r: Self) {
        self - 1
    }

    fn is_lt(self, other: Self) -> (b: bool) {
        self < other
    }

    fn is_eq(self, other: Self) -> (b: bool) {
        self == other
    }

    fn is_le(self, other: Self) -> (b: bool) {
        self <= other
    }

    fn span(start: Self, end: Self) -> (r: u128) {
        (end as i128 - start as i128) as u128
    }

    fn sign_and_magnitude(self) -> (r: (bool, u128)) {
        if self < 0 {
            (true, (-(self as i128)) as u128)
        } else {
            (false, self as u128)
        }
    }
}

impl Integer for u32 {
    open spec fn as_int(self) -> int {
        self as int
    }

    open spec fn min_int() -> int {
        u32::MIN as int
    }

    open spec fn max_int() -> int {
        u32::MAX as int
    }

    proof fn lemma_in_bounds(self) {
    }

    proof fn lemma_as_int_injective(a: Self, b: Self) {
    }

    proof fn lemma_domain_size() {
    }

    fn min_value() -> (r: Self) {
        u32::MIN
    }

    fn max_value() -> (r: Self) {
        u32::MAX
    }

    fn add_one(self) -> (r: Self) {
        self + 1
    }

    fn sub_one(self) -> (r: Self) {
        self - 1
    }

    fn is_lt(self, other: Self) -> (b: bool) {
        self < other
    }

    fn is_eq(self, other: Self) -> (b: bool) {
        self == other
    }

    fn is_le(self, other: Self) -> (b: bool) {
        self <= other
    }

    fn span(start: Self, end: Self) -> (r: u128) {
        (end - start) as u128
    }

    fn sign_and_magnitude(self) -> (r: (bool, u128)) {
        (false, self as u128)
    }
}

impl Integer for i64 {
    open spec fn as_int(self) -> int {
        self as int
    }

    open spec fn min_int() -> int {
        i64::MIN as int
    }

    open spec fn max_int() -> int {
        i64::MAX as int
    }

    proof fn lemma_in_bounds(self) {
    }

    proof fn lemma_as_int_injective(a: Self, b: Self) {
    }

    proof fn lemma_domain_size() {
    }

    fn min_value() -> (r: Self) {
        i64::MIN
    }

    fn max_value() -> (r: Self) {
        i64::MAX
    }

    fn add_one(self) -> (r: Self) {
        self + 1
    }

    fn sub_one(self) -> (r: Self) {
        self - 1
    }

    fn is_lt(self, other: Self) -> (b: bool) {
        self < other
    }

    fn is_eq(self, other: Self) -> (b: bool) {
        self == other
    }

    fn is_le(self, other: Self) -> (b: bool) {
        self <= other
    }

    fn span(start: Self, end: Self) -> (r: u128) {
        (end as i128 - start as i128) as u128
    }

    fn sign_and_magnitude(self) -> (r: (bool, u128)) {
        if self < 0 {
            (true, (-(self as i128)) as u128)
        } else {
            (false, self as u128)
        }
    }
}

impl Integer for u64 {
    open spec fn as_int(self) -> int {
        self as int
    }

    open spec fn min_int() -> int {
        u64::MIN as int
    }

    open spec fn max_int() -> int {
        u64::MAX as int
    }

    proof fn lemma_in_bounds(self) {
    }

    proof fn lemma_as_int_injective(a: Self, b: Self) {
    }

    proof fn lemma_domain_size() {
    }

    fn min_value() -> (r: Self) {
        u64::MIN
    }

    fn max_value() -> (r: Self) {
        u64::MAX
    }

    fn add_one(self) -> (r: Self) {
        self + 1
    }

    fn sub_one(self) -> (r: Self) {
        self - 1
    }

    fn is_lt(self, other: Self) -> (b: bool) {
        self < other
    }

    fn is_eq(self, other: Self) -> (b: bool) {
        self == other
    }

    fn is_le(self, other: Self) -> (b: bool) {
        self <= other
    }

    fn span(start: Self, end: Self) -> (r: u128) {
        (end - start) as u128
    }

    fn sign_and_magnitude(self) -> (r: (bool, u128)) {
        (false, self as u128)
    }
}

impl Integer for i128 {
    open spec fn as_int(self) -> int {
        self as int
    }

    open spec fn min_int() -> int {
        i128::MIN as int
    }

    open spec fn max_int() -> int {
        i128::MAX as int
    }

    proof fn lemma_in_bounds(self) {
    }

    proof fn lemma_as_int_injective(a: Self, b: Self) {
    }

    proof fn lemma_domain_size() {
    }

    fn min_value() -> (r: Self) {
        i128::MIN
    }

    fn max_value() -> (r: Self) {
        i128::MAX
    }

    fn add_one(self) -> (r: Self) {
        self + 1
    }

    fn sub_one(self) -> (r: Self) {
        self - 1
    }

    fn is_lt(self, other: Self) -> (b: bool) {
        self < other
    }

    fn is_eq(self, other: Self) -> (b: bool) {
        self == other
    }

    fn is_le(self, other: Self) -> (b: bool) {
        self <= other
    }

    fn span(start: Self, end: Self) -> (r: u128) {
        if start >= 0 || end < 0 {
            (end - start) as u128
        } else {
            let below: u128 = (-(start + 1)) as u128;
            (end as u128) + below + 1
        }
    }

    fn sign_and_magnitude(self) -> (r: (bool, u128)) {
        if self < 0 {
            let below: u128 = (-(self + 1)) as u128;
            (true, below + 1)
        } else {
            (false, self as u128)
        }
    }
}

impl Integer for u128 {
    open spec fn as_int(self) -> int {
        self as int
    }

    open spec fn min_int() -> int {
        u128::MIN as int
    }

    open spec fn max_int() -> int {
        u128::MAX as int
    }

    proof fn lemma_in_bounds(self) {
    }

    proof fn lemma_as_int_injective(a: Self, b: Self) {
    }

    proof fn lemma_domain_size() {
    }

    fn min_value() -> (r: Self) {
        u128::MIN
    }

    fn max_value() -> (r: Self) {
        u128::MAX
    }

    fn add_one(self) -> (r: Self) {
        self + 1
    }

    fn sub_one(self) -> (r: Self) {
        self - 1
    }

    fn is_lt(self, other: Self) -> (b: bool) {
        self < other
    }

    fn is_eq(self, other: Self) -> (b: bool) {
        self == other
    }

    fn is_le(self, other: Self) -> (b: bool) {
        self <= other
    }

    fn span(start: Self, end: Self) -> (r: u128) {
        end - start
    }

    fn sign_and_magnitude(self) -> (r: (bool, u128)) {
        (false, self)
    }
}

impl Integer for isize {
    open spec fn as_int(self) -> int {
        self as int
    }

    open spec fn min_int() -> int {
        isize::MIN as int
    }

    open spec fn max_int() -> int {
        isize::MAX as int
    }

    proof fn lemma_in_bounds(self) {
    }

    proof fn lemma_as_int_injective(a: Self, b: Self) {
    }

    proof fn lemma_domain_size() {
    }

    fn min_value() -> (r: Self) {
        isize::MIN
    }

    fn max_value() -> (r: Self) {
        isize::MAX
    }

    fn add_one(self) -> (r: Self) {
        self + 1
    }

    fn sub_one(self) -> (r: Self) {
        self - 1
    }

    fn is_lt(self, other: Self) -> (b: bool) {
        self < other
    }

    fn is_eq(self, other: Self) -> (b: bool) {
        self == other
    }

    fn is_le(self, other: Self) -> (b: bool) {
        self <= other
    }

    fn span(start: Self, end: Self) -> (r: u128) {
        (end as i128 - start as i128) as u128
    }

    fn sign_and_magnitude(self) -> (r: (bool, u128)) {
        if self < 0 {
            (true, (-(self as i128)) as u128)
        } else {
            (false, self as u128)
        }
    }
}

impl Integer for usize {
    open spec fn as_int(self) -> int {
        self as int
    }

    open spec fn min_int() -> int {
        usize::MIN as int
    }

    open spec fn max_int() -> int {
        usize::MAX as int
    }

    proof fn lemma_in_bounds(self) {
    }

    proof fn lemma_as_int_injective(a: Self, b: Self) {
    }

    proof fn lemma_domain_size() {
    }

    fn min_value() -> (r: Self) {
        usize::MIN
    }

    fn max_value() -> (r: Self) {
        usize::MAX
    }

    fn add_one(self) -> (r: Self) {
        self + 1
    }

    fn sub_one(self) -> (r: Self) {
        self - 1
    }

    fn is_lt(self, other: Self) -> (b: bool) {
        self < other
    }

    fn is_eq(self, other: Self) -> (b: bool) {
        self == other
    }

    fn is_le(self, other: Self) -> (b: bool) {
        self <= other
    }

    fn span(start: Self, end: Self) -> (r: u128) {
        (end - start) as u128
    }

    fn sign_and_magnitude(self) -> (r: (bool, u128)) {
        (false, self as u128)
    }
}

} // verus!
