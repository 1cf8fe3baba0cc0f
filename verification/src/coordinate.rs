//! The scalar types that can serve as axis values.
use vstd::prelude::*;

verus! {

/// An integer-like scalar that can be used as a coordinate on either axis.
///
/// Every coordinate stands for a mathematical integer, its `value`. All
/// comparisons and all arithmetic of the geometry are stated over that value,
/// so the rest of the crate never has to know which machine type is in use.
pub trait Coordinate: Copy + Sized {
    /// The integer this coordinate stands for.
    spec fn value(self) -> int;

    /// Whether some coordinate of this type stands for `v`.
    spec fn in_range(v: int) -> bool;

    /// The value of a coordinate is one the type can hold.
    proof fn lemma_value_in_range(c: Self)
        ensures
            Self::in_range(c.value()),
    ;

    /// Two coordinates that stand for the same integer are the same coordinate.
    proof fn lemma_value_injective(a: Self, b: Self)
        requires
            a.value() == b.value(),
        ensures
            a == b,
    ;

    /// The origin of the axis.
    fn zero() -> (r: Self)
        ensures
            r.value() == 0,
    ;

    /// One unit step along the axis.
    fn one() -> (r: Self)
        ensures
            r.value() == 1,
    ;

    /// Whether `self` lies strictly before `rhs` on the axis.
    fn less_than(self, rhs: Self) -> (r: bool)
        ensures
            r == (self.value() < rhs.value()),
    ;

    /// Whether `self` and `rhs` are the same position on the axis.
    fn same_as(self, rhs: Self) -> (r: bool)
        ensures
            r == (self.value() == rhs.value()),
    ;

    /// The sum of two coordinates, where the type can hold it.
    fn plus(self, rhs: Self) -> (r: Self)
        requires
            Self::in_range(self.value() + rhs.value()),
        ensures
            r.value() == self.value() + rhs.value(),
    ;

    /// The difference of two coordinates, where the type can hold it.
    fn minus(self, rhs: Self) -> (r: Self)
        requires
            Self::in_range(self.value() - rhs.value()),
        ensures
            r.value() == self.value() - rhs.value(),
    ;

    /// The product of two coordinates, where the type can hold it.
    fn times(self, rhs: Self) -> (r: Self)
        requires
            Self::in_range(self.value() * rhs.value()),
        ensures
            r.value() == self.value() * rhs.value(),
    ;
}

impl Coordinate for u8 {
    open spec fn value(self) -> int {
        self as int
    }

    open spec fn in_range(v: int) -> bool {
        u8::MIN <= v <= u8::MAX
    }

    proof fn lemma_value_in_range(c: Self) {
    }

    proof fn lemma_value_injective(a: Self, b: Self) {
    }

    fn zero() -> (r: Self) {
        0
    }

    fn one() -> (r: Self) {
        1
    }

    fn less_than(self, rhs: Self) -> (r: bool) {
        self < rhs
    }

    fn same_as(self, rhs: Self) -> (r: bool) {
        self == rhs
    }

    fn plus(self, rhs: Self) -> (r: Self) {
        self + rhs
    }

    fn minus(self, rhs: Self) -> (r: Self) {
        self - rhs
    }

    fn times(self, rhs: Self) -> (r: Self) {
        self * rhs
    }
}

impl Coordinate for u16 {
    open spec fn value(self) -> int {
        self as int
    }

    open spec fn in_range(v: int) -> bool {
        u16::MIN <= v <= u16::MAX
    }

    proof fn lemma_value_in_range(c: Self) {
    }

    proof fn lemma_value_injective(a: Self, b: Self) {
    }

    fn zero() -> (r: Self) {
        0
    }

    fn one() -> (r: Self) {
        1
    }

    fn less_than(self, rhs: Self) -> (r: bool) {
        self < rhs
    }

    fn same_as(self, rhs: Self) -> (r: bool) {
        self == rhs
    }

    fn plus(self, rhs: Self) -> (r: Self) {
        self + rhs
    }

    fn minus(self, rhs: Self) -> (r: Self) {
        self - rhs
    }

    fn times(self, rhs: Self) -> (r: Self) {
        self * rhs
    }
}

impl Coordinate for u32 {
    open spec fn value(self) -> int {
        self as int
    }

    open spec fn in_range(v: int) -> bool {
        u32::MIN <= v <= u32::MAX
    }

    proof fn lemma_value_in_range(c: Self) {
    }

    proof fn lemma_value_injective(a: Self, b: Self) {
    }

    fn zero() -> (r: Self) {
        0
    }

    fn one() -> (r: Self) {
        1
    }

    fn less_than(self, rhs: Self) -> (r: bool) {
        self < rhs
    }

    fn same_as(self, rhs: Self) -> (r: bool) {
        self == rhs
    }

    fn plus(self, rhs: Self) -> (r: Self) {
        self + rhs
    }

    fn minus(self, rhs: Self) -> (r: Self) {
        self - rhs
    }

    fn times(self, rhs: Self) -> (r: Self) {
        self * rhs
    }
}

impl Coordinate for u64 {
    open spec fn value(self) -> int {
        self as int
    }

    open spec fn in_range(v: int) -> bool {
        u64::MIN <= v <= u64::MAX
    }

    proof fn lemma_value_in_range(c: Self) {
    }

    proof fn lemma_value_injective(a: Self, b: Self) {
    }

    fn zero() -> (r: Self) {
        0
    }

    fn one() -> (r: Self) {
        1
    }

    fn less_than(self, rhs: Self) -> (r: bool) {
        self < rhs
    }

    fn same_as(self, rhs: Self) -> (r: bool) {
        self == rhs
    }

    fn plus(self, rhs: Self) -> (r: Self) {
        self + rhs
    }

    fn minus(self, rhs: Self) -> (r: Self) {
        self - rhs
    }

    fn times(self, rhs: Self) -> (r: Self) {
        self * rhs
    }
}

impl Coordinate for usize {
    open spec fn value(self) -> int {
        self as int
    }

    open spec fn in_range(v: int) -> bool {
        usize::MIN <= v <= usize::MAX
    }

    proof fn lemma_value_in_range(c: Self) {
    }

    proof fn lemma_value_injective(a: Self, b: Self) {
    }

    fn zero() -> (r: Self) {
        0
    }

    fn one() -> (r: Self) {
        1
    }

    fn less_than(self, rhs: Self) -> (r: bool) {
        self < rhs
    }

    fn same_as(self, rhs: Self) -> (r: bool) {
        self == rhs
    }

    fn plus(self, rhs: Self) -> (r: Self) {
        self + rhs
    }

    fn minus(self, rhs: Self) -> (r: Self) {
        self - rhs
    }

    fn times(self, rhs: Self) -> (r: Self) {
        self * rhs
    }
}

impl Coordinate for i8 {
    open spec fn value(self) -> int {
        self as int
    }

    open spec fn in_range(v: int) -> bool {
        i8::MIN <= v <= i8::MAX
    }

    proof fn lemma_value_in_range(c: Self) {
    }

    proof fn lemma_value_injective(a: Self, b: Self) {
    }

    fn zero() -> (r: Self) {
        0
    }

    fn one() -> (r: Self) {
        1
    }

    fn less_than(self, rhs: Self) -> (r: bool) {
        self < rhs
    }

    fn same_as(self, rhs: Self) -> (r: bool) {
        self == rhs
    }

    fn plus(self, rhs: Self) -> (r: Self) {
        self + rhs
    }

    fn minus(self, rhs: Self) -> (r: Self) {
        self - rhs
    }

    fn times(self, rhs: Self) -> (r: Self) {
        self * rhs
    }
}

impl Coordinate for i16 {
    open spec fn value(self) -> int {
        self as int
    }

    open spec fn in_range(v: int) -> bool {
        i16::MIN <= v <= i16::MAX
    }

    proof fn lemma_value_in_range(c: Self) {
    }

    proof fn lemma_value_injective(a: Self, b: Self) {
    }

    fn zero() -> (r: Self) {
        0
    }

    fn one() -> (r: Self) {
        1
    }

    fn less_than(self, rhs: Self) -> (r: bool) {
        self < rhs
    }

    fn same_as(self, rhs: Self) -> (r: bool) {
        self == rhs
    }

    fn plus(self, rhs: Self) -> (r: Self) {
        self + rhs
    }

    fn minus(self, rhs: Self) -> (r: Self) {
        self - rhs
    }

    fn times(self, rhs: Self) -> (r: Self) {
        self * rhs
    }
}

impl Coordinate for i32 {
    open spec fn value(self) -> int {
        self as int
    }

    open spec fn in_range(v: int) -> bool {
        i32::MIN <= v <= i32::MAX
    }

    proof fn lemma_value_in_range(c: Self) {
    }

    proof fn lemma_value_injective(a: Self, b: Self) {
    }

    fn zero() -> (r: Self) {
        0
    }

    fn one() -> (r: Self) {
        1
    }

    fn less_than(self, rhs: Self) -> (r: bool) {
        self < rhs
    }

    fn same_as(self, rhs: Self) -> (r: bool) {
        self == rhs
    }

    fn plus(self, rhs: Self) -> (r: Self) {
        self + rhs
    }

    fn minus(self, rhs: Self) -> (r: Self) {
        self - rhs
    }

    fn times(self, rhs: Self) -> (r: Self) {
        self * rhs
    }
}

impl Coordinate for i64 {
    open spec fn value(self) -> int {
        self as int
    }

    open spec fn in_range(v: int) -> bool {
        i64::MIN <= v <= i64::MAX
    }

    proof fn lemma_value_in_range(c: Self) {
    }

    proof fn lemma_value_injective(a: Self, b: Self) {
    }

    fn zero() -> (r: Self) {
        0
    }

    fn one() -> (r: Self) {
        1
    }

    fn less_than(self, rhs: Self) -> (r: bool) {
        self < rhs
    }

    fn same_as(self, rhs: Self) -> (r: bool) {
        self == rhs
    }

    fn plus(self, rhs: Self) -> (r: Self) {
        self + rhs
    }

    fn minus(self, rhs: Self) -> (r: Self) {
        self - rhs
    }

    fn times(self, rhs: Self) -> (r: Self) {
        self * rhs
    }
}

impl Coordinate for isize {
    open spec fn value(self) -> int {
        self as int
    }

    open spec fn in_range(v: int) -> bool {
        isize::MIN <= v <= isize::MAX
    }

    proof fn lemma_value_in_range(c: Self) {
    }

    proof fn lemma_value_injective(a: Self, b: Self) {
    }

    fn zero() -> (r: Self) {
        0
    }

    fn one() -> (r: Self) {
        1
    }

    fn less_than(self, rhs: Self) -> (r: bool) {
        self < rhs
    }

    fn same_as(self, rhs: Self) -> (r: bool) {
        self == rhs
    }

    fn plus(self, rhs: Self) -> (r: Self) {
        self + rhs
    }

    fn minus(self, rhs: Self) -> (r: Self) {
        self - rhs
    }

    fn times(self, rhs: Self) -> (r: Self) {
        self * rhs
    }
}

} // verus!
