//! Edge weights: the integer types that the weighted algorithms accept, each
//! read as the mathematical integer it denotes.

use vstd::prelude::*;

verus! {

/// A primitive integer type used as an edge weight or a path cost.
///
/// `val` reads a weight as a mathematical integer; `lo` and `hi` are the
/// bounds of the type. Every operation is stated over `val`.
pub trait Weight: Copy + Sized {
    /// The integer that a weight denotes.
    spec fn val(self) -> int;

    /// The least value of the type.
    spec fn lo() -> int;

    /// The greatest value of the type.
    spec fn hi() -> int;

    /// Every weight lies within the bounds of its type, and the bounds enclose 0.
    proof fn lemma_range(x: Self)
        ensures
            Self::lo() <= x.val() <= Self::hi(),
            Self::lo() <= 0 < Self::hi(),
    ;

    /// Two weights that denote the same integer are the same weight.
    proof fn lemma_injective(x: Self, y: Self)
        ensures
            x.val() == y.val() ==> x == y,
    ;

    /// The weight 0.
    fn zero() -> (r: Self)
        ensures
            r.val() == 0,
    ;

    /// The greatest weight of the type.
    fn max_value() -> (r: Self)
        ensures
            r.val() == Self::hi(),
    ;

    /// The sum of two weights, where it fits in the type.
    fn plus(self, other: Self) -> (r: Self)
        requires
            Self::lo() <= self.val() + other.val() <= Self::hi(),
        ensures
            r.val() == self.val() + other.val(),
    ;

    /// The difference of two weights, where it fits in the type.
    fn minus(self, other: Self) -> (r: Self)
        requires
            Self::lo() <= self.val() - other.val() <= Self::hi(),
        ensures
            r.val() == self.val() - other.val(),
    ;

    /// Whether `self` is strictly below `other`.
    fn lt(&self, other: &Self) -> (r: bool)
        ensures
            r == (self.val() < other.val()),
    ;

    /// Whether `self` is at most `other`.
    fn le(&self, other: &Self) -> (r: bool)
        ensures
            r == (self.val() <= other.val()),
    ;

    /// Whether `self` and `other` are the same weight.
    fn same(&self, other: &Self) -> (r: bool)
        ensures
            r == (self.val() == other.val()),
    ;
}

impl Weight for u8 {
    open spec fn val(self) -> int { self as int }
    open spec fn lo() -> int { 0 }
    open spec fn hi() -> int { u8::MAX as int }
    proof fn lemma_range(x: Self) {}
    proof fn lemma_injective(x: Self, y: Self) {}
    fn zero() -> (r: Self) { 0 }
    fn max_value() -> (r: Self) { u8::MAX }
    fn plus(self, other: Self) -> (r: Self) { self + other }
    fn minus(self, other: Self) -> (r: Self) { self - other }
    fn lt(&self, other: &Self) -> (r: bool) { *self < *other }
    fn le(&self, other: &Self) -> (r: bool) { *self <= *other }
    fn same(&self, other: &Self) -> (r: bool) { *self == *other }
}

impl Weight for u16 {
    open spec fn val(self) -> int { self as int }
    open spec fn lo() -> int { 0 }
    open spec fn hi() -> int { u16::MAX as int }
    proof fn lemma_range(x: Self) {}
    proof fn lemma_injective(x: Self, y: Self) {}
    fn zero() -> (r: Self) { 0 }
    fn max_value() -> (r: Self) { u16::MAX }
    fn plus(self, other: Self) -> (r: Self) { self + other }
    fn minus(self, other: Self) -> (r: Self) { self - other }
    fn lt(&self, other: &Self) -> (r: bool) { *self < *other }
    fn le(&self, other: &Self) -> (r: bool) { *self <= *other }
    fn same(&self, other: &Self) -> (r: bool) { *self == *other }
}

impl Weight for u32 {
    open spec fn val(self) -> int { self as int }
    open spec fn lo() -> int { 0 }
    open spec fn hi() -> int { u32::MAX as int }
    proof fn lemma_range(x: Self) {}
    proof fn lemma_injective(x: Self, y: Self) {}
    fn zero() -> (r: Self) { 0 }
    fn max_value() -> (r: Self) { u32::MAX }
    fn plus(self, other: Self) -> (r: Self) { self + other }
    fn minus(self, other: Self) -> (r: Self) { self - other }
    fn lt(&self, other: &Self) -> (r: bool) { *self < *other }
    fn le(&self, other: &Self) -> (r: bool) { *self <= *other }
    fn same(&self, other: &Self) -> (r: bool) { *self == *other }
}

impl Weight for u64 {
    open spec fn val(self) -> int { self as int }
    open spec fn lo() -> int { 0 }
    open spec fn hi() -> int { u64::MAX as int }
    proof fn lemma_range(x: Self) {}
    proof fn lemma_injective(x: Self, y: Self) {}
    fn zero() -> (r: Self) { 0 }
    fn max_value() -> (r: Self) { u64::MAX }
    fn plus(self, other: Self) -> (r: Self) { self + other }
    fn minus(self, other: Self) -> (r: Self) { self - other }
    fn lt(&self, other: &Self) -> (r: bool) { *self < *other }
    fn le(&self, other: &Self) -> (r: bool) { *self <= *other }
    fn same(&self, other: &Self) -> (r: bool) { *self == *other }
}

impl Weight for usize {
    open spec fn val(self) -> int { self as int }
    open spec fn lo() -> int { 0 }
    open spec fn hi() -> int { usize::MAX as int }
    proof fn lemma_range(x: Self) {}
    proof fn lemma_injective(x: Self, y: Self) {}
    fn zero() -> (r: Self) { 0 }
    fn max_value() -> (r: Self) { usize::MAX }
    fn plus(self, other: Self) -> (r: Self) { self + other }
    fn minus(self, other: Self) -> (r: Self) { self - other }
    fn lt(&self, other: &Self) -> (r: bool) { *self < *other }
    fn le(&self, other: &Self) -> (r: bool) { *self <= *other }
    fn same(&self, other: &Self) -> (r: bool) { *self == *other }
}

impl Weight for i8 {
    open spec fn val(self) -> int { self as int }
    open spec fn lo() -> int { i8::MIN as int }
    open spec fn hi() -> int { i8::MAX as int }
    proof fn lemma_range(x: Self) {}
    proof fn lemma_injective(x: Self, y: Self) {}
    fn zero() -> (r: Self) { 0 }
    fn max_value() -> (r: Self) { i8::MAX }
    fn plus(self, other: Self) -> (r: Self) { self + other }
    fn minus(self, other: Self) -> (r: Self) { self - other }
    fn lt(&self, other: &Self) -> (r: bool) { *self < *other }
    fn le(&self, other: &Self) -> (r: bool) { *self <= *other }
    fn same(&self, other: &Self) -> (r: bool) { *self == *other }
}

impl Weight for i16 {
    open spec fn val(self) -> int { self as int }
    open spec fn lo() -> int { i16::MIN as int }
    open spec fn hi() -> int { i16::MAX as int }
    proof fn lemma_range(x: Self) {}
    proof fn lemma_injective(x: Self, y: Self) {}
    fn zero() -> (r: Self) { 0 }
    fn max_value() -> (r: Self) { i16::MAX }
    fn plus(self, other: Self) -> (r: Self) { self + other }
    fn minus(self, other: Self) -> (r: Self) { self - other }
    fn lt(&self, other: &Self) -> (r: bool) { *self < *other }
    fn le(&self, other: &Self) -> (r: bool) { *self <= *other }
    fn same(&self, other: &Self) -> (r: bool) { *self == *other }
}

impl Weight for i32 {
    open spec fn val(self) -> int { self as int }
    open spec fn lo() -> int { i32::MIN as int }
    open spec fn hi() -> int { i32::MAX as int }
    proof fn lemma_range(x: Self) {}
    proof fn lemma_injective(x: Self, y: Self) {}
    fn zero() -> (r: Self) { 0 }
    fn max_value() -> (r: Self) { i32::MAX }
    fn plus(self, other: Self) -> (r: Self) { self + other }
    fn minus(self, other: Self) -> (r: Self) { self - other }
    fn lt(&self, other: &Self) -> (r: bool) { *self < *other }
    fn le(&self, other: &Self) -> (r: bool) { *self <= *other }
    fn same(&self, other: &Self) -> (r: bool) { *self == *other }
}

impl Weight for i64 {
    open spec fn val(self) -> int { self as int }
    open spec fn lo() -> int { i64::MIN as int }
    open spec fn hi() -> int { i64::MAX as int }
    proof fn lemma_range(x: Self) {}
    proof fn lemma_injective(x: Self, y: Self) {}
    fn zero() -> (r: Self) { 0 }
    fn max_value() -> (r: Self) { i64::MAX }
    fn plus(self, other: Self) -> (r: Self) { self + other }
    fn minus(self, other: Self) -> (r: Self) { self - other }
    fn lt(&self, other: &Self) -> (r: bool) { *self < *other }
    fn le(&self, other: &Self) -> (r: bool) { *self <= *other }
    fn same(&self, other: &Self) -> (r: bool) { *self == *other }
}

impl Weight for u128 {
    open spec fn val(self) -> int { self as int }
    open spec fn lo() -> int { 0 }
    open spec fn hi() -> int { u128::MAX as int }
    proof fn lemma_range(x: Self) {}
    proof fn lemma_injective(x: Self, y: Self) {}
    fn zero() -> (r: Self) { 0 }
    fn max_value() -> (r: Self) { u128::MAX }
    fn plus(self, other: Self) -> (r: Self) { self + other }
    fn minus(self, other: Self) -> (r: Self) { self - other }
    fn lt(&self, other: &Self) -> (r: bool) { *self < *other }
    fn le(&self, other: &Self) -> (r: bool) { *self <= *other }
    fn same(&self, other: &Self) -> (r: bool) { *self == *other }
}

impl Weight for i128 {
    open spec fn val(self) -> int { self as int }
    open spec fn lo() -> int { i128::MIN as int }
    open spec fn hi() -> int { i128::MAX as int }
    proof fn lemma_range(x: Self) {}
    proof fn lemma_injective(x: Self, y: Self) {}
    fn zero() -> (r: Self) { 0 }
    fn max_value() -> (r: Self) { i128::MAX }
    fn plus(self, other: Self) -> (r: Self) { self + other }
    fn minus(self, other: Self) -> (r: Self) { self - other }
    fn lt(&self, other: &Self) -> (r: bool) { *self < *other }
    fn le(&self, other: &Self) -> (r: bool) { *self <= *other }
    fn same(&self, other: &Self) -> (r: bool) { *self == *other }
}

impl Weight for isize {
    open spec fn val(self) -> int { self as int }
    open spec fn lo() -> int { isize::MIN as int }
    open spec fn hi() -> int { isize::MAX as int }
    proof fn lemma_range(x: Self) {}
    proof fn lemma_injective(x: Self, y: Self) {}
    fn zero() -> (r: Self) { 0 }
    fn max_value() -> (r: Self) { isize::MAX }
    fn plus(self, other: Self) -> (r: Self) { self + other }
    fn minus(self, other: Self) -> (r: Self) { self - other }
    fn lt(&self, other: &Self) -> (r: bool) { *self < *other }
    fn le(&self, other: &Self) -> (r: bool) { *self <= *other }
    fn same(&self, other: &Self) -> (r: bool) { *self == *other }
}

} // verus!
