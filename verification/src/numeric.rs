//! Integer types that `sum` and `product` fold over.
//!
//! A `Numeric` value has a mathematical value (`value`) and a range of
//! representable values; its checked operations give the exact result or
//! report that it does not fit.

use vstd::prelude::*;

verus! {

/// An integer type with checked addition and multiplication.
pub trait Numeric: Sized + Copy {
    /// The mathematical value.
    spec fn value(self) -> int;

    /// Whether the type can represent `v`.
    spec fn fits(v: int) -> bool;

    /// Zero, the neutral element of addition.
    fn zero() -> (r: Self)
        ensures
            r.value() == 0,
    ;

    /// One, the neutral element of multiplication.
    fn one() -> (r: Self)
        ensures
            r.value() == 1,
    ;

    /// The sum, or `None` when it does not fit.
    fn add_checked(self, other: Self) -> (r: Option<Self>)
        ensures
            match r {
                Some(v) => v.value() == self.value() + other.value(),
                None => !Self::fits(self.value() + other.value()),
            },
    ;

    /// The product, or `None` when it does not fit.
    fn mul_checked(self, other: Self) -> (r: Option<Self>)
        ensures
            match r {
                Some(v) => v.value() == self.value() * other.value(),
                None => !Self::fits(self.value() * other.value()),
            },
    ;
}

impl Numeric for i8 {
    open spec fn value(self) -> int {
        self as int
    }

    open spec fn fits(v: int) -> bool {
        i8::MIN <= v <= i8::MAX
    }

    fn zero() -> (r: i8) {
        0
    }

    fn one() -> (r: i8) {
        1
    }

    fn add_checked(self, other: i8) -> (r: Option<i8>) {
        self.checked_add(other)
    }

    fn mul_checked(self, other: i8) -> (r: Option<i8>) {
        self.checked_mul(other)
    }
}

impl Numeric for i16 {
    open spec fn value(self) -> int {
        self as int
    }

    open spec fn fits(v: int) -> bool {
        i16::MIN <= v <= i16::MAX
    }

    fn zero() -> (r: i16) {
        0
    }

    fn one() -> (r: i16) {
        1
    }

    fn add_checked(self, other: i16) -> (r: Option<i16>) {
        self.checked_add(other)
    }

    fn mul_checked(self, other: i16) -> (r: Option<i16>) {
        self.checked_mul(other)
    }
}

impl Numeric for i32 {
    open spec fn value(self) -> int {
        self as int
    }

    open spec fn fits(v: int) -> bool {
        i32::MIN <= v <= i32::MAX
    }

    fn zero() -> (r: i32) {
        0
    }

    fn one() -> (r: i32) {
        1
    }

    fn add_checked(self, other: i32) -> (r: Option<i32>) {
        self.checked_add(other)
    }

    fn mul_checked(self, other: i32) -> (r: Option<i32>) {
        self.checked_mul(other)
    }
}

impl Numeric for i64 {
    open spec fn value(self) -> int {
        self as int
    }

    open spec fn fits(v: int) -> bool {
        i64::MIN <= v <= i64::MAX
    }

    fn zero() -> (r: i64) {
        0
    }

    fn one() -> (r: i64) {
        1
    }

    fn add_checked(self, other: i64) -> (r: Option<i64>) {
        self.checked_add(other)
    }

    fn mul_checked(self, other: i64) -> (r: Option<i64>) {
        self.checked_mul(other)
    }
}

impl Numeric for isize {
    open spec fn value(self) -> int {
        self as int
    }

    open spec fn fits(v: int) -> bool {
        isize::MIN <= v <= isize::MAX
    }

    fn zero() -> (r: isize) {
        0
    }

    fn one() -> (r: isize) {
        1
    }

    fn add_checked(self, other: isize) -> (r: Option<isize>) {
        self.checked_add(other)
    }

    fn mul_checked(self, other: isize) -> (r: Option<isize>) {
        self.checked_mul(other)
    }
}

impl Numeric for u8 {
    open spec fn value(self) -> int {
        self as int
    }

    open spec fn fits(v: int) -> bool {
        u8::MIN <= v <= u8::MAX
    }

    fn zero() -> (r: u8) {
        0
    }

    fn one() -> (r: u8) {
        1
    }

    fn add_checked(self, other: u8) -> (r: Option<u8>) {
        self.checked_add(other)
    }

    fn mul_checked(self, other: u8) -> (r: Option<u8>) {
        self.checked_mul(other)
    }
}

impl Numeric for u16 {
    open spec fn value(self) -> int {
        self as int
    }

    open spec fn fits(v: int) -> bool {
        u16::MIN <= v <= u16::MAX
    }

    fn zero() -> (r: u16) {
        0
    }

    fn one() -> (r: u16) {
        1
    }

    fn add_checked(self, other: u16) -> (r: Option<u16>) {
        self.checked_add(other)
    }

    fn mul_checked(self, other: u16) -> (r: Option<u16>) {
        self.checked_mul(other)
    }
}

impl Numeric for u32 {
    open spec fn value(self) -> int {
        self as int
    }

    open spec fn fits(v: int) -> bool {
        u32::MIN <= v <= u32::MAX
    }

    fn zero() -> (r: u32) {
        0
    }

    fn one() -> (r: u32) {
        1
    }

    fn add_checked(self, other: u32) -> (r: Option<u32>) {
        self.checked_add(other)
    }

    fn mul_checked(self, other: u32) -> (r: Option<u32>) {
        self.checked_mul(other)
    }
}

impl Numeric for u64 {
    open spec fn value(self) -> int {
        self as int
    }

    open spec fn fits(v: int) -> bool {
        u64::MIN <= v <= u64::MAX
    }

    fn zero() -> (r: u64) {
        0
    }

    fn one() -> (r: u64) {
        1
    }

    fn add_checked(self, other: u64) -> (r: Option<u64>) {
        self.checked_add(other)
    }

    fn mul_checked(self, other: u64) -> (r: Option<u64>) {
        self.checked_mul(other)
    }
}

impl Numeric for usize {
    open spec fn value(self) -> int {
        self as int
    }

    open spec fn fits(v: int) -> bool {
        usize::MIN <= v <= usize::MAX
    }

    fn zero() -> (r: usize) {
        0
    }

    fn one() -> (r: usize) {
        1
    }

    fn add_checked(self, other: usize) -> (r: Option<usize>) {
        self.checked_add(other)
    }

    fn mul_checked(self, other: usize) -> (r: Option<usize>) {
        self.checked_mul(other)
    }
}

} // verus!
