//! Integer widths usable as grid-cell coordinates.

use vstd::prelude::*;

verus! {

/// The two's-complement reduction of `v` into the range
/// `[lo, lo + modulus)`.
pub open spec fn wrap(v: int, lo: int, modulus: int) -> int {
    lo + (v - lo) % modulus
}

/// `v` clamped into `[lo, hi]`.
pub open spec fn clamp(v: int, lo: int, hi: int) -> int {
    if v < lo {
        lo
    } else if v > hi {
        hi
    } else {
        v
    }
}

/// For a value at most one period away from the range, wrapping adds or
/// removes one period at most.
pub proof fn lemma_wrap_once(v: int, lo: int, modulus: int)
    requires
        modulus > 0,
        lo - modulus <= v < lo + 2 * modulus,
    ensures
        wrap(v, lo, modulus) == if v >= lo + modulus {
            v - modulus
        } else if v < lo {
            v + modulus
        } else {
            v
        },
{
    let d = v - lo;
    if d >= modulus {
        vstd::arithmetic::div_mod::lemma_mod_sub_multiples_vanish(d, modulus);
        vstd::arithmetic::div_mod::lemma_small_mod((d - modulus) as nat, modulus as nat);
    } else if d < 0 {
        vstd::arithmetic::div_mod::lemma_mod_add_multiples_vanish(d, modulus);
        vstd::arithmetic::div_mod::lemma_small_mod((d + modulus) as nat, modulus as nat);
    } else {
        vstd::arithmetic::div_mod::lemma_small_mod(d as nat, modulus as nat);
    }
}

/// An integer's value converts back to that integer.
pub proof fn lemma_from_value<P: GridPrecision>(x: P)
    ensures
        P::from_int(x.value()) == x,
{
    x.lemma_range();
    P::lemma_from_int(x.value());
    lemma_wrap_once(x.value(), P::min_int(), P::modulus_int());
    P::from_int(x.value()).lemma_value_injective(x);
}

/// A fixed-width signed integer usable as one coordinate of a grid cell.
///
/// Arithmetic wraps around silently, so cell coordinates are cyclic.
pub trait GridPrecision: Sized + Copy + Clone + PartialEq + Eq + PartialOrd + Ord + core::hash::Hash + core::fmt::Debug + Default + Send + Sync + 'static {
    /// The mathematical value of this integer.
    spec fn value(self) -> int;

    /// The smallest representable value.
    spec fn min_int() -> int;

    /// The number of representable values.
    spec fn modulus_int() -> int;

    /// The width is sane, and values lie in range.
    proof fn lemma_range(self)
        ensures
            Self::min_int() < 0,
            Self::modulus_int() == -2 * Self::min_int(),
            Self::min_int() <= self.value() < Self::min_int() + Self::modulus_int(),
    ;

    /// The integer whose value is `v` reduced into range.
    spec fn from_int(v: int) -> Self;

    proof fn lemma_from_int(v: int)
        ensures
            Self::from_int(v).value() == wrap(v, Self::min_int(), Self::modulus_int()),
    ;

    /// The value determines the integer.
    proof fn lemma_value_injective(self, other: Self)
        ensures
            self.value() == other.value() ==> self == other,
    ;

    fn zero() -> (r: Self)
        ensures
            r.value() == 0,
    ;

    fn one() -> (r: Self)
        ensures
            r.value() == 1,
    ;

    fn wrapping_add(self, rhs: Self) -> (r: Self)
        ensures
            r == Self::from_int(self.value() + rhs.value()),
    ;

    fn wrapping_sub(self, rhs: Self) -> (r: Self)
        ensures
            r == Self::from_int(self.value() - rhs.value()),
    ;

    /// The value as a 128-bit integer, which holds every supported width exactly.
    fn as_i128(self) -> (r: i128)
        ensures
            r as int == self.value(),
    ;

    /// Converts a 128-bit integer, saturating at the bounds of this width.
    fn from_i128(input: i128) -> (r: Self)
        ensures
            r.value() == clamp(input as int, Self::min_int(), Self::min_int() + Self::modulus_int() - 1),
    ;
}

impl GridPrecision for i8 {
    open spec fn value(self) -> int {
        self as int
    }

    open spec fn min_int() -> int {
        i8::MIN as int
    }

    open spec fn modulus_int() -> int {
        i8::MAX as int - i8::MIN as int + 1
    }

    open spec fn from_int(v: int) -> i8 {
        wrap(v, Self::min_int(), Self::modulus_int()) as i8
    }

    proof fn lemma_range(self) {
    }

    proof fn lemma_from_int(v: int) {
    }

    proof fn lemma_value_injective(self, other: Self) {
    }

    fn zero() -> (r: Self) {
        0
    }

    fn one() -> (r: Self) {
        1
    }

    fn wrapping_add(self, rhs: Self) -> (r: Self) {
        proof {
            lemma_wrap_once(self + rhs, Self::min_int(), Self::modulus_int());
        }
        i8::wrapping_add(self, rhs)
    }

    fn wrapping_sub(self, rhs: Self) -> (r: Self) {
        proof {
            lemma_wrap_once(self - rhs, Self::min_int(), Self::modulus_int());
        }
        i8::wrapping_sub(self, rhs)
    }

    fn as_i128(self) -> (r: i128) {
        self as i128
    }

    fn from_i128(input: i128) -> (r: Self) {
        if input < i8::MIN as i128 {
            i8::MIN
        } else if input > i8::MAX as i128 {
            i8::MAX
        } else {
            input as i8
        }
    }
}

impl GridPrecision for i16 {
    open spec fn value(self) -> int {
        self as int
    }

    open spec fn min_int() -> int {
        i16::MIN as int
    }

    open spec fn modulus_int() -> int {
        i16::MAX as int - i16::MIN as int + 1
    }

    open spec fn from_int(v: int) -> i16 {
        wrap(v, Self::min_int(), Self::modulus_int()) as i16
    }

    proof fn lemma_range(self) {
    }

    proof fn lemma_from_int(v: int) {
    }

    proof fn lemma_value_injective(self, other: Self) {
    }

    fn zero() -> (r: Self) {
        0
    }

    fn one() -> (r: Self) {
        1
    }

    fn wrapping_add(self, rhs: Self) -> (r: Self) {
        proof {
            lemma_wrap_once(self + rhs, Self::min_int(), Self::modulus_int());
        }
        i16::wrapping_add(self, rhs)
    }

    fn wrapping_sub(self, rhs: Self) -> (r: Self) {
        proof {
            lemma_wrap_once(self - rhs, Self::min_int(), Self::modulus_int());
        }
        i16::wrapping_sub(self, rhs)
    }

    fn as_i128(self) -> (r: i128) {
        self as i128
    }

    fn from_i128(input: i128) -> (r: Self) {
        if input < i16::MIN as i128 {
            i16::MIN
        } else if input > i16::MAX as i128 {
            i16::MAX
        } else {
            input as i16
        }
    }
}

impl GridPrecision for i32 {
    open spec fn value(self) -> int {
        self as int
    }

    open spec fn min_int() -> int {
        i32::MIN as int
    }

    open spec fn modulus_int() -> int {
        i32::MAX as int - i32::MIN as int + 1
    }

    open spec fn from_int(v: int) -> i32 {
        wrap(v, Self::min_int(), Self::modulus_int()) as i32
    }

    proof fn lemma_range(self) {
    }

    proof fn lemma_from_int(v: int) {
    }

    proof fn lemma_value_injective(self, other: Self) {
    }

    fn zero() -> (r: Self) {
        0
    }

    fn one() -> (r: Self) {
        1
    }

    fn wrapping_add(self, rhs: Self) -> (r: Self) {
        proof {
            lemma_wrap_once(self + rhs, Self::min_int(), Self::modulus_int());
        }
        i32::wrapping_add(self, rhs)
    }

    fn wrapping_sub(self, rhs: Self) -> (r: Self) {
        proof {
            lemma_wrap_once(self - rhs, Self::min_int(), Self::modulus_int());
        }
        i32::wrapping_sub(self, rhs)
    }

    fn as_i128(self) -> (r: i128) {
        self as i128
    }

    fn from_i128(input: i128) -> (r: Self) {
        if input < i32::MIN as i128 {
            i32::MIN
        } else if input > i32::MAX as i128 {
            i32::MAX
        } else {
            input as i32
        }
    }
}

impl GridPrecision for i64 {
    open spec fn value(self) -> int {
        self as int
    }

    open spec fn min_int() -> int {
        i64::MIN as int
    }

    open spec fn modulus_int() -> int {
        i64::MAX as int - i64::MIN as int + 1
    }

    open spec fn from_int(v: int) -> i64 {
        wrap(v, Self::min_int(), Self::modulus_int()) as i64
    }

    proof fn lemma_range(self) {
    }

    proof fn lemma_from_int(v: int) {
    }

    proof fn lemma_value_injective(self, other: Self) {
    }

    fn zero() -> (r: Self) {
        0
    }

    fn one() -> (r: Self) {
        1
    }

    fn wrapping_add(self, rhs: Self) -> (r: Self) {
        proof {
            lemma_wrap_once(self + rhs, Self::min_int(), Self::modulus_int());
        }
        i64::wrapping_add(self, rhs)
    }

    fn wrapping_sub(self, rhs: Self) -> (r: Self) {
        proof {
            lemma_wrap_once(self - rhs, Self::min_int(), Self::modulus_int());
        }
        i64::wrapping_sub(self, rhs)
    }

    fn as_i128(self) -> (r: i128) {
        self as i128
    }

    fn from_i128(input: i128) -> (r: Self) {
        if input < i64::MIN as i128 {
            i64::MIN
        } else if input > i64::MAX as i128 {
            i64::MAX
        } else {
            input as i64
        }
    }
}

impl GridPrecision for i128 {
    open spec fn value(self) -> int {
        self as int
    }

    open spec fn min_int() -> int {
        i128::MIN as int
    }

    open spec fn modulus_int() -> int {
        i128::MAX as int - i128::MIN as int + 1
    }

    open spec fn from_int(v: int) -> i128 {
        wrap(v, Self::min_int(), Self::modulus_int()) as i128
    }

    proof fn lemma_range(self) {
    }

    proof fn lemma_from_int(v: int) {
    }

    proof fn lemma_value_injective(self, other: Self) {
    }

    fn zero() -> (r: Self) {
        0
    }

    fn one() -> (r: Self) {
        1
    }

    fn wrapping_add(self, rhs: Self) -> (r: Self) {
        proof {
            lemma_wrap_once(self + rhs, Self::min_int(), Self::modulus_int());
        }
        i128::wrapping_add(self, rhs)
    }

    fn wrapping_sub(self, rhs: Self) -> (r: Self) {
        proof {
            lemma_wrap_once(self - rhs, Self::min_int(), Self::modulus_int());
        }
        i128::wrapping_sub(self, rhs)
    }

    fn as_i128(self) -> (r: i128) {
        self as i128
    }

    fn from_i128(input: i128) -> (r: Self) {
        input
    }
}

} // verus!
