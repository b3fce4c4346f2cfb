//! Fixed-point translations.
//!
//! A translation is measured in whole units, the smallest step an entity can
//! take. A local translation inside a cell fits 64 bits; a position that
//! combines a cell with a translation is held in 128 bits.

use vstd::prelude::*;

use crate::precision::clamp;

verus! {

/// Saturates a mathematical integer into the range of `i64`.
pub open spec fn saturate_i64(v: int) -> int {
    clamp(v, i64::MIN as int, i64::MAX as int)
}

/// Saturates a mathematical integer into the range of `i128`.
pub open spec fn saturate_i128(v: int) -> int {
    clamp(v, i128::MIN as int, i128::MAX as int)
}

pub open spec fn abs(v: int) -> int {
    if v < 0 {
        -v
    } else {
        v
    }
}

/// A translation relative to a cell or to a parent entity.
#[derive(Clone, Copy, Debug, PartialEq, Eq, Hash)]
pub struct Translation {
    pub x: i64,
    pub y: i64,
    pub z: i64,
}

/// A position with room for a cell's offset plus a translation.
#[derive(Clone, Copy, Debug, PartialEq, Eq, Hash)]
pub struct WidePosition {
    pub x: i128,
    pub y: i128,
    pub z: i128,
}

/// Narrows to 64 bits, saturating at the bounds.
pub fn narrow(v: i128) -> (r: i64)
    ensures
        r as int == saturate_i64(v as int),
{
    if v < i64::MIN as i128 {
        i64::MIN
    } else if v > i64::MAX as i128 {
        i64::MAX
    } else {
        v as i64
    }
}

/// Adds in 64 bits, saturating at the bounds.
pub fn saturating_add_i64(a: i64, b: i64) -> (r: i64)
    ensures
        r as int == saturate_i64(a + b),
{
    narrow(a as i128 + b as i128)
}

impl Translation {
    pub fn new(x: i64, y: i64, z: i64) -> (r: Self)
        ensures
            r == (Translation { x, y, z }),
    {
        Translation { x, y, z }
    }

    pub fn zero() -> (r: Self)
        ensures
            r == (Translation { x: 0, y: 0, z: 0 }),
    {
        Translation { x: 0, y: 0, z: 0 }
    }

    pub open spec fn as_wide_spec(self) -> WidePosition {
        WidePosition { x: self.x as i128, y: self.y as i128, z: self.z as i128 }
    }

    /// The translation as a wide position, exactly.
    pub fn as_wide(&self) -> (r: WidePosition)
        ensures
            r == self.as_wide_spec(),
    {
        WidePosition { x: self.x as i128, y: self.y as i128, z: self.z as i128 }
    }

    /// Component-wise saturating sum.
    pub open spec fn compose_spec(self, rhs: Self) -> Self {
        Translation {
            x: saturate_i64(self.x + rhs.x) as i64,
            y: saturate_i64(self.y + rhs.y) as i64,
            z: saturate_i64(self.z + rhs.z) as i64,
        }
    }

    /// Places `child`, a translation relative to `self`, in the space that
    /// `self` is expressed in.
    pub fn compose(&self, child: &Translation) -> (r: Translation)
        ensures
            r == self.compose_spec(*child),
    {
        Translation {
            x: saturating_add_i64(self.x, child.x),
            y: saturating_add_i64(self.y, child.y),
            z: saturating_add_i64(self.z, child.z),
        }
    }
}

impl WidePosition {
    pub fn new(x: i128, y: i128, z: i128) -> (r: Self)
        ensures
            r == (WidePosition { x, y, z }),
    {
        WidePosition { x, y, z }
    }

    pub open spec fn narrow_spec(self) -> Translation {
        Translation {
            x: saturate_i64(self.x as int) as i64,
            y: saturate_i64(self.y as int) as i64,
            z: saturate_i64(self.z as int) as i64,
        }
    }

    /// Narrows every component to 64 bits, saturating at the bounds.
    pub fn narrow(&self) -> (r: Translation)
        ensures
            r == self.narrow_spec(),
    {
        Translation { x: narrow(self.x), y: narrow(self.y), z: narrow(self.z) }
    }
}

} // verus!
