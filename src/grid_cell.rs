//! The coarse cell of the grid that an entity's translation is relative to.

use vstd::prelude::*;

use crate::precision::{lemma_wrap_once, GridPrecision};

verus! {

/// Identifies one cell of a conceptually infinite 3-D lattice.
///
/// Entities without a cell live in the zero cell. Addition and subtraction
/// wrap around component-wise; equality and ordering are lexicographic over
/// `(x, y, z)`.
#[derive(Clone, Copy, Debug, PartialEq, Eq, PartialOrd, Ord, Hash)]
pub struct GridCell<P: GridPrecision> {
    pub x: P,
    pub y: P,
    pub z: P,
}

impl<P: GridPrecision> GridCell<P> {
    /// Component-wise wrapping sum.
    pub open spec fn add_spec(self, rhs: Self) -> Self {
        GridCell {
            x: P::from_int(self.x.value() + rhs.x.value()),
            y: P::from_int(self.y.value() + rhs.y.value()),
            z: P::from_int(self.z.value() + rhs.z.value()),
        }
    }

    /// Component-wise wrapping difference.
    pub open spec fn sub_spec(self, rhs: Self) -> Self {
        GridCell {
            x: P::from_int(self.x.value() - rhs.x.value()),
            y: P::from_int(self.y.value() - rhs.y.value()),
            z: P::from_int(self.z.value() - rhs.z.value()),
        }
    }

    /// Every component is zero.
    pub open spec fn is_zero(self) -> bool {
        self.x.value() == 0 && self.y.value() == 0 && self.z.value() == 0
    }

    pub fn new(x: P, y: P, z: P) -> (r: Self)
        ensures
            r.x == x,
            r.y == y,
            r.z == z,
    {
        GridCell { x, y, z }
    }

    /// The cell at the lattice origin.
    pub fn zero() -> (r: Self)
        ensures
            r.is_zero(),
    {
        GridCell { x: P::zero(), y: P::zero(), z: P::zero() }
    }

    /// The cell one step along every axis.
    pub fn one() -> (r: Self)
        ensures
            r.x.value() == 1,
            r.y.value() == 1,
            r.z.value() == 1,
    {
        GridCell { x: P::one(), y: P::one(), z: P::one() }
    }

    pub fn add(self, rhs: Self) -> (r: Self)
        ensures
            r == self.add_spec(rhs),
    {
        GridCell {
            x: self.x.wrapping_add(rhs.x),
            y: self.y.wrapping_add(rhs.y),
            z: self.z.wrapping_add(rhs.z),
        }
    }

    pub fn sub(self, rhs: Self) -> (r: Self)
        ensures
            r == self.sub_spec(rhs),
    {
        GridCell {
            x: self.x.wrapping_sub(rhs.x),
            y: self.y.wrapping_sub(rhs.y),
            z: self.z.wrapping_sub(rhs.z),
        }
    }
}

impl<P: GridPrecision> Default for GridCell<P> {
    fn default() -> (r: Self)
        ensures
            r.is_zero(),
    {
        Self::zero()
    }
}

proof fn lemma_component_round_trip<P: GridPrecision>(a: P, b: P)
    ensures
        P::from_int(P::from_int(a.value() - b.value()).value() + b.value()) == a,
{
    a.lemma_range();
    b.lemma_range();
    let lo = P::min_int();
    let m = P::modulus_int();
    let d = P::from_int(a.value() - b.value());
    P::lemma_from_int(a.value() - b.value());
    lemma_wrap_once(a.value() - b.value(), lo, m);
    let s = P::from_int(d.value() + b.value());
    P::lemma_from_int(d.value() + b.value());
    lemma_wrap_once(d.value() + b.value(), lo, m);
    s.lemma_value_injective(a);
}

/// Subtracting a cell and adding it back gives the original cell, for every
/// width, including where the difference wraps around.
pub proof fn lemma_sub_add_round_trip<P: GridPrecision>(a: GridCell<P>, b: GridCell<P>)
    ensures
        a.sub_spec(b).add_spec(b) == a,
{
    lemma_component_round_trip(a.x, b.x);
    lemma_component_round_trip(a.y, b.y);
    lemma_component_round_trip(a.z, b.z);
}

} // verus!
