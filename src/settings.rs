//! Process-wide configuration and the coordinate arithmetic built on it.

use vstd::prelude::*;

use crate::grid_cell::GridCell;
use crate::precision::{clamp, lemma_from_value, lemma_wrap_once, GridPrecision};
use crate::translation::{abs, saturate_i128, Translation, WidePosition};

verus! {

/// Why a configuration was rejected.
#[derive(Clone, Copy, Debug, PartialEq, Eq)]
pub enum SettingsError {
    /// The cell edge length is zero or negative.
    NonPositiveEdgeLength,
    /// The hysteresis margin is zero or negative.
    NonPositiveSwitchingThreshold,
    /// Half the edge length plus the margin does not fit 64 bits.
    DistanceOutOfRange,
}

/// `v / e` rounded to the nearest integer, halves away from zero.
pub open spec fn round_div(v: int, e: int) -> int {
    if v >= 0 {
        (2 * v + e) / (2 * e)
    } else {
        -((-2 * v + e) / (2 * e))
    }
}

/// `c * e + t`, saturated to 128 bits after the product and after the sum.
pub open spec fn cell_offset(c: int, e: int, t: int) -> int {
    saturate_i128(saturate_i128(c * e) + t)
}

/// The saturated value `P` holds for `v`.
pub open spec fn saturate_to<P: GridPrecision>(v: int) -> P {
    P::from_int(clamp(v, P::min_int(), P::min_int() + P::modulus_int() - 1))
}

/// The size of a grid cell and the distance from a cell's center at which
/// an entity moves to another cell.
#[derive(Clone, Copy, Debug)]
pub struct FloatingOriginSettings {
    grid_edge_length: i64,
    maximum_distance_from_origin: i64,
}

impl FloatingOriginSettings {
    pub closed spec fn edge_length(self) -> int {
        self.grid_edge_length as int
    }

    pub closed spec fn max_distance(self) -> int {
        self.maximum_distance_from_origin as int
    }

    /// The edge length is positive and the recentering distance exceeds half
    /// of it, so an entity at a cell boundary does not recenter every frame.
    pub open spec fn wf(self) -> bool {
        &&& 0 < self.edge_length() <= i64::MAX
        &&& 2 * self.max_distance() > self.edge_length()
        &&& self.max_distance() <= i64::MAX
    }

    /// Every component of `v` lies strictly inside the recentering distance.
    pub open spec fn is_within(self, v: WidePosition) -> bool {
        &&& abs(v.x as int) < self.max_distance()
        &&& abs(v.y as int) < self.max_distance()
        &&& abs(v.z as int) < self.max_distance()
    }

    /// Some component of `t` lies beyond the recentering distance.
    pub open spec fn exceeds(self, t: Translation) -> bool {
        ||| abs(t.x as int) > self.max_distance()
        ||| abs(t.y as int) > self.max_distance()
        ||| abs(t.z as int) > self.max_distance()
    }

    pub open spec fn global_pos_spec<P: GridPrecision>(
        self,
        pos: GridCell<P>,
        translation: Translation,
    ) -> WidePosition {
        WidePosition {
            x: cell_offset(pos.x.value(), self.edge_length(), translation.x as int) as i128,
            y: cell_offset(pos.y.value(), self.edge_length(), translation.y as int) as i128,
            z: cell_offset(pos.z.value(), self.edge_length(), translation.z as int) as i128,
        }
    }

    /// What is left of `v` after moving `round_div(v, e)` cells.
    pub open spec fn axis_rest(self, v: int) -> int {
        v - round_div(v, self.edge_length()) * self.edge_length()
    }

    /// The cell delta and the reduced translation that recentering `v` gives.
    pub open spec fn recenter_spec<P: GridPrecision>(self, v: WidePosition) -> (GridCell<P>, Translation) {
        let e = self.edge_length();
        if self.is_within(v) {
            (
                GridCell { x: P::from_int(0), y: P::from_int(0), z: P::from_int(0) },
                v.narrow_spec(),
            )
        } else {
            (
                GridCell {
                    x: saturate_to::<P>(round_div(v.x as int, e)),
                    y: saturate_to::<P>(round_div(v.y as int, e)),
                    z: saturate_to::<P>(round_div(v.z as int, e)),
                },
                Translation {
                    x: self.axis_rest(v.x as int) as i64,
                    y: self.axis_rest(v.y as int) as i64,
                    z: self.axis_rest(v.z as int) as i64,
                },
            )
        }
    }

    /// Settings with cells `grid_edge_length` units wide, where an entity
    /// moves to another cell once it is more than half the edge length
    /// (rounded down) plus `switching_threshold` from its cell's center.
    pub fn new(grid_edge_length: i64, switching_threshold: i64) -> (r: Result<Self, SettingsError>)
        ensures
            grid_edge_length <= 0 ==> r == Err::<Self, _>(SettingsError::NonPositiveEdgeLength),
            grid_edge_length > 0 && switching_threshold <= 0 ==> r == Err::<Self, _>(
                SettingsError::NonPositiveSwitchingThreshold,
            ),
            grid_edge_length > 0 && switching_threshold > 0 && grid_edge_length / 2
                + switching_threshold > i64::MAX ==> r == Err::<Self, _>(
                SettingsError::DistanceOutOfRange,
            ),
            grid_edge_length > 0 && switching_threshold > 0 && grid_edge_length / 2
                + switching_threshold <= i64::MAX ==> (r matches Ok(s) && s.wf() && s.edge_length()
                == grid_edge_length && s.max_distance() == grid_edge_length / 2
                + switching_threshold),
    {
        if grid_edge_length <= 0 {
            return Err(SettingsError::NonPositiveEdgeLength);
        }
        if switching_threshold <= 0 {
            return Err(SettingsError::NonPositiveSwitchingThreshold);
        }
        let half = grid_edge_length / 2;
        if switching_threshold > i64::MAX - half {
            return Err(SettingsError::DistanceOutOfRange);
        }
        Ok(FloatingOriginSettings {
            grid_edge_length,
            maximum_distance_from_origin: half + switching_threshold,
        })
    }

    pub fn grid_edge_length(&self) -> (r: i64)
        ensures
            r == self.edge_length(),
    {
        self.grid_edge_length
    }

    pub fn maximum_distance_from_origin(&self) -> (r: i64)
        ensures
            r == self.max_distance(),
    {
        self.maximum_distance_from_origin
    }

    /// The position of `translation`, relative to cell `pos`, measured from
    /// the zero cell.
    pub fn global_pos_double<P: GridPrecision>(
        &self,
        pos: &GridCell<P>,
        translation: &Translation,
    ) -> (r: WidePosition)
        ensures
            r == self.global_pos_spec(*pos, *translation),
            pos.is_zero() ==> r == translation.as_wide_spec(),
    {
        let e = self.grid_edge_length;
        WidePosition {
            x: offset_axis(pos.x.as_i128(), e, translation.x),
            y: offset_axis(pos.y.as_i128(), e, translation.y),
            z: offset_axis(pos.z.as_i128(), e, translation.z),
        }
    }

    /// [`Self::global_pos_double`], narrowed to 64 bits with saturation.
    pub fn global_pos_single<P: GridPrecision>(
        &self,
        pos: &GridCell<P>,
        translation: &Translation,
    ) -> (r: Translation)
        ensures
            r == self.global_pos_spec(*pos, *translation).narrow_spec(),
    {
        self.global_pos_double(pos, translation).narrow()
    }

    fn is_within_exec(&self, v: &WidePosition) -> (r: bool)
        ensures
            r == self.is_within(*v),
    {
        let m = self.maximum_distance_from_origin as i128;
        -m < v.x && v.x < m && -m < v.y && v.y < m && -m < v.z && v.z < m
    }

    /// Splits `input` into a cell delta and a translation inside that cell.
    ///
    /// When every component lies strictly inside the recentering distance,
    /// nothing moves: the delta is zero and the translation is `input`.
    /// Otherwise each axis moves by `input / edge length` rounded to the
    /// nearest cell, halves away from zero, and keeps the remainder. A delta
    /// beyond the range of `P` saturates at its bounds; the translation is
    /// reduced by the full delta all the same.
    pub fn precise_translation<P: GridPrecision>(&self, input: WidePosition) -> (r: (GridCell<P>, Translation))
        requires
            self.wf(),
        ensures
            r == self.recenter_spec::<P>(input),
            self.is_within(input) ==> r.0.is_zero() && r.1.as_wide_spec() == input,
            !self.is_within(input) ==> {
                let hi = P::min_int() + P::modulus_int() - 1;
                &&& r.0.x.value() == clamp(round_div(input.x as int, self.edge_length()), P::min_int(), hi)
                &&& r.0.y.value() == clamp(round_div(input.y as int, self.edge_length()), P::min_int(), hi)
                &&& r.0.z.value() == clamp(round_div(input.z as int, self.edge_length()), P::min_int(), hi)
                &&& r.1.x == self.axis_rest(input.x as int)
                &&& r.1.y == self.axis_rest(input.y as int)
                &&& r.1.z == self.axis_rest(input.z as int)
            },
    {
        if self.is_within_exec(&input) {
            let zero = GridCell::<P>::zero();
            proof {
                lemma_from_value(zero.x);
                lemma_from_value(zero.y);
                lemma_from_value(zero.z);
                lemma_zero_cell::<P>();
            }
            return (zero, input.narrow());
        }
        let e = self.grid_edge_length;
        let (dx, tx) = recenter_axis(input.x, e);
        let (dy, ty) = recenter_axis(input.y, e);
        let (dz, tz) = recenter_axis(input.z, e);
        let cell = GridCell::new(P::from_i128(dx), P::from_i128(dy), P::from_i128(dz));
        proof {
            lemma_from_value(cell.x);
            lemma_from_value(cell.y);
            lemma_from_value(cell.z);
        }
        (cell, Translation::new(tx, ty, tz))
    }
}

impl Default for FloatingOriginSettings {
    /// Cells 10,000 units wide with a margin of 100 units.
    fn default() -> (r: Self)
        ensures
            r.wf(),
            r.edge_length() == 10_000,
            r.max_distance() == 5_100,
    {
        FloatingOriginSettings { grid_edge_length: 10_000, maximum_distance_from_origin: 10_000 / 2 + 100 }
    }
}

/// `c * e + t` along one axis, saturating.
fn offset_axis(c: i128, e: i64, t: i64) -> (r: i128)
    ensures
        r == cell_offset(c as int, e as int, t as int),
{
    let p: i128 = match c.checked_mul(e as i128) {
        Some(p) => p,
        None => {
            assert((c < 0) == (e < 0) ==> c * e >= 0) by (nonlinear_arith);
            assert((c < 0) != (e < 0) ==> c * e <= 0) by (nonlinear_arith);
            if (c < 0) == (e < 0) {
                i128::MAX
            } else {
                i128::MIN
            }
        },
    };
    match p.checked_add(t as i128) {
        Some(s) => s,
        None => {
            if t < 0 {
                i128::MIN
            } else {
                i128::MAX
            }
        },
    }
}

/// Rounds `v / e` to the nearest integer, halves away from zero, and
/// returns it with the remainder.
fn recenter_axis(v: i128, e: i64) -> (r: (i128, i64))
    requires
        e > 0,
    ensures
        r.0 == round_div(v as int, e as int),
        r.1 == v - r.0 * e,
        2 * abs(r.1 as int) <= e,
{
    let neg = v < 0;
    let a: u128 = if neg {
        (-(v + 1)) as u128 + 1
    } else {
        v as u128
    };
    assert(a == abs(v as int));
    let eu = e as u128;
    let q = a / eu;
    let rem = a % eu;
    proof {
        vstd::arithmetic::div_mod::lemma_fundamental_div_mod(a as int, eu as int);
        assert(q * eu <= a && q <= a) by (nonlinear_arith)
            requires
                a == eu * q + rem,
                eu >= 1,
                rem >= 0,
                q >= 0,
        ;
        if eu >= 2 {
            assert(q * 2 <= a) by (nonlinear_arith)
                requires
                    q * eu <= a,
                    eu >= 2,
                    q >= 0,
            ;
        }
    }
    let up = 2 * rem >= eu;
    let qa: u128 = if up {
        q + 1
    } else {
        q
    };
    let ra: i128 = if up {
        rem as i128 - e as i128
    } else {
        rem as i128
    };
    proof {
        let r2: int = if up {
            2 * rem - e
        } else {
            2 * rem + e
        };
        assert(2 * a + e == qa * (2 * e) + r2) by (nonlinear_arith)
            requires
                a == eu * q + rem,
                eu == e,
                qa == if up {
                    q + 1
                } else {
                    q as int
                },
                r2 == if up {
                    2 * rem - e
                } else {
                    2 * rem + e
                },
        ;
        vstd::arithmetic::div_mod::lemma_fundamental_div_mod_converse(2 * a + e, 2 * e, qa as int, r2);
        assert(a - qa * e == ra) by (nonlinear_arith)
            requires
                a == eu * q + rem,
                eu == e,
                qa == if up {
                    q + 1
                } else {
                    q as int
                },
                ra == if up {
                    rem - e
                } else {
                    rem as int
                },
        ;
    }
    let delta: i128 = if !neg {
        qa as i128
    } else if qa == 0 {
        0
    } else {
        -((qa - 1) as i128) - 1
    };
    let t: i64 = if neg {
        (-ra) as i64
    } else {
        ra as i64
    };
    proof {
        assert(v - delta * e == t) by (nonlinear_arith)
            requires
                a - qa * e == ra,
                neg ==> v == -a && delta == -qa && t == -ra,
                !neg ==> v == a && delta == qa && t == ra,
        ;
    }
    (delta, t)
}

/// What recentering leaves of one axis is at most half an edge length.
proof fn lemma_rest_bound(v: int, e: int)
    requires
        e > 0,
    ensures
        2 * abs(v - round_div(v, e) * e) <= e,
{
    let a = abs(v);
    let q = (2 * a + e) / (2 * e);
    let r = (2 * a + e) % (2 * e);
    vstd::arithmetic::div_mod::lemma_fundamental_div_mod(2 * a + e, 2 * e);
    assert(2 * (a - q * e) == r - e) by (nonlinear_arith)
        requires
            2 * a + e == (2 * e) * q + r,
    ;
    if v < 0 {
        assert(v - round_div(v, e) * e == -(a - q * e)) by (nonlinear_arith)
            requires
                v == -a,
                round_div(v, e) == -q,
        ;
    }
}

proof fn lemma_zero_cell<P: GridPrecision>()
    ensures
        P::from_int(0).value() == 0,
{
    P::from_int(0).lemma_range();
    P::lemma_from_int(0);
    lemma_wrap_once(0, P::min_int(), P::modulus_int());
}

/// A translation strictly inside the recentering distance on every axis is
/// not recentered: the delta is the zero cell and the translation is kept.
pub proof fn lemma_recenter_within_is_identity<P: GridPrecision>(
    settings: FloatingOriginSettings,
    v: WidePosition,
)
    requires
        settings.wf(),
        settings.is_within(v),
    ensures
        settings.recenter_spec::<P>(v).0.is_zero(),
        settings.recenter_spec::<P>(v).1.as_wide_spec() == v,
{
    lemma_zero_cell::<P>();
}

/// One recentering is enough: recentering the translation it leaves moves
/// nothing more.
pub proof fn lemma_recenter_settles<P: GridPrecision>(
    settings: FloatingOriginSettings,
    v: WidePosition,
)
    requires
        settings.wf(),
    ensures
        settings.is_within(settings.recenter_spec::<P>(v).1.as_wide_spec()),
        settings.recenter_spec::<P>(settings.recenter_spec::<P>(v).1.as_wide_spec()).0.is_zero(),
{
    let e = settings.edge_length();
    lemma_rest_bound(v.x as int, e);
    lemma_rest_bound(v.y as int, e);
    lemma_rest_bound(v.z as int, e);
    lemma_zero_cell::<P>();
}

/// Hysteresis: once an entity has been recentered, moving it back and forth
/// by less than the margin between the recentering distance and half the
/// edge length, on every axis, recenters it no more.
pub proof fn lemma_recenter_hysteresis<P: GridPrecision>(
    settings: FloatingOriginSettings,
    v: WidePosition,
    d: Translation,
)
    requires
        settings.wf(),
        !settings.is_within(v),
        2 * abs(d.x as int) < 2 * settings.max_distance() - settings.edge_length(),
        2 * abs(d.y as int) < 2 * settings.max_distance() - settings.edge_length(),
        2 * abs(d.z as int) < 2 * settings.max_distance() - settings.edge_length(),
    ensures
        ({
            let t = settings.recenter_spec::<P>(v).1;
            let moved = WidePosition {
                x: (t.x + d.x) as i128,
                y: (t.y + d.y) as i128,
                z: (t.z + d.z) as i128,
            };
            &&& settings.is_within(moved)
            &&& settings.recenter_spec::<P>(moved).0.is_zero()
            &&& settings.recenter_spec::<P>(moved).1.as_wide_spec() == moved
        }),
{
    let e = settings.edge_length();
    lemma_rest_bound(v.x as int, e);
    lemma_rest_bound(v.y as int, e);
    lemma_rest_bound(v.z as int, e);
    lemma_zero_cell::<P>();
}

} // verus!
