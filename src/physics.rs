//! Boat physics: true wind angle, speed through water, speed over ground.
use vstd::prelude::*;

use crate::fixed::{abs, floor_div_i128, fold_half, fold_half_turn, isqrt, is_isqrt, turn_of, FULL_TURN, HALF_TURN};
use crate::models::{CurrentData, SPEED_LIMIT};
use crate::polars::{PolarData, POLAR_LIMIT};

verus! {

/// Largest magnitude of an angle handed to the physics, in micro-degrees.
pub const ANGLE_LIMIT: i64 = 0x1000_0000_0000_0000;

/// Knots per metre per second, as the ratio `KNOTS_NUM / KNOTS_DEN` (1.94384).
pub const KNOTS_NUM: i64 = 194_384;

pub const KNOTS_DEN: i64 = 100_000;

/// The true wind angle: the angle between the heading and the direction the
/// wind blows from, folded into `[0°, 180°]`.
pub open spec fn twa_of(twd: int, heading: int) -> int {
    abs(fold_half(twd - heading))
}

/// A speed in micro-m/s converted to micro-knots, rounded down.
pub open spec fn knots_of(mps: int) -> int {
    mps * KNOTS_NUM / (KNOTS_DEN as int)
}

/// A speed in micro-knots converted to micro-m/s, rounded down.
pub open spec fn mps_of(knots: int) -> int {
    knots * KNOTS_DEN / (KNOTS_NUM as int)
}

/// The boat model. It holds no state: the polar is handed to each call.
pub struct PhysicsModel;

impl PhysicsModel {
    pub fn new() -> (r: PhysicsModel) {
        PhysicsModel
    }

    /// True wind angle (micro-degrees) from the true wind direction and the heading.
    pub fn calculate_twa(twd: i64, heading: i64) -> (r: i64)
        requires
            -ANGLE_LIMIT <= twd <= ANGLE_LIMIT,
            -ANGLE_LIMIT <= heading <= ANGLE_LIMIT,
        ensures
            r == twa_of(twd as int, heading as int),
            0 <= r <= HALF_TURN,
    {
        let f = fold_half_turn(twd - heading);
        if f < 0 {
            -f
        } else {
            f
        }
    }

    /// Speed through water (micro-m/s) on a heading, from the true wind speed
    /// (micro-m/s) and direction (micro-degrees), looked up in the polar.
    pub fn speed_through_water(&self, tws: i64, twd: i64, heading: i64, polar: &PolarData) -> (r: i64)
        requires
            polar.wf(),
            0 <= tws <= SPEED_LIMIT,
            -ANGLE_LIMIT <= twd <= ANGLE_LIMIT,
            -ANGLE_LIMIT <= heading <= ANGLE_LIMIT,
        ensures
            r == mps_of(polar.speed(knots_of(tws as int), twa_of(twd as int, heading as int))),
    {
        let twa = Self::calculate_twa(twd, heading);
        let tws_kts = ((tws as u128) * (KNOTS_NUM as u128) / (KNOTS_DEN as u128)) as i64;
        let stw_kts = polar.get_speed(tws_kts, twa);
        let stw = floor_div_i128((stw_kts as i128) * (KNOTS_DEN as i128), KNOTS_NUM as i128);
        assert(-POLAR_LIMIT <= stw <= POLAR_LIMIT) by {
            vstd::arithmetic::div_mod::lemma_div_is_ordered(
                stw_kts * KNOTS_DEN,
                POLAR_LIMIT * KNOTS_NUM,
                KNOTS_NUM as int,
            );
            vstd::arithmetic::div_mod::lemma_div_is_ordered(
                -POLAR_LIMIT * KNOTS_NUM,
                stw_kts * KNOTS_DEN,
                KNOTS_NUM as int,
            );
            vstd::arithmetic::div_mod::lemma_div_multiples_vanish(POLAR_LIMIT as int, KNOTS_NUM as int);
            vstd::arithmetic::div_mod::lemma_div_multiples_vanish(-POLAR_LIMIT, KNOTS_NUM as int);
        }
        stw as i64
    }

    /// Speed over ground (micro-m/s): the length of the boat's velocity through
    /// water (east, north) plus the current, rounded down.
    pub fn speed_over_ground(&self, boat_east: i64, boat_north: i64, current: &CurrentData) -> (r: i64)
        requires
            -SPEED_LIMIT <= boat_east <= SPEED_LIMIT,
            -SPEED_LIMIT <= boat_north <= SPEED_LIMIT,
            -SPEED_LIMIT <= current.u <= SPEED_LIMIT,
            -SPEED_LIMIT <= current.v <= SPEED_LIMIT,
        ensures
            is_isqrt(
                (boat_east + current.u) * (boat_east + current.u) + (boat_north + current.v) * (
                boat_north + current.v),
                r as int,
            ),
    {
        let e = (boat_east + current.u) as i128;
        let n = (boat_north + current.v) as i128;
        assert(e * e <= 4 * SPEED_LIMIT * SPEED_LIMIT && n * n <= 4 * SPEED_LIMIT * SPEED_LIMIT)
            by (nonlinear_arith)
            requires -2 * SPEED_LIMIT <= e <= 2 * SPEED_LIMIT, -2 * SPEED_LIMIT <= n <= 2 * SPEED_LIMIT;
        assert(e * e >= 0 && n * n >= 0) by (nonlinear_arith);
        let sq = (e * e + n * n) as u128;
        let r = isqrt(sq);
        assert((r as int) * (r as int) <= 8 * SPEED_LIMIT * SPEED_LIMIT);
        assert(r <= 4 * SPEED_LIMIT) by (nonlinear_arith)
            requires (r as int) * (r as int) <= 8 * SPEED_LIMIT * SPEED_LIMIT, r >= 0;
        r as i64
    }
}

/// The true wind angle does not change when the heading turns by whole turns.
pub proof fn lemma_twa_periodic(twd: int, heading: int, k: int)
    ensures
        twa_of(twd, heading) == twa_of(twd, heading + k * FULL_TURN),
{
    let m = FULL_TURN as int;
    assert(twd - (heading + k * m) == m * (-k) + (twd - heading)) by (nonlinear_arith);
    vstd::arithmetic::div_mod::lemma_mod_multiples_vanish(-k, twd - heading, m);
}

/// The true wind angle is the same for headings mirrored about the wind direction.
pub proof fn lemma_twa_symmetric(twd: int, heading: int)
    ensures
        twa_of(twd, heading) == twa_of(twd, 2 * twd - heading),
{
    let m = FULL_TURN as int;
    let x = twd - heading;
    assert(twd - (2 * twd - heading) == -x);
    let q = x / m;
    let t = x % m;
    vstd::arithmetic::div_mod::lemma_fundamental_div_mod(x, m);
    if t == 0 {
        assert(-x == (-q) * m + 0) by (nonlinear_arith)
            requires x == m * q + t, t == 0;
        vstd::arithmetic::div_mod::lemma_fundamental_div_mod_converse_mod(-x, m, -q, 0);
    } else {
        assert(-x == (-q - 1) * m + (m - t)) by (nonlinear_arith)
            requires x == m * q + t;
        vstd::arithmetic::div_mod::lemma_fundamental_div_mod_converse_mod(-x, m, -q - 1, m - t);
    }
    assert(turn_of(x) == t);
}

} // verus!
