//! Plain data: coordinates, wind and current vectors, boat states.
use vstd::prelude::*;

use crate::fixed::{is_isqrt, isqrt, normalize_turn, turn_of, FULL_TURN};

verus! {

/// Three quarters of a turn, in micro-degrees.
pub const THREE_QUARTER_TURN: i64 = 270_000_000;

/// Largest latitude, in micro-degrees.
pub const MAX_LAT: i64 = 90_000_000;

/// Largest longitude, in micro-degrees.
pub const MAX_LON: i64 = 180_000_000;

/// A geographic position, latitude and longitude in micro-degrees.
#[derive(Debug, Clone, Copy, PartialEq, Eq, Structural)]
pub struct Coordinate {
    pub lat: i64,
    pub lon: i64,
}

impl Coordinate {
    /// Latitude within `[-90°, 90°]` and longitude within `[-180°, 180°]`.
    pub open spec fn is_valid(&self) -> bool {
        -MAX_LAT <= self.lat <= MAX_LAT && -MAX_LON <= self.lon <= MAX_LON
    }

    /// Whether the latitude and longitude are within their ranges.
    pub fn in_range(&self) -> (r: bool)
        ensures
            r == self.is_valid(),
    {
        -MAX_LAT <= self.lat && self.lat <= MAX_LAT && -MAX_LON <= self.lon && self.lon <= MAX_LON
    }

    pub fn new(lat: i64, lon: i64) -> (r: Coordinate)
        ensures
            r.lat == lat,
            r.lon == lon,
    {
        Coordinate { lat, lon }
    }
}

/// Largest magnitude of a speed component, in micro-m/s (a million m/s).
pub const SPEED_LIMIT: i64 = 1_000_000_000_000;

/// Wind at a point: `u` eastward and `v` northward, in micro-m/s.
#[derive(Debug, Clone, Copy, PartialEq, Eq, Structural)]
pub struct WindData {
    pub u: i64,
    pub v: i64,
}

/// Ocean current at a point: `u` eastward and `v` northward, in micro-m/s.
#[derive(Debug, Clone, Copy, PartialEq, Eq, Structural)]
pub struct CurrentData {
    pub u: i64,
    pub v: i64,
}

/// Sea state at a point: significant wave height in micro-metres.
#[derive(Debug, Clone, Copy, PartialEq, Eq, Structural)]
pub struct SeaState {
    pub significant_wave_height: i64,
}

impl WindData {
    /// True wind speed (micro-m/s): the length of `(u, v)`, rounded down.
    pub fn speed(&self) -> (r: i64)
        requires
            -SPEED_LIMIT <= self.u <= SPEED_LIMIT,
            -SPEED_LIMIT <= self.v <= SPEED_LIMIT,
        ensures
            is_isqrt(self.u * self.u + self.v * self.v, r as int),
            0 <= r <= SPEED_LIMIT * 2,
    {
        let u = self.u as i128;
        let v = self.v as i128;
        assert(u * u <= SPEED_LIMIT * SPEED_LIMIT && v * v <= SPEED_LIMIT * SPEED_LIMIT)
            by (nonlinear_arith)
            requires -SPEED_LIMIT <= u <= SPEED_LIMIT, -SPEED_LIMIT <= v <= SPEED_LIMIT;
        assert(u * u >= 0 && v * v >= 0) by (nonlinear_arith);
        let r = isqrt((u * u + v * v) as u128);
        assert(r <= 2 * SPEED_LIMIT) by (nonlinear_arith)
            requires (r as int) * (r as int) <= 2 * SPEED_LIMIT * SPEED_LIMIT, r >= 0;
        r as i64
    }

    /// The compass direction the wind blows from, in `[0°, 360°)`, given the
    /// mathematical angle `atan2(v, u)` of the wind vector (micro-degrees):
    /// `270° - angle`, brought into range.
    pub fn direction_from_angle(angle: i64) -> (r: i64)
        requires
            -FULL_TURN <= angle <= FULL_TURN,
        ensures
            r == turn_of(THREE_QUARTER_TURN - angle),
            0 <= r < FULL_TURN,
    {
        normalize_turn(THREE_QUARTER_TURN - angle)
    }
}

/// A boat somewhere at some instant: `time` in seconds since the epoch,
/// `elapsed_time` in seconds since departure.
#[derive(Debug, Clone, Copy, PartialEq, Eq, Structural)]
pub struct BoatState {
    pub position: Coordinate,
    pub time: i64,
    pub elapsed_time: i64,
}

} // verus!
