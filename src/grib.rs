//! Loaders of gridded weather: the part of decoding that is not file access.
use vstd::prelude::*;

use crate::fixed::FULL_TURN;
use crate::models::{Coordinate, CurrentData, WindData, MAX_LON};

verus! {

/// A longitude given in `[0°, 360°]` brought into `[-180°, 180°]`.
pub open spec fn wrap_lon(lon: int) -> int {
    if lon > MAX_LON {
        lon - FULL_TURN
    } else {
        lon
    }
}

/// The smallest of four lengths.
pub open spec fn min4(a: int, b: int, c: int, d: int) -> int {
    vstd::math::min(vstd::math::min(a, b), vstd::math::min(c, d))
}

/// Turns decoded GRIB fields into wind samples.
pub struct GribLoader {}

impl GribLoader {
    pub fn new() -> (r: GribLoader) {
        GribLoader {  }
    }

    /// Pairs the decoded `10u` and `10v` fields with their grid positions
    /// (all in micro-units), one sample per index that all four fields have;
    /// longitudes past 180° are moved into `[-180°, 180°]`.
    pub fn merge_wind_components(
        &self,
        u: &Vec<i64>,
        v: &Vec<i64>,
        lats: &Vec<i64>,
        lons: &Vec<i64>,
    ) -> (r: Vec<(Coordinate, WindData)>)
        ensures
            r.len() == min4(u.len() as int, v.len() as int, lats.len() as int, lons.len() as int),
            forall|i: int|
                0 <= i < r.len() ==> #[trigger] r[i] == (
                    Coordinate { lat: lats[i], lon: wrap_lon(lons[i] as int) as i64 },
                    WindData { u: u[i], v: v[i] },
                ),
    {
        let mut n = u.len();
        if v.len() < n {
            n = v.len();
        }
        if lats.len() < n {
            n = lats.len();
        }
        if lons.len() < n {
            n = lons.len();
        }
        let mut r: Vec<(Coordinate, WindData)> = Vec::new();
        let mut i: usize = 0;
        while i < n
            invariant
                n == min4(u.len() as int, v.len() as int, lats.len() as int, lons.len() as int),
                i <= n,
                r.len() == i,
                forall|k: int|
                    0 <= k < i ==> #[trigger] r[k] == (
                        Coordinate { lat: lats[k], lon: wrap_lon(lons[k] as int) as i64 },
                        WindData { u: u[k], v: v[k] },
                    ),
            decreases n - i,
        {
            let mut lon = lons[i];
            if lon > MAX_LON {
                lon = lon - FULL_TURN;
            }
            r.push((Coordinate { lat: lats[i], lon }, WindData { u: u[i], v: v[i] }));
            i += 1;
        }
        r
    }

    /// Ocean currents: no current source is decoded yet, so this is a single
    /// sample of 1 m/s east and 0.5 m/s north at (0°, 0°).
    pub fn load_current_data(&self, path: &str) -> (r: Vec<(Coordinate, CurrentData)>)
        ensures
            r@ == seq![(Coordinate { lat: 0, lon: 0 }, CurrentData { u: 1_000_000, v: 500_000 })],
    {
        let mut r: Vec<(Coordinate, CurrentData)> = Vec::new();
        r.push((Coordinate { lat: 0, lon: 0 }, CurrentData { u: 1_000_000, v: 500_000 }));
        r
    }
}

/// Loader of BUFR observations.
pub struct BufrLoader;

impl BufrLoader {
    pub fn new() -> (r: BufrLoader) {
        BufrLoader
    }

    /// BUFR observations are not decoded yet: the call reads nothing and has no effect.
    pub fn load(&self, path: &str) {
    }
}

} // verus!
