//! A store of wind samples, indexed by one-degree chunks for nearest-sample lookup.
use vstd::prelude::*;

use std::collections::HashMap;

use crate::fixed::{floor_div, floor_div_i128, MICRO};
use crate::models::{Coordinate, WindData, MAX_LAT, MAX_LON};

verus! {

broadcast use vstd::std_specs::hash::group_hash_axioms;

/// The one-degree chunk of a position: `(floor(lon), floor(lat))`.
pub open spec fn chunk_of(c: Coordinate) -> (int, int) {
    (floor_div(c.lon as int, MICRO as int), floor_div(c.lat as int, MICRO as int))
}

/// The hash key of a chunk.
pub open spec fn chunk_key(ch: (int, int)) -> int {
    ch.0 * 0x1_0000_0000 + ch.1
}

/// Squared distance between two positions, in squared micro-degrees.
pub open spec fn sq_dist(a: Coordinate, b: Coordinate) -> int {
    (a.lat - b.lat) * (a.lat - b.lat) + (a.lon - b.lon) * (a.lon - b.lon)
}

spec fn small_chunk(ch: (int, int)) -> bool {
    -181 <= ch.0 <= 181 && -91 <= ch.1 <= 91
}

proof fn lemma_chunk_key_injective(a: (int, int), b: (int, int))
    requires
        small_chunk(a),
        small_chunk(b),
        chunk_key(a) == chunk_key(b),
    ensures
        a == b,
{
    assert((a.0 - b.0) * 0x1_0000_0000 == b.1 - a.1) by (nonlinear_arith)
        requires a.0 * 0x1_0000_0000 + a.1 == b.0 * 0x1_0000_0000 + b.1;
    assert(a.0 == b.0) by (nonlinear_arith)
        requires
            (a.0 - b.0) * 0x1_0000_0000 == b.1 - a.1,
            -0x1_0000_0000 < b.1 - a.1 < 0x1_0000_0000;
}

proof fn lemma_valid_chunk(c: Coordinate)
    requires
        c.is_valid(),
    ensures
        small_chunk(chunk_of(c)),
        -180 <= chunk_of(c).0 <= 180,
        -90 <= chunk_of(c).1 <= 90,
{
    vstd::arithmetic::div_mod::lemma_div_is_ordered(c.lon as int, MAX_LON as int, MICRO as int);
    vstd::arithmetic::div_mod::lemma_div_is_ordered(-MAX_LON, c.lon as int, MICRO as int);
    vstd::arithmetic::div_mod::lemma_div_is_ordered(c.lat as int, MAX_LAT as int, MICRO as int);
    vstd::arithmetic::div_mod::lemma_div_is_ordered(-MAX_LAT, c.lat as int, MICRO as int);
}

/// The chunk of a position, when it is one that a valid position can have.
fn chunk_exec(c: &Coordinate) -> (r: Option<(i64, i64)>)
    ensures
        match r {
            Some(ch) => (ch.0 as int, ch.1 as int) == chunk_of(*c) && small_chunk(chunk_of(*c)),
            None => !(-180 <= chunk_of(*c).0 <= 180 && -90 <= chunk_of(*c).1 <= 90),
        },
{
    let x = floor_div_i128(c.lon as i128, MICRO as i128);
    let y = floor_div_i128(c.lat as i128, MICRO as i128);
    if -180 <= x && x <= 180 && -90 <= y && y <= 90 {
        Some((x as i64, y as i64))
    } else {
        None
    }
}

/// Wind samples with a chunk index: `chunks` maps the key of each chunk to the
/// indices of its samples in `points`, in the order they were inserted.
pub struct WindField {
    pub points: Vec<(Coordinate, WindData)>,
    pub chunks: HashMap<i64, Vec<usize>>,
}

impl WindField {
    /// The chunk key of sample `i`.
    pub open spec fn key_of(&self, i: int) -> int {
        chunk_key(chunk_of(self.points[i].0))
    }

    pub open spec fn wf(&self) -> bool {
        &&& forall|i: int| 0 <= i < self.points.len() ==> (#[trigger] self.points[i]).0.is_valid()
        &&& forall|k: i64, q: int|
            #![trigger self.chunks@[k]@[q]]
            self.chunks@.contains_key(k) && 0 <= q < self.chunks@[k]@.len() ==> self.chunks@[k]@[q]
                < self.points.len() && self.key_of(self.chunks@[k]@[q] as int) == k
        &&& forall|k: i64, q1: int, q2: int|
            #![trigger self.chunks@[k]@[q1], self.chunks@[k]@[q2]]
            self.chunks@.contains_key(k) && 0 <= q1 < q2 < self.chunks@[k]@.len()
                ==> self.chunks@[k]@[q1] < self.chunks@[k]@[q2]
        &&& forall|i: int|
            0 <= i < self.points.len() ==> self.chunks@.contains_key(#[trigger] self.key_of(i) as i64)
                && self.chunks@[self.key_of(i) as i64]@.contains(i as usize)
    }

    /// Whether sample `i` lies in the chunk of `c`.
    pub open spec fn in_chunk(&self, i: int, c: Coordinate) -> bool {
        chunk_of(self.points[i].0) == chunk_of(c)
    }

    /// Whether sample `b` is the nearest to `c` within its chunk (the first
    /// inserted among equally near ones).
    pub open spec fn is_nearest(&self, b: int, c: Coordinate) -> bool {
        &&& 0 <= b < self.points.len()
        &&& self.in_chunk(b, c)
        &&& forall|i: int|
            0 <= i < self.points.len() && #[trigger] self.in_chunk(i, c) ==> sq_dist(
                self.points[b].0,
                c,
            ) < sq_dist(self.points[i].0, c) || (sq_dist(self.points[b].0, c) == sq_dist(
                self.points[i].0,
                c,
            ) && b <= i)
    }

    /// An empty field.
    pub fn new() -> (r: WindField)
        ensures
            r.wf(),
            r.points@.len() == 0,
    {
        WindField { points: Vec::new(), chunks: HashMap::new() }
    }

    /// Adds a sample.
    pub fn insert_point(&mut self, coord: Coordinate, wind: WindData)
        requires
            old(self).wf(),
            coord.is_valid(),
        ensures
            final(self).wf(),
            final(self).points@ == old(self).points@.push((coord, wind)),
    {
        let i = self.points.len();
        proof {
            lemma_valid_chunk(coord);
        }
        let ch = chunk_exec(&coord);
        let (x, y) = match ch {
            Some(ch) => ch,
            None => (0, 0),
        };
        let key = x * 0x1_0000_0000 + y;
        let ghost old_chunks = self.chunks@;
        let mut list = match self.chunks.remove(&key) {
            Some(l) => l,
            None => Vec::new(),
        };
        let ghost old_list = list@;
        list.push(i);
        self.chunks.insert(key, list);
        self.points.push((coord, wind));
        proof {
            assert(self.key_of(i as int) == key);
            assert forall|j: int| 0 <= j < i implies #[trigger] self.points[j] == old(self).points[j] by {}
            assert forall|k: i64, q: int|
                #![trigger self.chunks@[k]@[q]]
                self.chunks@.contains_key(k) && 0 <= q < self.chunks@[k]@.len() implies self.chunks@[k]@[q]
                    < self.points.len() && self.key_of(self.chunks@[k]@[q] as int) == k by {
                if k == key {
                    if q < old_list.len() {
                        assert(old_chunks.contains_key(k));
                        assert(old_chunks[k]@[q] == self.chunks@[k]@[q]);
                    }
                } else {
                    assert(old_chunks.contains_key(k));
                    assert(old_chunks[k] == self.chunks@[k]);
                }
            }
            assert forall|k: i64, q1: int, q2: int|
                #![trigger self.chunks@[k]@[q1], self.chunks@[k]@[q2]]
                self.chunks@.contains_key(k) && 0 <= q1 < q2 < self.chunks@[k]@.len()
                    implies self.chunks@[k]@[q1] < self.chunks@[k]@[q2] by {
                if k == key {
                    if q2 < old_list.len() {
                        assert(old_chunks.contains_key(k));
                        assert(old_chunks[k]@[q1] == self.chunks@[k]@[q1]);
                        assert(old_chunks[k]@[q2] == self.chunks@[k]@[q2]);
                    } else if old_list.len() > 0 {
                        assert(old_chunks.contains_key(k));
                        assert(old_chunks[k]@[q1] == self.chunks@[k]@[q1]);
                    }
                } else {
                    assert(old_chunks.contains_key(k));
                    assert(old_chunks[k] == self.chunks@[k]);
                }
            }
            assert forall|j: int|
                0 <= j < self.points.len() implies self.chunks@.contains_key(
                    #[trigger] self.key_of(j) as i64,
                ) && self.chunks@[self.key_of(j) as i64]@.contains(j as usize) by {
                if j < i {
                    assert(old(self).key_of(j) == self.key_of(j));
                    let k = self.key_of(j) as i64;
                    assert(old_chunks.contains_key(k));
                    let q = choose|q: int| 0 <= q < old_chunks[k]@.len() && old_chunks[k]@[q] == j as usize;
                    if k == key {
                        assert(self.chunks@[k]@[q] == j as usize);
                    } else {
                        assert(self.chunks@[k] == old_chunks[k]);
                    }
                } else {
                    assert(self.chunks@[key]@[old_list.len() as int] == i);
                }
            }
        }
    }

    /// Whether `(min_lat, max_lat, min_lon, max_lon)` are the extreme
    /// latitudes and longitudes of the samples.
    pub open spec fn is_extent(&self, min_lat: i64, max_lat: i64, min_lon: i64, max_lon: i64) -> bool {
        &&& forall|i: int|
            0 <= i < self.points.len() ==> min_lat <= (#[trigger] self.points[i]).0.lat <= max_lat
                && min_lon <= self.points[i].0.lon <= max_lon
        &&& exists|i: int| 0 <= i < self.points.len() && (#[trigger] self.points[i]).0.lat == min_lat
        &&& exists|i: int| 0 <= i < self.points.len() && (#[trigger] self.points[i]).0.lat == max_lat
        &&& exists|i: int| 0 <= i < self.points.len() && (#[trigger] self.points[i]).0.lon == min_lon
        &&& exists|i: int| 0 <= i < self.points.len() && (#[trigger] self.points[i]).0.lon == max_lon
    }

    /// The extent of the samples as `(min_lat, max_lat, min_lon, max_lon)`,
    /// or `None` when there are none.
    pub fn get_bounds(&self) -> (r: Option<(i64, i64, i64, i64)>)
        ensures
            r is None <==> self.points.len() == 0,
            r matches Some(b) ==> self.is_extent(b.0, b.1, b.2, b.3),
    {
        if self.points.len() == 0 {
            return None;
        }
        let first = self.points[0].0;
        let mut min_lat = first.lat;
        let mut max_lat = first.lat;
        let mut min_lon = first.lon;
        let mut max_lon = first.lon;
        let mut i: usize = 1;
        while i < self.points.len()
            invariant
                1 <= i <= self.points.len(),
                forall|j: int|
                    0 <= j < i ==> min_lat <= (#[trigger] self.points[j]).0.lat <= max_lat && min_lon
                        <= self.points[j].0.lon <= max_lon,
                exists|j: int| 0 <= j < i && (#[trigger] self.points[j]).0.lat == min_lat,
                exists|j: int| 0 <= j < i && (#[trigger] self.points[j]).0.lat == max_lat,
                exists|j: int| 0 <= j < i && (#[trigger] self.points[j]).0.lon == min_lon,
                exists|j: int| 0 <= j < i && (#[trigger] self.points[j]).0.lon == max_lon,
            decreases self.points.len() - i,
        {
            let c = self.points[i].0;
            if c.lat < min_lat {
                min_lat = c.lat;
            }
            if c.lat > max_lat {
                max_lat = c.lat;
            }
            if c.lon < min_lon {
                min_lon = c.lon;
            }
            if c.lon > max_lon {
                max_lon = c.lon;
            }
            i += 1;
        }
        Some((min_lat, max_lat, min_lon, max_lon))
    }

    /// The wind of the sample nearest to `coord` within its one-degree chunk,
    /// or `None` when that chunk holds no sample.
    pub fn get_wind_at(&self, coord: &Coordinate) -> (r: Option<WindData>)
        requires
            self.wf(),
        ensures
            r is None <==> !exists|i: int| 0 <= i < self.points.len() && #[trigger] self.in_chunk(i, *coord),
            r matches Some(w) ==> exists|b: int| #[trigger] self.is_nearest(b, *coord) && w == self.points[b].1,
    {
        let ch = match chunk_exec(coord) {
            Some(ch) => ch,
            None => {
                proof {
                    assert forall|i: int| 0 <= i < self.points.len() implies !#[trigger] self.in_chunk(i, *coord) by {
                        lemma_valid_chunk(self.points[i].0);
                    }
                }
                return None;
            },
        };
        let key = ch.0 * 0x1_0000_0000 + ch.1;
        let list = match self.chunks.get(&key) {
            Some(l) => l,
            None => {
                proof {
                    assert forall|i: int| 0 <= i < self.points.len() implies !#[trigger] self.in_chunk(i, *coord) by {
                        if self.in_chunk(i, *coord) {
                            assert(self.chunks@.contains_key(self.key_of(i) as i64));
                        }
                    }
                }
                return None;
            },
        };
        proof {
            assert forall|i: int| 0 <= i < self.points.len() && #[trigger] self.in_chunk(i, *coord) implies list@.contains(i as usize) by {
                assert(self.key_of(i) == key as int);
                assert(self.chunks@.contains_key(self.key_of(i) as i64));
            }
            assert forall|q: int| 0 <= q < list@.len() implies #[trigger] list@[q] < self.points.len() && self.in_chunk(list@[q] as int, *coord) by {
                let j = list@[q] as int;
                assert(self.chunks@[key]@[q] == list@[q]);
                assert(self.points[j].0.is_valid());
                lemma_valid_chunk(self.points[j].0);
                lemma_chunk_key_injective(chunk_of(self.points[j].0), chunk_of(*coord));
            }
        }
        let mut best: Option<usize> = None;
        let mut best_dist: i64 = 0;
        let mut q: usize = 0;
        while q < list.len()
            invariant
                self.wf(),
                q <= list.len(),
                forall|t: int| 0 <= t < list@.len() ==> #[trigger] list@[t] < self.points.len() && self.in_chunk(list@[t] as int, *coord),
                forall|t1: int, t2: int| 0 <= t1 < t2 < list@.len() ==> #[trigger] list@[t1] < #[trigger] list@[t2],
                q == 0 <==> best is None,
                best matches Some(b) ==> {
                    &&& exists|t: int| 0 <= t < q && list@[t] == b
                    &&& b < self.points.len()
                    &&& self.in_chunk(b as int, *coord)
                    &&& best_dist == sq_dist(self.points[b as int].0, *coord)
                    &&& forall|t: int| 0 <= t < q ==> sq_dist(self.points[b as int].0, *coord) < sq_dist(self.points[#[trigger] list@[t] as int].0, *coord)
                        || (best_dist == sq_dist(self.points[list@[t] as int].0, *coord) && b <= list@[t])
                },
            decreases list.len() - q,
        {
            let j = list[q];
            let p = self.points[j].0;
            proof {
                assert(p.is_valid());
                lemma_valid_chunk(p);
                assert(-MICRO < p.lat - coord.lat < MICRO && -MICRO < p.lon - coord.lon < MICRO) by {
                    vstd::arithmetic::div_mod::lemma_fundamental_div_mod(p.lat as int, MICRO as int);
                    vstd::arithmetic::div_mod::lemma_fundamental_div_mod(coord.lat as int, MICRO as int);
                    vstd::arithmetic::div_mod::lemma_fundamental_div_mod(p.lon as int, MICRO as int);
                    vstd::arithmetic::div_mod::lemma_fundamental_div_mod(coord.lon as int, MICRO as int);
                }
            }
            let dlat = p.lat - coord.lat;
            let dlon = p.lon - coord.lon;
            assert(dlat * dlat < MICRO * MICRO && dlon * dlon < MICRO * MICRO) by (nonlinear_arith)
                requires -MICRO < dlat < MICRO, -MICRO < dlon < MICRO;
            assert(dlat * dlat >= 0 && dlon * dlon >= 0) by (nonlinear_arith);
            let d = dlat * dlat + dlon * dlon;
            let better = match best {
                None => true,
                Some(_) => d < best_dist,
            };
            if better {
                best = Some(j);
                best_dist = d;
            }
            q += 1;
        }
        match best {
            Some(b) => {
                proof {
                    assert forall|i: int| 0 <= i < self.points.len() && #[trigger] self.in_chunk(i, *coord) implies sq_dist(
                        self.points[b as int].0,
                        *coord,
                    ) < sq_dist(self.points[i].0, *coord) || (sq_dist(self.points[b as int].0, *coord) == sq_dist(
                        self.points[i].0,
                        *coord,
                    ) && b <= i) by {
                        assert(list@.contains(i as usize));
                        let t = choose|t: int| 0 <= t < list@.len() && list@[t] == i as usize;
                    }
                    assert(self.is_nearest(b as int, *coord));
                }
                Some(self.points[b].1)
            },
            None => {
                proof {
                    assert(list@.len() == 0);
                    assert forall|i: int| 0 <= i < self.points.len() implies !#[trigger] self.in_chunk(i, *coord) by {
                        if self.in_chunk(i, *coord) {
                            assert(list@.contains(i as usize));
                        }
                    }
                }
                None
            },
        }
    }
}

} // verus!
