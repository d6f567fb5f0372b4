//! The isochrone router: fan expansion of a frontier, then pruning to its outer hull.
use vstd::prelude::*;

use std::collections::HashMap;

use crate::fixed::{normalize_turn, round_div, round_div_i64, turn_of, FULL_TURN, HALF_TURN, MICRO};
use crate::mask::LandMask;
use crate::models::{BoatState, Coordinate, MAX_LAT, MAX_LON};

verus! {

broadcast use vstd::std_specs::hash::group_hash_axioms;

/// Speeds over ground at or below this (1 mm/s, in micro-m/s) reach nowhere.
pub const MIN_SOG: i64 = 1_000;

/// Test headings per parent state.
pub const DEFAULT_HEADING_COUNT: u64 = 360;

/// Half-width of the fan around the bearing to the destination, in micro-degrees.
pub const DEFAULT_HEADING_SPAN: i64 = 180_000_000;

/// Pruning cells per degree.
pub const DEFAULT_GRID_PRECISION: i64 = 400;

/// The finest pruning grid: one cell per micro-degree.
pub const MAX_GRID_PRECISION: i64 = 1_000_000;

/// The most test headings per parent state.
pub const MAX_HEADING_COUNT: u64 = 1_000_000;

/// What sailing one time step from a parent state on one heading gives: the
/// speed over ground (micro-m/s), the point reached, and its great-circle
/// distance to the destination (micro-metres).
#[derive(Debug, Clone, Copy, PartialEq, Eq, Structural)]
pub struct Probe {
    pub sog: i64,
    pub position: Coordinate,
    pub distance_to_destination: i64,
}

/// A state reached in the current step, with its distance to the destination.
#[derive(Debug, Clone, Copy, PartialEq, Eq, Structural)]
pub struct Candidate {
    pub state: BoatState,
    pub distance_to_destination: i64,
}

/// Endpoints and tuning of an isochrone expansion.
pub struct IsochroneRouter {
    pub start: Coordinate,
    pub destination: Coordinate,
    /// Seconds per step.
    pub time_step: i64,
    /// Pruning cells per degree.
    pub grid_precision: i64,
    pub heading_count: u64,
    /// Half-width of the fan, in micro-degrees.
    pub heading_span: i64,
}

/// Whether a probe yields a candidate: it moves, and does not end on land.
pub open spec fn accepted(p: Probe, mask: LandMask) -> bool {
    p.sog > MIN_SOG && !mask.land_at(p.position)
}

/// The candidate that a probe from `parent` gives.
pub open spec fn candidate_of(parent: BoatState, p: Probe, time_step: int) -> Candidate {
    Candidate {
        state: BoatState {
            position: p.position,
            time: (parent.time + time_step) as i64,
            elapsed_time: (parent.elapsed_time + time_step) as i64,
        },
        distance_to_destination: p.distance_to_destination,
    }
}

/// The candidates of one parent's fan, in fan order.
pub open spec fn fan_candidates(
    parent: BoatState,
    fan: Seq<Probe>,
    mask: LandMask,
    time_step: int,
) -> Seq<Candidate>
    decreases fan.len(),
{
    if fan.len() == 0 {
        seq![]
    } else {
        let prev = fan_candidates(parent, fan.drop_last(), mask, time_step);
        if accepted(fan.last(), mask) {
            prev.push(candidate_of(parent, fan.last(), time_step))
        } else {
            prev
        }
    }
}

/// The candidates of a whole frontier: the fans of its states, one after the other.
pub open spec fn front_candidates(
    front: Seq<BoatState>,
    fans: Seq<Vec<Probe>>,
    mask: LandMask,
    time_step: int,
) -> Seq<Candidate>
    decreases front.len(),
{
    if front.len() == 0 || fans.len() == 0 {
        seq![]
    } else {
        front_candidates(front.drop_last(), fans.drop_last(), mask, time_step) + fan_candidates(
            front.last(),
            fans.last()@,
            mask,
            time_step,
        )
    }
}

/// Whether a state can advance one step without leaving the range of its fields.
pub open spec fn can_advance(s: BoatState, time_step: int) -> bool {
    s.time + time_step <= i64::MAX && s.elapsed_time + time_step <= i64::MAX
}

/// Offset of test heading `i` of `n` from the direct bearing: evenly spread over `[-span, span]`.
pub open spec fn heading_offset(i: int, n: int, span: int) -> int {
    if n > 1 {
        -span + (i * 2 * span) / (n - 1)
    } else {
        -span
    }
}

impl IsochroneRouter {
    pub open spec fn wf(&self) -> bool {
        &&& self.time_step >= 0
        &&& 1 <= self.grid_precision <= MAX_GRID_PRECISION
        &&& self.heading_count <= MAX_HEADING_COUNT
        &&& 0 <= self.heading_span <= HALF_TURN
    }

    /// A router with the default fan (360 headings over the full compass) and
    /// pruning grid (400 cells per degree).
    pub fn new(start: Coordinate, destination: Coordinate, time_step: i64) -> (r: IsochroneRouter)
        requires
            time_step >= 0,
        ensures
            r.wf(),
            r.start == start,
            r.destination == destination,
            r.time_step == time_step,
            r.grid_precision == DEFAULT_GRID_PRECISION,
            r.heading_count == DEFAULT_HEADING_COUNT,
            r.heading_span == DEFAULT_HEADING_SPAN,
    {
        IsochroneRouter {
            start,
            destination,
            time_step,
            grid_precision: DEFAULT_GRID_PRECISION,
            heading_count: DEFAULT_HEADING_COUNT,
            heading_span: DEFAULT_HEADING_SPAN,
        }
    }

    /// The test headings around a direct bearing (micro-degrees), each in `[0°, 360°)`.
    pub fn fan_headings(&self, bearing: i64) -> (r: Vec<i64>)
        requires
            self.wf(),
            -FULL_TURN <= bearing <= FULL_TURN,
        ensures
            r.len() == self.heading_count,
            forall|i: int|
                0 <= i < r.len() ==> #[trigger] r[i] == turn_of(
                    bearing + heading_offset(i, self.heading_count as int, self.heading_span as int),
                ),
    {
        let n = self.heading_count;
        let span = self.heading_span;
        let mut r: Vec<i64> = Vec::new();
        let mut i: u64 = 0;
        while i < n
            invariant
                self.wf(),
                n == self.heading_count,
                span == self.heading_span,
                -FULL_TURN <= bearing <= FULL_TURN,
                i <= n,
                r.len() == i,
                forall|k: int|
                    0 <= k < i ==> #[trigger] r[k] == turn_of(
                        bearing + heading_offset(k, n as int, span as int),
                    ),
            decreases n - i,
        {
            let offset: i64 = if n > 1 {
                assert((i as u128) * 2 * (span as u128) <= MAX_HEADING_COUNT * 2 * HALF_TURN)
                    by (nonlinear_arith)
                    requires
                        i <= MAX_HEADING_COUNT,
                        0 <= span <= HALF_TURN,
                ;
                let w = (i as u128) * 2 * (span as u128);
                let q = w / ((n - 1) as u128);
                proof {
                    vstd::arithmetic::div_mod::lemma_div_is_ordered_by_denominator(
                        w as int,
                        1,
                        (n - 1) as int,
                    );
                    lemma_offset_bound(i as int, n as int, span as int);
                }
                -span + q as i64
            } else {
                -span
            };
            r.push(normalize_turn(bearing + offset));
            i += 1;
        }
        r
    }
}

/// The pruning cell of a position at `p` cells per degree: `(round(lon·p), round(lat·p))`.
pub open spec fn cell_of(c: Coordinate, p: int) -> (int, int) {
    (round_div(c.lon * p, MICRO as int), round_div(c.lat * p, MICRO as int))
}

/// Whether some candidate lies in `cell`.
pub open spec fn occupied(cands: Seq<Candidate>, cell: (int, int), p: int) -> bool {
    exists|i: int| 0 <= i < cands.len() && #[trigger] cell_of(cands[i].state.position, p) == cell
}

/// Whether one of the four neighbours of `cell` holds no candidate.
pub open spec fn on_hull(cands: Seq<Candidate>, cell: (int, int), p: int) -> bool {
    ||| !occupied(cands, (cell.0 + 1, cell.1), p)
    ||| !occupied(cands, (cell.0 - 1, cell.1), p)
    ||| !occupied(cands, (cell.0, cell.1 + 1), p)
    ||| !occupied(cands, (cell.0, cell.1 - 1), p)
}

/// Whether candidate `b` comes before candidate `j`: nearer the destination, or
/// as near and earlier.
pub open spec fn precedes(cands: Seq<Candidate>, b: int, j: int) -> bool {
    ||| cands[b].distance_to_destination < cands[j].distance_to_destination
    ||| (cands[b].distance_to_destination == cands[j].distance_to_destination && b <= j)
}

/// Whether candidate `i` is the one its cell keeps: the nearest to the
/// destination, the first to arrive among equals.
pub open spec fn is_cell_best(cands: Seq<Candidate>, i: int, p: int) -> bool {
    forall|j: int|
        0 <= j < cands.len() && #[trigger] cell_of(cands[j].state.position, p) == cell_of(
            cands[i].state.position,
            p,
        ) ==> precedes(cands, i, j)
}

/// Whether state `s` is candidate `i`, the best of its cell, on the hull.
pub open spec fn kept_from(cands: Seq<Candidate>, p: int, s: BoatState, i: int) -> bool {
    &&& 0 <= i < cands.len()
    &&& s == cands[i].state
    &&& is_cell_best(cands, i, p)
    &&& on_hull(cands, cell_of(cands[i].state.position, p), p)
}

/// Whether state `s` is some candidate that pruning keeps.
pub open spec fn is_kept(cands: Seq<Candidate>, p: int, s: BoatState) -> bool {
    exists|i: int| kept_from(cands, p, s, i)
}

/// Whether `r` is what pruning keeps of `cands`: one state per occupied cell,
/// the cell's best candidate, for exactly the cells on the hull.
pub open spec fn is_pruned(cands: Seq<Candidate>, p: int, r: Seq<BoatState>) -> bool {
    &&& forall|k: int| 0 <= k < r.len() ==> is_kept(cands, p, #[trigger] r[k])
    &&& forall|k1: int, k2: int|
        0 <= k1 < k2 < r.len() ==> cell_of(#[trigger] r[k1].position, p) != cell_of(
            #[trigger] r[k2].position,
            p,
        )
    &&& forall|i: int|
        0 <= i < cands.len() && on_hull(cands, #[trigger] cell_of(cands[i].state.position, p), p)
            ==> exists|k: int| 0 <= k < r.len() && cell_of(#[trigger] r[k].position, p) == cell_of(
            cands[i].state.position,
            p,
        )
}

/// The hash key of a cell.
pub open spec fn cell_key(cell: (int, int)) -> int {
    cell.0 * 0x1_0000_0000 + cell.1
}

spec fn cand_key(cands: Seq<Candidate>, j: int, p: int) -> int {
    cell_key(cell_of(cands[j].state.position, p))
}

spec fn small_cell(cell: (int, int)) -> bool {
    -MAX_LON - 1 <= cell.0 <= MAX_LON + 1 && -MAX_LAT - 1 <= cell.1 <= MAX_LAT + 1
}

proof fn lemma_round_bound(n: int, m: int, d: int)
    requires
        d > 0,
        m >= 0,
        -m * d <= n <= m * d,
    ensures
        -m <= round_div(n, d) <= m,
{
    let a = if n >= 0 { n } else { -n };
    assert(0 <= a <= m * d) by (nonlinear_arith)
        requires
            a == if n >= 0 { n } else { -n },
            -m * d <= n <= m * d;
    vstd::arithmetic::div_mod::lemma_div_is_ordered(2 * a + d, 2 * (m * d) + d, 2 * d);
    assert(2 * (m * d) + d == m * (2 * d) + d) by (nonlinear_arith);
    vstd::arithmetic::div_mod::lemma_fundamental_div_mod_converse_div(2 * (m * d) + d, 2 * d, m, d);
    vstd::arithmetic::div_mod::lemma_div_pos_is_pos(2 * a + d, 2 * d);
}

proof fn lemma_cell_small(c: Coordinate, p: int)
    requires
        c.is_valid(),
        1 <= p <= MAX_GRID_PRECISION,
    ensures
        small_cell(cell_of(c, p)),
        -MAX_LON <= cell_of(c, p).0 <= MAX_LON,
        -MAX_LAT <= cell_of(c, p).1 <= MAX_LAT,
{
    assert(-(MAX_LON as int) * MICRO <= c.lon * p <= MAX_LON as int * MICRO) by (nonlinear_arith)
        requires -MAX_LON <= c.lon <= MAX_LON, 1 <= p <= MICRO;
    assert(-(MAX_LAT as int) * MICRO <= c.lat * p <= MAX_LAT as int * MICRO) by (nonlinear_arith)
        requires -MAX_LAT <= c.lat <= MAX_LAT, 1 <= p <= MICRO;
    lemma_round_bound(c.lon * p, MAX_LON as int, MICRO as int);
    lemma_round_bound(c.lat * p, MAX_LAT as int, MICRO as int);
}

proof fn lemma_key_injective(a: (int, int), b: (int, int))
    requires
        small_cell(a),
        small_cell(b),
        cell_key(a) == cell_key(b),
    ensures
        a == b,
{
    assert((a.0 - b.0) * 0x1_0000_0000 == b.1 - a.1) by (nonlinear_arith)
        requires a.0 * 0x1_0000_0000 + a.1 == b.0 * 0x1_0000_0000 + b.1;
    assert(a.0 == b.0) by (nonlinear_arith)
        requires
            (a.0 - b.0) * 0x1_0000_0000 == b.1 - a.1,
            -0x1_0000_0000 < b.1 - a.1 < 0x1_0000_0000;
}

fn cell_exec(c: &Coordinate, p: i64) -> (r: (i64, i64))
    requires
        c.is_valid(),
        1 <= p <= MAX_GRID_PRECISION,
    ensures
        (r.0 as int, r.1 as int) == cell_of(*c, p as int),
        small_cell(cell_of(*c, p as int)),
        -MAX_LON <= r.0 <= MAX_LON,
        -MAX_LAT <= r.1 <= MAX_LAT,
{
    proof {
        lemma_cell_small(*c, p as int);
        assert(-(MAX_LON as int) * MICRO <= c.lon * p <= MAX_LON as int * MICRO) by (nonlinear_arith)
            requires -MAX_LON <= c.lon <= MAX_LON, 1 <= p <= MICRO;
        assert(-(MAX_LAT as int) * MICRO <= c.lat * p <= MAX_LAT as int * MICRO) by (nonlinear_arith)
            requires -MAX_LAT <= c.lat <= MAX_LAT, 1 <= p <= MICRO;
    }
    (round_div_i64(c.lon * p, MICRO), round_div_i64(c.lat * p, MICRO))
}

fn key_exec(x: i64, y: i64) -> (r: i64)
    requires
        small_cell((x as int, y as int)),
    ensures
        r == cell_key((x as int, y as int)),
{
    assert(-0x1_0000_0000_0000_0000 <= x * 0x1_0000_0000 <= 0x1_0000_0000_0000_0000)
        by (nonlinear_arith)
        requires -MAX_LON - 1 <= x <= MAX_LON + 1;
    x * 0x1_0000_0000 + y
}

/// What a cell table holds after bucketing the candidates: `slots` maps the key
/// of each occupied cell to a slot of `best`, which holds the index of the
/// cell's best candidate.
spec fn buckets_ok(
    cands: Seq<Candidate>,
    p: int,
    n: int,
    slots: Map<i64, usize>,
    best: Seq<usize>,
) -> bool {
    &&& forall|j: int| 0 <= j < n ==> slots.contains_key(#[trigger] cand_key(cands, j, p) as i64)
    &&& forall|k: i64|
        #[trigger] slots.contains_key(k) ==> slots[k] < best.len() && cand_key(
            cands,
            best[slots[k] as int] as int,
            p,
        ) == k
    &&& forall|s: int|
        0 <= s < best.len() ==> #[trigger] best[s] < n && slots.contains_key(
            cand_key(cands, best[s] as int, p) as i64,
        ) && slots[cand_key(cands, best[s] as int, p) as i64] == s
    &&& forall|j: int|
        0 <= j < n ==> precedes(
            cands,
            best[slots[#[trigger] cand_key(cands, j, p) as i64] as int] as int,
            j,
        )
}

spec fn cands_valid(cands: Seq<Candidate>) -> bool {
    forall|i: int| 0 <= i < cands.len() ==> (#[trigger] cands[i]).state.position.is_valid()
}

proof fn lemma_occupied_slot(
    cands: Seq<Candidate>,
    p: int,
    slots: Map<i64, usize>,
    best: Seq<usize>,
    cell: (int, int),
)
    requires
        1 <= p <= MAX_GRID_PRECISION,
        cands_valid(cands),
        buckets_ok(cands, p, cands.len() as int, slots, best),
        small_cell(cell),
    ensures
        slots.contains_key(cell_key(cell) as i64) <==> occupied(cands, cell, p),
{
    let k = cell_key(cell) as i64;
    assert(-0x1_0000_0000_0000_0000 <= cell.0 * 0x1_0000_0000 <= 0x1_0000_0000_0000_0000)
        by (nonlinear_arith)
        requires -MAX_LON - 1 <= cell.0 <= MAX_LON + 1;
    if slots.contains_key(k) {
        let b = best[slots[k] as int] as int;
        assert(cand_key(cands, b, p) == k);
        assert(0 <= b < cands.len());
        assert(cands[b].state.position.is_valid());
        lemma_cell_small(cands[b].state.position, p);
        lemma_key_injective(cell_of(cands[b].state.position, p), cell);
        assert(cell_of(cands[b].state.position, p) == cell);
    }
    if occupied(cands, cell, p) {
        let j = choose|j: int| 0 <= j < cands.len() && #[trigger] cell_of(cands[j].state.position, p) == cell;
        assert(slots.contains_key(cand_key(cands, j, p) as i64));
    }
}

impl IsochroneRouter {
    /// Pass one: turns each parent's probes into candidates, dropping those that
    /// barely move or end on land.
    pub fn expand(&self, front: &Vec<BoatState>, fans: &Vec<Vec<Probe>>, mask: &LandMask) -> (r:
        Vec<Candidate>)
        requires
            self.wf(),
            front.len() == fans.len(),
            forall|i: int| 0 <= i < front.len() ==> can_advance(#[trigger] front[i], self.time_step as int),
        ensures
            r@ == front_candidates(front@, fans@, *mask, self.time_step as int),
    {
        let ts = self.time_step;
        let mut r: Vec<Candidate> = Vec::new();
        let mut i: usize = 0;
        while i < front.len()
            invariant
                front.len() == fans.len(),
                ts == self.time_step,
                ts >= 0,
                forall|k: int| 0 <= k < front.len() ==> can_advance(#[trigger] front[k], ts as int),
                i <= front.len(),
                r@ == front_candidates(front@.take(i as int), fans@.take(i as int), *mask, ts as int),
            decreases front.len() - i,
        {
            let parent = front[i];
            let fan = &fans[i];
            let ghost done = r@;
            let mut j: usize = 0;
            while j < fan.len()
                invariant
                    0 <= i < front.len(),
                    parent == front[i as int],
                    ts >= 0,
                    can_advance(parent, ts as int),
                    j <= fan.len(),
                    r@ == done + fan_candidates(parent, fan@.take(j as int), *mask, ts as int),
                decreases fan.len() - j,
            {
                let p = fan[j];
                if p.sog > MIN_SOG && !mask.is_land(&p.position) {
                    r.push(
                        Candidate {
                            state: BoatState {
                                position: p.position,
                                time: parent.time + ts,
                                elapsed_time: parent.elapsed_time + ts,
                            },
                            distance_to_destination: p.distance_to_destination,
                        },
                    );
                }
                assert(fan@.take(j + 1).drop_last() == fan@.take(j as int));
                j += 1;
            }
            assert(fan@.take(j as int) == fan@);
            assert(front@.take(i + 1).drop_last() == front@.take(i as int));
            assert(fans@.take(i + 1).drop_last() == fans@.take(i as int));
            i += 1;
        }
        assert(front@.take(i as int) == front@);
        assert(fans@.take(i as int) == fans@);
        r
    }
}

impl IsochroneRouter {
    /// Passes two and three: keeps the best candidate of each occupied cell,
    /// then only the cells with an empty 4-neighbour.
    pub fn prune(&self, cands: &Vec<Candidate>) -> (r: Vec<BoatState>)
        requires
            self.wf(),
            forall|i: int| 0 <= i < cands.len() ==> (#[trigger] cands[i]).state.position.is_valid(),
        ensures
            is_pruned(cands@, self.grid_precision as int, r@),
    {
        let p = self.grid_precision;
        let n = cands.len();
        let ghost cs = cands@;
        assert(cands_valid(cs));
        let mut slots: HashMap<i64, usize> = HashMap::new();
        let mut best: Vec<usize> = Vec::new();
        let mut i: usize = 0;
        while i < n
            invariant
                1 <= p <= MAX_GRID_PRECISION,
                n == cands.len(),
                cs == cands@,
                cands_valid(cs),
                i <= n,
                buckets_ok(cs, p as int, i as int, slots@, best@),
            decreases n - i,
        {
            let c = cell_exec(&cands[i].state.position, p);
            let key = key_exec(c.0, c.1);
            assert(key == cand_key(cs, i as int, p as int));
            match slots.get(&key) {
                Some(sl) => {
                    let sl = *sl;
                    let b = best[sl];
                    if cands[i].distance_to_destination < cands[b].distance_to_destination {
                        best.set(sl, i);
                        assert(forall|k: i64| #[trigger] slots@.contains_key(k) && slots@[k] == sl ==> k == key);
                    }
                },
                None => {
                    slots.insert(key, best.len());
                    best.push(i);
                },
            }
            i += 1;
        }
        let mut r: Vec<BoatState> = Vec::new();
        let ghost mut picked: Seq<int> = seq![];
        let mut s: usize = 0;
        while s < best.len()
            invariant
                1 <= p <= MAX_GRID_PRECISION,
                n == cands.len(),
                cs == cands@,
                cands_valid(cs),
                buckets_ok(cs, p as int, n as int, slots@, best@),
                s <= best.len(),
                r.len() == picked.len(),
                forall|k: int|
                    0 <= k < r.len() ==> 0 <= #[trigger] picked[k] < s && r[k] == cs[best[picked[k]] as int].state
                        && on_hull(cs, cell_of(cs[best[picked[k]] as int].state.position, p as int), p as int),
                forall|k1: int, k2: int| 0 <= k1 < k2 < r.len() ==> #[trigger] picked[k1] < #[trigger] picked[k2],
                forall|t: int|
                    0 <= t < s && on_hull(cs, cell_of(cs[#[trigger] best[t] as int].state.position, p as int), p as int)
                        ==> exists|k: int| 0 <= k < r.len() && picked[k] == t,
            decreases best.len() - s,
        {
            let b = best[s];
            let c = cell_exec(&cands[b].state.position, p);
            let (x, y) = c;
            let east = slots.contains_key(&key_exec(x + 1, y));
            let west = slots.contains_key(&key_exec(x - 1, y));
            let north = slots.contains_key(&key_exec(x, y + 1));
            let south = slots.contains_key(&key_exec(x, y - 1));
            proof {
                let cell = (x as int, y as int);
                lemma_occupied_slot(cs, p as int, slots@, best@, (cell.0 + 1, cell.1));
                lemma_occupied_slot(cs, p as int, slots@, best@, (cell.0 - 1, cell.1));
                lemma_occupied_slot(cs, p as int, slots@, best@, (cell.0, cell.1 + 1));
                lemma_occupied_slot(cs, p as int, slots@, best@, (cell.0, cell.1 - 1));
            }
            let ghost old_picked = picked;
            if !east || !west || !north || !south {
                r.push(cands[b].state);
                proof {
                    picked = picked.push(s as int);
                }
            }
            proof {
                assert forall|t: int|
                    0 <= t < s + 1 && on_hull(
                        cs,
                        cell_of(cs[#[trigger] best[t] as int].state.position, p as int),
                        p as int,
                    ) implies exists|k: int| 0 <= k < r.len() && picked[k] == t by {
                    if t == s {
                        assert(picked[picked.len() - 1] == t);
                    } else {
                        let k = choose|k: int| 0 <= k < old_picked.len() && old_picked[k] == t;
                        assert(picked[k] == t);
                    }
                }
            }
            s += 1;
        }
        proof {
            let pi = p as int;
            assert forall|k: int| 0 <= k < r.len() implies is_kept(cs, pi, #[trigger] r@[k]) by {
                let t = picked[k];
                let i = best[t] as int;
                assert(0 <= t < best.len());
                assert(0 <= i < cs.len());
                assert(r@[k] == cs[i].state);
                assert(on_hull(cs, cell_of(cs[i].state.position, pi), pi));
                assert forall|j: int|
                    0 <= j < cs.len() && #[trigger] cell_of(cs[j].state.position, pi) == cell_of(
                        cs[i].state.position,
                        pi,
                    ) implies precedes(cs, i, j) by {
                    assert(cand_key(cs, j, pi) == cand_key(cs, i, pi));
                    assert(slots@.contains_key(cand_key(cs, j, pi) as i64));
                    assert(slots@[cand_key(cs, i, pi) as i64] == t);
                }
                assert(is_cell_best(cs, i, pi));
                assert(kept_from(cs, pi, r@[k], i));
            }
            assert forall|k1: int, k2: int|
                0 <= k1 < k2 < r.len() implies cell_of(#[trigger] r@[k1].position, pi) != cell_of(
                    #[trigger] r@[k2].position,
                    pi,
                ) by {
                let b1 = best[picked[k1]] as int;
                let b2 = best[picked[k2]] as int;
                assert(picked[k1] < picked[k2]);
                if cell_of(cs[b1].state.position, pi) == cell_of(cs[b2].state.position, pi) {
                    assert(cand_key(cs, b1, pi) == cand_key(cs, b2, pi));
                    assert(slots@[cand_key(cs, b1, pi) as i64] == picked[k1]);
                    assert(slots@[cand_key(cs, b2, pi) as i64] == picked[k2]);
                }
            }
            assert forall|i: int|
                0 <= i < cs.len() && on_hull(cs, #[trigger] cell_of(cs[i].state.position, pi), pi)
                    implies exists|k: int| 0 <= k < r.len() && cell_of(#[trigger] r@[k].position, pi)
                    == cell_of(cs[i].state.position, pi) by {
                let key = cand_key(cs, i, pi) as i64;
                assert(slots@.contains_key(key));
                let t = slots@[key] as int;
                let b = best[t] as int;
                assert(cand_key(cs, b, pi) == key);
                assert(cs[b].state.position.is_valid());
                assert(cs[i].state.position.is_valid());
                lemma_cell_small(cs[b].state.position, pi);
                lemma_cell_small(cs[i].state.position, pi);
                lemma_key_injective(cell_of(cs[b].state.position, pi), cell_of(cs[i].state.position, pi));
                let k = choose|k: int| 0 <= k < r.len() && picked[k] == t;
                assert(r@[k] == cs[b].state);
            }
            assert(is_pruned(cs, pi, r@));
        }
        r
    }
}

/// Whether candidate `c` comes from probe `j` of the fan.
spec fn from_fan(parent: BoatState, fan: Seq<Probe>, mask: LandMask, ts: int, c: Candidate) -> bool {
    exists|j: int|
        0 <= j < fan.len() && accepted(#[trigger] fan[j], mask) && c == candidate_of(parent, fan[j], ts)
}

/// Whether candidate `c` comes from an accepted probe of one of the frontier's fans.
spec fn from_front(
    front: Seq<BoatState>,
    fans: Seq<Vec<Probe>>,
    mask: LandMask,
    ts: int,
    c: Candidate,
) -> bool {
    exists|i: int| 0 <= i < front.len() && #[trigger] from_fan(front[i], fans[i]@, mask, ts, c)
}

proof fn lemma_fan_origin(parent: BoatState, fan: Seq<Probe>, mask: LandMask, ts: int)
    ensures
        forall|q: int|
            0 <= q < fan_candidates(parent, fan, mask, ts).len() ==> from_fan(
                parent,
                fan,
                mask,
                ts,
                #[trigger] fan_candidates(parent, fan, mask, ts)[q],
            ),
    decreases fan.len(),
{
    if fan.len() > 0 {
        let prev = fan.drop_last();
        lemma_fan_origin(parent, prev, mask, ts);
        let fc = fan_candidates(parent, fan, mask, ts);
        assert forall|q: int| 0 <= q < fc.len() implies from_fan(parent, fan, mask, ts, #[trigger] fc[q]) by {
            let pc = fan_candidates(parent, prev, mask, ts);
            if q < pc.len() {
                assert(fc[q] == pc[q]);
                assert(from_fan(parent, prev, mask, ts, pc[q]));
                let j = choose|j: int|
                    0 <= j < prev.len() && accepted(#[trigger] prev[j], mask) && pc[q] == candidate_of(
                        parent,
                        prev[j],
                        ts,
                    );
                assert(fan[j] == prev[j]);
            } else {
                assert(fan[fan.len() - 1] == fan.last());
            }
        }
    }
}

proof fn lemma_front_origin(front: Seq<BoatState>, fans: Seq<Vec<Probe>>, mask: LandMask, ts: int)
    requires
        front.len() == fans.len(),
    ensures
        forall|q: int|
            0 <= q < front_candidates(front, fans, mask, ts).len() ==> from_front(
                front,
                fans,
                mask,
                ts,
                #[trigger] front_candidates(front, fans, mask, ts)[q],
            ),
    decreases front.len(),
{
    if front.len() > 0 {
        let pf = front.drop_last();
        let pfans = fans.drop_last();
        lemma_front_origin(pf, pfans, mask, ts);
        let last = front.len() - 1;
        lemma_fan_origin(front[last], fans[last]@, mask, ts);
        let all = front_candidates(front, fans, mask, ts);
        let before = front_candidates(pf, pfans, mask, ts);
        assert forall|q: int| 0 <= q < all.len() implies from_front(front, fans, mask, ts, #[trigger] all[q]) by {
            if q < before.len() {
                assert(all[q] == before[q]);
                assert(from_front(pf, pfans, mask, ts, before[q]));
                let i = choose|i: int| 0 <= i < pf.len() && #[trigger] from_fan(pf[i], pfans[i]@, mask, ts, before[q]);
                assert(front[i] == pf[i] && fans[i] == pfans[i]);
                assert(from_fan(front[i], fans[i]@, mask, ts, all[q]));
            } else {
                let fc = fan_candidates(front[last], fans[last]@, mask, ts);
                assert(all[q] == fc[q - before.len()]);
                assert(from_fan(front[last], fans[last]@, mask, ts, all[q]));
            }
        }
    }
}

impl IsochroneRouter {
    /// One isochrone step: expands every state of the frontier through its
    /// probes, then prunes the candidates to the outer hull.
    pub fn step(&self, front: &Vec<BoatState>, fans: &Vec<Vec<Probe>>, mask: &LandMask) -> (r: Vec<
        BoatState,
    >)
        requires
            self.wf(),
            front.len() == fans.len(),
            forall|i: int| 0 <= i < front.len() ==> can_advance(#[trigger] front[i], self.time_step as int),
            forall|i: int, j: int|
                0 <= i < fans.len() && 0 <= j < fans[i].len() ==> (#[trigger] fans[i][j]).position.is_valid(),
        ensures
            is_pruned(
                front_candidates(front@, fans@, *mask, self.time_step as int),
                self.grid_precision as int,
                r@,
            ),
            forall|k: int| 0 <= k < r.len() ==> !mask.land_at(#[trigger] r[k].position),
            forall|k: int|
                0 <= k < r.len() ==> exists|i: int|
                    0 <= i < front.len() && (#[trigger] r[k]).elapsed_time == front[i].elapsed_time
                        + self.time_step && r[k].time == front[i].time + self.time_step,
    {
        let cands = self.expand(front, fans, mask);
        let ghost ts = self.time_step as int;
        proof {
            lemma_front_origin(front@, fans@, *mask, ts);
            assert forall|q: int| 0 <= q < cands.len() implies (#[trigger] cands@[q]).state.position.is_valid() by {
                assert(from_front(front@, fans@, *mask, ts, cands@[q]));
                let i = choose|i: int| 0 <= i < front.len() && #[trigger] from_fan(front@[i], fans@[i]@, *mask, ts, cands@[q]);
                let j = choose|j: int|
                    0 <= j < fans@[i]@.len() && accepted(#[trigger] fans@[i]@[j], *mask) && cands@[q] == candidate_of(
                        front@[i],
                        fans@[i]@[j],
                        ts,
                    );
                assert(fans[i][j].position.is_valid());
            }
        }
        let r = self.prune(&cands);
        proof {
            let pi = self.grid_precision as int;
            assert forall|k: int| 0 <= k < r.len() implies !mask.land_at(#[trigger] r@[k].position) && exists|i: int|
                    0 <= i < front.len() && r@[k].elapsed_time == front@[i].elapsed_time
                        + self.time_step && r@[k].time == front@[i].time + self.time_step by {
                assert(is_kept(cands@, pi, r@[k]));
                let q = choose|q: int| kept_from(cands@, pi, r@[k], q);
                assert(from_front(front@, fans@, *mask, ts, cands@[q]));
                let i = choose|i: int| 0 <= i < front.len() && #[trigger] from_fan(front@[i], fans@[i]@, *mask, ts, cands@[q]);
                let j = choose|j: int|
                    0 <= j < fans@[i]@.len() && accepted(#[trigger] fans@[i]@[j], *mask) && cands@[q] == candidate_of(
                        front@[i],
                        fans@[i]@[j],
                        ts,
                    );
                assert(can_advance(front@[i], ts));
            }
        }
        r
    }
}

/// A routing session: the router and the history of its frontiers, the
/// first being the departure alone.
pub struct RoutingState {
    pub is_playing: bool,
    pub router: IsochroneRouter,
    pub fronts: Vec<Vec<BoatState>>,
}

impl RoutingState {
    pub open spec fn wf(&self) -> bool {
        self.router.wf() && self.fronts.len() >= 1
    }

    /// A paused session from Saint-Malo to Saint-Florent in one-hour steps,
    /// departing at `now` (seconds since the epoch).
    pub fn new(now: i64) -> (r: RoutingState)
        ensures
            r.wf(),
            !r.is_playing,
            r.router.start.lat == 48_660_000 && r.router.start.lon == -2_030_000,
            r.router.destination.lat == 42_680_000 && r.router.destination.lon == 9_300_000,
            r.router.time_step == 3600,
            r.fronts@.len() == 1,
            r.fronts[0]@ == seq![BoatState { position: r.router.start, time: now, elapsed_time: 0 }],
    {
        let start = Coordinate { lat: 48_660_000, lon: -2_030_000 };
        let destination = Coordinate { lat: 42_680_000, lon: 9_300_000 };
        let router = IsochroneRouter::new(start, destination, 3600);
        let mut first: Vec<BoatState> = Vec::new();
        first.push(BoatState { position: start, time: now, elapsed_time: 0 });
        let mut fronts: Vec<Vec<BoatState>> = Vec::new();
        fronts.push(first);
        RoutingState { is_playing: false, router, fronts }
    }

    /// Computes the next frontier from the last one and appends it to the history.
    pub fn advance(&mut self, fans: &Vec<Vec<Probe>>, mask: &LandMask)
        requires
            old(self).wf(),
            old(self).fronts@.last().len() == fans.len(),
            forall|i: int|
                0 <= i < old(self).fronts@.last().len() ==> can_advance(
                    #[trigger] old(self).fronts@.last()[i],
                    old(self).router.time_step as int,
                ),
            forall|i: int, j: int|
                0 <= i < fans.len() && 0 <= j < fans[i].len() ==> (#[trigger] fans[i][j]).position.is_valid(),
        ensures
            final(self).wf(),
            final(self).router == old(self).router,
            final(self).is_playing == old(self).is_playing,
            final(self).fronts@.len() == old(self).fronts@.len() + 1,
            forall|k: int| 0 <= k < old(self).fronts@.len() ==> #[trigger] final(self).fronts@[k] == old(self).fronts@[k],
            is_pruned(
                front_candidates(old(self).fronts@.last()@, fans@, *mask, old(self).router.time_step as int),
                old(self).router.grid_precision as int,
                final(self).fronts@.last()@,
            ),
    {
        let last = self.fronts.len() - 1;
        let next = self.router.step(&self.fronts[last], fans, mask);
        self.fronts.push(next);
    }
}

proof fn lemma_offset_bound(i: int, n: int, span: int)
    requires
        0 <= i < n,
        n > 1,
        0 <= span,
    ensures
        0 <= (i * 2 * span) / (n - 1) <= 2 * span,
{
    assert(i * 2 * span <= (n - 1) * (2 * span)) by (nonlinear_arith)
        requires 0 <= i < n, 0 <= span;
    assert(0 <= i * 2 * span) by (nonlinear_arith)
        requires 0 <= i, 0 <= span;
    vstd::arithmetic::div_mod::lemma_div_is_ordered(i * 2 * span, (n - 1) * (2 * span), n - 1);
    vstd::arithmetic::div_mod::lemma_div_multiples_vanish(2 * span, n - 1);
    vstd::arithmetic::div_mod::lemma_div_pos_is_pos(i * 2 * span, n - 1);
}

} // verus!
