use weather_routing::mask::LandMask;
use weather_routing::models::{BoatState, Coordinate, CurrentData, WindData};
use weather_routing::physics::PhysicsModel;
use weather_routing::polars::PolarData;
use weather_routing::router::{Candidate, IsochroneRouter, Probe};

const M: i64 = 1_000_000;
const R_EARTH: f64 = 6_371_000.0;

fn to_deg(c: &Coordinate) -> (f64, f64) {
    (c.lat as f64 / 1e6, c.lon as f64 / 1e6)
}

fn micro(a: f64) -> i64 {
    (a * 1e6).round() as i64
}

fn bearing(a: &Coordinate, b: &Coordinate) -> f64 {
    let (la1, lo1) = to_deg(a);
    let (la2, lo2) = to_deg(b);
    let (phi1, phi2, dl) = (la1.to_radians(), la2.to_radians(), (lo2 - lo1).to_radians());
    let y = dl.sin() * phi2.cos();
    let x = phi1.cos() * phi2.sin() - phi1.sin() * phi2.cos() * dl.cos();
    y.atan2(x).to_degrees().rem_euclid(360.0)
}

fn distance(a: &Coordinate, b: &Coordinate) -> f64 {
    let (la1, lo1) = to_deg(a);
    let (la2, lo2) = to_deg(b);
    let dp = (la2 - la1).to_radians();
    let dl = (lo2 - lo1).to_radians();
    let h = (dp / 2.0).sin().powi(2)
        + la1.to_radians().cos() * la2.to_radians().cos() * (dl / 2.0).sin().powi(2);
    R_EARTH * 2.0 * h.sqrt().atan2((1.0 - h).sqrt())
}

fn destination(a: &Coordinate, d: f64, brg: f64) -> Coordinate {
    let (la, lo) = to_deg(a);
    let (phi1, l1, t, ad) = (la.to_radians(), lo.to_radians(), brg.to_radians(), d / R_EARTH);
    let phi2 = (phi1.sin() * ad.cos() + phi1.cos() * ad.sin() * t.cos()).asin();
    let l2 = l1 + (t.sin() * ad.sin() * phi1.cos()).atan2(ad.cos() - phi1.sin() * phi2.sin());
    Coordinate::new(micro(phi2.to_degrees()), micro(l2.to_degrees()))
}

/// Probes of every heading of the fan from `s`, with uniform wind and current.
fn probes_from(
    router: &IsochroneRouter,
    s: &BoatState,
    polar: &PolarData,
    wind: WindData,
    current: CurrentData,
) -> Vec<Probe> {
    let physics = PhysicsModel::new();
    let brg = micro(bearing(&s.position, &router.destination));
    let tws = wind.speed();
    let twd = WindData::direction_from_angle(micro((wind.v as f64).atan2(wind.u as f64).to_degrees()));
    let mut out = Vec::new();
    for h in router.fan_headings(brg) {
        let stw = physics.speed_through_water(tws, twd, h, polar);
        let hr = (h as f64 / 1e6).to_radians();
        let east = (stw as f64 * hr.sin()).round() as i64;
        let north = (stw as f64 * hr.cos()).round() as i64;
        let sog = physics.speed_over_ground(east, north, &current);
        let cog = ((east + current.u) as f64).atan2((north + current.v) as f64).to_degrees();
        let d = sog as f64 / 1e6 * router.time_step as f64;
        let p = destination(&s.position, d, cog);
        out.push(Probe {
            sog,
            position: p,
            distance_to_destination: micro(distance(&p, &router.destination)),
        });
    }
    out
}

fn start_state(c: Coordinate) -> BoatState {
    BoatState { position: c, time: 1_700_000_000, elapsed_time: 0 }
}

fn five_knots() -> PolarData {
    PolarData {
        tws: vec![0, 10 * M, 20 * M],
        twa: vec![0, 90 * M, 180 * M],
        speeds: vec![vec![5 * M; 3], vec![5 * M; 3], vec![5 * M; 3]],
    }
}

#[test]
fn router_defaults() {
    let router = IsochroneRouter::new(Coordinate::new(48_660_000, -2_030_000), Coordinate::new(42_680_000, 9_300_000), 3600);
    assert_eq!(router.time_step, 3600);
    assert_eq!(router.grid_precision, 400);
    assert_eq!(router.heading_count, 360);
    assert_eq!(router.heading_span, 180 * M);
}

#[test]
fn fan_spans_the_compass() {
    let router = IsochroneRouter::new(Coordinate::new(0, 0), Coordinate::new(M, 0), 3600);
    let fan = router.fan_headings(0);
    assert_eq!(fan.len(), 360);
    assert_eq!(fan[0], 180 * M);
    assert_eq!(fan[359], 180 * M);
    assert!(fan.iter().all(|h| (0..360 * M).contains(h)));
    // 1° steps spread over 359 gaps: 360/359 degrees apart, rounded down.
    assert_eq!(fan[1], 181_002_785);
}

#[test]
fn fan_accepts_compass_bearings() {
    let router = IsochroneRouter::new(Coordinate::new(0, 0), Coordinate::new(0, -M), 3600);
    let fan = router.fan_headings(270 * M);
    assert_eq!(fan.len(), 360);
    assert_eq!(fan[0], 90 * M);
    assert!(fan.iter().all(|h| (0..360 * M).contains(h)));
    assert_eq!(router.fan_headings(-90 * M), fan);
}

#[test]
fn test_router_expansion() {
    let start = Coordinate::new(45 * M, -1 * M);
    let router = IsochroneRouter::new(start, Coordinate::new(46 * M, -1 * M), 3600);
    let mask = LandMask::new();
    let s = start_state(start);
    let fan = probes_from(&router, &s, &five_knots(), WindData { u: 0, v: 5 * M }, CurrentData { u: 0, v: 0 });
    let next = router.step(&vec![s], &vec![fan], &mask);
    assert!(next.len() > 1, "Router should expand to multiple points, got {}", next.len());
    for state in &next {
        assert!(state.position != start);
        assert_eq!(state.elapsed_time, 3600);
        assert_eq!(state.time, 1_700_000_000 + 3600);
        // 5 knots for an hour is 9260 m; allow for rounding of the fixed-point position.
        assert!(distance(&start, &state.position) <= 9_260.0 * 1.01);
    }
}

#[test]
fn test_router_zero_speed() {
    let start = Coordinate::new(45 * M, -1 * M);
    let router = IsochroneRouter::new(start, Coordinate::new(46 * M, -1 * M), 3600);
    let mask = LandMask::new();
    let s = start_state(start);
    let fan = probes_from(&router, &s, &PolarData::default(), WindData { u: 10 * M, v: 10 * M }, CurrentData { u: 0, v: 0 });
    assert!(fan.iter().all(|p| p.sog == 0));
    let next = router.step(&vec![s], &vec![fan], &mask);
    assert_eq!(next.len(), 0);
}

#[test]
fn test_router_land_avoidance() {
    let start = Coordinate::new(50_500_000, -1_350_000);
    let router = IsochroneRouter::new(start, Coordinate::new(50_800_000, -1_350_000), 1800);
    let mut mask = LandMask::new();
    // an island just north of the start
    mask.add_land_box(-1_600_000, -1_100_000, 50_560_000, 50_700_000);
    let polar = PolarData {
        tws: vec![0, 20 * M],
        twa: vec![0, 180 * M],
        speeds: vec![vec![10 * M, 10 * M], vec![10 * M, 10 * M]],
    };
    let s = start_state(start);
    let fan = probes_from(&router, &s, &polar, WindData { u: 0, v: 15 * M }, CurrentData { u: 0, v: 0 });
    assert!(fan.iter().any(|p| mask.is_land(&p.position)));
    let next = router.step(&vec![s], &vec![fan], &mask);
    assert!(!next.is_empty());
    for state in &next {
        assert!(!mask.is_land(&state.position), "Point should not be on land: {:?}", state.position);
    }
}

fn cand(lat: i64, lon: i64, dist: i64) -> Candidate {
    Candidate {
        state: BoatState { position: Coordinate::new(lat, lon), time: 10, elapsed_time: 10 },
        distance_to_destination: dist,
    }
}

#[test]
fn prune_keeps_the_hull_of_a_block() {
    let router = IsochroneRouter::new(Coordinate::new(0, 0), Coordinate::new(M, 0), 3600);
    // cells are 2500 micro-degrees wide at 400 cells per degree
    let mut cands = Vec::new();
    for i in 0..3 {
        for j in 0..3 {
            cands.push(cand(i * 2500, j * 2500, 100));
        }
    }
    let kept = router.prune(&cands);
    assert_eq!(kept.len(), 8);
    assert!(kept.iter().all(|s| s.position != Coordinate::new(2500, 2500)));
}

#[test]
fn prune_keeps_the_nearest_of_a_cell() {
    let router = IsochroneRouter::new(Coordinate::new(0, 0), Coordinate::new(M, 0), 3600);
    let cands = vec![cand(0, 0, 500), cand(1000, 1000, 300), cand(-1000, 0, 300), cand(50_000, 0, 1)];
    let kept = router.prune(&cands);
    assert_eq!(kept.len(), 2);
    assert_eq!(kept[0].position, Coordinate::new(1000, 1000));
    assert_eq!(kept[1].position, Coordinate::new(50_000, 0));
}

#[test]
fn expand_drops_slow_and_landed_probes() {
    let router = IsochroneRouter::new(Coordinate::new(0, 0), Coordinate::new(M, 0), 600);
    let mut mask = LandMask::new();
    mask.add_land_box(M, 2 * M, M, 2 * M);
    let parent = BoatState { position: Coordinate::new(0, 0), time: 5, elapsed_time: 7 };
    let fan = vec![
        Probe { sog: 1_000, position: Coordinate::new(10, 10), distance_to_destination: 1 },
        Probe { sog: 1_001, position: Coordinate::new(20, 20), distance_to_destination: 2 },
        Probe { sog: 5 * M, position: Coordinate::new(1_500_000, 1_500_000), distance_to_destination: 3 },
    ];
    let c = router.expand(&vec![parent], &vec![fan], &mask);
    assert_eq!(c.len(), 1);
    assert_eq!(c[0].state, BoatState { position: Coordinate::new(20, 20), time: 605, elapsed_time: 607 });
    assert_eq!(c[0].distance_to_destination, 2);
}

#[test]
fn test_isochrone_router_default_step() {
    let state = weather_routing::router::RoutingState::new(1_700_000_000);
    assert_eq!(state.router.time_step, 3600, "Default time step should be 1 hour (3600 seconds)");
    assert!(!state.is_playing);
    assert_eq!(state.fronts.len(), 1);
    assert_eq!(state.fronts[0][0].position, Coordinate::new(48_660_000, -2_030_000));
}

#[test]
fn session_appends_each_frontier() {
    let mut state = weather_routing::router::RoutingState::new(0);
    let mask = LandMask::new();
    let first = state.fronts[0][0];
    let fan = probes_from(&state.router, &first, &five_knots(), WindData { u: 0, v: 5 * M }, CurrentData { u: 0, v: 0 });
    state.advance(&vec![fan], &mask);
    assert_eq!(state.fronts.len(), 2);
    assert!(state.fronts[1].len() > 1);
    assert!(state.fronts[1].iter().all(|s| s.elapsed_time == 3600 && s.time == 3600));
    let second = state.fronts[1].clone();
    let fans: Vec<Vec<Probe>> = second
        .iter()
        .map(|s| probes_from(&state.router, s, &five_knots(), WindData { u: 0, v: 5 * M }, CurrentData { u: 0, v: 0 }))
        .collect();
    state.advance(&fans, &mask);
    assert_eq!(state.fronts.len(), 3);
    assert!(state.fronts[2].iter().all(|s| s.elapsed_time == 7200));
    assert_eq!(state.fronts[1], second);
}
