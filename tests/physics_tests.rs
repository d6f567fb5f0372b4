use weather_routing::models::{CurrentData, WindData};
use weather_routing::physics::PhysicsModel;
use weather_routing::polars::PolarData;

const M: i64 = 1_000_000;

fn deg(a: f64) -> i64 {
    (a * 1e6).round() as i64
}

fn wind_direction(w: &WindData) -> i64 {
    let angle = (w.v as f64).atan2(w.u as f64).to_degrees();
    WindData::direction_from_angle(deg(angle))
}

#[test]
fn test_calculate_twa() {
    assert_eq!(PhysicsModel::calculate_twa(0, 0), 0);
    assert_eq!(PhysicsModel::calculate_twa(0, 90 * M), 90 * M);
    assert_eq!(PhysicsModel::calculate_twa(0, 180 * M), 180 * M);
    assert_eq!(PhysicsModel::calculate_twa(0, 270 * M), 90 * M);
    assert_eq!(PhysicsModel::calculate_twa(180 * M, 0), 180 * M);
    assert_eq!(PhysicsModel::calculate_twa(180 * M, 150 * M), 30 * M);
}

#[test]
fn twa_ignores_whole_turns_and_mirrors() {
    let twd = 37 * M;
    let h = 250 * M;
    let base = PhysicsModel::calculate_twa(twd, h);
    assert_eq!(base, 147 * M);
    assert_eq!(PhysicsModel::calculate_twa(twd, h + 360 * M), base);
    assert_eq!(PhysicsModel::calculate_twa(twd, h - 720 * M), base);
    assert_eq!(PhysicsModel::calculate_twa(twd, 2 * twd - h), base);
}

#[test]
fn test_wind_direction_conventions() {
    assert_eq!(wind_direction(&WindData { u: 0, v: -5 * M }), 0);
    assert_eq!(wind_direction(&WindData { u: -5 * M, v: 0 }), 90 * M);
    assert_eq!(wind_direction(&WindData { u: 0, v: 5 * M }), 180 * M);
    assert_eq!(wind_direction(&WindData { u: 5 * M, v: 0 }), 270 * M);
}

#[test]
fn direction_from_angle_wraps_into_a_turn() {
    assert_eq!(WindData::direction_from_angle(-90 * M), 0);
    assert_eq!(WindData::direction_from_angle(300 * M), 330 * M);
    assert_eq!(WindData::direction_from_angle(-200 * M), 110 * M);
}

#[test]
fn wind_speed_is_the_rounded_down_length() {
    assert_eq!(WindData { u: 3 * M, v: -4 * M }.speed(), 5 * M);
    assert_eq!(WindData { u: 1, v: 1 }.speed(), 1);
    assert_eq!(WindData { u: 0, v: 0 }.speed(), 0);
}

/// Course over ground in degrees, as the boat model composes it.
fn course(east: i64, north: i64, current: &CurrentData) -> f64 {
    let c = ((east + current.u) as f64).atan2((north + current.v) as f64).to_degrees();
    if c < 0.0 {
        c + 360.0
    } else {
        c
    }
}

fn ramp_polar() -> PolarData {
    PolarData {
        tws: vec![0, 10 * M],
        twa: vec![0, 180 * M],
        speeds: vec![vec![0, 10 * M], vec![0, 10 * M]],
    }
}

#[test]
fn test_compute_vector_no_current() {
    let physics = PhysicsModel::new();
    let polar = ramp_polar();
    let wind = WindData { u: 0, v: -5_144_000 };
    let current = CurrentData { u: 0, v: 0 };
    let tws = wind.speed();
    let twd = wind_direction(&wind);

    // Heading east: all the boat's speed goes east.
    let stw = physics.speed_through_water(tws, twd, 90 * M, &polar);
    let sog = physics.speed_over_ground(stw, 0, &current);
    assert!((sog - 5_144_000).abs() < 10_000);
    assert!((course(stw, 0, &current) - 90.0).abs() < 0.1);

    // Heading north.
    let stw = physics.speed_through_water(tws, twd, 0, &polar);
    let sog = physics.speed_over_ground(0, stw, &current);
    assert!((sog - 5_144_000).abs() < 10_000);
    assert!((course(0, stw, &current) - 0.0).abs() < 0.1);
}

#[test]
fn test_compute_vector_with_current() {
    let physics = PhysicsModel::new();
    let polar = ramp_polar();
    let wind = WindData { u: 0, v: 0 };
    let current = CurrentData { u: 2 * M, v: 0 };
    let stw = physics.speed_through_water(wind.speed(), wind_direction(&wind), 0, &polar);
    assert_eq!(stw, 0);
    let sog = physics.speed_over_ground(0, stw, &current);
    assert_eq!(sog, 2 * M);
    assert!((course(0, stw, &current) - 90.0).abs() < 0.1);
}

#[test]
fn speed_through_water_converts_units() {
    let physics = PhysicsModel::new();
    let polar = ramp_polar();
    // 2.5 m/s of wind is 4.8596 knots; the ramp gives as many knots of boat
    // speed, which is 2.5 m/s again.
    let stw = physics.speed_through_water(2_500_000, 0, 45 * M, &polar);
    assert_eq!(stw, 2_500_000);
    // 1.000001 m/s is 1.943841 knots once rounded down, and back 1.000000 m/s.
    let stw = physics.speed_through_water(1_000_001, 0, 45 * M, &polar);
    assert_eq!(stw, 1_000_000);
}

#[test]
fn empty_polar_gives_no_speed_through_water() {
    let physics = PhysicsModel::new();
    let stw = physics.speed_through_water(10 * M, 45 * M, 10 * M, &PolarData::default());
    assert_eq!(stw, 0);
}
