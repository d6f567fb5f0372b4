use weather_routing::grib::{BufrLoader, GribLoader};
use weather_routing::models::{Coordinate, CurrentData, WindData};
use weather_routing::wind_field::WindField;

const M: i64 = 1_000_000;

#[test]
fn empty_field_has_no_wind_and_no_bounds() {
    let f = WindField::new();
    assert_eq!(f.get_wind_at(&Coordinate::new(45 * M, -1 * M)), None);
    assert_eq!(f.get_bounds(), None);
}

#[test]
fn nearest_sample_in_the_chunk_wins() {
    let mut f = WindField::new();
    f.insert_point(Coordinate::new(45_100_000, -900_000), WindData { u: 1, v: 1 });
    f.insert_point(Coordinate::new(45_900_000, -100_000), WindData { u: 2, v: 2 });
    f.insert_point(Coordinate::new(46_500_000, -500_000), WindData { u: 3, v: 3 });
    assert_eq!(f.get_wind_at(&Coordinate::new(45_200_000, -800_000)), Some(WindData { u: 1, v: 1 }));
    assert_eq!(f.get_wind_at(&Coordinate::new(45_800_000, -300_000)), Some(WindData { u: 2, v: 2 }));
    assert_eq!(f.get_wind_at(&Coordinate::new(46_100_000, -900_000)), Some(WindData { u: 3, v: 3 }));
    // another chunk holds nothing
    assert_eq!(f.get_wind_at(&Coordinate::new(44_900_000, -500_000)), None);
    assert_eq!(f.get_wind_at(&Coordinate::new(95 * M, 0)), None);
}

#[test]
fn equally_near_samples_keep_the_first() {
    let mut f = WindField::new();
    f.insert_point(Coordinate::new(10_400_000, 10_500_000), WindData { u: 7, v: 0 });
    f.insert_point(Coordinate::new(10_600_000, 10_500_000), WindData { u: 8, v: 0 });
    assert_eq!(f.get_wind_at(&Coordinate::new(10_500_000, 10_500_000)), Some(WindData { u: 7, v: 0 }));
}

#[test]
fn bounds_cover_every_sample() {
    let mut f = WindField::new();
    f.insert_point(Coordinate::new(45 * M, -1 * M), WindData { u: 0, v: 0 });
    f.insert_point(Coordinate::new(-10 * M, 20 * M), WindData { u: 0, v: 0 });
    f.insert_point(Coordinate::new(5 * M, -30 * M), WindData { u: 0, v: 0 });
    assert_eq!(f.get_bounds(), Some((-10 * M, 45 * M, -30 * M, 20 * M)));
}

#[test]
fn grib_components_are_paired_and_longitudes_wrapped() {
    let loader = GribLoader::new();
    let u = vec![1, 2, 3];
    let v = vec![4, 5, 6, 7];
    let lats = vec![10 * M, 20 * M, 30 * M];
    let lons = vec![0, 270 * M, 180 * M, 5];
    let r = loader.merge_wind_components(&u, &v, &lats, &lons);
    assert_eq!(r.len(), 3);
    assert_eq!(r[0], (Coordinate::new(10 * M, 0), WindData { u: 1, v: 4 }));
    assert_eq!(r[1], (Coordinate::new(20 * M, -90 * M), WindData { u: 2, v: 5 }));
    assert_eq!(r[2], (Coordinate::new(30 * M, 180 * M), WindData { u: 3, v: 6 }));
}

#[test]
fn current_data_is_a_single_sample() {
    let loader = GribLoader::new();
    let r = loader.load_current_data("currents.grib");
    assert_eq!(r, vec![(Coordinate::new(0, 0), CurrentData { u: 1_000_000, v: 500_000 })]);
    BufrLoader::new().load("obs.bufr");
}
