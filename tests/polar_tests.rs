use weather_routing::polars::{PolarData, PolarError};

const M: i64 = 1_000_000;

fn two_by_two() -> PolarData {
    PolarData {
        tws: vec![0, 10 * M],
        twa: vec![0, 180 * M],
        speeds: vec![vec![0, 10 * M], vec![0, 10 * M]],
    }
}

#[test]
fn polar_interpolates_between_corners() {
    let polar = two_by_two();
    assert_eq!(polar.get_speed(5 * M, 90 * M), 5 * M);
}

#[test]
fn polar_is_exact_at_grid_points() {
    let polar = PolarData {
        tws: vec![0, 10 * M, 20 * M],
        twa: vec![0, 90 * M, 180 * M],
        speeds: vec![
            vec![0, 1 * M, 2 * M],
            vec![3 * M, 4 * M, 5_500_000],
            vec![6 * M, 7 * M, 8 * M],
        ],
    };
    for (i, a) in polar.twa.iter().enumerate() {
        for (j, s) in polar.tws.iter().enumerate() {
            assert_eq!(polar.get_speed(*s, *a), polar.speeds[i][j]);
        }
    }
}

#[test]
fn polar_lookup_is_repeatable() {
    let polar = two_by_two();
    let first = polar.get_speed(3_333_333, 77_777_777);
    let second = polar.get_speed(3_333_333, 77_777_777);
    assert_eq!(first, second);
    // 3.333333 knots on a 0..10 ramp, constant across angles.
    assert_eq!(first, 3_333_333);
}

#[test]
fn polar_clamps_beyond_the_axes() {
    let polar = two_by_two();
    assert_eq!(polar.get_speed(25 * M, 90 * M), 10 * M);
    assert_eq!(polar.get_speed(-4 * M, 200 * M), 0);
}

#[test]
fn empty_polar_gives_zero() {
    let polar = PolarData::default();
    assert_eq!(polar.get_speed(12 * M, 45 * M), 0);
}

#[test]
fn polar_mixes_both_axes() {
    let polar = PolarData {
        tws: vec![0, 10 * M],
        twa: vec![0, 100 * M],
        speeds: vec![vec![0, 10 * M], vec![20 * M, 30 * M]],
    };
    // a quarter along the wind axis, half along the angle axis:
    // rows give 2.5 and 22.5, mixed half and half: 12.5 knots.
    assert_eq!(polar.get_speed(2_500_000, 50 * M), 12_500_000);
}

#[test]
fn csv_loads_axes_and_speeds() {
    let text = b"twa/tws,6,12\n40,4.5,6.25\n\n90,5,7.125\n";
    let p = PolarData::load_from_csv(text).unwrap();
    assert_eq!(p.tws, vec![6 * M, 12 * M]);
    assert_eq!(p.twa, vec![40 * M, 90 * M]);
    assert_eq!(p.speeds, vec![vec![4_500_000, 6_250_000], vec![5 * M, 7_125_000]]);
}

#[test]
fn csv_handles_crlf_signs_and_non_numbers() {
    let text = b"label,+0,abc\r\n0,-1.5,x\r\n  \r\n180,.25,7.\r\n";
    let p = PolarData::load_from_csv(text).unwrap();
    assert_eq!(p.tws, vec![0, 0]);
    assert_eq!(p.twa, vec![0, 180 * M]);
    assert_eq!(p.speeds, vec![vec![-1_500_000, 0], vec![250_000, 7 * M]]);
}

#[test]
fn csv_truncates_past_six_fraction_digits() {
    let p = PolarData::load_from_csv(b"l,1.23456789\n0,2\n").unwrap();
    assert_eq!(p.tws, vec![1_234_567]);
}

#[test]
fn csv_without_lines_is_missing_its_header() {
    assert_eq!(PolarData::load_from_csv(b"").unwrap_err(), PolarError::MissingHeader);
}

#[test]
fn csv_row_of_wrong_length_is_refused() {
    let text = b"l,5,10\n0,1,2\n90,1\n";
    assert_eq!(PolarData::load_from_csv(text).unwrap_err(), PolarError::RowLength);
}

#[test]
fn csv_value_out_of_range_is_refused() {
    let text = b"l,5,100000\n0,1,2\n";
    assert_eq!(PolarData::load_from_csv(text).unwrap_err(), PolarError::OutOfRange);
}

#[test]
fn csv_descending_axis_is_refused() {
    let text = b"l,10,5\n0,1,2\n";
    assert_eq!(PolarData::load_from_csv(text).unwrap_err(), PolarError::Unsorted);
}

#[test]
fn csv_header_only_gives_an_empty_angle_axis() {
    let p = PolarData::load_from_csv(b"l,5,10").unwrap();
    assert_eq!(p.tws, vec![5 * M, 10 * M]);
    assert!(p.twa.is_empty());
    assert_eq!(p.get_speed(7 * M, 30 * M), 0);
}

#[test]
fn csv_exponent_cells_are_not_numbers() {
    let p = PolarData::load_from_csv(b"l,1e1,20\n0,5,inf\n").unwrap();
    assert_eq!(p.tws, vec![0, 20 * M]);
    assert_eq!(p.speeds, vec![vec![5 * M, 0]]);
}
