use geo_coding::distance::{coordinate_gap, distance_squared_scalar};
use geo_coding::{distance_squared, orthogonal_distance};

#[test]
fn orthogonal_distance_is_the_larger_gap() {
    assert_eq!(orthogonal_distance(&[0, 0], &[0, 0]), 0);
    assert_eq!(orthogonal_distance(&[-1, 7], &[5, 0]), 7);
    assert_eq!(orthogonal_distance(&[-10, 7], &[5, 0]), 15);
    assert_eq!(orthogonal_distance(&[5, 0], &[-10, 7]), 15);
}

#[test]
fn orthogonal_distance_spans_the_whole_range() {
    assert_eq!(orthogonal_distance(&[i64::MIN, 0], &[i64::MAX, 0]), u64::MAX);
    assert_eq!(orthogonal_distance(&[0, i64::MAX], &[0, i64::MIN]), u64::MAX);
    assert_eq!(orthogonal_distance(&[i64::MIN, 0], &[0, 0]), 1 << 63);
}

#[test]
fn distance_squared_adds_the_squares() {
    assert_eq!(distance_squared(&[3, 0], &[5, 0]), 4);
    assert_eq!(distance_squared(&[0, 0], &[3, 4]), 25);
    assert_eq!(distance_squared(&[-3, -4], &[0, 0]), 25);
    assert_eq!(distance_squared(&[1, 1], &[1, 1]), 0);
    assert_eq!(
        distance_squared(&[0, 0], &[3_000_000_000, 0]),
        9_000_000_000_000_000_000
    );
}

#[test]
fn distance_squared_stops_at_the_largest_number() {
    assert_eq!(distance_squared(&[i64::MIN, 0], &[i64::MAX, 0]), u64::MAX);
    assert_eq!(distance_squared(&[0, 0], &[1 << 32, 0]), u64::MAX);
    // Each square fits, their sum does not.
    assert_eq!(
        distance_squared(&[0, 0], &[4_000_000_000, 4_000_000_000]),
        u64::MAX
    );
    assert_eq!(distance_squared_scalar(0, 4_294_967_295), 18_446_744_065_119_617_025);
    assert_eq!(distance_squared_scalar(0, 4_294_967_296), u64::MAX);
}

#[test]
fn coordinate_gap_never_overflows() {
    assert_eq!(coordinate_gap(i64::MIN, i64::MAX), u64::MAX);
    assert_eq!(coordinate_gap(i64::MAX, i64::MIN), u64::MAX);
    assert_eq!(coordinate_gap(-5, 5), 10);
    assert_eq!(coordinate_gap(7, 7), 0);
}

#[test]
fn moving_away_along_an_axis_never_comes_closer() {
    let query = [10, -3];
    for y in [-20_i64, -3, 0, 15] {
        let mut last_orthogonal = 0;
        let mut last_squared = 0;
        for x in 10..40_i64 {
            let o = orthogonal_distance(&[x, y], &query);
            let s = distance_squared(&[x, y], &query);
            assert!(o >= last_orthogonal);
            assert!(s >= last_squared);
            last_orthogonal = o;
            last_squared = s;
        }
    }
}
