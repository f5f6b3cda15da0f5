use geo_enu::centroid_lat_lon;

#[test]
fn centroid_of_two_points_is_their_midpoint() {
    let pts = vec![(0i64, 0i64), (2, 4)];
    assert_eq!(centroid_lat_lon(&pts), Some((1, 2)));
}

#[test]
fn centroid_of_empty_list_is_none() {
    let pts: Vec<(i64, i64)> = Vec::new();
    assert_eq!(centroid_lat_lon(&pts), None);
}

#[test]
fn centroid_of_single_point_is_that_point() {
    let pts = vec![(42_680_067_000i64, 3_034_061_000i64)];
    assert_eq!(centroid_lat_lon(&pts), Some((42_680_067_000, 3_034_061_000)));
}

#[test]
fn centroid_rounds_toward_negative_infinity() {
    let pts = vec![(1i64, -1i64), (2, -2)];
    assert_eq!(centroid_lat_lon(&pts), Some((1, -2)));
    let pts = vec![(-1i64, 5i64), (0, 0), (0, 0)];
    assert_eq!(centroid_lat_lon(&pts), Some((-1, 1)));
}

#[test]
fn centroid_of_extreme_values_does_not_overflow() {
    let pts = vec![(i64::MAX, i64::MIN), (i64::MAX, i64::MIN), (i64::MAX, i64::MIN)];
    assert_eq!(centroid_lat_lon(&pts), Some((i64::MAX, i64::MIN)));
    let pts = vec![(i64::MAX, i64::MIN), (i64::MIN, i64::MAX)];
    assert_eq!(centroid_lat_lon(&pts), Some((-1, -1)));
}

#[test]
fn centroid_of_nanodegree_points() {
    let pts = vec![
        (42_680_067_000i64, 3_034_061_000i64),
        (42_680_499_000, 3_035_775_000),
        (42_680_100_000, 3_034_900_000),
        (42_679_900_000, 3_035_000_000),
    ];
    assert_eq!(centroid_lat_lon(&pts), Some((42_680_141_500, 3_034_934_000)));
}
