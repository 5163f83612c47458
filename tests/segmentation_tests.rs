use pasture_algorithms::point_cloud::{PointCloud, Position};
use pasture_algorithms::segmentation::{
    line_hypothesis, plane_hypothesis, ransac_line, ransac_line_from_samples, ransac_line_par,
    ransac_line_serial, ransac_plane, ransac_plane_from_samples, Line, Plane, SegmentationError,
};

fn cloud(points: &[(i32, i32, i32)]) -> PointCloud {
    PointCloud::new(points.iter().map(|&(x, y, z)| Position::new(x, y, z)).collect()).unwrap()
}

/// Points on the plane y = 0, in a 10 by 5 grid.
fn grid_on_y0() -> PointCloud {
    let pts: Vec<(i32, i32, i32)> = (0..50).map(|i| (i % 10, 0, i / 10)).collect();
    cloud(&pts)
}

fn plane_distance(p: &Plane, q: (i32, i32, i32)) -> f64 {
    let (a, b, c, d) = (p.a as f64, p.b as f64, p.c as f64, p.d as f64);
    (a * q.0 as f64 + b * q.1 as f64 + c * q.2 as f64 + d).abs() / (a * a + b * b + c * c).sqrt()
}

#[test]
fn plane_through_three_points_has_cross_product_normal() {
    let c = cloud(&[(0, 0, 0), (1, 0, 0), (0, 0, 1), (5, 3, 2)]);
    let (pl, inliers) = plane_hypothesis(&c, 1, (0, 1, 2));
    assert_eq!((pl.a, pl.b, pl.c, pl.d), (0, -1, 0, 0));
    assert_eq!(inliers, vec![0, 1, 2]);
    assert_eq!(pl.ranking, 3);
}

#[test]
fn plane_offset_is_minus_normal_dot_first_point() {
    let c = cloud(&[(0, 0, 2), (1, 0, 2), (0, 1, 2), (4, 4, 2), (0, 0, 5)]);
    let (pl, inliers) = plane_hypothesis(&c, 1, (0, 1, 2));
    assert_eq!((pl.a, pl.b, pl.c, pl.d), (0, 0, 1, -2));
    assert_eq!(inliers, vec![0, 1, 2, 3]);
}

#[test]
fn plane_inlier_test_is_strict() {
    // Distance of (0, 0, 3) to z = 0 is exactly 3.
    let c = cloud(&[(0, 0, 0), (1, 0, 0), (0, 1, 0), (0, 0, 3), (0, 0, 2)]);
    let (pl, inliers) = plane_hypothesis(&c, 3, (0, 1, 2));
    assert_eq!(inliers, vec![0, 1, 2, 4]);
    assert_eq!(pl.ranking, 4);
}

#[test]
fn plane_scaled_normal_gives_same_inliers() {
    // The normal here is (0, 0, 4); distances are still taken after normalising.
    let c = cloud(&[(0, 0, 0), (2, 0, 0), (0, 2, 0), (9, 9, 1), (9, 9, 2)]);
    let (pl, inliers) = plane_hypothesis(&c, 2, (0, 1, 2));
    assert_eq!((pl.a, pl.b, pl.c, pl.d), (0, 0, 4, 0));
    assert_eq!(inliers, vec![0, 1, 2, 3]);
}

#[test]
fn collinear_plane_sample_ranks_zero() {
    let pts: Vec<(i32, i32, i32)> = (0..50).map(|i| (i, 0, 0)).collect();
    let c = cloud(&pts);
    let (pl, inliers) = plane_hypothesis(&c, 1, (3, 7, 11));
    assert_eq!((pl.a, pl.b, pl.c), (0, 0, 0));
    assert_eq!(pl.ranking, 0);
    assert!(inliers.is_empty());
}

#[test]
fn fifty_collinear_points_on_y0_give_only_degenerate_planes() {
    // Every triple of points on one line is collinear, so no plane holds a point.
    let pts: Vec<(i32, i32, i32)> = (0..50).map(|i| (i, 0, 0)).collect();
    let c = cloud(&pts);
    let (pl, inliers) = ransac_plane(&c, 1, 20, false, 7).unwrap();
    assert_eq!(pl.ranking, 0);
    assert!(inliers.is_empty());
}

#[test]
fn fifty_points_on_y0_plane_rank_fifty() {
    let c = grid_on_y0();
    let (pl, inliers) = ransac_plane(&c, 1, 20, false, 7).unwrap();
    assert_eq!(pl.ranking, 50);
    assert_eq!(inliers, (0..50).collect::<Vec<usize>>());
    assert_eq!((pl.a, pl.c), (0, 0));
}

#[test]
fn fifty_points_on_y0_plane_rank_fifty_from_chosen_samples() {
    let c = grid_on_y0();
    // (0, 1, 2) lie on one row and are collinear; (0, 1, 10) span the plane.
    let samples = vec![(0, 1, 2), (0, 1, 10)];
    let (pl, inliers) = ransac_plane_from_samples(&c, 1, &samples, false).unwrap();
    assert_eq!(pl.ranking, 50);
    assert_eq!(inliers.len(), 50);
    assert_eq!((pl.a, pl.b, pl.c, pl.d), (0, -1, 0, 0));
}

#[test]
fn inliers_are_recounted_exactly() {
    let pts = [(0, 0, 0), (10, 0, 0), (0, 10, 0), (3, 3, 1), (3, 3, 5), (7, 1, -2), (2, 2, 0)];
    let c = cloud(&pts);
    let samples = vec![(0, 1, 2), (0, 3, 4), (1, 5, 6)];
    for parallel in [false, true] {
        let (pl, inliers) = ransac_plane_from_samples(&c, 2, &samples, parallel).unwrap();
        let expected: Vec<usize> =
            (0..pts.len()).filter(|&i| plane_distance(&pl, pts[i]) < 2.0).collect();
        assert_eq!(inliers, expected);
        assert_eq!(pl.ranking, expected.len());
        assert!(pl.ranking <= pts.len());
    }
}

#[test]
fn first_plane_wins_ties() {
    // Both samples give planes with three inliers.
    let c = cloud(&[(0, 0, 0), (1, 0, 0), (0, 1, 0), (50, 50, 50), (51, 50, 50), (50, 50, 51)]);
    let samples = vec![(3, 4, 5), (0, 1, 2)];
    let (first, _) = plane_hypothesis(&c, 1, (3, 4, 5));
    let (pl, inliers) = ransac_plane_from_samples(&c, 1, &samples, false).unwrap();
    assert_eq!(pl, first);
    assert_eq!(inliers, vec![3, 4, 5]);
    let (pl_par, inliers_par) = ransac_plane_from_samples(&c, 1, &samples, true).unwrap();
    assert_eq!(pl_par, first);
    assert_eq!(inliers_par, vec![3, 4, 5]);
}

#[test]
fn later_plane_with_more_inliers_wins() {
    let c = cloud(&[(0, 0, 0), (1, 0, 0), (0, 1, 0), (2, 2, 0), (50, 50, 50), (51, 50, 50), (50, 50, 51)]);
    let samples = vec![(4, 5, 6), (0, 1, 2)];
    let (pl, inliers) = ransac_plane_from_samples(&c, 1, &samples, false).unwrap();
    assert_eq!(inliers, vec![0, 1, 2, 3]);
    assert_eq!(pl.ranking, 4);
}

#[test]
fn seeded_plane_fit_is_reproducible() {
    let pts: Vec<(i32, i32, i32)> = (0..40).map(|i| (i * 7 % 13, i * 3 % 11, (i * 5) % 17)).collect();
    let c = cloud(&pts);
    let a = ransac_plane(&c, 2, 15, false, 42).unwrap();
    let b = ransac_plane(&c, 2, 15, false, 42).unwrap();
    let p = ransac_plane(&c, 2, 15, true, 42).unwrap();
    assert_eq!(a, b);
    assert_eq!(a, p);
}

#[test]
fn serial_and_parallel_plane_paths_agree() {
    let pts: Vec<(i32, i32, i32)> = (0..30).map(|i| (i % 6, (i * 5) % 7, i % 4)).collect();
    let c = cloud(&pts);
    let samples = vec![(0, 1, 2), (3, 9, 14), (5, 6, 20), (1, 11, 29)];
    let s = ransac_plane_from_samples(&c, 1, &samples, false).unwrap();
    let p = ransac_plane_from_samples(&c, 1, &samples, true).unwrap();
    assert_eq!(s, p);
}

#[test]
fn plane_fit_rejects_bad_inputs() {
    let c = grid_on_y0();
    assert_eq!(ransac_plane(&c, 0, 5, false, 1), Err(SegmentationError::ThresholdNotPositive));
    assert_eq!(ransac_plane(&c, 1, 0, false, 1), Err(SegmentationError::NoIterations));
    let small = cloud(&[(0, 0, 0), (1, 0, 0)]);
    assert_eq!(ransac_plane(&small, 1, 5, false, 1), Err(SegmentationError::TooFewPoints));
    let samples = vec![(0, 1, 10), (0, 0, 1)];
    assert_eq!(
        ransac_plane_from_samples(&c, 1, &samples, false),
        Err(SegmentationError::InvalidSample(1))
    );
    let samples = vec![(0, 1, 50)];
    assert_eq!(
        ransac_plane_from_samples(&c, 1, &samples, true),
        Err(SegmentationError::InvalidSample(0))
    );
}

#[test]
fn line_distance_uses_cross_product() {
    // Line along the x axis; (5, 3, 4) lies at distance 5, (5, 2, 2) below 3.
    let c = cloud(&[(0, 0, 0), (4, 0, 0), (5, 3, 4), (5, 2, 2), (-7, 0, 1)]);
    let (l, inliers) = line_hypothesis(&c, 3, (0, 1));
    assert_eq!(l.first, Position::new(0, 0, 0));
    assert_eq!(l.second, Position::new(4, 0, 0));
    assert_eq!(inliers, vec![0, 1, 3, 4]);
    assert_eq!(l.ranking, 4);
}

#[test]
fn line_inlier_test_is_strict() {
    let c = cloud(&[(0, 0, 0), (0, 0, 9), (3, 0, 5), (0, 4, 1)]);
    let (l, inliers) = line_hypothesis(&c, 3, (0, 1));
    assert_eq!(inliers, vec![0, 1]);
    assert_eq!(l.ranking, 2);
    let (_, inliers) = line_hypothesis(&c, 4, (0, 1));
    assert_eq!(inliers, vec![0, 1, 2]);
}

#[test]
fn coincident_line_sample_ranks_zero() {
    let c = cloud(&[(1, 1, 1), (1, 1, 1), (2, 2, 2)]);
    let (l, inliers) = line_hypothesis(&c, 5, (0, 1));
    assert_eq!(l.ranking, 0);
    assert!(inliers.is_empty());
    let samples = vec![(0, 1), (1, 0)];
    let (l, inliers) = ransac_line_from_samples(&c, 5, &samples, false).unwrap();
    assert_eq!(l, Line { first: Position::new(1, 1, 1), second: Position::new(1, 1, 1), ranking: 0 });
    assert!(inliers.is_empty());
}

#[test]
fn line_fit_finds_the_vertical_line() {
    let mut pts: Vec<(i32, i32, i32)> = (0..20).map(|i| (0, 0, i * 3)).collect();
    pts.extend((0..10).map(|i| (i * 5 + 1, i * 2 + 3, 7)));
    let c = cloud(&pts);
    let samples = vec![(20, 21), (0, 5), (2, 25)];
    let serial = ransac_line_serial(&c, 1, &samples);
    let par = ransac_line_par(&c, 1, &samples);
    assert_eq!(serial, par);
    assert_eq!(serial.0.ranking, 20);
    assert_eq!(serial.1, (0..20).collect::<Vec<usize>>());
}

#[test]
fn seeded_line_fit_is_reproducible_and_bounded() {
    let mut pts: Vec<(i32, i32, i32)> = (0..30).map(|i| (0, 0, i)).collect();
    pts.extend((0..10).map(|i| (i * 4 + 2, 9 - i, 3)));
    let c = cloud(&pts);
    let a = ransac_line(&c, 1, 25, false, 9).unwrap();
    let b = ransac_line(&c, 1, 25, true, 9).unwrap();
    assert_eq!(a, b);
    assert!(a.0.ranking <= pts.len());
    assert_eq!(a.0.ranking, a.1.len());
}

#[test]
fn line_fit_rejects_bad_inputs() {
    let c = cloud(&[(0, 0, 0), (1, 0, 0), (2, 0, 0)]);
    assert_eq!(ransac_line(&c, 0, 5, false, 1), Err(SegmentationError::ThresholdNotPositive));
    assert_eq!(ransac_line(&c, 1, 0, true, 1), Err(SegmentationError::NoIterations));
    let one = cloud(&[(0, 0, 0)]);
    assert_eq!(ransac_line(&one, 1, 5, false, 1), Err(SegmentationError::TooFewPoints));
    assert_eq!(
        ransac_line_from_samples(&c, 1, &vec![(0, 2), (1, 1)], false),
        Err(SegmentationError::InvalidSample(1))
    );
}
