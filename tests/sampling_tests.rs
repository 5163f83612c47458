use pasture_algorithms::point_cloud::{PointCloud, Position};
use pasture_algorithms::sampling::{draw_line_samples, draw_plane_samples};
use pasture_algorithms::segmentation::{
    ransac_line, ransac_line_from_samples, ransac_plane, ransac_plane_from_samples,
};

#[test]
fn drawn_plane_samples_are_distinct_and_in_range() {
    let samples = draw_plane_samples(3, 3, 200);
    assert_eq!(samples.len(), 200);
    for &(a, b, c) in &samples {
        assert!(a < 3 && b < 3 && c < 3);
        assert!(a != b && a != c && b != c);
    }
    let samples = draw_plane_samples(11, 1000, 500);
    assert!(samples.iter().all(|&(a, b, c)| a < 1000 && b < 1000 && c < 1000 && a != b && a != c && b != c));
    assert!(samples.iter().any(|&(a, _, _)| a >= 500));
}

#[test]
fn drawn_line_samples_are_distinct_and_in_range() {
    let samples = draw_line_samples(5, 2, 100);
    assert_eq!(samples.len(), 100);
    assert!(samples.iter().all(|&(a, b)| a < 2 && b < 2 && a != b));
    assert!(samples.iter().any(|&(a, _)| a == 0) && samples.iter().any(|&(a, _)| a == 1));
}

#[test]
fn same_seed_draws_same_samples() {
    assert_eq!(draw_plane_samples(77, 50, 30), draw_plane_samples(77, 50, 30));
    assert_eq!(draw_line_samples(77, 50, 30), draw_line_samples(77, 50, 30));
}

#[test]
fn seeded_fit_is_the_fit_over_the_drawn_samples() {
    let pts: Vec<Position> =
        (0..60).map(|i| Position::new(i % 7, (i * 3) % 5, if i % 4 == 0 { i } else { 2 })).collect();
    let cloud = PointCloud::new(pts).unwrap();
    let plane = ransac_plane(&cloud, 1, 12, false, 2024).unwrap();
    let samples = draw_plane_samples(2024, 60, 12);
    assert_eq!(plane, ransac_plane_from_samples(&cloud, 1, &samples, true).unwrap());
    let line = ransac_line(&cloud, 1, 12, true, 2024).unwrap();
    let samples = draw_line_samples(2024, 60, 12);
    assert_eq!(line, ransac_line_from_samples(&cloud, 1, &samples, false).unwrap());
}
