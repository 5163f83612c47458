use pasture_algorithms::cluster_extraction::extract_clusters_euclidean;
use pasture_algorithms::kdtree::kdtree_from_buffer;
use pasture_algorithms::point_cloud::{PointCloud, Position};

fn cloud(points: &[(i32, i32, i32)]) -> PointCloud {
    PointCloud::new(points.iter().map(|&(x, y, z)| Position::new(x, y, z)).collect()).unwrap()
}

fn sorted(mut v: Vec<usize>) -> Vec<usize> {
    v.sort();
    v
}

#[test]
fn five_colinear_points_stop_after_five_hits() {
    // Points 10 apart, radius 15: each point's ball holds its neighbours.
    let c = cloud(&[(0, 0, 0), (10, 0, 0), (20, 0, 0), (30, 0, 0), (40, 0, 0)]);
    let index = kdtree_from_buffer(&c);
    let clusters = extract_clusters_euclidean(&index, 15);
    assert_eq!(clusters.len(), 5);
    for (seed, cluster) in clusters.iter().enumerate() {
        assert_eq!(cluster[0], seed);
    }
    // The first two queries from an end point count 2 + 3 = 5 hits.
    assert_eq!(sorted(clusters[0].clone()), vec![0, 1, 2]);
    assert_eq!(sorted(clusters[4].clone()), vec![2, 3, 4]);
}

#[test]
fn sparse_chain_grows_to_whole_component() {
    // Each ball holds only its centre and one or two neighbours, while hits
    // stay below the point count long enough to reach the whole chain.
    let mut pts: Vec<(i32, i32, i32)> = (0..3).map(|i| (i * 10, 0, 0)).collect();
    pts.extend((0..20).map(|i| (1000 + i * 100, 1000, 1000)));
    let c = cloud(&pts);
    let index = kdtree_from_buffer(&c);
    let clusters = extract_clusters_euclidean(&index, 15);
    assert_eq!(clusters.len(), 23);
    assert_eq!(sorted(clusters[0].clone()), vec![0, 1, 2]);
    assert_eq!(sorted(clusters[1].clone()), vec![0, 1, 2]);
    assert_eq!(clusters[5], vec![5]);
}

#[test]
fn clusters_stay_within_separated_groups() {
    let a = [(0, 0, 0), (3, 0, 0), (0, 3, 0), (2, 2, 2)];
    let b = [(100, 100, 100), (103, 100, 100), (100, 104, 100)];
    let mut pts: Vec<(i32, i32, i32)> = a.to_vec();
    pts.extend_from_slice(&b);
    let c = cloud(&pts);
    let index = kdtree_from_buffer(&c);
    let clusters = extract_clusters_euclidean(&index, 10);
    assert_eq!(clusters.len(), 7);
    for (seed, cluster) in clusters.iter().enumerate() {
        let in_a = seed < a.len();
        assert!(cluster.iter().all(|&i| (i < a.len()) == in_a));
        assert_eq!(cluster[0], seed);
    }
}

#[test]
fn radius_zero_gives_singletons() {
    let c = cloud(&[(0, 0, 0), (0, 0, 0), (1, 1, 1)]);
    let index = kdtree_from_buffer(&c);
    let clusters = extract_clusters_euclidean(&index, 0);
    assert_eq!(clusters, vec![vec![0], vec![1], vec![2]]);
}

#[test]
fn within_radius_includes_the_centre() {
    let c = cloud(&[(0, 0, 0), (5, 0, 0), (0, 6, 0), (100, 0, 0)]);
    let index = kdtree_from_buffer(&c);
    assert_eq!(sorted(index.within_radius(0, 6)), vec![0, 1]);
    assert_eq!(sorted(index.within_radius(0, 7)), vec![0, 1, 2]);
    assert_eq!(index.within_radius(3, 1), vec![3]);
    assert_eq!(index.within_radius(3, 0), Vec::<usize>::new());
    assert_eq!(index.len(), 4);
}

#[test]
fn large_radius_is_capped_without_losing_points() {
    let c = cloud(&[(-524288, -524288, -524288), (524288, 524288, 524288), (0, 0, 0)]);
    let index = kdtree_from_buffer(&c);
    assert_eq!(sorted(index.within_radius(0, u32::MAX)), vec![0, 1, 2]);
}

#[test]
fn nearest_finds_closest_point() {
    let c = cloud(&[(0, 0, 0), (10, 0, 0), (23, 122, 1), (20, 100, 0)]);
    let index = kdtree_from_buffer(&c);
    assert_eq!(index.nearest(Position::new(23, 120, 1)), Some(2));
    assert_eq!(index.nearest(Position::new(6, 0, 0)), Some(1));
    let empty = kdtree_from_buffer(&cloud(&[]));
    assert_eq!(empty.nearest(Position::new(0, 0, 0)), None);
}
