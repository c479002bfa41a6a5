use geo::EuclideanDistance;
use geo_types::Point;
use geo_weights::{DistanceWeights, Weights, WeightsError};
use std::collections::HashSet;

/// The pairwise distances of the points and whether each is below `cutoff`.
fn distances(points: &[Point<f64>], cutoff: Option<f64>) -> (Vec<Vec<f64>>, Vec<Vec<bool>>) {
    let d: Vec<Vec<f64>> = points
        .iter()
        .map(|p| points.iter().map(|q| p.euclidean_distance(q)).collect())
        .collect();
    let within = d
        .iter()
        .map(|row| row.iter().map(|x| cutoff.map_or(true, |c| *x < c)).collect())
        .collect();
    (d, within)
}

fn build(builder: &DistanceWeights<f64>, points: &[Point<f64>]) -> Weights<f64> {
    let (d, within) = distances(points, builder.cutoff_dist());
    builder.compute_weights(&d, &within, 1.0)
}

fn weight_of(w: &Weights<f64>, origin: usize, dest: usize) -> Option<f64> {
    match &w.weights()[origin] {
        Some(row) => row.iter().find(|(d, _)| *d == dest).map(|(_, x)| *x),
        None => None,
    }
}

fn three_points() -> Vec<Point<f64>> {
    vec![Point::new(1.0, 2.0), Point::new(100.0, 0.0), Point::new(2.0, 2.0)]
}

#[test]
fn distance_weights_non_weighted_euclid_weight_should_include_points_under_the_threshold_and_not_above() {
    let weight_builder: DistanceWeights<f64> = DistanceWeights::new(Some(20.0), false).unwrap();
    let points = three_points();

    let weights = build(&weight_builder, &points);
    let n1 = weights.get_neighbor_ids(0);
    let n2 = weights.get_neighbor_ids(1);
    let n3 = weights.get_neighbor_ids(2);

    let neighbors_for_one = n1.unwrap();
    let neighbors_for_two = n2;
    let neighbors_for_three = n3.unwrap();

    println!("n1 is {:?}", neighbors_for_one);
    println!("n3 is {:?}", neighbors_for_three);
    assert!(neighbors_for_one.contains(&2));
    assert_eq!(neighbors_for_two, None);
    assert!(neighbors_for_three.contains(&0));
    assert_eq!(weight_of(&weights, 0, 2), Some(1.0));
    assert_eq!(weight_of(&weights, 2, 0), Some(1.0));
}

#[test]
fn distance_weights_weighted_euclid_weights_should_compute_correct_weight() {
    let weight_builder: DistanceWeights<f64> = DistanceWeights::new(Some(20.0), true).unwrap();
    let points = three_points();

    let weights = build(&weight_builder, &points);
    assert_eq!(weight_of(&weights, 0, 2), Some(1.0));
    assert_eq!(weights.get_neighbor_ids(1), None);
}

#[test]
fn euclidan_weights_non_weighted_euclid_weight_should_include_points_under_the_threshold_and_not_above() {
    let weights_builder: DistanceWeights<f64> = DistanceWeights::new(Some(20.0), false).unwrap();
    let points = three_points();

    let weights = build(&weights_builder, &points);
    let neighbors_for_one = weights.get_neighbor_ids(0).unwrap();
    let neighbors_for_two = weights.get_neighbor_ids(1);
    let neighbors_for_three = weights.get_neighbor_ids(2).unwrap();

    assert!(neighbors_for_one.contains(&2));
    assert_eq!(neighbors_for_two, None);
    assert!(neighbors_for_three.contains(&0));
}

#[test]
fn euclidan_weights_weighted_euclid_weights_should_compute_correct_weight() {
    let weights_builder: DistanceWeights<f64> = DistanceWeights::new(Some(20.0), true).unwrap();
    let points = three_points();

    let weights = build(&weights_builder, &points);
    assert_eq!(weight_of(&weights, 0, 2), Some(1.0));
    assert_eq!(weight_of(&weights, 2, 0), Some(1.0));
}

#[test]
fn distance_weights_are_the_distances_below_the_cutoff() {
    let weights_builder: DistanceWeights<f64> = DistanceWeights::new(Some(20.0), true).unwrap();
    let points = vec![Point::new(1.0, 2.0), Point::new(100.0, 0.0), Point::new(4.0, 6.0)];

    let weights = build(&weights_builder, &points);
    assert_eq!(weight_of(&weights, 0, 2), Some(5.0));
    assert_eq!(weight_of(&weights, 2, 0), Some(5.0));
    assert_eq!(weights.get_neighbor_ids(1), None);
}

#[test]
fn no_cutoff_and_no_distance_weights_is_refused() {
    assert!(matches!(
        DistanceWeights::<f64>::new(None, false),
        Err(WeightsError::MissingCutoff)
    ));
}

#[test]
fn without_a_cutoff_every_pair_is_linked_by_its_distance() {
    let builder: DistanceWeights<f64> = DistanceWeights::new(None, true).unwrap();
    let points = vec![Point::new(0.0, 0.0), Point::new(3.0, 4.0), Point::new(0.0, 10.0)];
    let w = build(&builder, &points);
    assert_eq!(w.get_neighbor_ids(0), Some(HashSet::from([1, 2])));
    assert_eq!(weight_of(&w, 0, 1), Some(5.0));
    assert_eq!(weight_of(&w, 2, 0), Some(10.0));
}

#[test]
fn the_cutoff_is_strict() {
    let builder: DistanceWeights<f64> = DistanceWeights::new(Some(5.0), false).unwrap();
    let points = vec![Point::new(0.0, 0.0), Point::new(3.0, 4.0)];
    let w = build(&builder, &points);
    assert_eq!(w.get_neighbor_ids(0), None);
    assert_eq!(w.get_neighbor_ids(1), None);
}

#[test]
fn pair_weight_follows_the_configuration() {
    let unit_weights: DistanceWeights<f64> = DistanceWeights::new(Some(20.0), false).unwrap();
    assert_eq!(unit_weights.pair_weight(3.5, true, 1.0), Some(1.0));
    assert_eq!(unit_weights.pair_weight(30.0, false, 1.0), None);
    let distance_weights: DistanceWeights<f64> = DistanceWeights::new(Some(20.0), true).unwrap();
    assert_eq!(distance_weights.pair_weight(3.5, true, 1.0), Some(3.5));
    assert_eq!(distance_weights.pair_weight(30.0, false, 1.0), None);
    let uncut: DistanceWeights<f64> = DistanceWeights::new(None, true).unwrap();
    assert_eq!(uncut.pair_weight(30.0, false, 1.0), Some(30.0));
    assert_eq!(uncut.cutoff_dist(), None);
    assert!(uncut.use_distance_as_weight());
}
