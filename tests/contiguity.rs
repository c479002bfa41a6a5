use geo_weights::{QueensWeights, RookWeights, VertexKey, Weights};
use std::collections::HashSet;

/// Quantizes a polygon's exterior ring at `tolerance`, closing it as a
/// polygon's coordinate sequence is closed.
fn ring(points: &[(f64, f64)], tolerance: f64) -> Vec<VertexKey> {
    let mut keys: Vec<VertexKey> = points
        .iter()
        .map(|&(x, y)| ((x * tolerance).floor() as isize, (y * tolerance).floor() as isize))
        .collect();
    keys.push(keys[0]);
    keys
}

fn squares(tolerance: f64) -> Vec<Vec<VertexKey>> {
    vec![
        ring(&[(1.0, 1.0), (2.0, 1.0), (2.0, 2.0), (1.0, 2.0)], tolerance),
        ring(&[(0.0, 0.0), (1.0, 0.0), (1.0, 1.0), (0.0, 1.0)], tolerance),
        ring(&[(10.0, 10.0), (20.0, 10.0), (20.0, 20.0), (10.0, 20.0)], tolerance),
        ring(&[(0.0, 1.0), (1.0, 1.0), (1.0, 2.0), (0.0, 2.0)], tolerance),
    ]
}

fn neighbors(w: &Weights<f64>, o: usize) -> HashSet<usize> {
    w.get_neighbor_ids(o).unwrap()
}

#[test]
fn queens_weights_queens_we_should_get_the_correct_weights() {
    let weight_builder = QueensWeights::new(10000.0);
    let points = squares(weight_builder.tolerance());

    let weights = weight_builder.compute_weights(&points, 1.0);
    let n1 = weights.get_neighbor_ids(0).unwrap();
    let n2 = weights.get_neighbor_ids(1).unwrap();
    let n3 = weights.get_neighbor_ids(2).unwrap();
    let n4 = weights.get_neighbor_ids(3).unwrap();

    assert!(n1.contains(&1));
    assert!(n1.contains(&3));
    assert!(n2.contains(&3));
    assert!(n3.is_empty());
    assert!(n4.contains(&1));
    assert!(n4.contains(&0));
}

#[test]
fn rook_weights_we_should_get_the_correct_weights() {
    let weight_builder = RookWeights::new(10000.0);
    let points = squares(weight_builder.tolerance());

    let weights = weight_builder.compute_weights(&points, 1.0);
    let n1 = weights.get_neighbor_ids(0).unwrap();
    let n2 = weights.get_neighbor_ids(1).unwrap();
    let n3 = weights.get_neighbor_ids(2).unwrap();
    let n4 = weights.get_neighbor_ids(3).unwrap();

    // Squares 0 and 3 share the edge (1,1)-(1,2), squares 1 and 3 the edge
    // (0,1)-(1,1), each walked in opposite directions by the two rings;
    // squares 0 and 1 share only the corner (1,1).
    assert_eq!(n1, HashSet::from([3]));
    assert_eq!(n2, HashSet::from([3]));
    assert!(n3.is_empty());
    assert_eq!(n4, HashSet::from([0, 1]));
}

#[test]
fn queen_neighbours_are_exactly_the_vertex_sharing_geometries() {
    let w = QueensWeights::new(10000.0).compute_weights(&squares(10000.0), 1.0);
    assert_eq!(neighbors(&w, 0), HashSet::from([1, 3]));
    assert_eq!(neighbors(&w, 1), HashSet::from([0, 3]));
    assert_eq!(neighbors(&w, 2), HashSet::new());
    assert_eq!(neighbors(&w, 3), HashSet::from([0, 1]));
    assert_eq!(w.no_elements(), 4);
}

#[test]
fn contiguity_weights_are_the_given_weight_and_never_accumulate() {
    let w = QueensWeights::new(10000.0).compute_weights(&squares(10000.0), 1.0);
    let (_, _, values) = w.to_list();
    assert!(!values.is_empty());
    assert!(values.iter().all(|v| *v == 1.0));
}

#[test]
fn queen_adjacency_is_symmetric() {
    let w = QueensWeights::new(10000.0).compute_weights(&squares(10000.0), 1.0);
    for a in 0..4 {
        for b in 0..4 {
            assert_eq!(w.are_neighbors(a, b), w.are_neighbors(b, a));
        }
    }
}

#[test]
fn rook_neighbours_are_queen_neighbours() {
    let rings = squares(10000.0);
    let rook = RookWeights::new(10000.0).compute_weights(&rings, 1.0);
    let queen = QueensWeights::new(10000.0).compute_weights(&rings, 1.0);
    for a in 0..4 {
        for b in 0..4 {
            if rook.are_neighbors(a, b) == Ok(true) {
                assert_eq!(queen.are_neighbors(a, b), Ok(true));
            }
        }
    }
}

#[test]
fn a_coarse_tolerance_merges_nearby_vertices() {
    let a = vec![(0.0, 0.0), (1.0, 0.0), (1.0, 1.0)];
    let b = vec![(1.0004, 1.0004), (2.0, 1.0), (2.0, 2.0)];
    let fine = QueensWeights::new(10000.0);
    let coarse = QueensWeights::new(1000.0);
    let w_fine = fine.compute_weights(&vec![ring(&a, 10000.0), ring(&b, 10000.0)], 1.0);
    let w_coarse = coarse.compute_weights(&vec![ring(&a, 1000.0), ring(&b, 1000.0)], 1.0);
    assert_eq!(w_fine.are_neighbors(0, 1), Ok(false));
    assert_eq!(w_coarse.are_neighbors(0, 1), Ok(true));
}

#[test]
fn a_geometry_without_vertices_is_a_known_island() {
    let mut rings = squares(10.0);
    rings.push(vec![]);
    let w = QueensWeights::new(10.0).compute_weights(&rings, 1.0);
    assert_eq!(w.get_neighbor_ids(4), Some(HashSet::new()));
    let r = RookWeights::new(10.0).compute_weights(&rings, 1.0);
    assert_eq!(r.get_neighbor_ids(4), Some(HashSet::new()));
}

#[test]
fn no_geometries_give_an_empty_matrix() {
    let w = QueensWeights::new(10.0).compute_weights(&Vec::<Vec<VertexKey>>::new(), 1.0);
    assert_eq!(w.no_elements(), 0);
    assert_eq!(w.get_neighbor_ids(0), None);
}
