use geo_weights::{TransformType, Weights, WeightsError};
use std::collections::{HashMap, HashSet};

fn weight_of(w: &Weights<f64>, origin: usize, dest: usize) -> Option<f64> {
    let rows = w.weights();
    match &rows[origin] {
        Some(row) => row.iter().find(|(d, _)| *d == dest).map(|(_, x)| *x),
        None => None,
    }
}

#[test]
fn we_should_correctly_construct_a_matrix_from_list_representation() {
    let origins: Vec<usize> = vec![1, 1, 3, 4, 5];

    let dests: Vec<usize> = vec![2, 3, 4, 2, 2];

    let weights: Vec<f64> = vec![1.0, 2.0, -1.0, 2.0, 1.0];

    // Identifier 5 does not lie in [0, 5): the list is refused.
    let refused = Weights::from_list_rep(&origins, &dests, &weights, 5);
    assert_eq!(
        refused.err(),
        Some(WeightsError::IdOutOfRange { id: 5, no_elements: 5 })
    );

    // With room for identifier 5 the same lists give the expected neighbours.
    let weights = Weights::from_list_rep(&origins, &dests, &weights, 6).unwrap();

    let n0 = weights.get_neighbor_ids(0);
    let n1 = weights.get_neighbor_ids(1);
    let n2 = weights.get_neighbor_ids(2);
    let n3 = weights.get_neighbor_ids(3);
    let n4 = weights.get_neighbor_ids(4);
    let n5 = weights.get_neighbor_ids(5);

    assert!(n0.is_none());
    assert_eq!(n1, Some(HashSet::from([2, 3])));
    assert_eq!(n2, Some(HashSet::from([5, 1, 4])));
    assert_eq!(n3, Some(HashSet::from([1, 4])));
    assert_eq!(n3, Some(HashSet::from([1, 4])));
    assert_eq!(n3, Some(HashSet::from([1, 4])));
    assert_eq!(n4, Some(HashSet::from([3, 2])));
    assert_eq!(n5, Some(HashSet::from([2])));
}

#[test]
fn list_representation_links_both_ways_with_the_same_weight() {
    let w = Weights::from_list_rep(&vec![0, 2], &vec![1, 1], &vec![0.5, 3.0], 3).unwrap();
    assert_eq!(weight_of(&w, 0, 1), Some(0.5));
    assert_eq!(weight_of(&w, 1, 0), Some(0.5));
    assert_eq!(weight_of(&w, 1, 2), Some(3.0));
    assert_eq!(weight_of(&w, 2, 1), Some(3.0));
    assert_eq!(weight_of(&w, 0, 2), None);
}

#[test]
fn a_later_triple_overwrites_the_weight_of_an_earlier_one() {
    let w = Weights::from_list_rep(&vec![0, 1], &vec![1, 0], &vec![1.0, 4.0], 2).unwrap();
    assert_eq!(weight_of(&w, 0, 1), Some(4.0));
    assert_eq!(weight_of(&w, 1, 0), Some(4.0));
    assert_eq!(w.neighbor_counts(), vec![1, 1]);
}

#[test]
fn only_as_many_triples_as_the_shortest_list_are_read() {
    let w = Weights::from_list_rep(&vec![0, 1, 2], &vec![1, 2], &vec![1.0, 1.0, 1.0], 4).unwrap();
    assert_eq!(w.get_neighbor_ids(0), Some(HashSet::from([1])));
    assert_eq!(w.get_neighbor_ids(2), Some(HashSet::from([1])));
    assert_eq!(w.get_neighbor_ids(3), None);
}

#[test]
fn a_destination_out_of_range_is_refused() {
    let r = Weights::from_list_rep(&vec![0], &vec![7], &vec![1.0], 3);
    assert_eq!(r.err(), Some(WeightsError::IdOutOfRange { id: 7, no_elements: 3 }));
}

#[test]
fn an_empty_matrix_has_no_entries() {
    let w: Weights<f64> = Weights::empty(4);
    assert_eq!(w.no_elements(), 4);
    for o in 0..4 {
        assert_eq!(w.get_neighbor_ids(o), None);
    }
    assert_eq!(w.get_neighbor_ids(9), None);
}

#[test]
fn are_neighbors_answers_for_known_origins_and_errs_otherwise() {
    let w = Weights::from_list_rep(&vec![0], &vec![1], &vec![1.0], 3).unwrap();
    assert_eq!(w.are_neighbors(0, 1), Ok(true));
    assert_eq!(w.are_neighbors(1, 0), Ok(true));
    assert_eq!(w.are_neighbors(0, 2), Ok(false));
    assert_eq!(w.are_neighbors(2, 0), Err(WeightsError::UnknownOrigin { origin: 2 }));
    assert_eq!(w.are_neighbors(8, 0), Err(WeightsError::UnknownOrigin { origin: 8 }));
}

#[test]
fn to_list_walks_origins_in_order() {
    let w = Weights::from_list_rep(&vec![2, 0], &vec![1, 2], &vec![5.0, 7.0], 3).unwrap();
    let (origins, dests, values) = w.to_list();
    assert_eq!(origins, vec![0, 1, 2, 2]);
    assert_eq!(dests, vec![2, 2, 1, 0]);
    assert_eq!(values, vec![7.0, 5.0, 5.0, 7.0]);
}

#[test]
fn sparse_rows_lay_out_each_row_in_its_segment() {
    let w = Weights::from_list_rep(&vec![2, 0], &vec![1, 2], &vec![5.0, 7.0], 4).unwrap();
    let s = w.as_sparse_matrix(Some(TransformType::Row)).unwrap();
    assert!(s.normalize_rows);
    assert_eq!(s.no_elements, 4);
    assert_eq!(s.row_offsets, vec![0, 1, 2, 4, 4]);
    assert_eq!(s.col_indices, vec![2, 2, 1, 0]);
    assert_eq!(s.values, vec![7.0, 5.0, 5.0, 7.0]);
}

#[test]
fn binary_and_absent_transforms_keep_weights_and_doubly_standardized_is_refused() {
    let w = Weights::from_list_rep(&vec![0], &vec![1], &vec![2.0], 2).unwrap();
    let binary = w.as_sparse_matrix(Some(TransformType::Binary)).unwrap();
    assert!(!binary.normalize_rows);
    let none = w.as_sparse_matrix(None).unwrap();
    assert!(!none.normalize_rows);
    assert_eq!(none.values, vec![2.0, 2.0]);
    assert!(matches!(
        w.as_sparse_matrix(Some(TransformType::DoublyStandardized)),
        Err(WeightsError::UnsupportedTransform)
    ));
}

#[test]
fn converting_twice_gives_identical_layouts() {
    let w = Weights::from_list_rep(&vec![0, 1, 3], &vec![1, 2, 0], &vec![1.0, 2.0, 3.0], 4).unwrap();
    let a = w.as_sparse_matrix(Some(TransformType::Row)).unwrap();
    let b = w.as_sparse_matrix(Some(TransformType::Row)).unwrap();
    assert_eq!(a.row_offsets, b.row_offsets);
    assert_eq!(a.col_indices, b.col_indices);
    assert_eq!(a.values, b.values);
    assert_eq!(a.normalize_rows, b.normalize_rows);
}

#[test]
fn neighbor_counts_count_islands_as_zero() {
    let w = Weights::from_list_rep(&vec![0, 0], &vec![1, 2], &vec![1.0, 1.0], 4).unwrap();
    assert_eq!(w.neighbor_counts(), vec![2, 1, 1, 0]);
}

fn ring_dict() -> HashMap<usize, HashMap<usize, f64>> {
    let mut dict: HashMap<usize, HashMap<usize, f64>> = HashMap::new();
    dict.insert(0, HashMap::from([(1, 1.0), (3, 1.0)]));
    dict.insert(1, HashMap::from([(0, 1.0), (4, 1.0)]));
    dict.insert(2, HashMap::from([(3, 1.0), (6, 1.0)]));
    dict.insert(3, HashMap::from([(0, 1.0), (2, 1.0), (4, 1.0), (7, 1.0)]));
    dict.insert(4, HashMap::from([(1, 1.0), (3, 1.0), (5, 1.0), (8, 1.0)]));
    dict.insert(5, HashMap::from([(4, 1.0), (9, 1.0)]));
    dict.insert(6, HashMap::from([(2, 1.0), (7, 1.0)]));
    dict.insert(7, HashMap::from([(3, 1.0), (6, 1.0), (8, 1.0)]));
    dict.insert(8, HashMap::from([(4, 1.0), (7, 1.0), (9, 1.0)]));
    dict.insert(9, HashMap::from([(5, 1.0), (8, 1.0)]));
    dict
}

#[test]
fn a_matrix_from_a_map_keeps_every_entry() {
    let w = Weights::new(ring_dict(), 10).unwrap();
    assert_eq!(w.no_elements(), 10);
    assert_eq!(w.get_neighbor_ids(3), Some(HashSet::from([0, 2, 4, 7])));
    assert_eq!(w.get_neighbor_ids(9), Some(HashSet::from([5, 8])));
    assert_eq!(w.neighbor_counts(), vec![2, 2, 2, 4, 4, 2, 2, 3, 3, 2]);
    assert_eq!(weight_of(&w, 7, 6), Some(1.0));
}

#[test]
fn a_matrix_from_a_map_keeps_direction_and_islands() {
    let mut dict: HashMap<usize, HashMap<usize, f64>> = HashMap::new();
    dict.insert(0, HashMap::from([(1, 2.5)]));
    dict.insert(2, HashMap::new());
    let w = Weights::new(dict, 4).unwrap();
    assert_eq!(w.are_neighbors(0, 1), Ok(true));
    assert_eq!(w.are_neighbors(1, 0), Err(WeightsError::UnknownOrigin { origin: 1 }));
    assert_eq!(w.get_neighbor_ids(2), Some(HashSet::new()));
    assert_eq!(w.get_neighbor_ids(3), None);
    assert_eq!(weight_of(&w, 0, 1), Some(2.5));
}

#[test]
fn a_map_with_identifiers_out_of_range_is_refused() {
    let mut dict: HashMap<usize, HashMap<usize, f64>> = HashMap::new();
    dict.insert(0, HashMap::from([(6, 1.0)]));
    assert_eq!(
        Weights::new(dict, 3).err(),
        Some(WeightsError::IdOutOfRange { id: 6, no_elements: 3 })
    );
    let mut dict: HashMap<usize, HashMap<usize, f64>> = HashMap::new();
    dict.insert(4, HashMap::new());
    assert_eq!(
        Weights::new(dict, 3).err(),
        Some(WeightsError::IdOutOfRange { id: 4, no_elements: 3 })
    );
}
