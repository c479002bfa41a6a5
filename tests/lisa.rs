use geo_weights::{
    generate_perturbation_lookups, lisa_plan, observation_of, pseudo_p_value, simulation_draws,
    LisaError, PseudoPValue, Quad, Weights,
};
use std::collections::HashSet;

fn ring_fixture() -> Weights<f64> {
    let pairs: Vec<(usize, usize)> = vec![
        (0, 1),
        (0, 3),
        (1, 4),
        (2, 3),
        (2, 6),
        (3, 4),
        (3, 7),
        (4, 5),
        (4, 8),
        (5, 9),
        (6, 7),
        (7, 8),
        (8, 9),
    ];
    let origins: Vec<usize> = pairs.iter().map(|p| p.0).collect();
    let dests: Vec<usize> = pairs.iter().map(|p| p.1).collect();
    let weights: Vec<f64> = vec![1.0; pairs.len()];
    Weights::from_list_rep(&origins, &dests, &weights, 10).unwrap()
}

fn assert_distinct_below(s: &[usize], bound: usize, excluded: Option<usize>) {
    let set: HashSet<usize> = s.iter().cloned().collect();
    assert_eq!(set.len(), s.len());
    assert!(s.iter().all(|i| *i < bound));
    if let Some(x) = excluded {
        assert!(!s.contains(&x));
    }
}

#[test]
fn pseudo_p_value_takes_the_smaller_tail() {
    assert_eq!(pseudo_p_value(0, 9999), PseudoPValue { numerator: 1, denominator: 10000 });
    assert_eq!(pseudo_p_value(9999, 9999), PseudoPValue { numerator: 1, denominator: 10000 });
    assert_eq!(pseudo_p_value(120, 9999), PseudoPValue { numerator: 121, denominator: 10000 });
    assert_eq!(pseudo_p_value(9000, 9999), PseudoPValue { numerator: 1000, denominator: 10000 });
    assert_eq!(pseudo_p_value(5, 10), PseudoPValue { numerator: 6, denominator: 11 });
}

#[test]
fn pseudo_p_values_are_never_zero_and_never_above_one() {
    for permutations in 1..50usize {
        for at_least in 0..=permutations {
            let p = pseudo_p_value(at_least, permutations);
            assert!(p.numerator >= 1);
            assert!(p.numerator <= p.denominator);
            assert_eq!(p.denominator, permutations + 1);
        }
    }
}

#[test]
fn quadrants_follow_the_signs_with_zero_non_negative() {
    assert_eq!(Quad::classify(true, true), Quad::HH);
    assert_eq!(Quad::classify(true, false), Quad::HL);
    assert_eq!(Quad::classify(false, true), Quad::LH);
    assert_eq!(Quad::classify(false, false), Quad::LL);
    let zero = 0.0f64;
    assert_eq!(Quad::classify(zero >= 0.0, zero >= 0.0), Quad::HH);
}

#[test]
fn observation_of_skips_the_observation_itself() {
    assert_eq!(observation_of(0, 3), 0);
    assert_eq!(observation_of(2, 3), 2);
    assert_eq!(observation_of(3, 3), 4);
    assert_eq!(observation_of(8, 3), 9);
}

#[test]
fn the_plan_counts_neighbours() {
    let w = ring_fixture();
    let plan = lisa_plan(&w, 10, 99).unwrap();
    assert_eq!(plan.no_neighbors, vec![2, 2, 2, 4, 4, 2, 2, 3, 3, 2]);
    assert_eq!(plan.max_neighbors, 4);
}

#[test]
fn the_plan_refuses_bad_inputs() {
    let w = ring_fixture();
    assert!(matches!(lisa_plan(&w, 0, 99), Err(LisaError::EmptyInput)));
    assert!(matches!(lisa_plan(&w, 10, 0), Err(LisaError::NoPermutations)));
    assert!(matches!(
        lisa_plan(&w, 9, 99),
        Err(LisaError::LengthMismatch { values: 9, elements: 10 })
    ));
    let self_linked = Weights::from_list_rep(&vec![0, 0], &vec![0, 1], &vec![1.0, 1.0], 2).unwrap();
    assert!(matches!(
        lisa_plan(&self_linked, 2, 9),
        Err(LisaError::TooManyNeighbors { observation: 0 })
    ));
}

#[test]
fn lookup_tables_hold_distinct_samples_of_each_size() {
    let table = generate_perturbation_lookups(4, 50, 10);
    assert_eq!(table.len(), 5);
    for (k, draws) in table.iter().enumerate() {
        assert_eq!(draws.len(), 50);
        for d in draws {
            assert_eq!(d.len(), k);
            assert_distinct_below(d, 9, None);
        }
    }
}

#[test]
fn full_draws_never_include_the_observation() {
    let draws = simulation_draws(3, 4, 200, 10, None);
    assert_eq!(draws.len(), 200);
    for d in &draws {
        assert_eq!(d.len(), 4);
        assert_distinct_below(d, 10, Some(3));
    }
    // Observation 9 is reachable: the last index maps past the observation.
    let all = simulation_draws(0, 9, 3, 10, None);
    for d in &all {
        let set: HashSet<usize> = d.iter().cloned().collect();
        assert_eq!(set, (1..10).collect::<HashSet<usize>>());
    }
}

#[test]
fn lookup_draws_reuse_the_table_past_the_observation() {
    let table = generate_perturbation_lookups(3, 20, 10);
    let draws = simulation_draws(5, 3, 20, 10, Some(&table));
    assert_eq!(draws.len(), 20);
    for (p, d) in draws.iter().enumerate() {
        let expected: Vec<usize> = table[3][p].iter().map(|i| observation_of(*i, 5)).collect();
        assert_eq!(*d, expected);
        assert_distinct_below(d, 10, Some(5));
    }
    // Two observations with the same neighbour count share the same samples.
    let other = simulation_draws(0, 3, 20, 10, Some(&table));
    for p in 0..20 {
        let a: Vec<usize> = table[3][p].iter().map(|i| observation_of(*i, 0)).collect();
        assert_eq!(other[p], a);
    }
}
