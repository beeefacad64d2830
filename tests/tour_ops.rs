use biam::matrix::{DistanceMatrix, MatrixError};
use biam::rng::RandomSource;
use biam::utils::{
    pair_from_draws, shuffle_with,
    calculate_tour_distance, compute_tour_cost, get_delta_intra_route, random_pair,
    random_permutation, swap_2_edges, TourError,
};

fn euclidean_matrix(points: &[(f64, f64)], scale: f64) -> DistanceMatrix {
    let n = points.len();
    let mut rows = Vec::new();
    for i in 0..n {
        let mut row = Vec::new();
        for j in 0..n {
            let dx = points[i].0 - points[j].0;
            let dy = points[i].1 - points[j].1;
            row.push(((dx * dx + dy * dy).sqrt() * scale).round() as u32);
        }
        rows.push(row);
    }
    DistanceMatrix::new(rows).unwrap()
}

fn pentagon_and_more() -> DistanceMatrix {
    euclidean_matrix(
        &[(0.0, 0.0), (3.0, 1.0), (5.0, 4.0), (1.0, 6.0), (-2.0, 3.0), (2.0, 2.5), (6.0, 0.5)],
        100.0,
    )
}

fn is_permutation(t: &[u32], n: usize) -> bool {
    let mut seen = vec![false; n];
    if t.len() != n {
        return false;
    }
    for &x in t {
        if x as usize >= n || seen[x as usize] {
            return false;
        }
        seen[x as usize] = true;
    }
    true
}

#[test]
fn matrix_accepts_symmetric_table() {
    let m = DistanceMatrix::new(vec![vec![0, 3, 4], vec![3, 0, 5], vec![4, 5, 0]]).unwrap();
    assert_eq!(m.size(), 3);
    assert_eq!(m.get(1, 2), 5);
    assert_eq!(m.get(2, 0), 4);
}

#[test]
fn matrix_rejects_ragged_rows() {
    let r = DistanceMatrix::new(vec![vec![0, 3], vec![3, 0, 1]]);
    assert_eq!(r.err(), Some(MatrixError::NotSquare));
}

#[test]
fn matrix_rejects_nonzero_diagonal() {
    let r = DistanceMatrix::new(vec![vec![0, 3], vec![3, 2]]);
    assert_eq!(r.err(), Some(MatrixError::NonZeroDiagonal));
}

#[test]
fn matrix_rejects_asymmetry() {
    let r = DistanceMatrix::new(vec![vec![0, 3], vec![4, 0]]);
    assert_eq!(r.err(), Some(MatrixError::Asymmetric));
}

#[test]
fn matrix_accepts_empty_table() {
    let m = DistanceMatrix::new(Vec::new()).unwrap();
    assert_eq!(m.size(), 0);
}

#[test]
fn tour_distance_sums_closed_tour() {
    let m = DistanceMatrix::new(vec![vec![0, 3, 4], vec![3, 0, 5], vec![4, 5, 0]]).unwrap();
    assert_eq!(calculate_tour_distance(&[0, 1, 2], &m), Ok(12));
    assert_eq!(calculate_tour_distance(&[2, 0, 1], &m), Ok(12));
    assert_eq!(compute_tour_cost(&[1, 0, 2], &m), 12);
}

#[test]
fn tour_distance_unit_square() {
    let m = euclidean_matrix(&[(0.0, 0.0), (0.0, 1.0), (1.0, 1.0), (1.0, 0.0)], 1000.0);
    assert_eq!(calculate_tour_distance(&[0, 1, 2, 3], &m), Ok(4000));
    assert_eq!(calculate_tour_distance(&[0, 2, 1, 3], &m), Ok(4828));
}

#[test]
fn tour_distance_of_empty_and_single_tours() {
    let empty = DistanceMatrix::new(Vec::new()).unwrap();
    assert_eq!(calculate_tour_distance(&[], &empty), Ok(0));
    let single = DistanceMatrix::new(vec![vec![0]]).unwrap();
    assert_eq!(calculate_tour_distance(&[0], &single), Ok(0));
}

#[test]
fn tour_distance_rejects_length_mismatch() {
    let m = DistanceMatrix::new(vec![vec![0, 3, 4], vec![3, 0, 5], vec![4, 5, 0]]).unwrap();
    assert_eq!(calculate_tour_distance(&[0, 1], &m), Err(TourError::LengthMismatch));
}

#[test]
fn tour_distance_rejects_unknown_node() {
    let m = DistanceMatrix::new(vec![vec![0, 3, 4], vec![3, 0, 5], vec![4, 5, 0]]).unwrap();
    assert_eq!(calculate_tour_distance(&[0, 1, 3], &m), Err(TourError::NodeOutOfRange));
}

#[test]
fn delta_formula_exact() {
    let m = DistanceMatrix::new(vec![
        vec![0, 1, 7, 2],
        vec![1, 0, 3, 9],
        vec![7, 3, 0, 4],
        vec![2, 9, 4, 0],
    ])
    .unwrap();
    // d[0][2] + d[1][3] - d[0][1] - d[2][3] = 7 + 9 - 1 - 4
    assert_eq!(get_delta_intra_route(&m, 0, 1, 2, 3), 11);
    // d[0][3] + d[1][2] - d[0][1] - d[3][2] = 2 + 3 - 1 - 4
    assert_eq!(get_delta_intra_route(&m, 0, 1, 3, 2), 0);
    // d[1][2] + d[0][3] - d[1][0] - d[2][3] = 3 + 2 - 1 - 4
    assert_eq!(get_delta_intra_route(&m, 1, 0, 2, 3), 0);
    assert_eq!(get_delta_intra_route(&m, 2, 3, 0, 1), 11);
}

#[test]
fn swap_reverses_inner_segment() {
    let t = [10, 11, 12, 13, 14, 15];
    assert_eq!(swap_2_edges(&t, 1, 4, Vec::new()), vec![10, 14, 13, 12, 11, 15]);
    assert_eq!(swap_2_edges(&t, 0, 5, vec![1, 2, 3]), vec![15, 14, 13, 12, 11, 10]);
    assert_eq!(swap_2_edges(&t, 2, 2, Vec::new()), vec![10, 11, 12, 13, 14, 15]);
    assert_eq!(swap_2_edges(&t, 3, 2, Vec::new()), vec![10, 11, 12, 13, 14, 15]);
}

#[test]
fn swap_changes_cost_by_predicted_delta() {
    let m = pentagon_and_more();
    let n = m.size();
    let mut rng = RandomSource::from_seed(7);
    for _ in 0..20 {
        let t = random_permutation(n, &mut rng);
        let before = compute_tour_cost(&t, &m) as i64;
        for i in 0..n {
            for j in (i + 1)..n {
                let next_i = i + 1;
                let next_j = (j + 1) % n;
                let delta = get_delta_intra_route(&m, t[i], t[next_i], t[j], t[next_j]);
                let moved = swap_2_edges(&t, next_i, j, Vec::new());
                let after = compute_tour_cost(&moved, &m) as i64;
                assert_eq!(after, before + delta);
            }
        }
    }
}

#[test]
fn random_permutation_is_bijection() {
    let mut rng = RandomSource::from_seed(1);
    for n in 0..12 {
        for _ in 0..20 {
            let t = random_permutation(n, &mut rng);
            assert!(is_permutation(&t, n));
        }
    }
}

#[test]
fn random_permutation_is_roughly_uniform() {
    let mut rng = RandomSource::from_seed(2024);
    let mut counts = std::collections::HashMap::new();
    let trials = 10_000;
    for _ in 0..trials {
        let t = random_permutation(5, &mut rng);
        *counts.entry(t).or_insert(0u32) += 1;
    }
    assert_eq!(counts.len(), 120);
    let expected = trials as f64 / 120.0;
    let chi2: f64 = counts.values().map(|&c| {
        let d = c as f64 - expected;
        d * d / expected
    }).sum();
    // 119 degrees of freedom: mean 119, standard deviation about 15.4.
    assert!(chi2 < 200.0, "chi-square {}", chi2);
}

#[test]
fn random_pair_is_distinct_and_in_range() {
    let mut rng = RandomSource::from_seed(3);
    for n in 2..8 {
        for _ in 0..200 {
            let (a, b) = random_pair(n, &mut rng);
            assert!(a < n && b < n && a != b);
        }
    }
}

#[test]
fn seeded_sources_repeat() {
    let mut a = RandomSource::from_seed(99);
    let mut b = RandomSource::from_seed(99);
    for _ in 0..50 {
        assert_eq!(a.below(1000), b.below(1000));
    }
    let mut c = RandomSource::from_entropy();
    assert!(c.below(3) < 3);
}

#[test]
fn shuffle_with_follows_fisher_yates() {
    // k = 3 swaps 3 and 1: [0,3,2,1]; k = 2 swaps 2 and 0: [2,3,0,1]; k = 1 keeps.
    assert_eq!(shuffle_with(4, &vec![0, 1, 0, 1]), vec![2, 3, 0, 1]);
    assert_eq!(shuffle_with(4, &vec![0, 1, 2, 3]), vec![0, 1, 2, 3]);
    assert_eq!(shuffle_with(0, &vec![]), Vec::<u32>::new());
}

#[test]
fn shuffle_draws_reach_every_permutation_once() {
    let mut seen = std::collections::HashSet::new();
    for d1 in 0..2usize {
        for d2 in 0..3usize {
            for d3 in 0..4usize {
                let t = shuffle_with(4, &vec![0, d1, d2, d3]);
                assert!(is_permutation(&t, 4));
                assert!(seen.insert(t));
            }
        }
    }
    assert_eq!(seen.len(), 24);
}

#[test]
fn pair_from_draws_wraps_around() {
    assert_eq!(pair_from_draws(5, 1, 0), (1, 2));
    assert_eq!(pair_from_draws(5, 3, 2), (3, 1));
    assert_eq!(pair_from_draws(2, 1, 0), (1, 0));
}
