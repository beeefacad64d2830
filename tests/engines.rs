use biam::local_search::{best_improving_move, first_improving_move, LocalSearch};
use biam::matrix::DistanceMatrix;
use biam::random::Random;
use biam::rng::RandomSource;
use biam::simulated_annealing::{calibrated_temperature, cool, first_accepted_move, SimulatedAnnealing};
use biam::tabu_search::{stale, TabuSearch};
use biam::utils::{calculate_tour_distance, compute_tour_cost, random_permutation};

fn euclidean_matrix(points: &[(f64, f64)], scale: f64) -> DistanceMatrix {
    let n = points.len();
    let mut rows = Vec::new();
    for i in 0..n {
        let mut row = Vec::new();
        for j in 0..n {
            let dx = points[i].0 - points[j].0;
            let dy = points[i].1 - points[j].1;
            row.push(((dx * dx + dy * dy).sqrt() * scale).round() as u32);
        }
        rows.push(row);
    }
    DistanceMatrix::new(rows).unwrap()
}

fn unit_square() -> DistanceMatrix {
    euclidean_matrix(&[(0.0, 0.0), (0.0, 1.0), (1.0, 1.0), (1.0, 0.0)], 1000.0)
}

fn scattered(n: usize) -> DistanceMatrix {
    let mut points = Vec::new();
    let mut x: u64 = 12345;
    for _ in 0..n {
        x = x.wrapping_mul(6364136223846793005).wrapping_add(1442695040888963407);
        let a = ((x >> 33) % 1000) as f64;
        x = x.wrapping_mul(6364136223846793005).wrapping_add(1442695040888963407);
        let b = ((x >> 33) % 1000) as f64;
        points.push((a, b));
    }
    euclidean_matrix(&points, 1.0)
}

fn is_permutation(t: &[u32], n: usize) -> bool {
    let mut seen = vec![false; n];
    if t.len() != n {
        return false;
    }
    for &x in t {
        if x as usize >= n || seen[x as usize] {
            return false;
        }
        seen[x as usize] = true;
    }
    true
}

fn all_permutations(n: u32) -> Vec<Vec<u32>> {
    if n == 0 {
        return vec![Vec::new()];
    }
    let mut out = Vec::new();
    for p in all_permutations(n - 1) {
        for k in 0..=p.len() {
            let mut q = p.clone();
            q.insert(k, n - 1);
            out.push(q);
        }
    }
    out
}

fn tiny_matrices() -> Vec<DistanceMatrix> {
    vec![DistanceMatrix::new(Vec::new()).unwrap(), DistanceMatrix::new(vec![vec![0]]).unwrap()]
}

fn check_result(m: &DistanceMatrix, r: &(Vec<u32>, u64, u32, u32)) {
    assert!(is_permutation(&r.0, m.size()));
    assert_eq!(calculate_tour_distance(&r.0, m), Ok(r.1));
}

#[test]
fn first_improving_move_on_crossed_square() {
    let m = unit_square();
    // 0-2-1-3 crosses itself; row 0 holds only the move (0, 2).
    let (mv, evaluated) = first_improving_move(&m, &[0, 2, 1, 3]);
    assert_eq!(mv, Some((0, 2)));
    assert_eq!(evaluated, 1);
    let (mv, evaluated) = first_improving_move(&m, &[0, 1, 2, 3]);
    assert_eq!(mv, None);
    assert_eq!(evaluated, 2);
}

#[test]
fn best_improving_move_takes_largest_gain() {
    let m = DistanceMatrix::new(vec![
        vec![0, 1, 9, 9, 1],
        vec![1, 0, 1, 9, 9],
        vec![9, 1, 0, 1, 9],
        vec![9, 9, 1, 0, 1],
        vec![1, 9, 9, 1, 0],
    ])
    .unwrap();
    let tour = [0, 2, 1, 3, 4];
    let (best, evaluated) = best_improving_move(&m, &tour);
    assert_eq!(evaluated, 5);
    let (i, j) = best.unwrap();
    let moved = biam::utils::swap_2_edges(&tour, i + 1, j, Vec::new());
    let gain = compute_tour_cost(&tour, &m) - compute_tour_cost(&moved, &m);
    for a in 0..5usize {
        for b in (a + 2)..5usize {
            if a == 0 && b == 4 {
                continue;
            }
            let other = biam::utils::swap_2_edges(&tour, a + 1, b, Vec::new());
            assert!(compute_tour_cost(&other, &m) >= compute_tour_cost(&moved, &m));
        }
    }
    assert!(gain > 0);
    assert_eq!(best_improving_move(&m, &[0, 1, 2, 3, 4]), (None, 5));
}

#[test]
fn greedy_finds_square_perimeter_from_every_start() {
    let m = unit_square();
    let ls = LocalSearch::new(unit_square());
    for start in all_permutations(4) {
        let r = ls.greedy_from(start);
        check_result(&m, &r);
        assert_eq!(r.1, 4000);
    }
}

#[test]
fn steepest_finds_square_perimeter_from_every_start() {
    let m = unit_square();
    let ls = LocalSearch::new(unit_square());
    for start in all_permutations(4) {
        let r = ls.steepest_from(start);
        check_result(&m, &r);
        assert_eq!(r.1, 4000);
    }
}

#[test]
fn greedy_and_steepest_random_starts_on_square() {
    let m = unit_square();
    let mut ls = LocalSearch::with_source(unit_square(), RandomSource::from_seed(5));
    for _ in 0..20 {
        let g = ls.greedy().unwrap();
        check_result(&m, &g);
        assert_eq!(g.1, 4000);
        let s = ls.steepest().unwrap();
        check_result(&m, &s);
        assert_eq!(s.1, 4000);
    }
}

#[test]
fn descent_beats_random_on_average() {
    let m = scattered(40);
    let ls = LocalSearch::new(scattered(40));
    let mut rng = RandomSource::from_seed(11);
    let trials = 60;
    let (mut init, mut greedy, mut steepest) = (0u64, 0u64, 0u64);
    for _ in 0..trials {
        let start = random_permutation(m.size(), &mut rng);
        init += compute_tour_cost(&start, &m);
        let g = ls.greedy_from(random_permutation(m.size(), &mut rng));
        check_result(&m, &g);
        greedy += g.1;
        let s = ls.steepest_from(random_permutation(m.size(), &mut rng));
        check_result(&m, &s);
        steepest += s.1;
    }
    assert!(greedy <= init);
    assert!(steepest <= init);
}

#[test]
fn local_search_counts_on_square() {
    let ls = LocalSearch::new(unit_square());
    let r = ls.greedy_from(vec![0, 2, 1, 3]);
    assert_eq!(r.2, 1);
    assert_eq!(r.3, 3);
    let r = ls.steepest_from(vec![0, 2, 1, 3]);
    assert_eq!(r.2, 1);
    assert_eq!(r.3, 4);
}

#[test]
fn heuristic_follows_nearest_neighbour() {
    let m = DistanceMatrix::new(vec![
        vec![0, 2, 9, 10],
        vec![2, 0, 6, 4],
        vec![9, 6, 0, 3],
        vec![10, 4, 3, 0],
    ])
    .unwrap();
    let ls = LocalSearch::new(m);
    let r = ls.heuristic_from(0);
    assert_eq!(r, (vec![0, 1, 3, 2], 2 + 4 + 3 + 9, 0, 0));
    let r = ls.heuristic_from(2);
    assert_eq!(r.0, vec![2, 3, 1, 0]);
    assert_eq!(r.1, 3 + 4 + 2 + 9);
}

#[test]
fn heuristic_breaks_ties_by_lowest_index() {
    let m = DistanceMatrix::new(vec![
        vec![0, 5, 5, 5],
        vec![5, 0, 5, 5],
        vec![5, 5, 0, 5],
        vec![5, 5, 5, 0],
    ])
    .unwrap();
    let ls = LocalSearch::new(m);
    assert_eq!(ls.heuristic_from(2).0, vec![2, 0, 1, 3]);
}

#[test]
fn heuristic_is_repeatable() {
    let m = scattered(25);
    let ls = LocalSearch::new(scattered(25));
    for start in 0..25 {
        let a = ls.heuristic_from(start);
        let b = ls.heuristic_from(start);
        assert_eq!(a, b);
        check_result(&m, &a);
        assert_eq!(a.0[0], start as u32);
    }
}

#[test]
fn heuristic_random_start() {
    let m = scattered(12);
    let mut ls = LocalSearch::with_source(scattered(12), RandomSource::from_seed(8));
    for _ in 0..10 {
        let r = ls.heuristic().unwrap();
        check_result(&m, &r);
        assert_eq!(r, ls.heuristic_from(r.0[0] as usize));
    }
}

#[test]
fn tiny_instances_cost_nothing() {
    for m in tiny_matrices() {
        let mut ls = LocalSearch::with_source(m, RandomSource::from_seed(1));
        for r in [ls.greedy().unwrap(), ls.steepest().unwrap(), ls.heuristic().unwrap()] {
            assert_eq!(r.1, 0);
        }
    }
    for n in 0..2usize {
        let rows = vec![vec![0u32; n]; n];
        let mut random = Random::with_source(DistanceMatrix::new(rows.clone()).unwrap(), RandomSource::from_seed(2));
        assert_eq!(random.search(5).unwrap().1, 0);
        assert_eq!(random.walk(5).unwrap().1, 0);
        let mut sa = SimulatedAnnealing::with_source(DistanceMatrix::new(rows.clone()).unwrap(), RandomSource::from_seed(3));
        sa.determine_initial_temperature();
        assert_eq!(sa.run(|_, _| true).unwrap().1, 0);
        let mut ts = TabuSearch::with_source(DistanceMatrix::new(rows).unwrap(), None, RandomSource::from_seed(4));
        let r = ts.run().unwrap();
        assert_eq!(r.1, 0);
        assert_eq!(r.0.len(), n);
    }
}

#[test]
fn random_search_keeps_best_exact() {
    let m = scattered(15);
    let mut random = Random::with_source(scattered(15), RandomSource::from_seed(21));
    let first = random.search(0).unwrap();
    assert_eq!(first.3, 0);
    check_result(&m, &first);
    let r = random.search(20).unwrap();
    check_result(&m, &r);
    assert!(r.1 <= first.1);
    assert_eq!(r.2, 0);
}

#[test]
fn random_walk_tracks_cost_exactly() {
    let m = scattered(15);
    let mut random = Random::with_source(scattered(15), RandomSource::from_seed(22));
    let first = random.walk(0).unwrap();
    assert_eq!(first.3, 0);
    let r = random.walk(20).unwrap();
    check_result(&m, &r);
    assert!(r.1 <= first.1);
    random.init_random();
    let again = random.walk(5).unwrap();
    check_result(&m, &again);
}

#[test]
fn cooling_steps() {
    assert_eq!(cool(0), 0);
    assert_eq!(cool(1), 0);
    // 1.0 -> 1 / 1.99 = 0.502...
    assert_eq!(cool(1000), 502);
    // 100.0 -> 100 / 100 = 1.0
    assert_eq!(cool(100_000), 1000);
}

#[test]
fn calibration_averages_uphill_deltas() {
    let m = DistanceMatrix::new(vec![
        vec![0, 1, 7, 2],
        vec![1, 0, 3, 9],
        vec![7, 3, 0, 4],
        vec![2, 9, 4, 0],
    ])
    .unwrap();
    // Row 0 of tour 0-1-2-3 holds the move (0, 2) with delta 11.
    assert_eq!(calibrated_temperature(&m, &[0, 1, 2, 3], 1), 11 * 99499);
    assert_eq!(calibrated_temperature(&m, &[0, 1, 2, 3], 0), 1000);
    // On the square perimeter every move is uphill: (0, 2) gains 2 * 1414 - 2000.
    let sq = unit_square();
    assert_eq!(calibrated_temperature(&sq, &[0, 1, 2, 3], 1), 828 * 99499);
    assert_eq!(calibrated_temperature(&sq, &[0, 2, 1, 3], 1), 1000);
}

#[test]
fn annealing_without_worse_moves_descends() {
    let m = unit_square();
    let mut sa = SimulatedAnnealing::with_source(unit_square(), RandomSource::from_seed(9));
    sa.set_temperature(5000);
    for start in all_permutations(4) {
        let r = sa.run_from(start, |_, _| false);
        check_result(&m, &r);
        assert_eq!(r.1, 4000);
    }
    assert_eq!(sa.temperature(), 5000);
}

#[test]
fn annealing_cold_start_returns_input() {
    let sa = SimulatedAnnealing::new(unit_square());
    assert_eq!(sa.temperature(), 0);
    let r = sa.run_from(vec![0, 2, 1, 3], |_, _| true);
    assert_eq!(r, (vec![0, 2, 1, 3], 4828, 0, 0));
}

#[test]
fn annealing_reports_best_tour() {
    let m = scattered(20);
    let mut sa = SimulatedAnnealing::with_source(scattered(20), RandomSource::from_seed(10));
    sa.determine_initial_temperature();
    assert!(sa.temperature() > 0);
    let r = sa.run(|d, t| d * 1000 < t).unwrap();
    check_result(&m, &r);
    assert!(r.2 > 0);
    assert!(r.3 >= r.2);
}

#[test]
fn staleness_margin() {
    // -4 on 1000 is a gain of 0.4%: stale. -6 on 1000 is 0.6%: fresh.
    assert!(stale(-4, 1000));
    assert!(!stale(-6, 1000));
    assert!(!stale(-5, 1000));
    assert!(stale(0, 1000));
    assert!(stale(1, 0));
    assert!(!stale(0, 0));
    assert!(!stale(-1, 0));
}

#[test]
fn tabu_on_square_terminates_with_exact_cost() {
    let m = unit_square();
    let ts = TabuSearch::new(unit_square(), None);
    let r = ts.run_from(vec![0, 1, 2, 3]);
    assert_eq!(r, (vec![0, 1, 2, 3], 4000, 0, 500));
    let mut ts = TabuSearch::with_source(unit_square(), None, RandomSource::from_seed(12));
    for _ in 0..10 {
        let r = ts.run().unwrap();
        check_result(&m, &r);
        assert!(r.1 == 4000 || r.1 == 4828);
    }
}

#[test]
fn tabu_improves_larger_instance() {
    let m = scattered(30);
    let ts = TabuSearch::with_source(scattered(30), Some(20), RandomSource::from_seed(13));
    let mut rng = RandomSource::from_seed(14);
    let start = random_permutation(30, &mut rng);
    let start_cost = compute_tour_cost(&start, &m);
    let r = ts.run_from(start.clone());
    check_result(&m, &r);
    assert!(r.1 < start_cost);
    assert!(r.2 > 0);
    let none = TabuSearch::new(scattered(30), Some(0)).run_from(start.clone());
    assert_eq!(none, (start, start_cost, 0, 0));
}

#[test]
fn consider_keeps_strictly_cheaper_tour() {
    let m = unit_square();
    let mut random = Random::with_source(unit_square(), RandomSource::from_seed(31));
    random.consider(vec![0, 2, 1, 3]);
    let worse = random.search(0).unwrap();
    random.consider(vec![0, 1, 2, 3]);
    let r = random.search(0).unwrap();
    check_result(&m, &r);
    assert_eq!(r.0, vec![0, 1, 2, 3]);
    assert!(worse.1 >= r.1);
    random.consider(vec![1, 2, 3, 0]);
    assert_eq!(random.search(0).unwrap().0, vec![0, 1, 2, 3]);
}

#[test]
fn try_pair_applies_improving_moves_only() {
    let mut random = Random::with_source(unit_square(), RandomSource::from_seed(32));
    random.consider(vec![0, 1, 2, 3]);
    // (0, 3) is the wrap-around pair: skipped.
    assert!(!random.try_pair(3, 0));
    // (0, 2) on the perimeter is uphill: evaluated, not applied.
    assert!(random.try_pair(2, 0));
    assert_eq!(random.walk(0).unwrap(), (vec![0, 1, 2, 3], 4000, 0, 0));
    let mut crossed = Random::with_source(unit_square(), RandomSource::from_seed(33));
    crossed.init_random();
    let start = crossed.walk(0).unwrap();
    if start.1 == 4828 {
        let mut applied = false;
        for (a, b) in [(0, 2), (1, 3)] {
            crossed.try_pair(a, b);
            applied = applied || crossed.walk(0).unwrap().1 == 4000;
        }
        assert!(applied);
    }
}

#[test]
fn first_accepted_move_asks_only_for_uphill_moves() {
    let m = unit_square();
    // Perimeter: both moves are uphill by 828; refusing gives None after 2.
    assert_eq!(first_accepted_move(&m, &[0, 1, 2, 3], 5000, &|_, _| false), (None, 2));
    assert_eq!(first_accepted_move(&m, &[0, 1, 2, 3], 5000, &|d, t| d == 828 && t == 5000), (Some((0, 2, 828)), 1));
    // Crossed: the first move improves, no question asked.
    assert_eq!(first_accepted_move(&m, &[0, 2, 1, 3], 5000, &|_, _| panic!("asked")), (Some((0, 2, -828)), 1));
}
