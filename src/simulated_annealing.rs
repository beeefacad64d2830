//! Simulated annealing over the 2-opt neighbourhood, with a starting
//! temperature calibrated on the instance.

use crate::local_search::{
    is_local_optimum, is_neighbour_move, lemma_count_fits, lemma_moves_in_rows_bound,
    lemma_small_neighbourhood, moves_before,
    moves_in_rows, neighbourhood_size, precedes, row_moves, row_prefix,
};
use crate::matrix::{is_cost_table, DistanceMatrix};
use crate::rng::RandomSource;
use crate::utils::{
    compute_tour_cost, copy_tour, get_delta_intra_route, is_cheapest_in, is_move_chain, is_tour,
    lemma_cheapest_push, lemma_chain_push, lemma_reversal_keeps_tour, lemma_tiny_tour_cost, lemma_tour_cost_bounds, lemma_two_opt_cost,
    move_delta, nodes_below, random_permutation, reports_tour, saturate, saturated, swap_2_edges,
    tour_cost, two_opt,
};
use vstd::arithmetic::div_mod::{
    lemma_div_by_multiple, lemma_div_is_ordered, lemma_mod_self_0, lemma_small_mod,
};
use vstd::prelude::*;

verus! {

/// Starting temperature, in thousandths of a distance unit, when the
/// calibration sample holds no uphill move.
pub const FALLBACK_TEMPERATURE: u64 = 1000;

/// `-1 / ln(0.99)` in thousandths: the temperature, per unit of the mean
/// uphill delta, at which such a move is accepted with probability 0.99.
pub const CALIBRATION_FACTOR: u64 = 99499;

/// A run goes on while the temperature, in thousandths, is above this.
pub const TEMPERATURE_FLOOR: u64 = 1;

/// The positive part of a delta.
pub open spec fn uphill(d: int) -> int {
    if d > 0 {
        d
    } else {
        0
    }
}

/// One if the delta is positive, else zero.
pub open spec fn uphill_mark(d: int) -> int {
    if d > 0 {
        1
    } else {
        0
    }
}

/// The sum of the positive deltas of the moves of row `i` before column `j`.
pub open spec fn row_uphill_sum(m: Seq<Seq<u32>>, t: Seq<u32>, i: int, j: int) -> int
    decreases j - i,
{
    if j <= i + 2 {
        0
    } else {
        row_uphill_sum(m, t, i, j - 1) + if is_neighbour_move(t.len() as int, i, j - 1) {
            uphill(move_delta(m, t, i, j - 1))
        } else {
            0
        }
    }
}

/// The number of positive deltas among the moves of row `i` before column `j`.
pub open spec fn row_uphill_count(m: Seq<Seq<u32>>, t: Seq<u32>, i: int, j: int) -> int
    decreases j - i,
{
    if j <= i + 2 {
        0
    } else {
        row_uphill_count(m, t, i, j - 1) + if is_neighbour_move(t.len() as int, i, j - 1) {
            uphill_mark(move_delta(m, t, i, j - 1))
        } else {
            0
        }
    }
}

/// The sum of the positive deltas of the moves in the first `rows` rows.
pub open spec fn uphill_sum(m: Seq<Seq<u32>>, t: Seq<u32>, rows: int) -> int
    decreases rows,
{
    if rows <= 0 {
        0
    } else {
        uphill_sum(m, t, rows - 1) + row_uphill_sum(m, t, rows - 1, t.len() as int)
    }
}

/// The number of positive deltas among the moves in the first `rows` rows.
pub open spec fn uphill_count(m: Seq<Seq<u32>>, t: Seq<u32>, rows: int) -> int
    decreases rows,
{
    if rows <= 0 {
        0
    } else {
        uphill_count(m, t, rows - 1) + row_uphill_count(m, t, rows - 1, t.len() as int)
    }
}

/// The starting temperature, in thousandths, for a sample whose uphill
/// deltas sum to `sum` over `count` moves: the mean times
/// `CALIBRATION_FACTOR`, or `FALLBACK_TEMPERATURE` for an empty sample.
pub open spec fn calibrated(sum: int, count: int) -> int {
    if count == 0 {
        FALLBACK_TEMPERATURE as int
    } else {
        sum * (CALIBRATION_FACTOR as int) / count
    }
}

/// One cooling step `T / (1 + 0.99 T)`, on temperatures in thousandths.
pub open spec fn cooled(t: int) -> int {
    (100000 * t) / (100000 + 99 * t)
}

/// The temperature after one cooling step; it strictly drops while it is
/// positive.
pub fn cool(temperature: u64) -> (r: u64)
    ensures
        r == cooled(temperature as int),
        temperature > 0 ==> r < temperature,
{
    let t = temperature as u128;
    let num = 100000 * t;
    let den = 100000 + 99 * t;
    let q = num / den;
    proof {
        let ti = t as int;
        if ti > 0 {
            assert(num < ti * den) by (nonlinear_arith)
                requires
                    num == 100000 * ti,
                    den == 100000 + 99 * ti,
                    ti > 0,
            ;
            lemma_div_is_ordered(num as int, ti * den, den as int);
            lemma_div_by_multiple(ti, den as int);
            assert(q <= ti);
            assert(q != ti) by {
                vstd::arithmetic::div_mod::lemma_fundamental_div_mod(num as int, den as int);
                assert(q * den <= num) by (nonlinear_arith)
                    requires
                        num == den * q + num % den,
                        num % den >= 0,
                ;
                if q == ti {
                    assert(ti * den <= num);
                }
            }
        } else {
            assert(q == 0);
        }
    }
    q as u64
}

/// The starting temperature calibrated on the first `rows` rows of the
/// neighbourhood of `tour`: the mean positive delta there, scaled by
/// `CALIBRATION_FACTOR`.
pub fn calibrated_temperature(matrix: &DistanceMatrix, tour: &[u32], rows: usize) -> (r: u64)
    requires
        tour@.len() == matrix@.len(),
        nodes_below(tour@, matrix@.len()),
        rows <= matrix@.len() / 2,
    ensures
        r == calibrated(uphill_sum(matrix@, tour@, rows as int), uphill_count(matrix@, tour@, rows as int)),
{
    let n = matrix.size();
    let ghost m = matrix@;
    let ghost t = tour@;
    let mut sum: u128 = 0;
    let mut count: u64 = 0;
    let mut i: usize = 0;
    while i < rows
        invariant
            n == t.len(),
            n == m.len(),
            m == matrix@,
            t == tour@,
            is_cost_table(m),
            nodes_below(t, n as nat),
            rows <= n / 2,
            0 <= i <= rows,
            sum == uphill_sum(m, t, i as int),
            count == uphill_count(m, t, i as int),
            count <= i * n,
            sum <= count * 2 * (u32::MAX as int),
        decreases rows - i,
    {
        let mut j: usize = i + 2;
        while j < n
            invariant
                n == t.len(),
                n == m.len(),
                m == matrix@,
                t == tour@,
                is_cost_table(m),
                nodes_below(t, n as nat),
                rows <= n / 2,
                0 <= i < rows,
                i + 2 <= j <= n,
                sum == uphill_sum(m, t, i as int) + row_uphill_sum(m, t, i as int, j as int),
                count == uphill_count(m, t, i as int) + row_uphill_count(m, t, i as int, j as int),
                count <= i * n + j,
                sum <= count * 2 * (u32::MAX as int),
            decreases n - j,
        {
            let next_j = if j + 1 == n { 0 } else { j + 1 };
            if next_j != i {
                let delta = get_delta_intra_route(matrix, tour[i], tour[i + 1], tour[j], tour[next_j]);
                proof {
                    lemma_small_mod((i + 1) as nat, n as nat);
                    if j + 1 < n {
                        lemma_small_mod((j + 1) as nat, n as nat);
                    } else {
                        lemma_mod_self_0(n as int);
                    }
                    assert(delta == move_delta(m, t, i as int, j as int));
                    assert(is_neighbour_move(n as int, i as int, j as int));
                    assert(i * n + j + 1 <= n * n) by (nonlinear_arith)
                        requires
                            i + 1 < n,
                            j < n,
                    ;
                    assert(n * n <= (u32::MAX as int) * (u32::MAX as int)) by (nonlinear_arith)
                        requires
                            n <= u32::MAX,
                    ;
                }
                if delta > 0 {
                    proof {
                        assert((count + 1) * 2 * (u32::MAX as int) == count * 2 * (u32::MAX as int)
                            + 2 * (u32::MAX as int)) by (nonlinear_arith);
                        assert(count * 2 * (u32::MAX as int) <= (u32::MAX as int) * (u32::MAX as int)
                            * 2 * (u32::MAX as int)) by (nonlinear_arith)
                            requires
                                0 <= count <= (u32::MAX as int) * (u32::MAX as int),
                        ;
                    }
                    sum = sum + delta as u128;
                    count = count + 1;
                }
            } else {
                proof {
                    assert(!is_neighbour_move(n as int, i as int, j as int));
                }
            }
            j += 1;
        }
        proof {
            assert(i * n + n == (i + 1) * n) by (nonlinear_arith);
        }
        i += 1;
    }
    if count == 0 {
        FALLBACK_TEMPERATURE
    } else {
        proof {
            assert(count <= (u32::MAX as int) * (u32::MAX as int)) by (nonlinear_arith)
                requires
                    count <= i * n,
                    i <= n,
                    n <= u32::MAX,
            ;
            let k = 2 * (u32::MAX as int) * (CALIBRATION_FACTOR as int);
            assert(sum * (CALIBRATION_FACTOR as int) <= k * count) by (nonlinear_arith)
                requires
                    sum <= count * 2 * (u32::MAX as int),
                    k == 2 * (u32::MAX as int) * (CALIBRATION_FACTOR as int),
                    count >= 0,
            ;
            lemma_div_is_ordered(sum * (CALIBRATION_FACTOR as int), k * count, count as int);
            lemma_div_by_multiple(k, count as int);
            assert(sum * (CALIBRATION_FACTOR as int) <= (u32::MAX as int) * (u32::MAX as int) * 2
                * (u32::MAX as int) * (CALIBRATION_FACTOR as int)) by (nonlinear_arith)
                requires
                    sum <= count * 2 * (u32::MAX as int),
                    count <= (u32::MAX as int) * (u32::MAX as int),
                    sum >= 0,
            ;
        }
        (sum * CALIBRATION_FACTOR as u128 / count as u128) as u64
    }
}

/// `accept_worse` takes no move: every answer it can give is `false`.
pub open spec fn never_accepts<F: Fn(u64, u64) -> bool>(accept_worse: F) -> bool {
    forall|d: u64, t: u64, b: bool| accept_worse.ensures((d, t), b) ==> !b
}

/// What a run of annealing from `tour` at starting temperature
/// `start_temperature` returns: a cheapest tour of the chain of 2-opt moves
/// it applied from `tour`, with its cost, the number of moves applied
/// (saturating), and the number of moves evaluated. A start at or below
/// the floor, or fewer than four nodes, applies and evaluates nothing. When
/// no worse move is ever taken and `tour` is not a local optimum, the run
/// improves on it.
pub open spec fn annealed(
    m: Seq<Seq<u32>>,
    start_temperature: u64,
    tour: Seq<u32>,
    never_accepts_worse: bool,
    r: (Vec<u32>, u64, u32, u32),
) -> bool {
    &&& reports_tour(m, r.0@, r.1)
    &&& r.1 <= tour_cost(m, tour)
    &&& exists|visited: Seq<Seq<u32>>|
        {
            &&& visited.len() >= 1
            &&& visited[0] == tour
            &&& is_move_chain(visited)
            &&& #[trigger] is_cheapest_in(m, r.0@, visited)
            &&& r.2 == saturated(visited.len() - 1)
        }
    &&& start_temperature <= TEMPERATURE_FLOOR ==> r.0@ == tour && r.2 == 0 && r.3 == 0
    &&& m.len() < 4 ==> r.0@ == tour && r.2 == 0 && r.3 == 0
    &&& start_temperature > TEMPERATURE_FLOOR && never_accepts_worse && !is_local_optimum(m, tour)
        ==> r.1 < tour_cost(m, tour) && r.2 > 0
}

/// The first move of the neighbourhood of `tour`, in row-major order, that
/// lowers its cost or that `accept_worse` takes when asked with its
/// (non-negative) delta and `temperature`; the move's delta comes with it.
/// Every earlier move was uphill or flat and refused. Also returns the
/// number of moves evaluated.
pub fn first_accepted_move<F: Fn(u64, u64) -> bool>(
    matrix: &DistanceMatrix,
    tour: &[u32],
    temperature: u64,
    accept_worse: &F,
) -> (r: (Option<(usize, usize, i64)>, u64))
    requires
        tour@.len() == matrix@.len(),
        nodes_below(tour@, matrix@.len()),
        forall|d: u64, t: u64| accept_worse.requires((d, t)),
    ensures
        match r.0 {
            Some((i, j, delta)) => {
                &&& is_neighbour_move(tour@.len() as int, i as int, j as int)
                &&& delta == move_delta(matrix@, tour@, i as int, j as int)
                &&& (delta < 0 || accept_worse.ensures((delta as u64, temperature), true))
                &&& r.1 == moves_before(tour@.len() as int, i as int, j as int) + 1
                &&& forall|a: int, b: int|
                    is_neighbour_move(tour@.len() as int, a, b) && precedes(a, b, i as int, j as int)
                        ==> #[trigger] move_delta(matrix@, tour@, a, b) >= 0 && accept_worse.ensures(
                        (move_delta(matrix@, tour@, a, b) as u64, temperature),
                        false,
                    )
            },
            None => {
                &&& is_local_optimum(matrix@, tour@)
                &&& r.1 == neighbourhood_size(tour@.len() as int)
                &&& forall|a: int, b: int|
                    is_neighbour_move(tour@.len() as int, a, b) ==> accept_worse.ensures(
                        (#[trigger] move_delta(matrix@, tour@, a, b) as u64, temperature),
                        false,
                    )
            },
        },
        r.1 <= (u32::MAX as int) * (u32::MAX as int),
{
    let n = matrix.size();
    let ghost m = matrix@;
    let ghost t = tour@;
    let mut evaluated: u64 = 0;
    let mut i: usize = 0;
    while i < n
        invariant
            n == t.len(),
            n == m.len(),
            m == matrix@,
            t == tour@,
            is_cost_table(m),
            nodes_below(t, n as nat),
            forall|d: u64, tt: u64| accept_worse.requires((d, tt)),
            0 <= i <= n,
            evaluated == moves_in_rows(n as int, i as int),
            forall|a: int, b: int|
                is_neighbour_move(n as int, a, b) && a < i ==> #[trigger] move_delta(m, t, a, b) >= 0
                    && accept_worse.ensures((move_delta(m, t, a, b) as u64, temperature), false),
        decreases n - i,
    {
        let mut j: usize = i + 2;
        while j < n
            invariant
                n == t.len(),
                n == m.len(),
                m == matrix@,
                t == tour@,
                is_cost_table(m),
                nodes_below(t, n as nat),
                forall|d: u64, tt: u64| accept_worse.requires((d, tt)),
                0 <= i < n,
                i + 2 <= j,
                j <= n || j == i + 2,
                evaluated == moves_before(n as int, i as int, j as int),
                forall|a: int, b: int|
                    is_neighbour_move(n as int, a, b) && precedes(a, b, i as int, j as int)
                        ==> #[trigger] move_delta(m, t, a, b) >= 0 && accept_worse.ensures(
                        (move_delta(m, t, a, b) as u64, temperature),
                        false,
                    ),
            decreases n - j,
        {
            proof {
                lemma_count_fits(n as int, i as int);
                lemma_moves_in_rows_bound(n as int, i as int);
                assert(i * n + n <= (u32::MAX as int) * (u32::MAX as int)) by (nonlinear_arith)
                    requires
                        i < n,
                        n <= u32::MAX,
                ;
            }
            let next_j = if j + 1 == n { 0 } else { j + 1 };
            if next_j != i {
                let delta = get_delta_intra_route(matrix, tour[i], tour[i + 1], tour[j], tour[next_j]);
                proof {
                    lemma_small_mod((i + 1) as nat, n as nat);
                    if j + 1 < n {
                        lemma_small_mod((j + 1) as nat, n as nat);
                    } else {
                        lemma_mod_self_0(n as int);
                    }
                    assert(delta == move_delta(m, t, i as int, j as int));
                }
                evaluated = evaluated + 1;
                if delta < 0 {
                    return (Some((i, j, delta)), evaluated);
                }
                let take = accept_worse(delta as u64, temperature);
                if take {
                    return (Some((i, j, delta)), evaluated);
                }
            }
            j += 1;
        }
        assert(row_prefix(n as int, i as int, j as int) == row_moves(n as int, i as int));
        i += 1;
    }
    proof {
        lemma_moves_in_rows_bound(n as int, n as int);
        assert(n * n <= (u32::MAX as int) * (u32::MAX as int)) by (nonlinear_arith)
            requires
                n <= u32::MAX,
        ;
    }
    (None, evaluated)
}

/// Simulated annealing: a first-accept scan of the 2-opt neighbourhood
/// under the Metropolis rule, cooled after every scan.
pub struct SimulatedAnnealing {
    distance_matrix: DistanceMatrix,
    temperature: u64,
    rng: RandomSource,
}

impl SimulatedAnnealing {
    /// The matrix the search runs on.
    pub closed spec fn costs(&self) -> Seq<Seq<u32>> {
        self.distance_matrix@
    }

    /// The starting temperature of a run, in thousandths.
    pub closed spec fn start_temperature(&self) -> u64 {
        self.temperature
    }

    /// A search on `distance_matrix` that draws from `rng`, at temperature
    /// zero until calibrated.
    pub fn with_source(distance_matrix: DistanceMatrix, rng: RandomSource) -> (r: SimulatedAnnealing)
        ensures
            r.costs() == distance_matrix@,
            r.start_temperature() == 0,
    {
        SimulatedAnnealing { distance_matrix, temperature: 0, rng }
    }

    /// A search on `distance_matrix`, drawing from an entropy-seeded source.
    pub fn new(distance_matrix: DistanceMatrix) -> (r: SimulatedAnnealing)
        ensures
            r.costs() == distance_matrix@,
            r.start_temperature() == 0,
    {
        SimulatedAnnealing::with_source(distance_matrix, RandomSource::from_entropy())
    }

    /// The starting temperature of a run, in thousandths.
    pub fn temperature(&self) -> (r: u64)
        ensures
            r == self.start_temperature(),
    {
        self.temperature
    }

    /// Sets the starting temperature, in thousandths.
    pub fn set_temperature(&mut self, temperature: u64)
        ensures
            final(self).costs() == old(self).costs(),
            final(self).start_temperature() == temperature,
    {
        self.temperature = temperature;
    }

    /// Calibrates the starting temperature on a random tour and a random
    /// number of sampled rows below `n / 2` (none when `n < 2`).
    pub fn determine_initial_temperature(&mut self)
        ensures
            final(self).costs() == old(self).costs(),
            exists|t: Seq<u32>, rows: int|
                {
                    &&& is_tour(t, old(self).costs().len())
                    &&& 0 <= rows <= old(self).costs().len() / 2
                    &&& (old(self).costs().len() >= 2 ==> rows < old(self).costs().len() / 2)
                    &&& final(self).start_temperature() == calibrated(
                        #[trigger] uphill_sum(old(self).costs(), t, rows),
                        uphill_count(old(self).costs(), t, rows),
                    )
                },
    {
        let ghost m = self.costs();
        let n = self.distance_matrix.size();
        let tour = random_permutation(n, &mut self.rng);
        let rows = if n / 2 == 0 {
            0
        } else {
            self.rng.below(n / 2)
        };
        self.temperature = calibrated_temperature(&self.distance_matrix, tour.as_slice(), rows);
        assert(exists|t: Seq<u32>, k: int|
            {
                &&& is_tour(t, m.len())
                &&& 0 <= k <= m.len() / 2
                &&& (m.len() >= 2 ==> k < m.len() / 2)
                &&& self.start_temperature() == calibrated(
                    #[trigger] uphill_sum(m, t, k),
                    uphill_count(m, t, k),
                )
            }) by {
            assert(uphill_sum(m, tour@, rows as int) == uphill_sum(m, tour@, rows as int));
        }
    }

    /// Anneals from `tour`. While the temperature is above
    /// `TEMPERATURE_FLOOR`, applies the move that `first_accepted_move`
    /// picks, if any, then cools. Returns the cheapest tour reached, its
    /// cost, the number of moves applied and the number of moves evaluated
    /// (both saturating); see `annealed`.
    #[verifier::rlimit(60)]
    pub fn run_from<F: Fn(u64, u64) -> bool>(&self, tour: Vec<u32>, accept_worse: F) -> (r: (
        Vec<u32>,
        u64,
        u32,
        u32,
    ))
        requires
            is_tour(tour@, self.costs().len()),
            forall|d: u64, t: u64| accept_worse.requires((d, t)),
        ensures
            annealed(self.costs(), self.start_temperature(), tour@, never_accepts(accept_worse), r),
    {
        let ghost m = self.costs();
        let ghost never = never_accepts(accept_worse);
        let ghost t0 = tour@;
        let n = self.distance_matrix.size();
        let mut temperature = self.temperature;
        let mut current_cost = compute_tour_cost(tour.as_slice(), &self.distance_matrix);
        let mut current = tour;
        let mut best = copy_tour(&current);
        let mut best_cost = current_cost;
        let mut steps: u32 = 0;
        let mut evaluated: u32 = 0;
        let ghost mut visited: Seq<Seq<u32>> = seq![current@];
        let ghost mut first_done = false;
        proof {
            assert(visited[0] == tour@);
        }
        while temperature > TEMPERATURE_FLOOR
            invariant
                m == self.costs(),
                m == self.distance_matrix@,
                n == m.len(),
                is_cost_table(m),
                forall|d: u64, t: u64| accept_worse.requires((d, t)),
                never == never_accepts(accept_worse),
                is_tour(current@, n as nat),
                current_cost == tour_cost(m, current@),
                is_tour(best@, n as nat),
                best_cost == tour_cost(m, best@),
                visited.len() >= 1,
                visited[0] == tour@,
                visited.last() == current@,
                is_move_chain(visited),
                is_cheapest_in(m, best@, visited),
                steps == saturated(visited.len() - 1),
                temperature <= self.temperature,
                self.temperature > TEMPERATURE_FLOOR ==> first_done || temperature == self.temperature,
                self.temperature <= TEMPERATURE_FLOOR ==> !first_done,
                !first_done ==> visited.len() == 1 && evaluated == 0,
                first_done && never && !is_local_optimum(m, tour@) ==> best_cost < tour_cost(m, tour@)
                    && steps > 0,
                n < 4 ==> visited.len() == 1 && evaluated == 0,
            decreases temperature,
        {
            let (found, count) = first_accepted_move(
                &self.distance_matrix,
                current.as_slice(),
                temperature,
                &accept_worse,
            );
            evaluated = saturate(evaluated as u64 + count);
            proof {
                if n < 4 {
                    lemma_small_neighbourhood(n as int, n as int);
                }
            }
            match found {
                None => {},
                Some((i, j, delta)) => {
                    let ghost before = current@;
                    proof {
                        lemma_two_opt_cost(m, before, i as int, j as int);
                        lemma_reversal_keeps_tour(before, n as nat, i + 1, j as int);
                    }
                    current = swap_2_edges(current.as_slice(), i + 1, j, Vec::new());
                    proof {
                        lemma_tour_cost_bounds(m, current@);
                    }
                    if delta < 0 {
                        current_cost = current_cost - ((0 - delta) as u64);
                    } else {
                        current_cost = current_cost + delta as u64;
                    }
                    steps = steps.saturating_add(1);
                    proof {
                        lemma_chain_push(visited, i as int, j as int);
                        lemma_cheapest_push(m, best@, visited, current@);
                        visited = visited.push(current@);
                        if !first_done && never {
                            assert(delta < 0);
                        }
                    }
                    if current_cost < best_cost {
                        best = copy_tour(&current);
                        best_cost = current_cost;
                    }
                },
            }
            proof {
                first_done = true;
            }
            temperature = cool(temperature);
        }
        proof {
            assert(visited.len() >= 1 && visited[0] == tour@ && is_move_chain(visited)
                && is_cheapest_in(m, best@, visited) && steps == saturated(visited.len() - 1));
            if visited.len() == 1 {
                assert(best@ == visited[0]);
            }
        }
        let r = (best, best_cost, steps, evaluated);
        proof {
            assert(is_cheapest_in(m, r.0@, visited));
            assert(annealed(m, self.temperature, t0, never, r));
        }
        r
    }

    /// Anneals from a fresh random tour; see `run_from`.
    pub fn run<F: Fn(u64, u64) -> bool>(&mut self, accept_worse: F) -> (r: Result<
        (Vec<u32>, u64, u32, u32),
        &'static str,
    >)
        requires
            forall|d: u64, t: u64| accept_worse.requires((d, t)),
        ensures
            final(self).costs() == old(self).costs(),
            final(self).start_temperature() == old(self).start_temperature(),
            r is Ok,
            exists|t: Seq<u32>|
                is_tour(t, old(self).costs().len()) && #[trigger] annealed(
                    old(self).costs(),
                    old(self).start_temperature(),
                    t,
                    never_accepts(accept_worse),
                    r->Ok_0,
                ),
            old(self).costs().len() <= 1 ==> r->Ok_0.1 == 0,
    {
        let ghost m = self.costs();
        let ghost temperature = self.start_temperature();
        let ghost never = never_accepts(accept_worse);
        let n = self.distance_matrix.size();
        let start = random_permutation(n, &mut self.rng);
        let ghost t = start@;
        let r = self.run_from(start, accept_worse);
        proof {
            if n <= 1 {
                lemma_tiny_tour_cost(self.costs(), r.0@);
            }
            assert(is_tour(t, m.len()) && annealed(
                m,
                temperature,
                t,
                never,
                r,
            ));
        }
        let out = Ok(r);
        assert(annealed(m, temperature, t, never, out->Ok_0));
        out
    }
}

} // verus!
