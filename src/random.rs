//! Time-bounded baselines: random restarts and a random improving walk.

use crate::matrix::{is_cost_table, DistanceMatrix};
use crate::rng::RandomSource;
use crate::utils::{
    compute_tour_cost, copy_tour, get_delta_intra_route, is_tour, lemma_reversal_keeps_tour,
    lemma_tiny_tour_cost, lemma_tour_cost_bounds, lemma_two_opt_cost, move_delta, random_pair,
    random_permutation, reports_tour, swap_2_edges, tour_cost, two_opt,
};
use vstd::prelude::*;

verus! {

#[verifier::external_type_specification]
#[verifier::external_body]
pub struct ExInstant(std::time::Instant);

/// Relies on `std::time::Instant::now`: a reading of the monotonic clock.
#[verifier::external_body]
fn clock_now() -> std::time::Instant {
    std::time::Instant::now()
}

/// Relies on `std::time::Instant::elapsed`: the time since `start`.
/// Nothing is assumed of the value.
#[verifier::external_body]
fn elapsed_since(start: &std::time::Instant) -> std::time::Duration {
    start.elapsed()
}

/// Relies on `std::time::Duration::as_millis`: the whole milliseconds of
/// `d`. Nothing is assumed of the value.
#[verifier::external_body]
fn whole_millis(d: &std::time::Duration) -> u128 {
    d.as_millis()
}

/// The whole milliseconds since `start`.
fn millis_since(start: &std::time::Instant) -> u128 {
    let d = elapsed_since(start);
    whole_millis(&d)
}

/// The cheaper of the held best tour and a candidate; the held one on ties.
pub open spec fn keep_cheaper(m: Seq<Seq<u32>>, best: Seq<u32>, candidate: Seq<u32>) -> Seq<u32> {
    if tour_cost(m, candidate) < tour_cost(m, best) {
        candidate
    } else {
        best
    }
}

/// The best tour after offering the candidates in order, from `best`.
pub open spec fn search_steps(m: Seq<Seq<u32>>, best: Seq<u32>, candidates: Seq<Seq<u32>>) -> Seq<u32>
    decreases candidates.len(),
{
    if candidates.len() == 0 {
        best
    } else {
        keep_cheaper(m, search_steps(m, best, candidates.drop_last()), candidates.last())
    }
}

/// The two positions `a` and `b` in increasing order.
pub open spec fn ordered(a: int, b: int) -> (int, int) {
    if a < b {
        (a, b)
    } else {
        (b, a)
    }
}

/// The ordered pair `(i, j)` is the pair whose second edge ends where the
/// first begins; a walk skips it.
pub open spec fn is_wrap_pair(n: int, i: int, j: int) -> bool {
    i == 0 && j == n - 1
}

/// The tour after one round of the walk on the drawn positions `a` and `b`:
/// their 2-opt move when it is not skipped and lowers the cost.
pub open spec fn walk_step(m: Seq<Seq<u32>>, t: Seq<u32>, a: int, b: int) -> Seq<u32> {
    let (i, j) = ordered(a, b);
    if !is_wrap_pair(t.len() as int, i, j) && move_delta(m, t, i, j) < 0 {
        two_opt(t, i, j)
    } else {
        t
    }
}

/// The tour after the walk's rounds on the drawn pairs, in order.
pub open spec fn walk_steps(m: Seq<Seq<u32>>, t: Seq<u32>, pairs: Seq<(int, int)>) -> Seq<u32>
    decreases pairs.len(),
{
    if pairs.len() == 0 {
        t
    } else {
        let prev = walk_steps(m, t, pairs.drop_last());
        walk_step(m, prev, pairs.last().0, pairs.last().1)
    }
}

/// The number of drawn pairs that are evaluated: those not skipped.
pub open spec fn evaluated_pairs(n: int, pairs: Seq<(int, int)>) -> int
    decreases pairs.len(),
{
    if pairs.len() == 0 {
        0
    } else {
        let (i, j) = ordered(pairs.last().0, pairs.last().1);
        evaluated_pairs(n, pairs.drop_last()) + if is_wrap_pair(n, i, j) {
            0int
        } else {
            1int
        }
    }
}

/// Every drawn pair holds two distinct positions of `0..n`.
pub open spec fn valid_pairs(n: int, pairs: Seq<(int, int)>) -> bool {
    forall|k: int|
        0 <= k < pairs.len() ==> 0 <= (#[trigger] pairs[k]).0 < n && 0 <= pairs[k].1 < n
            && pairs[k].0 != pairs[k].1
}

/// Random search and random walk, each keeping the best tour it has seen.
pub struct Random {
    distance_matrix: DistanceMatrix,
    solution: Vec<u32>,
    distance: u64,
    current_solution: Vec<u32>,
    current_distance: u64,
    rng: RandomSource,
}

impl Random {
    /// The matrix the search runs on.
    pub closed spec fn costs(&self) -> Seq<Seq<u32>> {
        self.distance_matrix@
    }

    /// The best tour held.
    pub closed spec fn best_tour(&self) -> Seq<u32> {
        self.solution@
    }

    /// The cost recorded for the best tour.
    pub closed spec fn best_cost(&self) -> u64 {
        self.distance
    }

    /// Both held tours are tours of the matrix, each with its exact cost.
    pub closed spec fn wf(&self) -> bool {
        &&& is_cost_table(self.distance_matrix@)
        &&& is_tour(self.solution@, self.distance_matrix@.len())
        &&& self.distance == tour_cost(self.distance_matrix@, self.solution@)
        &&& is_tour(self.current_solution@, self.distance_matrix@.len())
        &&& self.current_distance == tour_cost(self.distance_matrix@, self.current_solution@)
    }

    /// A search on `distance_matrix` that draws from `rng`, holding a first
    /// random tour.
    pub fn with_source(distance_matrix: DistanceMatrix, rng: RandomSource) -> (r: Random)
        ensures
            r.wf(),
            r.costs() == distance_matrix@,
            reports_tour(r.costs(), r.best_tour(), r.best_cost()),
    {
        let mut rng = rng;
        let n = distance_matrix.size();
        let solution = random_permutation(n, &mut rng);
        let distance = compute_tour_cost(solution.as_slice(), &distance_matrix);
        let current_solution = copy_tour(&solution);
        Random {
            distance_matrix,
            solution,
            distance,
            current_solution,
            current_distance: distance,
            rng,
        }
    }

    /// A search on `distance_matrix`, drawing from an entropy-seeded source.
    pub fn new(distance_matrix: DistanceMatrix) -> (r: Random)
        ensures
            r.wf(),
            r.costs() == distance_matrix@,
            reports_tour(r.costs(), r.best_tour(), r.best_cost()),
    {
        Random::with_source(distance_matrix, RandomSource::from_entropy())
    }

    /// Replaces the held tours by a fresh random tour.
    pub fn init_random(&mut self)
        requires
            old(self).wf(),
        ensures
            final(self).wf(),
            final(self).costs() == old(self).costs(),
            reports_tour(final(self).costs(), final(self).best_tour(), final(self).best_cost()),
    {
        let n = self.distance_matrix.size();
        self.solution = random_permutation(n, &mut self.rng);
        self.distance = compute_tour_cost(self.solution.as_slice(), &self.distance_matrix);
        self.current_solution = copy_tour(&self.solution);
        self.current_distance = self.distance;
    }

    /// One round of random search on the drawn tour `candidate`: it becomes
    /// the current tour, and the best tour when it is strictly cheaper.
    pub fn consider(&mut self, candidate: Vec<u32>)
        requires
            old(self).wf(),
            is_tour(candidate@, old(self).costs().len()),
        ensures
            final(self).wf(),
            final(self).costs() == old(self).costs(),
            final(self).best_tour() == keep_cheaper(old(self).costs(), old(self).best_tour(), candidate@),
            reports_tour(final(self).costs(), final(self).best_tour(), final(self).best_cost()),
    {
        self.current_distance = compute_tour_cost(candidate.as_slice(), &self.distance_matrix);
        self.current_solution = candidate;
        if self.current_distance < self.distance {
            self.solution = copy_tour(&self.current_solution);
            self.distance = self.current_distance;
        }
    }

    /// One round of the random walk on the drawn positions `a` and `b`:
    /// applies their 2-opt move to the best tour when it is not skipped and
    /// lowers the cost (see `walk_step`). Returns whether the move was
    /// evaluated, that is not skipped.
    pub fn try_pair(&mut self, a: usize, b: usize) -> (r: bool)
        requires
            old(self).wf(),
            a < old(self).costs().len(),
            b < old(self).costs().len(),
            a != b,
        ensures
            final(self).wf(),
            final(self).costs() == old(self).costs(),
            final(self).best_tour() == walk_step(old(self).costs(), old(self).best_tour(), a as int, b as int),
            reports_tour(final(self).costs(), final(self).best_tour(), final(self).best_cost()),
            final(self).best_cost() <= old(self).best_cost(),
            r == !is_wrap_pair(
                old(self).costs().len() as int,
                ordered(a as int, b as int).0,
                ordered(a as int, b as int).1,
            ),
    {
        let ghost m = self.costs();
        let n = self.distance_matrix.size();
        let (i, j) = if a < b { (a, b) } else { (b, a) };
        let next_j = if j + 1 == n { 0 } else { j + 1 };
        if next_j == i {
            return false;
        }
        let delta = get_delta_intra_route(
            &self.distance_matrix,
            self.solution[i],
            self.solution[i + 1],
            self.solution[j],
            self.solution[next_j],
        );
        let ghost before = self.solution@;
        proof {
            vstd::arithmetic::div_mod::lemma_small_mod((i + 1) as nat, n as nat);
            if j + 1 < n {
                vstd::arithmetic::div_mod::lemma_small_mod((j + 1) as nat, n as nat);
            } else {
                vstd::arithmetic::div_mod::lemma_mod_self_0(n as int);
            }
            assert(delta == move_delta(m, before, i as int, j as int));
        }
        if delta < 0 {
            proof {
                lemma_two_opt_cost(m, before, i as int, j as int);
                lemma_reversal_keeps_tour(before, n as nat, i + 1, j as int);
            }
            let moved = swap_2_edges(self.solution.as_slice(), i + 1, j, Vec::new());
            proof {
                lemma_tour_cost_bounds(m, moved@);
            }
            self.solution = moved;
            self.distance = self.distance - ((0 - delta) as u64);
        }
        true
    }

    /// Random restarts until `time_limit_ms` milliseconds have passed: each
    /// round draws a fresh tour and offers it to `consider`. Returns the best
    /// tour, its cost, no steps, and the number of tours drawn. A limit of
    /// zero draws nothing; the count stops the search when it reaches
    /// `u32::MAX`.
    pub fn search(&mut self, time_limit_ms: u64) -> (r: Result<(Vec<u32>, u64, u32, u32), &'static str>)
        requires
            old(self).wf(),
        ensures
            final(self).wf(),
            final(self).costs() == old(self).costs(),
            r is Ok,
            reports_tour(old(self).costs(), r->Ok_0.0@, r->Ok_0.1),
            r->Ok_0.0@ == final(self).best_tour(),
            r->Ok_0.1 == final(self).best_cost(),
            r->Ok_0.1 <= old(self).best_cost(),
            r->Ok_0.2 == 0,
            exists|drawn: Seq<Seq<u32>>|
                {
                    &&& drawn.len() == r->Ok_0.3
                    &&& forall|k: int| 0 <= k < drawn.len() ==> is_tour(#[trigger] drawn[k], old(self).costs().len())
                    &&& r->Ok_0.0@ == #[trigger] search_steps(old(self).costs(), old(self).best_tour(), drawn)
                },
            time_limit_ms == 0 ==> r->Ok_0.0@ == old(self).best_tour() && r->Ok_0.1 == old(self).best_cost()
                && r->Ok_0.3 == 0,
            old(self).costs().len() <= 1 ==> r->Ok_0.1 == 0,
    {
        let ghost m = self.costs();
        let ghost start = self.best_tour();
        let ghost mut drawn: Seq<Seq<u32>> = Seq::empty();
        let n = self.distance_matrix.size();
        let clock = clock_now();
        let mut evaluated: u32 = 0;
        while evaluated < u32::MAX && millis_since(&clock) < time_limit_ms as u128
            invariant
                self.wf(),
                self.costs() == m,
                m == old(self).costs(),
                start == old(self).best_tour(),
                n == m.len(),
                self.best_cost() <= old(self).best_cost(),
                drawn.len() == evaluated,
                forall|k: int| 0 <= k < drawn.len() ==> is_tour(#[trigger] drawn[k], n as nat),
                self.best_tour() == search_steps(m, start, drawn),
                time_limit_ms == 0 ==> evaluated == 0 && self.best_cost() == old(self).best_cost(),
            decreases u32::MAX - evaluated,
        {
            let candidate = random_permutation(n, &mut self.rng);
            proof {
                let next = drawn.push(candidate@);
                assert(next.drop_last() =~= drawn);
                drawn = next;
            }
            self.consider(candidate);
            evaluated += 1;
        }
        proof {
            if n <= 1 {
                lemma_tiny_tour_cost(self.costs(), self.best_tour());
            }
            if time_limit_ms == 0 {
                assert(drawn =~= Seq::<Seq<u32>>::empty());
            }
            assert(drawn.len() == evaluated && self.best_tour() == search_steps(m, start, drawn));
        }
        Ok((copy_tour(&self.solution), self.distance, 0, evaluated))
    }

    /// A random walk until `time_limit_ms` milliseconds have passed: each
    /// round draws two distinct positions and offers them to `try_pair`.
    /// Returns the tour reached, its cost, no steps, and the number of moves
    /// evaluated. A limit of zero, or fewer than three nodes, evaluates
    /// nothing and keeps the tour; the walk also stops when the count reaches
    /// `u32::MAX` or the draws reach `u64::MAX`.
    pub fn walk(&mut self, time_limit_ms: u64) -> (r: Result<(Vec<u32>, u64, u32, u32), &'static str>)
        requires
            old(self).wf(),
        ensures
            final(self).wf(),
            final(self).costs() == old(self).costs(),
            r is Ok,
            reports_tour(old(self).costs(), r->Ok_0.0@, r->Ok_0.1),
            r->Ok_0.0@ == final(self).best_tour(),
            r->Ok_0.1 == final(self).best_cost(),
            r->Ok_0.1 <= old(self).best_cost(),
            r->Ok_0.2 == 0,
            exists|pairs: Seq<(int, int)>|
                {
                    &&& valid_pairs(old(self).costs().len() as int, pairs)
                    &&& r->Ok_0.3 == evaluated_pairs(old(self).costs().len() as int, pairs)
                    &&& r->Ok_0.0@ == #[trigger] walk_steps(old(self).costs(), old(self).best_tour(), pairs)
                },
            time_limit_ms == 0 || old(self).costs().len() < 3 ==> r->Ok_0.0@ == old(self).best_tour()
                && r->Ok_0.1 == old(self).best_cost() && r->Ok_0.3 == 0,
            old(self).costs().len() <= 1 ==> r->Ok_0.1 == 0,
    {
        let ghost m = self.costs();
        let ghost start = self.best_tour();
        let ghost mut pairs: Seq<(int, int)> = Seq::empty();
        let n = self.distance_matrix.size();
        let clock = clock_now();
        let mut evaluated: u32 = 0;
        let mut draws: u64 = 0;
        if n >= 3 {
            while draws < u64::MAX && evaluated < u32::MAX && millis_since(&clock) < time_limit_ms as u128
                invariant
                    self.wf(),
                    self.costs() == m,
                    m == old(self).costs(),
                    start == old(self).best_tour(),
                    n == m.len(),
                    n >= 3,
                    self.best_cost() <= old(self).best_cost(),
                    valid_pairs(n as int, pairs),
                    evaluated == evaluated_pairs(n as int, pairs),
                    self.best_tour() == walk_steps(m, start, pairs),
                    time_limit_ms == 0 ==> pairs.len() == 0,
                decreases u64::MAX - draws,
            {
                draws += 1;
                let (a, b) = random_pair(n, &mut self.rng);
                proof {
                    let next = pairs.push((a as int, b as int));
                    assert(next.drop_last() =~= pairs);
                    pairs = next;
                }
                if self.try_pair(a, b) {
                    evaluated += 1;
                }
            }
        }
        proof {
            if n <= 1 {
                lemma_tiny_tour_cost(self.costs(), self.best_tour());
            }
            if n < 3 {
                assert(pairs.len() == 0);
            }
            assert(valid_pairs(n as int, pairs) && evaluated == evaluated_pairs(n as int, pairs)
                && self.best_tour() == walk_steps(m, start, pairs));
        }
        Ok((copy_tour(&self.solution), self.distance, 0, evaluated))
    }
}

} // verus!
