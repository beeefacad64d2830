//! The 2-opt neighbourhood, greedy and steepest descent over it, and the
//! nearest-neighbour construction.

use crate::matrix::{is_cost_table, DistanceMatrix};
use crate::rng::RandomSource;
use crate::utils::{
    compute_tour_cost, get_delta_intra_route, is_tour, lemma_reversal_keeps_tour,
    lemma_tiny_tour_cost, lemma_tour_cost_bounds, lemma_two_opt_cost, move_delta, nodes_below,
    path_cost, random_permutation, reports_tour, saturate, saturated, swap_2_edges, tour_cost,
    two_opt,
};
use vstd::prelude::*;
use vstd::seq_lib::seq_to_set_is_finite;
use vstd::set_lib::{lemma_int_range, lemma_len_subset, set_int_range};

verus! {

/// `(i, j)` is a move of the 2-opt neighbourhood of an `n`-node tour: two
/// positions at least two apart, where the second edge does not end at the
/// first edge's start.
pub open spec fn is_neighbour_move(n: int, i: int, j: int) -> bool {
    &&& 0 <= i
    &&& i + 2 <= j < n
    &&& !(i == 0 && j == n - 1)
}

/// No move of the neighbourhood of `t` lowers its cost.
pub open spec fn is_local_optimum(m: Seq<Seq<u32>>, t: Seq<u32>) -> bool {
    forall|i: int, j: int|
        is_neighbour_move(t.len() as int, i, j) ==> #[trigger] move_delta(m, t, i, j) >= 0
}

/// `(a, b)` comes before `(i, j)` in row-major order.
pub open spec fn precedes(a: int, b: int, i: int, j: int) -> bool {
    a < i || (a == i && b < j)
}

/// `(i, j)` is the first move of the neighbourhood of `t`, in row-major
/// order, that lowers its cost.
pub open spec fn is_first_improving(m: Seq<Seq<u32>>, t: Seq<u32>, i: int, j: int) -> bool {
    &&& is_neighbour_move(t.len() as int, i, j)
    &&& move_delta(m, t, i, j) < 0
    &&& forall|a: int, b: int|
        is_neighbour_move(t.len() as int, a, b) && precedes(a, b, i, j) ==> #[trigger] move_delta(
            m,
            t,
            a,
            b,
        ) >= 0
}

/// `(i, j)` is the move of the neighbourhood of `t` that lowers its cost the
/// most, the first in row-major order among equals.
pub open spec fn is_best_improving(m: Seq<Seq<u32>>, t: Seq<u32>, i: int, j: int) -> bool {
    &&& is_neighbour_move(t.len() as int, i, j)
    &&& move_delta(m, t, i, j) < 0
    &&& forall|a: int, b: int|
        is_neighbour_move(t.len() as int, a, b) ==> #[trigger] move_delta(m, t, a, b) >= move_delta(
            m,
            t,
            i,
            j,
        )
    &&& forall|a: int, b: int|
        is_neighbour_move(t.len() as int, a, b) && precedes(a, b, i, j) ==> #[trigger] move_delta(
            m,
            t,
            a,
            b,
        ) > move_delta(m, t, i, j)
}

/// The move a descent applies to `t`: the first improving one for greedy
/// descent, the best improving one for steepest descent.
pub open spec fn is_chosen_move(m: Seq<Seq<u32>>, t: Seq<u32>, i: int, j: int, steepest: bool) -> bool {
    if steepest {
        is_best_improving(m, t, i, j)
    } else {
        is_first_improving(m, t, i, j)
    }
}

/// The number of moves in row `i` of the neighbourhood of an `n`-node tour.
pub open spec fn row_moves(n: int, i: int) -> int {
    if i + 2 >= n {
        0
    } else if i == 0 {
        n - 3
    } else {
        n - i - 2
    }
}

/// The number of moves in the rows before row `i`.
pub open spec fn moves_in_rows(n: int, i: int) -> int
    decreases i,
{
    if i <= 0 {
        0
    } else {
        moves_in_rows(n, i - 1) + row_moves(n, i - 1)
    }
}

/// The number of moves of row `i` that come before column `j`.
pub open spec fn row_prefix(n: int, i: int, j: int) -> int {
    if j <= i + 2 {
        0
    } else if i == 0 && j == n {
        j - 3
    } else {
        j - i - 2
    }
}

/// The number of moves that come before `(i, j)` in row-major order.
pub open spec fn moves_before(n: int, i: int, j: int) -> int {
    moves_in_rows(n, i) + row_prefix(n, i, j)
}

/// The number of moves in the neighbourhood of an `n`-node tour.
pub open spec fn neighbourhood_size(n: int) -> int {
    moves_in_rows(n, n)
}

/// Fewer than four nodes have no 2-opt move.
pub proof fn lemma_small_neighbourhood(n: int, i: int)
    requires
        0 <= n <= 3,
        0 <= i,
    ensures
        moves_in_rows(n, i) == 0,
    decreases i,
{
    if i > 0 {
        lemma_small_neighbourhood(n, i - 1);
    }
}

pub proof fn lemma_moves_in_rows_bound(n: int, i: int)
    requires
        0 <= i <= n,
    ensures
        0 <= moves_in_rows(n, i) <= i * n,
    decreases i,
{
    if i > 0 {
        lemma_moves_in_rows_bound(n, i - 1);
        assert((i - 1) * n + n == i * n) by (nonlinear_arith);
    }
}

pub proof fn lemma_count_fits(n: int, i: int)
    requires
        0 <= i <= n <= u32::MAX,
    ensures
        0 <= moves_in_rows(n, i) + n <= u64::MAX,
{
    lemma_moves_in_rows_bound(n, i);
    assert(i * n + n <= (u32::MAX as int) * (u32::MAX as int) + u32::MAX) by (nonlinear_arith)
        requires
            0 <= i <= n <= u32::MAX,
    ;
}

/// The first move of the neighbourhood of `tour`, in row-major order, that
/// lowers its cost, with the number of moves evaluated to find it; `None`
/// when the tour is a local optimum.
pub fn first_improving_move(matrix: &DistanceMatrix, tour: &[u32]) -> (r: (
    Option<(usize, usize)>,
    u64,
))
    requires
        tour@.len() == matrix@.len(),
        nodes_below(tour@, matrix@.len()),
    ensures
        match r.0 {
            Some((i, j)) => is_first_improving(matrix@, tour@, i as int, j as int) && r.1
                == moves_before(tour@.len() as int, i as int, j as int) + 1,
            None => is_local_optimum(matrix@, tour@) && r.1 == neighbourhood_size(
                tour@.len() as int,
            ),
        },
{
    let n = matrix.size();
    let ghost m = matrix@;
    let ghost t = tour@;
    let mut evaluated: u64 = 0;
    let mut i: usize = 0;
    while i < n
        invariant
            n == t.len(),
            n == m.len(),
            m == matrix@,
            t == tour@,
            is_cost_table(m),
            nodes_below(t, n as nat),
            0 <= i <= n,
            evaluated == moves_in_rows(n as int, i as int),
            forall|a: int, b: int|
                is_neighbour_move(n as int, a, b) && a < i ==> #[trigger] move_delta(m, t, a, b)
                    >= 0,
        decreases n - i,
    {
        let mut j: usize = i + 2;
        while j < n
            invariant
                n == t.len(),
                n == m.len(),
                m == matrix@,
                t == tour@,
                is_cost_table(m),
                nodes_below(t, n as nat),
                0 <= i < n,
                i + 2 <= j,
                j <= n || j == i + 2,
                evaluated == moves_before(n as int, i as int, j as int),
                forall|a: int, b: int|
                    is_neighbour_move(n as int, a, b) && precedes(a, b, i as int, j as int)
                        ==> #[trigger] move_delta(m, t, a, b) >= 0,
            decreases n - j,
        {
            proof {
                lemma_count_fits(n as int, i as int);
            }
            let next_j = if j + 1 == n { 0 } else { j + 1 };
            if next_j != i {
                let delta = get_delta_intra_route(matrix, tour[i], tour[i + 1], tour[j], tour[next_j]);
                proof {
                    vstd::arithmetic::div_mod::lemma_small_mod((i + 1) as nat, n as nat);
                    if j + 1 < n {
                        vstd::arithmetic::div_mod::lemma_small_mod((j + 1) as nat, n as nat);
                    } else {
                        vstd::arithmetic::div_mod::lemma_mod_self_0(n as int);
                    }
                    assert(delta == move_delta(m, t, i as int, j as int));
                }
                evaluated = evaluated + 1;
                if delta < 0 {
                    return (Some((i, j)), evaluated);
                }
            }
            j += 1;
        }
        assert(row_prefix(n as int, i as int, j as int) == row_moves(n as int, i as int));
        i += 1;
    }
    (None, evaluated)
}

/// The move of the neighbourhood of `tour` that lowers its cost the most
/// (the first in row-major order among equals), with the number of moves
/// evaluated; `None` when the tour is a local optimum.
pub fn best_improving_move(matrix: &DistanceMatrix, tour: &[u32]) -> (r: (
    Option<(usize, usize)>,
    u64,
))
    requires
        tour@.len() == matrix@.len(),
        nodes_below(tour@, matrix@.len()),
    ensures
        match r.0 {
            Some((i, j)) => is_best_improving(matrix@, tour@, i as int, j as int),
            None => is_local_optimum(matrix@, tour@),
        },
        r.1 == neighbourhood_size(tour@.len() as int),
{
    let n = matrix.size();
    let ghost m = matrix@;
    let ghost t = tour@;
    let mut evaluated: u64 = 0;
    let mut best: Option<(usize, usize)> = None;
    let mut best_delta: i64 = 0;
    let mut i: usize = 0;
    while i < n
        invariant
            n == t.len(),
            n == m.len(),
            m == matrix@,
            t == tour@,
            is_cost_table(m),
            nodes_below(t, n as nat),
            0 <= i <= n,
            evaluated == moves_in_rows(n as int, i as int),
            best_delta <= 0,
            forall|a: int, b: int|
                is_neighbour_move(n as int, a, b) && a < i ==> #[trigger] move_delta(m, t, a, b)
                    >= best_delta,
            match best {
                None => best_delta == 0,
                Some((bi, bj)) => {
                    &&& is_neighbour_move(n as int, bi as int, bj as int)
                    &&& bi < i
                    &&& best_delta == move_delta(m, t, bi as int, bj as int)
                    &&& best_delta < 0
                    &&& forall|a: int, b: int|
                        is_neighbour_move(n as int, a, b) && precedes(a, b, bi as int, bj as int)
                            ==> #[trigger] move_delta(m, t, a, b) > best_delta
                },
            },
        decreases n - i,
    {
        let mut j: usize = i + 2;
        while j < n
            invariant
                n == t.len(),
                n == m.len(),
                m == matrix@,
                t == tour@,
                is_cost_table(m),
                nodes_below(t, n as nat),
                0 <= i < n,
                i + 2 <= j,
                j <= n || j == i + 2,
                evaluated == moves_before(n as int, i as int, j as int),
                best_delta <= 0,
                forall|a: int, b: int|
                    is_neighbour_move(n as int, a, b) && precedes(a, b, i as int, j as int)
                        ==> #[trigger] move_delta(m, t, a, b) >= best_delta,
                match best {
                    None => best_delta == 0,
                    Some((bi, bj)) => {
                        &&& is_neighbour_move(n as int, bi as int, bj as int)
                        &&& precedes(bi as int, bj as int, i as int, j as int)
                        &&& best_delta == move_delta(m, t, bi as int, bj as int)
                        &&& best_delta < 0
                        &&& forall|a: int, b: int|
                            is_neighbour_move(n as int, a, b) && precedes(
                                a,
                                b,
                                bi as int,
                                bj as int,
                            ) ==> #[trigger] move_delta(m, t, a, b) > best_delta
                    },
                },
            decreases n - j,
        {
            proof {
                lemma_count_fits(n as int, i as int);
            }
            let next_j = if j + 1 == n { 0 } else { j + 1 };
            if next_j != i {
                let delta = get_delta_intra_route(matrix, tour[i], tour[i + 1], tour[j], tour[next_j]);
                proof {
                    vstd::arithmetic::div_mod::lemma_small_mod((i + 1) as nat, n as nat);
                    if j + 1 < n {
                        vstd::arithmetic::div_mod::lemma_small_mod((j + 1) as nat, n as nat);
                    } else {
                        vstd::arithmetic::div_mod::lemma_mod_self_0(n as int);
                    }
                    assert(delta == move_delta(m, t, i as int, j as int));
                }
                evaluated = evaluated + 1;
                if delta < best_delta {
                    best = Some((i, j));
                    best_delta = delta;
                }
            }
            j += 1;
        }
        assert(row_prefix(n as int, i as int, j as int) == row_moves(n as int, i as int));
        i += 1;
    }
    (best, evaluated)
}

/// Position `k` of `t` holds the node closest to `t[k - 1]` among those
/// not in `t[0..k]`, and the lowest-numbered one among equally close nodes.
pub open spec fn is_nearest_step(m: Seq<Seq<u32>>, t: Seq<u32>, k: int) -> bool {
    forall|c: int|
        0 <= c < m.len() && !t.subrange(0, k).contains(c as u32) ==> {
            &&& (#[trigger] m[t[k - 1] as int][c]) >= m[t[k - 1] as int][t[k] as int]
            &&& (c < t[k] ==> m[t[k - 1] as int][c] > m[t[k - 1] as int][t[k] as int])
        }
}

/// `t` is the nearest-neighbour tour of `m` that starts at `t[0]`.
pub open spec fn is_nearest_neighbour_tour(m: Seq<Seq<u32>>, t: Seq<u32>) -> bool {
    &&& is_tour(t, m.len())
    &&& forall|k: int| 1 <= k < t.len() ==> #[trigger] is_nearest_step(m, t, k)
}

/// Distinct entries that include every node of `0..n` number at least `n`.
proof fn lemma_covering_length(t: Seq<u32>, n: nat)
    requires
        t.no_duplicates(),
        forall|c: int| 0 <= c < n ==> #[trigger] t.contains(c as u32),
        n <= u32::MAX,
    ensures
        t.len() >= n,
{
    let s = t.map_values(|x: u32| x as int);
    assert forall|a: int, b: int| 0 <= a < s.len() && 0 <= b < s.len() && a != b implies s[a]
        != s[b] by {
        assert(t[a] != t[b]);
    }
    s.unique_seq_to_set();
    assert forall|c: int| set_int_range(0, n as int).contains(c) implies s.to_set().contains(c) by {
        assert(t.contains(c as u32));
        let k = choose|k: int| 0 <= k < t.len() && t[k] == c as u32;
        assert(s[k] == c);
    }
    lemma_int_range(0, n as int);
    seq_to_set_is_finite(s);
    lemma_len_subset(set_int_range(0, n as int), s.to_set());
}

proof fn lemma_nearest_prefix(m: Seq<Seq<u32>>, t1: Seq<u32>, t2: Seq<u32>, k: int)
    requires
        is_cost_table(m),
        is_nearest_neighbour_tour(m, t1),
        is_nearest_neighbour_tour(m, t2),
        t1.len() > 0,
        t1[0] == t2[0],
        1 <= k <= t1.len(),
    ensures
        t1.subrange(0, k) == t2.subrange(0, k),
    decreases k,
{
    if k == 1 {
        assert(t1.subrange(0, 1) =~= t2.subrange(0, 1));
    } else {
        let j = k - 1;
        lemma_nearest_prefix(m, t1, t2, j);
        let p = t1.subrange(0, j);
        assert(is_nearest_step(m, t1, j));
        assert(is_nearest_step(m, t2, j));
        let a = t1[j];
        let b = t2[j];
        assert(!p.contains(a)) by {
            if p.contains(a) {
                let x = choose|x: int| 0 <= x < p.len() && p[x] == a;
                assert(t1[x] == t1[j]);
            }
        }
        assert(!p.contains(b)) by {
            if p.contains(b) {
                let x = choose|x: int| 0 <= x < p.len() && p[x] == b;
                assert(t2.subrange(0, j)[x] == t2[x]);
                assert(t2[x] == t2[j]);
            }
        }
        assert(t1[j - 1] == t2[j - 1]) by {
            assert(p[j - 1] == t1[j - 1]);
            assert(t2.subrange(0, j)[j - 1] == t2[j - 1]);
        }
        let prev = t1[j - 1] as int;
        assert(m[prev][b as int] >= m[prev][a as int]);
        assert(m[prev][a as int] >= m[prev][b as int]);
        assert(a == b);
        assert forall|x: int| 0 <= x < k implies t1.subrange(0, k)[x] == t2.subrange(0, k)[x] by {
            if x < j {
                assert(t1.subrange(0, j)[x] == t2.subrange(0, j)[x]);
            }
        }
        assert(t1.subrange(0, k) =~= t2.subrange(0, k));
    }
}

/// The nearest-neighbour tour from a start node is unique: two tours that
/// both follow the rule from the same first node are equal.
pub proof fn lemma_nearest_neighbour_unique(m: Seq<Seq<u32>>, t1: Seq<u32>, t2: Seq<u32>)
    requires
        is_cost_table(m),
        is_nearest_neighbour_tour(m, t1),
        is_nearest_neighbour_tour(m, t2),
        t1.len() > 0 ==> t1[0] == t2[0],
    ensures
        t1 == t2,
{
    let n = t1.len() as int;
    if n > 0 {
        lemma_nearest_prefix(m, t1, t2, n);
        assert(t1 =~= t1.subrange(0, n));
        assert(t2 =~= t2.subrange(0, n));
    } else {
        assert(t1 =~= t2);
    }
}

/// The number of moves a scan evaluates to choose `(i, j)`: up to and
/// including it for greedy descent, the whole neighbourhood for steepest.
pub open spec fn scan_cost(n: int, i: int, j: int, steepest: bool) -> int {
    if steepest {
        neighbourhood_size(n)
    } else {
        moves_before(n, i, j) + 1
    }
}

/// The inputs on which a descent is defined: a matrix and a sequence of its
/// nodes of the same length.
pub open spec fn descent_input(m: Seq<Seq<u32>>, t: Seq<u32>) -> bool {
    is_cost_table(m) && t.len() == m.len() && nodes_below(t, m.len())
}

/// Descent from `t`: apply the chosen move until there is none. Gives the
/// tour reached, the number of moves applied and the number of moves
/// evaluated, the last, empty-handed scan included.
pub open spec fn descent(m: Seq<Seq<u32>>, t: Seq<u32>, steepest: bool) -> (Seq<u32>, int, int)
    decreases tour_cost(m, t),
    when descent_input(m, t)
    via descent_decreases
{
    if exists|i: int, j: int| is_chosen_move(m, t, i, j, steepest) {
        let (i, j) = choose|i: int, j: int| is_chosen_move(m, t, i, j, steepest);
        let rest = descent(m, two_opt(t, i, j), steepest);
        (rest.0, rest.1 + 1, rest.2 + scan_cost(t.len() as int, i, j, steepest))
    } else {
        (t, 0, neighbourhood_size(t.len() as int))
    }
}

#[via_fn]
proof fn descent_decreases(m: Seq<Seq<u32>>, t: Seq<u32>, steepest: bool) {
    if exists|i: int, j: int| is_chosen_move(m, t, i, j, steepest) {
        let (i, j) = choose|i: int, j: int| is_chosen_move(m, t, i, j, steepest);
        lemma_two_opt_cost(m, t, i, j);
        lemma_tour_cost_bounds(m, two_opt(t, i, j));
        lemma_tour_cost_bounds(m, t);
    }
}

/// A descent chooses at most one move: the chosen move is unique.
proof fn lemma_chosen_move_unique(
    m: Seq<Seq<u32>>,
    t: Seq<u32>,
    i: int,
    j: int,
    a: int,
    b: int,
    steepest: bool,
)
    requires
        is_chosen_move(m, t, i, j, steepest),
        is_chosen_move(m, t, a, b, steepest),
    ensures
        i == a && j == b,
{
    if precedes(a, b, i, j) {
        assert(move_delta(m, t, a, b) < 0);
        assert(move_delta(m, t, i, j) <= move_delta(m, t, a, b));
    } else if precedes(i, j, a, b) {
        assert(move_delta(m, t, i, j) < 0);
        assert(move_delta(m, t, a, b) <= move_delta(m, t, i, j));
    }
}

/// One step of descent: when `(i, j)` is the chosen move, descent from `t`
/// applies it and goes on from there.
proof fn lemma_descent_step(m: Seq<Seq<u32>>, t: Seq<u32>, i: int, j: int, steepest: bool)
    requires
        descent_input(m, t),
        is_chosen_move(m, t, i, j, steepest),
    ensures
        descent(m, t, steepest) == ({
            let rest = descent(m, two_opt(t, i, j), steepest);
            (rest.0, rest.1 + 1, rest.2 + scan_cost(t.len() as int, i, j, steepest))
        }),
{
    let (a, b) = choose|a: int, b: int| is_chosen_move(m, t, a, b, steepest);
    lemma_chosen_move_unique(m, t, i, j, a, b, steepest);
}

/// At a local optimum descent stops after one scan.
proof fn lemma_descent_stop(m: Seq<Seq<u32>>, t: Seq<u32>, steepest: bool)
    requires
        descent_input(m, t),
        is_local_optimum(m, t),
    ensures
        descent(m, t, steepest) == (t, 0int, neighbourhood_size(t.len() as int)),
{
    assert forall|i: int, j: int| !is_chosen_move(m, t, i, j, steepest) by {
        if is_chosen_move(m, t, i, j, steepest) {
            assert(move_delta(m, t, i, j) >= 0);
        }
    }
}

/// 2-opt local search: greedy (first improvement) and steepest (best
/// improvement) descent, and the nearest-neighbour construction.
pub struct LocalSearch {
    distance_matrix: DistanceMatrix,
    rng: RandomSource,
}

impl LocalSearch {
    /// The matrix the search runs on.
    pub closed spec fn costs(&self) -> Seq<Seq<u32>> {
        self.distance_matrix@
    }

    /// A search on `distance_matrix`, drawing from an entropy-seeded source.
    pub fn new(distance_matrix: DistanceMatrix) -> (r: LocalSearch)
        ensures
            r.costs() == distance_matrix@,
    {
        LocalSearch { distance_matrix, rng: RandomSource::from_entropy() }
    }

    /// A search on `distance_matrix` that draws from `rng`.
    pub fn with_source(distance_matrix: DistanceMatrix, rng: RandomSource) -> (r: LocalSearch)
        ensures
            r.costs() == distance_matrix@,
    {
        LocalSearch { distance_matrix, rng }
    }

    /// Descent from `tour`, greedy or steepest: see `descent`. Returns the
    /// local optimum reached, its cost, and the numbers of moves applied and
    /// evaluated (both saturating).
    fn descend(&self, tour: Vec<u32>, steepest: bool) -> (r: (Vec<u32>, u64, u32, u32))
        requires
            is_tour(tour@, self.costs().len()),
        ensures
            r.0@ == descent(self.costs(), tour@, steepest).0,
            r.2 == saturated(descent(self.costs(), tour@, steepest).1),
            r.3 == saturated(descent(self.costs(), tour@, steepest).2),
            reports_tour(self.costs(), r.0@, r.1),
            is_local_optimum(self.costs(), r.0@),
            r.1 <= tour_cost(self.costs(), tour@),
    {
        let ghost m = self.costs();
        let n = self.distance_matrix.size();
        let mut current = tour;
        let mut steps: u32 = 0;
        let mut evaluated: u64 = 0;
        let ghost mut steps_done: int = 0;
        let ghost mut evals_done: int = 0;
        proof {
            lemma_tour_cost_bounds(m, current@);
        }
        loop
            invariant_except_break
                descent(m, tour@, steepest) == ({
                    let rest = descent(m, current@, steepest);
                    (rest.0, rest.1 + steps_done, rest.2 + evals_done)
                }),
            invariant
                m == self.costs(),
                m == self.distance_matrix@,
                n == m.len(),
                is_cost_table(m),
                is_tour(current@, n as nat),
                tour_cost(m, current@) <= tour_cost(m, tour@),
                0 <= tour_cost(m, current@),
                0 <= steps_done,
                0 <= evals_done,
                steps == saturated(steps_done),
                evaluated == (if evals_done > u64::MAX { u64::MAX as int } else { evals_done }),
            ensures
                is_tour(current@, n as nat),
                tour_cost(m, current@) <= tour_cost(m, tour@),
                is_local_optimum(m, current@),
                steps == saturated(steps_done),
                evaluated == (if evals_done > u64::MAX { u64::MAX as int } else { evals_done }),
                descent(m, tour@, steepest) == (current@, steps_done, evals_done),
            decreases tour_cost(m, current@),
        {
            let (found, count) = if steepest {
                best_improving_move(&self.distance_matrix, current.as_slice())
            } else {
                first_improving_move(&self.distance_matrix, current.as_slice())
            };
            evaluated = evaluated.saturating_add(count);
            proof {
                evals_done = evals_done + count;
            }
            match found {
                None => {
                    proof {
                        lemma_descent_stop(m, current@, steepest);
                    }
                    break;
                },
                Some((i, j)) => {
                    proof {
                        assert(is_chosen_move(m, current@, i as int, j as int, steepest));
                        lemma_descent_step(m, current@, i as int, j as int, steepest);
                        lemma_two_opt_cost(m, current@, i as int, j as int);
                        lemma_reversal_keeps_tour(current@, n as nat, i + 1, j as int);
                        steps_done = steps_done + 1;
                    }
                    current = swap_2_edges(current.as_slice(), i + 1, j, Vec::new());
                    steps = steps.saturating_add(1);
                    proof {
                        lemma_tour_cost_bounds(m, current@);
                    }
                },
            }
        }
        let cost = compute_tour_cost(current.as_slice(), &self.distance_matrix);
        (current, cost, steps, saturate(evaluated))
    }

    /// Greedy descent from `tour`: applies the first improving move until
    /// none is left. Returns the local optimum, its cost, the number of moves
    /// applied and the number of moves evaluated (both saturating).
    pub fn greedy_from(&self, tour: Vec<u32>) -> (r: (Vec<u32>, u64, u32, u32))
        requires
            is_tour(tour@, self.costs().len()),
        ensures
            r.0@ == descent(self.costs(), tour@, false).0,
            r.2 == saturated(descent(self.costs(), tour@, false).1),
            r.3 == saturated(descent(self.costs(), tour@, false).2),
            reports_tour(self.costs(), r.0@, r.1),
            is_local_optimum(self.costs(), r.0@),
            r.1 <= tour_cost(self.costs(), tour@),
    {
        self.descend(tour, false)
    }

    /// Steepest descent from `tour`: applies the best improving move until
    /// none is left. Returns the local optimum, its cost, the number of moves
    /// applied and the number of moves evaluated (both saturating).
    pub fn steepest_from(&self, tour: Vec<u32>) -> (r: (Vec<u32>, u64, u32, u32))
        requires
            is_tour(tour@, self.costs().len()),
        ensures
            r.0@ == descent(self.costs(), tour@, true).0,
            r.2 == saturated(descent(self.costs(), tour@, true).1),
            r.3 == saturated(descent(self.costs(), tour@, true).2),
            reports_tour(self.costs(), r.0@, r.1),
            is_local_optimum(self.costs(), r.0@),
            r.1 <= tour_cost(self.costs(), tour@),
    {
        self.descend(tour, true)
    }

    /// Greedy descent from a fresh random tour.
    pub fn greedy(&mut self) -> (r: Result<(Vec<u32>, u64, u32, u32), &'static str>)
        ensures
            final(self).costs() == old(self).costs(),
            r is Ok,
            exists|t: Seq<u32>|
                is_tour(t, old(self).costs().len()) && #[trigger] descent(old(self).costs(), t, false)
                    == (r->Ok_0.0@, descent(old(self).costs(), t, false).1, descent(
                    old(self).costs(),
                    t,
                    false,
                ).2) && r->Ok_0.2 == saturated(descent(old(self).costs(), t, false).1) && r->Ok_0.3
                    == saturated(descent(old(self).costs(), t, false).2),
            reports_tour(old(self).costs(), r->Ok_0.0@, r->Ok_0.1),
            is_local_optimum(old(self).costs(), r->Ok_0.0@),
            old(self).costs().len() <= 1 ==> r->Ok_0.1 == 0,
    {
        let ghost m = self.costs();
        let n = self.distance_matrix.size();
        let start = random_permutation(n, &mut self.rng);
        let ghost t = start@;
        let r = self.greedy_from(start);
        proof {
            assert(is_tour(t, m.len()) && descent(m, t, false) == (
                r.0@,
                descent(m, t, false).1,
                descent(m, t, false).2,
            ));
            if n <= 1 {
                lemma_tiny_tour_cost(self.costs(), r.0@);
            }
        }
        Ok(r)
    }

    /// Steepest descent from a fresh random tour.
    pub fn steepest(&mut self) -> (r: Result<(Vec<u32>, u64, u32, u32), &'static str>)
        ensures
            final(self).costs() == old(self).costs(),
            r is Ok,
            exists|t: Seq<u32>|
                is_tour(t, old(self).costs().len()) && #[trigger] descent(old(self).costs(), t, true)
                    == (r->Ok_0.0@, descent(old(self).costs(), t, true).1, descent(
                    old(self).costs(),
                    t,
                    true,
                ).2) && r->Ok_0.2 == saturated(descent(old(self).costs(), t, true).1) && r->Ok_0.3
                    == saturated(descent(old(self).costs(), t, true).2),
            reports_tour(old(self).costs(), r->Ok_0.0@, r->Ok_0.1),
            is_local_optimum(old(self).costs(), r->Ok_0.0@),
            old(self).costs().len() <= 1 ==> r->Ok_0.1 == 0,
    {
        let ghost m = self.costs();
        let n = self.distance_matrix.size();
        let start = random_permutation(n, &mut self.rng);
        let ghost t = start@;
        let r = self.steepest_from(start);
        proof {
            assert(is_tour(t, m.len()) && descent(m, t, true) == (
                r.0@,
                descent(m, t, true).1,
                descent(m, t, true).2,
            ));
            if n <= 1 {
                lemma_tiny_tour_cost(self.costs(), r.0@);
            }
        }
        Ok(r)
    }

    /// The nearest-neighbour tour from `start`: from the last node placed,
    /// always go to the closest node not yet visited (the lowest-numbered one
    /// on ties), then close the tour. Returns the tour, its cost, and zero
    /// steps and evaluations.
    pub fn heuristic_from(&self, start: usize) -> (r: (Vec<u32>, u64, u32, u32))
        requires
            start < self.costs().len(),
        ensures
            reports_tour(self.costs(), r.0@, r.1),
            is_nearest_neighbour_tour(self.costs(), r.0@),
            r.0@[0] == start,
            r.2 == 0,
            r.3 == 0,
    {
        let ghost m = self.costs();
        let n = self.distance_matrix.size();
        let mut visited: Vec<bool> = Vec::with_capacity(n);
        let mut c: usize = 0;
        while c < n
            invariant
                0 <= c <= n,
                visited@.len() == c,
                forall|x: int| 0 <= x < c ==> !#[trigger] visited@[x],
            decreases n - c,
        {
            visited.push(false);
            c += 1;
        }
        let mut tour: Vec<u32> = Vec::with_capacity(n);
        tour.push(start as u32);
        visited.set(start, true);
        let mut current: usize = start;
        let mut total: u64 = 0;
        assert forall|x: int| 0 <= x < n implies (#[trigger] visited@[x]) == tour@.contains(
            x as u32,
        ) by {
            if x == start {
                assert(tour@[0] == x as u32);
            }
        }
        while tour.len() < n
            invariant
                m == self.costs(),
                m == self.distance_matrix@,
                n == m.len(),
                is_cost_table(m),
                start < n,
                1 <= tour@.len() <= n,
                tour@[0] == start,
                nodes_below(tour@, n as nat),
                tour@.no_duplicates(),
                visited@.len() == n,
                forall|x: int| 0 <= x < n ==> (#[trigger] visited@[x]) == tour@.contains(x as u32),
                current == tour@.last(),
                forall|k: int| 1 <= k < tour@.len() ==> #[trigger] is_nearest_step(m, tour@, k),
                total == path_cost(m, tour@),
                total <= (tour@.len() - 1) * (u32::MAX as int),
            decreases n - tour@.len(),
        {
            let mut best: usize = n;
            let mut best_d: u32 = 0;
            let mut c: usize = 0;
            while c < n
                invariant
                    m == self.distance_matrix@,
                    n == m.len(),
                    is_cost_table(m),
                    current < n,
                    visited@.len() == n,
                    0 <= c <= n,
                    best == n ==> forall|x: int| 0 <= x < c ==> #[trigger] visited@[x],
                    best < n ==> {
                        &&& best < c
                        &&& !visited@[best as int]
                        &&& best_d == m[current as int][best as int]
                        &&& forall|x: int|
                            0 <= x < c && !visited@[x] ==> {
                                &&& (#[trigger] m[current as int][x]) >= best_d
                                &&& (x < best ==> m[current as int][x] > best_d)
                            }
                    },
                    best <= n,
                decreases n - c,
            {
                if !visited[c] {
                    let d = self.distance_matrix.get(current, c);
                    if best == n || d < best_d {
                        best = c;
                        best_d = d;
                    }
                }
                c += 1;
            }
            proof {
                if best == n {
                    assert forall|x: int| 0 <= x < n implies #[trigger] tour@.contains(x as u32) by {
                        assert(visited@[x]);
                    }
                    lemma_covering_length(tour@, n as nat);
                }
            }
            let ghost old_tour = tour@;
            let ghost old_visited = visited@;
            tour.push(best as u32);
            visited.set(best, true);
            proof {
                let t = tour@;
                let k = old_tour.len() as int;
                assert(t.drop_last() =~= old_tour);
                assert(!old_tour.contains(best as u32));
                assert forall|a: int, b: int|
                    0 <= a < t.len() && 0 <= b < t.len() && a != b implies t[a] != t[b] by {
                    if a == k {
                        assert(old_tour[b] == t[b]);
                        assert(old_tour.contains(t[b]));
                    } else if b == k {
                        assert(old_tour[a] == t[a]);
                        assert(old_tour.contains(t[a]));
                    } else {
                        assert(old_tour[a] == t[a] && old_tour[b] == t[b]);
                    }
                }
                assert forall|x: int| 0 <= x < n implies (#[trigger] visited@[x]) == t.contains(
                    x as u32,
                ) by {
                    if x == best {
                        assert(t[k] == x as u32);
                    } else {
                        assert(visited@[x] == old_visited[x]);
                        if old_tour.contains(x as u32) {
                            let y = choose|y: int| 0 <= y < old_tour.len() && old_tour[y] == x as u32;
                            assert(t[y] == x as u32);
                        }
                        if t.contains(x as u32) {
                            let y = choose|y: int| 0 <= y < t.len() && t[y] == x as u32;
                            assert(y != k);
                            assert(old_tour[y] == x as u32);
                        }
                    }
                }
                assert(t.subrange(0, k) =~= old_tour);
                assert forall|c: int|
                    0 <= c < m.len() && !t.subrange(0, k).contains(c as u32) implies {
                    &&& (#[trigger] m[t[k - 1] as int][c]) >= m[t[k - 1] as int][t[k] as int]
                    &&& (c < t[k] ==> m[t[k - 1] as int][c] > m[t[k - 1] as int][t[k] as int])
                } by {
                    assert(!old_visited[c]);
                }
                assert forall|j: int| 1 <= j < t.len() implies #[trigger] is_nearest_step(m, t, j) by {
                    if j < k {
                        assert(is_nearest_step(m, old_tour, j));
                        assert(t.subrange(0, j) =~= old_tour.subrange(0, j));
                    }
                }
                assert((k - 1) * (u32::MAX as int) + u32::MAX == k * (u32::MAX as int)) by (nonlinear_arith);
                assert(k * (u32::MAX as int) <= (u32::MAX as int) * (u32::MAX as int)) by (nonlinear_arith)
                    requires
                        k <= u32::MAX,
                ;
            }
            total = total + best_d as u64;
            current = best;
        }
        proof {
            assert((n - 1) * (u32::MAX as int) + u32::MAX <= (u32::MAX as int) * (u32::MAX as int)) by (nonlinear_arith)
                requires
                    n <= u32::MAX,
            ;
        }
        total = total + self.distance_matrix.get(current, start) as u64;
        (tour, total, 0, 0)
    }

    /// The nearest-neighbour tour from a random start node; the empty tour
    /// when there are no nodes.
    pub fn heuristic(&mut self) -> (r: Result<(Vec<u32>, u64, u32, u32), &'static str>)
        ensures
            final(self).costs() == old(self).costs(),
            r is Ok,
            reports_tour(old(self).costs(), r->Ok_0.0@, r->Ok_0.1),
            is_nearest_neighbour_tour(old(self).costs(), r->Ok_0.0@),
            r->Ok_0.2 == 0,
            r->Ok_0.3 == 0,
            old(self).costs().len() <= 1 ==> r->Ok_0.1 == 0,
    {
        let n = self.distance_matrix.size();
        if n == 0 {
            let empty: Vec<u32> = Vec::new();
            assert(is_tour(empty@, 0));
            return Ok((empty, 0, 0, 0));
        }
        let start = self.rng.below(n);
        let r = self.heuristic_from(start);
        proof {
            if n <= 1 {
                lemma_tiny_tour_cost(self.costs(), r.0@);
            }
        }
        Ok(r)
    }
}

} // verus!
