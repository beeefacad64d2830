//! Tabu search over the 2-opt neighbourhood, with a cached list of elite
//! moves and an aspiration criterion.

use crate::local_search::{is_local_optimum, is_neighbour_move, precedes};
use crate::matrix::{is_cost_table, DistanceMatrix};
use crate::rng::RandomSource;
use crate::utils::{
    compute_tour_cost, copy_tour, get_delta_intra_route, is_cheapest_in, is_move_chain, is_tour,
    lemma_chain_push, lemma_cheapest_push, lemma_reversal_keeps_tour, lemma_tiny_tour_cost,
    lemma_tour_cost_bounds, lemma_two_opt_cost, move_delta, nodes_below, random_permutation,
    reports_tour, saturate, swap_2_edges, tour_cost,
};
use vstd::arithmetic::div_mod::{lemma_mod_self_0, lemma_small_mod};
use vstd::prelude::*;

verus! {

/// A candidate move: two tour positions `i < j` and its predicted delta.
pub type Move = (usize, usize, i64);

/// The cached list is given up when its best move gains less than this many
/// thousandths of the current cost.
pub const STALE_MARGIN_PER_MILLE: i128 = 5;

/// The stagnation budget used when none is given.
pub const DEFAULT_MAX_ITER: u32 = 100;

/// The moves are in ascending order of delta.
pub open spec fn sorted_by_delta(s: Seq<Move>) -> bool {
    forall|a: int, b: int| 0 <= a < b < s.len() ==> (#[trigger] s[a]).2 <= (#[trigger] s[b]).2
}

/// Every move names two positions `i < j` of an `n`-node tour.
pub open spec fn moves_within(s: Seq<Move>, n: nat) -> bool {
    forall|k: int| 0 <= k < s.len() ==> (#[trigger] s[k]).0 < s[k].1 && s[k].1 < n
}

/// Every move carries its exact delta on the tour `t`.
pub open spec fn moves_fresh(m: Seq<Seq<u32>>, t: Seq<u32>, s: Seq<Move>) -> bool {
    forall|k: int| 0 <= k < s.len() ==> (#[trigger] s[k]).2 == move_delta(m, t, s[k].0 as int, s[k].1 as int)
}

/// The list is not empty and its first delta is at most `d`.
pub open spec fn heads_below(s: Seq<Move>, d: int) -> bool {
    s.len() > 0 && s[0].2 <= d
}

/// Inserts `mv` into the sorted list after every move whose delta is at most
/// its own, and keeps the first `cap` moves.
fn insert_ranked(list: &mut Vec<Move>, mv: Move, cap: usize)
    requires
        sorted_by_delta(old(list)@),
        old(list)@.len() <= cap,
    ensures
        exists|p: int|
            {
                &&& 0 <= p <= old(list)@.len()
                &&& forall|k: int| 0 <= k < p ==> (#[trigger] old(list)@[k]).2 <= mv.2
                &&& forall|k: int| p <= k < old(list)@.len() ==> (#[trigger] old(list)@[k]).2 > mv.2
                &&& final(list)@ == old(list)@.insert(p, mv).subrange(
                    0,
                    if cap < old(list)@.len() + 1 {
                        cap as int
                    } else {
                        (old(list)@.len() + 1) as int
                    },
                )
            },
        sorted_by_delta(final(list)@),
        forall|k: int|
            0 <= k < final(list)@.len() ==> #[trigger] final(list)@[k] == mv || old(list)@.contains(
                final(list)@[k],
            ),
        cap > 0 ==> final(list)@.len() > 0 && final(list)@[0].2 <= mv.2 && (old(list)@.len() > 0
            ==> final(list)@[0].2 <= old(list)@[0].2),
{
    let ghost before = list@;
    let mut p: usize = 0;
    while p < list.len() && list[p].2 <= mv.2
        invariant
            list@ == before,
            0 <= p <= before.len(),
            forall|k: int| 0 <= k < p ==> (#[trigger] before[k]).2 <= mv.2,
        decreases before.len() - p,
    {
        p += 1;
    }
    assert forall|k: int| p <= k < before.len() implies (#[trigger] before[k]).2 > mv.2 by {
        assert(before[p as int].2 > mv.2);
        if k > p {
            assert(before[p as int].2 <= before[k].2);
        }
    }
    if p < cap {
        list.insert(p, mv);
        list.truncate(cap);
    } else {
        assert(before.insert(p as int, mv).subrange(0, cap as int) =~= before);
    }
    let ghost ins = before.insert(p as int, mv);
    assert forall|k: int| 0 <= k < ins.len() implies #[trigger] ins[k] == mv || before.contains(ins[k]) by {
        if k < p {
            assert(ins[k] == before[k]);
        } else if k > p {
            assert(ins[k] == before[k - 1]);
        }
    }
    assert forall|a: int, b: int| 0 <= a < b < ins.len() implies (#[trigger] ins[a]).2 <= (
    #[trigger] ins[b]).2 by {
        if b < p {
            assert(ins[a] == before[a] && ins[b] == before[b]);
        } else if b == p {
            assert(ins[a] == before[a]);
        } else if a < p {
            assert(ins[a] == before[a] && ins[b] == before[b - 1]);
        } else if a == p {
            assert(ins[b] == before[b - 1]);
        } else {
            assert(ins[a] == before[a - 1] && ins[b] == before[b - 1]);
        }
    }
    assert forall|k: int| 0 <= k < list@.len() implies #[trigger] list@[k] == mv || before.contains(list@[k]) by {
        assert(list@[k] == ins[k]);
    }
    if cap > 0 {
        assert(list@[0] == ins[0]);
        if p == 0 {
            assert(ins[0] == mv);
        } else {
            assert(ins[0] == before[0]);
        }
    }
}

/// The counters of a tabu table as a sequence of rows.
pub open spec fn table_view(t: Seq<Vec<usize>>) -> Seq<Seq<usize>> {
    Seq::new(t.len(), |i: int| t[i]@)
}

/// The table has `n` rows of `n` counters.
pub open spec fn is_square_table(t: Seq<Seq<usize>>, n: nat) -> bool {
    t.len() == n && forall|i: int| 0 <= i < n ==> (#[trigger] t[i]).len() == n
}

/// Counter `v` at `(a, b)` after one tick: pairs `a < b` count down to zero,
/// except the pair `(0, n - 1)` when `skip_wrap` holds.
pub open spec fn ticked(v: usize, a: int, b: int, n: int, skip_wrap: bool) -> usize {
    if a < b && !(skip_wrap && a == 0 && b == n - 1) && v > 0 {
        (v - 1) as usize
    } else {
        v
    }
}

/// An `n` by `n` table of zeros.
fn zero_table(n: usize) -> (r: Vec<Vec<usize>>)
    ensures
        is_square_table(table_view(r@), n as nat),
        forall|a: int, b: int| 0 <= a < n && 0 <= b < n ==> #[trigger] table_view(r@)[a][b] == 0,
{
    let mut table: Vec<Vec<usize>> = Vec::with_capacity(n);
    let mut i: usize = 0;
    while i < n
        invariant
            0 <= i <= n,
            table@.len() == i,
            forall|a: int| 0 <= a < i ==> (#[trigger] table@[a])@.len() == n,
            forall|a: int, b: int| 0 <= a < i && 0 <= b < n ==> #[trigger] table@[a]@[b] == 0,
        decreases n - i,
    {
        let mut row: Vec<usize> = Vec::with_capacity(n);
        let mut j: usize = 0;
        while j < n
            invariant
                0 <= j <= n,
                row@.len() == j,
                forall|b: int| 0 <= b < j ==> #[trigger] row@[b] == 0,
            decreases n - j,
        {
            row.push(0);
            j += 1;
        }
        table.push(row);
        i += 1;
    }
    assert forall|a: int, b: int| 0 <= a < n && 0 <= b < n implies #[trigger] table_view(table@)[a][b] == 0 by {
        assert(table@[a]@[b] == 0);
    }
    table
}

/// Ticks every counter of the table once; see `ticked`.
fn tick_table(table: &mut Vec<Vec<usize>>, n: usize, skip_wrap: bool)
    requires
        is_square_table(table_view(old(table)@), n as nat),
    ensures
        is_square_table(table_view(final(table)@), n as nat),
        forall|a: int, b: int|
            0 <= a < n && 0 <= b < n ==> #[trigger] table_view(final(table)@)[a][b] == ticked(
                table_view(old(table)@)[a][b],
                a,
                b,
                n as int,
                skip_wrap,
            ),
{
    let ghost before = table_view(table@);
    assert forall|a: int| 0 <= a < n implies (#[trigger] table@[a])@ == before[a] by {}
    let mut i: usize = 0;
    while i < n
        invariant
            before == table_view(old(table)@),
            is_square_table(before, n as nat),
            table@.len() == n,
            0 <= i <= n,
            forall|a: int| 0 <= a < n ==> (#[trigger] table@[a])@.len() == n,
            forall|a: int, b: int|
                0 <= a < i && 0 <= b < n ==> #[trigger] table@[a]@[b] == ticked(
                    before[a][b],
                    a,
                    b,
                    n as int,
                    skip_wrap,
                ),
            forall|a: int| i <= a < n ==> #[trigger] table@[a]@ == before[a],
        decreases n - i,
    {
        let mut row: Vec<usize> = Vec::with_capacity(n);
        let mut j: usize = 0;
        while j < n
            invariant
                before == table_view(old(table)@),
                is_square_table(before, n as nat),
                table@.len() == n,
                0 <= i < n,
                0 <= j <= n,
                table@[i as int]@ == before[i as int],
                row@.len() == j,
                forall|b: int|
                    0 <= b < j ==> #[trigger] row@[b] == ticked(
                        before[i as int][b],
                        i as int,
                        b,
                        n as int,
                        skip_wrap,
                    ),
            decreases n - j,
        {
            let v = table[i][j];
            let skipped = skip_wrap && i == 0 && j + 1 == n;
            if i < j && !skipped && v > 0 {
                row.push(v - 1);
            } else {
                row.push(v);
            }
            j += 1;
        }
        table.set(i, row);
        i += 1;
    }
}

/// Sets the counter at `(i, j)` to `v`.
fn set_entry(table: &mut Vec<Vec<usize>>, n: usize, i: usize, j: usize, v: usize)
    requires
        is_square_table(table_view(old(table)@), n as nat),
        i < n,
        j < n,
    ensures
        table_view(final(table)@) == table_view(old(table)@).update(
            i as int,
            table_view(old(table)@)[i as int].update(j as int, v),
        ),
{
    assert(table_view(table@)[i as int] == table@[i as int]@);
    let mut row = copy_counters(&table[i]);
    row.set(j, v);
    table.set(i, row);
    assert(table_view(table@) =~= table_view(old(table)@).update(
        i as int,
        table_view(old(table)@)[i as int].update(j as int, v),
    ));
}

/// A copy of a row of counters.
fn copy_counters(row: &Vec<usize>) -> (r: Vec<usize>)
    ensures
        r@ == row@,
{
    let mut r: Vec<usize> = Vec::with_capacity(row.len());
    let mut k: usize = 0;
    while k < row.len()
        invariant
            0 <= k <= row@.len(),
            r@ == row@.subrange(0, k as int),
        decreases row@.len() - k,
    {
        r.push(row[k]);
        assert(r@ =~= row@.subrange(0, k + 1));
        k += 1;
    }
    assert(r@ =~= row@);
    r
}

/// The cached list has gone stale: its best delta `d` gains less than
/// `STALE_MARGIN_PER_MILLE` thousandths of the current cost `cur`, that is
/// `d / cur > -0.005`.
pub open spec fn is_stale(d: int, cur: int) -> bool {
    1000 * d + (STALE_MARGIN_PER_MILLE as int) * cur > 0
}

/// Whether the best delta `d` of the cached list gains too little on the
/// current cost `cur`.
pub fn stale(d: i64, cur: u64) -> (r: bool)
    ensures
        r == is_stale(d as int, cur as int),
{
    1000 * (d as i128) + STALE_MARGIN_PER_MILLE * (cur as i128) > 0
}

/// Evaluates every pair of positions `i < j` of `tour`, but for the pair
/// whose second edge ends where the first begins, and keeps the `cap` moves
/// of lowest delta, in ascending order (earlier pairs first among equals).
/// Returns them with the number of pairs evaluated.
fn full_scan(matrix: &DistanceMatrix, tour: &[u32], cap: usize) -> (r: (Vec<Move>, u64))
    requires
        tour@.len() == matrix@.len(),
        nodes_below(tour@, matrix@.len()),
    ensures
        sorted_by_delta(r.0@),
        moves_within(r.0@, tour@.len()),
        moves_fresh(matrix@, tour@, r.0@),
        r.0@.len() <= cap,
        r.1 <= (u32::MAX as int) * (u32::MAX as int),
        tour@.len() < 2 ==> r.1 == 0,
        cap > 0 ==> forall|a: int, b: int|
            is_neighbour_move(tour@.len() as int, a, b) ==> heads_below(
                r.0@,
                #[trigger] move_delta(matrix@, tour@, a, b),
            ),
{
    let n = matrix.size();
    let ghost m = matrix@;
    let ghost t = tour@;
    let mut elite: Vec<Move> = Vec::new();
    let mut count: u64 = 0;
    let mut i: usize = 0;
    while i < n
        invariant
            n == t.len(),
            n == m.len(),
            m == matrix@,
            t == tour@,
            is_cost_table(m),
            nodes_below(t, n as nat),
            0 <= i <= n,
            sorted_by_delta(elite@),
            moves_within(elite@, n as nat),
            moves_fresh(m, t, elite@),
            elite@.len() <= cap,
            count <= i * n,
            n < 2 ==> count == 0,
            cap > 0 ==> forall|a: int, b: int|
                is_neighbour_move(n as int, a, b) && a < i ==> heads_below(
                    elite@,
                    #[trigger] move_delta(m, t, a, b),
                ),
        decreases n - i,
    {
        let mut j: usize = i + 1;
        assert forall|a: int, b: int|
            is_neighbour_move(n as int, a, b) && precedes(a, b, i as int, j as int) implies a < i by {}
        while j < n
            invariant
                n == t.len(),
                n == m.len(),
                m == matrix@,
                t == tour@,
                is_cost_table(m),
                nodes_below(t, n as nat),
                0 <= i < n,
                i + 1 <= j <= n,
                sorted_by_delta(elite@),
                moves_within(elite@, n as nat),
                moves_fresh(m, t, elite@),
                elite@.len() <= cap,
                count <= i * n + j,
                n < 2 ==> count == 0,
                cap > 0 ==> forall|a: int, b: int|
                    is_neighbour_move(n as int, a, b) && precedes(a, b, i as int, j as int)
                        ==> heads_below(elite@, #[trigger] move_delta(m, t, a, b)),
            decreases n - j,
        {
            let next_j = if j + 1 == n { 0 } else { j + 1 };
            if next_j != i {
                let delta = get_delta_intra_route(matrix, tour[i], tour[i + 1], tour[j], tour[next_j]);
                proof {
                    lemma_small_mod((i + 1) as nat, n as nat);
                    if j + 1 < n {
                        lemma_small_mod((j + 1) as nat, n as nat);
                    } else {
                        lemma_mod_self_0(n as int);
                    }
                    assert(delta == move_delta(m, t, i as int, j as int));
                    assert(i * n + j + 1 <= n * n) by (nonlinear_arith)
                        requires
                            i + 1 <= n,
                            j < n,
                    ;
                    assert(n * n <= (u32::MAX as int) * (u32::MAX as int)) by (nonlinear_arith)
                        requires
                            n <= u32::MAX,
                    ;
                }
                let ghost before = elite@;
                insert_ranked(&mut elite, (i, j, delta), cap);
                proof {
                    if cap > 0 {
                        assert forall|a: int, b: int|
                            is_neighbour_move(n as int, a, b) && precedes(a, b, i as int, (j + 1) as int)
                                implies heads_below(elite@, #[trigger] move_delta(m, t, a, b)) by {
                            if precedes(a, b, i as int, j as int) {
                                assert(heads_below(before, move_delta(m, t, a, b)));
                            }
                        }
                    }
                    assert forall|k: int| 0 <= k < elite@.len() implies (#[trigger] elite@[k]).0 < elite@[k].1
                        && elite@[k].1 < n && elite@[k].2 == move_delta(
                        m,
                        t,
                        elite@[k].0 as int,
                        elite@[k].1 as int,
                    ) by {
                        if elite@[k] != (i, j, delta) {
                            let x = choose|x: int| 0 <= x < before.len() && before[x] == elite@[k];
                            assert(before[x].0 < before[x].1);
                        }
                    }
                }
                count = count + 1;
            }
            j += 1;
        }
        proof {
            assert(i * n + n == (i + 1) * n) by (nonlinear_arith);
        }
        i += 1;
    }
    proof {
        assert(i * n <= (u32::MAX as int) * (u32::MAX as int)) by (nonlinear_arith)
            requires
                i == n,
                n <= u32::MAX,
        ;
    }
    (elite, count)
}

/// Recomputes the delta of every cached move on `tour` and sorts the list
/// again, stably.
fn refresh(matrix: &DistanceMatrix, tour: &[u32], elite: &mut Vec<Move>)
    requires
        tour@.len() == matrix@.len(),
        nodes_below(tour@, matrix@.len()),
        moves_within(old(elite)@, tour@.len()),
    ensures
        final(elite)@.len() == old(elite)@.len(),
        sorted_by_delta(final(elite)@),
        moves_within(final(elite)@, tour@.len()),
        moves_fresh(matrix@, tour@, final(elite)@),
{
    let n = matrix.size();
    let ghost m = matrix@;
    let ghost t = tour@;
    let len = elite.len();
    let mut sorted: Vec<Move> = Vec::new();
    let mut k: usize = 0;
    while k < len
        invariant
            n == t.len(),
            n == m.len(),
            m == matrix@,
            t == tour@,
            is_cost_table(m),
            nodes_below(t, n as nat),
            len == elite@.len(),
            moves_within(elite@, n as nat),
            0 <= k <= len,
            sorted@.len() == k,
            sorted_by_delta(sorted@),
            moves_within(sorted@, n as nat),
            moves_fresh(m, t, sorted@),
        decreases len - k,
    {
        let (i, j, _) = elite[k];
        assert(elite@[k as int].0 < elite@[k as int].1 && elite@[k as int].1 < n);
        let next_j = if j + 1 == n { 0 } else { j + 1 };
        let delta = get_delta_intra_route(matrix, tour[i], tour[i + 1], tour[j], tour[next_j]);
        proof {
            lemma_small_mod((i + 1) as nat, n as nat);
            if j + 1 < n {
                lemma_small_mod((j + 1) as nat, n as nat);
            } else {
                lemma_mod_self_0(n as int);
            }
            assert(delta == move_delta(m, t, i as int, j as int));
        }
        let ghost before = sorted@;
        insert_ranked(&mut sorted, (i, j, delta), len);
        proof {
            assert forall|x: int| 0 <= x < sorted@.len() implies (#[trigger] sorted@[x]).0 < sorted@[x].1
                && sorted@[x].1 < n && sorted@[x].2 == move_delta(
                m,
                t,
                sorted@[x].0 as int,
                sorted@[x].1 as int,
            ) by {
                if sorted@[x] != (i, j, delta) {
                    let y = choose|y: int| 0 <= y < before.len() && before[y] == sorted@[x];
                    assert(before[y].0 < before[y].1);
                }
            }
        }
        k += 1;
    }
    *elite = sorted;
}

/// Every counter of the `n` by `n` table is zero.
pub open spec fn all_zero(t: Seq<Seq<usize>>, n: nat) -> bool {
    forall|a: int, b: int| 0 <= a < n && 0 <= b < n ==> #[trigger] t[a][b] == 0
}

/// What a tabu run from `tour` returns, with stagnation limit `max_iter` and
/// a cache of `cap` moves: a cheapest tour of the chain of 2-opt moves it
/// applied from `tour`, with its cost, the iteration that found it (zero
/// when none beat `tour`; the run ends `max_iter` iterations after it) and
/// the number of moves evaluated. A limit of zero
/// does nothing; otherwise, with a cache, a start that is not a local
/// optimum is improved on.
pub open spec fn tabu_outcome(
    m: Seq<Seq<u32>>,
    max_iter: u32,
    cap: usize,
    tour: Seq<u32>,
    r: (Vec<u32>, u64, u32, u32),
) -> bool {
    &&& reports_tour(m, r.0@, r.1)
    &&& r.1 <= tour_cost(m, tour)
    &&& exists|visited: Seq<Seq<u32>>|
        {
            &&& visited.len() >= 1
            &&& visited[0] == tour
            &&& is_move_chain(visited)
            &&& #[trigger] is_cheapest_in(m, r.0@, visited)
        }
    &&& r.2 == 0 ==> r.0@ == tour
    &&& r.2 > 0 ==> r.1 < tour_cost(m, tour)
    &&& max_iter == 0 ==> r.0@ == tour && r.2 == 0 && r.3 == 0
    &&& max_iter > 0 && cap > 0 && !is_local_optimum(m, tour) ==> r.2 > 0 && r.1 < tour_cost(m, tour)
    &&& m.len() < 2 ==> r.3 == 0
    &&& exists|iters: int| #[trigger] stops_after(max_iter, r.2 as int, iters)
}

/// A run whose last improvement came at iteration `best_iter` ends at
/// iteration `iters`: `max_iter` iterations later, or at `u32::MAX`.
pub open spec fn stops_after(max_iter: u32, best_iter: int, iters: int) -> bool {
    &&& best_iter <= iters <= u32::MAX
    &&& iters - best_iter == max_iter || iters == u32::MAX
}

/// Tabu search over the 2-opt neighbourhood.
pub struct TabuSearch {
    distance_matrix: DistanceMatrix,
    tabu_tenure: usize,
    max_iter: u32,
    max_moves: usize,
    rng: RandomSource,
}

impl TabuSearch {
    /// The matrix the search runs on.
    pub closed spec fn costs(&self) -> Seq<Seq<u32>> {
        self.distance_matrix@
    }

    /// For how many iterations an applied move stays tabu.
    pub closed spec fn tenure(&self) -> usize {
        self.tabu_tenure
    }

    /// How many iterations without improvement end a run.
    pub closed spec fn stagnation_limit(&self) -> u32 {
        self.max_iter
    }

    /// How many moves the cached list keeps.
    pub closed spec fn elite_capacity(&self) -> usize {
        self.max_moves
    }

    /// A search on `distance_matrix` that draws from `rng`: tenure `n / 4`,
    /// stagnation limit `iters` (by default `DEFAULT_MAX_ITER`), cache of
    /// `n / 10` moves.
    pub fn with_source(distance_matrix: DistanceMatrix, iters: Option<u32>, rng: RandomSource) -> (r: TabuSearch)
        ensures
            r.costs() == distance_matrix@,
            r.tenure() == distance_matrix@.len() / 4,
            r.stagnation_limit() == match iters {
                Some(k) => k,
                None => DEFAULT_MAX_ITER,
            },
            r.elite_capacity() == distance_matrix@.len() / 10,
    {
        let n = distance_matrix.size();
        let max_iter = match iters {
            Some(k) => k,
            None => DEFAULT_MAX_ITER,
        };
        TabuSearch { distance_matrix, tabu_tenure: n / 4, max_iter, max_moves: n / 10, rng }
    }

    /// A search on `distance_matrix`, drawing from an entropy-seeded source;
    /// see `with_source`.
    pub fn new(distance_matrix: DistanceMatrix, iters: Option<u32>) -> (r: TabuSearch)
        ensures
            r.costs() == distance_matrix@,
            r.tenure() == distance_matrix@.len() / 4,
            r.stagnation_limit() == match iters {
                Some(k) => k,
                None => DEFAULT_MAX_ITER,
            },
            r.elite_capacity() == distance_matrix@.len() / 10,
    {
        TabuSearch::with_source(distance_matrix, iters, RandomSource::from_entropy())
    }

    /// Tabu search from `tour`, with a fresh tabu table and an empty cache.
    /// Each iteration either rescans the whole neighbourhood into the cache
    /// (when it is empty) or refreshes the cached deltas, dropping the cache
    /// when it has gone stale; then applies the first cached move that is not
    /// tabu or that would beat the best cost, and makes it tabu. Stops after
    /// `stagnation_limit` iterations without improvement, or at iteration
    /// `u32::MAX`. Returns the best
    /// tour, its cost, the iteration that found it (zero for the start) and
    /// the number of moves evaluated (saturating).
    pub fn run_from(&self, tour: Vec<u32>) -> (r: (Vec<u32>, u64, u32, u32))
        requires
            is_tour(tour@, self.costs().len()),
        ensures
            tabu_outcome(self.costs(), self.stagnation_limit(), self.elite_capacity(), tour@, r),
    {
        let ghost m = self.costs();
        let ghost t0 = tour@;
        let n = self.distance_matrix.size();
        let mut current_distance = compute_tour_cost(tour.as_slice(), &self.distance_matrix);
        let mut current = tour;
        let mut best = copy_tour(&current);
        let mut best_distance = current_distance;
        let mut best_iter: u32 = 0;
        let mut iter: u32 = 0;
        let mut tabu_list = zero_table(n);
        let mut elite: Vec<Move> = Vec::new();
        let mut evaluated: u32 = 0;
        let ghost mut visited: Seq<Seq<u32>> = seq![current@];
        let ghost mut first_done = false;
        assert(visited[0] == best@);
        while iter - best_iter < self.max_iter && iter < u32::MAX
            invariant
                m == self.costs(),
                m == self.distance_matrix@,
                n == m.len(),
                is_cost_table(m),
                best_iter <= iter,
                iter - best_iter <= self.max_iter,
                is_tour(current@, n as nat),
                current_distance == tour_cost(m, current@),
                is_tour(best@, n as nat),
                best_distance == tour_cost(m, best@),
                best_distance <= tour_cost(m, t0),
                best_iter == 0 ==> best@ == t0,
                best_iter > 0 ==> best_distance < tour_cost(m, t0),
                self.max_iter == 0 ==> iter == 0 && evaluated == 0,
                moves_within(elite@, n as nat),
                is_square_table(table_view(tabu_list@), n as nat),
                visited.len() >= 1,
                visited[0] == t0,
                visited.last() == current@,
                is_move_chain(visited),
                is_cheapest_in(m, best@, visited),
                !first_done ==> iter == 0 && best_iter == 0 && elite@.len() == 0 && current@ == t0
                    && all_zero(table_view(tabu_list@), n as nat),
                self.max_iter > 0 ==> first_done || iter == 0,
                first_done && self.max_moves > 0 && !is_local_optimum(m, t0) ==> best_iter > 0,
                n < 2 ==> evaluated == 0,
            decreases u32::MAX - iter,
        {
            iter += 1;
            let ghost first = !first_done;
            if elite.len() == 0 {
                tick_table(&mut tabu_list, n, true);
                let (moves, count) = full_scan(&self.distance_matrix, current.as_slice(), self.max_moves);
                elite = moves;
                evaluated = saturate(evaluated as u64 + count);
            } else {
                refresh(&self.distance_matrix, current.as_slice(), &mut elite);
                tick_table(&mut tabu_list, n, false);
                if stale(elite[0].2, current_distance) {
                    elite.clear();
                    continue;
                }
            }
            assert(moves_fresh(m, current@, elite@));
            proof {
                if first {
                    assert forall|x: int, y: int| 0 <= x < n && 0 <= y < n implies #[trigger] table_view(
                        tabu_list@,
                    )[x][y] == 0 by {}
                    if self.max_moves > 0 && !is_local_optimum(m, t0) {
                        let (x, y) = choose|x: int, y: int|
                            is_neighbour_move(n as int, x, y) && !(#[trigger] move_delta(m, t0, x, y) >= 0);
                        assert(heads_below(elite@, move_delta(m, t0, x, y)));
                    }
                }
            }
            let ghost fresh_table = first;
            let mut chosen: usize = elite.len();
            let mut k: usize = 0;
            while k < elite.len() && chosen == elite.len()
                invariant
                    n == m.len(),
                    moves_within(elite@, n as nat),
                    is_square_table(table_view(tabu_list@), n as nat),
                    0 <= k <= elite@.len(),
                    moves_fresh(m, current@, elite@),
                    chosen <= elite@.len(),
                    chosen < elite@.len() ==> chosen < k,
                    fresh_table ==> all_zero(table_view(tabu_list@), n as nat),
                    fresh_table && k > 0 ==> chosen == 0,
                decreases elite@.len() - k,
            {
                let (i, j, delta) = elite[k];
                assert(elite@[k as int].0 < elite@[k as int].1 && elite@[k as int].1 < n);
                assert(table_view(tabu_list@)[i as int] == tabu_list@[i as int]@);
                let tabu_free = tabu_list[i][j] == 0;
                proof {
                    if fresh_table {
                        assert(table_view(tabu_list@)[i as int][j as int] == 0);
                    }
                }
                let aspires = (current_distance as i128) + (delta as i128) < best_distance as i128;
                if tabu_free || aspires {
                    chosen = k;
                }
                k += 1;
            }
            if chosen < elite.len() {
                let (i, j, delta) = elite[chosen];
                assert(elite@[chosen as int].0 < elite@[chosen as int].1 && elite@[chosen as int].1 < n);
                let ghost before = current@;
                proof {
                    assert(delta == move_delta(m, before, i as int, j as int));
                    lemma_two_opt_cost(m, before, i as int, j as int);
                    lemma_reversal_keeps_tour(before, n as nat, i + 1, j as int);
                }
                current = swap_2_edges(current.as_slice(), i + 1, j, Vec::new());
                proof {
                    lemma_tour_cost_bounds(m, current@);
                    lemma_chain_push(visited, i as int, j as int);
                    lemma_cheapest_push(m, best@, visited, current@);
                    visited = visited.push(current@);
                }
                if delta < 0 {
                    current_distance = current_distance - ((0 - delta) as u64);
                } else {
                    current_distance = current_distance + delta as u64;
                }
                set_entry(&mut tabu_list, n, i, j, self.tabu_tenure);
                let ghost elite_before = elite@;
                elite.remove(chosen);
                proof {
                    assert forall|x: int| 0 <= x < elite@.len() implies (#[trigger] elite@[x]).0 < elite@[x].1
                        && elite@[x].1 < n by {
                        let y = if x < chosen { x } else { x + 1 };
                        assert(elite@[x] == elite_before[y]);
                    }
                }
            }
            if current_distance < best_distance {
                best = copy_tour(&current);
                best_distance = current_distance;
                best_iter = iter;
            }
            proof {
                first_done = true;
            }
        }
        let r = (best, best_distance, best_iter, evaluated);
        proof {
            if visited.len() == 1 {
                assert(r.0@ == visited[0]);
            }
            assert(is_cheapest_in(m, r.0@, visited));
            assert(stops_after(self.max_iter, r.2 as int, iter as int));
        }
        r
    }

    /// Tabu search from a fresh random tour; see `run_from`.
    pub fn run(&mut self) -> (r: Result<(Vec<u32>, u64, u32, u32), &'static str>)
        ensures
            final(self).costs() == old(self).costs(),
            final(self).tenure() == old(self).tenure(),
            final(self).stagnation_limit() == old(self).stagnation_limit(),
            final(self).elite_capacity() == old(self).elite_capacity(),
            r is Ok,
            exists|t: Seq<u32>|
                is_tour(t, old(self).costs().len()) && #[trigger] tabu_outcome(
                    old(self).costs(),
                    old(self).stagnation_limit(),
                    old(self).elite_capacity(),
                    t,
                    r->Ok_0,
                ),
            old(self).costs().len() <= 1 ==> r->Ok_0.1 == 0 && r->Ok_0.2 == 0 && r->Ok_0.3 == 0,
    {
        let ghost m = self.costs();
        let ghost limit = self.stagnation_limit();
        let ghost cap = self.elite_capacity();
        let n = self.distance_matrix.size();
        let start = random_permutation(n, &mut self.rng);
        let ghost t = start@;
        let r = self.run_from(start);
        proof {
            if n <= 1 {
                lemma_tiny_tour_cost(m, r.0@);
                lemma_tiny_tour_cost(m, t);
            }
        }
        let out = Ok(r);
        assert(is_tour(t, m.len()) && tabu_outcome(m, limit, cap, t, out->Ok_0));
        out
    }
}

} // verus!
