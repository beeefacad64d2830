//! Tours and the 2-opt move: the cost of a tour, the change in cost that a
//! move predicts, the move itself, and random tours.

use crate::matrix::{is_cost_table, DistanceMatrix};
use crate::rng::RandomSource;
use vstd::arithmetic::div_mod::lemma_small_mod;
use vstd::prelude::*;
use vstd::seq_lib::seq_to_set_is_finite;
use vstd::set_lib::{lemma_int_range, lemma_subset_equality, set_int_range};

verus! {

/// The cost of the edge from node `a` to node `b`.
pub open spec fn dist(m: Seq<Seq<u32>>, a: u32, b: u32) -> int {
    m[a as int][b as int] as int
}

/// Every entry of `t` names a node of an `n`-node instance.
pub open spec fn nodes_below(t: Seq<u32>, n: nat) -> bool {
    forall|k: int| 0 <= k < t.len() ==> #[trigger] t[k] < n
}

/// `t` visits each node of `0..n` exactly once.
pub open spec fn is_tour(t: Seq<u32>, n: nat) -> bool {
    &&& t.len() == n
    &&& nodes_below(t, n)
    &&& t.no_duplicates()
}

/// The cost of walking `t` from its first node to its last, without
/// returning.
pub open spec fn path_cost(m: Seq<Seq<u32>>, t: Seq<u32>) -> int
    decreases t.len(),
{
    if t.len() < 2 {
        0
    } else {
        path_cost(m, t.drop_last()) + dist(m, t[t.len() - 2], t.last())
    }
}

/// The cost of the closed tour `t`: the sum over all positions `k` of the
/// edge from `t[k]` to `t[(k + 1) % n]`, that is the path and the edge from
/// the last node back to the first.
pub open spec fn tour_cost(m: Seq<Seq<u32>>, t: Seq<u32>) -> int {
    if t.len() == 0 {
        0
    } else {
        path_cost(m, t) + dist(m, t.last(), t[0])
    }
}

/// The change in cost when the edges `(a, b)` and `(c, d)` are replaced by
/// `(a, c)` and `(b, d)`.
pub open spec fn edge_swap_delta(m: Seq<Seq<u32>>, a: u32, b: u32, c: u32, d: u32) -> int {
    dist(m, a, c) + dist(m, b, d) - dist(m, a, b) - dist(m, c, d)
}

/// The predicted change in cost of the 2-opt move on positions `(i, j)` of
/// `t`: it removes the edges leaving positions `i` and `j`.
pub open spec fn move_delta(m: Seq<Seq<u32>>, t: Seq<u32>, i: int, j: int) -> int {
    edge_swap_delta(m, t[i], t[(i + 1) % (t.len() as int)], t[j], t[(j + 1) % (t.len() as int)])
}

/// `t` with the positions `lo..=hi` in reverse order.
pub open spec fn reversed_segment(t: Seq<u32>, lo: int, hi: int) -> Seq<u32> {
    Seq::new(t.len(), |x: int| if lo <= x <= hi { t[lo + hi - x] } else { t[x] })
}

/// The tour after the 2-opt move on positions `(i, j)`.
pub open spec fn two_opt(t: Seq<u32>, i: int, j: int) -> Seq<u32> {
    reversed_segment(t, i + 1, j)
}

proof fn lemma_path_concat(m: Seq<Seq<u32>>, x: Seq<u32>, y: Seq<u32>)
    requires
        x.len() >= 1,
        y.len() >= 1,
    ensures
        path_cost(m, x + y) == path_cost(m, x) + dist(m, x.last(), y[0]) + path_cost(m, y),
    decreases y.len(),
{
    let xy = x + y;
    if y.len() == 1 {
        assert(xy.drop_last() =~= x);
    } else {
        assert(xy.drop_last() =~= x + y.drop_last());
        lemma_path_concat(m, x, y.drop_last());
    }
}

proof fn lemma_path_reverse(m: Seq<Seq<u32>>, s: Seq<u32>)
    requires
        is_cost_table(m),
        nodes_below(s, m.len()),
    ensures
        path_cost(m, s.reverse()) == path_cost(m, s),
    decreases s.len(),
{
    if s.len() >= 2 {
        let head = s.drop_last();
        let rest = head.reverse();
        assert(s.reverse() =~= seq![s.last()] + rest);
        lemma_path_concat(m, seq![s.last()], rest);
        lemma_path_reverse(m, head);
        assert(path_cost(m, seq![s.last()]) == 0);
        assert(rest[0] == s[s.len() - 2]);
        assert(m[s.last() as int][s[s.len() - 2] as int] == m[s[s.len() - 2] as int][s.last() as int]);
    }
}

/// Applying the 2-opt move on positions `(i, j)` changes the cost of the
/// tour by exactly the move's predicted delta, for every pair `i < j` of
/// positions on a symmetric matrix.
pub proof fn lemma_two_opt_cost(m: Seq<Seq<u32>>, t: Seq<u32>, i: int, j: int)
    requires
        is_cost_table(m),
        t.len() == m.len(),
        nodes_below(t, m.len()),
        0 <= i < j < t.len(),
    ensures
        tour_cost(m, two_opt(t, i, j)) == tour_cost(m, t) + move_delta(m, t, i, j),
{
    let n = t.len() as int;
    let a = t.subrange(0, i + 1);
    let b = t.subrange(i + 1, j + 1);
    let c = t.subrange(j + 1, n);
    let br = b.reverse();
    let u = two_opt(t, i, j);
    assert(t =~= (a + b) + c);
    assert(u =~= (a + br) + c);
    assert(nodes_below(b, m.len()));
    lemma_path_reverse(m, b);
    lemma_path_concat(m, a, b);
    lemma_path_concat(m, a, br);
    assert(br[0] == t[j]);
    assert(br.last() == t[i + 1]);
    lemma_small_mod((i + 1) as nat, n as nat);
    if j + 1 < n {
        lemma_small_mod((j + 1) as nat, n as nat);
        lemma_path_concat(m, a + b, c);
        lemma_path_concat(m, a + br, c);
        assert(u.last() == t.last());
    } else {
        assert((j + 1) % n == 0) by (nonlinear_arith)
            requires
                j + 1 == n,
                n > 0,
        ;
        assert(t =~= a + b);
        assert(u =~= a + br);
        assert(u.last() == t[i + 1]);
    }
}

proof fn lemma_path_cost_bounds(m: Seq<Seq<u32>>, t: Seq<u32>)
    requires
        t.len() >= 1,
    ensures
        0 <= path_cost(m, t) <= (t.len() - 1) * (u32::MAX as int),
    decreases t.len(),
{
    if t.len() >= 2 {
        lemma_path_cost_bounds(m, t.drop_last());
    }
}

/// A tour of `n` nodes costs between zero and `n` times the largest entry.
pub proof fn lemma_tour_cost_bounds(m: Seq<Seq<u32>>, t: Seq<u32>)
    ensures
        0 <= tour_cost(m, t) <= t.len() * (u32::MAX as int),
{
    if t.len() >= 1 {
        lemma_path_cost_bounds(m, t);
    }
}

/// A tour is a bijection onto the nodes: every node of `0..n` appears in
/// it, exactly once.
pub proof fn lemma_tour_visits_every_node(t: Seq<u32>, n: nat)
    requires
        is_tour(t, n),
    ensures
        forall|c: int| 0 <= c < n ==> #[trigger] t.contains(c as u32),
        forall|a: int, b: int| 0 <= a < t.len() && 0 <= b < t.len() && t[a] == t[b] ==> a == b,
{
    let s = t.map_values(|x: u32| x as int);
    assert forall|a: int, b: int| 0 <= a < s.len() && 0 <= b < s.len() && a != b implies s[a]
        != s[b] by {
        assert(t[a] != t[b]);
    }
    s.unique_seq_to_set();
    seq_to_set_is_finite(s);
    lemma_int_range(0, n as int);
    assert forall|c: int| s.to_set().contains(c) implies set_int_range(0, n as int).contains(c) by {
        let k = choose|k: int| 0 <= k < s.len() && s[k] == c;
        assert(t[k] < n);
    }
    lemma_subset_equality(s.to_set(), set_int_range(0, n as int));
    assert forall|c: int| 0 <= c < n implies #[trigger] t.contains(c as u32) by {
        assert(set_int_range(0, n as int).contains(c));
        assert(s.to_set().contains(c));
        let k = choose|k: int| 0 <= k < s.len() && s[k] == c;
        assert(t[k] == c as u32);
    }
}

/// The 2-opt move on positions `lo - 1` and `hi` keeps a tour a tour.
pub proof fn lemma_reversal_keeps_tour(t: Seq<u32>, n: nat, lo: int, hi: int)
    requires
        is_tour(t, n),
        0 <= lo,
        hi < t.len(),
    ensures
        is_tour(reversed_segment(t, lo, hi), n),
{
    let u = reversed_segment(t, lo, hi);
    assert forall|x: int, y: int| 0 <= x < u.len() && 0 <= y < u.len() && x != y implies u[x]
        != u[y] by {
        let px = if lo <= x <= hi { lo + hi - x } else { x };
        let py = if lo <= y <= hi { lo + hi - y } else { y };
        assert(u[x] == t[px] && u[y] == t[py]);
    }
}

/// Swapping two entries keeps a tour a tour.
proof fn lemma_swap_keeps_tour(t: Seq<u32>, n: nat, a: int, b: int)
    requires
        is_tour(t, n),
        0 <= a < t.len(),
        0 <= b < t.len(),
    ensures
        is_tour(t.update(a, t[b]).update(b, t[a]), n),
{
    let u = t.update(a, t[b]).update(b, t[a]);
    assert forall|x: int, y: int| 0 <= x < u.len() && 0 <= y < u.len() && x != y implies u[x]
        != u[y] by {
        let px = if x == b { a } else if x == a { b } else { x };
        let py = if y == b { a } else if y == a { b } else { y };
        assert(u[x] == t[px] && u[y] == t[py]);
    }
}

/// The count `total` as a `u32`, saturated at `u32::MAX`.
pub open spec fn saturated(total: int) -> int {
    if total > u32::MAX {
        u32::MAX as int
    } else {
        total
    }
}

/// A tour of the nodes of `m` and its cost on `m`.
pub open spec fn reports_tour(m: Seq<Seq<u32>>, tour: Seq<u32>, cost: u64) -> bool {
    is_tour(tour, m.len()) && cost == tour_cost(m, tour)
}

/// At most one node: the only tour costs nothing.
pub proof fn lemma_tiny_tour_cost(m: Seq<Seq<u32>>, t: Seq<u32>)
    requires
        is_cost_table(m),
        is_tour(t, m.len()),
        m.len() <= 1,
    ensures
        tour_cost(m, t) == 0,
{
    if t.len() == 1 {
        assert(m[t[0] as int][t[0] as int] == 0);
    }
}

/// The count `total` as a `u32`, saturated at `u32::MAX`.
pub fn saturate(total: u64) -> (r: u32)
    ensures
        r == saturated(total as int),
{
    if total > u32::MAX as u64 {
        u32::MAX
    } else {
        total as u32
    }
}

/// Tour `k` of `ts` is tour `k - 1` after a 2-opt move.
pub open spec fn is_chain_link(ts: Seq<Seq<u32>>, k: int) -> bool {
    exists|i: int, j: int|
        #![trigger two_opt(ts[k - 1], i, j)]
        0 <= i < j < ts[k - 1].len() && ts[k] == two_opt(ts[k - 1], i, j)
}

/// Each tour of `ts` is the one before it after a 2-opt move.
pub open spec fn is_move_chain(ts: Seq<Seq<u32>>) -> bool {
    forall|k: int| 0 < k < ts.len() ==> #[trigger] is_chain_link(ts, k)
}

/// `t` is one of the tours `ts` and costs no more than any of them.
pub open spec fn is_cheapest_in(m: Seq<Seq<u32>>, t: Seq<u32>, ts: Seq<Seq<u32>>) -> bool {
    &&& ts.contains(t)
    &&& forall|k: int| 0 <= k < ts.len() ==> tour_cost(m, t) <= tour_cost(m, #[trigger] ts[k])
}

/// A chain of 2-opt moves stays one when a further move is applied to its
/// last tour.
pub proof fn lemma_chain_push(ts: Seq<Seq<u32>>, i: int, j: int)
    requires
        is_move_chain(ts),
        ts.len() >= 1,
        0 <= i < j < ts.last().len(),
    ensures
        is_move_chain(ts.push(two_opt(ts.last(), i, j))),
{
    let us = ts.push(two_opt(ts.last(), i, j));
    assert forall|k: int| 0 < k < us.len() implies #[trigger] is_chain_link(us, k) by {
        if k < ts.len() {
            assert(ts[k] == us[k] && ts[k - 1] == us[k - 1]);
            assert(is_chain_link(ts, k));
            let (a, b) = choose|a: int, b: int|
                #![trigger two_opt(ts[k - 1], a, b)]
                0 <= a < b < ts[k - 1].len() && ts[k] == two_opt(ts[k - 1], a, b);
            assert(us[k] == two_opt(us[k - 1], a, b));
        } else {
            assert(us[k - 1] == ts.last());
            assert(us[k] == two_opt(us[k - 1], i, j));
        }
    }
}

/// The cheapest tour of a chain after one more tour: the new tour when it
/// is strictly cheaper, else the one before.
pub proof fn lemma_cheapest_push(m: Seq<Seq<u32>>, best: Seq<u32>, ts: Seq<Seq<u32>>, next: Seq<u32>)
    requires
        is_cheapest_in(m, best, ts),
    ensures
        is_cheapest_in(
            m,
            if tour_cost(m, next) < tour_cost(m, best) {
                next
            } else {
                best
            },
            ts.push(next),
        ),
{
    let us = ts.push(next);
    let b = if tour_cost(m, next) < tour_cost(m, best) {
        next
    } else {
        best
    };
    assert forall|k: int| 0 <= k < us.len() implies tour_cost(m, b) <= tour_cost(m, #[trigger] us[k]) by {
        if k < ts.len() {
            assert(ts[k] == us[k]);
        }
    }
    if b == next {
        assert(us[us.len() - 1] == next);
    } else {
        let x = choose|x: int| 0 <= x < ts.len() && ts[x] == best;
        assert(us[x] == best);
    }
}

/// Why a sequence of nodes has no cost on a matrix.
#[derive(Debug, Clone, Copy, PartialEq, Eq, Structural)]
pub enum TourError {
    /// The tour's length differs from the matrix's number of nodes.
    LengthMismatch,
    /// An entry of the tour is not a node of the matrix.
    NodeOutOfRange,
}

/// The cost of the closed tour `tour` on `matrix`, summed edge by edge.
pub fn compute_tour_cost(tour: &[u32], matrix: &DistanceMatrix) -> (r: u64)
    requires
        tour@.len() == matrix@.len(),
        nodes_below(tour@, matrix@.len()),
    ensures
        r == tour_cost(matrix@, tour@),
{
    let n = matrix.size();
    if n == 0 {
        return 0;
    }
    let ghost m = matrix@;
    let ghost t = tour@;
    let mut total: u64 = 0;
    let mut k: usize = 0;
    while k + 1 < n
        invariant
            n == t.len(),
            n == m.len(),
            1 <= n <= u32::MAX,
            m == matrix@,
            t == tour@,
            nodes_below(t, m.len()),
            0 <= k < n,
            total == path_cost(m, t.subrange(0, k + 1)),
            total <= k * (u32::MAX as int),
        decreases n - k,
    {
        let step = matrix.get(tour[k] as usize, tour[k + 1] as usize);
        proof {
            let next = t.subrange(0, k + 2);
            assert(next.drop_last() =~= t.subrange(0, k + 1));
            assert((k + 1) * (u32::MAX as int) <= (n - 1) * (u32::MAX as int)) by (nonlinear_arith)
                requires
                    k + 1 <= n - 1,
            ;
            assert((n - 1) * (u32::MAX as int) <= u32::MAX * (u32::MAX as int)) by (nonlinear_arith)
                requires
                    n <= u32::MAX,
            ;
        }
        total = total + step as u64;
        k += 1;
    }
    proof {
        assert(t.subrange(0, n as int) =~= t);
        assert((n - 1) * (u32::MAX as int) + u32::MAX <= u32::MAX * (u32::MAX as int)) by (nonlinear_arith)
            requires
                n <= u32::MAX,
        ;
    }
    total + matrix.get(tour[n - 1] as usize, tour[0] as usize) as u64
}

/// The cost of the closed tour `tour` on `matrix`, or why it has none.
pub fn calculate_tour_distance(tour: &[u32], matrix: &DistanceMatrix) -> (r: Result<u64, TourError>)
    ensures
        tour@.len() != matrix@.len() <==> r == Err::<u64, TourError>(TourError::LengthMismatch),
        tour@.len() == matrix@.len() && !nodes_below(tour@, matrix@.len()) <==> r == Err::<
            u64,
            TourError,
        >(TourError::NodeOutOfRange),
        r is Ok <==> tour@.len() == matrix@.len() && nodes_below(tour@, matrix@.len()),
        r is Ok ==> r->Ok_0 == tour_cost(matrix@, tour@),
{
    let n = matrix.size();
    if tour.len() != n {
        return Err(TourError::LengthMismatch);
    }
    let mut k: usize = 0;
    while k < n
        invariant
            n == tour@.len(),
            n == matrix@.len(),
            0 <= k <= n,
            forall|x: int| 0 <= x < k ==> #[trigger] tour@[x] < n,
        decreases n - k,
    {
        if tour[k] as usize >= n {
            return Err(TourError::NodeOutOfRange);
        }
        k += 1;
    }
    Ok(compute_tour_cost(tour, matrix))
}

/// The change in cost when the edges `(i, next_i)` and `(j, next_j)` are
/// replaced by `(i, j)` and `(next_i, next_j)`; the arguments are nodes.
pub fn get_delta_intra_route(matrix: &DistanceMatrix, i: u32, next_i: u32, j: u32, next_j: u32) -> (r: i64)
    requires
        i < matrix@.len(),
        next_i < matrix@.len(),
        j < matrix@.len(),
        next_j < matrix@.len(),
    ensures
        r == edge_swap_delta(matrix@, i, next_i, j, next_j),
{
    let gain = matrix.get(i as usize, j as usize) as i64 + matrix.get(next_i as usize, next_j as usize) as i64;
    let loss = matrix.get(i as usize, next_i as usize) as i64 + matrix.get(j as usize, next_j as usize) as i64;
    gain - loss
}

/// `current_tour` with the positions `next_i..=j` reversed, built in the
/// storage of `best_tour`.
pub fn swap_2_edges(current_tour: &[u32], next_i: usize, j: usize, best_tour: Vec<u32>) -> (r: Vec<u32>)
    requires
        next_i <= j + 1,
        j < current_tour@.len(),
    ensures
        r@ == reversed_segment(current_tour@, next_i as int, j as int),
{
    let ghost goal = reversed_segment(current_tour@, next_i as int, j as int);
    let mut out = best_tour;
    out.clear();
    let n = current_tour.len();
    let mut x: usize = 0;
    while x < n
        invariant
            n == current_tour@.len(),
            goal == reversed_segment(current_tour@, next_i as int, j as int),
            next_i <= j + 1,
            j < n,
            0 <= x <= n,
            out@ == goal.subrange(0, x as int),
        decreases n - x,
    {
        if next_i <= x && x <= j {
            out.push(current_tour[j - (x - next_i)]);
        } else {
            out.push(current_tour[x]);
        }
        assert(out@ =~= goal.subrange(0, x + 1));
        x += 1;
    }
    assert(out@ =~= goal);
    out
}

/// A copy of the tour `t`.
pub fn copy_tour(t: &Vec<u32>) -> (r: Vec<u32>)
    ensures
        r@ == t@,
{
    let mut r: Vec<u32> = Vec::with_capacity(t.len());
    let mut k: usize = 0;
    while k < t.len()
        invariant
            0 <= k <= t@.len(),
            r@ == t@.subrange(0, k as int),
        decreases t@.len() - k,
    {
        r.push(t[k]);
        assert(r@ =~= t@.subrange(0, k + 1));
        k += 1;
    }
    assert(r@ =~= t@);
    r
}

/// The tour `0, 1, .., n - 1`.
pub open spec fn identity_tour(n: nat) -> Seq<u32> {
    Seq::new(n, |k: int| k as u32)
}

/// `s` with the entries at `a` and `b` exchanged.
pub open spec fn swap_entries(s: Seq<u32>, a: int, b: int) -> Seq<u32> {
    s.update(a, s[b]).update(b, s[a])
}

/// Fisher-Yates draws for `n` nodes: `draws[k]` lies in `0..=k`.
pub open spec fn valid_draws(draws: Seq<usize>, n: nat) -> bool {
    draws.len() == n && forall|k: int| 0 <= k < n ==> #[trigger] draws[k] <= k
}

/// Fisher-Yates on `s` from position `i - 1` down to position 1: position
/// `k` is exchanged with position `draws[k]`.
pub open spec fn shuffled(s: Seq<u32>, draws: Seq<usize>, i: int) -> Seq<u32>
    decreases i,
{
    if i <= 1 {
        s
    } else {
        shuffled(swap_entries(s, i - 1, draws[i - 1] as int), draws, i - 1)
    }
}

proof fn lemma_shuffled_keeps_tail(s: Seq<u32>, draws: Seq<usize>, i: int, p: int)
    requires
        0 <= i <= p < s.len(),
        i <= draws.len(),
        forall|k: int| 0 <= k < i ==> #[trigger] draws[k] <= k,
    ensures
        shuffled(s, draws, i).len() == s.len(),
        shuffled(s, draws, i)[p] == s[p],
    decreases i,
{
    if i > 1 {
        let u = swap_entries(s, i - 1, draws[i - 1] as int);
        assert(draws[i - 1] <= i - 1);
        lemma_shuffled_keeps_tail(u, draws, i - 1, p);
    }
}

proof fn lemma_shuffle_injective_from(s: Seq<u32>, n: nat, d1: Seq<usize>, d2: Seq<usize>, i: int)
    requires
        is_tour(s, n),
        valid_draws(d1, n),
        valid_draws(d2, n),
        0 <= i <= n,
        shuffled(s, d1, i) == shuffled(s, d2, i),
    ensures
        forall|k: int| 1 <= k < i ==> #[trigger] d1[k] == d2[k],
    decreases i,
{
    if i > 1 {
        let a = d1[i - 1] as int;
        let b = d2[i - 1] as int;
        assert(d1[i - 1] <= i - 1 && d2[i - 1] <= i - 1);
        let u1 = swap_entries(s, i - 1, a);
        let u2 = swap_entries(s, i - 1, b);
        lemma_shuffled_keeps_tail(u1, d1, i - 1, i - 1);
        lemma_shuffled_keeps_tail(u2, d2, i - 1, i - 1);
        assert(s[a] == s[b]);
        assert(a == b);
        lemma_swap_keeps_tour(s, n, i - 1, a);
        lemma_shuffle_injective_from(u1, n, d1, d2, i - 1);
    }
}

/// Distinct Fisher-Yates draws give distinct tours: the map from draws to
/// tours is one to one.
pub proof fn lemma_shuffle_injective(n: nat, d1: Seq<usize>, d2: Seq<usize>)
    requires
        n <= u32::MAX,
        valid_draws(d1, n),
        valid_draws(d2, n),
        shuffled(identity_tour(n), d1, n as int) == shuffled(identity_tour(n), d2, n as int),
    ensures
        d1 == d2,
{
    let id = identity_tour(n);
    assert forall|a: int, b: int| 0 <= a < id.len() && 0 <= b < id.len() && a != b implies id[a]
        != id[b] by {
        assert(id[a] == a as u32 && id[b] == b as u32);
    }
    assert(is_tour(id, n));
    lemma_shuffle_injective_from(id, n, d1, d2, n as int);
    if n > 0 {
        assert(d1[0] <= 0 && d2[0] <= 0);
    }
    assert forall|k: int| 0 <= k < n implies d1[k] == d2[k] by {
        if k == 0 {
            assert(d1[0] <= 0 && d2[0] <= 0);
        }
    }
    assert(d1 =~= d2);
}

/// The tour that Fisher-Yates makes of `0..n` with the given draws.
pub fn shuffle_with(n: usize, draws: &Vec<usize>) -> (r: Vec<u32>)
    requires
        n <= u32::MAX,
        valid_draws(draws@, n as nat),
    ensures
        r@ == shuffled(identity_tour(n as nat), draws@, n as int),
        is_tour(r@, n as nat),
{
    let mut permutation: Vec<u32> = Vec::with_capacity(n);
    let mut k: usize = 0;
    while k < n
        invariant
            n <= u32::MAX,
            0 <= k <= n,
            permutation@.len() == k,
            forall|x: int| 0 <= x < k ==> #[trigger] permutation@[x] == x,
        decreases n - k,
    {
        permutation.push(k as u32);
        k += 1;
    }
    assert(permutation@ =~= identity_tour(n as nat));
    let mut i: usize = n;
    while i > 1
        invariant
            0 <= i <= n,
            n <= u32::MAX,
            valid_draws(draws@, n as nat),
            is_tour(permutation@, n as nat),
            shuffled(permutation@, draws@, i as int) == shuffled(
                identity_tour(n as nat),
                draws@,
                n as int,
            ),
        decreases i,
    {
        i -= 1;
        let j = draws[i];
        assert(draws@[i as int] <= i);
        let a = permutation[i];
        let b = permutation[j];
        proof {
            lemma_swap_keeps_tour(permutation@, n as nat, i as int, j as int);
        }
        let ghost before = permutation@;
        permutation.set(i, b);
        permutation.set(j, a);
        assert(permutation@ =~= swap_entries(before, i as int, j as int));
    }
    permutation
}

/// A uniformly shuffled tour of the nodes `0..n`: Fisher-Yates with draws
/// `draws[k]` uniform in `0..=k`, taken for `k` from `n - 1` down to 1.
pub fn random_permutation(n: usize, rng: &mut RandomSource) -> (r: Vec<u32>)
    requires
        n <= u32::MAX,
    ensures
        is_tour(r@, n as nat),
        exists|draws: Seq<usize>|
            valid_draws(draws, n as nat) && r@ == #[trigger] shuffled(
                identity_tour(n as nat),
                draws,
                n as int,
            ),
{
    let mut draws: Vec<usize> = Vec::with_capacity(n);
    let mut k: usize = 0;
    while k < n
        invariant
            0 <= k <= n,
            draws@.len() == k,
            forall|x: int| 0 <= x < k ==> #[trigger] draws@[x] == 0,
        decreases n - k,
    {
        draws.push(0);
        k += 1;
    }
    let mut i: usize = n;
    while i > 1
        invariant
            0 <= i <= n,
            draws@.len() == n,
            forall|x: int| 0 <= x < n ==> #[trigger] draws@[x] <= x,
        decreases i,
    {
        i -= 1;
        let j = rng.below(i + 1);
        draws.set(i, j);
    }
    let r = shuffle_with(n, &draws);
    assert(valid_draws(draws@, n as nat) && r@ == shuffled(identity_tour(n as nat), draws@, n as int));
    r
}

/// The pair of distinct positions of `0..n` made from the draws `x1` in
/// `0..n` and `offset` in `0..n - 1`: `x1` and the position `offset + 1`
/// steps after it, cyclically.
pub fn pair_from_draws(n: usize, x1: usize, offset: usize) -> (r: (usize, usize))
    requires
        2 <= n <= u32::MAX,
        x1 < n,
        offset < n - 1,
    ensures
        r.0 == x1,
        r.1 == (offset + 1 + x1) % (n as int),
        r.1 < n,
        r.0 != r.1,
{
    let x2 = ((offset as u64 + 1 + x1 as u64) % (n as u64)) as usize;
    proof {
        let s = offset + 1 + x1;
        if s < n {
            lemma_small_mod(s as nat, n as nat);
        } else {
            assert(s - n < n);
            lemma_small_mod((s - n) as nat, n as nat);
            assert(s % (n as int) == (s - n) % (n as int)) by (nonlinear_arith)
                requires
                    n > 0,
                    s >= n,
            ;
        }
    }
    (x1, x2)
}

/// Two distinct positions of `0..n`, drawn at random.
pub fn random_pair(n: usize, rng: &mut RandomSource) -> (r: (usize, usize))
    requires
        2 <= n <= u32::MAX,
    ensures
        r.0 < n,
        r.1 < n,
        r.0 != r.1,
{
    let x1 = rng.below(n);
    let offset = rng.below(n - 1);
    pair_from_draws(n, x1, offset)
}

} // verus!
