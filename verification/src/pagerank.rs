//! The authority scorer: an iterative PageRank-style computation over the
//! link graph, in fixed-point arithmetic.
//!
//! Each iteration lets every node keep the damped share of its rank flowing
//! along its outgoing edges, and pays the rest — the random-jump share, the
//! whole rank of dangling nodes, and every rounding remainder — into a pool
//! that is redistributed uniformly. Because remainders go to the pool (or to
//! the first listed edge target), an iteration conserves the total authority
//! mass exactly: the sum of all ranks never changes.

use crate::fixed::{
    lemma_sum_elem_le, lemma_sum_nonneg, lemma_sum_push, lemma_sum_take_le, lemma_sum_take_succ,
    lemma_sum_update, mul_div_scaled, sum, DAMPING, SCALE,
};
use crate::graph::LinkGraph;
use vstd::arithmetic::div_mod::{
    lemma_div_is_ordered_by_denominator, lemma_div_pos_is_pos, lemma_fundamental_div_mod,
    lemma_mod_division_less_than_divisor,
};
use vstd::arithmetic::mul::lemma_mul_inequality;
use vstd::prelude::*;

verus! {

/// Upper bound on the number of iterations.
pub const MAX_ITERATIONS: usize = 100;

/// Iteration stops once the total rank movement drops below this threshold
/// (the fixed-point image of 1e-4).
pub const CONVERGENCE_THRESHOLD: u64 = 100_000;

/// The damped share of a rank `r`: the mass that `r`'s node passes along its
/// outgoing edges in one iteration.
pub open spec fn damped(r: u64) -> int {
    DAMPING * r / (SCALE as int)
}

/// What the `j`-th outgoing edge of a node with `k` edges and damped mass `q`
/// carries: an equal share, with the division remainder going to edge 0.
pub open spec fn share_of(k: int, q: int, j: int) -> int {
    q / k + if j == 0 {
        q % k
    } else {
        0
    }
}

/// Mass carried to node `u` by the first `j` edges of `edges`.
pub open spec fn edge_mass_upto(edges: Seq<usize>, q: int, u: int, j: int) -> int
    decreases j,
{
    if j <= 0 {
        0
    } else {
        edge_mass_upto(edges, q, u, j - 1) + if edges[j - 1] as int == u {
            share_of(edges.len() as int, q, j - 1)
        } else {
            0
        }
    }
}

/// Mass carried to node `u` by a node with edge list `edges` and damped mass `q`.
pub open spec fn edge_mass(edges: Seq<usize>, q: int, u: int) -> int {
    edge_mass_upto(edges, q, u, edges.len() as int)
}

/// Mass flowing into `u` along edges of the sources `0 .. vmax`.
pub open spec fn link_mass_upto(g: LinkGraph, ranks: Seq<u64>, u: int, vmax: int) -> int
    decreases vmax,
{
    if vmax <= 0 {
        0
    } else {
        link_mass_upto(g, ranks, u, vmax - 1) + edge_mass(
            g.edges_of(vmax - 1),
            damped(ranks[vmax - 1]),
            u,
        )
    }
}

/// The part of a node's rank paid into the uniform pool: everything for a
/// dangling node, the undamped remainder otherwise.
pub open spec fn retained(edge_count: int, r: u64) -> int {
    if edge_count == 0 {
        r as int
    } else {
        r - damped(r)
    }
}

/// Pool contributions of the nodes `0 .. vmax`.
pub open spec fn pool_upto(g: LinkGraph, ranks: Seq<u64>, vmax: int) -> int
    decreases vmax,
{
    if vmax <= 0 {
        0
    } else {
        pool_upto(g, ranks, vmax - 1) + retained(g.edges_of(vmax - 1).len() as int, ranks[vmax - 1])
    }
}

/// The whole uniform pool of one iteration: random-jump mass, dangling mass,
/// and rounding remainders.
pub open spec fn pool_of(g: LinkGraph, ranks: Seq<u64>) -> int {
    pool_upto(g, ranks, g.n() as int)
}

/// Node `u`'s share when a pool of `pool` units is spread over `n` nodes; the
/// division remainder goes one unit each to the lowest-numbered nodes.
pub open spec fn base_of(pool: int, n: int, u: int) -> int {
    pool / n + if u < pool % n {
        1int
    } else {
        0int
    }
}

/// The rank of node `u` after one iteration from `ranks`.
pub open spec fn step_rank(g: LinkGraph, ranks: Seq<u64>, u: int) -> int {
    base_of(pool_of(g, ranks), g.n() as int, u) + link_mass_upto(g, ranks, u, g.n() as int)
}

/// One whole iteration from `ranks`.
pub open spec fn step_seq(g: LinkGraph, ranks: Seq<u64>) -> Seq<u64> {
    Seq::new(g.n(), |u: int| step_rank(g, ranks, u) as u64)
}

/// Absolute difference of two ranks.
pub open spec fn dist(x: u64, y: u64) -> int {
    if x >= y {
        x - y
    } else {
        y - x
    }
}

/// Total movement between two rank vectors, over the first `i` nodes.
pub open spec fn l1_upto(a: Seq<u64>, b: Seq<u64>, i: int) -> int
    decreases i,
{
    if i <= 0 {
        0
    } else {
        l1_upto(a, b, i - 1) + dist(a[i - 1], b[i - 1])
    }
}

/// Total movement between two rank vectors.
pub open spec fn l1(a: Seq<u64>, b: Seq<u64>) -> int {
    l1_upto(a, b, a.len() as int)
}

/// The whole computation: up to `fuel` iterations from `ranks`, stopping
/// after the first iteration that moves less than the threshold.
pub open spec fn run_from(g: LinkGraph, ranks: Seq<u64>, fuel: nat) -> Seq<u64>
    decreases fuel,
{
    if fuel == 0 {
        ranks
    } else {
        let next = step_seq(g, ranks);
        if l1(next, ranks) < CONVERGENCE_THRESHOLD {
            next
        } else {
            run_from(g, next, (fuel - 1) as nat)
        }
    }
}

/// The uniform starting distribution over `n` nodes: `SCALE` units of mass,
/// the division remainder going one unit each to the lowest-numbered nodes.
pub open spec fn initial_ranks(n: nat) -> Seq<u64> {
    Seq::new(
        n,
        |u: int|
            (SCALE as int / n as int + if u < SCALE as int % n as int {
                1int
            } else {
                0int
            }) as u64,
    )
}

/// Builds the starting distribution; its mass is exactly `SCALE`.
fn init_ranks(n: usize) -> (v: Vec<u64>)
    requires
        n > 0,
    ensures
        v@ == initial_ranks(n as nat),
        sum(v@) == SCALE,
{
    let per: u64 = SCALE / (n as u64);
    let rem: u64 = SCALE % (n as u64);
    let mut v: Vec<u64> = Vec::new();
    let mut i: usize = 0;
    while i < n
        invariant
            0 < n,
            per == SCALE as int / n as int,
            rem == SCALE as int % n as int,
            i <= n,
            v@.len() == i,
            forall|j: int| 0 <= j < i ==> v@[j] == initial_ranks(n as nat)[j],
            sum(v@) == i * per + if i <= rem {
                i as int
            } else {
                rem as int
            },
        decreases n - i,
    {
        let unit: u64 = if (i as u64) < rem {
            1
        } else {
            0
        };
        proof {
            lemma_sum_push(v@, (per + unit) as u64);
            assert((i + 1) * per == i * per + per) by (nonlinear_arith);
        }
        v.push(per + unit);
        i += 1;
    }
    proof {
        lemma_fundamental_div_mod(SCALE as int, n as int);
        assert(n * per == (n as int) * (SCALE as int / n as int));
        assert(sum(v@) == SCALE);
        assert(v@ =~= initial_ranks(n as nat));
    }
    v
}

/// Mass moved off a node after its first `j` edges were served: `j` equal
/// shares, plus the division remainder that went along with edge 0.
pub open spec fn served_upto(q: int, k: int, j: int) -> int {
    if j <= 0 {
        0
    } else {
        j * (q / k) + q % k
    }
}

proof fn lemma_div_mod_shares(q: int, k: int)
    requires
        0 < k,
        0 <= q,
    ensures
        0 <= q / k,
        0 <= q % k < k,
        q / k + q % k <= q,
{
    lemma_div_pos_is_pos(q, k);
    lemma_mod_division_less_than_divisor(q, k);
    lemma_fundamental_div_mod(q, k);
    lemma_mul_inequality(1, k, q / k);
}

proof fn lemma_served_step(q: int, k: int, j: int)
    requires
        0 < k,
        0 <= j,
        0 <= q,
    ensures
        served_upto(q, k, j + 1) == served_upto(q, k, j) + share_of(k, q, j),
{
    lemma_div_mod_shares(q, k);
    let d = q / k;
    if j == 0 {
        assert(served_upto(q, k, 1) == 1 * d + q % k);
        assert(1 * d == d) by (nonlinear_arith);
        assert(share_of(k, q, 0) == d + q % k);
    } else {
        assert((j + 1) * d == j * d + d) by (nonlinear_arith);
    }
}

proof fn lemma_served_le(q: int, k: int, j: int)
    requires
        0 < k,
        0 <= j <= k,
        0 <= q,
    ensures
        0 <= served_upto(q, k, j) <= q,
{
    lemma_div_mod_shares(q, k);
    lemma_fundamental_div_mod(q, k);
    assert(0 <= j * (q / k) <= k * (q / k)) by (nonlinear_arith)
        requires
            0 <= j <= k,
            0 <= q / k,
    ;
}

/// Runs one iteration of the authority computation.
///
/// The result is pinned pointwise by [`step_rank`], and the iteration
/// conserves the total authority mass exactly.
fn step_once(g: &LinkGraph, ranks: &Vec<u64>) -> (new_ranks: Vec<u64>)
    requires
        g.wf(),
        ranks@.len() == g.n(),
        sum(ranks@) <= SCALE,
    ensures
        new_ranks@ == step_seq(*g, ranks@),
        forall|u: int| 0 <= u < g.n() ==> new_ranks@[u] == step_rank(*g, ranks@, u),
        sum(new_ranks@) == sum(ranks@),
{
    let n = g.len();
    let mut new_ranks: Vec<u64> = Vec::new();
    if n == 0 {
        proof {
            assert(new_ranks@ =~= step_seq(*g, ranks@));
        }
        return new_ranks;
    }
    let mut i0: usize = 0;
    while i0 < n
        invariant
            i0 <= n,
            new_ranks@.len() == i0,
            sum(new_ranks@) == 0,
            forall|u: int| 0 <= u < i0 ==> new_ranks@[u] == 0,
        decreases n - i0,
    {
        proof {
            lemma_sum_push(new_ranks@, 0);
        }
        new_ranks.push(0);
        i0 += 1;
    }
    let mut pool: u64 = 0;
    let mut v: usize = 0;
    while v < n
        invariant
            g.wf(),
            n == g.n(),
            ranks@.len() == n,
            sum(ranks@) <= SCALE,
            v <= n,
            new_ranks@.len() == n,
            pool == pool_upto(*g, ranks@, v as int),
            forall|u: int|
                0 <= u < n ==> new_ranks@[u] == link_mass_upto(*g, ranks@, u, v as int),
            sum(new_ranks@) + pool == sum(ranks@.take(v as int)),
        decreases n - v,
    {
        let r = ranks[v];
        let q = mul_div_scaled(DAMPING, r, SCALE);
        proof {
            lemma_sum_take_succ(ranks@, v as int);
            lemma_sum_take_le(ranks@, v as int + 1);
            lemma_sum_nonneg(new_ranks@);
            assert(q == damped(ranks@[v as int]));
        }
        let k = g.out[v].len();
        if k == 0 {
            pool = pool + r;
            proof {
                assert forall|u: int|
                    0 <= u < n implies link_mass_upto(*g, ranks@, u, v as int + 1)
                    == link_mass_upto(*g, ranks@, u, v as int) by {
                    assert(g.edges_of(v as int).len() == 0);
                    assert(edge_mass(g.edges_of(v as int), damped(ranks@[v as int]), u) == 0);
                }
            }
        } else {
            pool = pool + (r - q);
            let share = q / (k as u64);
            let rem = q % (k as u64);
            let ghost before = new_ranks@;
            let ghost edges = g.edges_of(v as int);
            let ghost sum_pre = sum(ranks@.take(v as int));
            let mut j: usize = 0;
            while j < k
                invariant
                    g.wf(),
                    n == g.n(),
                    v < n,
                    ranks@.len() == n,
                    sum(ranks@) <= SCALE,
                    edges == g.edges_of(v as int),
                    k == edges.len(),
                    0 < k,
                    q == damped(ranks@[v as int]),
                    q <= ranks@[v as int],
                    share == q as int / k as int,
                    rem == q as int % k as int,
                    j <= k,
                    new_ranks@.len() == n,
                    before.len() == n,
                    sum(before) <= SCALE,
                    forall|u: int|
                        0 <= u < n ==> new_ranks@[u] == before[u] + edge_mass_upto(
                            edges,
                            q as int,
                            u,
                            j as int,
                        ),
                    sum(new_ranks@) == sum(before) + served_upto(q as int, k as int, j as int),
                decreases k - j,
            {
                let t = g.out[v][j];
                proof {
                    assert(edges[j as int] == t);
                    assert(t < n);
                    lemma_sum_elem_le(new_ranks@, t as int);
                    lemma_served_le(q as int, k as int, j as int);
                    lemma_div_mod_shares(q as int, k as int);
                    lemma_sum_elem_le(ranks@, v as int);
                    assert(q <= SCALE);
                    assert(new_ranks@[t as int] <= sum(before) + q);
                }
                let add: u64 = if j == 0 {
                    share + rem
                } else {
                    share
                };
                let cur = new_ranks[t];
                let ghost pre_update = new_ranks@;
                new_ranks[t] = cur + add;
                proof {
                    lemma_sum_update(pre_update, t as int, (cur + add) as u64);
                    lemma_served_step(q as int, k as int, j as int);
                    assert forall|u: int|
                        0 <= u < n implies new_ranks@[u] == before[u] + edge_mass_upto(
                        edges,
                        q as int,
                        u,
                        j as int + 1,
                    ) by {
                        if u == t as int {
                            assert(edges[j as int] as int == u);
                            assert(add == share_of(k as int, q as int, j as int));
                        } else {
                            assert(edges[j as int] as int != u);
                            assert(new_ranks@[u] == pre_update[u]);
                        }
                    }
                }
                j += 1;
            }
            proof {
                lemma_fundamental_div_mod(q as int, k as int);
                assert(served_upto(q as int, k as int, k as int) == q) by {
                    assert(k * (q as int / k as int) + q as int % k as int == q);
                }
                assert(sum(new_ranks@) == sum(before) + q);
                assert forall|u: int|
                    0 <= u < n implies new_ranks@[u] == link_mass_upto(
                    *g,
                    ranks@,
                    u,
                    v as int + 1,
                ) by {
                    assert(edge_mass(edges, q as int, u) == edge_mass_upto(
                        edges,
                        q as int,
                        u,
                        k as int,
                    ));
                }
            }
        }
        v += 1;
    }
    proof {
        assert(ranks@.take(n as int) =~= ranks@);
    }
    let per: u64 = pool / (n as u64);
    let remn: u64 = pool % (n as u64);
    let ghost mid = new_ranks@;
    let mut u: usize = 0;
    while u < n
        invariant
            g.wf(),
            n == g.n(),
            0 < n,
            ranks@.len() == n,
            sum(ranks@) <= SCALE,
            u <= n,
            new_ranks@.len() == n,
            mid.len() == n,
            per == pool as int / n as int,
            remn == pool as int % n as int,
            pool == pool_of(*g, ranks@),
            sum(mid) + pool == sum(ranks@),
            forall|w: int| 0 <= w < u ==> new_ranks@[w] == mid[w] + base_of(
                pool as int,
                n as int,
                w,
            ),
            forall|w: int| u <= w < n ==> new_ranks@[w] == mid[w],
            forall|w: int| 0 <= w < n ==> mid[w] == link_mass_upto(*g, ranks@, w, n as int),
            sum(new_ranks@) == sum(mid) + u * per + if u <= remn {
                u as int
            } else {
                remn as int
            },
        decreases n - u,
    {
        let unit: u64 = if (u as u64) < remn {
            1
        } else {
            0
        };
        proof {
            lemma_sum_elem_le(new_ranks@, u as int);
            lemma_sum_nonneg(mid);
            lemma_div_mod_shares(pool as int, n as int);
            lemma_served_le(pool as int, n as int, u as int + 1);
            assert((u + 1) * per == u * per + per) by (nonlinear_arith);
        }
        let cur = new_ranks[u];
        let ghost pre_update = new_ranks@;
        new_ranks[u] = cur + per + unit;
        proof {
            lemma_sum_update(pre_update, u as int, (cur + per + unit) as u64);
        }
        u += 1;
    }
    proof {
        lemma_fundamental_div_mod(pool as int, n as int);
        lemma_mod_division_less_than_divisor(pool as int, n as int);
        assert(n * per == (n as int) * (pool as int / n as int));
        assert(sum(new_ranks@) == sum(ranks@));
        assert forall|w: int| 0 <= w < n implies new_ranks@[w] == step_rank(*g, ranks@, w) by {
            assert(new_ranks@[w] == mid[w] + base_of(pool as int, n as int, w));
        }
        assert(new_ranks@ =~= step_seq(*g, ranks@));
    }
    new_ranks
}

/// Computes the total movement between two rank vectors.
fn l1_dist(a: &Vec<u64>, b: &Vec<u64>) -> (d: u64)
    requires
        a@.len() == b@.len(),
        sum(a@) <= SCALE,
        sum(b@) <= SCALE,
    ensures
        d == l1(a@, b@),
{
    let mut acc: u64 = 0;
    let mut i: usize = 0;
    while i < a.len()
        invariant
            a@.len() == b@.len(),
            sum(a@) <= SCALE,
            sum(b@) <= SCALE,
            i <= a@.len(),
            acc == l1_upto(a@, b@, i as int),
            acc <= sum(a@.take(i as int)) + sum(b@.take(i as int)),
        decreases a@.len() - i,
    {
        let x = a[i];
        let y = b[i];
        let diff: u64 = if x >= y {
            x - y
        } else {
            y - x
        };
        proof {
            lemma_sum_take_succ(a@, i as int);
            lemma_sum_take_succ(b@, i as int);
            lemma_sum_take_le(a@, i + 1);
            lemma_sum_take_le(b@, i + 1);
            lemma_sum_nonneg(a@.take(i as int));
            lemma_sum_nonneg(b@.take(i as int));
        }
        acc = acc + diff;
        i += 1;
    }
    acc
}


/// Computes the authority score of every node of the link graph.
///
/// Starting from the uniform distribution, the power iteration runs until
/// the total movement of one iteration drops below
/// [`CONVERGENCE_THRESHOLD`], and at most [`MAX_ITERATIONS`] times. On a
/// non-empty graph the scores always total exactly `SCALE` — one whole unit
/// of authority mass, conserved through every iteration, dangling nodes
/// included. An empty graph yields an empty result.
pub fn calculate_pagerank(g: &LinkGraph) -> (ranks: Vec<u64>)
    requires
        g.wf(),
    ensures
        ranks@.len() == g.n(),
        g.n() > 0 ==> ranks@ == run_from(*g, initial_ranks(g.n()), MAX_ITERATIONS as nat),
        g.n() > 0 ==> sum(ranks@) == SCALE,
{
    let n = g.len();
    if n == 0 {
        let empty: Vec<u64> = Vec::new();
        return empty;
    }
    let mut ranks = init_ranks(n);
    let ghost start = ranks@;
    let mut iter: usize = 0;
    loop
        invariant_except_break
            g.wf(),
            n == g.n(),
            0 < n,
            ranks@.len() == n,
            sum(ranks@) == SCALE,
            iter <= MAX_ITERATIONS,
            run_from(*g, start, MAX_ITERATIONS as nat) == run_from(
                *g,
                ranks@,
                (MAX_ITERATIONS - iter) as nat,
            ),
        ensures
            ranks@.len() == n,
            sum(ranks@) == SCALE,
            ranks@ == run_from(*g, start, MAX_ITERATIONS as nat),
        decreases MAX_ITERATIONS - iter,
    {
        if iter >= MAX_ITERATIONS {
            break ;
        }
        let next = step_once(g, &ranks);
        let d = l1_dist(&next, &ranks);
        proof {
            assert(next@ == step_seq(*g, ranks@));
        }
        let converged = d < CONVERGENCE_THRESHOLD;
        ranks = next;
        iter += 1;
        if converged {
            break ;
        }
    }
    ranks
}


proof fn lemma_edge_mass_zero(edges: Seq<usize>, q: int, u: int, j: int)
    requires
        0 <= j <= edges.len(),
        forall|i: int| 0 <= i < edges.len() ==> (#[trigger] edges[i]) as int != u,
    ensures
        edge_mass_upto(edges, q, u, j) == 0,
    decreases j,
{
    if j > 0 {
        lemma_edge_mass_zero(edges, q, u, j - 1);
    }
}

proof fn lemma_link_mass_zero(g: LinkGraph, ranks: Seq<u64>, u: usize, vmax: int)
    requires
        g.wf(),
        ranks.len() == g.n(),
        u < g.n(),
        0 <= vmax <= g.n(),
        forall|v: int| 0 <= v < g.n() ==> !g.links_to(v, u),
    ensures
        link_mass_upto(g, ranks, u as int, vmax) == 0,
    decreases vmax,
{
    if vmax > 0 {
        lemma_link_mass_zero(g, ranks, u, vmax - 1);
        let edges = g.edges_of(vmax - 1);
        assert(!g.links_to(vmax - 1, u));
        assert(!edges.contains(u));
        assert forall|i: int| 0 <= i < edges.len() implies (#[trigger] edges[i]) as int
            != u as int by {
            if edges[i] == u {
                assert(edges.contains(u));
            }
        }
        lemma_edge_mass_zero(edges, damped(ranks[vmax - 1]), u as int, edges.len() as int);
    }
}

/// A node that no page links to receives exactly the uniform base share of
/// the redistributed pool — random-jump mass plus dangling mass — and
/// nothing else: its whole rank after an iteration is the pure random-jump
/// rank.
pub proof fn lemma_unlinked_node_gets_base_rank(g: LinkGraph, ranks: Seq<u64>, u: usize)
    requires
        g.wf(),
        ranks.len() == g.n(),
        u < g.n(),
        forall|v: int| 0 <= v < g.n() ==> !g.links_to(v, u),
    ensures
        step_rank(g, ranks, u as int) == base_of(pool_of(g, ranks), g.n() as int, u as int),
{
    lemma_link_mass_zero(g, ranks, u, g.n() as int);
}

proof fn lemma_edge_mass_upto_char(edges: Seq<usize>, q: int, u: usize, j: int)
    requires
        0 < edges.len(),
        0 <= j <= edges.len(),
        forall|i: int, i2: int| 0 <= i < i2 < edges.len() ==> edges[i] != edges[i2],
    ensures
        edge_mass_upto(edges, q, u as int, j) == (if edges.take(j).contains(u) {
            q / edges.len() as int
        } else {
            0int
        }) + (if j > 0 && edges[0] == u {
            q % edges.len() as int
        } else {
            0int
        }),
    decreases j,
{
    if j > 0 {
        lemma_edge_mass_upto_char(edges, q, u, j - 1);
        if edges[j - 1] == u {
            assert(!edges.take(j - 1).contains(u)) by {
                if edges.take(j - 1).contains(u) {
                    let i = choose|i: int| 0 <= i < j - 1 && #[trigger] edges.take(j - 1)[i] == u;
                    assert(edges[i] == edges[j - 1]);
                }
            }
            assert(edges.take(j).contains(u)) by {
                assert(edges.take(j)[j - 1] == u);
            }
        } else {
            assert(edges.take(j).contains(u) <==> edges.take(j - 1).contains(u)) by {
                if edges.take(j).contains(u) {
                    let i = choose|i: int| 0 <= i < j && #[trigger] edges.take(j)[i] == u;
                    assert(i != j - 1);
                    assert(edges.take(j - 1)[i] == u);
                }
                if edges.take(j - 1).contains(u) {
                    let i = choose|i: int| 0 <= i < j - 1 && #[trigger] edges.take(j - 1)[i] == u;
                    assert(edges.take(j)[i] == u);
                }
            }
        }
    }
}

/// Characterizes the mass one source passes to one target: a listed target
/// receives the equal share `q / k`, the first-listed target also receives
/// the division remainder, and any other node receives nothing.
pub proof fn lemma_edge_mass_characterization(edges: Seq<usize>, q: int, u: usize)
    requires
        0 < edges.len(),
        forall|i: int, i2: int| 0 <= i < i2 < edges.len() ==> edges[i] != edges[i2],
    ensures
        edge_mass(edges, q, u as int) == (if edges.contains(u) {
            q / edges.len() as int
        } else {
            0int
        }) + (if edges[0] == u {
            q % edges.len() as int
        } else {
            0int
        }),
{
    lemma_edge_mass_upto_char(edges, q, u, edges.len() as int);
    assert(edges.take(edges.len() as int) =~= edges);
}

/// Authority flow is diluted by out-degree: a source passes at least as much
/// mass along each link as an equally ranked source with more outgoing
/// links does along its non-first links. Linked by the same pages, a node
/// whose in-links come from low out-degree sources therefore gathers more
/// mass than one fed through high out-degree sources.
pub proof fn lemma_out_degree_dilutes(
    e1: Seq<usize>,
    e2: Seq<usize>,
    q: int,
    u1: usize,
    u2: usize,
)
    requires
        0 < e1.len() <= e2.len(),
        forall|i: int, i2: int| 0 <= i < i2 < e1.len() ==> e1[i] != e1[i2],
        forall|i: int, i2: int| 0 <= i < i2 < e2.len() ==> e2[i] != e2[i2],
        e1.contains(u1),
        e2.contains(u2),
        e2[0] != u2,
        0 <= q,
    ensures
        edge_mass(e1, q, u1 as int) >= edge_mass(e2, q, u2 as int),
{
    lemma_edge_mass_characterization(e1, q, u1);
    lemma_edge_mass_characterization(e2, q, u2);
    lemma_div_is_ordered_by_denominator(q, e1.len() as int, e2.len() as int);
    lemma_div_mod_shares(q, e1.len() as int);
}

} // verus!
