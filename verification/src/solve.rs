//! The whole solve call: frontier expansion, partitioning, depth-first
//! refinement of every stack, and aggregation of the final bound into a
//! closed cycle.

use vstd::prelude::*;
use crate::path::{valid_path, complete_path, path_weight, tour_weight, covers,
    lemma_path_weight_bound, clone_path};
use crate::matrix::Matrix;
use crate::bound::BoundTracker;
use crate::frontier::{bfs, all_partial};
use crate::search::{partition_frontier, dfs_worker};

verus! {

/// Hard ceiling on the frontier size: caps the memory of the
/// breadth-first phase before the parallel phase starts.
pub const QUEUE_LIMIT: usize = 100000;

/// Result of a solve call: a closed minimum-weight cycle, or the explicit
/// outcome that capacity limits cut the search short.
pub enum TspOutcome {
    /// A cycle through all nodes, ending with a repeat of its start node,
    /// together with its total weight.
    Cycle { path: Vec<usize>, distance: u64 },
    /// The frontier ceiling cannot hold one full expansion level, so the
    /// search was not run.
    NoSolution,
}

/// `p` lists every node once, returns to its start, and weighs `d`.
pub open spec fn is_closed_tour(m: Seq<Seq<u32>>, n: int, p: Seq<usize>, d: int) -> bool {
    &&& p.len() == n + 1
    &&& p[n] == p[0]
    &&& complete_path(n, p.take(n))
    &&& d == tour_weight(m, p.take(n))
}

/// `d` is the weight of some complete tour and no complete tour weighs
/// less.
pub open spec fn optimal_value(m: Seq<Seq<u32>>, n: int, d: int) -> bool {
    &&& exists|q: Seq<usize>| #[trigger] complete_path(n, q) && tour_weight(m, q) == d
    &&& forall|q: Seq<usize>| #[trigger] complete_path(n, q) ==> tour_weight(m, q) >= d
}

/// Every node set has a tour, and every tour weight fits a `u64`.
pub proof fn lemma_exists_tour(m: Seq<Seq<u32>>, n: int)
    requires
        1 <= n <= u32::MAX,
    ensures
        exists|q: Seq<usize>| #[trigger] complete_path(n, q) && tour_weight(m, q) < u64::MAX,
{
    let q = Seq::new(n as nat, |i: int| i as usize);
    assert(valid_path(n, q));
    lemma_path_weight_bound(m, q);
    assert((n - 1) * (u32::MAX as int) + (u32::MAX as int) == n * (u32::MAX as int))
        by (nonlinear_arith);
    assert(n * (u32::MAX as int) <= (u32::MAX as int) * (u32::MAX as int)) by (nonlinear_arith)
        requires 1 <= n <= u32::MAX as int,
    ;
    assert((u32::MAX as int) * (u32::MAX as int) < u64::MAX as int) by (nonlinear_arith);
    assert(complete_path(n, q) && tour_weight(m, q) < u64::MAX);
}

/// Copies a stack of paths; the copy holds the same paths.
fn clone_stack(st: &Vec<Vec<usize>>) -> (r: Vec<Vec<usize>>)
    ensures
        r@.len() == st@.len(),
        forall|k: int| 0 <= k < st@.len() ==> (#[trigger] r@[k])@ == st@[k]@,
{
    let mut r: Vec<Vec<usize>> = Vec::new();
    let mut i: usize = 0;
    while i < st.len()
        invariant
            i <= st@.len(),
            r@.len() == i,
            forall|k: int| 0 <= k < i ==> (#[trigger] r@[k])@ == st@[k]@,
        decreases st@.len() - i,
    {
        r.push(clone_path(&st[i]));
        i += 1;
    }
    r
}

/// The full two-phase search with an explicit frontier ceiling.
///
/// If the ceiling cannot hold one full expansion level (`ceiling` below
/// the node count), the capacity outcome is reported instead of running a
/// truncated search.  Otherwise the reported cycle visits every node once,
/// returns to its start, and its reported weight is both the weight of
/// that cycle and the minimum over all complete tours.
pub fn solve_bounded(m: &Matrix, queue_size: usize, workers: usize, ceiling: usize) -> (r:
    TspOutcome)
    requires
        m.wf(),
        workers >= 1,
    ensures
        m.n() > ceiling ==> r is NoSolution,
        m.n() <= ceiling ==> match r {
            TspOutcome::Cycle { path, distance } => is_closed_tour(
                m@,
                m.n(),
                path@,
                distance as int,
            ) && optimal_value(m@, m.n(), distance as int),
            TspOutcome::NoSolution => false,
        },
{
    let ghost ni = m.n();
    let n = m.node_count();
    if ceiling < n {
        return TspOutcome::NoSolution;
    }
    let cap0 = if queue_size > n {
        queue_size
    } else {
        n
    };
    let cap = if cap0 < ceiling {
        cap0
    } else {
        ceiling
    };
    let (frontier, b0) = bfs(m, cap);
    let stacks = partition_frontier(m, &frontier, workers);
    proof {
        assert forall|q: Seq<usize>| #[trigger]
            complete_path(ni, q) && tour_weight(m@, q) < b0.distance() implies exists|s2: int|
            0 <= s2 < stacks@.len() && covers(stacks@[s2]@, q) by {
            assert(covers(frontier@, q));
        };
    }
    let mut b = b0;
    let mut s: usize = 0;
    while s < stacks.len()
        invariant
            m.wf(),
            ni == m.n(),
            1 <= ni <= u32::MAX,
            stacks@.len() >= 1,
            s <= stacks@.len(),
            forall|s2: int| 0 <= s2 < stacks@.len() ==> all_partial(ni, (#[trigger]
            stacks@[s2])@),
            b.wf(m@, ni),
            forall|q: Seq<usize>| #[trigger]
                complete_path(ni, q) && tour_weight(m@, q) < b.distance() ==> exists|s2: int|
                    s <= s2 < stacks@.len() && covers(stacks@[s2]@, q),
        decreases stacks@.len() - s,
    {
        let stk = clone_stack(&stacks[s]);
        proof {
            assert(all_partial(ni, stacks@[s as int]@));
            assert forall|k: int| 0 <= k < stk@.len() implies crate::path::partial_path(
                ni,
                (#[trigger] stk@[k])@,
            ) by {
                assert(stk@[k]@ == stacks@[s as int]@[k]@);
            };
        }
        let ghost b_pre = b;
        dfs_worker(m, stk, &mut b);
        proof {
            assert forall|q: Seq<usize>| #[trigger]
                complete_path(ni, q) && tour_weight(m@, q) < b.distance() implies exists|
                s2: int,
            |
                s + 1 <= s2 < stacks@.len() && covers(stacks@[s2]@, q) by {
                assert(tour_weight(m@, q) < b_pre.distance());
                let s2 = choose|s2: int|
                    s <= s2 < stacks@.len() && covers((#[trigger] stacks@[s2])@, q);
                if s2 == s {
                    let k = choose|k: int|
                        0 <= k < stacks@[s as int]@.len() && crate::path::is_prefix_of(
                            (#[trigger] stacks@[s as int]@[k])@,
                            q,
                        );
                    assert(stk@[k]@ == stacks@[s as int]@[k]@);
                    assert(covers(stk@, q));
                    assert(tour_weight(m@, q) >= b.distance());
                    assert(false);
                }
            };
        }
        s += 1;
    }
    proof {
        assert forall|q: Seq<usize>| #[trigger] complete_path(ni, q) implies tour_weight(m@, q)
            >= b.distance() by {
            if tour_weight(m@, q) < b.distance() {
                let s2 = choose|s2: int|
                    s <= s2 < stacks@.len() && covers((#[trigger] stacks@[s2])@, q);
                assert(false);
            }
        };
        lemma_exists_tour(m@, ni);
        let q0 = choose|q0: Seq<usize>| #[trigger]
            complete_path(ni, q0) && tour_weight(m@, q0) < u64::MAX;
        assert(tour_weight(m@, q0) >= b.distance());
        assert(b.distance() < u64::MAX);
        assert(b.path() is Some);
    }
    let ghost bfin = b;
    let (d, popt) = b.into_best();
    match popt {
        Option::Some(p) => {
            let ghost pv = p@;
            let start = p[0];
            let mut cycle = p;
            cycle.push(start);
            proof {
                assert(cycle@ == pv.push(pv[0]));
                assert(cycle@.take(ni) =~= pv);
                assert(cycle@[ni] == cycle@[0]);
                assert(is_closed_tour(m@, ni, cycle@, d as int));
                assert(complete_path(ni, pv) && tour_weight(m@, pv) == d as int);
                assert(optimal_value(m@, ni, d as int));
            }
            TspOutcome::Cycle { path: cycle, distance: d }
        },
        Option::None => {
            proof {
                assert(bfin.path() is None);
                assert(false);
            }
            TspOutcome::NoSolution
        },
    }
}

/// The two-phase search under the default frontier ceiling.
pub fn tsp(m: &Matrix, queue_size: usize, num_threads: usize) -> (r: TspOutcome)
    requires
        m.wf(),
        num_threads >= 1,
    ensures
        m.n() > QUEUE_LIMIT ==> r is NoSolution,
        m.n() <= QUEUE_LIMIT ==> match r {
            TspOutcome::Cycle { path, distance } => is_closed_tour(
                m@,
                m.n(),
                path@,
                distance as int,
            ) && optimal_value(m@, m.n(), distance as int),
            TspOutcome::NoSolution => false,
        },
{
    solve_bounded(m, queue_size, num_threads, QUEUE_LIMIT)
}

/// Solves the matrix with `workers` worker stacks and a frontier target
/// equal to the worker count.
pub fn solve(m: &Matrix, workers: usize) -> (r: TspOutcome)
    requires
        m.wf(),
        workers >= 1,
    ensures
        m.n() > QUEUE_LIMIT ==> r is NoSolution,
        m.n() <= QUEUE_LIMIT ==> match r {
            TspOutcome::Cycle { path, distance } => is_closed_tour(
                m@,
                m.n(),
                path@,
                distance as int,
            ) && optimal_value(m@, m.n(), distance as int),
            TspOutcome::NoSolution => false,
        },
{
    tsp(m, workers, workers)
}

/// Law: the optimal tour value of a matrix is unique, so any two solve
/// calls on the same matrix report the same best distance, whatever paths
/// they pick among ties.
pub proof fn lemma_optimal_value_unique(m: Seq<Seq<u32>>, n: int, d1: int, d2: int)
    requires
        optimal_value(m, n, d1),
        optimal_value(m, n, d2),
    ensures
        d1 == d2,
{
    let q1 = choose|q: Seq<usize>| #[trigger] complete_path(n, q) && tour_weight(m, q) == d1;
    let q2 = choose|q: Seq<usize>| #[trigger] complete_path(n, q) && tour_weight(m, q) == d2;
    assert(tour_weight(m, q1) >= d2);
    assert(tour_weight(m, q2) >= d1);
}

/// Law: on a single node the only tour is the self-loop at node 0, so the
/// optimal distance is the diagonal entry — zero for a distance matrix
/// with an empty diagonal.
pub proof fn lemma_single_node_tour(m: Seq<Seq<u32>>, d: int)
    requires
        optimal_value(m, 1, d),
    ensures
        d == m[0][0],
{
    let q1 = choose|q: Seq<usize>| #[trigger] complete_path(1, q) && tour_weight(m, q) == d;
    assert(q1.len() == 1);
    assert(q1[0] == 0);
    assert(tour_weight(m, q1) == m[0][0]);
}

/// Law: on two nodes every tour is the round trip, so the optimal
/// distance is the sum of both directed edge weights — twice the single
/// edge weight when the matrix is symmetric.
pub proof fn lemma_two_node_tour(m: Seq<Seq<u32>>, d: int)
    requires
        optimal_value(m, 2, d),
    ensures
        d == m[0][1] + m[1][0],
{
    let q1 = choose|q: Seq<usize>| #[trigger] complete_path(2, q) && tour_weight(m, q) == d;
    assert(q1.len() == 2);
    assert(q1[0] < 2 && q1[1] < 2 && q1[0] != q1[1]);
    assert(path_weight(m, q1) == path_weight(m, q1.drop_last()) + (
    m[q1[0] as int][q1[1] as int] as int));
    assert(q1.drop_last().len() == 1);
    if q1[0] == 0 {
        assert(tour_weight(m, q1) == m[0][1] + m[1][0]);
    } else {
        assert(tour_weight(m, q1) == m[1][0] + m[0][1]);
    }
}

} // verus!

