//! The frontier generator: a bounded breadth-first expansion that yields
//! a capped collection of partial paths and a provisional bound.

use vstd::prelude::*;
use crate::path::{valid_path, partial_path, complete_path, tour_weight, is_prefix_of, covers,
    lemma_prefix_extends, lemma_pruned_tour_at_least, lemma_revisit_invalid,
    lemma_covers_extend, clone_path, contains_node, expansion_room, path_work, search_work,
    lemma_path_work_pos, lemma_search_work_nonneg, lemma_search_work_push};
use vstd::arithmetic::power::pow;
use vstd::arithmetic::power::lemma_pow_positive;
use crate::matrix::{Matrix, path_sum, tour_distance};
use crate::bound::BoundTracker;

verus! {

/// Every entry of `fr` is a partial path over `n` nodes.
pub open spec fn all_partial(n: int, fr: Seq<Vec<usize>>) -> bool {
    forall|k: int| 0 <= k < fr.len() ==> partial_path(n, (#[trigger] fr[k])@)
}

/// Every complete path whose cycle weighs strictly less than `d` has a
/// prefix among `fr`: the collection still covers every tour that could
/// beat the bound `d`.
pub open spec fn bound_covers(m: Seq<Seq<u32>>, n: int, fr: Seq<Vec<usize>>, d: u64) -> bool {
    forall|q: Seq<usize>| #[trigger]
        complete_path(n, q) && tour_weight(m, q) < d ==> covers(fr, q)
}

/// Breadth-first expansion from the empty path.  The earliest-enqueued
/// path is taken first; a complete path is offered to the bound, an
/// incomplete one is extended by every unvisited node whose extension
/// could still beat the bound.  Expansion halts once the queue holds at
/// least `cap` paths, or when it is exhausted.
///
/// The halt test runs between expansions, never in the middle of one, so
/// that no extension of a popped path is ever dropped: the last expansion
/// may overshoot the cap by up to one node fan-out (the frontier stays
/// below `cap` plus the node count), but the residual queue together with
/// the provisional bound accounts for every tour cheaper than the bound.
/// Halting mid-expansion would discard the popped path's remaining
/// extensions, and with them tours no other entry covers.
///
/// Expansion only stops at the cap unless it ran out of work, and the
/// queue can only drain after some complete path was evaluated, so a
/// frontier below the cap comes with a bound strictly under the sentinel.
pub fn bfs(m: &Matrix, cap: usize) -> (r: (Vec<Vec<usize>>, BoundTracker))
    requires
        m.wf(),
        cap >= 1,
    ensures
        r.1.wf(m@, m.n()),
        all_partial(m.n(), r.0@),
        bound_covers(m@, m.n(), r.0@, r.1.distance()),
        r.0@.len() < cap + m.n(),
        r.1.distance() == u64::MAX ==> r.0@.len() >= cap,
{
    let ghost n = m.n();
    let mut queue: Vec<Vec<usize>> = Vec::new();
    let seed: Vec<usize> = Vec::new();
    queue.push(seed);
    let mut h: usize = 0;
    let mut b = BoundTracker::new();
    proof {
        assert forall|q: Seq<usize>| #[trigger]
            complete_path(n, q) && tour_weight(m@, q) < b.distance() implies covers(
            queue@.skip(h as int),
            q,
        ) by {
            let live = queue@.skip(h as int);
            assert(live[0]@ =~= q.take(0));
            assert(is_prefix_of(live[0]@, q));
        };
        assert(partial_path(n, queue@.skip(0)[0]@));
    }
    while h < queue.len() && queue.len() - h < cap
        invariant
            m.wf(),
            n == m.n(),
            1 <= n <= u32::MAX,
            cap >= 1,
            h <= queue@.len(),
            queue@.len() - h < cap + n,
            b.distance() == u64::MAX ==> queue@.len() - h >= 1,
            all_partial(n, queue@.skip(h as int)),
            b.wf(m@, n),
            bound_covers(m@, n, queue@.skip(h as int), b.distance()),
        decreases search_work(n, queue@.skip(h as int)),
    {
        let ghost old_h = h as int;
        let ghost old_live = queue@.skip(old_h);
        proof {
            assert(partial_path(n, old_live[0]@));
        }
        let path = clone_path(&queue[h]);
        h += 1;
        let ghost live1 = queue@.skip(h as int);
        proof {
            assert forall|k: int| 1 <= k < old_live.len() implies old_live[k] == live1[k - 1] by {
                assert(old_live[k] == queue@[old_h + k]);
                assert(live1[k - 1] == queue@[old_h + k]);
            };
            assert(old_live.skip(1) =~= live1);
            assert(old_live[0]@ == path@);
            assert(search_work(n, old_live) == path_work(n, path@) + search_work(n, live1));
        }
        if path.len() == m.node_count() {
            let d = tour_distance(&path, m);
            let ghost pview = path@;
            let ghost b0 = b;
            b.try_update(d, path);
            proof {
                assert(complete_path(n, pview));
                if d < b0.distance() {
                    assert(b.wf(m@, n));
                }
                assert forall|q: Seq<usize>| #[trigger]
                    complete_path(n, q) && tour_weight(m@, q) < b.distance() implies covers(
                    live1,
                    q,
                ) by {
                    assert(tour_weight(m@, q) < b0.distance());
                    assert(covers(old_live, q));
                    let k = choose|k: int|
                        0 <= k < old_live.len() && is_prefix_of((#[trigger] old_live[k])@, q);
                    if k == 0 {
                        assert(q.take(q.len() as int) =~= q);
                        assert(q == pview);
                        assert(tour_weight(m@, q) == d);
                        assert(b.distance() <= d);
                        assert(false);
                    } else {
                        assert(old_live[k] == live1[k - 1]);
                        assert(is_prefix_of(live1[k - 1]@, q));
                    }
                };
                lemma_path_work_pos(n, pview);
                lemma_search_work_nonneg(n, live1);
                assert(search_work(n, live1) < search_work(n, old_live));
                assert(d < u64::MAX);
                assert(b.distance() < u64::MAX);
            }
        } else {
            let ghost base = path@;
            proof {
                assert(base.len() < n);
                assert forall|q: Seq<usize>| #[trigger]
                    complete_path(n, q) && tour_weight(m@, q) < b.distance() implies covers(
                    queue@.skip(h as int),
                    q,
                ) || (is_prefix_of(base, q) && q[base.len() as int] >= 0) by {
                    assert(covers(old_live, q));
                    let k = choose|k: int|
                        0 <= k < old_live.len() && is_prefix_of((#[trigger] old_live[k])@, q);
                    if k == 0 {
                        assert(is_prefix_of(base, q));
                    } else {
                        assert(old_live[k] == live1[k - 1]);
                        assert(is_prefix_of(live1[k - 1]@, q));
                    }
                };
            }
            let ghost e_room = expansion_room(n, base);
            let ghost powc = pow(n + 1, (e_room - 1) as nat);
            proof {
                assert(e_room >= 1);
                reveal(pow);
                assert(pow(n + 1, e_room) == (n + 1) * pow(n + 1, (e_room - 1) as nat));
                assert(path_work(n, base) == pow(n + 1, e_room));
                assert(path_work(n, base) == (n + 1) * powc);
                lemma_pow_positive(n + 1, (e_room - 1) as nat);
                assert(queue@.skip(h as int) == live1);
            }
            let n_exec = m.node_count();
            let mut next: usize = 0;
            while next < n_exec
                invariant
                    m.wf(),
                    n == m.n(),
                    n_exec == n,
                    1 <= n <= u32::MAX,
                    b.wf(m@, n),
                    path@ == base,
                    valid_path(n, base),
                    base.len() < n,
                    h <= queue@.len(),
                    next <= n_exec,
                    e_room == expansion_room(n, base),
                    powc == pow(n + 1, (e_room - 1) as nat),
                    powc >= 1,
                    path_work(n, base) == (n + 1) * powc,
                    search_work(n, old_live) == path_work(n, base) + search_work(n, live1),
                    search_work(n, queue@.skip(h as int)) <= search_work(n, live1) + (
                    next as int) * powc,
                    queue@.len() - h >= live1.len(),
                    queue@.len() - h <= live1.len() + next,
                    b.distance() == u64::MAX ==> (queue@.len() - h > live1.len() || (
                    forall|x: usize| (x as int) < next ==> base.contains(x))),
                    all_partial(n, queue@.skip(h as int)),
                    forall|q: Seq<usize>| #[trigger]
                        complete_path(n, q) && tour_weight(m@, q) < b.distance() ==> covers(
                            queue@.skip(h as int),
                            q,
                        ) || (is_prefix_of(base, q) && q[base.len() as int] >= next),
                decreases n_exec - next,
            {
                if !contains_node(&path, next) {
                    let mut np = clone_path(&path);
                    np.push(next);
                    let ghost npv = np@;
                    proof {
                        assert(npv =~= base.push(next));
                        assert forall|i: int, j: int| 0 <= i < j < npv.len() implies npv[i]
                            != npv[j] by {
                            if j == npv.len() - 1 {
                                assert(!base.contains(next));
                                assert(npv[i] == base[i]);
                            }
                        };
                        assert(valid_path(n, npv));
                        assert(npv.len() <= n);
                    }
                    let w = path_sum(&np, m);
                    if w < b.current_bound() {
                        let ghost pre = queue@;
                        queue.push(np);
                        proof {
                            let old_sk = pre.skip(h as int);
                            let new_sk = queue@.skip(h as int);
                            let pushed = queue@[queue@.len() - 1];
                            assert(pushed@ == npv);
                            assert(new_sk =~= old_sk.push(pushed));
                            assert(new_sk[new_sk.len() - 1]@ == npv);
                            lemma_search_work_push(n, old_sk, pushed);
                            assert(expansion_room(n, npv) == e_room - 1);
                            assert(path_work(n, npv) == powc);
                            assert((next as int) * powc + powc == (next as int + 1) * powc)
                                by (nonlinear_arith);
                            assert(search_work(n, new_sk) <= search_work(n, live1) + (
                            next as int + 1) * powc);
                            assert forall|k: int| 0 <= k < new_sk.len() implies partial_path(
                                n,
                                (#[trigger] new_sk[k])@,
                            ) by {
                                if k < old_sk.len() {
                                    assert(new_sk[k] == old_sk[k]);
                                }
                            };
                            assert forall|q: Seq<usize>| #[trigger]
                                complete_path(n, q) && tour_weight(m@, q) < b.distance()
                                implies covers(new_sk, q) || (is_prefix_of(base, q)
                                && q[base.len() as int] >= next + 1) by {
                                if covers(old_sk, q) {
                                    lemma_covers_extend(old_sk, new_sk, q);
                                } else {
                                    assert(is_prefix_of(base, q) && q[base.len() as int]
                                        >= next);
                                    if q[base.len() as int] == next {
                                        lemma_prefix_extends(base, next, q);
                                        assert(is_prefix_of(new_sk[new_sk.len() - 1]@, q));
                                        assert(covers(new_sk, q));
                                    }
                                }
                            };
                        }
                    } else {
                        proof {
                            assert((next as int) * powc <= (next as int + 1) * powc)
                                by (nonlinear_arith)
                                requires powc >= 1,
                            ;
                            assert(npv.len() - 1 < u32::MAX);
                            assert((npv.len() - 1) * (u32::MAX as int) < u64::MAX as int)
                                by (nonlinear_arith)
                                requires 0 <= npv.len() - 1 < u32::MAX as int,
                            ;
                            assert(b.distance() < u64::MAX);
                            assert forall|q: Seq<usize>| #[trigger]
                                complete_path(n, q) && tour_weight(m@, q) < b.distance()
                                implies covers(queue@.skip(h as int), q) || (is_prefix_of(
                                base,
                                q,
                            ) && q[base.len() as int] >= next + 1) by {
                                if !covers(queue@.skip(h as int), q) {
                                    assert(is_prefix_of(base, q) && q[base.len() as int]
                                        >= next);
                                    if q[base.len() as int] == next {
                                        lemma_prefix_extends(base, next, q);
                                        lemma_pruned_tour_at_least(m@, npv, q);
                                        assert(tour_weight(m@, q) >= w);
                                        assert(false);
                                    }
                                }
                            };
                        }
                    }
                } else {
                    proof {
                        assert((next as int) * powc <= (next as int + 1) * powc)
                            by (nonlinear_arith)
                            requires powc >= 1,
                        ;
                        if b.distance() == u64::MAX && queue@.len() - h == live1.len() {
                            assert forall|x: usize| (x as int) < next + 1 implies base.contains(
                                x,
                            ) by {
                                if (x as int) < next {
                                    assert(base.contains(x));
                                }
                            };
                        }
                        assert forall|q: Seq<usize>| #[trigger]
                            complete_path(n, q) && tour_weight(m@, q) < b.distance()
                            implies covers(queue@.skip(h as int), q) || (is_prefix_of(base, q)
                            && q[base.len() as int] >= next + 1) by {
                            if !covers(queue@.skip(h as int), q) {
                                assert(is_prefix_of(base, q) && q[base.len() as int] >= next);
                                if q[base.len() as int] == next {
                                    lemma_revisit_invalid(n, base, next, q);
                                    assert(false);
                                }
                            }
                        };
                    }
                }
                next += 1;
            }
            proof {
                assert forall|q: Seq<usize>| #[trigger]
                    complete_path(n, q) && tour_weight(m@, q) < b.distance() implies covers(
                    queue@.skip(h as int),
                    q,
                ) by {
                    if !covers(queue@.skip(h as int), q) {
                        assert(is_prefix_of(base, q) && q[base.len() as int] >= n_exec);
                        assert(q[base.len() as int] < n);
                        assert(false);
                    }
                };
                assert(n * powc < (n + 1) * powc) by (nonlinear_arith)
                    requires powc >= 1,
                ;
                assert(search_work(n, queue@.skip(h as int)) < search_work(n, old_live));
                lemma_search_work_nonneg(n, queue@.skip(h as int));
                if b.distance() == u64::MAX && queue@.len() - h == live1.len() {
                    crate::path::lemma_unvisited_node_exists(n, base);
                    let x0 = choose|x: usize| (x as int) < n && !base.contains(x);
                    assert(base.contains(x0));
                    assert(false);
                }
                assert(queue@.len() - h <= live1.len() + n);
                assert(live1.len() == old_live.len() - 1);
                assert(queue@.len() - h < cap + n);
            }
        }
    }
    proof {
        if b.distance() == u64::MAX {
            assert(queue@.len() - h >= 1);
            assert(queue@.len() - h >= cap);
        }
    }
    let mut frontier: Vec<Vec<usize>> = Vec::new();
    let mut i: usize = h;
    while i < queue.len()
        invariant
            m.wf(),
            n == m.n(),
            h <= i <= queue@.len(),
            queue@.len() - h < cap + n,
            b.distance() == u64::MAX ==> queue@.len() - h >= cap,
            all_partial(n, queue@.skip(h as int)),
            b.wf(m@, n),
            bound_covers(m@, n, queue@.skip(h as int), b.distance()),
            frontier@.len() == i - h,
            forall|k: int| 0 <= k < frontier@.len() ==> (#[trigger] frontier@[k])@ == queue@[h
                + k]@,
        decreases queue@.len() - i,
    {
        frontier.push(clone_path(&queue[i]));
        i += 1;
    }
    proof {
        let live = queue@.skip(h as int);
        assert(frontier@.len() == live.len());
        assert forall|k: int| 0 <= k < frontier@.len() implies partial_path(
            n,
            (#[trigger] frontier@[k])@,
        ) by {
            assert(frontier@[k]@ == live[k]@);
        };
        assert forall|q: Seq<usize>| #[trigger]
            complete_path(n, q) && tour_weight(m@, q) < b.distance() implies covers(
            frontier@,
            q,
        ) by {
            assert(covers(live, q));
            let k = choose|k: int| 0 <= k < live.len() && is_prefix_of((#[trigger] live[k])@, q);
            assert(frontier@[k]@ == live[k]@);
            assert(is_prefix_of(frontier@[k]@, q));
        };
    }
    (frontier, b)
}

} // verus!

