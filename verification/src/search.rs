//! The depth-first refinement phase: round-robin partitioning of the
//! frontier and the per-worker branch-and-bound search.

use vstd::prelude::*;
use crate::path::{valid_path, partial_path, complete_path, tour_weight, is_prefix_of, covers,
    lemma_prefix_extends, lemma_pruned_tour_at_least, lemma_revisit_invalid,
    lemma_covers_extend, clone_path, contains_node, expansion_room, path_work, search_work,
    lemma_path_work_pos, lemma_search_work_nonneg, lemma_search_work_push};
use crate::matrix::{Matrix, path_sum, tour_distance};
use crate::bound::BoundTracker;
use crate::frontier::all_partial;
use vstd::arithmetic::power::pow;
use vstd::arithmetic::power::lemma_pow_positive;

verus! {

/// Some entry of `st` holds exactly the indices `pv`.
pub open spec fn stack_has(st: Seq<Vec<usize>>, pv: Seq<usize>) -> bool {
    exists|t: int| 0 <= t < st.len() && (#[trigger] st[t])@ == pv
}

/// Some stack among `stacks` holds exactly the indices `pv`.
pub open spec fn stacks_have(stacks: Seq<Vec<Vec<usize>>>, pv: Seq<usize>) -> bool {
    exists|s: int, t: int|
        0 <= s < stacks.len() && 0 <= t < stacks[s]@.len() && (#[trigger] stacks[s]@[t])@ == pv
}

/// Two numbers that agree modulo `w` and lie within one window of `w` of
/// each other are equal.
proof fn lemma_congruent_in_window(a: int, j: int, w: int)
    requires
        w >= 1,
        j <= a < j + w,
        a % w == j % w,
    ensures
        a == j,
{
    vstd::arithmetic::div_mod::lemma_fundamental_div_mod(a, w);
    vstd::arithmetic::div_mod::lemma_fundamental_div_mod(j, w);
    let qa = a / w;
    let qj = j / w;
    assert(w * qa - w * qj == w * (qa - qj)) by (nonlinear_arith);
    assert(a - j == w * (qa - qj));
    assert(qa - qj == 0) by (nonlinear_arith)
        requires w >= 1, 0 <= w * (qa - qj), w * (qa - qj) < w,
    ;
}

/// Splits the frontier round-robin by position into `workers` stacks:
/// frontier entry `j` lands on stack `j % workers` at position
/// `j / workers`, and the stacks hold nothing else.  In particular,
/// whatever tours the frontier accounts for, some stack accounts for.
pub fn partition_frontier(m: &Matrix, frontier: &Vec<Vec<usize>>, workers: usize) -> (stacks:
    Vec<Vec<Vec<usize>>>)
    requires
        workers >= 1,
        all_partial(m.n(), frontier@),
    ensures
        stacks@.len() == workers,
        forall|s: int| 0 <= s < stacks@.len() ==> all_partial(m.n(), (#[trigger] stacks@[s])@),
        forall|s: int| 0 <= s < stacks@.len() ==> frontier@.len() <= (#[trigger]
            stacks@[s])@.len() * (workers as int) + s < frontier@.len() + workers,
        forall|j: int| 0 <= j < frontier@.len() ==> (#[trigger] frontier@[j])@ == stacks@[j % (
        workers as int)]@[j / (workers as int)]@,
        forall|q: Seq<usize>| #[trigger] covers(frontier@, q) ==> exists|s: int|
            0 <= s < stacks@.len() && covers(stacks@[s]@, q),
{
    let ghost n = m.n();
    let ghost w = workers as int;
    let mut stacks: Vec<Vec<Vec<usize>>> = Vec::new();
    let mut s: usize = 0;
    while s < workers
        invariant
            n == m.n(),
            w == workers as int,
            workers >= 1,
            all_partial(n, frontier@),
            s <= workers,
            stacks@.len() == s,
            forall|s2: int| 0 <= s2 < stacks@.len() ==> all_partial(
                n,
                (#[trigger] stacks@[s2])@,
            ),
            forall|j2: int|
                0 <= j2 < frontier@.len() && j2 % w < s ==> stacks_have(
                    stacks@,
                    (#[trigger] frontier@[j2])@,
                ),
            forall|s2: int| 0 <= s2 < stacks@.len() ==> frontier@.len() <= (#[trigger]
                stacks@[s2])@.len() * w + s2 < frontier@.len() + w,
            forall|s2: int, t: int|
                0 <= s2 < stacks@.len() && 0 <= t < stacks@[s2]@.len() ==> (#[trigger]
                stacks@[s2]@[t])@ == frontier@[t * w + s2]@,
        decreases workers - s,
    {
        let mut st: Vec<Vec<usize>> = Vec::new();
        let mut j: usize = 0;
        while j < frontier.len()
            invariant
                n == m.n(),
                w == workers as int,
                workers >= 1,
                s < workers,
                all_partial(n, frontier@),
                j <= frontier@.len(),
                all_partial(n, st@),
                forall|j2: int|
                    0 <= j2 < j && j2 % w == s ==> stack_has(st@, (#[trigger] frontier@[j2])@),
                j <= st@.len() * w + s < j + w,
                forall|t: int| 0 <= t < st@.len() ==> (#[trigger] st@[t])@ == frontier@[t * w
                    + s]@,
            decreases frontier@.len() - j,
        {
            let ghost st_old = st@;
            if j % workers == s {
                let p = clone_path(&frontier[j]);
                st.push(p);
                proof {
                    assert(partial_path(n, frontier@[j as int]@));
                    assert(st@[st@.len() - 1]@ == frontier@[j as int]@);
                    assert forall|k: int| 0 <= k < st@.len() implies partial_path(
                        n,
                        (#[trigger] st@[k])@,
                    ) by {
                        if k < st_old.len() {
                            assert(st@[k] == st_old[k]);
                        }
                    };
                    let a = st_old.len() * w + (s as int);
                    vstd::arithmetic::div_mod::lemma_mod_multiples_vanish(
                        st_old.len() as int,
                        s as int,
                        w,
                    );
                    vstd::arithmetic::div_mod::lemma_small_mod(s as nat, w as nat);
                    assert(a % w == s as int);
                    assert((j as int) % w == s as int);
                    lemma_congruent_in_window(a, j as int, w);
                    assert(st_old.len() * w + (s as int) == j as int);
                    assert(st@.len() * w + (s as int) == j + w) by (nonlinear_arith)
                        requires st@.len() == st_old.len() + 1, st_old.len() * w + (s as int)
                            == j as int,
                    ;
                    assert forall|t: int| 0 <= t < st@.len() implies (#[trigger] st@[t])@
                        == frontier@[t * w + s]@ by {
                        if t < st_old.len() {
                            assert(st@[t] == st_old[t]);
                        } else {
                            assert(t == st_old.len());
                            assert(t * w + s == j as int);
                        }
                    };
                }
            }
            proof {
                assert forall|j2: int| 0 <= j2 < j + 1 && j2 % w == s implies stack_has(
                    st@,
                    (#[trigger] frontier@[j2])@,
                ) by {
                    if j2 < j {
                        let t = choose|t: int|
                            0 <= t < st_old.len() && (#[trigger] st_old[t])@ == frontier@[j2]@;
                        assert(st@[t] == st_old[t]);
                        assert(st@[t]@ == frontier@[j2]@);
                    } else {
                        assert(j2 == j);
                        assert((j as int) % w == (s as int));
                        assert(st@[st@.len() - 1]@ == frontier@[j as int]@);
                    }
                };
                if (j as int) % w != s as int {
                    let a = st@.len() * w + (s as int);
                    vstd::arithmetic::div_mod::lemma_mod_multiples_vanish(
                        st@.len() as int,
                        s as int,
                        w,
                    );
                    vstd::arithmetic::div_mod::lemma_small_mod(s as nat, w as nat);
                    assert(a % w == s as int);
                    assert(a != j as int);
                    assert(j + 1 <= a < j + 1 + w);
                }
            }
            j += 1;
        }
        let ghost stacks_old = stacks@;
        stacks.push(st);
        proof {
            assert(stacks@[stacks@.len() - 1] == st);
            assert forall|s2: int| 0 <= s2 < stacks@.len() implies all_partial(
                n,
                (#[trigger] stacks@[s2])@,
            ) by {
                if s2 < stacks_old.len() {
                    assert(stacks@[s2] == stacks_old[s2]);
                }
            };
            assert forall|s2: int| 0 <= s2 < stacks@.len() implies frontier@.len() <= (
            #[trigger] stacks@[s2])@.len() * w + s2 < frontier@.len() + w by {
                if s2 < stacks_old.len() {
                    assert(stacks@[s2] == stacks_old[s2]);
                } else {
                    assert(stacks@[s2] == st);
                }
            };
            assert forall|s2: int, t: int|
                0 <= s2 < stacks@.len() && 0 <= t < stacks@[s2]@.len() implies (#[trigger]
                stacks@[s2]@[t])@ == frontier@[t * w + s2]@ by {
                if s2 < stacks_old.len() {
                    assert(stacks@[s2] == stacks_old[s2]);
                    assert(stacks_old[s2]@[t]@ == frontier@[t * w + s2]@);
                } else {
                    assert(stacks@[s2] == st);
                    assert(st@[t]@ == frontier@[t * w + s]@);
                }
            };
            assert forall|j2: int| 0 <= j2 < frontier@.len() && j2 % w < s + 1
                implies stacks_have(stacks@, (#[trigger] frontier@[j2])@) by {
                if j2 % w < s {
                    let (s2, t) = choose|s2: int, t: int|
                        0 <= s2 < stacks_old.len() && 0 <= t < stacks_old[s2]@.len() && (
                        #[trigger] stacks_old[s2]@[t])@ == frontier@[j2]@;
                    assert(stacks@[s2] == stacks_old[s2]);
                    assert(stacks@[s2]@[t]@ == frontier@[j2]@);
                } else {
                    assert(j2 % w == s);
                    let t = choose|t: int|
                        0 <= t < st@.len() && (#[trigger] st@[t])@ == frontier@[j2]@;
                    assert(stacks@[stacks@.len() - 1]@[t]@ == frontier@[j2]@);
                }
            };
        }
        s += 1;
    }
    proof {
        assert forall|j: int| 0 <= j < frontier@.len() implies (#[trigger] frontier@[j])@
            == stacks@[j % w]@[j / w]@ by {
            assert(0 <= j % w < w) by (nonlinear_arith)
                requires w >= 1, 0 <= j,
            ;
            vstd::arithmetic::div_mod::lemma_fundamental_div_mod(j, w);
            let s2 = j % w;
            let t = j / w;
            assert(t * w + s2 == j);
            assert(t >= 0) by (nonlinear_arith)
                requires w >= 1, t * w + s2 == j, 0 <= j, 0 <= s2 < w,
            ;
            assert(frontier@.len() <= stacks@[s2]@.len() * w + s2);
            assert(t < stacks@[s2]@.len()) by (nonlinear_arith)
                requires w >= 1, t * w + s2 < frontier@.len(),
                    frontier@.len() <= stacks@[s2]@.len() * w + s2,
            ;
            assert(stacks@[s2]@[t]@ == frontier@[t * w + s2]@);
        };
        assert forall|q: Seq<usize>| #[trigger] covers(frontier@, q) implies exists|s2: int|
            0 <= s2 < stacks@.len() && covers(stacks@[s2]@, q) by {
            let k = choose|k: int|
                0 <= k < frontier@.len() && is_prefix_of((#[trigger] frontier@[k])@, q);
            assert(0 <= k % w < w) by (nonlinear_arith)
                requires w >= 1, 0 <= k,
            ;
            assert(stacks_have(stacks@, frontier@[k]@));
            let (s2, t) = choose|s2: int, t: int|
                0 <= s2 < stacks@.len() && 0 <= t < stacks@[s2]@.len() && (#[trigger]
                stacks@[s2]@[t])@ == frontier@[k]@;
            assert(is_prefix_of(stacks@[s2]@[t]@, q));
            assert(covers(stacks@[s2]@, q));
        };
    }
    stacks
}

/// One depth-first step: pops the most recent path; a complete path is
/// offered to the bound, an incomplete one is extended by every unvisited
/// node whose extension could still beat the bound.  No tour cheaper than
/// the bound escapes: whatever the stack accounted for, it still accounts
/// for afterwards.
pub fn dfs_step(m: &Matrix, stack: &mut Vec<Vec<usize>>, b: &mut BoundTracker)
    requires
        m.wf(),
        old(b).wf(m@, m.n()),
        old(stack)@.len() >= 1,
        all_partial(m.n(), old(stack)@),
    ensures
        final(b).wf(m@, m.n()),
        final(b).distance() <= old(b).distance(),
        all_partial(m.n(), final(stack)@),
        search_work(m.n(), final(stack)@) < search_work(m.n(), old(stack)@),
        search_work(m.n(), final(stack)@) >= 0,
        forall|q: Seq<usize>| #[trigger]
            complete_path(m.n(), q) && tour_weight(m@, q) < final(b).distance() && covers(
                old(stack)@,
                q,
            ) ==> covers(final(stack)@, q),
{
    let ghost n = m.n();
    let ghost init = old(stack)@;
    let path = stack.pop().unwrap();
    let ghost s1 = stack@;
    proof {
        assert(s1 =~= init.drop_last());
        assert(init =~= s1.push(path));
        lemma_search_work_push(n, s1, path);
        assert(partial_path(n, init[init.len() - 1]@));
        assert forall|k: int| 0 <= k < s1.len() implies s1[k] == init[k] by {}
        lemma_search_work_nonneg(n, s1);
    }
    if path.len() == m.node_count() {
        let d = tour_distance(&path, m);
        let ghost pview = path@;
        let ghost b0 = *b;
        b.try_update(d, path);
        proof {
            assert(complete_path(n, pview));
            if d < b0.distance() {
                assert(b.wf(m@, n));
            }
            lemma_path_work_pos(n, pview);
            assert forall|q: Seq<usize>| #[trigger]
                complete_path(n, q) && tour_weight(m@, q) < b.distance() && covers(init, q)
                implies covers(stack@, q) by {
                let k = choose|k: int|
                    0 <= k < init.len() && is_prefix_of((#[trigger] init[k])@, q);
                if k == init.len() - 1 {
                    assert(q.take(q.len() as int) =~= q);
                    assert(q == pview);
                    assert(tour_weight(m@, q) == d);
                    assert(b.distance() <= d);
                    assert(false);
                } else {
                    assert(is_prefix_of(s1[k]@, q));
                }
            };
        }
    } else {
        let ghost base = path@;
        proof {
            assert(base.len() < n);
            assert(valid_path(n, base));
        }
        let ghost e_room = expansion_room(n, base);
        let ghost powc = pow(n + 1, (e_room - 1) as nat);
        proof {
            assert(e_room >= 1);
            reveal(pow);
            assert(pow(n + 1, e_room) == (n + 1) * pow(n + 1, (e_room - 1) as nat));
            assert(path_work(n, base) == (n + 1) * powc);
            lemma_pow_positive(n + 1, (e_room - 1) as nat);
            assert forall|q: Seq<usize>| #[trigger]
                complete_path(n, q) && tour_weight(m@, q) < b.distance() && covers(init, q)
                implies covers(stack@, q) || (is_prefix_of(base, q) && q[base.len() as int]
                >= 0) by {
                let k = choose|k: int|
                    0 <= k < init.len() && is_prefix_of((#[trigger] init[k])@, q);
                if k == init.len() - 1 {
                    assert(is_prefix_of(base, q));
                } else {
                    assert(is_prefix_of(s1[k]@, q));
                }
            };
        }
        let n_exec = m.node_count();
        let mut next: usize = 0;
        while next < n_exec
            invariant
                m.wf(),
                n == m.n(),
                n_exec == n,
                1 <= n <= u32::MAX,
                b.wf(m@, n),
                b.distance() <= old(b).distance(),
                path@ == base,
                valid_path(n, base),
                base.len() < n,
                next <= n_exec,
                e_room == expansion_room(n, base),
                powc == pow(n + 1, (e_room - 1) as nat),
                powc >= 1,
                path_work(n, base) == (n + 1) * powc,
                search_work(n, init) == path_work(n, base) + search_work(n, s1),
                search_work(n, s1) >= 0,
                search_work(n, stack@) <= search_work(n, s1) + (next as int) * powc,
                all_partial(n, stack@),
                forall|q: Seq<usize>| #[trigger]
                    complete_path(n, q) && tour_weight(m@, q) < b.distance() && covers(
                        init,
                        q,
                    ) ==> covers(stack@, q) || (is_prefix_of(base, q) && q[base.len() as int]
                    >= next),
            decreases n_exec - next,
        {
            if !contains_node(&path, next) {
                let mut np = clone_path(&path);
                np.push(next);
                let ghost npv = np@;
                proof {
                    assert(npv =~= base.push(next));
                    assert forall|i: int, j: int| 0 <= i < j < npv.len() implies npv[i]
                        != npv[j] by {
                        if j == npv.len() - 1 {
                            assert(!base.contains(next));
                            assert(npv[i] == base[i]);
                        }
                    };
                    assert(valid_path(n, npv));
                    assert(npv.len() <= n);
                }
                let w = path_sum(&np, m);
                if w < b.current_bound() {
                    let ghost pre = stack@;
                    stack.push(np);
                    proof {
                        let pushed = stack@[stack@.len() - 1];
                        assert(pushed@ == npv);
                        assert(stack@ =~= pre.push(pushed));
                        lemma_search_work_push(n, pre, pushed);
                        assert(expansion_room(n, npv) == e_room - 1);
                        assert(path_work(n, npv) == powc);
                        assert((next as int) * powc + powc == (next as int + 1) * powc)
                            by (nonlinear_arith);
                        assert forall|k: int| 0 <= k < stack@.len() implies partial_path(
                            n,
                            (#[trigger] stack@[k])@,
                        ) by {
                            if k < pre.len() {
                                assert(stack@[k] == pre[k]);
                            }
                        };
                        assert forall|q: Seq<usize>| #[trigger]
                            complete_path(n, q) && tour_weight(m@, q) < b.distance() && covers(
                                init,
                                q,
                            ) implies covers(stack@, q) || (is_prefix_of(base, q)
                            && q[base.len() as int] >= next + 1) by {
                            if covers(pre, q) {
                                lemma_covers_extend(pre, stack@, q);
                            } else if is_prefix_of(base, q) && q[base.len() as int] >= next {
                                if q[base.len() as int] == next {
                                    lemma_prefix_extends(base, next, q);
                                    assert(is_prefix_of(stack@[stack@.len() - 1]@, q));
                                    assert(covers(stack@, q));
                                }
                            }
                        };
                    }
                } else {
                    proof {
                        assert((next as int) * powc <= (next as int + 1) * powc)
                            by (nonlinear_arith)
                            requires powc >= 1,
                        ;
                        assert forall|q: Seq<usize>| #[trigger]
                            complete_path(n, q) && tour_weight(m@, q) < b.distance() && covers(
                                init,
                                q,
                            ) implies covers(stack@, q) || (is_prefix_of(base, q)
                            && q[base.len() as int] >= next + 1) by {
                            if !covers(stack@, q) && is_prefix_of(base, q)
                                && q[base.len() as int] >= next {
                                if q[base.len() as int] == next {
                                    lemma_prefix_extends(base, next, q);
                                    lemma_pruned_tour_at_least(m@, npv, q);
                                    assert(tour_weight(m@, q) >= w);
                                    assert(false);
                                }
                            }
                        };
                    }
                }
            } else {
                proof {
                    assert((next as int) * powc <= (next as int + 1) * powc)
                        by (nonlinear_arith)
                        requires powc >= 1,
                    ;
                    assert forall|q: Seq<usize>| #[trigger]
                        complete_path(n, q) && tour_weight(m@, q) < b.distance() && covers(
                            init,
                            q,
                        ) implies covers(stack@, q) || (is_prefix_of(base, q)
                        && q[base.len() as int] >= next + 1) by {
                        if !covers(stack@, q) && is_prefix_of(base, q) && q[base.len() as int]
                            >= next {
                            if q[base.len() as int] == next {
                                lemma_revisit_invalid(n, base, next, q);
                                assert(false);
                            }
                        }
                    };
                }
            }
            next += 1;
        }
        proof {
            assert forall|q: Seq<usize>| #[trigger]
                complete_path(n, q) && tour_weight(m@, q) < b.distance() && covers(init, q)
                implies covers(stack@, q) by {
                if !covers(stack@, q) {
                    assert(is_prefix_of(base, q) && q[base.len() as int] >= n_exec);
                    assert(q[base.len() as int] < n);
                    assert(false);
                }
            };
            assert(n * powc < (n + 1) * powc) by (nonlinear_arith)
                requires powc >= 1,
            ;
            assert(search_work(n, stack@) < search_work(n, init));
            lemma_search_work_nonneg(n, stack@);
        }
    }
}

/// One worker's whole run: depth-first branch-and-bound until its own
/// stack is exhausted.  Afterwards no tour that the stack accounted for
/// is cheaper than the final bound.
pub fn dfs_worker(m: &Matrix, stack: Vec<Vec<usize>>, b: &mut BoundTracker)
    requires
        m.wf(),
        old(b).wf(m@, m.n()),
        all_partial(m.n(), stack@),
    ensures
        final(b).wf(m@, m.n()),
        final(b).distance() <= old(b).distance(),
        forall|q: Seq<usize>| #[trigger]
            complete_path(m.n(), q) && covers(stack@, q) ==> tour_weight(m@, q)
                >= final(b).distance(),
{
    let ghost n = m.n();
    let ghost init = stack@;
    let mut st = stack;
    proof {
        lemma_search_work_nonneg(n, st@);
    }
    while st.len() > 0
        invariant
            m.wf(),
            n == m.n(),
            b.wf(m@, n),
            b.distance() <= old(b).distance(),
            all_partial(n, st@),
            search_work(n, st@) >= 0,
            forall|q: Seq<usize>| #[trigger]
                complete_path(n, q) && covers(init, q) ==> covers(st@, q) || tour_weight(
                    m@,
                    q,
                ) >= b.distance(),
        decreases search_work(n, st@),
    {
        let ghost b_pre = *b;
        let ghost st_pre = st@;
        dfs_step(m, &mut st, b);
        proof {
            assert forall|q: Seq<usize>| #[trigger]
                complete_path(n, q) && covers(init, q) implies covers(st@, q) || tour_weight(
                m@,
                q,
            ) >= b.distance() by {
                if covers(st_pre, q) {
                    if tour_weight(m@, q) < b.distance() {
                        assert(covers(st@, q));
                    }
                } else {
                    assert(tour_weight(m@, q) >= b_pre.distance());
                }
            };
        }
    }
    proof {
        assert forall|q: Seq<usize>| #[trigger]
            complete_path(n, q) && covers(init, q) implies tour_weight(m@, q) >= b.distance() by {
            assert(st@.len() == 0);
            assert(!covers(st@, q));
        };
    }
}

} // verus!

