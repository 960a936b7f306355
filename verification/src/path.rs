//! Paths over a set of nodes and their accumulated edge weight.

use vstd::prelude::*;
use vstd::arithmetic::power::pow;
use vstd::arithmetic::power::lemma_pow_positive;

verus! {

/// A path is a sequence of node indices below `n` with no repeated index.
pub open spec fn valid_path(n: int, p: Seq<usize>) -> bool {
    &&& forall|i: int| 0 <= i < p.len() ==> (#[trigger] p[i]) < n
    &&& forall|i: int, j: int| 0 <= i < j < p.len() ==> p[i] != p[j]
}

/// A partial path: valid and no longer than the node count.
pub open spec fn partial_path(n: int, p: Seq<usize>) -> bool {
    valid_path(n, p) && p.len() <= n
}

/// A complete path visits every node exactly once.
pub open spec fn complete_path(n: int, p: Seq<usize>) -> bool {
    valid_path(n, p) && p.len() == n
}

/// Sum of the edge weights of consecutive index pairs of `p`.
pub open spec fn path_weight(m: Seq<Seq<u32>>, p: Seq<usize>) -> int
    decreases p.len(),
{
    if p.len() <= 1 {
        0
    } else {
        path_weight(m, p.drop_last()) + (m[p[p.len() - 2] as int][p[p.len() - 1] as int] as int)
    }
}

/// Weight of the full cycle: the path weight plus the closing edge back to
/// the start node.
pub open spec fn tour_weight(m: Seq<Seq<u32>>, p: Seq<usize>) -> int {
    path_weight(m, p) + (m[p.last() as int][p[0] as int] as int)
}

pub proof fn lemma_path_weight_nonneg(m: Seq<Seq<u32>>, p: Seq<usize>)
    ensures
        path_weight(m, p) >= 0,
    decreases p.len(),
{
    if p.len() > 1 {
        lemma_path_weight_nonneg(m, p.drop_last());
    }
}

/// The path weight never exceeds one maximal edge per step.
pub proof fn lemma_path_weight_bound(m: Seq<Seq<u32>>, p: Seq<usize>)
    requires
        p.len() >= 1,
    ensures
        path_weight(m, p) <= (p.len() - 1) * (u32::MAX as int),
    decreases p.len(),
{
    if p.len() == 1 {
    } else {
        lemma_path_weight_bound(m, p.drop_last());
        let k = p.len() - 2;
        assert((k + 1) * (u32::MAX as int) == k * (u32::MAX as int) + (u32::MAX as int))
            by (nonlinear_arith);
    }
}

/// Extending a path adds exactly the weight of the new last edge.
pub proof fn lemma_path_weight_push(m: Seq<Seq<u32>>, p: Seq<usize>, x: usize)
    ensures
        p.len() == 0 ==> path_weight(m, p.push(x)) == 0,
        p.len() >= 1 ==> path_weight(m, p.push(x)) == path_weight(m, p) + (
        m[p.last() as int][x as int] as int),
{
    let q = p.push(x);
    if p.len() == 0 {
        assert(q.len() == 1);
    } else {
        assert(q.drop_last() =~= p);
        assert(q[q.len() - 2] == p.last());
        assert(q[q.len() - 1] == x);
    }
}

/// `p` is an initial segment of `q`.
pub open spec fn is_prefix_of(p: Seq<usize>, q: Seq<usize>) -> bool {
    p.len() <= q.len() && p == q.take(p.len() as int)
}

/// Weights are non-negative, so a prefix never weighs more than the whole.
pub proof fn lemma_path_weight_prefix(m: Seq<Seq<u32>>, p: Seq<usize>, q: Seq<usize>)
    requires
        is_prefix_of(p, q),
    ensures
        path_weight(m, p) <= path_weight(m, q),
    decreases q.len(),
{
    if p.len() == q.len() {
        assert(q.take(p.len() as int) =~= q);
    } else if q.len() <= 1 {
    } else {
        let q1 = q.drop_last();
        assert(q1.take(p.len() as int) =~= q.take(p.len() as int));
        lemma_path_weight_prefix(m, p, q1);
        assert(path_weight(m, q) == path_weight(m, q1) + (
        m[q[q.len() - 2] as int][q[q.len() - 1] as int] as int));
    }
}

/// The closing edge is non-negative, so a tour weighs at least its path.
pub proof fn lemma_tour_ge_path(m: Seq<Seq<u32>>, q: Seq<usize>)
    ensures
        tour_weight(m, q) >= path_weight(m, q),
{
}

/// Some entry of `fr` is a prefix of `q`.
pub open spec fn covers(fr: Seq<Vec<usize>>, q: Seq<usize>) -> bool {
    exists|k: int| 0 <= k < fr.len() && is_prefix_of((#[trigger] fr[k])@, q)
}

/// Coverage survives appending entries at the end of the collection.
pub proof fn lemma_covers_extend(s: Seq<Vec<usize>>, t: Seq<Vec<usize>>, q: Seq<usize>)
    requires
        covers(s, q),
        s.len() <= t.len(),
        forall|k: int| 0 <= k < s.len() ==> (#[trigger] t[k])@ == s[k]@,
    ensures
        covers(t, q),
{
    let k = choose|k: int| 0 <= k < s.len() && is_prefix_of((#[trigger] s[k])@, q);
    assert(is_prefix_of(t[k]@, q));
}

/// If `q` continues `base` with exactly `next`, the one-node extension is
/// again a prefix of `q`.
pub proof fn lemma_prefix_extends(base: Seq<usize>, next: usize, q: Seq<usize>)
    requires
        is_prefix_of(base, q),
        base.len() < q.len(),
        q[base.len() as int] == next,
    ensures
        is_prefix_of(base.push(next), q),
{
    assert(base.push(next) =~= q.take(base.len() as int + 1));
}

/// A pruned extension hides no cheaper tour: any tour that the pruned
/// path is a prefix of weighs at least that path.
pub proof fn lemma_pruned_tour_at_least(m: Seq<Seq<u32>>, np: Seq<usize>, q: Seq<usize>)
    requires
        is_prefix_of(np, q),
    ensures
        tour_weight(m, q) >= path_weight(m, np),
{
    lemma_path_weight_prefix(m, np, q);
    lemma_tour_ge_path(m, q);
}

/// No valid path continues `base` with a node `base` already visits.
pub proof fn lemma_revisit_invalid(n: int, base: Seq<usize>, next: usize, q: Seq<usize>)
    requires
        base.contains(next),
        is_prefix_of(base, q),
        base.len() < q.len(),
        q[base.len() as int] == next,
    ensures
        !valid_path(n, q),
{
    let i0 = choose|i0: int| 0 <= i0 < base.len() && base[i0] == next;
    assert(q[i0] == base[i0]) by {
        assert(base == q.take(base.len() as int));
    };
    assert(q[i0] == q[base.len() as int]);
}

/// A path shorter than `n` leaves some node below `n` unvisited.
pub proof fn lemma_unvisited_node_exists(n: int, p: Seq<usize>)
    requires
        valid_path(n, p),
        p.len() < n,
        n <= u32::MAX,
    ensures
        exists|x: usize| (x as int) < n && !p.contains(x),
{
    if !(exists|x: usize| (x as int) < n && !p.contains(x)) {
        let q = p.map_values(|v: usize| v as int);
        let r = vstd::set_lib::set_int_range(0, n);
        vstd::set_lib::lemma_int_range(0, n);
        assert forall|i: int| r.contains(i) implies q.to_set().contains(i) by {
            assert(((i as usize) as int) < n && p.contains(i as usize));
            let k = choose|k: int| 0 <= k < p.len() && p[k] == i as usize;
            assert(q[k] == i);
            assert(q.contains(i));
        };
        q.lemma_cardinality_of_set();
        vstd::set_lib::lemma_len_subset(r, q.to_set());
        assert(n <= q.to_set().len() <= q.len());
        assert(q.len() == p.len());
        assert(false);
    }
}

/// How many further nodes a partial path can still take.
pub open spec fn expansion_room(n: int, p: Seq<usize>) -> nat {
    if p.len() <= n {
        (n - p.len()) as nat
    } else {
        0
    }
}

/// Termination potential of one partial path: an upper bound on the size
/// of the expansion tree below it.
pub open spec fn path_work(n: int, p: Seq<usize>) -> int {
    pow(n + 1, expansion_room(n, p))
}

/// Termination potential of a whole work collection.
pub open spec fn search_work(n: int, fr: Seq<Vec<usize>>) -> int
    decreases fr.len(),
{
    if fr.len() == 0 {
        0
    } else {
        path_work(n, fr[0]@) + search_work(n, fr.skip(1))
    }
}

pub proof fn lemma_path_work_pos(n: int, p: Seq<usize>)
    requires
        n >= 0,
    ensures
        path_work(n, p) >= 1,
{
    lemma_pow_positive(n + 1, expansion_room(n, p));
}

pub proof fn lemma_search_work_nonneg(n: int, fr: Seq<Vec<usize>>)
    requires
        n >= 0,
    ensures
        search_work(n, fr) >= 0,
    decreases fr.len(),
{
    if fr.len() > 0 {
        lemma_path_work_pos(n, fr[0]@);
        lemma_search_work_nonneg(n, fr.skip(1));
    }
}

/// Appending one path adds exactly its own potential.
pub proof fn lemma_search_work_push(n: int, fr: Seq<Vec<usize>>, e: Vec<usize>)
    ensures
        search_work(n, fr.push(e)) == search_work(n, fr) + path_work(n, e@),
    decreases fr.len(),
{
    assert(fr.push(e).len() == fr.len() + 1);
    assert(search_work(n, fr.push(e)) == path_work(n, fr.push(e)[0]@) + search_work(
        n,
        fr.push(e).skip(1),
    ));
    if fr.len() == 0 {
        assert(fr.push(e)[0] == e);
        assert(fr.push(e).skip(1) =~= Seq::<Vec<usize>>::empty());
        assert(search_work(n, fr.push(e).skip(1)) == 0);
    } else {
        assert(fr.push(e)[0] == fr[0]);
        assert(fr.push(e).skip(1) =~= fr.skip(1).push(e));
        lemma_search_work_push(n, fr.skip(1), e);
        assert(search_work(n, fr) == path_work(n, fr[0]@) + search_work(n, fr.skip(1)));
    }
}

/// Copies a path; the copy holds the same indices.
pub fn clone_path(p: &Vec<usize>) -> (r: Vec<usize>)
    ensures
        r@ == p@,
{
    let r = p.clone();
    proof {
        assert(r@ =~= p@);
    }
    r
}

/// Whether `x` already occurs in `p`.
pub fn contains_node(p: &Vec<usize>, x: usize) -> (r: bool)
    ensures
        r == p@.contains(x),
{
    let mut i: usize = 0;
    while i < p.len()
        invariant
            i <= p@.len(),
            forall|k: int| 0 <= k < i ==> p@[k] != x,
        decreases p@.len() - i,
    {
        if p[i] == x {
            return true;
        }
        i += 1;
    }
    false
}

} // verus!
