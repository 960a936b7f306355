//! The distance matrix: an immutable square table of non-negative weights.

use vstd::prelude::*;
use crate::path::{valid_path, path_weight, tour_weight, lemma_path_weight_bound,
    lemma_path_weight_push};

verus! {

/// Why a table of rows was rejected as a distance matrix.
#[derive(Debug, PartialEq, Eq, Structural)]
pub enum MatrixError {
    /// The table has no rows.
    Empty,
    /// Some row's length differs from the number of rows.
    NotSquare,
    /// The table has more rows than a node index can address.
    TooLarge,
}

/// A square table of non-negative edge weights, indexed by node and
/// immutable after construction.
pub struct Matrix {
    rows: Vec<Vec<u32>>,
}

impl View for Matrix {
    type V = Seq<Seq<u32>>;

    closed spec fn view(&self) -> Seq<Seq<u32>> {
        self.rows@.map_values(|r: Vec<u32>| r@)
    }
}

impl Matrix {
    /// Number of nodes.
    pub open spec fn n(&self) -> int {
        self@.len() as int
    }

    /// The matrix is square, non-empty, and small enough that every tour
    /// weight fits a 64-bit sum.
    pub open spec fn wf(&self) -> bool {
        &&& 1 <= self@.len() <= u32::MAX
        &&& forall|i: int| 0 <= i < self@.len() ==> (#[trigger] self@[i]).len() == self@.len()
    }

    /// Validates a table of rows as a distance matrix, rejecting an empty,
    /// oversized or non-square table before any search begins.
    pub fn new(rows: Vec<Vec<u32>>) -> (r: Result<Matrix, MatrixError>)
        ensures
            rows@.len() == 0 ==> r == Err::<Matrix, MatrixError>(MatrixError::Empty),
            rows@.len() > u32::MAX ==> r == Err::<Matrix, MatrixError>(MatrixError::TooLarge),
            1 <= rows@.len() <= u32::MAX ==> match r {
                Ok(m) => m.wf() && m@ == rows@.map_values(|rw: Vec<u32>| rw@) && m.n()
                    == rows@.len(),
                Err(e) => e == MatrixError::NotSquare && exists|i: int|
                    0 <= i < rows@.len() && (#[trigger] rows@[i])@.len() != rows@.len(),
            },
    {
        let n = rows.len();
        if n == 0 {
            return Err(MatrixError::Empty);
        }
        if n > u32::MAX as usize {
            return Err(MatrixError::TooLarge);
        }
        let mut i: usize = 0;
        while i < n
            invariant
                n == rows@.len(),
                1 <= n <= u32::MAX,
                i <= n,
                forall|k: int| 0 <= k < i ==> (#[trigger] rows@[k])@.len() == n,
            decreases n - i,
        {
            if rows[i].len() != n {
                return Err(MatrixError::NotSquare);
            }
            i += 1;
        }
        let m = Matrix { rows };
        proof {
            assert(forall|k: int| 0 <= k < m@.len() ==> (#[trigger] m@[k]).len() == m@.len());
        }
        Ok(m)
    }

    /// Number of nodes.
    pub fn node_count(&self) -> (r: usize)
        ensures
            r == self.n(),
    {
        self.rows.len()
    }

    /// The weight of the directed edge from `i` to `j`.
    pub fn weight(&self, i: usize, j: usize) -> (r: u32)
        requires
            self.wf(),
            i < self.n(),
            j < self.n(),
        ensures
            r == self@[i as int][j as int],
    {
        proof {
            assert(self@[i as int] == self.rows@[i as int]@);
        }
        self.rows[i][j]
    }
}

/// Sum of the edge weights along consecutive index pairs of `path`;
/// the same computation serves partial and complete paths.
pub fn path_sum(path: &Vec<usize>, m: &Matrix) -> (r: u64)
    requires
        m.wf(),
        valid_path(m.n(), path@),
        path@.len() <= m.n(),
    ensures
        r == path_weight(m@, path@),
        path@.len() >= 1 ==> r <= (path@.len() - 1) * (u32::MAX as int),
{
    if path.len() <= 1 {
        proof {
            if path@.len() == 1 {
                lemma_path_weight_bound(m@, path@);
            }
        }
        return 0;
    }
    let ghost n = m.n();
    let mut sum: u64 = 0;
    let mut i: usize = 1;
    proof {
        assert(path@.take(1).len() == 1);
    }
    while i < path.len()
        invariant
            m.wf(),
            valid_path(n, path@),
            n == m.n(),
            path@.len() <= n,
            1 <= i <= path@.len(),
            sum == path_weight(m@, path@.take(i as int)),
            sum <= (i - 1) * (u32::MAX as int),
        decreases path@.len() - i,
    {
        let a = path[i - 1];
        let b = path[i];
        let w = m.weight(a, b);
        proof {
            let pre = path@.take(i as int);
            let post = path@.take(i + 1 as int);
            assert(post.drop_last() =~= pre);
            lemma_path_weight_push(m@, pre, path@[i as int]);
            assert(post =~= pre.push(path@[i as int]));
            assert(pre.last() == a);
            assert((i - 1) * (u32::MAX as int) + (u32::MAX as int) == i * (u32::MAX as int))
                by (nonlinear_arith);
        }
        sum = sum + (w as u64);
        i += 1;
    }
    proof {
        assert(path@.take(path@.len() as int) =~= path@);
    }
    sum
}

/// Weight of the cycle that `path` induces: its path weight plus the
/// closing edge from its last node back to its first.
pub fn tour_distance(path: &Vec<usize>, m: &Matrix) -> (r: u64)
    requires
        m.wf(),
        valid_path(m.n(), path@),
        1 <= path@.len() <= m.n(),
    ensures
        r == tour_weight(m@, path@),
        r < u64::MAX,
{
    let ps = path_sum(path, m);
    let close = m.weight(path[path.len() - 1], path[0]);
    proof {
        let len = path@.len();
        assert(ps + close <= (len - 1) * (u32::MAX as int) + (u32::MAX as int));
        assert((len - 1) * (u32::MAX as int) + (u32::MAX as int) == len * (u32::MAX as int))
            by (nonlinear_arith);
        assert(len * (u32::MAX as int) <= (u32::MAX as int) * (u32::MAX as int))
            by (nonlinear_arith)
            requires 1 <= len <= u32::MAX as int,
        ;
        assert((u32::MAX as int) * (u32::MAX as int) < u64::MAX as int) by (nonlinear_arith);
    }
    ps + (close as u64)
}

} // verus!
