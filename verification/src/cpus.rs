//! Worker-count selection from the host's core count.

use vstd::prelude::*;
use crate::matrix::Matrix;
use crate::solve::{solve, TspOutcome, QUEUE_LIMIT, is_closed_tour, optimal_value};

verus! {

/// Relies on num_cpus::get: the number of logical CPUs available to this
/// process, documented to be at least 1.
#[verifier::external_body]
fn logical_cpus() -> (r: usize)
    ensures
        1 <= r,
{
    num_cpus::get()
}

/// A worker count for this host: its logical CPU count.
pub fn available_workers() -> (r: usize)
    ensures
        1 <= r,
{
    logical_cpus()
}

/// Solves the matrix with one worker stack per logical CPU of the host.
pub fn solve_on_host(m: &Matrix) -> (r: TspOutcome)
    requires
        m.wf(),
    ensures
        m.n() > QUEUE_LIMIT ==> r is NoSolution,
        m.n() <= QUEUE_LIMIT ==> match r {
            TspOutcome::Cycle { path, distance } => is_closed_tour(
                m@,
                m.n(),
                path@,
                distance as int,
            ) && optimal_value(m@, m.n(), distance as int),
            TspOutcome::NoSolution => false,
        },
{
    let workers = available_workers();
    solve(m, workers)
}

} // verus!
