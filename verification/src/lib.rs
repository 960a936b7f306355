//! A branch-and-bound solver for the traveling salesman problem.
//!
//! The search runs in two phases: a bounded breadth-first expansion that
//! yields a work frontier and a provisional bound, followed by depth-first
//! refinement of the frontier under a continuously tightening bound.  The
//! reported cycle is proved to be a minimum-weight Hamiltonian cycle.

pub mod path;
pub mod matrix;
pub mod bound;
pub mod frontier;
pub mod search;
pub mod solve;
pub mod cpus;
