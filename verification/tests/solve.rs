use tsp_bnb::matrix::{Matrix, MatrixError, path_sum, tour_distance};
use tsp_bnb::bound::BoundTracker;
use tsp_bnb::solve::{solve, solve_bounded, tsp, TspOutcome, QUEUE_LIMIT};
use tsp_bnb::cpus::{available_workers, solve_on_host};

fn square(rows: Vec<Vec<u32>>) -> Matrix {
    Matrix::new(rows).unwrap()
}

fn four_node() -> Matrix {
    square(vec![
        vec![0, 10, 15, 20],
        vec![10, 0, 35, 25],
        vec![15, 35, 0, 30],
        vec![20, 25, 30, 0],
    ])
}

fn check_cycle(path: &[usize], n: usize) {
    assert_eq!(path.len(), n + 1);
    assert_eq!(path[n], path[0]);
    let mut seen = vec![false; n];
    for &v in &path[..n] {
        assert!(v < n);
        assert!(!seen[v]);
        seen[v] = true;
    }
}

fn cycle_weight(m: &[Vec<u32>], perm: &[usize]) -> u64 {
    let mut total: u64 = 0;
    for i in 0..perm.len() {
        let a = perm[i];
        let b = perm[(i + 1) % perm.len()];
        total += m[a][b] as u64;
    }
    total
}

#[test]
fn four_node_scenario() {
    let m = four_node();
    match solve(&m, 2) {
        TspOutcome::Cycle { path, distance } => {
            assert_eq!(distance, 80);
            check_cycle(&path, 4);
        }
        TspOutcome::NoSolution => panic!("expected a cycle"),
    }
}

#[test]
fn four_node_many_workers() {
    let m = four_node();
    match tsp(&m, 8, 5) {
        TspOutcome::Cycle { path, distance } => {
            assert_eq!(distance, 80);
            check_cycle(&path, 4);
        }
        TspOutcome::NoSolution => panic!("expected a cycle"),
    }
}

#[test]
fn matches_exhaustive_enumeration() {
    let rows = vec![
        vec![0, 3, 9, 7],
        vec![8, 0, 2, 11],
        vec![5, 13, 0, 4],
        vec![6, 1, 12, 0],
    ];
    let mut best = u64::MAX;
    for a in 0..4usize {
        for b in 0..4usize {
            for c in 0..4usize {
                for d in 0..4usize {
                    let perm = [a, b, c, d];
                    let mut seen = [false; 4];
                    let mut ok = true;
                    for &v in &perm {
                        if seen[v] {
                            ok = false;
                        }
                        seen[v] = true;
                    }
                    if ok {
                        let w = cycle_weight(&rows, &perm);
                        if w < best {
                            best = w;
                        }
                    }
                }
            }
        }
    }
    let m = square(rows);
    match solve(&m, 3) {
        TspOutcome::Cycle { path, distance } => {
            assert_eq!(distance, best);
            check_cycle(&path, 4);
        }
        TspOutcome::NoSolution => panic!("expected a cycle"),
    }
}

#[test]
fn single_node_zero_cycle() {
    let m = square(vec![vec![0]]);
    match solve(&m, 1) {
        TspOutcome::Cycle { path, distance } => {
            assert_eq!(distance, 0);
            assert_eq!(path, vec![0, 0]);
        }
        TspOutcome::NoSolution => panic!("expected a cycle"),
    }
}

#[test]
fn two_nodes_symmetric_round_trip() {
    let m = square(vec![vec![0, 7], vec![7, 0]]);
    match solve(&m, 2) {
        TspOutcome::Cycle { path, distance } => {
            assert_eq!(distance, 14);
            check_cycle(&path, 2);
        }
        TspOutcome::NoSolution => panic!("expected a cycle"),
    }
}

#[test]
fn two_nodes_asymmetric_round_trip() {
    let m = square(vec![vec![0, 7], vec![5, 0]]);
    match solve(&m, 2) {
        TspOutcome::Cycle { path, distance } => {
            assert_eq!(distance, 12);
            check_cycle(&path, 2);
        }
        TspOutcome::NoSolution => panic!("expected a cycle"),
    }
}

#[test]
fn repeated_calls_agree_on_distance() {
    let m = four_node();
    let d1 = match solve(&m, 1) {
        TspOutcome::Cycle { distance, .. } => distance,
        TspOutcome::NoSolution => panic!("expected a cycle"),
    };
    let d2 = match solve(&m, 4) {
        TspOutcome::Cycle { distance, .. } => distance,
        TspOutcome::NoSolution => panic!("expected a cycle"),
    };
    assert_eq!(d1, d2);
}

#[test]
fn ceiling_below_node_count_is_no_solution() {
    let m = four_node();
    match solve_bounded(&m, 4, 2, 3) {
        TspOutcome::Cycle { .. } => panic!("expected the capacity outcome"),
        TspOutcome::NoSolution => {}
    }
}

#[test]
fn ceiling_at_node_count_still_solves() {
    let m = four_node();
    match solve_bounded(&m, 4, 2, 4) {
        TspOutcome::Cycle { distance, .. } => assert_eq!(distance, 80),
        TspOutcome::NoSolution => panic!("expected a cycle"),
    }
}

#[test]
fn default_ceiling_is_queue_limit() {
    assert_eq!(QUEUE_LIMIT, 100000);
}

#[test]
fn bound_tracker_tightens_monotonically() {
    let mut b = BoundTracker::new();
    assert_eq!(b.current_bound(), u64::MAX);
    assert!(b.try_update(50, vec![0, 1]));
    assert_eq!(b.current_bound(), 50);
    assert!(!b.try_update(50, vec![1, 0]));
    assert_eq!(b.current_bound(), 50);
    assert!(b.try_update(20, vec![0, 1]));
    assert_eq!(b.current_bound(), 20);
    assert!(!b.try_update(90, vec![1, 0]));
    assert_eq!(b.current_bound(), 20);
    let (d, p) = b.into_best();
    assert_eq!(d, 20);
    assert_eq!(p, Some(vec![0, 1]));
}

#[test]
fn empty_matrix_rejected() {
    match Matrix::new(vec![]) {
        Err(MatrixError::Empty) => {}
        _ => panic!("expected the empty-matrix error"),
    }
}

#[test]
fn ragged_matrix_rejected() {
    match Matrix::new(vec![vec![0, 1], vec![2]]) {
        Err(MatrixError::NotSquare) => {}
        _ => panic!("expected the non-square error"),
    }
}

#[test]
fn path_sum_adds_consecutive_edges() {
    let m = four_node();
    assert_eq!(path_sum(&vec![], &m), 0);
    assert_eq!(path_sum(&vec![2], &m), 0);
    assert_eq!(path_sum(&vec![0, 1], &m), 10);
    assert_eq!(path_sum(&vec![0, 1, 3], &m), 35);
    assert_eq!(path_sum(&vec![0, 1, 3, 2], &m), 65);
}

#[test]
fn tour_distance_adds_closing_edge() {
    let m = four_node();
    assert_eq!(tour_distance(&vec![0, 1, 3, 2], &m), 80);
    assert_eq!(tour_distance(&vec![0], &m), 0);
}

#[test]
fn host_worker_count_is_positive() {
    assert!(available_workers() >= 1);
}

#[test]
fn solve_on_host_finds_optimum() {
    let m = four_node();
    match solve_on_host(&m) {
        TspOutcome::Cycle { path, distance } => {
            assert_eq!(distance, 80);
            check_cycle(&path, 4);
        }
        TspOutcome::NoSolution => panic!("expected a cycle"),
    }
}

fn enumerate_tours(
    depth: usize,
    perm: &mut [usize; 5],
    used: &mut [bool; 5],
    rows: &[Vec<u32>],
    best: &mut u64,
) {
    if depth == 5 {
        let w = cycle_weight(rows, perm);
        if w < *best {
            *best = w;
        }
        return;
    }
    for v in 0..5 {
        if !used[v] {
            used[v] = true;
            perm[depth] = v;
            enumerate_tours(depth + 1, perm, used, rows, best);
            used[v] = false;
        }
    }
}

#[test]
fn five_node_asymmetric_optimum() {
    let rows = vec![
        vec![0, 2, 9, 10, 4],
        vec![1, 0, 6, 4, 7],
        vec![15, 7, 0, 8, 3],
        vec![6, 3, 12, 0, 9],
        vec![10, 4, 8, 5, 0],
    ];
    let mut best = u64::MAX;
    let mut perm = [0usize; 5];
    let mut used = [false; 5];
    enumerate_tours(0, &mut perm, &mut used, &rows, &mut best);
    let m = square(rows);
    match solve(&m, 2) {
        TspOutcome::Cycle { path, distance } => {
            assert_eq!(distance, best);
            check_cycle(&path, 5);
        }
        TspOutcome::NoSolution => panic!("expected a cycle"),
    }
}

#[test]
fn manual_phases_match_solve() {
    let m = four_node();
    let (frontier, mut bound) = tsp_bnb::frontier::bfs(&m, 4);
    let stacks = tsp_bnb::search::partition_frontier(&m, &frontier, 2);
    assert_eq!(stacks.len(), 2);
    let total: usize = stacks.iter().map(|s| s.len()).sum();
    assert_eq!(total, frontier.len());
    for mut stack in stacks {
        while !stack.is_empty() {
            tsp_bnb::search::dfs_step(&m, &mut stack, &mut bound);
        }
    }
    let (distance, best) = bound.into_best();
    assert_eq!(distance, 80);
    let path = best.expect("a best path must have been recorded");
    assert_eq!(path.len(), 4);
}

#[test]
fn dfs_worker_tightens_bound() {
    let m = four_node();
    let mut bound = tsp_bnb::bound::BoundTracker::new();
    tsp_bnb::search::dfs_worker(&m, vec![vec![0]], &mut bound);
    assert_eq!(bound.current_bound(), 80);
}

#[test]
fn partition_is_round_robin() {
    let m = four_node();
    let frontier = vec![vec![0], vec![1], vec![2], vec![3], vec![0, 1]];
    let stacks = tsp_bnb::search::partition_frontier(&m, &frontier, 2);
    assert_eq!(stacks.len(), 2);
    assert_eq!(stacks[0], vec![vec![0], vec![2], vec![0, 1]]);
    assert_eq!(stacks[1], vec![vec![1], vec![3]]);
}
