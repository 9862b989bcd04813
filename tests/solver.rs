use l10nregistry::parallel::ParallelProblemSolver;
use l10nregistry::serial::{SerialProblemSolver, SyncTester};
use l10nregistry::solution::Solution;
use l10nregistry::testing::get_scenarios;
use std::cell::Cell;

struct MatrixTester {
    values: Vec<Vec<bool>>,
    calls: Cell<usize>,
}

impl MatrixTester {
    fn new(values: Vec<Vec<bool>>) -> Self {
        MatrixTester { values, calls: Cell::new(0) }
    }
}

impl SyncTester for MatrixTester {
    fn test_sync(&self, res_idx: usize, source_idx: usize) -> bool {
        self.calls.set(self.calls.get() + 1);
        self.values[res_idx][source_idx]
    }
}

fn matrix(rows: &[&str]) -> Vec<Vec<bool>> {
    rows.iter().map(|r| r.chars().map(|c| c == 'x').collect()).collect()
}

fn serial_all(values: &Vec<Vec<bool>>, width: usize, depth: usize) -> Vec<Vec<usize>> {
    let tester = |r: usize, s: usize| values[r][s];
    let mut solver = SerialProblemSolver::new(width, depth);
    let mut out = vec![];
    while let Some(c) = solver.next(&tester) {
        out.push(c);
        assert!(out.len() <= 1000);
    }
    assert!(solver.next(&tester).is_none());
    out
}

fn parallel_all(values: &Vec<Vec<bool>>, width: usize, depth: usize) -> Vec<Vec<usize>> {
    let mut solver = ParallelProblemSolver::new(width, depth);
    let mut out = vec![];
    while let Some(query) = solver.try_generate_test_query() {
        let results: Vec<bool> = query.iter().map(|&(r, s)| values[r][s]).collect();
        if let Some(c) = solver.apply_test_result(&results) {
            out.push(c);
        }
        assert!(out.len() <= 1000);
    }
    assert!(solver.try_generate_test_query().is_none());
    out
}

fn brute_force(values: &Vec<Vec<bool>>, width: usize, depth: usize) -> Vec<Vec<usize>> {
    let mut out = vec![];
    if width == 0 || depth == 0 {
        return out;
    }
    let mut c = vec![0usize; width];
    loop {
        if (0..width).all(|r| values[r][c[r]]) {
            out.push(c.clone());
        }
        let mut i = width;
        loop {
            if i == 0 {
                return out;
            }
            i -= 1;
            if c[i] + 1 < depth {
                c[i] += 1;
                for j in i + 1..width {
                    c[j] = 0;
                }
                break;
            }
        }
    }
}

fn check_both(rows: &[&str], depth: usize, expected: Vec<Vec<usize>>) {
    let values = matrix(rows);
    let width = rows.len();
    let serial = serial_all(&values, width, depth);
    let parallel = parallel_all(&values, width, depth);
    assert_eq!(serial, expected);
    assert_eq!(parallel, expected);
}

#[test]
fn problem_solver() {
    let keys = vec!["key1.ftl", "key2.ftl"];
    let sources = vec!["source1", "source2"];
    let solver = SerialProblemSolver::new(keys.len(), sources.len());
    assert_eq!(solver.solution.width, 2);
    assert_eq!(solver.solution.depth, 2);
}

#[test]
fn one_res_two_sources() {
    check_both(&["xx"], 2, vec![vec![0], vec![1]]);
}

#[test]
fn small_all_present() {
    check_both(
        &["xx", "xx", "xx"],
        2,
        vec![
            vec![0, 0, 0],
            vec![0, 0, 1],
            vec![0, 1, 0],
            vec![0, 1, 1],
            vec![1, 0, 0],
            vec![1, 0, 1],
            vec![1, 1, 0],
            vec![1, 1, 1],
        ],
    );
}

#[test]
fn incomplete() {
    check_both(&["x.", ".x", "xx"], 2, vec![vec![0, 1, 0], vec![0, 1, 1]]);
}

#[test]
fn dead_search() {
    check_both(&["..", "xx"], 2, vec![]);
}

#[test]
fn tie_break_priority() {
    check_both(&["xxx"], 3, vec![vec![0], vec![1], vec![2]]);
}

#[test]
fn late_discovered_miss() {
    check_both(
        &["xx", "xx", ".x"],
        2,
        vec![vec![0, 0, 1], vec![0, 1, 1], vec![1, 0, 1], vec![1, 1, 1]],
    );
}

#[test]
fn empty_inputs_yield_nothing() {
    assert!(serial_all(&vec![], 0, 2).is_empty());
    assert!(parallel_all(&vec![], 0, 2).is_empty());
    let rows = vec![vec![], vec![]];
    assert!(serial_all(&rows, 2, 0).is_empty());
    assert!(parallel_all(&rows, 2, 0).is_empty());
}

#[test]
fn backtrack_past_known_missing_cell() {
    // Resource 1 is missing from source 0 and source 2; the search has to
    // go back to resource 0 after source 2 of resource 1 turns out missing.
    check_both(
        &["xxx", ".x.", "xxx"],
        3,
        brute_force(&matrix(&["xxx", ".x.", "xxx"]), 3, 3),
    );
    let values = matrix(&["xxx", ".x.", "xxx"]);
    assert_eq!(parallel_all(&values, 3, 3).len(), 9);
}

#[test]
fn solvers_agree_with_brute_force() {
    // Every matrix of 3 resources and 2 sources, and a sample of 3 by 3.
    for bits in 0u32..64 {
        let values: Vec<Vec<bool>> =
            (0..3).map(|r| (0..2).map(|s| bits & (1 << (r * 2 + s)) != 0).collect()).collect();
        let expected = brute_force(&values, 3, 2);
        assert_eq!(serial_all(&values, 3, 2), expected);
        assert_eq!(parallel_all(&values, 3, 2), expected);
    }
    for seed in 0u32..200 {
        let mut x = seed.wrapping_mul(2654435761).wrapping_add(12345);
        let mut values = vec![vec![false; 3]; 4];
        for r in 0..4 {
            for s in 0..3 {
                x ^= x << 13;
                x ^= x >> 17;
                x ^= x << 5;
                values[r][s] = x % 3 != 0;
            }
        }
        let expected = brute_force(&values, 4, 3);
        assert_eq!(serial_all(&values, 4, 3), expected);
        assert_eq!(parallel_all(&values, 4, 3), expected);
    }
}

#[test]
fn emitted_candidates_increase_and_are_valid() {
    let values = matrix(&["x.x", "xxx", ".xx"]);
    let out = serial_all(&values, 3, 3);
    for w in out.windows(2) {
        assert!(w[0] < w[1]);
    }
    for c in &out {
        for (r, &s) in c.iter().enumerate() {
            assert!(values[r][s]);
        }
    }
    assert_eq!(out.first(), Some(&vec![0, 0, 1]));
}

#[test]
fn serial_tests_each_cell_at_most_once() {
    let values = matrix(&["xx", "xx", ".x"]);
    let tester = MatrixTester::new(values);
    let mut solver = SerialProblemSolver::new(3, 2);
    let mut out = vec![];
    while let Some(c) = solver.next_with(&tester) {
        out.push(c);
    }
    assert_eq!(out, vec![vec![0, 0, 1], vec![0, 1, 1], vec![1, 0, 1], vec![1, 1, 1]]);
    assert!(tester.calls.get() <= 6);
}

#[test]
fn missing_cell_is_never_chosen_again() {
    let values = matrix(&["xx", ".x", "xx"]);
    let tester = |r: usize, s: usize| values[r][s];
    let mut solver = SerialProblemSolver::new(3, 2);
    let first = solver.next(&tester).unwrap();
    assert_eq!(first, vec![0, 1, 0]);
    assert_eq!(solver.solution.get_cell(1, 0), Some(false));
    while let Some(c) = solver.next(&tester) {
        assert_ne!(c[1], 0);
    }
}

#[test]
fn parallel_batches_untested_cells() {
    let mut solver = ParallelProblemSolver::new(3, 2);
    let q = solver.try_generate_test_query().unwrap();
    assert_eq!(q, vec![(0, 0), (1, 0), (2, 0)]);
    assert_eq!(solver.apply_test_result(&vec![true, false, true]), None);
    let q = solver.try_generate_test_query().unwrap();
    assert_eq!(q, vec![(1, 1)]);
    assert_eq!(solver.apply_test_result(&vec![true]), Some(vec![0, 1, 0]));
}

#[test]
fn solution_steps() {
    let mut s = Solution::new(2, 3);
    assert_eq!(s.candidate, vec![0, 0]);
    assert!(!s.is_complete());
    assert_eq!(s.get_cell(0, 0), None);
    assert!(s.try_advance_resource());
    assert_eq!(s.idx, 1);
    // At the last resource, but its cell is not tested yet.
    assert!(!s.is_complete());
    s.record(1, 0, true);
    assert!(s.is_complete());
    assert!(!s.try_advance_resource());
    s.record(1, 1, false);
    // A plain step: the next source, known missing or not.
    assert!(s.try_advance_source());
    assert_eq!(s.candidate, vec![0, 1]);
    assert!(s.try_advance_source());
    assert_eq!(s.candidate, vec![0, 2]);
    assert!(!s.try_advance_source());
    assert_eq!(s.candidate, vec![0, 2]);
    assert!(s.bail());
    assert_eq!(s.idx, 0);
    assert_eq!(s.candidate, vec![1, 0]);
    s.candidate = vec![2, 2];
    assert!(s.prune());
    assert_eq!(s.candidate, vec![2, 0]);
    assert_eq!(s.missing_resources(), Vec::<usize>::new());

    let mut t = Solution::new(3, 2);
    t.record(2, 0, false);
    t.record(2, 1, false);
    assert!(!t.prune());
    assert_eq!(t.missing_resources(), vec![2]);
}

#[test]
fn backtrack_resets_later_entries() {
    let mut s = Solution::new(3, 2);
    s.candidate = vec![0, 1, 1];
    s.idx = 2;
    assert!(s.try_backtrack());
    assert_eq!(s.idx, 0);
    assert_eq!(s.candidate, vec![1, 0, 0]);
    s.candidate = vec![1, 1, 1];
    s.idx = 2;
    assert!(!s.try_backtrack());
}

#[test]
fn generate_complete_candidate_skips_known_missing() {
    let mut s = Solution::new(3, 2);
    s.record(1, 0, false);
    assert!(s.try_generate_complete_candidate());
    assert_eq!(s.idx, 2);
    assert_eq!(s.candidate, vec![0, 1, 0]);
}

#[test]
fn scenario_solutions_match() {
    for scenario in get_scenarios() {
        let fetcher = scenario.get_fetcher();
        let reg = scenario.get_l10nregistry().unwrap();
        let width = scenario.res_ids.len();
        let depth = reg.len();
        let values: Vec<Vec<bool>> = scenario
            .res_ids
            .iter()
            .map(|res| {
                (0..depth)
                    .map(|s| {
                        let path = reg.source_idx(s).get_path("en-US", res);
                        fetcher.lookup(&path).is_some()
                    })
                    .collect()
            })
            .collect();
        let serial = serial_all(&values, width, depth);
        let parallel = parallel_all(&values, width, depth);
        assert_eq!(serial, parallel, "scenario: {}", scenario.name);
        if let Some(solutions) = &scenario.solutions {
            // The scenarios list sources in registration order; solver
            // index 0 is the source registered last. In solver indices the
            // candidates come out in lexicographic order.
            let mut expected: Vec<Vec<usize>> = solutions
                .iter()
                .map(|c| c.iter().map(|&s| depth - 1 - s).collect())
                .collect();
            expected.sort();
            assert_eq!(serial, expected, "scenario: {}", scenario.name);
            for c in &expected {
                assert_eq!(c.len(), width);
            }
        }
    }
}
