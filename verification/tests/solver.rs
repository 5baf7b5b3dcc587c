use algx::node::NodeId;
use algx::Solver;

/// Pulls every solution out of a solver.
fn collect_all(solver: &mut Solver) -> Vec<Vec<usize>> {
    let mut out = Vec::new();
    while let Some(solution) = solver.next() {
        out.push(solution);
    }
    out
}

/// The solution set, each solution sorted, the whole list sorted, so streams
/// can be compared regardless of enumeration order.
fn normalized(solutions: &[Vec<usize>]) -> Vec<Vec<usize>> {
    let mut out: Vec<Vec<usize>> = solutions.to_vec();
    for s in out.iter_mut() {
        s.sort_unstable();
    }
    out.sort();
    out
}

#[test]
fn test_basic_solve() {
    // [x, x, -, -]
    // [x, -, x, -]
    // [-, x, -, x]
    // [-, -, x, x]
    // [x, x, x, -]
    // [-, x, x, x]
    let mut solver = Solver::new(
        vec![
            vec![0, 1],
            vec![0, 2],
            vec![1, 3],
            vec![2, 3],
            vec![0, 1, 2],
            vec![1, 2, 3],
        ],
        vec![0, 2],
    );

    let solutions = collect_all(&mut solver);

    assert_eq!(vec![vec![2]], solutions);
}

#[test]
fn trivial_no_rows() {
    let mut solver = Solver::new(vec![], vec![]);
    assert!(solver.is_completed());
    assert_eq!(collect_all(&mut solver), Vec::<Vec<usize>>::new());
}

#[test]
fn only_empty_rows() {
    let mut solver = Solver::new(vec![vec![], vec![], vec![]], vec![]);
    assert!(solver.is_completed());
    assert_eq!(collect_all(&mut solver), Vec::<Vec<usize>>::new());
}

#[test]
fn single_row_covers_universe() {
    let mut solver = Solver::new(vec![vec![0, 1, 2]], vec![]);
    let solutions = collect_all(&mut solver);
    assert_eq!(solutions, vec![vec![0]]);
}

#[test]
fn several_disjoint_covers() {
    let mut solver = Solver::new(
        vec![
            vec![0, 1],
            vec![2, 3],
            vec![0, 1, 2, 3],
            vec![0, 2],
            vec![1, 3],
        ],
        vec![],
    );
    let solutions = collect_all(&mut solver);
    let expected: Vec<Vec<usize>> = vec![vec![0, 1], vec![2], vec![3, 4]];
    assert_eq!(normalized(&solutions), expected);
}

#[test]
fn shared_column_two_covers() {
    // Both rows cover column 0; each alone is an exact cover.
    let mut solver = Solver::new(vec![vec![0], vec![0]], vec![]);
    let solutions = collect_all(&mut solver);
    assert_eq!(normalized(&solutions), vec![vec![0], vec![1]]);
}

#[test]
fn duplicate_rows_each_cover() {
    let mut solver = Solver::new(vec![vec![0, 1], vec![0, 1]], vec![]);
    let solutions = collect_all(&mut solver);
    assert_eq!(normalized(&solutions), vec![vec![0], vec![1]]);
}

#[test]
fn column_unreachable_from_first_row() {
    // Row 0 covers only column 0, leaving column 1 uncovered; row 1 is the
    // unique exact cover.
    let mut solver = Solver::new(vec![vec![0], vec![0, 1]], vec![]);
    let solutions = collect_all(&mut solver);
    assert_eq!(normalized(&solutions), vec![vec![1]]);
}

#[test]
fn step_reports_solution_and_partial() {
    let mut solver = Solver::new(vec![vec![0, 1, 2]], vec![]);
    assert!(!solver.is_completed());
    assert!(solver.partial_solution().is_empty());

    let mut found = None;
    while !solver.is_completed() {
        if let Some(solution) = solver.step() {
            found = Some(solution.clone());
            // The reported solution is the partial solution of that moment.
            assert_eq!(solver.partial_solution(), solution.as_slice());
            break;
        }
    }
    assert_eq!(found, Some(vec![0]));
}

#[test]
fn forced_column_fixes_topmost_row() {
    // Forcing column 0 covers it through its first data node (row 0), which
    // also removes row 1; only row 2 remains for column 1.
    let mut solver = Solver::new(vec![vec![0], vec![0, 1], vec![1]], vec![0]);
    let solutions = collect_all(&mut solver);
    assert_eq!(solutions, vec![vec![2]]);
}

#[test]
fn node_handles() {
    let id = NodeId::new(3);
    assert!(id.is_valid());
    assert_eq!(id.value(), 3);
    assert_eq!(id, NodeId::new(3));

    let bad = NodeId::invalid();
    assert!(!bad.is_valid());
    assert_eq!(NodeId::default(), bad);
    assert_ne!(id, bad);
}

fn sudoku_rows() -> Vec<Vec<usize>> {
    let mut rows = Vec::new();
    for y in 0..9 {
        for x in 0..9 {
            for num in 0..9 {
                rows.push(vec![
                    y * 9 + x,
                    (9 * 9) + (x * 9) + num,
                    (9 * 9) * 2 + (y * 9) + num,
                    (9 * 9) * 3 + (((y / 3) * 3 + (x / 3)) * 9 + num),
                ]);
            }
        }
    }
    rows
}

#[test]
fn sudoku_first_solution_is_a_grid() {
    let mut solver = Solver::new(sudoku_rows(), vec![]);
    let solution = solver.next().expect("the empty sudoku grid has completions");

    // 81 placements covering all 324 constraints exactly once.
    assert_eq!(solution.len(), 81);
    let mut covered = [0usize; 324];
    for &row_idx in &solution {
        let num = row_idx % 9;
        let y = (row_idx / 81) % 9;
        let x = (row_idx / 9) % 9;
        for col in [
            y * 9 + x,
            81 + x * 9 + num,
            162 + y * 9 + num,
            243 + ((y / 3) * 3 + x / 3) * 9 + num,
        ] {
            covered[col] += 1;
        }
    }
    assert!(covered.iter().all(|&c| c == 1));
}
