use algx::node::NodeId;
use algx::Solver;

fn collect_all(solver: &mut Solver) -> Vec<Vec<usize>> {
    let mut out = Vec::new();
    while let Some(solution) = solver.next() {
        out.push(solution);
    }
    out
}

/// Column count of an instance: one column per index up to the largest.
fn column_count(rows: &[Vec<usize>]) -> usize {
    rows.iter().flatten().copied().max().unwrap_or_default() + 1
}

/// True when the chosen rows cover every column of the universe exactly once.
fn is_exact_cover(rows: &[Vec<usize>], chosen: &[usize]) -> bool {
    let mut covered = vec![0usize; column_count(rows)];
    for &r in chosen {
        for &c in &rows[r] {
            covered[c] += 1;
        }
    }
    covered.iter().all(|&c| c == 1)
}

/// Every exact cover of the instance, by brute force over all row subsets.
fn brute_force_covers(rows: &[Vec<usize>]) -> Vec<Vec<usize>> {
    let mut out = Vec::new();
    for mask in 0u32..(1u32 << rows.len()) {
        let chosen: Vec<usize> = (0..rows.len()).filter(|i| mask & (1 << i) != 0).collect();
        if is_exact_cover(rows, &chosen) {
            out.push(chosen);
        }
    }
    out.sort();
    out
}

fn small_instances() -> Vec<Vec<Vec<usize>>> {
    vec![
        vec![vec![0, 1, 2]],
        vec![vec![0], vec![0]],
        vec![vec![0], vec![0, 1]],
        vec![vec![0, 1], vec![2, 3], vec![0, 1, 2, 3], vec![0, 2], vec![1, 3]],
        vec![
            vec![0, 3, 6],
            vec![0, 3],
            vec![3, 4, 6],
            vec![2, 4, 5],
            vec![1, 2, 5, 6],
            vec![1, 6],
            vec![0, 2, 4, 5],
            vec![1, 3],
        ],
        vec![vec![0, 2], vec![1, 2], vec![0, 1]],
    ]
}

/// Soundness: with no forced columns, every emitted solution is an exact
/// cover: each column of the universe is covered exactly once.
#[test]
fn soundness_every_emission_is_an_exact_cover() {
    for rows in small_instances() {
        let mut solver = Solver::new(rows.clone(), vec![]);
        for solution in collect_all(&mut solver) {
            assert!(is_exact_cover(&rows, &solution), "unsound on {rows:?}: {solution:?}");
        }
    }
}

/// Completeness: with no forced columns, the set of emitted solutions equals
/// the set of all exact covers.
#[test]
fn completeness_against_brute_force() {
    for rows in small_instances() {
        let mut solver = Solver::new(rows.clone(), vec![]);
        let mut emitted: Vec<Vec<usize>> = collect_all(&mut solver);
        for s in emitted.iter_mut() {
            s.sort_unstable();
        }
        emitted.sort();
        assert_eq!(emitted, brute_force_covers(&rows), "incomplete on {rows:?}");
    }
}

/// Reversibility: on an exhausted solver built without forced columns, a
/// cover of any single node followed by an uncover of the same node leaves
/// the solver bit-identical.
#[test]
fn reversibility_cover_then_uncover() {
    for rows in small_instances() {
        let n_rows = rows.len();
        let mut solver = Solver::new(rows, vec![]);
        collect_all(&mut solver);
        assert!(solver.is_completed(), "instance of {n_rows} rows not exhausted");

        for id in 0..solver.node_count() {
            let snapshot = solver.clone();
            solver.cover(NodeId::new(id));
            solver.uncover(NodeId::new(id));
            assert_eq!(solver, snapshot, "node {id} of {n_rows}-row instance not restored");
        }
    }
}

/// Stack drain: after the stream ends, the partial solution is empty and the
/// solver reports completion.
#[test]
fn stack_drain_after_exhaustion() {
    for rows in small_instances() {
        let mut solver = Solver::new(rows, vec![]);
        collect_all(&mut solver);
        assert!(solver.is_completed());
        assert!(solver.partial_solution().is_empty());
    }
}

/// Determinism: two solvers built from identical inputs emit identical
/// streams, order included.
#[test]
fn determinism_identical_streams() {
    for rows in small_instances() {
        let mut a = Solver::new(rows.clone(), vec![]);
        let mut b = Solver::new(rows, vec![]);
        assert_eq!(collect_all(&mut a), collect_all(&mut b));
    }
    let forced_rows = vec![
        vec![0, 1],
        vec![0, 2],
        vec![1, 3],
        vec![2, 3],
        vec![0, 1, 2],
        vec![1, 2, 3],
    ];
    let mut a = Solver::new(forced_rows.clone(), vec![0, 2]);
    let mut b = Solver::new(forced_rows, vec![0, 2]);
    assert_eq!(collect_all(&mut a), collect_all(&mut b));
}

/// Idempotent enumeration: pulling after exhaustion keeps returning nothing
/// and keeps the solver unchanged.
#[test]
fn exhausted_stream_stays_exhausted() {
    let mut solver = Solver::new(vec![vec![0, 1], vec![0], vec![1]], vec![]);
    collect_all(&mut solver);
    let snapshot = solver.clone();
    for _ in 0..3 {
        assert_eq!(solver.next(), None);
        assert_eq!(solver.step(), None);
        assert_eq!(solver, snapshot);
    }
}
