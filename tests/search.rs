use std::collections::VecDeque;

use a_star::frontier::Frontier;
use a_star::grid::{Cell, Grid, Role};
use a_star::heuristic::h;
use a_star::search::{run_search, CellEvent, Outcome, Phase, Search};

fn cell(row: usize, col: usize) -> Cell {
    Cell { row, col }
}

fn grid_with(rows: usize, cols: usize, start: Cell, goal: Cell, barriers: &[Cell]) -> Grid {
    let mut g = Grid::new(rows, cols);
    g.set_role(start, Role::Start);
    g.set_role(goal, Role::End);
    for b in barriers {
        g.set_role(*b, Role::Barrier);
    }
    g
}

/// Breadth-first distances from `from`, moving 4-directionally around barriers.
fn bfs(g: &Grid, from: Cell) -> Vec<Vec<Option<usize>>> {
    let mut dist = vec![vec![None; g.cols()]; g.rows()];
    let mut q = VecDeque::new();
    dist[from.row][from.col] = Some(0);
    q.push_back(from);
    while let Some(c) = q.pop_front() {
        let d = dist[c.row][c.col].unwrap();
        let mut next = Vec::new();
        if c.row > 0 {
            next.push(cell(c.row - 1, c.col));
        }
        if c.row + 1 < g.rows() {
            next.push(cell(c.row + 1, c.col));
        }
        if c.col > 0 {
            next.push(cell(c.row, c.col - 1));
        }
        if c.col + 1 < g.cols() {
            next.push(cell(c.row, c.col + 1));
        }
        for n in next {
            if g.role(n) != Role::Barrier && dist[n.row][n.col].is_none() {
                dist[n.row][n.col] = Some(d + 1);
                q.push_back(n);
            }
        }
    }
    dist
}

fn assert_valid_path(g: &Grid, p: &[Cell], start: Cell, goal: Cell) {
    assert_eq!(p[0], start);
    assert_eq!(*p.last().unwrap(), goal);
    for w in p.windows(2) {
        let dr = (w[0].row as i64 - w[1].row as i64).abs();
        let dc = (w[0].col as i64 - w[1].col as i64).abs();
        assert_eq!(dr + dc, 1);
        assert_ne!(g.role(w[1]), Role::Barrier);
    }
}

/// Pseudo-random barrier layouts from a fixed linear congruential sequence.
fn random_grid(seed: u64, rows: usize, cols: usize) -> (Grid, Cell, Cell) {
    let mut x = seed;
    let start = cell(0, 0);
    let goal = cell(rows - 1, cols - 1);
    let mut barriers = Vec::new();
    for r in 0..rows {
        for c in 0..cols {
            x = x.wrapping_mul(6364136223846793005).wrapping_add(1442695040888963407);
            let here = cell(r, c);
            if (x >> 33) % 100 < 28 && here != start && here != goal {
                barriers.push(here);
            }
        }
    }
    (grid_with(rows, cols, start, goal, &barriers), start, goal)
}

#[test]
fn wall_with_single_gap() {
    let wall: Vec<Cell> = (0..4).map(|r| cell(r, 2)).collect();
    let mut g = grid_with(5, 5, cell(0, 0), cell(4, 4), &wall);
    let run = run_search(&mut g, cell(0, 0), cell(4, 4));
    match run.outcome {
        Outcome::PathFound(p) => {
            assert_eq!(p.len() - 1, 8);
            assert!(p.contains(&cell(4, 2)));
            assert_valid_path(&g, &p, cell(0, 0), cell(4, 4));
            for c in &p {
                assert_eq!(g.role(*c), Role::Path);
            }
        }
        Outcome::NoPathFound => panic!("a path exists"),
    }
}

#[test]
fn adjacent_start_and_goal() {
    let mut g = grid_with(4, 4, cell(1, 1), cell(1, 2), &[]);
    let run = run_search(&mut g, cell(1, 1), cell(1, 2));
    assert_eq!(run.outcome, Outcome::PathFound(vec![cell(1, 1), cell(1, 2)]));
    let closed: Vec<Cell> = run.events.iter().filter(|e| e.new_role == Role::Closed).map(|e| e.cell).collect();
    assert_eq!(closed, vec![cell(1, 1)]);
}

#[test]
fn enclosed_start_has_no_path() {
    let ring = [cell(1, 2), cell(3, 2), cell(2, 1), cell(2, 3)];
    let mut g = grid_with(5, 5, cell(2, 2), cell(4, 4), &ring);
    let run = run_search(&mut g, cell(2, 2), cell(4, 4));
    assert_eq!(run.outcome, Outcome::NoPathFound);
    assert_eq!(run.events, vec![CellEvent { cell: cell(2, 2), new_role: Role::Closed }]);
}

#[test]
fn complete_wall_has_no_path() {
    let wall: Vec<Cell> = (0..6).map(|r| cell(r, 3)).collect();
    let mut g = grid_with(6, 7, cell(0, 0), cell(5, 6), &wall);
    let run = run_search(&mut g, cell(0, 0), cell(5, 6));
    assert_eq!(run.outcome, Outcome::NoPathFound);
    assert!(run.events.iter().all(|e| e.new_role != Role::Path));
    for r in 0..6 {
        assert_eq!(g.role(cell(r, 3)), Role::Barrier);
        for c in 4..7 {
            assert!(g.role(cell(r, c)) == Role::Empty || g.role(cell(r, c)) == Role::End);
        }
    }
}

#[test]
fn enclosed_goal_has_no_path() {
    let ring = [cell(3, 4), cell(4, 3)];
    let mut g = grid_with(5, 5, cell(0, 0), cell(4, 4), &ring);
    let run = run_search(&mut g, cell(0, 0), cell(4, 4));
    assert_eq!(run.outcome, Outcome::NoPathFound);
}

#[test]
fn start_equals_goal() {
    let mut g = Grid::new(3, 3);
    let run = run_search(&mut g, cell(1, 1), cell(1, 1));
    assert_eq!(run.outcome, Outcome::PathFound(vec![cell(1, 1)]));
}

#[test]
fn identical_grids_give_identical_runs() {
    for seed in 1..6u64 {
        let (mut g1, s, t) = random_grid(seed, 9, 11);
        let (mut g2, _, _) = random_grid(seed, 9, 11);
        let r1 = run_search(&mut g1, s, t);
        let r2 = run_search(&mut g2, s, t);
        assert_eq!(r1, r2);
        for r in 0..9 {
            for c in 0..11 {
                assert_eq!(g1.role(cell(r, c)), g2.role(cell(r, c)));
            }
        }
    }
}

#[test]
fn path_length_matches_breadth_first_search() {
    let mut found = 0;
    for seed in 1..40u64 {
        let (mut g, s, t) = random_grid(seed, 10, 12);
        let dist = bfs(&g, s);
        let run = run_search(&mut g, s, t);
        match (run.outcome, dist[t.row][t.col]) {
            (Outcome::PathFound(p), Some(d)) => {
                assert_eq!(p.len() - 1, d);
                found += 1;
            }
            (Outcome::NoPathFound, None) => {}
            _ => panic!("search and breadth-first search disagree on reachability"),
        }
    }
    assert!(found > 0);
}

#[test]
fn heuristic_never_overestimates() {
    for seed in 1..10u64 {
        let (g, _, t) = random_grid(seed, 8, 8);
        let dist = bfs(&g, t);
        for r in 0..8 {
            for c in 0..8 {
                if let Some(d) = dist[r][c] {
                    assert!(h(cell(r, c), t) <= d);
                }
            }
        }
    }
}

#[test]
fn heuristic_values() {
    assert_eq!(h(cell(0, 0), cell(4, 4)), 8);
    assert_eq!(h(cell(4, 1), cell(1, 3)), 5);
    assert_eq!(h(cell(2, 2), cell(2, 2)), 0);
}

#[test]
fn reset_twice_equals_reset_once() {
    let (mut g, s, t) = random_grid(7, 6, 6);
    run_search(&mut g, s, t);
    g.reset_all();
    let once: Vec<Role> = (0..36).map(|i| g.role(cell(i / 6, i % 6))).collect();
    g.reset_all();
    let twice: Vec<Role> = (0..36).map(|i| g.role(cell(i / 6, i % 6))).collect();
    assert_eq!(once, twice);
    assert!(twice.iter().all(|r| *r == Role::Empty));
    assert_eq!(g.start(), None);
    assert_eq!(g.end(), None);
}

#[test]
fn stepping_reaches_the_same_result() {
    let wall: Vec<Cell> = (0..4).map(|r| cell(r, 2)).collect();
    let mut g1 = grid_with(5, 5, cell(0, 0), cell(4, 4), &wall);
    let mut g2 = grid_with(5, 5, cell(0, 0), cell(4, 4), &wall);
    let run = run_search(&mut g1, cell(0, 0), cell(4, 4));
    let mut s = Search::new(&g2, cell(0, 0), cell(4, 4));
    let mut events = Vec::new();
    while s.phase() == Phase::Running {
        events.extend(s.step(&mut g2));
    }
    assert_eq!(s.phase(), Phase::Succeeded);
    let p = s.path();
    assert_eq!(run.outcome, Outcome::PathFound(p.clone()));
    let painted = run.events.len() - events.len();
    assert_eq!(painted, p.len());
    assert_eq!(&run.events[..events.len()], &events[..]);
}

#[test]
fn cancelled_search_stops_without_a_path() {
    let mut g = grid_with(5, 5, cell(0, 0), cell(4, 4), &[]);
    let mut s = Search::new(&g, cell(0, 0), cell(4, 4));
    let first = s.step(&mut g);
    assert_eq!(first[0], CellEvent { cell: cell(0, 0), new_role: Role::Closed });
    assert_eq!(s.phase(), Phase::Running);
    s.cancel();
    assert_eq!(s.phase(), Phase::Cancelled);
    for r in 0..5 {
        for c in 0..5 {
            assert_ne!(g.role(cell(r, c)), Role::Path);
        }
    }
}

#[test]
fn events_only_name_open_closed_or_path_cells() {
    let (mut g, s, t) = random_grid(11, 9, 9);
    let barriers: Vec<Cell> =
        (0..81).map(|i| cell(i / 9, i % 9)).filter(|c| g.role(*c) == Role::Barrier).collect();
    let run = run_search(&mut g, s, t);
    for e in &run.events {
        assert!(matches!(e.new_role, Role::Open | Role::Closed | Role::Path));
        assert!(!barriers.contains(&e.cell));
    }
    for b in &barriers {
        assert_eq!(g.role(*b), Role::Barrier);
    }
}

#[test]
fn frontier_tracks_its_entries() {
    let mut f = Frontier::new();
    assert!(f.is_empty());
    f.push(cell(3, 3), 2);
    assert!(f.contains(cell(3, 3)));
    assert_eq!(f.len(), 1);
    let e = f.pop_min().unwrap();
    assert_eq!((e.cell, e.f, e.seq), (cell(3, 3), 2, 0));
    assert!(!f.contains(cell(3, 3)));
}

#[test]
fn only_path_cells_end_up_path_and_bookkeeping_is_kept() {
    let wall: Vec<Cell> = (0..4).map(|r| cell(r, 2)).collect();
    let mut g = grid_with(5, 5, cell(0, 0), cell(4, 4), &wall);
    let run = run_search(&mut g, cell(0, 0), cell(4, 4));
    let p = match run.outcome {
        Outcome::PathFound(p) => p,
        Outcome::NoPathFound => panic!("a path exists"),
    };
    let tagged: Vec<Cell> =
        (0..25).map(|i| cell(i / 5, i % 5)).filter(|c| g.role(*c) == Role::Path).collect();
    assert_eq!(tagged.len(), 9);
    assert!(tagged.iter().all(|c| p.contains(c)));
    let tail: Vec<CellEvent> = run.events[run.events.len() - p.len()..].to_vec();
    let expected: Vec<CellEvent> = p.iter().map(|c| CellEvent { cell: *c, new_role: Role::Path }).collect();
    assert_eq!(tail, expected);
    assert_eq!(g.start(), Some(cell(0, 0)));
    assert_eq!(g.end(), Some(cell(4, 4)));
}

#[test]
fn barrier_start_cannot_leave() {
    let mut g = Grid::new(1, 3);
    g.set_role(cell(0, 0), Role::Barrier);
    let run = run_search(&mut g, cell(0, 0), cell(0, 2));
    assert_eq!(run.outcome, Outcome::NoPathFound);
    assert!(run.events.is_empty());
}

#[test]
fn enclosed_start_changes_no_other_cell() {
    let ring = [cell(1, 2), cell(3, 2), cell(2, 1), cell(2, 3)];
    let mut g = grid_with(5, 5, cell(2, 2), cell(4, 4), &ring);
    let before: Vec<Role> = (0..25).map(|i| g.role(cell(i / 5, i % 5))).collect();
    run_search(&mut g, cell(2, 2), cell(4, 4));
    for i in 0..25 {
        let c = cell(i / 5, i % 5);
        if c != cell(2, 2) {
            assert_eq!(g.role(c), before[i]);
        }
    }
    assert_eq!(g.role(cell(2, 2)), Role::Closed);
}
