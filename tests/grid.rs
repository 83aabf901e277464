use a_star::frontier::Frontier;
use a_star::grid::{Cell, Grid, Role};

fn cell(row: usize, col: usize) -> Cell {
    Cell { row, col }
}

#[test]
fn new_grid_is_empty() {
    let g = Grid::new(3, 4);
    assert_eq!(g.rows(), 3);
    assert_eq!(g.cols(), 4);
    for r in 0..3 {
        for c in 0..4 {
            assert_eq!(g.role(cell(r, c)), Role::Empty);
        }
    }
    assert_eq!(g.start(), None);
    assert_eq!(g.end(), None);
}

#[test]
fn neighbors_in_fixed_order() {
    let g = Grid::new(3, 3);
    assert_eq!(g.neighbors(cell(1, 1)), vec![cell(0, 1), cell(2, 1), cell(1, 0), cell(1, 2)]);
    assert_eq!(g.neighbors(cell(0, 0)), vec![cell(1, 0), cell(0, 1)]);
    assert_eq!(g.neighbors(cell(2, 2)), vec![cell(1, 2), cell(2, 1)]);
}

#[test]
fn neighbors_skip_barriers() {
    let mut g = Grid::new(3, 3);
    g.set_role(cell(0, 1), Role::Barrier);
    g.set_role(cell(1, 2), Role::Barrier);
    assert_eq!(g.neighbors(cell(1, 1)), vec![cell(2, 1), cell(1, 0)]);
    g.set_role(cell(1, 1), Role::Start);
    assert_eq!(g.neighbors(cell(1, 0)), vec![cell(0, 0), cell(2, 0), cell(1, 1)]);
}

#[test]
fn single_start_and_end() {
    let mut g = Grid::new(3, 3);
    g.set_role(cell(0, 0), Role::Start);
    g.set_role(cell(1, 1), Role::Start);
    assert_eq!(g.role(cell(0, 0)), Role::Empty);
    assert_eq!(g.role(cell(1, 1)), Role::Start);
    assert_eq!(g.start(), Some(cell(1, 1)));
    g.set_role(cell(2, 2), Role::End);
    g.set_role(cell(2, 1), Role::End);
    assert_eq!(g.role(cell(2, 2)), Role::Empty);
    assert_eq!(g.end(), Some(cell(2, 1)));
    g.set_role(cell(2, 1), Role::Start);
    assert_eq!(g.start(), Some(cell(2, 1)));
    assert_eq!(g.end(), None);
    assert_eq!(g.role(cell(1, 1)), Role::Empty);
}

#[test]
fn placing_start_end_then_barriers() {
    let mut g = Grid::new(3, 3);
    g.place(cell(0, 0));
    g.place(cell(2, 2));
    g.place(cell(1, 1));
    assert_eq!(g.role(cell(0, 0)), Role::Start);
    assert_eq!(g.role(cell(2, 2)), Role::End);
    assert_eq!(g.role(cell(1, 1)), Role::Barrier);
    g.clear_cell(cell(0, 0));
    assert_eq!(g.start(), None);
    assert_eq!(g.role(cell(0, 0)), Role::Empty);
    g.place(cell(0, 2));
    assert_eq!(g.start(), Some(cell(0, 2)));
    assert_eq!(g.end(), Some(cell(2, 2)));
}

#[test]
fn barrier_over_start_clears_it() {
    let mut g = Grid::new(2, 2);
    g.set_role(cell(0, 0), Role::Start);
    g.set_role(cell(0, 0), Role::Barrier);
    assert_eq!(g.start(), None);
    assert_eq!(g.role(cell(0, 0)), Role::Barrier);
}

#[test]
fn reset_all_clears_everything() {
    let mut g = Grid::new(2, 3);
    g.place(cell(0, 0));
    g.place(cell(1, 2));
    g.place(cell(0, 1));
    g.reset_all();
    for r in 0..2 {
        for c in 0..3 {
            assert_eq!(g.role(cell(r, c)), Role::Empty);
        }
    }
    assert_eq!(g.start(), None);
    assert_eq!(g.end(), None);
}

#[test]
fn frontier_pops_smallest_estimate_first() {
    let mut f = Frontier::new();
    f.push(cell(0, 0), 5);
    f.push(cell(0, 1), 3);
    f.push(cell(0, 2), 4);
    assert_eq!(f.len(), 3);
    assert!(f.contains(cell(0, 2)));
    assert!(!f.contains(cell(1, 1)));
    assert_eq!(f.pop_min().unwrap().cell, cell(0, 1));
    assert_eq!(f.pop_min().unwrap().cell, cell(0, 2));
    assert_eq!(f.pop_min().unwrap().cell, cell(0, 0));
    assert!(f.pop_min().is_none());
    assert!(f.is_empty());
}

#[test]
fn frontier_ties_go_to_earliest_insertion() {
    let mut f = Frontier::new();
    f.push(cell(2, 2), 7);
    f.push(cell(1, 1), 7);
    f.push(cell(0, 0), 7);
    let a = f.pop_min().unwrap();
    assert_eq!((a.cell, a.seq), (cell(2, 2), 0));
    let b = f.pop_min().unwrap();
    assert_eq!((b.cell, b.seq), (cell(1, 1), 1));
    let c = f.pop_min().unwrap();
    assert_eq!((c.cell, c.seq, c.f), (cell(0, 0), 2, 7));
}

#[test]
fn barrier_has_no_neighbors() {
    let mut g = Grid::new(1, 2);
    g.set_role(cell(0, 0), Role::Barrier);
    assert_eq!(g.neighbors(cell(0, 0)), Vec::<Cell>::new());
    assert_eq!(g.neighbors(cell(0, 1)), Vec::<Cell>::new());
}
