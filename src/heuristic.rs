//! The Manhattan-distance heuristic and its admissibility.
use vstd::prelude::*;
use crate::grid::{adjacent, Cell, GridView};

verus! {

pub open spec fn abs_diff(x: int, y: int) -> nat {
    if x >= y {
        (x - y) as nat
    } else {
        (y - x) as nat
    }
}

/// `|a.row - b.row| + |a.col - b.col|`.
pub open spec fn manhattan(a: Cell, b: Cell) -> nat {
    abs_diff(a.row as int, b.row as int) + abs_diff(a.col as int, b.col as int)
}

/// The Manhattan distance between two cells of a grid.
pub fn h(a: Cell, b: Cell) -> (r: usize)
    requires
        manhattan(a, b) <= usize::MAX,
    ensures
        r == manhattan(a, b),
{
    let dr = if a.row >= b.row {
        a.row - b.row
    } else {
        b.row - a.row
    };
    let dc = if a.col >= b.col {
        a.col - b.col
    } else {
        b.col - a.col
    };
    dr + dc
}

/// Consistency: one step changes the estimate by at most one.
pub proof fn lemma_manhattan_consistent(a: Cell, b: Cell, goal: Cell)
    requires
        adjacent(a, b),
    ensures
        manhattan(a, goal) <= manhattan(b, goal) + 1,
        manhattan(b, goal) <= manhattan(a, goal) + 1,
{
}

/// Admissibility: the estimate from the first cell of a path to its last
/// never exceeds the number of moves the path makes.
pub proof fn lemma_manhattan_admissible(g: GridView, p: Seq<Cell>)
    requires
        g.is_walk(p),
    ensures
        manhattan(p[0], p.last()) <= p.len() - 1,
    decreases p.len(),
{
    if p.len() > 1 {
        let q = p.drop_last();
        assert(g.is_walk(q));
        lemma_manhattan_admissible(g, q);
        assert(g.can_step(q.last(), p.last()));
        lemma_manhattan_consistent(q.last(), p.last(), p[0]);
        assert(manhattan(p[0], p.last()) == manhattan(p.last(), p[0]));
        assert(manhattan(p[0], q.last()) == manhattan(q.last(), p[0]));
    }
}

} // verus!
