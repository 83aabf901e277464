//! The A* driver: per-run bookkeeping, one expansion per step, and path
//! reconstruction along predecessor links.
use vstd::prelude::*;
use crate::frontier::{key_le, Entry, Frontier};
use crate::grid::{is_search_role, Cell, Grid, GridView, Role, lemma_dims_bound, lemma_index_distinct, MAX_CELLS};
use crate::heuristic::{h, lemma_manhattan_admissible, manhattan};

verus! {

/// A role change made by the search on one cell.
#[derive(Clone, Copy, Debug, PartialEq, Eq, Structural)]
pub struct CellEvent {
    pub cell: Cell,
    pub new_role: Role,
}

/// Where the driver stands.
#[derive(Clone, Copy, Debug, PartialEq, Eq, Structural)]
pub enum Phase {
    Running,
    Succeeded,
    Exhausted,
    Cancelled,
}

/// How a finished search ended.
#[derive(Clone, Debug, PartialEq, Eq)]
pub enum Outcome {
    PathFound(Vec<Cell>),
    NoPathFound,
}

/// Every role change of one search, in order, and how it ended.
#[derive(Clone, Debug, PartialEq, Eq)]
pub struct SearchRun {
    pub events: Vec<CellEvent>,
    pub outcome: Outcome,
}

/// Every event names a non-barrier cell of `g` and a role that a search
/// paints; with `expanding`, only Open or Closed.
pub open spec fn events_ok(g: GridView, evs: Seq<CellEvent>, expanding: bool) -> bool {
    forall|i: int| 0 <= i < evs.len() ==> event_ok(g, #[trigger] evs[i], expanding)
}

pub open spec fn event_ok(g: GridView, e: CellEvent, expanding: bool) -> bool {
    &&& g.in_bounds(e.cell)
    &&& !g.is_barrier(e.cell)
    &&& is_search_role(e.new_role)
    &&& (expanding ==> e.new_role != Role::Path)
}

/// `g` with each event's role painted on its cell, in order.
pub open spec fn apply_events(g: GridView, evs: Seq<CellEvent>) -> GridView
    decreases evs.len(),
{
    if evs.len() == 0 {
        g
    } else {
        let h = apply_events(g, evs.drop_last());
        GridView { roles: h.roles.update(h.index(evs.last().cell), evs.last().new_role), ..h }
    }
}

pub proof fn lemma_apply_push(g: GridView, evs: Seq<CellEvent>, e: CellEvent)
    ensures
        apply_events(g, evs.push(e)) == (GridView {
            roles: apply_events(g, evs).roles.update(apply_events(g, evs).index(e.cell), e.new_role),
            ..apply_events(g, evs)
        }),
{
    assert(evs.push(e).drop_last() =~= evs);
}

pub proof fn lemma_apply_append(g: GridView, a: Seq<CellEvent>, b: Seq<CellEvent>)
    requires
        g.wf(),
        forall|i: int| 0 <= i < a.len() ==> g.in_bounds(#[trigger] a[i].cell),
    ensures
        apply_events(g, a + b) == apply_events(apply_events(g, a), b),
    decreases b.len(),
{
    if b.len() == 0 {
        assert(a + b =~= a);
    } else {
        assert((a + b).drop_last() =~= a + b.drop_last());
        lemma_apply_append(g, a, b.drop_last());
        lemma_apply_dims(g, a);
    }
}

pub proof fn lemma_apply_dims(g: GridView, evs: Seq<CellEvent>)
    requires
        g.wf(),
        forall|i: int| 0 <= i < evs.len() ==> g.in_bounds(#[trigger] evs[i].cell),
    ensures
        apply_events(g, evs).rows == g.rows,
        apply_events(g, evs).cols == g.cols,
        apply_events(g, evs).start == g.start,
        apply_events(g, evs).end == g.end,
        apply_events(g, evs).roles.len() == g.roles.len(),
    decreases evs.len(),
{
    if evs.len() > 0 {
        let d = evs.drop_last();
        assert forall|i: int| 0 <= i < d.len() implies g.in_bounds(#[trigger] d[i].cell) by {
            assert(d[i] == evs[i]);
        }
        lemma_apply_dims(g, d);
        lemma_index_distinct(g);
        assert(g.in_bounds(evs[evs.len() - 1].cell));
    }
}

/// A cell's role after the events is its old role or the role of an event
/// on it.
pub proof fn lemma_apply_role(g: GridView, evs: Seq<CellEvent>, c: Cell)
    requires
        g.wf(),
        g.in_bounds(c),
        forall|i: int| 0 <= i < evs.len() ==> g.in_bounds(#[trigger] evs[i].cell),
    ensures
        apply_events(g, evs).role(c) == g.role(c) || exists|i: int|
            0 <= i < evs.len() && (#[trigger] evs[i]).cell == c && evs[i].new_role == apply_events(
                g,
                evs,
            ).role(c),
    decreases evs.len(),
{
    if evs.len() > 0 {
        let d = evs.drop_last();
        assert forall|i: int| 0 <= i < d.len() implies g.in_bounds(#[trigger] d[i].cell) by {
            assert(d[i] == evs[i]);
        }
        lemma_apply_role(g, d, c);
        lemma_apply_dims(g, d);
        lemma_index_distinct(g);
        let h = apply_events(g, d);
        let e = evs.last();
        if e.cell != c {
            assert(h.index(c) == g.index(c) && h.index(e.cell) == g.index(e.cell));
            assert(g.index(c) != g.index(e.cell));
            assert(g.in_bounds(evs[evs.len() - 1].cell));
            assert(apply_events(g, evs).role(c) == h.role(c));
            if h.role(c) != g.role(c) {
                let i = choose|i: int| 0 <= i < d.len() && (#[trigger] d[i]).cell == c && d[i].new_role == h.role(c);
                assert(evs[i] == d[i]);
            }
        } else {
            assert(evs[evs.len() - 1] == e);
            assert(apply_events(g, evs).role(c) == e.new_role);
        }
    }
}

/// Number of `true` entries.
pub open spec fn count_true(s: Seq<bool>) -> nat
    decreases s.len(),
{
    if s.len() == 0 {
        0
    } else {
        count_true(s.drop_last()) + if s.last() {
            1nat
        } else {
            0nat
        }
    }
}

pub proof fn lemma_count_true_bound(s: Seq<bool>)
    ensures
        count_true(s) <= s.len(),
    decreases s.len(),
{
    if s.len() > 0 {
        lemma_count_true_bound(s.drop_last());
    }
}

pub proof fn lemma_count_true_set(s: Seq<bool>, i: int)
    requires
        0 <= i < s.len(),
        !s[i],
    ensures
        count_true(s.update(i, true)) == count_true(s) + 1,
    decreases s.len(),
{
    let t = s.update(i, true);
    if i == s.len() - 1 {
        assert(t.drop_last() =~= s.drop_last());
    } else {
        assert(t.drop_last() =~= s.drop_last().update(i, true));
        lemma_count_true_set(s.drop_last(), i);
    }
}

/// Cells of `r` are closed under legal steps, `r` holds `a` and not `b`:
/// then no path leads from `a` to `b`.
pub proof fn lemma_closed_region_blocks(g: GridView, r: spec_fn(Cell) -> bool, a: Cell, b: Cell)
    requires
        r(a),
        !r(b),
        forall|x: Cell, y: Cell| r(x) && #[trigger] g.can_step(x, y) ==> r(y),
    ensures
        !g.reachable(a, b),
{
    assert forall|p: Seq<Cell>| !g.is_path(p, a, b) by {
        if g.is_path(p, a, b) {
            assert forall|i: int| 0 <= i < p.len() implies r(#[trigger] p[i]) by {
                lemma_walk_stays(g, r, p, i);
            }
        }
    }
}

proof fn lemma_walk_stays(g: GridView, r: spec_fn(Cell) -> bool, p: Seq<Cell>, i: int)
    requires
        g.is_walk(p),
        r(p[0]),
        0 <= i < p.len(),
        forall|x: Cell, y: Cell| r(x) && #[trigger] g.can_step(x, y) ==> r(y),
    ensures
        r(p[i]),
    decreases i,
{
    if i > 0 {
        lemma_walk_stays(g, r, p, i - 1);
        assert(g.can_step(p[i - 1], p[i]));
    }
}

proof fn lemma_manhattan_triangle(a: Cell, b: Cell, c: Cell)
    ensures
        manhattan(a, c) <= manhattan(a, b) + manhattan(b, c),
{
}

/// The cells of `neighbor_seq` are exactly the legal steps.
pub proof fn lemma_neighbor_seq(g: GridView, c: Cell)
    requires
        g.wf(),
        g.in_bounds(c),
    ensures
        forall|d: Cell| g.can_step(c, d) <==> g.neighbor_seq(c).contains(d),
        g.neighbor_seq(c).len() <= 4,
{
    lemma_dims_bound(g);
    if g.is_barrier(c) {
        return;
    }
    let s = g.neighbor_seq(c);
    let up = Cell { row: (c.row - 1) as usize, col: c.col };
    let down = Cell { row: (c.row + 1) as usize, col: c.col };
    let left = Cell { row: c.row, col: (c.col - 1) as usize };
    let right = Cell { row: c.row, col: (c.col + 1) as usize };
    let s1 = if c.row > 0 && !g.is_barrier(up) { seq![up] } else { Seq::<Cell>::empty() };
    let s2 = if c.row + 1 < g.rows && !g.is_barrier(down) { seq![down] } else { Seq::<Cell>::empty() };
    let s3 = if c.col > 0 && !g.is_barrier(left) { seq![left] } else { Seq::<Cell>::empty() };
    let s4 = if c.col + 1 < g.cols && !g.is_barrier(right) { seq![right] } else { Seq::<Cell>::empty() };
    assert(s == s1 + s2 + s3 + s4);
    let n1 = s1.len() as int;
    let n2 = n1 + s2.len();
    let n3 = n2 + s3.len();
    assert forall|d: Cell| g.can_step(c, d) implies s.contains(d) by {
        if d == up {
            assert(s[0] == d);
        } else if d == down {
            assert(s[n1] == d);
        } else if d == left {
            assert(s[n2] == d);
        } else {
            assert(s[n3] == d);
        }
    }
    assert forall|k: int| 0 <= k < s.len() implies g.can_step(c, #[trigger] s[k]) by {
        if k < n1 {
            assert(s[k] == s1[k]);
        } else if k < n2 {
            assert(s[k] == s2[k - n1]);
        } else if k < n3 {
            assert(s[k] == s3[k - n2]);
        } else {
            assert(s[k] == s4[k - n3]);
        }
    }
}

pub proof fn lemma_count_true_none(s: Seq<bool>)
    requires
        forall|i: int| 0 <= i < s.len() ==> !s[i],
    ensures
        count_true(s) == 0,
    decreases s.len(),
{
    if s.len() > 0 {
        lemma_count_true_none(s.drop_last());
    }
}

/// The Manhattan distance between two cells of a well-formed grid fits in
/// twice the cell bound.
proof fn lemma_manhattan_small(g: GridView, a: Cell, b: Cell)
    requires
        g.wf(),
        g.in_bounds(a),
        g.in_bounds(b),
    ensures
        manhattan(a, b) <= 2 * MAX_CELLS,
{
    lemma_dims_bound(g);
}

/// Per-run bookkeeping of one A* search on a grid.
pub struct Search {
    rows: usize,
    cols: usize,
    start: Cell,
    goal: Cell,
    g: Vec<Option<usize>>,
    came_from: Vec<Option<Cell>>,
    closed: Vec<bool>,
    n_closed: usize,
    frontier: Frontier,
    phase: Phase,
    layout: Ghost<GridView>,
}

impl Search {
    /// The grid the search runs on, as it was when the search began.
    pub closed spec fn layout(&self) -> GridView {
        self.layout@
    }

    pub closed spec fn start_cell(&self) -> Cell {
        self.start
    }

    pub closed spec fn goal_cell(&self) -> Cell {
        self.goal
    }

    pub closed spec fn phase_spec(&self) -> Phase {
        self.phase
    }

    /// Cells not yet closed.
    pub closed spec fn remaining(&self) -> nat {
        (self.closed@.len() - self.n_closed) as nat
    }

    /// Entries waiting in the frontier.
    pub closed spec fn pending(&self) -> nat {
        self.frontier@.entries.len()
    }

    spec fn g_at(&self, c: Cell) -> Option<usize> {
        self.g@[self.layout@.index(c)]
    }

    spec fn cf_at(&self, c: Cell) -> Option<Cell> {
        self.came_from@[self.layout@.index(c)]
    }

    spec fn closed_at(&self, c: Cell) -> bool {
        self.closed@[self.layout@.index(c)]
    }

    spec fn has_entry(&self, c: Cell) -> bool {
        exists|e: Entry|
            #[trigger] self.frontier@.entries.contains(e) && e.cell == c && e.f == self.g_at(c)->0
                + manhattan(c, self.goal)
    }

    spec fn dims_ok(&self) -> bool {
        &&& self.layout@.wf()
        &&& self.rows == self.layout@.rows
        &&& self.cols == self.layout@.cols
        &&& self.g@.len() == self.layout@.roles.len()
        &&& self.came_from@.len() == self.layout@.roles.len()
        &&& self.closed@.len() == self.layout@.roles.len()
    }

    /// Predecessor links lead back to the start through legal steps with
    /// strictly smaller cost.
    spec fn cell_ok(&self, c: Cell) -> bool {
        &&& (self.g_at(c) is Some && self.cf_at(c) is None ==> c == self.start)
        &&& (self.cf_at(c) matches Some(p) ==> {
            &&& self.g_at(c) is Some
            &&& self.layout@.can_step(p, c)
            &&& self.g_at(p) is Some
            &&& self.g_at(p)->0 < self.g_at(c)->0
        })
        &&& (self.g_at(c) matches Some(k) ==> k <= self.n_closed)
        &&& (self.closed_at(c) ==> self.g_at(c) is Some)
    }

    /// While running: closed cells (but `exempt`) have all their steps
    /// reached, and each reached open cell has its current entry queued.
    spec fn running_ok(&self, c: Cell, exempt: Option<Cell>) -> bool {
        &&& (self.closed_at(c) && exempt != Some(c) ==> forall|d: Cell|
            #[trigger] self.layout@.can_step(c, d) ==> self.g_at(d) is Some && self.g_at(d)->0
                <= self.g_at(c)->0 + 1)
        &&& (self.g_at(c) is Some && !self.closed_at(c) ==> self.has_entry(c))
    }

    /// A closed cell's cost is no more than the length of any path to it.
    spec fn closed_opt(&self, c: Cell) -> bool {
        self.closed_at(c) ==> forall|q: Seq<Cell>|
            #[trigger] self.layout@.is_path(q, self.start, c) ==> self.g_at(c)->0 <= q.len() - 1
    }

    spec fn inv_core(&self, exempt: Option<Cell>) -> bool {
        &&& self.dims_ok()
        &&& self.layout@.in_bounds(self.start)
        &&& self.layout@.in_bounds(self.goal)
        &&& self.g_at(self.start) == Some(0usize)
        &&& self.cf_at(self.start) is None
        &&& self.n_closed == count_true(self.closed@)
        &&& !self.closed_at(self.goal)
        &&& forall|c: Cell| self.layout@.in_bounds(c) ==> #[trigger] self.cell_ok(c)
        &&& forall|c: Cell| self.layout@.in_bounds(c) ==> #[trigger] self.closed_opt(c)
        &&& forall|e: Entry| #[trigger] self.frontier@.entries.contains(e) ==> self.layout@.in_bounds(e.cell)
        &&& self.frontier@.entries.len() <= self.frontier@.next_seq
        &&& self.frontier@.wf()
        &&& self.phase == Phase::Running ==> forall|c: Cell|
            self.layout@.in_bounds(c) ==> #[trigger] self.running_ok(c, exempt)
        &&& self.phase == Phase::Succeeded ==> self.g_at(self.goal) is Some
        &&& self.phase == Phase::Succeeded ==> forall|q: Seq<Cell>|
            #[trigger] self.layout@.is_path(q, self.start, self.goal) ==> self.g_at(self.goal)->0 <= q.len() - 1
        &&& self.phase == Phase::Exhausted ==> !self.layout@.reachable(self.start, self.goal)
    }

    /// The search's internal invariant.
    pub closed spec fn inv(&self) -> bool {
        &&& self.inv_core(None)
        &&& self.frontier@.next_seq <= 4 * self.n_closed + 1
    }

    fn idx(&self, c: Cell) -> (r: usize)
        requires
            self.dims_ok(),
            self.layout@.in_bounds(c),
        ensures
            r == self.layout@.index(c),
            r < self.g@.len(),
    {
        proof {
            crate::grid::lemma_index_bounds(self.layout@.rows, self.layout@.cols, c);
        }
        c.row * self.cols + c.col
    }

    /// A search from `start` to `goal`, ready to take its first step.
    pub fn new(grid: &Grid, start: Cell, goal: Cell) -> (s: Search)
        requires
            grid@.wf(),
            grid@.in_bounds(start),
            grid@.in_bounds(goal),
        ensures
            s.inv(),
            s.layout() == grid@,
            s.start_cell() == start,
            s.goal_cell() == goal,
            s.phase_spec() == Phase::Running,
    {
        let n: usize = grid.rows() * grid.cols();
        let mut g: Vec<Option<usize>> = Vec::new();
        let mut came_from: Vec<Option<Cell>> = Vec::new();
        let mut closed: Vec<bool> = Vec::new();
        let mut i: usize = 0;
        while i < n
            invariant
                i <= n,
                g@.len() == i,
                came_from@.len() == i,
                closed@.len() == i,
                forall|j: int| 0 <= j < i ==> g@[j] is None,
                forall|j: int| 0 <= j < i ==> came_from@[j] is None,
                forall|j: int| 0 <= j < i ==> !closed@[j],
            decreases n - i,
        {
            g.push(None);
            came_from.push(None);
            closed.push(false);
            i = i + 1;
        }
        proof {
            lemma_index_distinct(grid@);
            lemma_count_true_none(closed@);
            lemma_manhattan_small(grid@, start, goal);
        }
        let si = start.row * grid.cols() + start.col;
        g.set(si, Some(0));
        let mut frontier = Frontier::new();
        frontier.push(start, h(start, goal));
        let s = Search {
            rows: grid.rows(),
            cols: grid.cols(),
            start,
            goal,
            g,
            came_from,
            closed,
            n_closed: 0,
            frontier,
            phase: Phase::Running,
            layout: Ghost(grid@),
        };
        proof {
            assert forall|c: Cell| s.layout@.in_bounds(c) implies #[trigger] s.cell_ok(c) by {
                if c != start {
                    assert(s.layout@.index(c) != s.layout@.index(start));
                }
            }
            assert forall|c: Cell| s.layout@.in_bounds(c) implies #[trigger] s.running_ok(c, None) by {
                if c == start {
                    assert(s.frontier@.entries[0] == Entry { f: manhattan(start, goal) as usize, seq: 0, cell: start });
                    assert(s.frontier@.entries.contains(s.frontier@.entries[0]));
                } else {
                    assert(s.layout@.index(c) != s.layout@.index(start));
                }
            }
            assert forall|e: Entry| #[trigger] s.frontier@.entries.contains(e) implies s.layout@.in_bounds(e.cell) by {
                assert(s.frontier@.entries[0] == e);
            }
        }
        s
    }

    /// Improves the cost of `d`, a step from the closed cell `c` of cost `k`,
    /// to `k + 1` when that is better, queueing it and painting it Open.
    fn relax(
        &mut self,
        grid: &mut Grid,
        c: Cell,
        k: usize,
        d: Cell,
        events: &mut Vec<CellEvent>,
        g0: Ghost<GridView>,
    )
        requires
            old(grid)@ == apply_events(g0@, old(events)@),
            old(self).inv_core(Some(c)),
            old(self).phase == Phase::Running,
            old(self).closed_at(c),
            old(self).g_at(c) == Some(k),
            k + 1 <= old(self).n_closed,
            old(self).layout@.can_step(c, d),
            old(self).frontier@.next_seq < 4 * old(self).n_closed + 1,
            old(grid)@.wf(),
            old(grid)@.same_layout(old(self).layout@),
        ensures
            final(self).inv_core(Some(c)),
            final(self).layout@ == old(self).layout@,
            final(self).start == old(self).start,
            final(self).goal == old(self).goal,
            final(self).phase == old(self).phase,
            final(self).n_closed == old(self).n_closed,
            final(self).closed@ == old(self).closed@,
            final(self).g_at(c) == Some(k),
            final(self).g_at(d) is Some,
            final(self).g_at(d)->0 <= k + 1,
            forall|x: Cell|
                old(self).layout@.in_bounds(x) && (#[trigger] old(self).g_at(x)) is Some ==> final(self).g_at(x) is Some
                    && final(self).g_at(x)->0 <= old(self).g_at(x)->0,
            final(self).frontier@.next_seq <= old(self).frontier@.next_seq + 1,
            final(grid)@ == apply_events(g0@, final(events)@),
            events_ok(old(self).layout@, old(events)@, true) ==> events_ok(old(self).layout@, final(events)@, true),
            final(grid)@.wf(),
            final(grid)@.same_layout(old(self).layout@),
    {
        let ghost s0 = *self;
        let ghost lay = self.layout@;
        proof {
            lemma_index_distinct(lay);
            lemma_manhattan_small(lay, d, self.goal);
            lemma_count_true_bound(self.closed@);
        }
        let di = self.idx(d);
        let t = k + 1;
        let better = match self.g[di] {
            None => true,
            Some(old_g) => t < old_g,
        };
        proof {
            if s0.closed_at(d) {
                assert(s0.cell_ok(d));
                let q0 = s0.lemma_chain_walk(Some(c), c);
                let q = q0.push(d);
                assert(q[q.len() - 2] == c);
                assert forall|i: int| 0 <= i < q.len() - 1 implies lay.can_step(#[trigger] q[i], q[i + 1]) by {
                    if i < q.len() - 2 {
                        assert(q0[i] == q[i] && q0[i + 1] == q[i + 1]);
                    }
                }
                assert forall|i: int| 0 <= i < q.len() implies lay.in_bounds(#[trigger] q[i]) by {
                    if i < q.len() - 1 {
                        assert(q0[i] == q[i]);
                    }
                }
                assert(lay.is_path(q, s0.start, d));
                assert(s0.closed_opt(d));
                assert(!better);
            }
        }
        if better {
            self.g.set(di, Some(t));
            self.came_from.set(di, Some(c));
            let f = t + h(d, self.goal);
            self.frontier.push(d, f);
            let ghost s1 = *self;
            proof {
                assert forall|x: Cell| lay.in_bounds(x) implies #[trigger] s1.g_at(x) == (if x == d {
                    Some(t)
                } else {
                    s0.g_at(x)
                }) && s1.cf_at(x) == (if x == d {
                    Some(c)
                } else {
                    s0.cf_at(x)
                }) && s1.closed_at(x) == s0.closed_at(x) by {
                    if x != d {
                        assert(lay.index(x) != lay.index(d));
                    }
                }
                let ne = Entry { f, seq: s0.frontier@.next_seq as usize, cell: d };
                assert(s1.frontier@.entries.last() == ne);
                assert forall|e: Entry| #[trigger] s0.frontier@.entries.contains(e) implies s1.frontier@.entries.contains(e) by {
                    let j = choose|j: int| 0 <= j < s0.frontier@.entries.len() && s0.frontier@.entries[j] == e;
                    assert(s1.frontier@.entries[j] == e);
                }
                assert forall|e: Entry| #[trigger] s1.frontier@.entries.contains(e) implies lay.in_bounds(e.cell) by {
                    let j = choose|j: int| 0 <= j < s1.frontier@.entries.len() && s1.frontier@.entries[j] == e;
                    if j < s0.frontier@.entries.len() {
                        assert(s0.frontier@.entries[j] == e);
                        assert(s0.frontier@.entries.contains(e));
                    }
                }
                assert forall|x: Cell| lay.in_bounds(x) implies #[trigger] s1.cell_ok(x) by {
                    assert(s0.cell_ok(x));
                    if let Some(p) = s1.cf_at(x) {
                        assert(s1.g_at(p) == (if p == d { Some(t) } else { s0.g_at(p) }));
                    }
                }
                assert forall|x: Cell| lay.in_bounds(x) implies #[trigger] s1.closed_opt(x) by {
                    assert(s0.closed_opt(x));
                }
                assert forall|x: Cell| lay.in_bounds(x) implies #[trigger] s1.running_ok(x, Some(c)) by {
                    assert(s0.running_ok(x, Some(c)));
                    if x == d {
                        assert(s1.frontier@.entries.contains(ne));
                    } else if s1.g_at(x) is Some && !s1.closed_at(x) {
                        let e = choose|e: Entry|
                            #[trigger] s0.frontier@.entries.contains(e) && e.cell == x && e.f == s0.g_at(x)->0
                                + manhattan(x, s0.goal);
                        assert(s1.frontier@.entries.contains(e));
                    }
                    if s1.closed_at(x) && Some(x) != Some(c) {
                        assert forall|y: Cell| #[trigger] lay.can_step(x, y) implies s1.g_at(y) is Some
                            && s1.g_at(y)->0 <= s1.g_at(x)->0 + 1 by {
                            assert(s0.g_at(y) is Some);
                        }
                    }
                }
            }
            if !self.closed[di] {
                if grid.role(d) != Role::Open {
                    grid.paint(d, Role::Open);
                    let ghost ev0 = events@;
                    events.push(CellEvent { cell: d, new_role: Role::Open });
                    proof {
                        lemma_apply_push(g0@, ev0, CellEvent { cell: d, new_role: Role::Open });
                        if events_ok(lay, ev0, true) {
                            assert forall|i: int| 0 <= i < events@.len() implies event_ok(lay, #[trigger] events@[i], true) by {
                                if i < ev0.len() {
                                    assert(events@[i] == ev0[i]);
                                }
                            }
                            assert(events_ok(lay, events@, true));
                        }
                    }
                }
            }
        }
    }

    /// One step: pops the best frontier entry and either finishes (goal
    /// reached, or frontier empty), discards a stale entry, or closes the
    /// cell and relaxes its neighbours. Returns the role changes made.
    #[verifier::rlimit(60)]
    pub fn step(&mut self, grid: &mut Grid) -> (events: Vec<CellEvent>)
        requires
            old(self).inv(),
            old(self).phase_spec() == Phase::Running,
            old(grid)@.wf(),
            old(grid)@.same_layout(old(self).layout()),
        ensures
            final(self).inv(),
            final(self).layout() == old(self).layout(),
            final(self).start_cell() == old(self).start_cell(),
            final(self).goal_cell() == old(self).goal_cell(),
            final(grid)@.wf(),
            final(grid)@.same_layout(old(self).layout()),
            events_ok(old(self).layout(), events@, true),
            final(grid)@ == apply_events(old(grid)@, events@),
            final(self).phase_spec() == Phase::Exhausted ==> !final(self).layout().reachable(
                final(self).start_cell(),
                final(self).goal_cell(),
            ),
            final(self).phase_spec() != Phase::Cancelled,
            final(self).phase_spec() != Phase::Running || final(self).remaining() < old(self).remaining()
                || (final(self).remaining() == old(self).remaining() && final(self).pending()
                < old(self).pending()),
    {
        let mut events: Vec<CellEvent> = Vec::new();
        let ghost gs = grid@;
        let ghost s0 = *self;
        let ghost lay = self.layout@;
        proof {
            lemma_index_distinct(lay);
            lemma_count_true_bound(self.closed@);
        }
        match self.frontier.pop_min() {
            None => {
                proof {
                    let r = |x: Cell| lay.in_bounds(x) && s0.g_at(x) is Some;
                    assert forall|x: Cell, y: Cell| r(x) && #[trigger] lay.can_step(x, y) implies r(y) by {
                        assert(s0.running_ok(x, None));
                        if !s0.closed_at(x) {
                            let e = choose|e: Entry|
                                #[trigger] s0.frontier@.entries.contains(e) && e.cell == x && e.f
                                    == s0.g_at(x)->0 + manhattan(x, s0.goal);
                            assert(s0.frontier@.entries.contains(e));
                        }
                    }
                    if r(s0.goal) {
                        assert(s0.running_ok(s0.goal, None));
                        let e = choose|e: Entry|
                            #[trigger] s0.frontier@.entries.contains(e) && e.cell == s0.goal && e.f
                                == s0.g_at(s0.goal)->0 + manhattan(s0.goal, s0.goal);
                        assert(s0.frontier@.entries.contains(e));
                    }
                    lemma_closed_region_blocks(lay, r, s0.start, s0.goal);
                }
                self.phase = Phase::Exhausted;
                proof {
                    assert forall|x: Cell| lay.in_bounds(x) implies #[trigger] self.cell_ok(x) by {
                        assert(s0.cell_ok(x));
                    }
                    assert forall|x: Cell| lay.in_bounds(x) implies #[trigger] self.closed_opt(x) by {
                        assert(s0.closed_opt(x));
                    }
                }
            },
            Some(e) => {
                let c = e.cell;
                let ghost s1 = *self;
                proof {
                    assert(s0.frontier@.entries.contains(e));
                    lemma_manhattan_small(lay, c, self.goal);
                    assert(s0.cell_ok(c));
                }
                let ci = self.idx(c);
                let canonical = match self.g[ci] {
                    Some(k) => !self.closed[ci] && e.f == k + h(c, self.goal),
                    None => false,
                };
                if !canonical {
                    proof {
                        assert forall|x: Cell| lay.in_bounds(x) implies #[trigger] s1.running_ok(x, None) by {
                            assert(s0.running_ok(x, None));
                            if s1.g_at(x) is Some && !s1.closed_at(x) {
                                let w = choose|w: Entry|
                                    #[trigger] s0.frontier@.entries.contains(w) && w.cell == x && w.f
                                        == s0.g_at(x)->0 + manhattan(x, s0.goal);
                                assert(s1.frontier@.entries.contains(w));
                            }
                        }
                        assert forall|x: Cell| lay.in_bounds(x) implies #[trigger] s1.cell_ok(x) by {
                            assert(s0.cell_ok(x));
                        }
                        assert forall|x: Cell| lay.in_bounds(x) implies #[trigger] s1.closed_opt(x) by {
                            assert(s0.closed_opt(x));
                        }
                    }
                } else if c == self.goal {
                    self.phase = Phase::Succeeded;
                    proof {
                        assert forall|x: Cell| lay.in_bounds(x) implies #[trigger] self.cell_ok(x) by {
                            assert(s0.cell_ok(x));
                        }
                        assert forall|x: Cell| lay.in_bounds(x) implies #[trigger] self.closed_opt(x) by {
                            assert(s0.closed_opt(x));
                        }
                        assert forall|q: Seq<Cell>| #[trigger] lay.is_path(q, s0.start, s0.goal) implies self.g_at(
                            s0.goal,
                        )->0 <= q.len() - 1 by {
                            s0.lemma_pop_optimal(e, q);
                        }
                    }
                } else {
                    let k = match self.g[ci] {
                        Some(k) => k,
                        None => 0,
                    };
                    proof {
                        assert forall|q: Seq<Cell>| #[trigger] lay.is_path(q, s0.start, c) implies k <= q.len() - 1 by {
                            s0.lemma_pop_optimal(e, q);
                        }
                    }
                    self.closed.set(ci, true);
                    self.n_closed = self.n_closed + 1;
                    let ghost s2 = *self;
                    proof {
                        lemma_count_true_set(s1.closed@, ci as int);
                        lemma_count_true_bound(self.closed@);
                        assert forall|x: Cell| lay.in_bounds(x) implies #[trigger] s2.closed_at(x) == (x == c
                            || s1.closed_at(x)) by {
                            if x != c {
                                assert(lay.index(x) != lay.index(c));
                            }
                        }
                        assert forall|x: Cell| lay.in_bounds(x) implies #[trigger] s2.cell_ok(x) by {
                            assert(s0.cell_ok(x));
                        }
                        assert forall|x: Cell| lay.in_bounds(x) implies #[trigger] s2.closed_opt(x) by {
                            assert(s0.closed_opt(x));
                        }
                        assert forall|x: Cell| lay.in_bounds(x) implies #[trigger] s2.running_ok(x, Some(c)) by {
                            assert(s0.running_ok(x, None));
                            if x != c && s2.g_at(x) is Some && !s2.closed_at(x) {
                                let w = choose|w: Entry|
                                    #[trigger] s0.frontier@.entries.contains(w) && w.cell == x && w.f
                                        == s0.g_at(x)->0 + manhattan(x, s0.goal);
                                assert(s1.frontier@.entries.contains(w));
                                assert(s2.frontier@.entries.contains(w));
                                assert(s2.has_entry(x));
                            }
                            if s2.closed_at(x) && x != c {
                                assert(s1.closed_at(x));
                                assert forall|y: Cell| #[trigger] lay.can_step(x, y) implies s2.g_at(y) is Some
                                    && s2.g_at(y)->0 <= s2.g_at(x)->0 + 1 by {
                                    assert(s0.g_at(y) is Some);
                                }
                            }
                        }
                    }
                    if grid.role(c) != Role::Barrier {
                        grid.paint(c, Role::Closed);
                        proof {
                            lemma_apply_push(gs, events@, CellEvent { cell: c, new_role: Role::Closed });
                        }
                        events.push(CellEvent { cell: c, new_role: Role::Closed });
                    }
                    let nbs = grid.neighbors(c);
                    proof {
                        lemma_neighbor_seq(grid@, c);
                        assert forall|d: Cell| lay.can_step(c, d) <==> nbs@.contains(d) by {
                            assert(grid@.can_step(c, d) == lay.can_step(c, d));
                        }
                    }
                    let mut j: usize = 0;
                    while j < nbs.len()
                        invariant
                            self.inv_core(Some(c)),
                            self.phase == Phase::Running,
                            self.layout@ == lay,
                            self.start == s0.start,
                            self.goal == s0.goal,
                            self.closed_at(c),
                            self.g_at(c) == Some(k),
                            k + 1 <= self.n_closed,
                            self.n_closed == s0.n_closed + 1,
                            self.closed@.len() == s0.closed@.len(),
                            self.frontier@.next_seq <= 4 * s0.n_closed + 1 + j,
                            j <= nbs@.len(),
                            nbs@.len() <= 4,
                            forall|d: Cell| lay.can_step(c, d) <==> nbs@.contains(d),
                            forall|jj: int| 0 <= jj < nbs@.len() ==> lay.can_step(c, #[trigger] nbs@[jj]),
                            forall|jj: int| 0 <= jj < j ==> (#[trigger] self.g_at(nbs@[jj])) is Some && self.g_at(nbs@[jj])->0 <= k + 1,
                            grid@.wf(),
                            grid@.same_layout(lay),
                            events_ok(lay, events@, true),
                            grid@ == apply_events(gs, events@),
                        decreases nbs@.len() - j,
                    {
                        let d = nbs[j];
                        assert(lay.can_step(c, nbs@[j as int]));
                        let ghost s3 = *self;
                        self.relax(grid, c, k, d, &mut events, Ghost(gs));
                        proof {
                            assert forall|jj: int| 0 <= jj < j + 1 implies (#[trigger] self.g_at(nbs@[jj])) is Some && self.g_at(nbs@[jj])->0 <= k + 1 by {
                                if jj < j {
                                    assert(s3.g_at(nbs@[jj]) is Some);
                                    assert(lay.in_bounds(nbs@[jj]));
                                }
                            }
                        }
                        j = j + 1;
                    }
                    proof {
                        assert forall|x: Cell| lay.in_bounds(x) implies #[trigger] self.running_ok(x, None) by {
                            assert(self.running_ok(x, Some(c)));
                            if x == c {
                                assert forall|y: Cell| #[trigger] lay.can_step(x, y) implies self.g_at(y) is Some && self.g_at(y)->0 <= self.g_at(x)->0 + 1 by {
                                    assert(nbs@.contains(y));
                                    let jj = choose|jj: int| 0 <= jj < nbs@.len() && nbs@[jj] == y;
                                    assert(self.g_at(nbs@[jj]) is Some);
                                }
                            }
                        }
                    }
                }
            },
        }
        events
    }

    /// Abandons the search: it ends without a path and takes no more steps.
    pub fn cancel(&mut self)
        requires
            old(self).inv(),
        ensures
            final(self).inv(),
            final(self).phase_spec() == Phase::Cancelled,
            final(self).layout() == old(self).layout(),
    {
        self.phase = Phase::Cancelled;
        proof {
            let s0 = *old(self);
            assert forall|x: Cell| self.layout@.in_bounds(x) implies #[trigger] self.cell_ok(x) by {
                assert(s0.cell_ok(x));
            }
            assert forall|x: Cell| self.layout@.in_bounds(x) implies #[trigger] self.closed_opt(x) by {
                assert(s0.closed_opt(x));
            }
        }
    }

    pub fn phase(&self) -> (r: Phase)
        ensures
            r == self.phase_spec(),
    {
        self.phase
    }

    /// The path found, from start to goal, read back along predecessor links.
    pub fn path(&self) -> (p: Vec<Cell>)
        requires
            self.inv(),
            self.phase_spec() == Phase::Succeeded,
        ensures
            self.layout().is_path(p@, self.start_cell(), self.goal_cell()),
            forall|q: Seq<Cell>|
                #[trigger] self.layout().is_path(q, self.start_cell(), self.goal_cell()) ==> p@.len() <= q.len(),
    {
        let ghost lay = self.layout@;
        let mut back: Vec<Cell> = Vec::new();
        back.push(self.goal);
        let mut cur = self.goal;
        let mut done = false;
        while !done
            invariant
                self.inv(),
                self.phase == Phase::Succeeded,
                lay == self.layout@,
                back@.len() >= 1,
                back@[0] == self.goal,
                back@.last() == cur,
                lay.in_bounds(cur),
                self.g_at(cur) is Some,
                self.g_at(self.goal) is Some,
                back@.len() - 1 + self.g_at(cur)->0 <= self.g_at(self.goal)->0,
                forall|j: int| 0 <= j < back@.len() ==> lay.in_bounds(#[trigger] back@[j]),
                forall|j: int| 0 <= j < back@.len() - 1 ==> lay.can_step(#[trigger] back@[j + 1], back@[j]),
                done ==> self.cf_at(cur) is None,
            decreases self.g_at(cur)->0 + (if done { 0int } else { 1int }),
        {
            let i = self.idx(cur);
            match self.came_from[i] {
                Some(p) => {
                    proof {
                        assert(self.cell_ok(cur));
                    }
                    back.push(p);
                    cur = p;
                },
                None => {
                    done = true;
                },
            }
        }
        proof {
            assert(self.cell_ok(cur));
        }
        let n = back.len();
        let mut p: Vec<Cell> = Vec::new();
        let mut j: usize = 0;
        while j < n
            invariant
                j <= n,
                n == back@.len(),
                p@.len() == j,
                forall|m: int| 0 <= m < j ==> p@[m] == back@[n - 1 - m],
            decreases n - j,
        {
            p.push(back[n - 1 - j]);
            j = j + 1;
        }
        proof {
            assert forall|m: int| 0 <= m < p@.len() implies lay.in_bounds(#[trigger] p@[m]) by {
                assert(lay.in_bounds(back@[n - 1 - m]));
            }
            assert forall|m: int| 0 <= m < p@.len() - 1 implies lay.can_step(#[trigger] p@[m], p@[m + 1]) by {
                let jj = n - 2 - m;
                assert(lay.can_step(back@[jj + 1], back@[jj]));
            }
        }
        p
    }

    /// Following predecessor links from a reached cell gives a path from the
    /// start no longer than the cell's cost.
    proof fn lemma_chain_walk(&self, exempt: Option<Cell>, x: Cell) -> (q: Seq<Cell>)
        requires
            self.inv_core(exempt),
            self.layout@.in_bounds(x),
            self.g_at(x) is Some,
        ensures
            self.layout@.is_path(q, self.start, x),
            q.len() - 1 <= self.g_at(x)->0,
        decreases self.g_at(x)->0,
    {
        assert(self.cell_ok(x));
        match self.cf_at(x) {
            None => seq![x],
            Some(p) => {
                let q0 = self.lemma_chain_walk(exempt, p);
                let q = q0.push(x);
                assert(q[q.len() - 2] == p);
                assert forall|i: int| 0 <= i < q.len() - 1 implies self.layout@.can_step(#[trigger] q[i], q[i + 1]) by {
                    if i < q.len() - 2 {
                        assert(q0[i] == q[i] && q0[i + 1] == q[i + 1]);
                    }
                }
                assert forall|i: int| 0 <= i < q.len() implies self.layout@.in_bounds(#[trigger] q[i]) by {
                    if i < q.len() - 1 {
                        assert(q0[i] == q[i]);
                    }
                }
                q
            },
        }
    }

    /// On a path from the start, the first cell not closed is reached at a
    /// cost no more than its position.
    proof fn lemma_first_open(&self, q: Seq<Cell>, i: int) -> (m: int)
        requires
            self.inv_core(None),
            self.phase == Phase::Running,
            self.layout@.is_walk(q),
            q[0] == self.start,
            !self.closed_at(q.last()),
            0 <= i < q.len(),
            forall|j: int| 0 <= j < i ==> self.closed_at(#[trigger] q[j]),
        ensures
            0 <= m < q.len(),
            !self.closed_at(q[m]),
            self.g_at(q[m]) is Some,
            self.g_at(q[m])->0 <= m,
        decreases q.len() - i,
    {
        if !self.closed_at(q[i]) {
            if i > 0 {
                let x = q[i - 1];
                let pre = q.subrange(0, i);
                assert(self.layout@.is_walk(pre)) by {
                    assert forall|j: int| 0 <= j < pre.len() - 1 implies self.layout@.can_step(#[trigger] pre[j], pre[j + 1]) by {
                        assert(pre[j] == q[j] && pre[j + 1] == q[j + 1]);
                    }
                    assert forall|j: int| 0 <= j < pre.len() implies self.layout@.in_bounds(#[trigger] pre[j]) by {
                        assert(pre[j] == q[j]);
                    }
                }
                assert(self.layout@.is_path(pre, self.start, x));
                assert(self.closed_at(q[i - 1]));
                assert(self.closed_opt(x));
                assert(self.running_ok(x, None));
                assert(self.layout@.can_step(q[i - 1], q[i]));
            }
            i
        } else {
            self.lemma_first_open(q, i + 1)
        }
    }

    /// A canonical entry popped as the smallest one bounds its cell's cost by
    /// the length of any path from the start to it.
    proof fn lemma_pop_optimal(&self, e: Entry, q: Seq<Cell>)
        requires
            self.inv_core(None),
            self.phase == Phase::Running,
            self.frontier@.entries.contains(e),
            forall|j: int| 0 <= j < self.frontier@.entries.len() ==> key_le(e, #[trigger] self.frontier@.entries[j]),
            self.g_at(e.cell) is Some,
            !self.closed_at(e.cell),
            e.f == self.g_at(e.cell)->0 + manhattan(e.cell, self.goal),
            self.layout@.is_path(q, self.start, e.cell),
        ensures
            self.g_at(e.cell)->0 <= q.len() - 1,
    {
        let m = self.lemma_first_open(q, 0);
        let y = q[m];
        assert(self.layout@.in_bounds(y));
        assert(self.running_ok(y, None));
        let w = choose|w: Entry|
            #[trigger] self.frontier@.entries.contains(w) && w.cell == y && w.f == self.g_at(y)->0
                + manhattan(y, self.goal);
        let wi = choose|wi: int| 0 <= wi < self.frontier@.entries.len() && self.frontier@.entries[wi] == w;
        assert(key_le(e, self.frontier@.entries[wi]));
        let suf = q.subrange(m, q.len() as int);
        assert(self.layout@.is_walk(suf)) by {
            assert forall|j: int| 0 <= j < suf.len() - 1 implies self.layout@.can_step(#[trigger] suf[j], suf[j + 1]) by {
                assert(suf[j] == q[m + j] && suf[j + 1] == q[m + j + 1]);
            }
            assert forall|j: int| 0 <= j < suf.len() implies self.layout@.in_bounds(#[trigger] suf[j]) by {
                assert(suf[j] == q[m + j]);
            }
        }
        lemma_manhattan_admissible(self.layout@, suf);
        assert(suf[0] == y && suf.last() == e.cell);
        lemma_manhattan_triangle(y, e.cell, self.goal);
        assert(w.f <= m + manhattan(y, self.goal));
        assert(e.f <= w.f);
    }
}

/// `o` is a right answer for a search from `a` to `b`: no path exactly when
/// none exists, else a shortest path.
pub open spec fn outcome_correct(g: GridView, a: Cell, b: Cell, o: Outcome) -> bool {
    &&& (o is NoPathFound <==> !g.reachable(a, b))
    &&& (o matches Outcome::PathFound(p) ==> {
        &&& g.is_path(p@, a, b)
        &&& forall|q: Seq<Cell>| #[trigger] g.is_path(q, a, b) ==> p@.len() <= q.len()
    })
}

/// Two right answers for the same grid, start and goal agree on whether a
/// path exists and on its length.
pub proof fn lemma_outcomes_agree(g: GridView, a: Cell, b: Cell, o1: Outcome, o2: Outcome)
    requires
        outcome_correct(g, a, b, o1),
        outcome_correct(g, a, b, o2),
    ensures
        o1 is NoPathFound <==> o2 is NoPathFound,
        o1 matches Outcome::PathFound(p1) ==> (o2 matches Outcome::PathFound(p2) ==> p1@.len() == p2@.len()),
{
    if let Outcome::PathFound(p1) = o1 {
        if let Outcome::PathFound(p2) = o2 {
            assert(g.is_path(p1@, a, b));
            assert(g.is_path(p2@, a, b));
        }
    }
}

/// One Path event for each cell of `p`, in order.
pub open spec fn path_events(p: Seq<Cell>) -> Seq<CellEvent> {
    p.map_values(|c: Cell| CellEvent { cell: c, new_role: Role::Path })
}

/// No event paints Path.
pub open spec fn no_path_events(evs: Seq<CellEvent>) -> bool {
    forall|i: int| 0 <= i < evs.len() ==> (#[trigger] evs[i]).new_role != Role::Path
}

/// Runs a search from `start` to `goal` to completion. Every role change is
/// reported as an event, in order; the search paints only Open and Closed,
/// and on success the cells of the path found, in order, are painted Path.
pub fn run_search(grid: &mut Grid, start: Cell, goal: Cell) -> (r: SearchRun)
    requires
        old(grid)@.wf(),
        old(grid)@.in_bounds(start),
        old(grid)@.in_bounds(goal),
    ensures
        final(grid)@.wf(),
        final(grid)@.same_layout(old(grid)@),
        final(grid)@ == apply_events(old(grid)@, r.events@),
        final(grid)@.start == old(grid)@.start,
        final(grid)@.end == old(grid)@.end,
        outcome_correct(old(grid)@, start, goal, r.outcome),
        events_ok(old(grid)@, r.events@, false),
        r.outcome is NoPathFound ==> no_path_events(r.events@),
        r.outcome matches Outcome::PathFound(p) ==> {
            &&& !old(grid)@.is_barrier(start) ==> {
                &&& r.events@.len() >= p@.len()
                &&& r.events@.subrange(r.events@.len() - p@.len(), r.events@.len() as int) == path_events(p@)
                &&& no_path_events(r.events@.subrange(0, r.events@.len() - p@.len()))
                &&& forall|i: int| 0 <= i < p@.len() ==> final(grid)@.role(#[trigger] p@[i]) == Role::Path
            }
            &&& old(grid)@.is_barrier(start) ==> p@ == seq![start] && no_path_events(r.events@)
        },
        forall|c: Cell|
            old(grid)@.in_bounds(c) && #[trigger] final(grid)@.role(c) == Role::Path ==> old(grid)@.role(c)
                == Role::Path || (r.outcome matches Outcome::PathFound(p) && p@.contains(c)),
{
    let ghost g0 = grid@;
    let mut search = Search::new(grid, start, goal);
    let mut events: Vec<CellEvent> = Vec::new();
    while search.phase() == Phase::Running
        invariant
            search.inv(),
            search.phase_spec() != Phase::Cancelled,
            search.layout() == g0,
            search.start_cell() == start,
            search.goal_cell() == goal,
            grid@.wf(),
            grid@.same_layout(g0),
            events_ok(g0, events@, true),
            grid@ == apply_events(g0, events@),
        decreases (if search.phase_spec() == Phase::Running {
            1nat
        } else {
            0nat
        }), search.remaining(), search.pending(),
    {
        let ghost ev0 = events@;
        let ghost gb = grid@;
        let mut evs = search.step(grid);
        let ghost new_evs = evs@;
        events.append(&mut evs);
        proof {
            assert(forall|i: int| 0 <= i < ev0.len() ==> g0.in_bounds(#[trigger] ev0[i].cell));
            lemma_apply_append(g0, ev0, new_evs);
            assert forall|i: int| 0 <= i < events@.len() implies event_ok(g0, #[trigger] events@[i], true) by {
                if i >= ev0.len() {
                    assert(events@[i] == new_evs[i - ev0.len()]);
                } else {
                    assert(events@[i] == ev0[i]);
                }
            }
        }
    }
    proof {
        assert forall|i: int| 0 <= i < events@.len() implies (#[trigger] events@[i]).new_role != Role::Path by {
            assert(event_ok(g0, events@[i], true));
        }
        lemma_apply_dims(g0, events@);
    }
    let ghost ev_s = events@;
    if search.phase() == Phase::Succeeded {
        let path = search.path();
        let ghost nb = !g0.is_barrier(start);
        proof {
            assert forall|i: int| nb && 0 <= i < path@.len() implies !g0.is_barrier(#[trigger] path@[i]) by {
                if i > 0 {
                    assert(g0.can_step(path@[i - 1], path@[i]));
                }
            }
            if !nb && path@.len() > 1 {
                assert(g0.can_step(path@[0], path@[1]));
            }
        }
        let mut j: usize = 0;
        while j < path.len()
            invariant
                j <= path@.len(),
                outcome_correct(g0, start, goal, Outcome::PathFound(path)),
                nb == !g0.is_barrier(start),
                forall|i: int| nb && 0 <= i < path@.len() ==> !g0.is_barrier(#[trigger] path@[i]),
                !nb ==> path@.len() == 1,
                grid@.wf(),
                grid@.same_layout(g0),
                grid@ == apply_events(g0, events@),
                grid@.start == g0.start,
                grid@.end == g0.end,
                events_ok(g0, events@, false),
                no_path_events(ev_s),
                nb ==> events@ == ev_s + path_events(path@.take(j as int)),
                !nb ==> events@ == ev_s,
                forall|m: int| 0 <= m < j && !g0.is_barrier(path@[m]) ==> grid@.role(#[trigger] path@[m]) == Role::Path,
            decreases path@.len() - j,
        {
            let c = path[j];
            assert(g0.in_bounds(path@[j as int]));
            if grid.role(c) != Role::Barrier {
                let ghost before = grid@;
                let ghost evb = events@;
                grid.paint(c, Role::Path);
                proof {
                    lemma_apply_push(g0, events@, CellEvent { cell: c, new_role: Role::Path });
                }
                events.push(CellEvent { cell: c, new_role: Role::Path });
                proof {
                    lemma_index_distinct(before);
                    assert forall|m: int| 0 <= m < j + 1 && !g0.is_barrier(path@[m]) implies grid@.role(#[trigger] path@[m]) == Role::Path by {
                        assert(g0.in_bounds(path@[m]));
                        if path@[m] != c {
                            assert(before.index(path@[m]) != before.index(c));
                        }
                    }
                    assert forall|i: int| 0 <= i < events@.len() implies event_ok(g0, #[trigger] events@[i], false) by {
                        if i < evb.len() {
                            assert(events@[i] == evb[i]);
                        }
                    }
                    if nb {
                        assert(path@.take(j + 1) =~= path@.take(j as int).push(c));
                        assert(path_events(path@.take(j + 1)) =~= path_events(path@.take(j as int)).push(
                            CellEvent { cell: c, new_role: Role::Path },
                        ));
                        assert(events@ =~= ev_s + path_events(path@.take(j + 1)));
                    }
                }
            } else {
                proof {
                    if nb {
                        assert(!g0.is_barrier(path@[j as int]));
                    }
                }
            }
            j = j + 1;
        }
        proof {
            assert(path@.take(path@.len() as int) =~= path@);
            lemma_final_paths(g0, ev_s, path@, nb, events@);
        }
        SearchRun { events, outcome: Outcome::PathFound(path) }
    } else {
        proof {
            assert forall|c: Cell| g0.in_bounds(c) && #[trigger] grid@.role(c) == Role::Path implies g0.role(c) == Role::Path by {
                assert(forall|i: int| 0 <= i < events@.len() ==> g0.in_bounds(#[trigger] events@[i].cell));
                lemma_apply_role(g0, events@, c);
            }
        }
        SearchRun { events, outcome: Outcome::NoPathFound }
    }
}

proof fn lemma_final_paths(g0: GridView, ev_s: Seq<CellEvent>, p: Seq<Cell>, nb: bool, evs: Seq<CellEvent>)
    requires
        g0.wf(),
        events_ok(g0, evs, false),
        no_path_events(ev_s),
        nb ==> evs == ev_s + path_events(p),
        !nb ==> evs == ev_s,
    ensures
        nb ==> {
            &&& evs.len() >= p.len()
            &&& evs.subrange(evs.len() - p.len(), evs.len() as int) == path_events(p)
            &&& no_path_events(evs.subrange(0, evs.len() - p.len()))
        },
        !nb ==> no_path_events(evs),
        forall|c: Cell|
            g0.in_bounds(c) && #[trigger] apply_events(g0, evs).role(c) == Role::Path ==> g0.role(c) == Role::Path
                || p.contains(c),
{
    if nb {
        assert(evs.subrange(evs.len() - p.len(), evs.len() as int) =~= path_events(p));
        assert(evs.subrange(0, evs.len() - p.len()) =~= ev_s);
    }
    assert forall|c: Cell| g0.in_bounds(c) && #[trigger] apply_events(g0, evs).role(c) == Role::Path implies g0.role(c)
        == Role::Path || p.contains(c) by {
        assert(forall|i: int| 0 <= i < evs.len() ==> g0.in_bounds(#[trigger] evs[i].cell));
        lemma_apply_role(g0, evs, c);
        if apply_events(g0, evs).role(c) != g0.role(c) {
            let i = choose|i: int|
                0 <= i < evs.len() && (#[trigger] evs[i]).cell == c && evs[i].new_role == apply_events(g0, evs).role(c);
            if i < ev_s.len() {
                assert(evs[i] == ev_s[i]);
            } else {
                assert(evs[i] == path_events(p)[i - ev_s.len()]);
                assert(p[i - ev_s.len()] == c);
            }
        }
    }
}

} // verus!
