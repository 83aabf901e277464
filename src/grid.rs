//! The grid of cells: dimensions, role tags, start/end bookkeeping and
//! 4-directional adjacency derived from the current barriers.
use vstd::prelude::*;

verus! {

/// Largest number of cells a grid may hold.
pub const MAX_CELLS: usize = 0x1000_0000;

/// The role tag carried by each cell.
#[derive(Clone, Copy, Debug, PartialEq, Eq, Structural)]
pub enum Role {
    Empty,
    Start,
    End,
    Barrier,
    Open,
    Closed,
    Path,
}

/// A cell coordinate.
#[derive(Clone, Copy, Debug, PartialEq, Eq, Structural)]
pub struct Cell {
    pub row: usize,
    pub col: usize,
}

/// Two cells one 4-directional step apart.
pub open spec fn adjacent(a: Cell, b: Cell) -> bool {
    (a.row == b.row && (a.col + 1 == b.col || b.col + 1 == a.col)) || (a.col == b.col && (
    a.row + 1 == b.row || b.row + 1 == a.row))
}

/// Roles that a search paints on the grid.
pub open spec fn is_search_role(r: Role) -> bool {
    r == Role::Open || r == Role::Closed || r == Role::Path
}

/// Mathematical model of a grid.
pub struct GridView {
    pub rows: nat,
    pub cols: nat,
    pub roles: Seq<Role>,
    pub start: Option<Cell>,
    pub end: Option<Cell>,
}

impl GridView {
    pub open spec fn in_bounds(self, c: Cell) -> bool {
        c.row < self.rows && c.col < self.cols
    }

    /// Row-major position of a cell.
    pub open spec fn index(self, c: Cell) -> int {
        c.row * self.cols + c.col
    }

    pub open spec fn role(self, c: Cell) -> Role {
        self.roles[self.index(c)]
    }

    pub open spec fn is_barrier(self, c: Cell) -> bool {
        self.role(c) == Role::Barrier
    }

    /// One move of a path: between adjacent in-bounds cells, neither a barrier.
    pub open spec fn can_step(self, a: Cell, b: Cell) -> bool {
        self.in_bounds(a) && self.in_bounds(b) && adjacent(a, b) && !self.is_barrier(a) && !self.is_barrier(b)
    }

    /// `p` is a path through the grid: every move is a legal step.
    pub open spec fn is_walk(self, p: Seq<Cell>) -> bool {
        &&& p.len() >= 1
        &&& forall|i: int| 0 <= i < p.len() ==> self.in_bounds(#[trigger] p[i])
        &&& forall|i: int| 0 <= i < p.len() - 1 ==> self.can_step(#[trigger] p[i], p[i + 1])
    }

    /// `p` leads from `a` to `b`.
    pub open spec fn is_path(self, p: Seq<Cell>, a: Cell, b: Cell) -> bool {
        self.is_walk(p) && p[0] == a && p.last() == b
    }

    /// Some path leads from `a` to `b`.
    pub open spec fn reachable(self, a: Cell, b: Cell) -> bool {
        exists|p: Seq<Cell>| self.is_path(p, a, b)
    }

    /// Holder of a unique role is consistent with the bookkeeping.
    pub open spec fn holder_ok(self, holder: Option<Cell>, r: Role) -> bool {
        &&& forall|c: Cell| self.in_bounds(c) && self.role(c) == r ==> holder == Some(c)
        &&& holder matches Some(h) ==> {
            &&& self.in_bounds(h)
            &&& (self.role(h) == r || is_search_role(self.role(h)))
        }
    }

    pub open spec fn wf(self) -> bool {
        &&& 1 <= self.rows
        &&& 1 <= self.cols
        &&& self.rows * self.cols <= MAX_CELLS
        &&& self.roles.len() == self.rows * self.cols
        &&& self.holder_ok(self.start, Role::Start)
        &&& self.holder_ok(self.end, Role::End)
        &&& (self.start is Some ==> self.start != self.end)
    }

    /// The same dimensions and the same barriers.
    pub open spec fn same_layout(self, o: GridView) -> bool {
        &&& self.rows == o.rows
        &&& self.cols == o.cols
        &&& self.roles.len() == o.roles.len()
        &&& forall|c: Cell| self.in_bounds(c) ==> (self.is_barrier(c) <==> o.is_barrier(c))
    }

    /// The in-bounds neighbours of `c` that are not barriers, in the order
    /// up, down, left, right; none for a barrier.
    pub open spec fn neighbor_seq(self, c: Cell) -> Seq<Cell> {
        if self.is_barrier(c) {
            Seq::empty()
        } else {
            self.open_neighbor_seq(c)
        }
    }

    /// The in-bounds, non-barrier neighbours of `c`, whatever its own role.
    pub open spec fn open_neighbor_seq(self, c: Cell) -> Seq<Cell> {
        let up = Cell { row: (c.row - 1) as usize, col: c.col };
        let down = Cell { row: (c.row + 1) as usize, col: c.col };
        let left = Cell { row: c.row, col: (c.col - 1) as usize };
        let right = Cell { row: c.row, col: (c.col + 1) as usize };
        (if c.row > 0 && !self.is_barrier(up) { seq![up] } else { Seq::empty() })
        + (if c.row + 1 < self.rows && !self.is_barrier(down) { seq![down] } else { Seq::empty() })
        + (if c.col > 0 && !self.is_barrier(left) { seq![left] } else { Seq::empty() })
        + (if c.col + 1 < self.cols && !self.is_barrier(right) { seq![right] } else { Seq::empty() })
    }

    /// The grid with every cell Empty and no start or end.
    pub open spec fn cleared(self) -> GridView {
        GridView {
            rows: self.rows,
            cols: self.cols,
            roles: Seq::new(self.roles.len(), |i: int| Role::Empty),
            start: None,
            end: None,
        }
    }

    /// Overwrites one role, keeping at most one Start and at most one End.
    pub open spec fn with_role(self, c: Cell, r: Role) -> GridView {
        let roles1 = if r == Role::Start && self.start is Some && self.start != Some(c) {
            self.roles.update(self.index(self.start->0), Role::Empty)
        } else {
            self.roles
        };
        let roles2 = if r == Role::End && self.end is Some && self.end != Some(c) {
            roles1.update(self.index(self.end->0), Role::Empty)
        } else {
            roles1
        };
        GridView {
            rows: self.rows,
            cols: self.cols,
            roles: roles2.update(self.index(c), r),
            start: if r == Role::Start {
                Some(c)
            } else if self.start == Some(c) {
                None
            } else {
                self.start
            },
            end: if r == Role::End {
                Some(c)
            } else if self.end == Some(c) {
                None
            } else {
                self.end
            },
        }
    }

    /// The role a placement gives: Start first, then End, then Barrier.
    pub open spec fn placed_role(self) -> Role {
        if self.start is None {
            Role::Start
        } else if self.end is None {
            Role::End
        } else {
            Role::Barrier
        }
    }
}

/// Overwriting a role keeps a grid well formed.
pub proof fn lemma_with_role_wf(v: GridView, c: Cell, r: Role)
    requires
        v.wf(),
        v.in_bounds(c),
    ensures
        v.with_role(c, r).wf(),
{
    lemma_index_distinct(v);
    let w = v.with_role(c, r);
    assert forall|x: Cell| v.in_bounds(x) implies #[trigger] w.role(x) == (if x == c {
        r
    } else if (r == Role::Start && v.start == Some(x)) || (r == Role::End && v.end == Some(x)) {
        Role::Empty
    } else {
        v.role(x)
    }) by {
        assert(w.index(x) == v.index(x));
        if x != c {
            assert(v.index(x) != v.index(c));
            if let Some(s) = v.start {
                if s != x {
                    assert(v.index(x) != v.index(s));
                }
            }
            if let Some(e) = v.end {
                if e != x {
                    assert(v.index(x) != v.index(e));
                }
            }
        }
    }
    if let Some(s) = w.start {
        assert(w.in_bounds(s));
        assert(w.role(s) == Role::Start || is_search_role(w.role(s)));
    }
    if let Some(e) = w.end {
        assert(w.in_bounds(e));
        assert(w.role(e) == Role::End || is_search_role(w.role(e)));
    }
}

/// Painting a search role on a non-barrier cell keeps a grid well formed.
pub proof fn lemma_paint_wf(v: GridView, c: Cell, r: Role)
    requires
        v.wf(),
        v.in_bounds(c),
        !v.is_barrier(c),
        is_search_role(r),
    ensures
        (GridView { roles: v.roles.update(v.index(c), r), ..v }).wf(),
        (GridView { roles: v.roles.update(v.index(c), r), ..v }).same_layout(v),
{
    lemma_index_distinct(v);
    let w = GridView { roles: v.roles.update(v.index(c), r), ..v };
    assert forall|x: Cell| v.in_bounds(x) implies #[trigger] w.role(x) == (if x == c {
        r
    } else {
        v.role(x)
    }) by {
        assert(w.index(x) == v.index(x));
        if x != c {
            assert(v.index(x) != v.index(c));
        }
    }
    if let Some(s) = w.start {
        assert(w.role(s) == Role::Start || is_search_role(w.role(s)));
    }
    if let Some(e) = w.end {
        assert(w.role(e) == Role::End || is_search_role(w.role(e)));
    }
}

/// Each dimension of a well-formed grid is at most the cell bound.
pub proof fn lemma_dims_bound(v: GridView)
    requires
        v.wf(),
    ensures
        v.rows <= MAX_CELLS,
        v.cols <= MAX_CELLS,
{
    assert(v.rows <= v.rows * v.cols && v.cols <= v.rows * v.cols) by (nonlinear_arith)
        requires
            1 <= v.rows,
            1 <= v.cols,
    ;
}

pub proof fn lemma_index_bounds(rows: nat, cols: nat, c: Cell)
    requires
        c.row < rows,
        c.col < cols,
    ensures
        0 <= c.row * cols + c.col < rows * cols,
{
    assert(c.row * cols + c.col < rows * cols) by (nonlinear_arith)
        requires
            c.row < rows,
            c.col < cols,
    ;
}

pub proof fn lemma_index_injective(cols: nat, a: Cell, b: Cell)
    requires
        a.col < cols,
        b.col < cols,
        a.row * cols + a.col == b.row * cols + b.col,
    ensures
        a == b,
{
    assert(a.row == b.row) by (nonlinear_arith)
        requires
            a.col < cols,
            b.col < cols,
            a.row * cols + a.col == b.row * cols + b.col,
    ;
}

/// Distinct in-bounds cells sit at distinct positions.
pub proof fn lemma_index_distinct(g: GridView)
    ensures
        forall|a: Cell, b: Cell|
            g.in_bounds(a) && g.in_bounds(b) && a != b ==> #[trigger] g.index(a) != #[trigger] g.index(
                b,
            ),
        forall|a: Cell| g.in_bounds(a) ==> 0 <= #[trigger] g.index(a) < g.rows * g.cols,
{
    assert forall|a: Cell, b: Cell|
        g.in_bounds(a) && g.in_bounds(b) && a != b implies #[trigger] g.index(a) != #[trigger] g.index(
            b,
        ) by {
        if g.index(a) == g.index(b) {
            lemma_index_injective(g.cols, a, b);
        }
    }
    assert forall|a: Cell| g.in_bounds(a) implies 0 <= #[trigger] g.index(a) < g.rows * g.cols by {
        lemma_index_bounds(g.rows, g.cols, a);
    }
}

/// A fixed-size, row-major grid of role-tagged cells.
pub struct Grid {
    rows: usize,
    cols: usize,
    roles: Vec<Role>,
    start: Option<Cell>,
    end: Option<Cell>,
}

impl View for Grid {
    type V = GridView;

    closed spec fn view(&self) -> GridView {
        GridView {
            rows: self.rows as nat,
            cols: self.cols as nat,
            roles: self.roles@,
            start: self.start,
            end: self.end,
        }
    }
}

impl Grid {
    /// A `rows` x `cols` grid of Empty cells with no start or end.
    pub fn new(rows: usize, cols: usize) -> (g: Grid)
        requires
            1 <= rows,
            1 <= cols,
            rows * cols <= MAX_CELLS,
        ensures
            g@.wf(),
            g@.rows == rows,
            g@.cols == cols,
            g@ == g@.cleared(),
    {
        let n: usize = rows * cols;
        let mut roles: Vec<Role> = Vec::new();
        let mut i: usize = 0;
        while i < n
            invariant
                i <= n,
                roles@.len() == i,
                forall|j: int| 0 <= j < i ==> roles@[j] == Role::Empty,
            decreases n - i,
        {
            roles.push(Role::Empty);
            i = i + 1;
        }
        let g = Grid { rows, cols, roles, start: None, end: None };
        proof {
            lemma_index_distinct(g@);
            assert(g@.roles =~= g@.cleared().roles);
        }
        g
    }

    pub fn rows(&self) -> (r: usize)
        ensures
            r == self@.rows,
    {
        self.rows
    }

    pub fn cols(&self) -> (r: usize)
        ensures
            r == self@.cols,
    {
        self.cols
    }

    /// The cell holding Start, if any.
    pub fn start(&self) -> (r: Option<Cell>)
        ensures
            r == self@.start,
    {
        self.start
    }

    /// The cell holding End, if any.
    pub fn end(&self) -> (r: Option<Cell>)
        ensures
            r == self@.end,
    {
        self.end
    }

    pub fn in_bounds(&self, c: Cell) -> (r: bool)
        ensures
            r == self@.in_bounds(c),
    {
        c.row < self.rows && c.col < self.cols
    }

    fn index(&self, c: Cell) -> (r: usize)
        requires
            self@.wf(),
            self@.in_bounds(c),
        ensures
            r == self@.index(c),
            r < self.roles@.len(),
    {
        proof {
            lemma_index_bounds(self@.rows, self@.cols, c);
        }
        c.row * self.cols + c.col
    }

    pub fn role(&self, c: Cell) -> (r: Role)
        requires
            self@.wf(),
            self@.in_bounds(c),
        ensures
            r == self@.role(c),
    {
        let i = self.index(c);
        self.roles[i]
    }

    fn is_barrier(&self, c: Cell) -> (r: bool)
        requires
            self@.wf(),
            self@.in_bounds(c),
        ensures
            r == self@.is_barrier(c),
    {
        let i = self.index(c);
        match self.roles[i] {
            Role::Barrier => true,
            _ => false,
        }
    }

    /// The in-bounds, non-barrier neighbours of `c`: up, down, left, right.
    pub fn neighbors(&self, c: Cell) -> (r: Vec<Cell>)
        requires
            self@.wf(),
            self@.in_bounds(c),
        ensures
            r@ == self@.neighbor_seq(c),
    {
        let mut r: Vec<Cell> = Vec::new();
        if self.is_barrier(c) {
            return r;
        }
        if c.row > 0 && !self.is_barrier(Cell { row: c.row - 1, col: c.col }) {
            r.push(Cell { row: c.row - 1, col: c.col });
        }
        if c.row + 1 < self.rows && !self.is_barrier(Cell { row: c.row + 1, col: c.col }) {
            r.push(Cell { row: c.row + 1, col: c.col });
        }
        if c.col > 0 && !self.is_barrier(Cell { row: c.row, col: c.col - 1 }) {
            r.push(Cell { row: c.row, col: c.col - 1 });
        }
        if c.col + 1 < self.cols && !self.is_barrier(Cell { row: c.row, col: c.col + 1 }) {
            r.push(Cell { row: c.row, col: c.col + 1 });
        }
        assert(r@ =~= self@.open_neighbor_seq(c));
        r
    }

    /// Overwrites the role of `c`. Giving Start (or End) to a cell clears the
    /// previous holder of that role to Empty; overwriting the holder of Start
    /// (or End) with another role clears that bookkeeping.
    pub fn set_role(&mut self, c: Cell, r: Role)
        requires
            old(self)@.wf(),
            old(self)@.in_bounds(c),
        ensures
            final(self)@ == old(self)@.with_role(c, r),
            final(self)@.wf(),
    {
        let ghost v0 = self@;
        proof {
            lemma_index_distinct(v0);
            lemma_with_role_wf(v0, c, r);
        }
        let i = self.index(c);
        if r == Role::Start {
            if let Some(s) = self.start {
                if s != c {
                    let j = self.index(s);
                    self.roles.set(j, Role::Empty);
                }
            }
        }
        if r == Role::End {
            if let Some(e) = self.end {
                if e != c {
                    let j = self.index(e);
                    self.roles.set(j, Role::Empty);
                }
            }
        }
        self.roles.set(i, r);
        if r == Role::Start {
            self.start = Some(c);
        } else if self.start == Some(c) {
            self.start = None;
        }
        if r == Role::End {
            self.end = Some(c);
        } else if self.end == Some(c) {
            self.end = None;
        }
        assert(self@ == v0.with_role(c, r));
    }

    /// Sets every cell to Empty and clears the start and end.
    pub fn reset_all(&mut self)
        requires
            old(self)@.wf(),
        ensures
            final(self)@ == old(self)@.cleared(),
            final(self)@.wf(),
    {
        let n = self.roles.len();
        let mut i: usize = 0;
        while i < n
            invariant
                i <= n,
                n == self.roles@.len(),
                self.rows == old(self).rows,
                self.cols == old(self).cols,
                self.roles@.len() == old(self).roles@.len(),
                forall|j: int| 0 <= j < i ==> self.roles@[j] == Role::Empty,
            decreases n - i,
        {
            self.roles.set(i, Role::Empty);
            i = i + 1;
        }
        self.start = None;
        self.end = None;
        proof {
            lemma_index_distinct(self@);
        }
        assert(self@.roles =~= old(self)@.cleared().roles);
    }

    /// Places Start if there is none, else End if there is none, else a Barrier.
    pub fn place(&mut self, c: Cell)
        requires
            old(self)@.wf(),
            old(self)@.in_bounds(c),
        ensures
            final(self)@ == old(self)@.with_role(c, old(self)@.placed_role()),
            final(self)@.wf(),
    {
        let r = if self.start.is_none() {
            Role::Start
        } else if self.end.is_none() {
            Role::End
        } else {
            Role::Barrier
        };
        self.set_role(c, r);
    }

    /// Returns `c` to Empty, clearing Start or End if it held one.
    pub fn clear_cell(&mut self, c: Cell)
        requires
            old(self)@.wf(),
            old(self)@.in_bounds(c),
        ensures
            final(self)@ == old(self)@.with_role(c, Role::Empty),
            final(self)@.wf(),
    {
        self.set_role(c, Role::Empty);
    }

    /// Paints a search role on `c`; barriers and bookkeeping are untouched.
    pub(crate) fn paint(&mut self, c: Cell, r: Role)
        requires
            old(self)@.wf(),
            old(self)@.in_bounds(c),
            !old(self)@.is_barrier(c),
            is_search_role(r),
        ensures
            final(self)@ == (GridView { roles: old(self)@.roles.update(old(self)@.index(c), r), ..old(self)@ }),
            final(self)@.wf(),
            final(self)@.same_layout(old(self)@),
    {
        proof {
            lemma_paint_wf(self@, c, r);
        }
        let i = self.index(c);
        self.roles.set(i, r);
    }
}

/// Resetting is idempotent: clearing an already cleared grid gives the same
/// all-Empty grid, with no start and no end.
pub proof fn lemma_reset_idempotent(v: GridView)
    ensures
        v.cleared().cleared() == v.cleared(),
        forall|i: int| 0 <= i < v.cleared().roles.len() ==> v.cleared().roles[i] == Role::Empty,
{
    assert(v.cleared().cleared().roles =~= v.cleared().roles);
}

} // verus!
