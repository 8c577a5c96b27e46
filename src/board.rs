use vstd::prelude::*;
use crate::cell::{Cell, CellState, glyph, is_opposite};

verus! {

/// A grid of cell states, indexed by row then column.
pub type Grid = Seq<Seq<CellState>>;

/// `g` is an `n` by `n` grid small enough that its cell count fits in a `usize`.
pub open spec fn grid_wf(g: Grid, n: int) -> bool {
    &&& g.len() == n
    &&& forall|i: int| 0 <= i < n ==> #[trigger] g[i].len() == n
    &&& n * n <= usize::MAX
}

/// `(r, c)` is on an `n` by `n` board.
pub open spec fn inside(n: int, r: int, c: int) -> bool {
    0 <= r < n && 0 <= c < n
}

/// Row step of the `d`-th of the eight directions.
pub open spec fn dir_r(d: int) -> int {
    if d == 2 || d == 4 || d == 5 {
        1
    } else if d == 3 || d == 6 || d == 7 {
        -1
    } else {
        0
    }
}

/// Column step of the `d`-th of the eight directions.
pub open spec fn dir_c(d: int) -> int {
    if d == 0 || d == 4 || d == 6 {
        1
    } else if d == 1 || d == 5 || d == 7 {
        -1
    } else {
        0
    }
}

/// How many more steps fit between `(r, c)` and the edge, counted per moving axis.
pub open spec fn steps_left(n: int, r: int, c: int, d: int) -> int {
    (if dir_r(d) == 1 { n - r } else if dir_r(d) == -1 { r + 1 } else { 0 })
    + (if dir_c(d) == 1 { n - c } else if dir_c(d) == -1 { c + 1 } else { 0 })
}

/// The cell after `(r, c)` in direction `d` is on the board and holds a stone
/// of the other color than `color`.
pub open spec fn next_is_opposite(g: Grid, n: int, r: int, c: int, d: int, color: CellState) -> bool {
    &&& 0 <= d < 8
    &&& inside(n, r + dir_r(d), c + dir_c(d))
    &&& is_opposite(color, g[r + dir_r(d)][c + dir_c(d)])
}

/// Where a walk from `(r, c)` in direction `d` stops: the first position that
/// is off the board or does not hold a stone of the other color.
pub open spec fn ray_stop(g: Grid, n: int, r: int, c: int, d: int, color: CellState) -> (int, int)
    decreases steps_left(n, r, c, d),
{
    if next_is_opposite(g, n, r, c, d, color) {
        ray_stop(g, n, r + dir_r(d), c + dir_c(d), d, color)
    } else {
        (r + dir_r(d), c + dir_c(d))
    }
}

/// `(i, j)` is one of the stones of the other color walked over from `(r, c)` in direction `d`.
pub open spec fn on_run(g: Grid, n: int, r: int, c: int, d: int, color: CellState, i: int, j: int) -> bool
    decreases steps_left(n, r, c, d),
{
    if next_is_opposite(g, n, r, c, d, color) {
        (i == r + dir_r(d) && j == c + dir_c(d)) || on_run(g, n, r + dir_r(d), c + dir_c(d), d, color, i, j)
    } else {
        false
    }
}

/// The ray from `(r, c)` in direction `d` captures: it passes over at least one
/// stone of the other color and then ends on the board on a stone of `color`.
pub open spec fn qualifies(g: Grid, n: int, r: int, c: int, d: int, color: CellState) -> bool {
    let s = ray_stop(g, n, r, c, d, color);
    &&& s != (r + dir_r(d), c + dir_c(d))
    &&& inside(n, s.0, s.1)
    &&& g[s.0][s.1] == color
}

/// A stone of `color` may be placed at `(r, c)`.
pub open spec fn can_place(g: Grid, n: int, r: int, c: int, color: CellState) -> bool {
    &&& g[r][c] == CellState::EMPTY
    &&& exists|d: int| 0 <= d < 8 && #[trigger] qualifies(g, n, r, c, d, color)
}

/// Placing `color` at `(r, c)` turns the stone at `(i, j)`.
pub open spec fn captured(g: Grid, n: int, r: int, c: int, color: CellState, i: int, j: int) -> bool {
    exists|d: int| 0 <= d < 8 && #[trigger] qualifies(g, n, r, c, d, color) && #[trigger] on_run(g, n, r, c, d, color, i, j)
}

/// The grid after a stone of `color` is placed at `(r, c)`.
pub open spec fn placed(g: Grid, n: int, r: int, c: int, color: CellState) -> Grid {
    Seq::new(n as nat, |i: int| Seq::new(n as nat, |j: int|
        if (i == r && j == c) || captured(g, n, r, c, color, i, j) { color } else { g[i][j] }))
}


/// `(i, j)` is listed in `s`.
pub open spec fn has_pos(s: Seq<(usize, usize)>, i: int, j: int) -> bool {
    exists|k: int| 0 <= k < s.len() && s[k].0 == i && s[k].1 == j
}

/// Placing `color` at `(r, c)` turns `(i, j)` through one of the first `d` directions.
pub open spec fn captured_below(g: Grid, n: int, r: int, c: int, color: CellState, d: int, i: int, j: int) -> bool {
    exists|e: int| 0 <= e < d && #[trigger] qualifies(g, n, r, c, e, color) && #[trigger] on_run(g, n, r, c, e, color, i, j)
}

/// `g` with every listed position set to `color`.
pub open spec fn painted(g: Grid, s: Seq<(usize, usize)>, color: CellState) -> Grid {
    Seq::new(g.len(), |i: int| Seq::new(g[i].len(), |j: int| if has_pos(s, i, j) { color } else { g[i][j] }))
}

/// A stone walked over lies further along the ray, on the board, and of the other color.
pub proof fn lemma_on_run_ahead(g: Grid, n: int, r: int, c: int, d: int, color: CellState, i: int, j: int)
    requires
        on_run(g, n, r, c, d, color, i, j),
    ensures
        steps_left(n, i, j, d) < steps_left(n, r, c, d),
        inside(n, i, j),
        is_opposite(color, g[i][j]),
    decreases steps_left(n, r, c, d),
{
    if next_is_opposite(g, n, r, c, d, color) {
        if !(i == r + dir_r(d) && j == c + dir_c(d)) {
            lemma_on_run_ahead(g, n, r + dir_r(d), c + dir_c(d), d, color, i, j);
        }
    }
}


/// `g` with `(i, j)` set to `s`.
pub open spec fn set_cell(g: Grid, i: int, j: int, s: CellState) -> Grid {
    g.update(i, g[i].update(j, s))
}

/// An `n` by `n` grid of empty cells.
pub open spec fn empty_grid(n: int) -> Grid {
    Seq::new(n as nat, |i: int| Seq::new(n as nat, |j: int| CellState::EMPTY))
}

/// `g` with the starting cross at its center: white on the main diagonal of
/// the central two by two block, black on the other diagonal.
pub open spec fn with_cross(g: Grid, n: int) -> Grid {
    let m = (n - 1) / 2;
    set_cell(set_cell(set_cell(set_cell(g, m, m, CellState::WHITE), m + 1, m, CellState::BLACK),
        m, m + 1, CellState::BLACK), m + 1, m + 1, CellState::WHITE)
}

/// Cells of `row` holding `color`.
pub open spec fn count_row(row: Seq<CellState>, color: CellState) -> nat
    decreases row.len(),
{
    if row.len() == 0 {
        0
    } else {
        count_row(row.drop_last(), color) + (if row.last() == color { 1nat } else { 0nat })
    }
}

/// Cells of `g` holding `color`.
pub open spec fn count_grid(g: Grid, color: CellState) -> nat
    decreases g.len(),
{
    if g.len() == 0 {
        0
    } else {
        count_grid(g.drop_last(), color) + count_row(g.last(), color)
    }
}

/// No cell of the `n` by `n` grid `g` is empty.
pub open spec fn full(g: Grid, n: int) -> bool {
    forall|i: int, j: int| inside(n, i, j) ==> #[trigger] g[i][j] != CellState::EMPTY
}

/// A row holds at most as many cells of a color as it has cells.
pub proof fn lemma_count_row_bound(row: Seq<CellState>, color: CellState)
    ensures
        count_row(row, color) <= row.len(),
    decreases row.len(),
{
    if row.len() > 0 {
        lemma_count_row_bound(row.drop_last(), color);
    }
}

/// A grid of rows of length `n` holds at most `n` cells of a color per row.
pub proof fn lemma_count_grid_bound(g: Grid, n: int, color: CellState)
    requires
        n >= 0,
        forall|i: int| 0 <= i < g.len() ==> #[trigger] g[i].len() == n,
    ensures
        count_grid(g, color) <= g.len() * n,
    decreases g.len(),
{
    if g.len() > 0 {
        let h = g.drop_last();
        assert forall|i: int| 0 <= i < h.len() implies #[trigger] h[i].len() == n by {
            assert(h[i] == g[i]);
        }
        lemma_count_grid_bound(h, n, color);
        lemma_count_row_bound(g.last(), color);
        assert((g.len() - 1) * n + n == g.len() * n) by (nonlinear_arith);
    }
}


proof fn lemma_count_row_diff(a: Seq<CellState>, b: Seq<CellState>, color: CellState, j0: int)
    requires
        a.len() == b.len(),
        forall|j: int| 0 <= j < a.len() && j != j0 ==> (#[trigger] a[j] == color) == (b[j] == color),
        0 <= j0 < a.len() ==> a[j0] == color && b[j0] != color,
    ensures
        count_row(b, color) + (if 0 <= j0 < a.len() { 1int } else { 0int }) == count_row(a, color),
    decreases a.len(),
{
    if a.len() > 0 {
        let a1 = a.drop_last();
        let b1 = b.drop_last();
        assert forall|j: int| 0 <= j < a1.len() && j != j0 implies (#[trigger] a1[j] == color) == (b1[j] == color) by {
            assert(a1[j] == a[j] && b1[j] == b[j]);
        }
        lemma_count_row_diff(a1, b1, color, j0);
    }
}

proof fn lemma_count_grid_diff(g1: Grid, g2: Grid, n: int, color: CellState, r0: int, c0: int)
    requires
        g1.len() == g2.len(),
        forall|i: int| 0 <= i < g1.len() ==> #[trigger] g1[i].len() == n && g2[i].len() == n,
        forall|i: int, j: int| 0 <= i < g1.len() && 0 <= j < n && !(i == r0 && j == c0)
            ==> (#[trigger] g1[i][j] == color) == (g2[i][j] == color),
        0 <= c0 < n,
        0 <= r0 < g1.len() ==> g1[r0][c0] == color && g2[r0][c0] != color,
    ensures
        count_grid(g2, color) + (if 0 <= r0 < g1.len() { 1int } else { 0int }) == count_grid(g1, color),
    decreases g1.len(),
{
    if g1.len() > 0 {
        let h1 = g1.drop_last();
        let h2 = g2.drop_last();
        assert forall|i: int| 0 <= i < h1.len() implies #[trigger] h1[i].len() == n && h2[i].len() == n by {
            assert(h1[i] == g1[i] && h2[i] == g2[i]);
        }
        assert forall|i: int, j: int| 0 <= i < h1.len() && 0 <= j < n && !(i == r0 && j == c0)
            implies (#[trigger] h1[i][j] == color) == (h2[i][j] == color) by {
            assert(h1[i] == g1[i] && h2[i] == g2[i]);
        }
        lemma_count_grid_diff(h1, h2, n, color, r0, c0);
        let last = g1.len() - 1;
        let j0 = if last == r0 { c0 } else { -1 };
        assert forall|j: int| 0 <= j < n && j != j0 implies (#[trigger] g1.last()[j] == color) == (g2.last()[j] == color) by {
            assert(g1[last][j] == color <==> g2[last][j] == color);
        }
        lemma_count_row_diff(g1.last(), g2.last(), color, j0);
    }
}

/// A placement fills exactly one empty cell: the one placed on.
pub proof fn lemma_place_fills_one(g: Grid, n: int, r: int, c: int, color: CellState)
    requires
        grid_wf(g, n),
        inside(n, r, c),
        can_place(g, n, r, c, color),
        color != CellState::EMPTY,
    ensures
        grid_wf(placed(g, n, r, c, color), n),
        count_grid(placed(g, n, r, c, color), CellState::EMPTY) + 1 == count_grid(g, CellState::EMPTY),
{
    let h = placed(g, n, r, c, color);
    assert forall|i: int, j: int| 0 <= i < n && 0 <= j < n && !(i == r && j == c)
        implies (#[trigger] g[i][j] == CellState::EMPTY) == (h[i][j] == CellState::EMPTY) by {
        if captured(g, n, r, c, color, i, j) {
            let d = choose|d: int| 0 <= d < 8 && #[trigger] qualifies(g, n, r, c, d, color) && #[trigger] on_run(g, n, r, c, d, color, i, j);
            lemma_on_run_ahead(g, n, r, c, d, color, i, j);
        }
    }
    lemma_count_grid_diff(g, h, n, CellState::EMPTY, r, c);
}


proof fn lemma_count_row_total(row: Seq<CellState>)
    ensures
        count_row(row, CellState::WHITE) + count_row(row, CellState::BLACK) + count_row(row, CellState::EMPTY) == row.len(),
    decreases row.len(),
{
    if row.len() > 0 {
        lemma_count_row_total(row.drop_last());
    }
}

/// Every cell holds exactly one of the three states, so the three counts add
/// up to the number of cells.
pub proof fn lemma_counts_total(g: Grid, n: int)
    requires
        n >= 0,
        forall|i: int| 0 <= i < g.len() ==> #[trigger] g[i].len() == n,
    ensures
        count_grid(g, CellState::WHITE) + count_grid(g, CellState::BLACK) + count_grid(g, CellState::EMPTY) == g.len() * n,
    decreases g.len(),
{
    if g.len() > 0 {
        let h = g.drop_last();
        assert forall|i: int| 0 <= i < h.len() implies #[trigger] h[i].len() == n by {
            assert(h[i] == g[i]);
        }
        lemma_counts_total(h, n);
        lemma_count_row_total(g.last());
        assert((g.len() - 1) * n + n == g.len() * n) by (nonlinear_arith);
    }
}

/// A walk never stops on a stone of the other color.
pub proof fn lemma_stop_not_opposite(g: Grid, n: int, r: int, c: int, d: int, color: CellState)
    requires
        0 <= d < 8,
    ensures
        ({
            let s = ray_stop(g, n, r, c, d, color);
            !(inside(n, s.0, s.1) && is_opposite(color, g[s.0][s.1]))
        }),
    decreases steps_left(n, r, c, d),
{
    if next_is_opposite(g, n, r, c, d, color) {
        lemma_stop_not_opposite(g, n, r + dir_r(d), c + dir_c(d), d, color);
    }
}

/// An `n` by `n` board of cells.
#[derive(Clone, Debug)]
pub struct Board {
    size: usize,
    cells: Vec<Vec<Cell>>,
}

impl View for Board {
    type V = Grid;

    closed spec fn view(&self) -> Grid {
        self.cells@.map_values(|row: Vec<Cell>| row@.map_values(|x: Cell| x@))
    }
}


/// A cursor over the cells of a board in row-major order.
pub struct Cells<'a> {
    row: usize,
    col: usize,
    size: usize,
    cells: &'a Vec<Vec<Cell>>,
}

impl<'a> Cells<'a> {
    pub closed spec fn grid(&self) -> Grid {
        self.cells@.map_values(|row: Vec<Cell>| row@.map_values(|x: Cell| x@))
    }

    pub closed spec fn n(&self) -> int {
        self.size as int
    }

    /// The 0-based row and column of the next cell handed out.
    pub closed spec fn position(&self) -> (int, int) {
        (self.row as int, self.col as int)
    }

    pub closed spec fn wf(&self) -> bool {
        &&& self.cells@.len() == self.size
        &&& forall|i: int| 0 <= i < self.size ==> #[trigger] self.cells@[i]@.len() == self.size
        &&& self.row <= self.size
        &&& (self.row < self.size && self.col < self.size) || (self.row == self.size && self.col == 0)
    }

    /// The state of the next cell, moving on to the one after it; `None` once
    /// every cell has been handed out.
    pub fn next(&mut self) -> (res: Option<CellState>)
        requires
            old(self).wf(),
        ensures
            final(self).wf(),
            final(self).grid() == old(self).grid(),
            final(self).n() == old(self).n(),
            ({
                let (r, c) = old(self).position();
                if r < old(self).n() {
                    &&& res == Some(old(self).grid()[r][c])
                    &&& final(self).position() == (if c + 1 < old(self).n() { (r, c + 1) } else { (r + 1, 0) })
                } else {
                    &&& res is None
                    &&& final(self).position() == old(self).position()
                }
            }),
    {
        if self.row >= self.size {
            return None;
        }
        proof { assert(self.cells@[self.row as int]@.len() == self.size); }
        let s = self.cells[self.row][self.col].state();
        if self.col + 1 < self.size {
            self.col = self.col + 1;
        } else {
            self.col = 0;
            self.row = self.row + 1;
        }
        Some(s)
    }
}

fn dir_step(d: usize) -> (res: (i8, i8))
    requires
        d < 8,
    ensures
        res.0 as int == dir_r(d as int),
        res.1 as int == dir_c(d as int),
{
    match d {
        0 => (0, 1),
        1 => (0, -1),
        2 => (1, 0),
        3 => (-1, 0),
        4 => (1, 1),
        5 => (1, -1),
        6 => (-1, 1),
        _ => (-1, -1),
    }
}

impl Board {
    pub closed spec fn n(&self) -> int {
        self.size as int
    }

    pub closed spec fn wf(&self) -> bool {
        &&& self.cells@.len() == self.size
        &&& forall|i: int| 0 <= i < self.size ==> #[trigger] self.cells@[i]@.len() == self.size
        &&& self.size * self.size <= usize::MAX
    }

    /// The shape facts that well-formedness gives about the grid.
    pub proof fn lemma_wf(&self)
        requires
            self.wf(),
        ensures
            grid_wf(self@, self.n()),
    {
        assert forall|i: int| 0 <= i < self.n() implies #[trigger] self@[i].len() == self.n() by {
            assert(self.cells@[i]@.len() == self.size);
        }
    }

    proof fn lemma_at(&self, r: int, c: int)
        requires
            self.wf(),
            0 <= r < self.size,
            0 <= c < self.size,
        ensures
            self@[r][c] == self.cells@[r]@[c]@,
    {
        assert(self.cells@[r]@.len() == self.size);
    }

    pub fn get_size(&self) -> (r: usize)
        ensures
            r as int == self.n(),
    {
        self.size
    }


    /// A `size` by `size` board of empty cells.
    pub fn new(size: usize) -> (r: Board)
        requires
            size * size <= usize::MAX,
        ensures
            r.wf(),
            r.n() == size,
            r@ == empty_grid(size as int),
    {
        let mut cells: Vec<Vec<Cell>> = Vec::new();
        let mut i: usize = 0;
        while i < size
            invariant
                i <= size,
                cells@.len() == i,
                forall|k: int| 0 <= k < i ==> #[trigger] cells@[k]@.len() == size,
                forall|k: int, j: int| 0 <= k < i && 0 <= j < size ==> #[trigger] cells@[k]@[j]@ == CellState::EMPTY,
            decreases size - i,
        {
            let mut row: Vec<Cell> = Vec::new();
            let mut j: usize = 0;
            while j < size
                invariant
                    j <= size,
                    row@.len() == j,
                    forall|m: int| 0 <= m < j ==> #[trigger] row@[m]@ == CellState::EMPTY,
                decreases size - j,
            {
                row.push(Cell::new());
                j = j + 1;
            }
            cells.push(row);
            i = i + 1;
        }
        let b = Board { size: size, cells: cells };
        proof {
            assert forall|k: int| 0 <= k < size implies #[trigger] b@[k] =~= empty_grid(size as int)[k] by {
                assert(cells@[k]@.len() == size);
            }
            assert(b@ =~= empty_grid(size as int));
        }
        b
    }

    /// A copy of the board that shares no storage with it.
    pub fn duplicate(&self) -> (r: Board)
        requires
            self.wf(),
        ensures
            r.wf(),
            r.n() == self.n(),
            r@ == self@,
    {
        let mut cells: Vec<Vec<Cell>> = Vec::new();
        let mut i: usize = 0;
        while i < self.size
            invariant
                self.wf(),
                i <= self.size,
                cells@.len() == i,
                forall|k: int| 0 <= k < i ==> #[trigger] cells@[k]@ == self.cells@[k]@,
            decreases self.size - i,
        {
            let mut row: Vec<Cell> = Vec::new();
            let mut j: usize = 0;
            while j < self.size
                invariant
                    self.wf(),
                    i < self.size,
                    j <= self.size,
                    row@ == self.cells@[i as int]@.take(j as int),
                decreases self.size - j,
            {
                proof { assert(self.cells@[i as int]@.len() == self.size); }
                row.push(self.cells[i][j]);
                proof {
                    assert(row@ =~= self.cells@[i as int]@.take(j + 1));
                }
                j = j + 1;
            }
            proof {
                assert(self.cells@[i as int]@.len() == self.size);
                assert(row@ =~= self.cells@[i as int]@);
            }
            cells.push(row);
            i = i + 1;
        }
        let b = Board { size: self.size, cells: cells };
        proof {
            assert forall|k: int| 0 <= k < self.size implies #[trigger] b.cells@[k]@.len() == self.size by {
                assert(self.cells@[k]@.len() == self.size);
            }
            assert forall|k: int| 0 <= k < self.size implies #[trigger] b@[k] == self@[k] by {
                assert(cells@[k]@ == self.cells@[k]@);
            }
            assert(b@ =~= self@);
        }
        b
    }

    fn set_cell(&mut self, r: usize, c: usize, state: CellState)
        requires
            old(self).wf(),
            r < old(self).n(),
            c < old(self).n(),
        ensures
            final(self).wf(),
            final(self).n() == old(self).n(),
            final(self)@ == set_cell(old(self)@, r as int, c as int, state),
    {
        let ghost prev = self@;
        let ghost prev_cells = self.cells@;
        proof { self.lemma_wf(); }
        self.cells[r][c].set_state(&state);
        proof {
            assert(self.cells@[r as int]@ == prev_cells[r as int]@.update(c as int, self.cells@[r as int]@[c as int]));
            assert forall|i: int| 0 <= i < self.size implies #[trigger] self@[i] =~= set_cell(prev, r as int, c as int, state)[i] by {
                assert(prev_cells[i]@.len() == self.size);
                if i != r {
                    assert(self.cells@[i] == prev_cells[i]);
                }
            }
            assert(self@ =~= set_cell(prev, r as int, c as int, state));
        }
    }

    /// Places the starting cross of four stones at the center.
    pub fn init(&mut self)
        requires
            old(self).wf(),
            old(self).n() >= 2,
        ensures
            final(self).wf(),
            final(self).n() == old(self).n(),
            final(self)@ == with_cross(old(self)@, old(self).n()),
    {
        let middle = (self.size - 1) / 2;
        self.set_cell(middle, middle, CellState::WHITE);
        self.set_cell(middle + 1, middle, CellState::BLACK);
        self.set_cell(middle, middle + 1, CellState::BLACK);
        self.set_cell(middle + 1, middle + 1, CellState::WHITE);
    }

    /// How many cells hold `color`.
    pub fn count_stones(&self, color: &CellState) -> (res: usize)
        requires
            self.wf(),
        ensures
            res == count_grid(self@, *color),
    {
        let ghost g = self@;
        proof { self.lemma_wf(); }
        let mut total: usize = 0;
        let mut r: usize = 0;
        while r < self.size
            invariant
                self.wf(),
                g == self@,
                grid_wf(g, self.n()),
                r <= self.size,
                total == count_grid(g.take(r as int), *color),
            decreases self.size - r,
        {
            let mut c: usize = 0;
            let mut in_row: usize = 0;
            proof {
                assert(g[r as int].take(0) =~= Seq::<CellState>::empty());
            }
            while c < self.size
                invariant
                    self.wf(),
                    g == self@,
                    grid_wf(g, self.n()),
                    r < self.size,
                    c <= self.size,
                    in_row == count_row(g[r as int].take(c as int), *color),
                    in_row <= c,
                decreases self.size - c,
            {
                proof { self.lemma_at(r as int, c as int); }
                if color.have_same_state(&self.cells[r][c]) {
                    in_row = in_row + 1;
                }
                proof {
                    assert(g[r as int].take(c + 1).drop_last() =~= g[r as int].take(c as int));
                }
                c = c + 1;
            }
            proof {
                assert(g[r as int].take(self.size as int) =~= g[r as int]);
                assert(g.take(r + 1).drop_last() =~= g.take(r as int));
                let t = g.take(r + 1);
                assert forall|i: int| 0 <= i < t.len() implies #[trigger] t[i].len() == self.n() by {
                    assert(t[i] == g[i]);
                }
                lemma_count_grid_bound(t, self.n(), *color);
                assert((r + 1) * self.size <= self.size * self.size) by (nonlinear_arith)
                    requires r < self.size;
            }
            total = total + in_row;
            r = r + 1;
        }
        proof {
            assert(g.take(self.size as int) =~= g);
        }
        total
    }

    /// No cell is empty.
    pub fn ended(&self) -> (res: bool)
        requires
            self.wf(),
        ensures
            res == full(self@, self.n()),
    {
        let mut r: usize = 0;
        while r < self.size
            invariant
                self.wf(),
                r <= self.size,
                forall|i: int, j: int| 0 <= i < r && 0 <= j < self.size ==> #[trigger] self@[i][j] != CellState::EMPTY,
            decreases self.size - r,
        {
            let mut c: usize = 0;
            while c < self.size
                invariant
                    self.wf(),
                    r < self.size,
                    c <= self.size,
                    forall|i: int, j: int| 0 <= i < r && 0 <= j < self.size ==> #[trigger] self@[i][j] != CellState::EMPTY,
                    forall|j: int| 0 <= j < c ==> #[trigger] self@[r as int][j] != CellState::EMPTY,
                decreases self.size - c,
            {
                proof { self.lemma_at(r as int, c as int); }
                if self.cells[r][c].is_empty() {
                    return false;
                }
                c = c + 1;
            }
            r = r + 1;
        }
        true
    }

    /// A cursor over all cells in row-major order, starting at the first.
    pub fn all_cells(&self) -> (r: Cells<'_>)
        requires
            self.wf(),
        ensures
            r.wf(),
            r.grid() == self@,
            r.n() == self.n(),
            r.position() == (0int, 0int),
    {
        Cells { row: 0, col: 0, size: self.size, cells: &self.cells }
    }

    /// The state of the cell at 0-based `(r, c)`.
    pub fn get_state(&self, r: usize, c: usize) -> (res: CellState)
        requires
            self.wf(),
            r < self.n(),
            c < self.n(),
        ensures
            res == self@[r as int][c as int],
    {
        proof { self.lemma_at(r as int, c as int); }
        self.cells[r][c].state()
    }

    /// The position one step from `(r, c)` in direction `d`, if it is on the board.
    fn step(&self, r: usize, c: usize, d: usize) -> (res: Option<(usize, usize)>)
        requires
            self.wf(),
            r < self.size,
            c < self.size,
            d < 8,
        ensures
            match res {
                Some(p) => inside(self.n(), r + dir_r(d as int), c + dir_c(d as int))
                    && p.0 == r + dir_r(d as int) && p.1 == c + dir_c(d as int),
                None => !inside(self.n(), r + dir_r(d as int), c + dir_c(d as int)),
            },
    {
        let (dr, dc) = dir_step(d);
        let nr: usize;
        if dr == 1 {
            if r + 1 >= self.size { return None; }
            nr = r + 1;
        } else if dr == -1 {
            if r == 0 { return None; }
            nr = r - 1;
        } else {
            nr = r;
        }
        let nc: usize;
        if dc == 1 {
            if c + 1 >= self.size { return None; }
            nc = c + 1;
        } else if dc == -1 {
            if c == 0 { return None; }
            nc = c - 1;
        } else {
            nc = c;
        }
        Some((nr, nc))
    }

    /// The end of the capturing run from `(r, c)` in direction `d`, if the ray captures.
    fn find_opposite(&self, r: usize, c: usize, d: usize, color: &CellState) -> (res: Option<(usize, usize)>)
        requires
            self.wf(),
            r < self.size,
            c < self.size,
            d < 8,
        ensures
            res is Some <==> qualifies(self@, self.n(), r as int, c as int, d as int, *color),
            res matches Some(p) ==> (p.0 as int, p.1 as int) == ray_stop(self@, self.n(), r as int, c as int, d as int, *color),
    {
        let ghost g = self@;
        let ghost n = self.n();
        let mut cur_r = r;
        let mut cur_c = c;
        let mut have_another_color_inside = false;
        loop
            invariant
                self.wf(),
                g == self@,
                n == self.n(),
                cur_r < self.size,
                cur_c < self.size,
                d < 8,
                ray_stop(g, n, r as int, c as int, d as int, *color)
                    == ray_stop(g, n, cur_r as int, cur_c as int, d as int, *color),
                steps_left(n, cur_r as int, cur_c as int, d as int) <= steps_left(n, r as int, c as int, d as int),
                have_another_color_inside == (steps_left(n, cur_r as int, cur_c as int, d as int)
                    < steps_left(n, r as int, c as int, d as int)),
                !have_another_color_inside ==> cur_r == r && cur_c == c,
            decreases steps_left(n, cur_r as int, cur_c as int, d as int),
        {
            match self.step(cur_r, cur_c, d) {
                None => {
                    return None;
                },
                Some((nr, nc)) => {
                    proof { self.lemma_at(nr as int, nc as int); }
                    let cell = &self.cells[nr][nc];
                    if color.have_another_color(cell) {
                        cur_r = nr;
                        cur_c = nc;
                        have_another_color_inside = true;
                    } else if color.have_same_state(cell) && have_another_color_inside {
                        return Some((nr, nc));
                    } else {
                        return None;
                    }
                },
            }
        }
    }

    fn have_opposite_side(&self, r: usize, c: usize, color: &CellState) -> (res: bool)
        requires
            self.wf(),
            r < self.size,
            c < self.size,
        ensures
            res == exists|d: int| 0 <= d < 8 && #[trigger] qualifies(self@, self.n(), r as int, c as int, d, *color),
    {
        let mut d: usize = 0;
        while d < 8
            invariant
                self.wf(),
                r < self.size,
                c < self.size,
                d <= 8,
                forall|e: int| 0 <= e < d ==> !#[trigger] qualifies(self@, self.n(), r as int, c as int, e, *color),
            decreases 8 - d,
        {
            if self.find_opposite(r, c, d, color).is_some() {
                return true;
            }
            d = d + 1;
        }
        false
    }


    /// Every position that placing `color` at `(r, c)` turns, direction by direction.
    fn captures(&self, r: usize, c: usize, color: &CellState) -> (res: Vec<(usize, usize)>)
        requires
            self.wf(),
            r < self.size,
            c < self.size,
        ensures
            forall|i: int, j: int| #[trigger] has_pos(res@, i, j)
                <==> captured(self@, self.n(), r as int, c as int, *color, i, j),
    {
        let ghost g = self@;
        let ghost n = self.n();
        let mut res: Vec<(usize, usize)> = Vec::new();
        let mut d: usize = 0;
        while d < 8
            invariant
                self.wf(),
                g == self@,
                n == self.n(),
                r < self.size,
                c < self.size,
                d <= 8,
                forall|i: int, j: int| #[trigger] has_pos(res@, i, j)
                    <==> captured_below(g, n, r as int, c as int, *color, d as int, i, j),
            decreases 8 - d,
        {
            let ghost before = res@;
            if let Some((er, ec)) = self.find_opposite(r, c, d, color) {
                let mut cur_r = r;
                let mut cur_c = c;
                loop
                    invariant
                        self.wf(),
                        g == self@,
                        n == self.n(),
                        r < self.size,
                        c < self.size,
                        cur_r < self.size,
                        cur_c < self.size,
                        d < 8,
                        qualifies(g, n, r as int, c as int, d as int, *color),
                        ray_stop(g, n, cur_r as int, cur_c as int, d as int, *color) == (er as int, ec as int),
                        forall|i: int, j: int| #[trigger] on_run(g, n, cur_r as int, cur_c as int, d as int, *color, i, j)
                            ==> on_run(g, n, r as int, c as int, d as int, *color, i, j),
                        forall|i: int, j: int| #[trigger] has_pos(res@, i, j)
                            <==> (has_pos(before, i, j) || (on_run(g, n, r as int, c as int, d as int, *color, i, j)
                                && !on_run(g, n, cur_r as int, cur_c as int, d as int, *color, i, j))),
                    ensures
                        forall|i: int, j: int| #[trigger] has_pos(res@, i, j)
                            <==> (has_pos(before, i, j) || on_run(g, n, r as int, c as int, d as int, *color, i, j)),
                    decreases steps_left(n, cur_r as int, cur_c as int, d as int),
                {
                    proof { lemma_stop_not_opposite(g, n, cur_r as int, cur_c as int, d as int, *color); }
                    match self.step(cur_r, cur_c, d) {
                        None => {
                            break;
                        },
                        Some((nr, nc)) => {
                            if nr == er && nc == ec {
                                break;
                            }
                            assert(next_is_opposite(g, n, cur_r as int, cur_c as int, d as int, *color));
                            let ghost prev = res@;
                            res.push((nr, nc));
                            proof {
                                assert forall|i: int, j: int| #[trigger] has_pos(res@, i, j)
                                    <==> (has_pos(before, i, j) || (on_run(g, n, r as int, c as int, d as int, *color, i, j)
                                        && !on_run(g, n, nr as int, nc as int, d as int, *color, i, j))) by {
                                    if has_pos(res@, i, j) {
                                        let k = choose|k: int| 0 <= k < res@.len() && res@[k].0 == i && res@[k].1 == j;
                                        if k < prev.len() {
                                            assert(has_pos(prev, i, j));
                                        }
                                    }
                                    if has_pos(prev, i, j) {
                                        let k = choose|k: int| 0 <= k < prev.len() && prev[k].0 == i && prev[k].1 == j;
                                        assert(res@[k] == prev[k]);
                                    }
                                    if i == nr && j == nc {
                                        assert(res@[prev.len() as int] == (nr, nc));
                                    }
                                    assert(on_run(g, n, cur_r as int, cur_c as int, d as int, *color, i, j)
                                        == ((i == nr && j == nc) || on_run(g, n, nr as int, nc as int, d as int, *color, i, j)));
                                    if on_run(g, n, nr as int, nc as int, d as int, *color, i, j) {
                                        lemma_on_run_ahead(g, n, nr as int, nc as int, d as int, *color, i, j);
                                    }
                                }
                                assert forall|i: int, j: int| #[trigger] on_run(g, n, nr as int, nc as int, d as int, *color, i, j)
                                    implies on_run(g, n, r as int, c as int, d as int, *color, i, j) by {
                                    assert(on_run(g, n, cur_r as int, cur_c as int, d as int, *color, i, j));
                                }
                            }
                            cur_r = nr;
                            cur_c = nc;
                        },
                    }
                }
            }
            proof {
                assert forall|i: int, j: int| #[trigger] has_pos(res@, i, j)
                    <==> captured_below(g, n, r as int, c as int, *color, d + 1, i, j) by {
                    if captured_below(g, n, r as int, c as int, *color, d + 1, i, j) {
                        let e = choose|e: int| 0 <= e < d + 1 && #[trigger] qualifies(g, n, r as int, c as int, e, *color)
                            && #[trigger] on_run(g, n, r as int, c as int, e, *color, i, j);
                        if e < d {
                            assert(captured_below(g, n, r as int, c as int, *color, d as int, i, j));
                        }
                    }
                    if has_pos(res@, i, j) && !has_pos(before, i, j) {
                        assert(qualifies(g, n, r as int, c as int, d as int, *color));
                        assert(on_run(g, n, r as int, c as int, d as int, *color, i, j));
                    }
                }
            }
            d = d + 1;
        }
        res
    }


    /// Sets every listed position to `color`.
    fn flip(&mut self, positions: &Vec<(usize, usize)>, color: &CellState)
        requires
            old(self).wf(),
            forall|k: int| 0 <= k < positions@.len() ==> #[trigger] positions@[k].0 < old(self).n()
                && positions@[k].1 < old(self).n(),
        ensures
            final(self).wf(),
            final(self).n() == old(self).n(),
            final(self)@ == painted(old(self)@, positions@, *color),
    {
        let ghost g0 = self@;
        proof {
            assert(self@ =~~= painted(g0, positions@.take(0), *color));
        }
        let mut k: usize = 0;
        while k < positions.len()
            invariant
                self.wf(),
                self.n() == old(self).n(),
                g0 == old(self)@,
                k <= positions@.len(),
                forall|m: int| 0 <= m < positions@.len() ==> #[trigger] positions@[m].0 < self.n()
                    && positions@[m].1 < self.n(),
                self@ == painted(g0, positions@.take(k as int), *color),
            decreases positions@.len() - k,
        {
            let (pr, pc) = positions[k];
            let ghost prev = self@;
            let ghost prev_cells = self.cells@;
            proof { self.lemma_wf(); }
            self.cells[pr][pc].set_state(color);
            proof {
                assert(self.cells@.len() == prev_cells.len());
                assert forall|i: int| 0 <= i < self.size && i != pr implies self.cells@[i] == prev_cells[i] by {}
                assert(self.cells@[pr as int]@ == prev_cells[pr as int]@.update(pc as int, self.cells@[pr as int]@[pc as int]));
                assert forall|i: int| 0 <= i < self.size implies #[trigger] self@[i] =~= Seq::new(prev[i].len(),
                    |j: int| if i == pr && j == pc { *color } else { prev[i][j] }) by {
                    assert(prev_cells[i]@.len() == self.size);
                }
                let s0 = positions@.take(k as int);
                let s1 = positions@.take(k as int + 1);
                assert(self.cells@[pr as int]@.len() == self.size);
                assert forall|i: int, j: int| has_pos(s1, i, j) <==> (has_pos(s0, i, j) || (i == pr && j == pc)) by {
                    if has_pos(s1, i, j) {
                        let m = choose|m: int| 0 <= m < s1.len() && s1[m].0 == i && s1[m].1 == j;
                        if m < s0.len() {
                            assert(s0[m] == s1[m]);
                        }
                    }
                    if has_pos(s0, i, j) {
                        let m = choose|m: int| 0 <= m < s0.len() && s0[m].0 == i && s0[m].1 == j;
                        assert(s0[m] == s1[m]);
                    }
                    if i == pr && j == pc {
                        assert(s1[k as int] == (pr, pc));
                    }
                }
                assert(self@ =~~= painted(g0, s1, *color));
            }
            k = k + 1;
        }
        proof {
            assert(positions@.take(positions@.len() as int) =~= positions@);
        }
    }

    /// Places `color` on the empty cell at 0-based `(r, c)` and turns every
    /// stone on a capturing ray. Whether any ray captures is the caller's
    /// concern (see `can_put`).
    pub fn put(&mut self, r: usize, c: usize, color: &CellState)
        requires
            old(self).wf(),
            r < old(self).n(),
            c < old(self).n(),
            old(self)@[r as int][c as int] == CellState::EMPTY,
        ensures
            final(self).wf(),
            final(self).n() == old(self).n(),
            final(self)@ == placed(old(self)@, old(self).n(), r as int, c as int, *color),
    {
        let ghost g = self@;
        let ghost n = self.n();
        let mut positions = self.captures(r, c, color);
        let ghost listed = positions@;
        proof {
            assert forall|k: int| 0 <= k < listed.len() implies #[trigger] listed[k].0 < n && listed[k].1 < n by {
                assert(has_pos(listed, listed[k].0 as int, listed[k].1 as int));
                let d = choose|d: int| 0 <= d < 8 && #[trigger] qualifies(g, n, r as int, c as int, d, *color)
                    && #[trigger] on_run(g, n, r as int, c as int, d, *color, listed[k].0 as int, listed[k].1 as int);
                lemma_on_run_ahead(g, n, r as int, c as int, d, *color, listed[k].0 as int, listed[k].1 as int);
            }
        }
        positions.push((r, c));
        proof {
            assert forall|k: int| 0 <= k < positions@.len() implies #[trigger] positions@[k].0 < n && positions@[k].1 < n by {
                if k < listed.len() {
                    assert(positions@[k] == listed[k]);
                }
            }
        }
        self.flip(&positions, color);
        proof {
            self.lemma_wf();
            assert forall|i: int, j: int| has_pos(positions@, i, j) <==> (has_pos(listed, i, j) || (i == r && j == c)) by {
                if has_pos(positions@, i, j) {
                    let m = choose|m: int| 0 <= m < positions@.len() && positions@[m].0 == i && positions@[m].1 == j;
                    if m < listed.len() {
                        assert(listed[m] == positions@[m]);
                    }
                }
                if has_pos(listed, i, j) {
                    let m = choose|m: int| 0 <= m < listed.len() && listed[m].0 == i && listed[m].1 == j;
                    assert(listed[m] == positions@[m]);
                }
                if i == r && j == c {
                    assert(positions@[listed.len() as int] == (r, c));
                }
            }
            let p = placed(g, n, r as int, c as int, *color);
            assert forall|i: int| 0 <= i < n implies #[trigger] self@[i] =~= p[i] by {
                assert forall|j: int| 0 <= j < n implies self@[i][j] == p[i][j] by {
                    assert(has_pos(listed, i, j) == captured(g, n, r as int, c as int, *color, i, j));
                    assert(has_pos(positions@, i, j) == (has_pos(listed, i, j) || (i == r && j == c)));
                }
            }
            assert(self@ =~= p);
        }
    }

    /// The cell at 0-based `(r, c)` is empty and some ray from it captures.
    pub fn can_put(&self, r: usize, c: usize, new_state: &CellState) -> (res: bool)
        requires
            self.wf(),
            r < self.n(),
            c < self.n(),
        ensures
            res == can_place(self@, self.n(), r as int, c as int, *new_state),
    {
        proof { self.lemma_at(r as int, c as int); }
        self.cells[r][c].is_empty() && self.have_opposite_side(r, c, new_state)
    }
}

} // verus!
