use vstd::prelude::*;
use crate::board::{Board, Grid, can_place, count_grid, empty_grid, full, grid_wf, inside, placed, with_cross};
use crate::cell::{CellState, opponent};

verus! {

/// Why a move was refused.
#[derive(Clone, Copy, Debug, PartialEq, Eq, Structural)]
pub enum MoveError {
    /// The position is off the board, taken, or captures nothing.
    IllegalMove,
}

/// The player to move may place at the 1-based position `(r, c)`.
pub open spec fn legal(g: Grid, n: int, p: CellState, r: int, c: int) -> bool {
    1 <= r <= n && 1 <= c <= n && can_place(g, n, r - 1, c - 1, p)
}

/// Player `p` has some legal placement on `g`.
pub open spec fn has_move(g: Grid, n: int, p: CellState) -> bool {
    exists|i: int, j: int| inside(n, i, j) && #[trigger] can_place(g, n, i, j, p)
}

/// Who moves next once `p` has moved and the board has become `g`: the
/// opponent, unless the opponent has no legal placement.
pub open spec fn turn_after(g: Grid, n: int, p: CellState) -> CellState {
    if has_move(g, n, opponent(p)) {
        opponent(p)
    } else {
        opponent(opponent(p))
    }
}

/// The legal 1-based positions in 0-based row `r`, columns before `c`, left to right.
pub open spec fn row_moves(g: Grid, n: int, p: CellState, r: int, c: int) -> Seq<(usize, usize)>
    decreases c,
{
    if c <= 0 {
        Seq::empty()
    } else {
        row_moves(g, n, p, r, c - 1) + (if can_place(g, n, r, c - 1, p) {
            seq![((r + 1) as usize, c as usize)]
        } else {
            Seq::empty()
        })
    }
}

/// The legal 1-based positions in the rows before `r`, in row-major order.
pub open spec fn moves_upto(g: Grid, n: int, p: CellState, r: int) -> Seq<(usize, usize)>
    decreases r,
{
    if r <= 0 {
        Seq::empty()
    } else {
        moves_upto(g, n, p, r - 1) + row_moves(g, n, p, r - 1, n)
    }
}

/// Every legal 1-based position for `p`, in row-major order.
pub open spec fn legal_moves(g: Grid, n: int, p: CellState) -> Seq<(usize, usize)> {
    moves_upto(g, n, p, n)
}


/// Every listed position in `row_moves` is legal, and the row holds at most `c` of them.
pub proof fn lemma_row_moves(g: Grid, n: int, p: CellState, r: int, c: int)
    requires
        0 <= r < n,
        0 <= c <= n,
        n * n <= usize::MAX,
    ensures
        row_moves(g, n, p, r, c).len() <= c,
        forall|k: int| 0 <= k < row_moves(g, n, p, r, c).len() ==>
            legal(g, n, p, #[trigger] row_moves(g, n, p, r, c)[k].0 as int, row_moves(g, n, p, r, c)[k].1 as int),
        row_moves(g, n, p, r, c).len() == 0 <==> forall|j: int| 0 <= j < c ==> !#[trigger] can_place(g, n, r, j, p),
    decreases c,
{
    if c > 0 {
        lemma_row_moves(g, n, p, r, c - 1);
        assert(n <= n * n) by (nonlinear_arith) requires n >= 1;
        let s = row_moves(g, n, p, r, c);
        let t = row_moves(g, n, p, r, c - 1);
        assert forall|k: int| 0 <= k < s.len() implies legal(g, n, p, #[trigger] s[k].0 as int, s[k].1 as int) by {
            if k < t.len() {
                assert(s[k] == t[k]);
            }
        }
        if s.len() == 0 {
            assert forall|j: int| 0 <= j < c implies !#[trigger] can_place(g, n, r, j, p) by {
                if j < c - 1 {
                }
            }
        }
    }
}

/// Every listed position in `moves_upto` is legal, and the rows before `r` hold at most `r * n` of them.
pub proof fn lemma_moves_upto(g: Grid, n: int, p: CellState, r: int)
    requires
        0 <= r <= n,
        n * n <= usize::MAX,
    ensures
        moves_upto(g, n, p, r).len() <= r * n,
        forall|k: int| 0 <= k < moves_upto(g, n, p, r).len() ==>
            legal(g, n, p, #[trigger] moves_upto(g, n, p, r)[k].0 as int, moves_upto(g, n, p, r)[k].1 as int),
        moves_upto(g, n, p, r).len() == 0 <==> forall|i: int, j: int| 0 <= i < r && 0 <= j < n ==> !#[trigger] can_place(g, n, i, j, p),
    decreases r,
{
    if r > 0 {
        lemma_moves_upto(g, n, p, r - 1);
        lemma_row_moves(g, n, p, r - 1, n);
        assert((r - 1) * n + n == r * n) by (nonlinear_arith);
        let s = moves_upto(g, n, p, r);
        let t = moves_upto(g, n, p, r - 1);
        let u = row_moves(g, n, p, r - 1, n);
        assert forall|k: int| 0 <= k < s.len() implies legal(g, n, p, #[trigger] s[k].0 as int, s[k].1 as int) by {
            if k < t.len() {
                assert(s[k] == t[k]);
            } else {
                assert(s[k] == u[k - t.len()]);
            }
        }
        if s.len() == 0 {
            assert forall|i: int, j: int| 0 <= i < r && 0 <= j < n implies !#[trigger] can_place(g, n, i, j, p) by {
                if i < r - 1 {
                } else {
                }
            }
        }
    }
}

/// The list of legal moves is empty exactly when the player has no legal placement.
pub proof fn lemma_no_moves_iff_none_legal(g: Grid, n: int, p: CellState)
    requires
        n >= 0,
        n * n <= usize::MAX,
    ensures
        legal_moves(g, n, p).len() == 0 <==> !has_move(g, n, p),
        legal_moves(g, n, p).len() <= n * n,
        forall|k: int| 0 <= k < legal_moves(g, n, p).len() ==>
            legal(g, n, p, #[trigger] legal_moves(g, n, p)[k].0 as int, legal_moves(g, n, p)[k].1 as int),
{
    lemma_moves_upto(g, n, p, n);
    if legal_moves(g, n, p).len() == 0 && has_move(g, n, p) {
        let (i, j) = choose|i: int, j: int| inside(n, i, j) && #[trigger] can_place(g, n, i, j, p);
        assert(!can_place(g, n, i, j, p));
    }
}


proof fn lemma_row_moves_listed(g: Grid, n: int, p: CellState, r: int, c: int, j: int)
    requires
        0 <= r < n,
        0 <= j < c <= n,
        n * n <= usize::MAX,
        can_place(g, n, r, j, p),
    ensures
        row_moves(g, n, p, r, c).contains(((r + 1) as usize, (j + 1) as usize)),
    decreases c,
{
    let s = row_moves(g, n, p, r, c);
    let x = ((r + 1) as usize, (j + 1) as usize);
    if j < c - 1 {
        lemma_row_moves_listed(g, n, p, r, c - 1, j);
        let t = row_moves(g, n, p, r, c - 1);
        let k = choose|k: int| 0 <= k < t.len() && t[k] == x;
        assert(s[k] == t[k]);
    } else {
        let t = row_moves(g, n, p, r, c - 1);
        assert(s[t.len() as int] == x);
    }
}

proof fn lemma_moves_upto_listed(g: Grid, n: int, p: CellState, r: int, i: int, j: int)
    requires
        0 <= i < r <= n,
        0 <= j < n,
        n * n <= usize::MAX,
        can_place(g, n, i, j, p),
    ensures
        moves_upto(g, n, p, r).contains(((i + 1) as usize, (j + 1) as usize)),
    decreases r,
{
    let s = moves_upto(g, n, p, r);
    let t = moves_upto(g, n, p, r - 1);
    let x = ((i + 1) as usize, (j + 1) as usize);
    if i < r - 1 {
        lemma_moves_upto_listed(g, n, p, r - 1, i, j);
        let k = choose|k: int| 0 <= k < t.len() && t[k] == x;
        assert(s[k] == t[k]);
    } else {
        lemma_row_moves_listed(g, n, p, r - 1, n, j);
        let u = row_moves(g, n, p, r - 1, n);
        let k = choose|k: int| 0 <= k < u.len() && u[k] == x;
        assert(s[t.len() + k] == u[k]);
    }
}

/// Every legal position appears in the list of legal moves.
pub proof fn lemma_legal_listed(g: Grid, n: int, p: CellState, r: int, c: int)
    requires
        n * n <= usize::MAX,
        legal(g, n, p, r, c),
    ensures
        legal_moves(g, n, p).contains((r as usize, c as usize)),
{
    lemma_moves_upto_listed(g, n, p, n, r - 1, c - 1);
}

/// A board and the player to move.
#[derive(Clone, Debug)]
pub struct Game {
    board: Board,
    next_player: CellState,
}

impl Game {
    pub closed spec fn grid(&self) -> Grid {
        self.board@
    }

    pub closed spec fn n(&self) -> int {
        self.board.n()
    }

    pub closed spec fn player(&self) -> CellState {
        self.next_player
    }

    pub closed spec fn wf(&self) -> bool {
        &&& self.board.wf()
        &&& self.next_player != CellState::EMPTY
    }

    pub proof fn lemma_wf(&self)
        requires
            self.wf(),
        ensures
            grid_wf(self.grid(), self.n()),
            self.player() != CellState::EMPTY,
    {
        self.board.lemma_wf();
    }

    /// A game on an 8 by 8 board with the starting cross, white to move.
    pub fn new() -> (g: Game)
        ensures
            g.wf(),
            g.n() == 8,
            g.grid() == with_cross(empty_grid(8), 8),
            g.player() == CellState::WHITE,
    {
        Game::with_size(8)
    }

    /// A game on a `size` by `size` board with the starting cross, white to move.
    pub fn with_size(size: usize) -> (g: Game)
        requires
            size >= 2,
            size * size <= usize::MAX,
        ensures
            g.wf(),
            g.n() == size,
            g.grid() == with_cross(empty_grid(size as int), size as int),
            g.player() == CellState::WHITE,
    {
        let mut g = Game { board: Board::new(size), next_player: CellState::WHITE };
        g.board.init();
        g
    }

    /// A copy of the game that shares no storage with it.
    pub fn duplicate(&self) -> (r: Game)
        requires
            self.wf(),
        ensures
            r.wf(),
            r.n() == self.n(),
            r.grid() == self.grid(),
            r.player() == self.player(),
    {
        Game { board: self.board.duplicate(), next_player: self.next_player }
    }

    pub fn get_size(&self) -> (r: usize)
        ensures
            r == self.n(),
    {
        self.board.get_size()
    }

    pub fn next_player(&self) -> (r: CellState)
        ensures
            r == self.player(),
    {
        self.next_player
    }

    pub fn board(&self) -> (r: &Board)
        ensures
            r@ == self.grid(),
            r.n() == self.n(),
            self.wf() ==> r.wf(),
    {
        &self.board
    }

    /// The player to move may place at the 1-based position `(r, c)`.
    pub fn can_put(&self, r: usize, c: usize) -> (res: bool)
        requires
            self.wf(),
        ensures
            res == legal(self.grid(), self.n(), self.player(), r as int, c as int),
    {
        if r < 1 || c < 1 || r > self.board.get_size() || c > self.board.get_size() {
            return false;
        }
        self.board.can_put(r - 1, c - 1, &self.next_player)
    }


    /// The legal 1-based positions for the player to move, in row-major order.
    pub fn availabe_cells(&self) -> (res: Vec<(usize, usize)>)
        requires
            self.wf(),
        ensures
            res@ == legal_moves(self.grid(), self.n(), self.player()),
    {
        proof { self.lemma_wf(); }
        let ghost g = self.grid();
        let ghost n = self.n();
        let ghost p = self.player();
        let size = self.board.get_size();
        assert(size + 1 <= usize::MAX) by (nonlinear_arith)
            requires size * size <= usize::MAX;
        let mut result: Vec<(usize, usize)> = Vec::new();
        let mut r: usize = 1;
        while r <= size
            invariant
                self.wf(),
                g == self.grid(),
                n == self.n(),
                p == self.player(),
                size == n,
                n * n <= usize::MAX,
                size + 1 <= usize::MAX,
                1 <= r <= size + 1,
                result@ == moves_upto(g, n, p, r - 1),
            decreases size + 1 - r,
        {
            let mut c: usize = 1;
            while c <= size
                invariant
                    self.wf(),
                    g == self.grid(),
                    n == self.n(),
                    p == self.player(),
                    size == n,
                    n * n <= usize::MAX,
                    size + 1 <= usize::MAX,
                    1 <= r <= size,
                    1 <= c <= size + 1,
                    result@ == moves_upto(g, n, p, r - 1) + row_moves(g, n, p, r - 1, c - 1),
                decreases size + 1 - c,
            {
                if self.can_put(r, c) {
                    result.push((r, c));
                }
                proof {
                    assert(result@ =~= moves_upto(g, n, p, r - 1) + row_moves(g, n, p, r - 1, c as int));
                }
                c = c + 1;
            }
            r = r + 1;
        }
        result
    }

    /// Places a stone of the player to move at the 1-based position `(r, c)`,
    /// then hands the turn to the opponent, or back if the opponent cannot move.
    pub fn put(&mut self, r: usize, c: usize) -> (res: Result<(), MoveError>)
        requires
            old(self).wf(),
        ensures
            final(self).wf(),
            final(self).n() == old(self).n(),
            res is Ok <==> legal(old(self).grid(), old(self).n(), old(self).player(), r as int, c as int),
            res is Ok ==> final(self).grid() == placed(old(self).grid(), old(self).n(), r - 1, c - 1, old(self).player()),
            res is Ok ==> final(self).player() == turn_after(final(self).grid(), final(self).n(), old(self).player()),
            res is Err ==> *final(self) == *old(self),
    {
        if !self.can_put(r, c) {
            return Err(MoveError::IllegalMove);
        }
        self.board.put(r - 1, c - 1, &self.next_player);
        self.next_turn();
        let moves = self.availabe_cells();
        proof {
            self.lemma_wf();
            lemma_no_moves_iff_none_legal(self.grid(), self.n(), self.player());
        }
        if moves.len() == 0 {
            self.next_turn();
        }
        Ok(())
    }

    pub fn ended(&self) -> (res: bool)
        requires
            self.wf(),
        ensures
            res == full(self.grid(), self.n()),
    {
        self.board.ended()
    }

    pub fn is_draw(&self) -> (res: bool)
        requires
            self.wf(),
        ensures
            res == (full(self.grid(), self.n())
                && count_grid(self.grid(), CellState::WHITE) == count_grid(self.grid(), CellState::BLACK)),
    {
        self.ended() && self.board.count_stones(&CellState::WHITE) == self.board.count_stones(&CellState::BLACK)
    }

    /// The board is not full, yet the player to move has no legal placement.
    pub fn is_stuck(&self) -> (res: bool)
        requires
            self.wf(),
        ensures
            res == (!full(self.grid(), self.n()) && !has_move(self.grid(), self.n(), self.player())),
    {
        proof {
            self.lemma_wf();
            lemma_no_moves_iff_none_legal(self.grid(), self.n(), self.player());
        }
        !self.ended() && self.availabe_cells().len() == 0
    }

    fn next_turn(&mut self)
        ensures
            final(self).board == old(self).board,
            final(self).next_player == opponent(old(self).next_player),
    {
        self.next_player = match self.next_player {
            CellState::EMPTY => CellState::EMPTY,
            CellState::WHITE => CellState::BLACK,
            CellState::BLACK => CellState::WHITE,
        }
    }
}

} // verus!
