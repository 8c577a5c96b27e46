use vstd::prelude::*;
use crate::board::{Grid, count_grid, empty_grid, full, grid_wf, lemma_place_fills_one, placed, with_cross};
use crate::cell::CellState;
use crate::game::{Game, legal, legal_moves, lemma_legal_listed, lemma_no_moves_iff_none_legal, turn_after};

verus! {

/// The board and player to move after playing the 1-based moves of `t` in
/// order from board `g` with `p` to move; `None` if one of them is illegal.
pub open spec fn play(g: Grid, n: int, p: CellState, t: Seq<(usize, usize)>) -> Option<(Grid, CellState)>
    decreases t.len(),
{
    if t.len() == 0 {
        Some((g, p))
    } else {
        match play(g, n, p, t.drop_last()) {
            Some((g1, p1)) => {
                let m = t.last();
                if legal(g1, n, p1, m.0 as int, m.1 as int) {
                    let g2 = placed(g1, n, m.0 - 1, m.1 - 1, p1);
                    Some((g2, turn_after(g2, n, p1)))
                } else {
                    None
                }
            },
            None => None,
        }
    }
}

/// `t` is a sequence of legal moves from `g` with `p` to move that ends on a
/// full board with as many white stones as black ones.
pub open spec fn reaches_draw(g: Grid, n: int, p: CellState, t: Seq<(usize, usize)>) -> bool {
    match play(g, n, p, t) {
        Some((h, _)) => full(h, n) && count_grid(h, CellState::WHITE) == count_grid(h, CellState::BLACK),
        None => false,
    }
}

/// One unit of pending work: a game, its legal moves, and the moves that led to it.
pub type Frame = (Game, Vec<(usize, usize)>, Vec<(usize, usize)>);

pub open spec fn power(b: nat, e: nat) -> nat
    decreases e,
{
    if e == 0 {
        1
    } else {
        b * power(b, (e - 1) as nat)
    }
}

proof fn lemma_power_positive(b: nat, e: nat)
    requires
        b > 0,
    ensures
        power(b, e) > 0,
    decreases e,
{
    if e > 0 {
        lemma_power_positive(b, (e - 1) as nat);
        assert(b * power(b, (e - 1) as nat) > 0) by (nonlinear_arith)
            requires b > 0, power(b, (e - 1) as nat) > 0;
    }
}

/// A frame stands for `power(b, e)` units of work, where `e` counts its empty cells.
spec fn weight(s: Seq<Frame>, b: nat) -> nat
    decreases s.len(),
{
    if s.len() == 0 {
        0
    } else {
        weight(s.drop_last(), b) + power(b, count_grid(s.last().0.grid(), CellState::EMPTY))
    }
}

spec fn frame_ok(f: Frame, g0: Grid, n: int, p0: CellState) -> bool {
    &&& f.0.wf()
    &&& f.0.n() == n
    &&& f.1@ == legal_moves(f.0.grid(), n, f.0.player())
    &&& play(g0, n, p0, f.2@) == Some((f.0.grid(), f.0.player()))
}


/// `s` is an initial part of `t`.
pub open spec fn is_prefix(s: Seq<(usize, usize)>, t: Seq<(usize, usize)>) -> bool {
    s.len() <= t.len() && t.subrange(0, s.len() as int) == s
}

/// Some frame of `stack` was reached by an initial part of `t`.
spec fn covered(stack: Seq<Frame>, t: Seq<(usize, usize)>) -> bool {
    exists|k: int| 0 <= k < stack.len() && is_prefix(#[trigger] stack[k].2@, t)
}

proof fn lemma_play_prefix(g: Grid, n: int, p: CellState, t: Seq<(usize, usize)>, k: int)
    requires
        play(g, n, p, t) is Some,
        0 <= k <= t.len(),
    ensures
        play(g, n, p, t.subrange(0, k)) is Some,
    decreases t.len(),
{
    if k < t.len() {
        lemma_play_prefix(g, n, p, t.drop_last(), k);
        assert(t.drop_last().subrange(0, k) =~= t.subrange(0, k));
    } else {
        assert(t.subrange(0, k) =~= t);
    }
}

fn copy_moves(v: &Vec<(usize, usize)>) -> (r: Vec<(usize, usize)>)
    ensures
        r@ == v@,
{
    let mut r: Vec<(usize, usize)> = Vec::new();
    let mut i: usize = 0;
    while i < v.len()
        invariant
            i <= v@.len(),
            r@ == v@.take(i as int),
        decreases v@.len() - i,
    {
        r.push(v[i]);
        proof {
            assert(r@ =~= v@.take(i + 1));
        }
        i = i + 1;
    }
    proof {
        assert(v@.take(v@.len() as int) =~= v@);
    }
    r
}

/// Depth-first search from `initial` for a sequence of moves that ends in a draw.
pub fn search_draw_from(initial: &Game) -> (res: Option<Vec<(usize, usize)>>)
    requires
        initial.wf(),
    ensures
        res matches Some(t) ==> reaches_draw(initial.grid(), initial.n(), initial.player(), t@),
        res is None ==> forall|t: Seq<(usize, usize)>| !reaches_draw(initial.grid(), initial.n(), initial.player(), t),
{
    let ghost g0 = initial.grid();
    let ghost n = initial.n();
    let ghost p0 = initial.player();
    proof { initial.lemma_wf(); }
    let ghost b: nat = (n * n + 1) as nat;
    let first = initial.duplicate();
    let first_moves = first.availabe_cells();
    let mut stack: Vec<Frame> = Vec::new();
    stack.push((first, first_moves, Vec::new()));
    proof {
        assert(play(g0, n, p0, Seq::<(usize, usize)>::empty()) == Some((g0, p0)));
        assert(frame_ok(stack@[0], g0, n, p0));
        assert forall|t: Seq<(usize, usize)>| #[trigger] reaches_draw(g0, n, p0, t) implies covered(stack@, t) by {
            assert(t.subrange(0, 0) =~= stack@[0].2@);
            assert(is_prefix(stack@[0].2@, t));
        }
    }
    while stack.len() > 0
        invariant
            g0 == initial.grid(),
            n == initial.n(),
            p0 == initial.player(),
            grid_wf(g0, n),
            b == n * n + 1,
            forall|k: int| 0 <= k < stack@.len() ==> frame_ok(#[trigger] stack@[k], g0, n, p0),
            forall|t: Seq<(usize, usize)>| #[trigger] reaches_draw(g0, n, p0, t) ==> covered(stack@, t),
        decreases weight(stack@, b),
    {
        let ghost before = stack@;
        let (game, moves, trace) = match stack.pop() {
            Some(f) => f,
            None => {
                return None;
            },
        };
        let ghost base = stack@;
        proof {
            assert(before.drop_last() == base);
            assert(frame_ok(before.last(), g0, n, p0));
        }
        if game.ended() && game.is_draw() {
            return Some(trace);
        }
        let ghost gg = game.grid();
        let ghost e = count_grid(gg, CellState::EMPTY);
        proof {
            game.lemma_wf();
            lemma_no_moves_iff_none_legal(gg, n, game.player());
        }
        proof {
            let tf = trace@;
            assert forall|t: Seq<(usize, usize)>| #[trigger] reaches_draw(g0, n, p0, t) implies covered(stack@, t)
                || (is_prefix(tf, t) && t.len() > tf.len()
                    && exists|j: int| 0 <= j < moves@.len() && moves@[j] == t[tf.len() as int]) by {
                assert(covered(before, t));
                let k = choose|k: int| 0 <= k < before.len() && is_prefix(#[trigger] before[k].2@, t);
                if k < base.len() {
                    assert(before[k] == base[k]);
                    assert(covered(base, t));
                } else {
                    assert(before[k] == before.last());
                    if t.len() == tf.len() {
                        assert(t =~= tf);
                    }
                    lemma_play_prefix(g0, n, p0, t, tf.len() as int + 1);
                    let u = t.subrange(0, tf.len() as int + 1);
                    assert(u.drop_last() =~= tf);
                    let m = t[tf.len() as int];
                    assert(u.last() == m);
                    assert(legal(gg, n, game.player(), m.0 as int, m.1 as int));
                    lemma_legal_listed(gg, n, game.player(), m.0 as int, m.1 as int);
                }
            }
        }
        let mut i: usize = 0;
        while i < moves.len()
            invariant
                grid_wf(g0, n),
                b == n * n + 1,
                game.wf(),
                game.n() == n,
                gg == game.grid(),
                e == count_grid(gg, CellState::EMPTY),
                moves@ == legal_moves(gg, n, game.player()),
                moves@.len() <= n * n,
                forall|k: int| 0 <= k < moves@.len() ==>
                    legal(gg, n, game.player(), #[trigger] moves@[k].0 as int, moves@[k].1 as int),
                play(g0, n, p0, trace@) == Some((gg, game.player())),
                i <= moves@.len(),
                i > 0 ==> e >= 1,
                stack@.len() == base.len() + i,
                forall|k: int| 0 <= k < base.len() ==> #[trigger] stack@[k] == base[k],
                forall|k: int| 0 <= k < stack@.len() ==> frame_ok(#[trigger] stack@[k], g0, n, p0),
                weight(stack@, b) == weight(base, b) + i * power(b, (e - 1) as nat),
                forall|t: Seq<(usize, usize)>| #[trigger] reaches_draw(g0, n, p0, t) ==> covered(stack@, t)
                    || (is_prefix(trace@, t) && t.len() > trace@.len()
                        && exists|j: int| i <= j < moves@.len() && moves@[j] == t[trace@.len() as int]),
            decreases moves@.len() - i,
        {
            let (r, c) = moves[i];
            let mut next_game = game.duplicate();
            let ghost p = game.player();
            proof {
                game.lemma_wf();
                assert(legal(gg, n, p, r as int, c as int));
                lemma_place_fills_one(gg, n, r - 1, c - 1, p);
            }
            let _ = next_game.put(r, c);
            let mut next_trace = copy_moves(&trace);
            next_trace.push((r, c));
            let next_moves = next_game.availabe_cells();
            let ghost prev = stack@;
            stack.push((next_game, next_moves, next_trace));
            proof {
                assert(next_trace@.drop_last() =~= trace@);
                assert(stack@.drop_last() =~= prev);
                assert(frame_ok(stack@.last(), g0, n, p0));
                assert forall|k: int| 0 <= k < stack@.len() implies frame_ok(#[trigger] stack@[k], g0, n, p0) by {
                    if k < prev.len() {
                        assert(stack@[k] == prev[k]);
                    }
                }
                assert forall|k: int| 0 <= k < base.len() implies #[trigger] stack@[k] == base[k] by {
                    assert(stack@[k] == prev[k]);
                }
                assert forall|t: Seq<(usize, usize)>| #[trigger] reaches_draw(g0, n, p0, t) implies covered(stack@, t)
                    || (is_prefix(trace@, t) && t.len() > trace@.len()
                        && exists|j: int| i + 1 <= j < moves@.len() && moves@[j] == t[trace@.len() as int]) by {
                    if covered(prev, t) {
                        let k = choose|k: int| 0 <= k < prev.len() && is_prefix(#[trigger] prev[k].2@, t);
                        assert(stack@[k] == prev[k]);
                    } else if moves@[i as int] == t[trace@.len() as int] && is_prefix(trace@, t) && t.len() > trace@.len() {
                        assert(t.subrange(0, trace@.len() as int + 1) =~= next_trace@);
                        assert(is_prefix(stack@[prev.len() as int].2@, t));
                    }
                }
                assert(i * power(b, (e - 1) as nat) + power(b, (e - 1) as nat) == (i + 1) * power(b, (e - 1) as nat))
                    by (nonlinear_arith);
            }
            i = i + 1;
        }
        proof {
            let k = moves@.len();
            let w = power(b, (e - 1) as nat);
            lemma_power_positive(b, e);
            if k > 0 {
                lemma_power_positive(b, (e - 1) as nat);
                assert(power(b, e) == b * w);
                assert(k * w < b * w) by (nonlinear_arith)
                    requires k < b, w > 0;
            }
        }
    }
    None
}

/// Depth-first search for a sequence of moves that ends in a draw, from the
/// starting position on an 8 by 8 board.
pub fn search_draw() -> (res: Option<Vec<(usize, usize)>>)
    ensures
        res matches Some(t) ==> reaches_draw(with_cross(empty_grid(8), 8), 8, CellState::WHITE, t@),
        res is None ==> forall|t: Seq<(usize, usize)>| !reaches_draw(with_cross(empty_grid(8), 8), 8, CellState::WHITE, t),
{
    let game = Game::new();
    search_draw_from(&game)
}

} // verus!
