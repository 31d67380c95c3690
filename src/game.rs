//! Commands of the player and one turn of a session.

use vstd::prelude::*;
use crate::board::{check_win, dig_to_fixpoint, flood, won, reset_checked, board_ok};
use crate::geometry::{grid_ok, in_grid, is_bottom, is_left, is_right, is_top, lemma_step_in_grid};
use crate::tile::{GameState, Glyph, Tile, glyph_class, left_clicked, right_clicked};

verus! {

#[derive(Clone, Copy, Debug, PartialEq, Eq, Structural)]
pub enum Input {
    Quit,
    LeftClick,
    RightClick,
    Up,
    Down,
    Left,
    Right,
}

/// Whether a command may be applied at cell `i`: a move must stay on the grid.
pub open spec fn allowed(i: int, w: int, h: int, input: Input) -> bool {
    match input {
        Input::Up => !is_top(i, w),
        Input::Down => !is_bottom(i, w, h),
        Input::Left => !is_left(i, w),
        Input::Right => !is_right(i, w),
        _ => true,
    }
}

/// The selection after a command.
pub open spec fn moved(i: int, w: int, h: int, input: Input) -> int {
    if !allowed(i, w, h, input) {
        i
    } else {
        match input {
            Input::Up => i - w,
            Input::Down => i + w,
            Input::Left => i - 1,
            Input::Right => i + 1,
            _ => i,
        }
    }
}

pub fn navigable(i: usize, w: usize, h: usize, input: Input) -> (r: bool)
    requires
        grid_ok(w as int, h as int),
        in_grid(i as int, w as int, h as int),
    ensures
        r == allowed(i as int, w as int, h as int, input),
{
    proof { assert(w * h >= w) by (nonlinear_arith) requires h >= 1, w >= 1; }
    match input {
        Input::Up => i >= w,
        Input::Down => i < w * h - w,
        Input::Left => i % w != 0,
        Input::Right => i % w != w - 1,
        _ => true,
    }
}

/// Board, selection and result after applying one command.
pub open spec fn command(g: Seq<Tile>, i: int, w: int, h: int, input: Input) -> (Seq<Tile>, int, GameState) {
    match input {
        Input::Quit => (g, i, GameState::Quit),
        Input::LeftClick => {
            let (s, r) = left_clicked(g[i].state);
            (g.update(i, Tile { state: s, checked: g[i].checked }), i, r)
        },
        Input::RightClick => (g.update(i, Tile { state: right_clicked(g[i].state), checked: g[i].checked }), i, GameState::Playing),
        _ => (g, moved(i, w, h, input), GameState::Playing),
    }
}

/// Applies a command at the selection. Moves off the grid are ignored.
pub fn handle_input(game: &mut Vec<Tile>, index: &mut usize, width: usize, height: usize, input: Input) -> (r: GameState)
    requires
        board_ok(old(game)@, width as int, height as int),
        in_grid(*old(index) as int, width as int, height as int),
    ensures
        (final(game)@, *final(index) as int, r) == command(old(game)@, *old(index) as int, width as int, height as int, input),
        in_grid(*final(index) as int, width as int, height as int),
{
    let i = *index;
    let ok = navigable(i, width, height, input);
    proof { lemma_step_in_grid(i as int, width as int, height as int); }
    match input {
        Input::Quit => GameState::Quit,
        Input::LeftClick => {
            let mut t = game[i];
            let r = t.state.left_click();
            game.set(i, t);
            r
        },
        Input::RightClick => {
            let mut t = game[i];
            t.state.right_click();
            game.set(i, t);
            GameState::Playing
        },
        _ => {
            if ok {
                match input {
                    Input::Up => *index = i - width,
                    Input::Down => *index = i + width,
                    Input::Left => *index = i - 1,
                    Input::Right => *index = i + 1,
                    _ => {},
                }
            }
            GameState::Playing
        },
    }
}

/// What to draw for every cell, in row-major order.
pub fn render_board(game: &Vec<Tile>, index: usize, forced: bool) -> (r: Vec<Glyph>)
    ensures
        r@.len() == game@.len(),
        forall|i: int| 0 <= i < r@.len() ==> #[trigger] r@[i] == (Glyph {
            class: glyph_class(game@[i].state, forced),
            selected: i == index as int,
        }),
{
    let mut out: Vec<Glyph> = Vec::new();
    let mut i: usize = 0;
    while i < game.len()
        invariant
            i <= game@.len(),
            out@.len() == i,
            forall|k: int| 0 <= k < i ==> #[trigger] out@[k] == (Glyph {
                class: glyph_class(game@[k].state, forced),
                selected: k == index as int,
            }),
        decreases game.len() - i,
    {
        out.push(game[i].state.render(i == index, forced));
        i += 1;
    }
    out
}

/// The board `g` a turn ends with, after the command left `g1`: the chain
/// reveal of `g1` run to its fixpoint, tested for a win, and, while the
/// session goes on, with the chain marks cleared.
pub open spec fn settled_turn(g1: Seq<Tile>, g: Seq<Tile>, r: GameState, w: int, h: int) -> bool {
    exists|g2: Seq<Tile>| #[trigger] flood(g1, g2, w, h) && turn_end(g2, g, r)
}

pub open spec fn turn_end(g2: Seq<Tile>, g: Seq<Tile>, r: GameState) -> bool {
    &&& r == GameState::Won || r == GameState::Playing
    &&& (r == GameState::Won <==> won(g2))
    &&& g.len() == g2.len()
    &&& forall|k: int| 0 <= k < g2.len() ==> (#[trigger] g[k]).state == g2[k].state
    &&& r == GameState::Playing ==> forall|k: int| 0 <= k < g.len() ==> !(#[trigger] g[k]).checked
    &&& r == GameState::Won ==> g == g2
}

/// One turn: apply the command; unless it ends the session, run the chain
/// reveal to its fixpoint, test for a win, and clear the chain marks.
pub fn take_turn(game: &mut Vec<Tile>, index: &mut usize, width: usize, height: usize, input: Input) -> (r: GameState)
    requires
        board_ok(old(game)@, width as int, height as int),
        in_grid(*old(index) as int, width as int, height as int),
    ensures
        ({
            let (g1, i1, r1) = command(old(game)@, *old(index) as int, width as int, height as int, input);
            &&& *final(index) as int == i1
            &&& r1 != GameState::Playing ==> r == r1 && final(game)@ == g1
            &&& r1 == GameState::Playing ==> settled_turn(g1, final(game)@, r, width as int, height as int)
        }),
        in_grid(*final(index) as int, width as int, height as int),
        board_ok(final(game)@, width as int, height as int),
{
    let r = handle_input(game, index, width, height, input);
    match r {
        GameState::Playing => {},
        _ => return r,
    }
    let ghost g1 = game@;
    dig_to_fixpoint(game, height, width);
    let ghost g2 = game@;
    if check_win(game) == GameState::Won {
        proof {
            assert(turn_end(g2, game@, GameState::Won));
            assert(flood(g1, g2, width as int, height as int));
        }
        return GameState::Won;
    }
    reset_checked(game);
    proof {
        assert(game@ =~= game@);
        assert(turn_end(g2, game@, GameState::Playing));
        assert(flood(g1, g2, width as int, height as int));
    }
    GameState::Playing
}

} // verus!
