//! The course of a game: how a board is judged, and what one input does.

use crate::board::{lemma_board_model, Board};
use crate::grid::{
    can_merge, grid_fits, has_empty, has_winning_tile, if_legal, is_grid, legal, legal_moves,
    lemma_full_grid_moves, lemma_legal_move_makes_room, lemma_line_of_slid, lemma_move_bound,
    slid, Grid, TILE_2048,
};
use crate::input::Input;
use crate::moves::Move;
use crate::spawn::{
    empty_grid, is_opening, is_spawn, lemma_spawn_adds_tile, tile_count, with_tile,
};
use vstd::prelude::*;

verus! {

/// How the game stands.
#[derive(Clone, Copy, Debug, PartialEq, Eq, Structural)]
pub enum TurnOutcome {
    /// The game goes on and waits for the next input.
    Continue,
    /// The tile 2048 is on the board.
    Win,
    /// No move changes the board.
    Loss,
    /// The player left.
    Quit,
}

/// Some move changes the grid.
pub open spec fn can_move(g: Grid) -> bool {
    exists|m: Move| #[trigger] legal(g, m)
}

/// The judgement of a grid: a winning tile wins whatever else is there; else
/// the game is lost when no move is legal; else it goes on.
pub open spec fn outcome_of(g: Grid) -> TurnOutcome {
    if has_winning_tile(g) {
        TurnOutcome::Win
    } else if !can_move(g) {
        TurnOutcome::Loss
    } else {
        TurnOutcome::Continue
    }
}

/// The tiles are as small as they are during play: no exponent is above that
/// of the tile 2048.
pub open spec fn in_play(g: Grid) -> bool {
    forall|r: int, c: int| 0 <= r < 4 && 0 <= c < 4 ==> #[trigger] g[r][c] <= TILE_2048
}

/// The input is a move that the grid accepts: the game is still on and the
/// move is legal.
pub open spec fn accepts(g: Grid, input: Input) -> bool {
    &&& outcome_of(g) == TurnOutcome::Continue
    &&& input matches Input::Direction(m)
    &&& legal(g, m)
}

/// One turn takes the grid `before` and the input to the grid `after` and
/// the outcome. An accepted move slides the tiles and adds a new tile;
/// anything else leaves the grid as it is. A request to quit ends a game
/// that is still on; in every other case the outcome is the judgement of the
/// grid after the turn.
pub open spec fn is_turn(before: Grid, input: Input, after: Grid, outcome: TurnOutcome) -> bool {
    &&& match input {
        Input::Direction(m) if accepts(before, input) => is_spawn(slid(before, m), after),
        _ => after == before,
    }
    &&& outcome == (if outcome_of(before) == TurnOutcome::Continue && input == Input::Quit {
        TurnOutcome::Quit
    } else {
        outcome_of(after)
    })
}

/// A grid without a winning tile fits into the cells after any move.
pub proof fn lemma_moves_fit(g: Grid)
    requires
        is_grid(g),
        !has_winning_tile(g),
    ensures
        forall|m: Move| grid_fits(#[trigger] slid(g, m)),
{
    assert forall|m: Move| grid_fits(#[trigger] slid(g, m)) by {
        lemma_no_winning_tile(g);
        lemma_move_bound(g, m, (TILE_2048 - 1) as nat);
    }
}

/// Without a winning tile every exponent is below that of the tile 2048.
proof fn lemma_no_winning_tile(g: Grid)
    requires
        !has_winning_tile(g),
    ensures
        forall|r: int, c: int| 0 <= r < 4 && 0 <= c < 4 ==> #[trigger] g[r][c] <= TILE_2048 - 1,
{
    assert forall|r: int, c: int| 0 <= r < 4 && 0 <= c < 4 implies #[trigger] g[r][c] <= TILE_2048
        - 1 by {
        if g[r][c] >= TILE_2048 {
            assert(has_winning_tile(g));
        }
    }
}

/// A game starts with small tiles: no exponent of an opening grid is above
/// that of the tile 2048.
pub proof fn lemma_opening_in_play(g: Grid)
    requires
        is_opening(g),
    ensures
        is_grid(g),
        in_play(g),
{
    let first = choose|first: Grid| #[trigger] is_spawn(empty_grid(), first) && is_spawn(first, g);
    lemma_spawn_in_play(empty_grid(), first);
    lemma_spawn_in_play(first, g);
}

/// A turn keeps the tiles small: where no exponent is above that of the tile
/// 2048 before the turn, none is after it.
pub proof fn lemma_turn_stays_in_play(
    before: Grid,
    input: Input,
    after: Grid,
    outcome: TurnOutcome,
)
    requires
        is_grid(before),
        in_play(before),
        is_turn(before, input, after, outcome),
    ensures
        is_grid(after),
        in_play(after),
{
    if accepts(before, input) {
        let m = input->Direction_0;
        lemma_no_winning_tile(before);
        lemma_move_bound(before, m, (TILE_2048 - 1) as nat);
        lemma_line_of_slid(before, m, 0);
        lemma_spawn_in_play(slid(before, m), after);
    }
}

/// A new tile on a grid of small tiles leaves a grid of small tiles.
proof fn lemma_spawn_in_play(before: Grid, after: Grid)
    requires
        is_grid(before),
        in_play(before),
        is_spawn(before, after),
    ensures
        is_grid(after),
        in_play(after),
{
    let (r, c, v) = choose|r: int, c: int, v: nat|
        {
            &&& 0 <= r < 4
            &&& 0 <= c < 4
            &&& before[r][c] == 0
            &&& (v == 1 || v == 2)
            &&& after == #[trigger] with_tile(before, r, c, v)
        };
    assert forall|i: int, j: int| 0 <= i < 4 && 0 <= j < 4 implies #[trigger] after[i][j]
        <= TILE_2048 by {
        assert(before[i][j] <= TILE_2048);
    }
}

/// A grid with a winning tile is a win, whatever its other cells hold.
pub proof fn lemma_winning_tile_wins(g: Grid, r: int, c: int)
    requires
        0 <= r < 4,
        0 <= c < 4,
        g[r][c] >= TILE_2048,
    ensures
        outcome_of(g) == TurnOutcome::Win,
{
}

/// On a grid without an empty cell: two equal tiles next to each other, in a
/// row or in a column, keep the game from being lost; and where no move
/// changes the grid and no tile wins, the game is lost. A move changes such
/// a grid exactly when it finds two equal tiles to merge.
pub proof fn lemma_full_grid_outcome(g: Grid)
    requires
        is_grid(g),
        !has_empty(g),
    ensures
        forall|m: Move| #[trigger] can_merge(g, m) ==> outcome_of(g) != TurnOutcome::Loss,
        !has_winning_tile(g) && !can_move(g) ==> outcome_of(g) == TurnOutcome::Loss,
        forall|m: Move| #[trigger] legal(g, m) <==> can_merge(g, m),
{
    assert forall|m: Move| #[trigger] legal(g, m) <==> can_merge(g, m) by {
        lemma_full_grid_moves(g, m);
    }
    assert forall|m: Move| #[trigger] can_merge(g, m) implies outcome_of(g)
        != TurnOutcome::Loss by {
        assert(legal(g, m));
    }
}

/// An accepted move leaves the grid with exactly one tile more than the
/// slide alone: the new tile always finds an empty cell.
pub proof fn lemma_turn_adds_tile(before: Grid, m: Move, after: Grid, outcome: TurnOutcome)
    requires
        is_grid(before),
        accepts(before, Input::Direction(m)),
        is_turn(before, Input::Direction(m), after, outcome),
    ensures
        has_empty(slid(before, m)),
        is_spawn(slid(before, m), after),
        tile_count(after) == tile_count(slid(before, m)) + 1,
{
    lemma_legal_move_makes_room(before, m);
    lemma_line_of_slid(before, m, 0);
    lemma_spawn_adds_tile(slid(before, m), after);
}

impl Board {
    /// Judges the board: win, loss, or the game goes on.
    pub fn outcome(&self) -> (outcome: TurnOutcome)
        ensures
            outcome == outcome_of(self@),
    {
        if self.won() {
            return TurnOutcome::Win;
        }
        proof {
            lemma_board_model(*self, *self);
            lemma_moves_fit(self@);
        }
        let moves = self.valid_moves();
        proof {
            let g = self@;
            if can_move(g) {
                let m = choose|m: Move| #[trigger] legal(g, m);
                assert(if_legal(g, m).len() == 1);
                assert(legal_moves(g).len() > 0);
            }
            if legal_moves(g).len() > 0 {
                assert(legal(g, Move::Left) || legal(g, Move::Right) || legal(g, Move::Up) || legal(
                    g,
                    Move::Down,
                ));
            }
        }
        if moves.len() == 0 {
            TurnOutcome::Loss
        } else {
            TurnOutcome::Continue
        }
    }

    /// Plays one turn. A game that is won or lost stays as it is. Otherwise a
    /// request to quit ends it, a legal move slides the tiles and brings a
    /// new tile, and any other input changes nothing.
    pub fn play_turn(&mut self, input: Input) -> (outcome: TurnOutcome)
        ensures
            is_turn(old(self)@, input, final(self)@, outcome),
    {
        let now = self.outcome();
        match now {
            TurnOutcome::Continue => {},
            _ => {
                return now;
            },
        }
        proof {
            lemma_board_model(*self, *self);
            lemma_moves_fit(self@);
        }
        match input {
            Input::Quit => TurnOutcome::Quit,
            Input::Redraw => TurnOutcome::Continue,
            Input::Direction(m) => {
                if self.is_legal(m) {
                    proof {
                        lemma_legal_move_makes_room(self@, m);
                    }
                    self.make_move(m);
                    self.place_random_tile();
                    self.outcome()
                } else {
                    TurnOutcome::Continue
                }
            },
        }
    }
}

} // verus!
