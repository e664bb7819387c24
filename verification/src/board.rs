//! The board: sixteen cells in four rows, and the moves that change it.

use crate::grid::{
    grid_fits, has_winning_tile, is_grid, legal, legal_moves, lemma_mirror_twice,
    lemma_mirrored_fits, lemma_moves_by_reorientation, lemma_transpose_twice,
    lemma_transposed_fits, mirrored, slid, slid_left, transposed, Grid, TILE_2048,
};
use crate::line::{exponents, slid_line, slide_row};
use crate::moves::Move;
use vstd::prelude::*;

verus! {

/// The playing field. A cell holds the exponent `v` of the tile `2^v`, or `0`
/// when it is empty.
#[derive(Clone, Copy, Debug)]
pub struct Board {
    pub tiles: [[u8; 4]; 4],
}

impl View for Board {
    type V = Grid;

    open spec fn view(&self) -> Grid {
        Seq::new(4, |r: int| exponents(self.tiles[r]))
    }
}

impl PartialEq for Board {
    fn eq(&self, other: &Board) -> (same: bool) {
        let mut r: usize = 0;
        while r < 4
            invariant
                r <= 4,
                forall|i: int, j: int|
                    0 <= i < r && 0 <= j < 4 ==> self.tiles[i][j] == other.tiles[i][j],
            decreases 4 - r,
        {
            let mut c: usize = 0;
            while c < 4
                invariant
                    r < 4,
                    c <= 4,
                    forall|i: int, j: int|
                        0 <= i < r && 0 <= j < 4 ==> self.tiles[i][j] == other.tiles[i][j],
                    forall|j: int| 0 <= j < c ==> self.tiles[r as int][j] == other.tiles[r as int][j],
                decreases 4 - c,
            {
                if self.tiles[r][c] != other.tiles[r][c] {
                    return false;
                }
                c += 1;
            }
            r += 1;
        }
        proof {
            assert forall|i: int| 0 <= i < 4 implies self.tiles[i] == other.tiles[i] by {
                assert(self.tiles[i] =~= other.tiles[i]);
            }
            assert(self.tiles =~= other.tiles);
        }
        true
    }
}

impl Eq for Board {

}

impl vstd::std_specs::cmp::PartialEqSpecImpl for Board {
    open spec fn obeys_eq_spec() -> bool {
        true
    }

    open spec fn eq_spec(&self, other: &Board) -> bool {
        *self == *other
    }
}

/// The model of a board is a grid whose exponents fit into the cells, and it
/// tells the board: two boards with the same model are the same board.
pub proof fn lemma_board_model(a: Board, b: Board)
    ensures
        is_grid(a@),
        grid_fits(a@),
        a@ == b@ <==> a == b,
{
    if a@ == b@ {
        assert forall|r: int| 0 <= r < 4 implies a.tiles[r] == b.tiles[r] by {
            assert forall|c: int| 0 <= c < 4 implies a.tiles[r][c] == b.tiles[r][c] by {
                assert(a@[r][c] == b@[r][c]);
            }
            assert(a.tiles[r] =~= b.tiles[r]);
        }
        assert(a.tiles =~= b.tiles);
    }
}

impl Board {
    /// The board with all sixteen cells empty.
    pub fn empty() -> (board: Board)
        ensures
            forall|r: int, c: int| 0 <= r < 4 && 0 <= c < 4 ==> #[trigger] board@[r][c] == 0,
    {
        Board { tiles: [[0u8, 0u8, 0u8, 0u8]; 4] }
    }

    /// The exponent in the cell at `row` and `col`.
    pub fn get(&self, row: usize, col: usize) -> (v: u8)
        requires
            row < 4,
            col < 4,
        ensures
            v == self@[row as int][col as int],
    {
        self.tiles[row][col]
    }

    /// Exchanges rows and columns: the cell at (r, c) trades places with the
    /// cell at (c, r).
    pub fn transpose(&mut self)
        ensures
            final(self)@ == transposed(old(self)@),
    {
        let ghost orig = self.tiles;
        let mut y: usize = 0;
        while y < 4
            invariant
                y <= 4,
                forall|i: int, j: int|
                    0 <= i < 4 && 0 <= j < 4 ==> #[trigger] self.tiles[i][j] == (if i < y && j < y {
                        orig[j][i]
                    } else {
                        orig[i][j]
                    }),
            decreases 4 - y,
        {
            let mut x: usize = 0;
            while x < y
                invariant
                    x <= y < 4,
                    forall|i: int, j: int|
                        0 <= i < 4 && 0 <= j < 4 ==> #[trigger] self.tiles[i][j] == (if (i < y && j
                            < y) || (i == y && j < x) || (j == y && i < x) {
                            orig[j][i]
                        } else {
                            orig[i][j]
                        }),
                decreases y - x,
            {
                let below = self.tiles[y][x];
                let above = self.tiles[x][y];
                self.tiles[y][x] = above;
                self.tiles[x][y] = below;
                x += 1;
            }
            y += 1;
        }
        proof {
            assert forall|r: int| 0 <= r < 4 implies #[trigger] self@[r] == transposed(
                old(self)@,
            )[r] by {
                assert forall|c: int| 0 <= c < 4 implies self@[r][c] == transposed(
                    old(self)@,
                )[r][c] by {
                    assert(self.tiles[r][c] == orig[c][r]);
                }
                assert(self@[r] =~= transposed(old(self)@)[r]);
            }
            assert(self@ =~= transposed(old(self)@));
        }
    }

    /// Reverses the order of the cells within each row.
    pub fn reverse_rows(&mut self)
        ensures
            final(self)@ == mirrored(old(self)@),
    {
        let ghost orig = self.tiles;
        let mut r: usize = 0;
        while r < 4
            invariant
                r <= 4,
                forall|i: int, j: int|
                    0 <= i < 4 && 0 <= j < 4 ==> #[trigger] self.tiles[i][j] == (if i < r {
                        orig[i][3 - j]
                    } else {
                        orig[i][j]
                    }),
            decreases 4 - r,
        {
            let first = self.tiles[r][0];
            let second = self.tiles[r][1];
            self.tiles[r][0] = self.tiles[r][3];
            self.tiles[r][1] = self.tiles[r][2];
            self.tiles[r][2] = second;
            self.tiles[r][3] = first;
            r += 1;
        }
        proof {
            assert forall|r: int| 0 <= r < 4 implies #[trigger] self@[r] == mirrored(
                old(self)@,
            )[r] by {
                assert forall|c: int| 0 <= c < 4 implies self@[r][c] == mirrored(
                    old(self)@,
                )[r][c] by {
                    assert(self.tiles[r][c] == orig[r][3 - c]);
                }
                assert(self@[r] =~= mirrored(old(self)@)[r]);
            }
            assert(self@ =~= mirrored(old(self)@));
        }
    }

    /// Slides every row towards column 0, merging equal neighbours.
    pub fn move_left(&mut self)
        requires
            grid_fits(slid_left(old(self)@)),
        ensures
            final(self)@ == slid_left(old(self)@),
    {
        let ghost orig = self@;
        let mut r: usize = 0;
        while r < 4
            invariant
                r <= 4,
                orig == old(self)@,
                grid_fits(slid_left(orig)),
                forall|i: int| 0 <= i < r ==> #[trigger] self@[i] == slid_line(orig[i]),
                forall|i: int| r <= i < 4 ==> #[trigger] self@[i] == orig[i],
            decreases 4 - r,
        {
            let ghost before = self@;
            proof {
                assert(before[r as int] == orig[r as int]);
                assert forall|c: int| 0 <= c < 4 implies #[trigger] slid_line(orig[r as int])[c]
                    <= u8::MAX by {
                    assert(slid_left(orig)[r as int][c] <= u8::MAX);
                }
            }
            slide_row(&mut self.tiles[r]);
            proof {
                assert forall|i: int| 0 <= i < 4 && i != r implies #[trigger] self@[i]
                    == before[i] by {}
            }
            r += 1;
        }
        assert(self@ =~= slid_left(orig));
    }

    /// Pushes the tiles in the direction `mov`. Every direction is the slide
    /// to the left on a reoriented board.
    pub fn make_move(&mut self, mov: Move)
        requires
            grid_fits(slid(old(self)@, mov)),
        ensures
            final(self)@ == slid(old(self)@, mov),
    {
        let ghost orig = self@;
        proof {
            lemma_board_model(*self, *self);
            lemma_moves_by_reorientation(orig);
        }
        match mov {
            Move::Left => {
                self.move_left();
            },
            Move::Right => {
                self.reverse_rows();
                proof {
                    let inner = slid_left(mirrored(orig));
                    lemma_mirrored_fits(mirrored(inner));
                    lemma_mirror_twice(inner);
                }
                self.move_left();
                self.reverse_rows();
            },
            Move::Up => {
                self.transpose();
                proof {
                    let inner = slid_left(transposed(orig));
                    lemma_transposed_fits(transposed(inner));
                    lemma_transpose_twice(inner);
                }
                self.move_left();
                self.transpose();
            },
            Move::Down => {
                self.transpose();
                self.reverse_rows();
                proof {
                    let inner = slid_left(mirrored(transposed(orig)));
                    lemma_transposed_fits(transposed(mirrored(inner)));
                    lemma_transpose_twice(mirrored(inner));
                    lemma_mirrored_fits(mirrored(inner));
                    lemma_mirror_twice(inner);
                }
                self.move_left();
                self.reverse_rows();
                self.transpose();
            },
        }
    }

    /// Whether the move changes the board.
    pub fn is_legal(&self, mov: Move) -> (yes: bool)
        requires
            grid_fits(slid(self@, mov)),
        ensures
            yes == legal(self@, mov),
    {
        let mut moved = *self;
        moved.make_move(mov);
        proof {
            lemma_board_model(moved, *self);
        }
        !(moved == *self)
    }

    /// The moves that change the board, in the order left, right, up, down.
    pub fn valid_moves(&self) -> (moves: Vec<Move>)
        requires
            forall|m: Move| grid_fits(#[trigger] slid(self@, m)),
        ensures
            moves@ == legal_moves(self@),
    {
        let mut moves: Vec<Move> = Vec::new();
        if self.is_legal(Move::Left) {
            moves.push(Move::Left);
        }
        if self.is_legal(Move::Right) {
            moves.push(Move::Right);
        }
        if self.is_legal(Move::Up) {
            moves.push(Move::Up);
        }
        if self.is_legal(Move::Down) {
            moves.push(Move::Down);
        }
        assert(moves@ =~= legal_moves(self@));
        moves
    }

    /// Whether some cell holds the tile 2048 or a larger one.
    pub fn won(&self) -> (yes: bool)
        ensures
            yes == has_winning_tile(self@),
    {
        let mut r: usize = 0;
        while r < 4
            invariant
                r <= 4,
                forall|i: int, j: int| 0 <= i < r && 0 <= j < 4 ==> #[trigger] self@[i][j] < TILE_2048,
            decreases 4 - r,
        {
            let mut c: usize = 0;
            while c < 4
                invariant
                    r < 4,
                    c <= 4,
                    forall|i: int, j: int|
                        0 <= i < r && 0 <= j < 4 ==> #[trigger] self@[i][j] < TILE_2048,
                    forall|j: int| 0 <= j < c ==> #[trigger] self@[r as int][j] < TILE_2048,
                decreases 4 - c,
            {
                if self.tiles[r][c] >= TILE_2048 {
                    assert(self@[r as int][c as int] >= TILE_2048);
                    return true;
                }
                c += 1;
            }
            r += 1;
        }
        false
    }
}

} // verus!
