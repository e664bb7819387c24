//! New tiles: where one may appear, and how one is drawn at random.
//!
//! The cells are numbered row by row, from 0 at the top left to 15 at the
//! bottom right. A new tile goes to one of the empty cells, each with the
//! same chance; nine times out of ten it is a 2 (exponent 1), else a 4
//! (exponent 2).

use crate::board::{lemma_board_model, Board};
use crate::grid::{has_empty, is_grid, Grid};
use rand::Rng;
use vstd::prelude::*;

verus! {

/// The exponent in the cell with number `i`.
pub open spec fn cell_at(g: Grid, i: int) -> nat {
    g[i / 4][i % 4]
}

/// The numbers of the empty cells among the first `n` cells, ascending.
pub open spec fn empties_below(g: Grid, n: int) -> Seq<int>
    decreases n,
{
    if n <= 0 {
        Seq::empty()
    } else if cell_at(g, n - 1) == 0 {
        empties_below(g, n - 1).push(n - 1)
    } else {
        empties_below(g, n - 1)
    }
}

/// The numbers of the empty cells of the grid, ascending.
pub open spec fn empties(g: Grid) -> Seq<int> {
    empties_below(g, 16)
}

/// How many of the first `n` cells hold a tile.
pub open spec fn tiles_below(g: Grid, n: int) -> nat
    decreases n,
{
    if n <= 0 {
        0
    } else if cell_at(g, n - 1) != 0 {
        tiles_below(g, n - 1) + 1
    } else {
        tiles_below(g, n - 1)
    }
}

/// How many cells of the grid hold a tile.
pub open spec fn tile_count(g: Grid) -> nat {
    tiles_below(g, 16)
}

/// The grid with the exponent `v` in the cell at row `r` and column `c`, and
/// every other cell as it was.
pub open spec fn with_tile(g: Grid, r: int, c: int, v: nat) -> Grid {
    g.update(r, g[r].update(c, v))
}

/// `after` is `before` with one new tile, a 2 or a 4, in a cell that was
/// empty.
pub open spec fn is_spawn(before: Grid, after: Grid) -> bool {
    exists|r: int, c: int, v: nat|
        {
            &&& 0 <= r < 4
            &&& 0 <= c < 4
            &&& before[r][c] == 0
            &&& (v == 1 || v == 2)
            &&& after == #[trigger] with_tile(before, r, c, v)
        }
}

/// The grid without any tile.
pub open spec fn empty_grid() -> Grid {
    Seq::new(4, |r: int| Seq::new(4, |c: int| 0nat))
}

/// A grid that a game can start on: the empty grid after two new tiles.
pub open spec fn is_opening(g: Grid) -> bool {
    exists|first: Grid| #[trigger] is_spawn(empty_grid(), first) && is_spawn(first, g)
}

/// The exponent of the new tile for a roll of a ten-sided die: 2 for a ten,
/// 1 for anything else.
pub open spec fn exponent_for(roll: int) -> nat {
    if roll == 10 {
        2
    } else {
        1
    }
}

/// The empty cells among fewer cells are the first of those among more.
pub proof fn lemma_empties_prefix(g: Grid, n: int, m: int)
    requires
        0 <= n <= m,
    ensures
        empties_below(g, n).len() <= empties_below(g, m).len(),
        forall|k: int|
            0 <= k < empties_below(g, n).len() ==> #[trigger] empties_below(g, m)[k]
                == empties_below(g, n)[k],
    decreases m - n,
{
    if n < m {
        lemma_empties_prefix(g, n, m - 1);
    }
}

/// Every entry of the list of empty cells is the number of an empty cell,
/// there are no more entries than cells, and every empty cell is listed.
pub proof fn lemma_empties_sound(g: Grid, n: int)
    requires
        0 <= n <= 16,
    ensures
        empties_below(g, n).len() + tiles_below(g, n) == n,
        forall|k: int|
            0 <= k < empties_below(g, n).len() ==> {
                &&& 0 <= #[trigger] empties_below(g, n)[k] < n
                &&& cell_at(g, empties_below(g, n)[k]) == 0
            },
        forall|i: int|
            0 <= i < n && cell_at(g, i) == 0 ==> exists|k: int|
                0 <= k < empties_below(g, n).len() && #[trigger] empties_below(g, n)[k] == i,
    decreases n,
{
    if n > 0 {
        lemma_empties_sound(g, n - 1);
        let less = empties_below(g, n - 1);
        let more = empties_below(g, n);
        assert forall|i: int| 0 <= i < n && cell_at(g, i) == 0 implies exists|k: int|
            0 <= k < more.len() && #[trigger] more[k] == i by {
            if i < n - 1 {
                let k = choose|k: int| 0 <= k < less.len() && #[trigger] less[k] == i;
                assert(more[k] == i);
            } else {
                assert(more[more.len() - 1] == i);
            }
        }
    }
}

/// A grid has an empty cell exactly when its list of empty cells has an
/// entry.
pub proof fn lemma_has_empty(g: Grid)
    requires
        is_grid(g),
    ensures
        has_empty(g) <==> empties(g).len() > 0,
{
    lemma_empties_sound(g, 16);
    if has_empty(g) {
        let (r, c) = choose|r: int, c: int| 0 <= r < 4 && 0 <= c < 4 && #[trigger] g[r][c] == 0;
        assert(cell_at(g, 4 * r + c) == 0);
    }
    if empties(g).len() > 0 {
        let i = empties(g)[0];
        assert(g[i / 4][i % 4] == 0);
    }
}

/// A tile set into an empty cell is counted once the count reaches its cell.
proof fn lemma_tiles_below_with_tile(g: Grid, r: int, c: int, v: nat, n: int)
    requires
        is_grid(g),
        0 <= r < 4,
        0 <= c < 4,
        g[r][c] == 0,
        v > 0,
        0 <= n <= 16,
    ensures
        tiles_below(with_tile(g, r, c, v), n) == tiles_below(g, n) + (if 4 * r + c < n {
            1nat
        } else {
            0nat
        }),
    decreases n,
{
    if n > 0 {
        lemma_tiles_below_with_tile(g, r, c, v, n - 1);
        let i = n - 1;
        let after = with_tile(g, r, c, v);
        if i == 4 * r + c {
            assert(cell_at(after, i) == v);
            assert(cell_at(g, i) == 0);
        } else {
            assert(i / 4 != r || i % 4 != c);
            assert(cell_at(after, i) == cell_at(g, i));
        }
    }
}

/// A new tile raises the number of tiles by one.
pub proof fn lemma_spawn_adds_tile(before: Grid, after: Grid)
    requires
        is_grid(before),
        is_spawn(before, after),
    ensures
        is_grid(after),
        tile_count(after) == tile_count(before) + 1,
{
    let (r, c, v) = choose|r: int, c: int, v: nat|
        {
            &&& 0 <= r < 4
            &&& 0 <= c < 4
            &&& before[r][c] == 0
            &&& (v == 1 || v == 2)
            &&& after == #[trigger] with_tile(before, r, c, v)
        };
    lemma_tiles_below_with_tile(before, r, c, v, 16);
}

/// Draws a whole number between `low` and `high`, both included, each with
/// the same chance. This is `rand::Rng::gen_range` on the generator of the
/// current thread, `rand::thread_rng`, with the range `low..=high`.
///
/// Nothing is proved of the call. That the number lies in the range is taken
/// from the documentation of `gen_range`; the same documentation says that
/// an empty range makes it panic, hence the precondition. `thread_rng` itself
/// panics when the operating system cannot seed the generator. Two draws from
/// the same range need not agree, and the contract does not say they do.
#[verifier::external_body]
fn random_in_range(low: usize, high: usize) -> (drawn: usize)
    requires
        low <= high,
    ensures
        low <= drawn <= high,
{
    rand::thread_rng().gen_range(low..=high)
}

impl Board {
    /// The number of empty cells.
    pub fn count_empty(&self) -> (n: usize)
        ensures
            n == empties(self@).len(),
            n <= 16,
    {
        let mut n: usize = 0;
        let mut i: usize = 0;
        while i < 16
            invariant
                i <= 16,
                n <= i,
                n == empties_below(self@, i as int).len(),
            decreases 16 - i,
        {
            if self.tiles[i / 4][i % 4] == 0 {
                n += 1;
            }
            i += 1;
        }
        n
    }

    /// The exponent of the new tile for the roll `roll` of a ten-sided die.
    pub fn tile_for_roll(roll: usize) -> (v: u8)
        ensures
            v == exponent_for(roll as int),
    {
        if roll == 10 {
            2
        } else {
            1
        }
    }

    /// Draws the exponent of a new tile: 1 in nine cases of ten, else 2.
    pub fn random_tile() -> (v: u8)
        ensures
            v == 1 || v == 2,
    {
        Board::tile_for_roll(random_in_range(1, 10))
    }

    /// Puts a tile with the exponent `value` into an empty cell: the first
    /// one, row by row, for `rank` 0, the next one for `rank` 1, and so on.
    pub fn place_tile(&mut self, rank: usize, value: u8)
        requires
            rank < empties(old(self)@).len(),
        ensures
            ({
                let cell = empties(old(self)@)[rank as int];
                final(self)@ == with_tile(old(self)@, cell / 4, cell % 4, value as nat)
            }),
    {
        let ghost orig = self@;
        let mut seen: usize = 0;
        let mut i: usize = 0;
        while i < 16
            invariant
                i <= 16,
                seen <= rank,
                seen == empties_below(orig, i as int).len(),
                self@ == orig,
                orig == old(self)@,
            decreases 16 - i,
        {
            let r = i / 4;
            let c = i % 4;
            if self.tiles[r][c] == 0 {
                if seen == rank {
                    self.tiles[r][c] = value;
                    proof {
                        lemma_empties_prefix(orig, i as int + 1, 16);
                        assert(empties_below(orig, i as int + 1)[rank as int] == i);
                        let target = with_tile(orig, r as int, c as int, value as nat);
                        assert forall|k: int| 0 <= k < 4 implies #[trigger] self@[k]
                            == target[k] by {
                            assert(self@[k] =~= target[k]);
                        }
                        assert(self@ =~= target);
                    }
                    return ;
                }
                seen += 1;
            }
            i += 1;
        }
    }

    /// Puts a new tile, a 2 or sometimes a 4, into an empty cell chosen at
    /// random.
    pub fn place_random_tile(&mut self)
        requires
            has_empty(old(self)@),
        ensures
            is_spawn(old(self)@, final(self)@),
            tile_count(final(self)@) == tile_count(old(self)@) + 1,
    {
        let ghost orig = self@;
        proof {
            lemma_board_model(*self, *self);
            lemma_has_empty(orig);
            lemma_empties_sound(orig, 16);
        }
        let room = self.count_empty();
        let rank = random_in_range(0, room - 1);
        let value = Board::random_tile();
        self.place_tile(rank, value);
        proof {
            let cell = empties(orig)[rank as int];
            assert(0 <= cell < 16);
            assert(orig[cell / 4][cell % 4] == 0);
            assert(self@ == with_tile(orig, cell / 4, cell % 4, value as nat));
            lemma_spawn_adds_tile(orig, self@);
        }
    }

    /// A board to start a game on: two new tiles on an empty board.
    pub fn init() -> (board: Board)
        ensures
            is_opening(board@),
            tile_count(board@) == 2,
    {
        let mut board = Board::empty();
        proof {
            assert forall|r: int| 0 <= r < 4 implies #[trigger] board@[r] == empty_grid()[r] by {
                assert forall|c: int| 0 <= c < 4 implies board@[r][c] == empty_grid()[r][c] by {
                    assert(board@[r][c] == 0);
                }
                assert(board@[r] =~= empty_grid()[r]);
            }
            assert(board@ =~= empty_grid());
            assert(board@[0][0] == 0);
            lemma_no_tiles(16);
        }
        board.place_random_tile();
        let ghost first = board@;
        proof {
            lemma_spawn_adds_tile(empty_grid(), first);
            lemma_room_while_not_full(first);
        }
        board.place_random_tile();
        board
    }
}

/// The empty grid holds no tile.
proof fn lemma_no_tiles(n: int)
    requires
        0 <= n <= 16,
    ensures
        tiles_below(empty_grid(), n) == 0,
    decreases n,
{
    if n > 0 {
        lemma_no_tiles(n - 1);
        assert(empty_grid()[(n - 1) / 4][(n - 1) % 4] == 0);
    }
}

/// A grid with fewer than sixteen tiles has an empty cell.
proof fn lemma_room_while_not_full(g: Grid)
    requires
        is_grid(g),
        tile_count(g) < 16,
    ensures
        has_empty(g),
{
    lemma_empties_sound(g, 16);
    lemma_has_empty(g);
}

} // verus!
