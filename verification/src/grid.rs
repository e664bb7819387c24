//! The mathematical model of the playing field and of the moves on it.
//!
//! A grid is a sequence of four rows of four exponents each; `0` stands for
//! an empty cell, `v > 0` for the tile `2^v`.

use crate::line::{
    has_equal_pair, lemma_changed_line_has_room, lemma_fixed_line, lemma_packed_bound,
    lemma_packed_shape, lemma_slid_line_twice, settled, slid_line,
};
use crate::moves::Move;
use vstd::prelude::*;

verus! {

/// The model of a board: rows of exponents.
pub type Grid = Seq<Seq<nat>>;

/// The smallest exponent that wins the game: the tile 2048.
pub const TILE_2048: u8 = 11;

/// Four rows of four cells.
pub open spec fn is_grid(g: Grid) -> bool {
    &&& g.len() == 4
    &&& forall|r: int| 0 <= r < 4 ==> (#[trigger] g[r]).len() == 4
}

/// Every exponent of the grid can be stored in a cell.
pub open spec fn grid_fits(g: Grid) -> bool {
    forall|r: int, c: int| 0 <= r < 4 && 0 <= c < 4 ==> #[trigger] g[r][c] <= u8::MAX
}

/// The grid with rows and columns exchanged.
pub open spec fn transposed(g: Grid) -> Grid {
    Seq::new(4, |r: int| Seq::new(4, |c: int| g[c][r]))
}

/// The grid with the order of the cells reversed within each row.
pub open spec fn mirrored(g: Grid) -> Grid {
    Seq::new(4, |r: int| g[r].reverse())
}

/// The grid with every row slid towards column 0.
pub open spec fn slid_left(g: Grid) -> Grid {
    Seq::new(4, |r: int| slid_line(g[r]))
}

/// The `i`-th line along which the tiles travel in a move, read from the
/// edge that they travel to: a row for a horizontal move, a column for a
/// vertical one.
pub open spec fn line_of(g: Grid, m: Move, i: int) -> Seq<nat> {
    match m {
        Move::Left => g[i],
        Move::Right => g[i].reverse(),
        Move::Up => Seq::new(4, |k: int| g[k][i]),
        Move::Down => Seq::new(4, |k: int| g[3 - k][i]),
    }
}

/// The grid after a move: each cell is read from the slid line it lies on.
pub open spec fn slid(g: Grid, m: Move) -> Grid {
    Seq::new(
        4,
        |r: int|
            Seq::new(
                4,
                |c: int|
                    match m {
                        Move::Left => slid_line(line_of(g, m, r))[c],
                        Move::Right => slid_line(line_of(g, m, r))[3 - c],
                        Move::Up => slid_line(line_of(g, m, c))[r],
                        Move::Down => slid_line(line_of(g, m, c))[3 - r],
                    },
            ),
    )
}

/// A move is legal when it changes the grid.
pub open spec fn legal(g: Grid, m: Move) -> bool {
    slid(g, m) != g
}

/// The move alone if it is legal, nothing if it is not.
pub open spec fn if_legal(g: Grid, m: Move) -> Seq<Move> {
    if legal(g, m) {
        seq![m]
    } else {
        Seq::empty()
    }
}

/// The legal moves, in the order left, right, up, down.
pub open spec fn legal_moves(g: Grid) -> Seq<Move> {
    if_legal(g, Move::Left) + if_legal(g, Move::Right) + if_legal(g, Move::Up) + if_legal(
        g,
        Move::Down,
    )
}

/// Some cell holds the tile 2048 or a larger one.
pub open spec fn has_winning_tile(g: Grid) -> bool {
    exists|r: int, c: int| 0 <= r < 4 && 0 <= c < 4 && #[trigger] g[r][c] >= TILE_2048
}

/// Some cell of the grid is empty.
pub open spec fn has_empty(g: Grid) -> bool {
    exists|r: int, c: int| 0 <= r < 4 && 0 <= c < 4 && #[trigger] g[r][c] == 0
}

/// Two equal tiles lie next to each other along the axis of the move.
pub open spec fn can_merge(g: Grid, m: Move) -> bool {
    exists|i: int| 0 <= i < 4 && has_equal_pair(#[trigger] line_of(g, m, i))
}

/// Transposing twice gives the grid back.
pub proof fn lemma_transpose_twice(g: Grid)
    requires
        is_grid(g),
    ensures
        transposed(transposed(g)) == g,
{
    assert forall|r: int| 0 <= r < 4 implies #[trigger] transposed(transposed(g))[r] == g[r] by {
        assert(transposed(transposed(g))[r] =~= g[r]);
    }
    assert(transposed(transposed(g)) =~= g);
}

/// Reversing the rows twice gives the grid back.
pub proof fn lemma_mirror_twice(g: Grid)
    requires
        is_grid(g),
    ensures
        mirrored(mirrored(g)) == g,
{
    assert forall|r: int| 0 <= r < 4 implies #[trigger] mirrored(mirrored(g))[r] == g[r] by {
        assert(mirrored(mirrored(g))[r] =~= g[r]);
    }
    assert(mirrored(mirrored(g)) =~= g);
}

/// Every move is the slide to the left between two reorientations of the
/// grid: none for left, a reversal of the rows for right, a transposition
/// for up, and both for down.
pub proof fn lemma_moves_by_reorientation(g: Grid)
    requires
        is_grid(g),
    ensures
        slid(g, Move::Left) == slid_left(g),
        slid(g, Move::Right) == mirrored(slid_left(mirrored(g))),
        slid(g, Move::Up) == transposed(slid_left(transposed(g))),
        slid(g, Move::Down) == transposed(mirrored(slid_left(mirrored(transposed(g))))),
{
    assert forall|r: int| 0 <= r < 4 implies #[trigger] slid(g, Move::Left)[r] == slid_left(
        g,
    )[r] by {
        assert(slid(g, Move::Left)[r] =~= slid_left(g)[r]);
    }
    assert(slid(g, Move::Left) =~= slid_left(g));

    let right = mirrored(slid_left(mirrored(g)));
    assert forall|r: int| 0 <= r < 4 implies #[trigger] slid(g, Move::Right)[r] == right[r] by {
        assert(slid(g, Move::Right)[r] =~= right[r]);
    }
    assert(slid(g, Move::Right) =~= right);

    let up = transposed(slid_left(transposed(g)));
    assert forall|r: int| 0 <= r < 4 implies #[trigger] slid(g, Move::Up)[r] == up[r] by {
        assert forall|c: int| 0 <= c < 4 implies slid(g, Move::Up)[r][c] == up[r][c] by {
            assert(transposed(g)[c] =~= line_of(g, Move::Up, c));
        }
        assert(slid(g, Move::Up)[r] =~= up[r]);
    }
    assert(slid(g, Move::Up) =~= up);

    let down = transposed(mirrored(slid_left(mirrored(transposed(g)))));
    assert forall|r: int| 0 <= r < 4 implies #[trigger] slid(g, Move::Down)[r] == down[r] by {
        assert forall|c: int| 0 <= c < 4 implies slid(g, Move::Down)[r][c] == down[r][c] by {
            assert(mirrored(transposed(g))[c] =~= line_of(g, Move::Down, c));
        }
        assert(slid(g, Move::Down)[r] =~= down[r]);
    }
    assert(slid(g, Move::Down) =~= down);
}

/// A grid that fits into the cells still fits when its rows are reversed.
pub proof fn lemma_mirrored_fits(g: Grid)
    requires
        is_grid(g),
        grid_fits(g),
    ensures
        grid_fits(mirrored(g)),
{
    assert forall|r: int, c: int| 0 <= r < 4 && 0 <= c < 4 implies #[trigger] mirrored(g)[r][c]
        <= u8::MAX by {
        assert(mirrored(g)[r][c] == g[r][3 - c]);
    }
}

/// A grid that fits into the cells still fits when it is transposed.
pub proof fn lemma_transposed_fits(g: Grid)
    requires
        is_grid(g),
        grid_fits(g),
    ensures
        grid_fits(transposed(g)),
{
    assert forall|r: int, c: int| 0 <= r < 4 && 0 <= c < 4 implies #[trigger] transposed(g)[r][c]
        <= u8::MAX by {
        assert(transposed(g)[r][c] == g[c][r]);
    }
}

/// The lines of the grid after a move are the slid lines of the grid before.
pub proof fn lemma_line_of_slid(g: Grid, m: Move, i: int)
    requires
        is_grid(g),
        0 <= i < 4,
    ensures
        line_of(g, m, i).len() == 4,
        line_of(slid(g, m), m, i) == slid_line(line_of(g, m, i)),
        is_grid(slid(g, m)),
{
    assert(line_of(slid(g, m), m, i) =~= slid_line(line_of(g, m, i)));
}

/// Two grids with the same lines along a move are the same grid.
pub proof fn lemma_lines_make_grid(a: Grid, b: Grid, m: Move)
    requires
        is_grid(a),
        is_grid(b),
        forall|i: int| 0 <= i < 4 ==> #[trigger] line_of(a, m, i) == line_of(b, m, i),
    ensures
        a == b,
{
    assert forall|r: int| 0 <= r < 4 implies #[trigger] a[r] == b[r] by {
        assert forall|c: int| 0 <= c < 4 implies a[r][c] == b[r][c] by {
            match m {
                Move::Left => {
                    assert(line_of(a, m, r) == line_of(b, m, r));
                },
                Move::Right => {
                    assert(line_of(a, m, r) == line_of(b, m, r));
                    assert(line_of(a, m, r)[3 - c] == a[r][c]);
                    assert(line_of(b, m, r)[3 - c] == b[r][c]);
                },
                Move::Up => {
                    assert(line_of(a, m, c) == line_of(b, m, c));
                    assert(line_of(a, m, c)[r] == a[r][c]);
                    assert(line_of(b, m, c)[r] == b[r][c]);
                },
                Move::Down => {
                    assert(line_of(a, m, c) == line_of(b, m, c));
                    assert(line_of(a, m, c)[3 - r] == a[r][c]);
                    assert(line_of(b, m, c)[3 - r] == b[r][c]);
                },
            }
        }
        assert(a[r] =~= b[r]);
    }
    assert(a =~= b);
}

/// A move is legal exactly when some line along it is not settled: a tile
/// has room to travel, or two equal tiles meet.
pub proof fn lemma_legal_by_lines(g: Grid, m: Move)
    requires
        is_grid(g),
    ensures
        legal(g, m) <==> exists|i: int| 0 <= i < 4 && !settled(#[trigger] line_of(g, m, i)),
{
    assert forall|i: int| 0 <= i < 4 implies (#[trigger] line_of(slid(g, m), m, i) == line_of(
        g,
        m,
        i,
    ) <==> settled(line_of(g, m, i))) by {
        lemma_line_of_slid(g, m, i);
        lemma_fixed_line(line_of(g, m, i));
    }
    lemma_line_of_slid(g, m, 0);
    if forall|i: int| 0 <= i < 4 ==> settled(#[trigger] line_of(g, m, i)) {
        assert forall|i: int| 0 <= i < 4 implies #[trigger] line_of(slid(g, m), m, i) == line_of(
            g,
            m,
            i,
        ) by {
            assert(settled(line_of(g, m, i)));
        }
        lemma_lines_make_grid(slid(g, m), g, m);
    }
}

/// Moving twice in the same direction gives what moving once gives, provided
/// that the first move leaves no two equal tiles next to each other along its
/// axis.
pub proof fn lemma_move_twice(g: Grid, m: Move)
    requires
        is_grid(g),
        !can_merge(slid(g, m), m),
    ensures
        slid(slid(g, m), m) == slid(g, m),
{
    lemma_second_move(g, m);
}

/// Where a move leaves two equal tiles next to each other along its axis,
/// the same move once more merges them: it does not give the same grid again.
pub proof fn lemma_move_twice_merges(g: Grid, m: Move)
    requires
        is_grid(g),
        can_merge(slid(g, m), m),
    ensures
        slid(slid(g, m), m) != slid(g, m),
{
    lemma_second_move(g, m);
}

/// A second move in the same direction changes the grid exactly when the
/// first one left something to merge.
proof fn lemma_second_move(g: Grid, m: Move)
    requires
        is_grid(g),
    ensures
        slid(slid(g, m), m) == slid(g, m) <==> !can_merge(slid(g, m), m),
{
    let once = slid(g, m);
    lemma_line_of_slid(g, m, 0);
    lemma_legal_by_lines(once, m);
    assert forall|i: int| 0 <= i < 4 implies (settled(#[trigger] line_of(once, m, i))
        <==> !has_equal_pair(line_of(once, m, i))) by {
        lemma_line_of_slid(g, m, i);
        lemma_slid_line_twice(line_of(g, m, i));
        lemma_fixed_line(line_of(once, m, i));
    }
    if can_merge(once, m) {
        let i = choose|i: int| 0 <= i < 4 && has_equal_pair(#[trigger] line_of(once, m, i));
        assert(!settled(line_of(once, m, i)));
    }
    if legal(once, m) {
        let i = choose|i: int| 0 <= i < 4 && !settled(#[trigger] line_of(once, m, i));
        assert(has_equal_pair(line_of(once, m, i)));
    }
}

/// A move raises no exponent above the largest one of the grid by more than
/// one.
pub proof fn lemma_move_bound(g: Grid, m: Move, bound: nat)
    requires
        is_grid(g),
        forall|r: int, c: int| 0 <= r < 4 && 0 <= c < 4 ==> #[trigger] g[r][c] <= bound,
    ensures
        forall|r: int, c: int| 0 <= r < 4 && 0 <= c < 4 ==> #[trigger] slid(g, m)[r][c] <= bound + 1,
{
    assert forall|r: int, c: int| 0 <= r < 4 && 0 <= c < 4 implies #[trigger] slid(g, m)[r][c]
        <= bound + 1 by {
        let i = if m == Move::Left || m == Move::Right {
            r
        } else {
            c
        };
        let line = line_of(g, m, i);
        assert forall|k: int| 0 <= k < line.len() implies #[trigger] line[k] <= bound by {
            match m {
                Move::Left => {
                    assert(line[k] == g[i][k]);
                },
                Move::Right => {
                    assert(line[k] == g[i][3 - k]);
                },
                Move::Up => {
                    assert(line[k] == g[k][i]);
                },
                Move::Down => {
                    assert(line[k] == g[3 - k][i]);
                },
            }
        }
        lemma_packed_bound(line, bound);
        lemma_packed_shape(line);
    }
}

/// A legal move leaves an empty cell behind.
pub proof fn lemma_legal_move_makes_room(g: Grid, m: Move)
    requires
        is_grid(g),
        legal(g, m),
    ensures
        has_empty(slid(g, m)),
{
    lemma_legal_by_lines(g, m);
    let i = choose|i: int| 0 <= i < 4 && !settled(#[trigger] line_of(g, m, i));
    let line = line_of(g, m, i);
    lemma_line_of_slid(g, m, i);
    lemma_fixed_line(line);
    lemma_changed_line_has_room(line);
    let after = slid(g, m);
    match m {
        Move::Left => {
            assert(after[i][3] == 0);
        },
        Move::Right => {
            assert(after[i][0] == 0);
        },
        Move::Up => {
            assert(after[3][i] == 0);
        },
        Move::Down => {
            assert(after[0][i] == 0);
        },
    }
}

/// On a grid without an empty cell a move is legal exactly when two equal
/// tiles lie next to each other along its axis.
pub proof fn lemma_full_grid_moves(g: Grid, m: Move)
    requires
        is_grid(g),
        !has_empty(g),
    ensures
        legal(g, m) <==> can_merge(g, m),
{
    lemma_legal_by_lines(g, m);
    assert forall|i: int| 0 <= i < 4 implies (settled(#[trigger] line_of(g, m, i))
        <==> !has_equal_pair(line_of(g, m, i))) by {
        let line = line_of(g, m, i);
        assert forall|k: int| 0 <= k < 4 implies #[trigger] line[k] != 0 by {
            match m {
                Move::Left => {
                    assert(g[i][k] != 0);
                },
                Move::Right => {
                    assert(g[i][3 - k] != 0);
                },
                Move::Up => {
                    assert(g[k][i] != 0);
                },
                Move::Down => {
                    assert(g[3 - k][i] != 0);
                },
            }
        }
        if has_equal_pair(line) {
            let k = choose|k: int| 0 <= k < line.len() - 1 && #[trigger] line[k] != 0 && line[k + 1] == line[k];
            assert(!settled(line));
        }
        if !settled(line) {
            let k = choose|k: int| 0 <= k < line.len() - 1 && !{
                &&& (#[trigger] line[k] == 0 ==> line[k + 1] == 0)
                &&& (line[k] != 0 ==> line[k + 1] != line[k])
            };
            assert(line[k] != 0);
            assert(has_equal_pair(line));
        }
    }
    if can_merge(g, m) {
        let i = choose|i: int| 0 <= i < 4 && has_equal_pair(#[trigger] line_of(g, m, i));
        assert(!settled(line_of(g, m, i)));
    }
    if legal(g, m) {
        let i = choose|i: int| 0 <= i < 4 && !settled(#[trigger] line_of(g, m, i));
        assert(has_equal_pair(line_of(g, m, i)));
    }
}

} // verus!
