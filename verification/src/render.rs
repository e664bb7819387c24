//! The board as text: a frame of `+----+` borders with the value of each
//! tile centred in its cell.

use crate::board::Board;
use crate::grid::Grid;
use vstd::arithmetic::power2::{lemma2_to64, lemma_pow2_strictly_increases, pow2};
use vstd::bits::lemma_u64_shl_is_mul;
use vstd::prelude::*;

verus! {

/// The width of a cell between two bars.
pub const CELL_WIDTH: u64 = 4;

/// The character of a decimal digit.
pub open spec fn digit(d: nat) -> char {
    if d == 0 {
        '0'
    } else if d == 1 {
        '1'
    } else if d == 2 {
        '2'
    } else if d == 3 {
        '3'
    } else if d == 4 {
        '4'
    } else if d == 5 {
        '5'
    } else if d == 6 {
        '6'
    } else if d == 7 {
        '7'
    } else if d == 8 {
        '8'
    } else {
        '9'
    }
}

/// The decimal digits of a number, without leading zeros.
pub open spec fn decimal(n: nat) -> Seq<char>
    decreases n,
{
    if n < 10 {
        seq![digit(n)]
    } else {
        decimal(n / 10).push(digit(n % 10))
    }
}

/// `n` blanks.
pub open spec fn blanks(n: nat) -> Seq<char> {
    Seq::new(n, |i: int| ' ')
}

/// The text in the middle of a field of the given width. Where the blanks
/// cannot be shared out evenly the odd one goes to the right; a text that is
/// too long is left as it is.
pub open spec fn centred(text: Seq<char>, width: nat) -> Seq<char> {
    if text.len() >= width {
        text
    } else {
        let room = (width - text.len()) as nat;
        blanks(room / 2) + text + blanks((room - room / 2) as nat)
    }
}

/// The text of one cell: blank when it is empty, else the value of its tile.
pub open spec fn cell_text(v: nat) -> Seq<char> {
    if v == 0 {
        blanks(CELL_WIDTH as nat)
    } else {
        centred(decimal(pow2(v)), CELL_WIDTH as nat)
    }
}

/// The line between two rows, and above and below the board.
pub open spec fn border() -> Seq<char> {
    "+----+----+----+----+\r\n"@
}

/// A bar, then the first `n` cells of the row, each followed by a bar.
pub open spec fn cells_text(row: Seq<nat>, n: nat) -> Seq<char>
    decreases n,
{
    if n == 0 {
        "|"@
    } else {
        cells_text(row, (n - 1) as nat) + cell_text(row[n - 1]) + "|"@
    }
}

/// The first `n` rows of the grid, each under a border.
pub open spec fn rows_text(g: Grid, n: nat) -> Seq<char>
    decreases n,
{
    if n == 0 {
        Seq::empty()
    } else {
        rows_text(g, (n - 1) as nat) + border() + cells_text(g[n - 1], 4) + "\r\n"@
    }
}

/// The text of the whole grid: four rows and the closing border.
pub open spec fn grid_text(g: Grid) -> Seq<char> {
    rows_text(g, 4) + border()
}

/// The value of every tile of the grid can be held in 64 bits.
pub open spec fn values_fit(g: Grid) -> bool {
    forall|r: int, c: int| 0 <= r < 4 && 0 <= c < 4 ==> #[trigger] g[r][c] < u64::BITS
}

/// The text of one decimal digit.
fn digit_text(d: u64) -> (text: &'static str)
    requires
        d < 10,
    ensures
        text@ == seq![digit(d as nat)],
{
    proof {
        reveal_strlit("0");
        reveal_strlit("1");
        reveal_strlit("2");
        reveal_strlit("3");
        reveal_strlit("4");
        reveal_strlit("5");
        reveal_strlit("6");
        reveal_strlit("7");
        reveal_strlit("8");
        reveal_strlit("9");
    }
    let text = if d == 0 {
        "0"
    } else if d == 1 {
        "1"
    } else if d == 2 {
        "2"
    } else if d == 3 {
        "3"
    } else if d == 4 {
        "4"
    } else if d == 5 {
        "5"
    } else if d == 6 {
        "6"
    } else if d == 7 {
        "7"
    } else if d == 8 {
        "8"
    } else {
        "9"
    };
    assert(text@ =~= seq![digit(d as nat)]);
    text
}

/// Writes the decimal digits of `n` at the end of `out`.
fn push_decimal(out: &mut String, n: u64)
    ensures
        final(out)@ == old(out)@ + decimal(n as nat),
    decreases n,
{
    if n >= 10 {
        push_decimal(out, n / 10);
    }
    out.append(digit_text(n % 10));
    assert(out@ =~= old(out)@ + decimal(n as nat));
}

/// Writes `n` blanks at the end of `out`.
fn push_blanks(out: &mut String, n: u64)
    ensures
        final(out)@ == old(out)@ + blanks(n as nat),
{
    let mut i: u64 = 0;
    proof {
        assert(out@ =~= old(out)@ + blanks(0));
    }
    while i < n
        invariant
            i <= n,
            out@ == old(out)@ + blanks(i as nat),
        decreases n - i,
    {
        proof {
            reveal_strlit(" ");
        }
        out.append(" ");
        i += 1;
        assert(out@ =~= old(out)@ + blanks(i as nat));
    }
}

/// The number of decimal digits of `n`.
fn decimal_len(n: u64) -> (len: u64)
    ensures
        len == decimal(n as nat).len(),
{
    let mut len: u64 = 1;
    let mut rest: u64 = n;
    while rest >= 10
        invariant
            len >= 1,
            len + rest <= n + 1,
            decimal(n as nat).len() == decimal(rest as nat).len() + len - 1,
        decreases rest,
    {
        rest = rest / 10;
        len += 1;
    }
    len
}

/// Writes the text of a cell with the exponent `v` at the end of `out`.
fn push_cell(out: &mut String, v: u8)
    requires
        v < u64::BITS,
    ensures
        final(out)@ == old(out)@ + cell_text(v as nat),
{
    if v == 0 {
        push_blanks(out, CELL_WIDTH);
        return ;
    }
    proof {
        lemma2_to64();
        lemma_pow2_strictly_increases(v as nat, 64);
        lemma_u64_shl_is_mul(1, v as u64);
    }
    let value: u64 = 1u64 << (v as u64);
    let len = decimal_len(value);
    if len >= CELL_WIDTH {
        push_decimal(out, value);
    } else {
        let room = CELL_WIDTH - len;
        let left = room / 2;
        push_blanks(out, left);
        push_decimal(out, value);
        push_blanks(out, room - left);
        assert(out@ =~= old(out)@ + cell_text(v as nat));
    }
}

impl Board {
    /// The board as text, ready to be printed on a terminal in raw mode:
    /// every line ends with a carriage return and a line feed.
    pub fn render(&self) -> (text: String)
        requires
            values_fit(self@),
        ensures
            text@ == grid_text(self@),
    {
        let mut text = String::new();
        let mut r: usize = 0;
        proof {
            assert(text@ =~= rows_text(self@, 0));
        }
        while r < 4
            invariant
                r <= 4,
                values_fit(self@),
                text@ == rows_text(self@, r as nat),
            decreases 4 - r,
        {
            let ghost above = text@;
            text.append("+----+----+----+----+\r\n");
            text.append("|");
            let mut c: usize = 0;
            while c < 4
                invariant
                    r < 4,
                    c <= 4,
                    values_fit(self@),
                    text@ == above + border() + cells_text(self@[r as int], c as nat),
                decreases 4 - c,
            {
                let ghost so_far = text@;
                assert(self@[r as int][c as int] < u64::BITS);
                push_cell(&mut text, self.tiles[r][c]);
                text.append("|");
                c += 1;
                assert(text@ =~= above + border() + cells_text(self@[r as int], c as nat));
            }
            text.append("\r\n");
            r += 1;
            assert(text@ =~= rows_text(self@, r as nat));
        }
        text.append("+----+----+----+----+\r\n");
        text
    }
}

} // verus!
