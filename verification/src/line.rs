//! One line of tiles: the slide-and-merge primitive on a single row.
//!
//! A line is a sequence of exponents, `0` for an empty cell. Sliding a line
//! moves every tile towards index 0. The tiles are taken up one by one, from
//! index 0 onwards, into a gap-free run: a tile that equals the tile at the
//! end of the run is merged into it (the exponent grows by one), any other
//! tile is appended to the run.

use vstd::prelude::*;

verus! {

/// The run of packed tiles after the cell `v` has been taken up.
pub open spec fn absorb(run: Seq<nat>, v: nat) -> Seq<nat> {
    if v == 0 {
        run
    } else if run.len() > 0 && run.last() == v {
        run.drop_last().push(v + 1)
    } else {
        run.push(v)
    }
}

/// The gap-free run of tiles that a line packs into.
pub open spec fn packed(line: Seq<nat>) -> Seq<nat>
    decreases line.len(),
{
    if line.len() == 0 {
        Seq::empty()
    } else {
        absorb(packed(line.drop_last()), line.last())
    }
}

/// The line after sliding towards index 0: the packed run, then empty cells.
pub open spec fn slid_line(line: Seq<nat>) -> Seq<nat> {
    let run = packed(line);
    Seq::new(
        line.len(),
        |i: int|
            if i < run.len() {
                run[i]
            } else {
                0
            },
    )
}

/// Every exponent of the line can be stored in a cell.
pub open spec fn line_fits(line: Seq<nat>) -> bool {
    forall|i: int| 0 <= i < line.len() ==> line[i] <= u8::MAX
}

/// A line that sliding leaves as it is: no tile has an empty cell before it,
/// and no tile equals the tile after it.
pub open spec fn settled(line: Seq<nat>) -> bool {
    forall|i: int|
        0 <= i < line.len() - 1 ==> {
            &&& (#[trigger] line[i] == 0 ==> line[i + 1] == 0)
            &&& (line[i] != 0 ==> line[i + 1] != line[i])
        }
}

/// Two equal tiles lie next to each other somewhere in the line.
pub open spec fn has_equal_pair(line: Seq<nat>) -> bool {
    exists|i: int| 0 <= i < line.len() - 1 && #[trigger] line[i] != 0 && line[i + 1] == line[i]
}

/// The exponents held by a row of cells.
pub open spec fn exponents(row: [u8; 4]) -> Seq<nat> {
    Seq::new(4, |i: int| row[i] as nat)
}

/// The row while it is being slid: the first `x` cells have been taken up
/// into the run, which lies at the front, the cells after it up to `x` are
/// empty, and the rest is untouched.
spec fn laid_out(cur: Seq<nat>, orig: Seq<nat>, x: int) -> bool {
    let run = packed(orig.take(x));
    &&& cur.len() == orig.len()
    &&& forall|i: int|
        0 <= i < cur.len() ==> #[trigger] cur[i] == (if i < run.len() {
            run[i]
        } else if i < x {
            0
        } else {
            orig[i]
        })
}

/// A packed run is no longer than its line and holds no empty cell.
pub proof fn lemma_packed_shape(line: Seq<nat>)
    ensures
        packed(line).len() <= line.len(),
        forall|i: int| 0 <= i < packed(line).len() ==> #[trigger] packed(line)[i] > 0,
    decreases line.len(),
{
    if line.len() > 0 {
        lemma_packed_shape(line.drop_last());
    }
}

/// Taking up one more cell of a line extends the run of the shorter prefix.
pub proof fn lemma_packed_step(line: Seq<nat>, n: int)
    requires
        0 <= n < line.len(),
    ensures
        packed(line.take(n + 1)) == absorb(packed(line.take(n)), line[n]),
{
    assert(line.take(n + 1).drop_last() =~= line.take(n));
}

/// The run of a prefix lies under the run of the whole line: the whole run is
/// at least as long, and no tile of it is smaller.
pub proof fn lemma_packed_grows(line: Seq<nat>, n: int)
    requires
        0 <= n <= line.len(),
    ensures
        packed(line.take(n)).len() <= packed(line).len(),
        packed(line).len() <= packed(line.take(n)).len() + (line.len() - n),
        forall|i: int|
            0 <= i < packed(line.take(n)).len() ==> #[trigger] packed(line.take(n))[i] <= packed(
                line,
            )[i],
    decreases line.len() - n,
{
    if n == line.len() {
        assert(line.take(n) =~= line);
    } else {
        let shorter = line.drop_last();
        assert(shorter.take(n) =~= line.take(n));
        lemma_packed_grows(shorter, n);
    }
}

/// Sliding keeps every tile within one step of the largest tile of the line.
pub proof fn lemma_packed_bound(line: Seq<nat>, bound: nat)
    requires
        forall|i: int| 0 <= i < line.len() ==> #[trigger] line[i] <= bound,
    ensures
        forall|i: int| 0 <= i < packed(line).len() ==> #[trigger] packed(line)[i] <= bound + 1,
    decreases line.len(),
{
    if line.len() > 0 {
        let shorter = line.drop_last();
        assert forall|i: int| 0 <= i < shorter.len() implies #[trigger] shorter[i] <= bound by {
            assert(shorter[i] == line[i]);
        }
        lemma_packed_bound(shorter, bound);
        assert(line[line.len() - 1] <= bound);
        let run = packed(shorter);
        assert forall|i: int| 0 <= i < packed(line).len() implies #[trigger] packed(line)[i]
            <= bound + 1 by {
            if i < run.len() {
                assert(run[i] <= bound + 1);
            }
        }
    }
}

/// A run as long as its line is the line itself: nothing was empty and
/// nothing merged.
pub proof fn lemma_full_run(line: Seq<nat>)
    requires
        packed(line).len() == line.len(),
    ensures
        packed(line) == line,
    decreases line.len(),
{
    if line.len() > 0 {
        let shorter = line.drop_last();
        lemma_packed_shape(shorter);
        lemma_full_run(shorter);
        assert(packed(line) =~= line);
    } else {
        assert(packed(line) =~= line);
    }
}

/// A slide that changes a line leaves its last cell empty.
pub proof fn lemma_changed_line_has_room(line: Seq<nat>)
    requires
        slid_line(line) != line,
    ensures
        line.len() > 0,
        slid_line(line)[line.len() - 1] == 0,
{
    lemma_packed_shape(line);
    if packed(line).len() == line.len() {
        lemma_full_run(line);
        assert(slid_line(line) =~= line);
    }
}

/// The run of a settled line is the line up to its first empty cell.
proof fn lemma_settled_run(line: Seq<nat>, n: int)
    requires
        settled(line),
        0 <= n <= line.len(),
    ensures
        forall|i: int| 0 <= i < packed(line.take(n)).len() ==> packed(line.take(n))[i] == line[i],
        packed(line.take(n)).len() <= n,
        forall|i: int| packed(line.take(n)).len() <= i < n ==> line[i] == 0,
        forall|i: int| 0 <= i < packed(line.take(n)).len() ==> line[i] != 0,
    decreases n,
{
    if n > 0 {
        lemma_settled_run(line, n - 1);
        lemma_packed_step(line, n - 1);
        let run = packed(line.take(n - 1));
        if run.len() < n - 1 {
            assert(line[n - 2] == 0);
        } else if n - 1 > 0 {
            assert(line[n - 2] != 0);
        }
    }
}

/// Sliding leaves a line as it is exactly when the line is settled.
pub proof fn lemma_fixed_line(line: Seq<nat>)
    ensures
        slid_line(line) == line <==> settled(line),
{
    let n = line.len() as int;
    assert(line.take(n) =~= line);
    if settled(line) {
        lemma_settled_run(line, n);
        assert(slid_line(line) =~= line);
    }
    if slid_line(line) == line {
        let run = packed(line);
        let k = run.len() as int;
        lemma_packed_shape(line);
        assert forall|i: int| 0 <= i < n - 1 implies {
            &&& (#[trigger] line[i] == 0 ==> line[i + 1] == 0)
            &&& (line[i] != 0 ==> line[i + 1] != line[i])
        } by {
            assert(slid_line(line)[i] == line[i]);
            assert(slid_line(line)[i + 1] == line[i + 1]);
            if line[i] != 0 && line[i + 1] == line[i] {
                // both cells lie in the run, so every prefix packs to itself
                assert(i + 1 < k);
                lemma_prefix_runs_full(line, i + 1);
                lemma_prefix_runs_full(line, i + 2);
                lemma_packed_step(line, i + 1);
                lemma_full_run(line.take(i + 1));
                assert(line.take(i + 1).last() == line[i]);
            }
        }
    }
}

/// Where sliding leaves a line as it is, the run of each prefix that ends
/// inside the run of the line is as long as the prefix.
proof fn lemma_prefix_runs_full(line: Seq<nat>, n: int)
    requires
        slid_line(line) == line,
        0 <= n <= packed(line).len(),
    ensures
        n <= line.len(),
        packed(line.take(n)).len() == n,
{
    lemma_packed_shape(line);
    let k = packed(line).len() as int;
    // the cells after the run are empty, so the run is already that of the
    // first k cells
    lemma_tail_of_fixed_line(line, line.len() as int);
    assert(line.take(line.len() as int) =~= line);
    lemma_packed_grows(line.take(k), n);
    assert(line.take(k).take(n) =~= line.take(n));
    lemma_packed_shape(line.take(n));
}

/// Where sliding leaves a line as it is, the prefixes that reach past the run
/// of the line pack to that run.
proof fn lemma_tail_of_fixed_line(line: Seq<nat>, n: int)
    requires
        slid_line(line) == line,
        packed(line).len() <= n <= line.len(),
    ensures
        packed(line.take(n)) == packed(line.take(packed(line).len() as int)),
    decreases n,
{
    let k = packed(line).len() as int;
    if n > k {
        lemma_tail_of_fixed_line(line, n - 1);
        lemma_packed_step(line, n - 1);
        assert(slid_line(line)[n - 1] == 0);
    }
}

/// Sliding a line that was just slid changes it exactly when the first slide
/// left two equal tiles next to each other.
pub proof fn lemma_slid_line_twice(line: Seq<nat>)
    ensures
        slid_line(slid_line(line)) == slid_line(line) <==> !has_equal_pair(slid_line(line)),
{
    let once = slid_line(line);
    lemma_packed_shape(line);
    lemma_fixed_line(once);
    if !has_equal_pair(once) {
        assert forall|i: int| 0 <= i < once.len() - 1 implies {
            &&& (#[trigger] once[i] == 0 ==> once[i + 1] == 0)
            &&& (once[i] != 0 ==> once[i + 1] != once[i])
        } by {
            if once[i] != 0 && once[i + 1] == once[i] {
                assert(has_equal_pair(once));
            }
        }
    }
}

/// Slides one row of cells towards index 0, merging equal neighbours.
///
/// Each cell from index 1 on is looked at once: it jumps over the empty cells
/// before it, then merges into the tile it meets if that tile is equal, or
/// else stops behind it.
pub fn slide_row(row: &mut [u8; 4])
    requires
        line_fits(slid_line(exponents(*old(row)))),
    ensures
        exponents(*final(row)) == slid_line(exponents(*old(row))),
{
    let ghost orig = exponents(*row);
    proof {
        assert(orig.take(1).drop_last() =~= Seq::<nat>::empty());
        assert(packed(orig.take(1)) == absorb(packed(Seq::<nat>::empty()), orig[0]));
    }
    let mut x: usize = 1;
    while x < 4
        invariant
            1 <= x <= 4,
            orig.len() == 4,
            line_fits(slid_line(orig)),
            laid_out(exponents(*row), orig, x as int),
        decreases 4 - x,
    {
        let ghost run = packed(orig.take(x as int));
        let ghost before = exponents(*row);
        proof {
            lemma_packed_shape(orig.take(x as int));
            lemma_packed_step(orig, x as int);
            lemma_packed_grows(orig, x as int + 1);
            lemma_packed_shape(orig);
            assert(forall|i: int| 0 <= i < 4 ==> before[i] == row[i] as nat);
        }
        let mut nx: usize = x;
        while nx > 0 && row[nx - 1] == 0
            invariant
                run.len() <= nx <= x < 4,
                before == exponents(*row),
                forall|i: int| 0 <= i < run.len() ==> #[trigger] before[i] > 0,
            decreases nx,
        {
            assert(before[nx - 1] == row[nx - 1] as nat);
            nx -= 1;
        }
        let ghost next = packed(orig.take(x as int + 1));
        proof {
            assert(before[x as int] == orig[x as int]);
            if nx > 0 {
                assert(before[nx - 1] == row[nx - 1] as nat);
            }
            if nx > run.len() {
                assert(before[nx - 1] == 0);
            }
            assert(nx == run.len());
            if nx > 0 {
                assert(before[nx - 1] == run[nx - 1]);
            }
            assert(next == absorb(run, orig[x as int]));
        }
        if nx > 0 && row[nx - 1] == row[x] {
            proof {
                assert(next =~= run.drop_last().push(orig[x as int] + 1));
                assert(next[nx - 1] == before[nx - 1] + 1);
                assert(slid_line(orig)[nx - 1] == packed(orig)[nx - 1]);
            }
            row[nx - 1] += 1;
            row[x] = 0;
        } else if nx < x {
            row[nx] = row[x];
            row[x] = 0;
        }
        proof {
            let after = exponents(*row);
            assert forall|i: int| 0 <= i < 4 implies #[trigger] after[i] == (if i < next.len() {
                next[i]
            } else if i < x + 1 {
                0
            } else {
                orig[i]
            }) by {
                assert(after[i] == row[i] as nat);
                assert(before[i] == if i < run.len() {
                    run[i]
                } else if i < x {
                    0
                } else {
                    orig[i]
                });
            }
        }
        x += 1;
    }
    proof {
        assert(orig.take(4) =~= orig);
        assert(exponents(*row) =~= slid_line(orig));
    }
}

} // verus!
