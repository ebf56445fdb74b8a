//! Rolls of paper (`@`) on a grid: a roll is accessible when fewer than four
//! of its eight neighbours are rolls. Count the accessible rolls, then how
//! many rolls go when accessible rolls are removed round after round.
//!
//! The grid's width is that of its first line; a cell past the end of a
//! shorter line holds no roll.

use vstd::prelude::*;
use vstd::string::StringSliceAdditionalSpecFns;
use crate::text::{lines_of, read_grid, grid_view};

verus! {

pub open spec fn width(g: Seq<Seq<u8>>) -> int {
    if g.len() == 0 {
        0
    } else {
        g[0].len() as int
    }
}

/// 1 where the cell at row `r`, column `c` holds a roll, else 0.
pub open spec fn roll_at(g: Seq<Seq<u8>>, cols: int, r: int, c: int) -> int {
    if 0 <= r < g.len() && 0 <= c < cols && c < g[r].len() && g[r][c] == 64 {
        1
    } else {
        0
    }
}

/// Rolls among the eight cells around `(r, c)`.
pub open spec fn neighbours(g: Seq<Seq<u8>>, cols: int, r: int, c: int) -> int {
    roll_at(g, cols, r - 1, c - 1) + roll_at(g, cols, r - 1, c) + roll_at(g, cols, r - 1, c + 1)
        + roll_at(g, cols, r, c - 1) + roll_at(g, cols, r, c + 1) + roll_at(g, cols, r + 1, c - 1)
        + roll_at(g, cols, r + 1, c) + roll_at(g, cols, r + 1, c + 1)
}

pub open spec fn accessible(g: Seq<Seq<u8>>, cols: int, r: int, c: int) -> bool {
    roll_at(g, cols, r, c) == 1 && neighbours(g, cols, r, c) < 4
}

/// Accessible rolls in row `r`, columns below `c`.
pub open spec fn row_accessible(g: Seq<Seq<u8>>, cols: int, r: int, c: int) -> int
    decreases c,
{
    if c <= 0 {
        0
    } else {
        row_accessible(g, cols, r, c - 1) + if accessible(g, cols, r, c - 1) {
            1int
        } else {
            0int
        }
    }
}

/// Accessible rolls in the rows below `r`.
pub open spec fn grid_accessible(g: Seq<Seq<u8>>, cols: int, r: int) -> int
    decreases r,
{
    if r <= 0 {
        0
    } else {
        grid_accessible(g, cols, r - 1) + row_accessible(g, cols, r - 1, cols)
    }
}

pub open spec fn row_rolls(g: Seq<Seq<u8>>, cols: int, r: int, c: int) -> int
    decreases c,
{
    if c <= 0 {
        0
    } else {
        row_rolls(g, cols, r, c - 1) + roll_at(g, cols, r, c - 1)
    }
}

/// Rolls in the rows below `r`.
pub open spec fn grid_rolls(g: Seq<Seq<u8>>, cols: int, r: int) -> int
    decreases r,
{
    if r <= 0 {
        0
    } else {
        grid_rolls(g, cols, r - 1) + row_rolls(g, cols, r - 1, cols)
    }
}

/// The grid once every accessible roll is taken away.
pub open spec fn cleared(g: Seq<Seq<u8>>, cols: int) -> Seq<Seq<u8>> {
    Seq::new(
        g.len(),
        |r: int| Seq::new(g[r].len(), |c: int| if accessible(g, cols, r, c) { 46u8 } else { g[r][c] }),
    )
}

pub open spec fn after_rounds(g: Seq<Seq<u8>>, cols: int, n: nat) -> Seq<Seq<u8>>
    decreases n,
{
    if n == 0 {
        g
    } else {
        cleared(after_rounds(g, cols, (n - 1) as nat), cols)
    }
}

/// Rolls taken away in the first `n` rounds.
pub open spec fn removed_in(g: Seq<Seq<u8>>, cols: int, n: nat) -> int
    decreases n,
{
    if n == 0 {
        0
    } else {
        removed_in(g, cols, (n - 1) as nat) + grid_accessible(
            after_rounds(g, cols, (n - 1) as nat),
            cols,
            g.len() as int,
        )
    }
}


proof fn lemma_row_cleared(g: Seq<Seq<u8>>, cols: int, r: int, c: int)
    requires
        0 <= r < g.len(),
    ensures
        row_rolls(cleared(g, cols), cols, r, c) == row_rolls(g, cols, r, c) - row_accessible(g, cols, r, c),
    decreases c,
{
    if c > 0 {
        lemma_row_cleared(g, cols, r, c - 1);
    }
}

proof fn lemma_grid_cleared(g: Seq<Seq<u8>>, cols: int, r: int)
    requires
        r <= g.len(),
    ensures
        grid_rolls(cleared(g, cols), cols, r) == grid_rolls(g, cols, r) - grid_accessible(g, cols, r),
    decreases r,
{
    if r > 0 {
        lemma_grid_cleared(g, cols, r - 1);
        lemma_row_cleared(g, cols, r - 1, cols);
    }
}

proof fn lemma_rolls_bound(g: Seq<Seq<u8>>, cols: int, r: int)
    requires
        0 <= cols,
        0 <= r,
    ensures
        grid_rolls(g, cols, r) <= r * cols,
    decreases r,
{
    if r > 0 {
        lemma_rolls_bound(g, cols, r - 1);
        lemma_row_rolls_bound(g, cols, r - 1, cols);
        assert((r - 1) * cols + cols == r * cols) by (nonlinear_arith);
    }
}

proof fn lemma_row_rolls_bound(g: Seq<Seq<u8>>, cols: int, r: int, c: int)
    ensures
        row_rolls(g, cols, r, c) <= if c < 0 { 0 } else { c },
    decreases c,
{
    if c > 0 {
        lemma_row_rolls_bound(g, cols, r, c - 1);
    }
}

proof fn lemma_rolls_nonneg(g: Seq<Seq<u8>>, cols: int, r: int)
    ensures
        grid_rolls(g, cols, r) >= 0,
    decreases r,
{
    if r > 0 {
        lemma_rolls_nonneg(g, cols, r - 1);
        lemma_row_rolls_nonneg(g, cols, r - 1, cols);
    }
}

proof fn lemma_row_rolls_nonneg(g: Seq<Seq<u8>>, cols: int, r: int, c: int)
    ensures
        row_rolls(g, cols, r, c) >= 0,
    decreases c,
{
    if c > 0 {
        lemma_row_rolls_nonneg(g, cols, r, c - 1);
    }
}

/// 1 where the cell holds a roll.
fn roll(grid: &Vec<Vec<u8>>, cols: usize, r: usize, c: usize) -> (n: usize)
    ensures
        n == roll_at(grid_view(grid@), cols as int, r as int, c as int),
{
    if r < grid.len() && c < cols && c < grid[r].len() && grid[r][c] == 64 {
        1
    } else {
        0
    }
}

/// Rolls around `(r, c)`.
fn count_neighbors(grid: &Vec<Vec<u8>>, cols: usize, r: usize, c: usize) -> (n: usize)
    requires
        r < grid.len(),
        c < cols,
        cols == width(grid_view(grid@)),
    ensures
        n == neighbours(grid_view(grid@), cols as int, r as int, c as int),
{
    let up = if r > 0 {
        roll(grid, cols, r - 1, c) + if c > 0 {
            roll(grid, cols, r - 1, c - 1)
        } else {
            0
        } + roll(grid, cols, r - 1, c + 1)
    } else {
        0
    };
    let side = if c > 0 {
        roll(grid, cols, r, c - 1)
    } else {
        0
    } + roll(grid, cols, r, c + 1);
    let down = roll(grid, cols, r + 1, c) + if c > 0 {
        roll(grid, cols, r + 1, c - 1)
    } else {
        0
    } + roll(grid, cols, r + 1, c + 1);
    up + side + down
}

/// The grid with every accessible roll taken away, and how many went.
fn clear_accessible(grid: &Vec<Vec<u8>>, cols: usize) -> (res: (Vec<Vec<u8>>, usize))
    requires
        cols == width(grid_view(grid@)),
        grid.len() * cols <= usize::MAX,
    ensures
        grid_view(res.0@) == cleared(grid_view(grid@), cols as int),
        res.1 == grid_accessible(grid_view(grid@), cols as int, grid.len() as int),
{
    let ghost g = grid_view(grid@);
    let mut out: Vec<Vec<u8>> = Vec::new();
    let mut count: usize = 0;
    let mut r: usize = 0;
    while r < grid.len()
        invariant
            r <= grid.len(),
            g == grid_view(grid@),
            cols == width(g),
            out.len() == r,
            forall|k: int| 0 <= k < r ==> (#[trigger] out@[k])@ == cleared(g, cols as int)[k],
            count == grid_accessible(g, cols as int, r as int),
            count <= r * cols,
            grid.len() * cols <= usize::MAX,
        decreases grid.len() - r,
    {
        let mut row: Vec<u8> = Vec::new();
        let mut row_count: usize = 0;
        let mut c: usize = 0;
        let n = grid[r].len();
        while c < n
            invariant
                c <= n,
                r < grid.len(),
                n == grid@[r as int].len(),
                g == grid_view(grid@),
                cols == width(g),
                row.len() == c,
                forall|k: int| 0 <= k < c ==> row@[k] == cleared(g, cols as int)[r as int][k],
                row_count == row_accessible(g, cols as int, r as int, if c < cols { c as int } else { cols as int }),
                row_count <= c,
            decreases n - c,
        {
            let cell = grid[r][c];
            let open = c < cols && cell == 64 && count_neighbors(grid, cols, r, c) < 4;
            if open {
                row.push(46);
                row_count += 1;
            } else {
                row.push(cell);
            }
            c += 1;
        }
        proof {
            assert(row@ =~= cleared(g, cols as int)[r as int]);
            lemma_row_accessible_tail(g, cols as int, r as int, n as int);
        }
        proof {
            assert(count + row_count <= (r + 1) * cols <= grid.len() * cols) by (nonlinear_arith)
                requires
                    count <= r * cols,
                    row_count <= cols,
                    r + 1 <= grid.len(),
            ;
        }
        out.push(row);
        count = count + row_count;
        r += 1;
    }
    proof {
        assert(grid_view(out@) =~= cleared(g, cols as int));
    }
    (out, count)
}

/// Columns at or past the end of a row hold nothing accessible.
proof fn lemma_row_accessible_tail(g: Seq<Seq<u8>>, cols: int, r: int, n: int)
    requires
        0 <= cols,
        0 <= r < g.len(),
        n == g[r].len(),
    ensures
        row_accessible(g, cols, r, cols) == row_accessible(g, cols, r, if n < cols { n } else { cols }),
        row_accessible(g, cols, r, if n < cols { n } else { cols }) <= cols,
{
    lemma_row_tail(g, cols, r, n, cols);
    lemma_row_bound(g, cols, r, if n < cols { n } else { cols });
}

proof fn lemma_row_tail(g: Seq<Seq<u8>>, cols: int, r: int, n: int, c: int)
    requires
        0 <= r < g.len(),
        n == g[r].len(),
    ensures
        row_accessible(g, cols, r, c) == row_accessible(g, cols, r, if c < n { c } else { n }),
    decreases c,
{
    if c > n {
        lemma_row_tail(g, cols, r, n, c - 1);
    }
}

proof fn lemma_row_bound(g: Seq<Seq<u8>>, cols: int, r: int, c: int)
    ensures
        row_accessible(g, cols, r, c) <= if c < 0 { 0 } else { c },
    decreases c,
{
    if c > 0 {
        lemma_row_bound(g, cols, r, c - 1);
    }
}

/// Accessible rolls in the grid of `input`.
pub fn solve(input: &str) -> (n: usize)
    requires
        lines_of(input.spec_bytes()).len() * width(lines_of(input.spec_bytes())) <= usize::MAX,
    ensures
        ({
            let g = lines_of(input.spec_bytes());
            n == grid_accessible(g, width(g), g.len() as int)
        }),
{
    let grid = read_grid(input);
    if grid.len() == 0 {
        return 0;
    }
    let cols = grid[0].len();
    let (_, count) = clear_accessible(&grid, cols);
    count
}

/// Rolls taken away when accessible rolls are removed round after round
/// until none is accessible.
pub fn solve_part2(input: &str) -> (n: usize)
    requires
        lines_of(input.spec_bytes()).len() * width(lines_of(input.spec_bytes())) <= usize::MAX,
    ensures
        ({
            let g = lines_of(input.spec_bytes());
            exists|k: nat|
                n == removed_in(g, width(g), k) && grid_accessible(after_rounds(g, width(g), k), width(g), g.len() as int)
                    == 0
        }),
{
    let mut grid = read_grid(input);
    let ghost g0 = grid_view(grid@);
    if grid.len() == 0 {
        proof {
            assert(0 == removed_in(g0, width(g0), 0) && grid_accessible(after_rounds(g0, width(g0), 0), width(g0), g0.len() as int) == 0);
        }
        return 0;
    }
    let cols = grid[0].len();
    let mut total: usize = 0;
    let ghost mut k: nat = 0;
    proof {
        lemma_rolls_nonneg(g0, cols as int, g0.len() as int);
        lemma_rolls_bound(g0, cols as int, g0.len() as int);
    }
    loop
        invariant
            grid.len() == g0.len(),
            g0.len() > 0,
            cols == width(g0),
            grid_view(grid@) == after_rounds(g0, cols as int, k),
            total == removed_in(g0, cols as int, k),
            total + grid_rolls(grid_view(grid@), cols as int, grid.len() as int) == grid_rolls(g0, cols as int, g0.len() as int),
            grid_rolls(g0, cols as int, g0.len() as int) <= g0.len() * cols,
            g0.len() * cols <= usize::MAX,
            cols == width(grid_view(grid@)),
            g0 == lines_of(input.spec_bytes()),
        decreases grid_rolls(grid_view(grid@), cols as int, grid.len() as int),
    {
        let (next, removed) = clear_accessible(&grid, cols);
        proof {
            lemma_grid_cleared(grid_view(grid@), cols as int, grid.len() as int);
            lemma_rolls_nonneg(grid_view(next@), cols as int, grid.len() as int);
        }
        if removed == 0 {
            proof {
                assert(total == removed_in(g0, width(g0), k) && grid_accessible(
                    after_rounds(g0, width(g0), k),
                    width(g0),
                    g0.len() as int,
                ) == 0);
            }
            return total;
        }
        total = total + removed;
        proof {
            assert(width(grid_view(next@)) == width(grid_view(grid@)));
        }
        grid = next;
        proof {
            k = k + 1;
        }
    }
}

} // verus!
