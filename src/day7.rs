//! Tachyon beams in a manifold: a beam enters below `S` and falls; a
//! splitter `^` stops it and sends beams down from the cells on its left and
//! right. Count the splitters that beams reach, and the timelines, where
//! each splitter doubles the ways a single particle can go.
//!
//! The grid's width is that of its first line: a splitter sends no beam past
//! it. A cell past the end of a shorter line is empty. Splitters side by side
//! pass beams along; the timeline count asks that no two stand side by side,
//! since a particle could bounce between them forever.

use vstd::prelude::*;
use vstd::string::StringSliceAdditionalSpecFns;
use crate::text::{lines_of, read_grid, grid_view};

verus! {

pub open spec fn width(g: Seq<Seq<u8>>) -> int {
    if g.len() == 0 {
        0
    } else {
        g[0].len() as int
    }
}

pub open spec fn is_split(g: Seq<Seq<u8>>, r: int, c: int) -> bool {
    0 <= r < g.len() && 0 <= c < g[r].len() && g[r][c] == 94
}

/// No two splitters stand side by side.
pub open spec fn splitters_apart(g: Seq<Seq<u8>>) -> bool {
    forall|r: int, c: int| #[trigger] is_split(g, r, c) ==> !is_split(g, r, c + 1)
}

/// First `S` of row `r`, or of a later row.
pub open spec fn start_from(g: Seq<Seq<u8>>, r: int) -> Option<(int, int)>
    decreases g.len() - r,
{
    if r < 0 || r >= g.len() {
        None
    } else if exists|c: int| 0 <= c < g[r].len() && g[r][c] == 83 {
        let c = choose|c: int| 0 <= c < g[r].len() && g[r][c] == 83 && forall|d: int| 0 <= d < c ==> g[r][d] != 83;
        Some((r, c))
    } else {
        start_from(g, r + 1)
    }
}

pub open spec fn row_len(g: Seq<Seq<u8>>, r: int) -> int {
    if 0 <= r < g.len() {
        g[r].len() as int
    } else {
        0
    }
}

pub open spec fn reach_measure(g: Seq<Seq<u8>>, r: int, c: int, mode: int) -> int {
    if mode == 3 {
        0
    } else if mode == 1 {
        if c >= 0 {
            c + 1
        } else {
            0
        }
    } else if mode == 2 {
        (if c < row_len(g, r) {
            row_len(g, r) - c
        } else {
            0
        }) + 1
    } else {
        row_len(g, r) + (if c >= 0 {
            c
        } else {
            0
        }) + 3
    }
}

/// Beams in cell `(r, c)`, the first entering at `s`, by how they come:
/// mode 3, falling in from above (or entering there); mode 1, sent right by
/// a run of splitters on the left; mode 2, sent left by a run of splitters
/// on the right; mode 0, any of these. A splitter sends beams to both
/// sides, the right one only inside the grid's width.
pub open spec fn reach(g: Seq<Seq<u8>>, s: (int, int), r: int, c: int, mode: int) -> bool
    decreases r, reach_measure(g, r, c, mode),
{
    if r < 0 || r >= g.len() || c < 0 {
        false
    } else if mode == 3 {
        (r == s.0 && c == s.1) || (r > s.0 && r > 0 && reach(g, s, r - 1, c, 0) && !is_split(g, r - 1, c))
    } else if mode == 1 {
        c >= 1 && c < width(g) && is_split(g, r, c - 1) && (reach(g, s, r, c - 1, 3) || reach(g, s, r, c - 1, 1))
    } else if mode == 2 {
        is_split(g, r, c + 1) && (reach(g, s, r, c + 1, 3) || reach(g, s, r, c + 1, 2))
    } else {
        reach(g, s, r, c, 3) || reach(g, s, r, c, 1) || reach(g, s, r, c, 2)
    }
}

/// A beam passes through cell `(r, c)`; the first beam enters at `s`.
pub open spec fn beam_at(g: Seq<Seq<u8>>, s: (int, int), r: int, c: int) -> bool {
    reach(g, s, r, c, 0)
}

/// Splitters reached in row `r`, columns below `c`.
pub open spec fn row_splits(g: Seq<Seq<u8>>, s: (int, int), r: int, c: int) -> int
    decreases c,
{
    if c <= 0 {
        0
    } else {
        row_splits(g, s, r, c - 1) + if is_split(g, r, c - 1) && beam_at(g, s, r, c - 1) {
            1int
        } else {
            0int
        }
    }
}

/// Splitters reached in the rows below `r`.
pub open spec fn grid_splits(g: Seq<Seq<u8>>, s: (int, int), r: int) -> int
    decreases r,
{
    if r <= 0 {
        0
    } else {
        grid_splits(g, s, r - 1) + row_splits(g, s, r - 1, g[r - 1].len() as int)
    }
}

/// Ways a particle at `(r, c)` can leave the grid.
pub open spec fn ways(g: Seq<Seq<u8>>, r: int, c: int) -> nat
    decreases 2 * (g.len() - r) + if is_split(g, r, c) {
        1int
    } else {
        0int
    },
{
    if r < 0 || r >= g.len() {
        0
    } else if is_split(g, r, c) {
        let left: nat = if c > 0 {
            if is_split(g, r, c - 1) {
                0
            } else {
                ways(g, r, c - 1)
            }
        } else {
            1
        };
        let right: nat = if c + 1 < width(g) {
            if is_split(g, r, c + 1) {
                0
            } else {
                ways(g, r, c + 1)
            }
        } else {
            1
        };
        left + right
    } else if r + 1 < g.len() {
        ways(g, r + 1, c)
    } else {
        1
    }
}

pub open spec fn saturated(v: nat) -> nat {
    if v > u128::MAX {
        u128::MAX as nat
    } else {
        v
    }
}

fn split_at(grid: &Vec<Vec<u8>>, r: usize, c: usize) -> (b: bool)
    ensures
        b == is_split(grid_view(grid@), r as int, c as int),
{
    r < grid.len() && c < grid[r].len() && grid[r][c] == 94
}

/// Row and column of the first `S`, rows in order.
fn find_start(grid: &Vec<Vec<u8>>) -> (r: Option<(usize, usize)>)
    ensures
        r matches Some(p) ==> start_from(grid_view(grid@), 0) == Some((p.0 as int, p.1 as int))
            && p.0 < grid.len() && p.1 < grid@[p.0 as int].len(),
        r is None ==> start_from(grid_view(grid@), 0) is None,
{
    let ghost g = grid_view(grid@);
    let mut r: usize = 0;
    while r < grid.len()
        invariant
            r <= grid.len(),
            g == grid_view(grid@),
            start_from(g, 0) == start_from(g, r as int),
        decreases grid.len() - r,
    {
        let mut c: usize = 0;
        while c < grid[r].len() && grid[r][c] != 83
            invariant
                r < grid.len(),
                c <= grid@[r as int].len(),
                g == grid_view(grid@),
                forall|d: int| 0 <= d < c ==> g[r as int][d] != 83,
            decreases grid@[r as int].len() - c,
        {
            c += 1;
        }
        if c < grid[r].len() {
            proof {
                let row = g[r as int];
                assert(row[c as int] == 83);
                let c2 = choose|c2: int| 0 <= c2 < row.len() && row[c2] == 83 && forall|d: int| 0 <= d < c2 ==> row[d] != 83;
                if c2 < c {
                    assert(row[c2] != 83);
                }
                if c2 > c {
                    assert(row[c as int] != 83);
                }
            }
            return Some((r, c));
        }
        r += 1;
    }
    None
}

/// The beams of row `r`, given those of the row above, and how many
/// splitters of row `r` they reach.
fn beam_row(
    grid: &Vec<Vec<u8>>,
    s: (usize, usize),
    r: usize,
    prev: &Vec<bool>,
    w: usize,
) -> (res: (Vec<bool>, u128))
    requires
        r < grid.len(),
        prev.len() == w,
        forall|q: int| 0 <= q < grid.len() ==> (#[trigger] grid@[q]).len() <= w,
        width(grid_view(grid@)) <= w,
        r > 0 ==> forall|c: int| 0 <= c < w ==> #[trigger] prev@[c] == beam_at(grid_view(grid@), (s.0 as int, s.1 as int), r - 1, c),
        r == 0 ==> forall|c: int| 0 <= c < w ==> !#[trigger] prev@[c],
    ensures
        res.0.len() == w,
        forall|c: int| 0 <= c < w ==> #[trigger] res.0@[c] == beam_at(grid_view(grid@), (s.0 as int, s.1 as int), r as int, c),
        res.1 == row_splits(grid_view(grid@), (s.0 as int, s.1 as int), r as int, grid@[r as int].len() as int),
{
    let ghost g = grid_view(grid@);
    let ghost sv = (s.0 as int, s.1 as int);
    let cols = grid[0].len();
    // beams falling in from above, or entering here
    let mut entered: Vec<bool> = Vec::new();
    let mut c: usize = 0;
    while c < w
        invariant
            c <= w,
            r < grid.len(),
            prev.len() == w,
            g == grid_view(grid@),
            sv == (s.0 as int, s.1 as int),
            r > 0 ==> forall|k: int| 0 <= k < w ==> #[trigger] prev@[k] == beam_at(g, sv, r - 1, k),
            r == 0 ==> forall|k: int| 0 <= k < w ==> !#[trigger] prev@[k],
            entered.len() == c,
            forall|k: int| 0 <= k < c ==> #[trigger] entered@[k] == reach(g, sv, r as int, k, 3),
        decreases w - c,
    {
        let v = (r == s.0 && c == s.1) || (r > s.0 && r > 0 && prev[c] && !split_at(grid, r - 1, c));
        entered.push(v);
        c += 1;
    }
    // beams sent right along runs of splitters
    let mut from_left: Vec<bool> = Vec::new();
    let mut c: usize = 0;
    while c < w
        invariant
            c <= w,
            r < grid.len(),
            entered.len() == w,
            cols == width(g),
            g == grid_view(grid@),
            forall|k: int| 0 <= k < w ==> #[trigger] entered@[k] == reach(g, sv, r as int, k, 3),
            from_left.len() == c,
            forall|k: int| 0 <= k < c ==> #[trigger] from_left@[k] == reach(g, sv, r as int, k, 1),
        decreases w - c,
    {
        let v = c >= 1 && c < cols && split_at(grid, r, c - 1) && (entered[c - 1] || from_left[c - 1]);
        from_left.push(v);
        c += 1;
    }
    // beams sent left along runs of splitters, filled from the right
    let mut from_right: Vec<bool> = vec![false; w];
    let mut c: usize = w;
    while c > 0
        invariant
            c <= w,
            r < grid.len(),
            entered.len() == w,
            from_right.len() == w,
            g == grid_view(grid@),
            forall|q: int| 0 <= q < grid.len() ==> (#[trigger] grid@[q]).len() <= w,
            forall|k: int| 0 <= k < w ==> #[trigger] entered@[k] == reach(g, sv, r as int, k, 3),
            forall|k: int| c <= k < w ==> #[trigger] from_right@[k] == reach(g, sv, r as int, k, 2),
        decreases c,
    {
        c -= 1;
        let v = c + 1 < w && split_at(grid, r, c + 1) && (entered[c + 1] || from_right[c + 1]);
        proof {
            if c + 1 >= w {
                assert(!is_split(g, r as int, c + 1));
            }
        }
        from_right.set(c, v);
    }
    let mut cur: Vec<bool> = Vec::new();
    let mut count: u128 = 0;
    let row_len = grid[r].len();
    let mut c: usize = 0;
    while c < w
        invariant
            c <= w,
            r < grid.len(),
            entered.len() == w,
            from_left.len() == w,
            from_right.len() == w,
            row_len == grid@[r as int].len(),
            row_len <= w,
            g == grid_view(grid@),
            sv == (s.0 as int, s.1 as int),
            forall|k: int| 0 <= k < w ==> #[trigger] entered@[k] == reach(g, sv, r as int, k, 3),
            forall|k: int| 0 <= k < w ==> #[trigger] from_left@[k] == reach(g, sv, r as int, k, 1),
            forall|k: int| 0 <= k < w ==> #[trigger] from_right@[k] == reach(g, sv, r as int, k, 2),
            cur.len() == c,
            forall|k: int| 0 <= k < c ==> #[trigger] cur@[k] == beam_at(g, sv, r as int, k),
            count == row_splits(g, sv, r as int, if c < row_len { c as int } else { row_len as int }),
            count <= c,
        decreases w - c,
    {
        let v = entered[c] || from_left[c] || from_right[c];
        if c < row_len && split_at(grid, r, c) && v {
            count = count + 1;
        }
        cur.push(v);
        c += 1;
    }
    proof {
        lemma_row_splits_tail(g, sv, r as int, row_len as int, w as int);
    }
    (cur, count)
}

proof fn lemma_row_splits_tail(g: Seq<Seq<u8>>, s: (int, int), r: int, n: int, c: int)
    requires
        0 <= r < g.len(),
        n == g[r].len(),
        n <= c,
    ensures
        row_splits(g, s, r, if c < n { c } else { n }) == row_splits(g, s, r, n),
{
}

/// Splitters that beams reach.
pub fn solve_part1(input: &str) -> (r: u128)
    requires
        start_from(lines_of(input.spec_bytes()), 0) is Some,
    ensures
        ({
            let g = lines_of(input.spec_bytes());
            let st = start_from(g, 0).unwrap();
            r == grid_splits(g, (st.0 + 1, st.1), g.len() as int)
        }),
{
    let grid = read_grid(input);
    let ghost g = grid_view(grid@);
    let (sr, sc) = match find_start(&grid) {
        Some(p) => p,
        None => {
            return 0;
        },
    };
    let s = (sr + 1, sc);
    let ghost sv = (s.0 as int, s.1 as int);
    let w = longest_len(&grid);
    proof {
        lemma_longest_bounds(g, g.len() as int);
        assert forall|q: int| 0 <= q < grid.len() implies (#[trigger] grid@[q]).len() <= w by {
            assert(g[q].len() <= longest(g, g.len() as int));
        }
    }
    let mut prev: Vec<bool> = vec![false; w];
    let mut total: u128 = 0;
    let mut r: usize = 0;
    while r < grid.len()
        invariant
            r <= grid.len(),
            g == grid_view(grid@),
            sv == (s.0 as int, s.1 as int),
            grid.len() > 0,
            prev.len() == w,
            forall|q: int| 0 <= q < grid.len() ==> (#[trigger] grid@[q]).len() <= w,
            width(g) <= w,
            r > 0 ==> forall|c: int| 0 <= c < w ==> #[trigger] prev@[c] == beam_at(g, sv, r - 1, c),
            r == 0 ==> forall|c: int| 0 <= c < w ==> !#[trigger] prev@[c],
            total == grid_splits(g, sv, r as int),
            total <= r * w,
        decreases grid.len() - r,
    {
        let (cur, n) = beam_row(&grid, s, r, &prev, w);
        proof {
            assert(n <= w) by {
                lemma_row_splits_bound(g, sv, r as int, grid@[r as int].len() as int);
            }
            assert(total + n <= (r + 1) * w) by (nonlinear_arith)
                requires
                    total <= r * w,
                    n <= w,
            ;
            assert((r + 1) * w <= u128::MAX) by (nonlinear_arith)
                requires
                    r + 1 <= usize::MAX,
                    w <= usize::MAX,
                    usize::MAX <= u64::MAX,
            ;
        }
        total = total + n;
        prev = cur;
        r += 1;
    }
    total
}

proof fn lemma_row_splits_bound(g: Seq<Seq<u8>>, s: (int, int), r: int, c: int)
    ensures
        row_splits(g, s, r, c) <= if c < 0 { 0 } else { c },
    decreases c,
{
    if c > 0 {
        lemma_row_splits_bound(g, s, r, c - 1);
    }
}

fn add_saturating(a: u128, b: u128) -> (r: u128)
    ensures
        r == saturated((a + b) as nat),
{
    if a > u128::MAX - b {
        u128::MAX
    } else {
        a + b
    }
}

/// The saturated ways from each cell of row `r`, given those of the row
/// below.
fn ways_row(grid: &Vec<Vec<u8>>, r: usize, below: &Vec<u128>, w: usize) -> (cur: Vec<u128>)
    requires
        r < grid.len(),
        below.len() == w,
        forall|q: int| 0 <= q < grid.len() ==> (#[trigger] grid@[q]).len() <= w,
        width(grid_view(grid@)) <= w,
        splitters_apart(grid_view(grid@)),
        r + 1 < grid.len() ==> forall|c: int| 0 <= c < w ==> #[trigger] below@[c] == saturated(ways(grid_view(grid@), r + 1, c)),
    ensures
        cur.len() == w,
        forall|c: int| 0 <= c < w ==> #[trigger] cur@[c] == saturated(ways(grid_view(grid@), r as int, c)),
{
    let ghost g = grid_view(grid@);
    let cols = grid[0].len();
    let mut first: Vec<u128> = Vec::new();
    let mut c: usize = 0;
    while c < w
        invariant
            c <= w,
            r < grid.len(),
            below.len() == w,
            g == grid_view(grid@),
            r + 1 < grid.len() ==> forall|k: int| 0 <= k < w ==> #[trigger] below@[k] == saturated(ways(g, r + 1, k)),
            first.len() == c,
            forall|k: int| 0 <= k < c && !is_split(g, r as int, k) ==> #[trigger] first@[k] == saturated(ways(g, r as int, k)),
        decreases w - c,
    {
        let v: u128 = if split_at(grid, r, c) {
            0
        } else if r + 1 < grid.len() {
            below[c]
        } else {
            1
        };
        first.push(v);
        c += 1;
    }
    let mut cur: Vec<u128> = Vec::new();
    let mut c: usize = 0;
    while c < w
        invariant
            c <= w,
            r < grid.len(),
            first.len() == w,
            cols == width(g),
            cols <= w,
            g == grid_view(grid@),
            splitters_apart(g),
            forall|k: int| 0 <= k < w && !is_split(g, r as int, k) ==> #[trigger] first@[k] == saturated(ways(g, r as int, k)),
            cur.len() == c,
            forall|k: int| 0 <= k < c ==> #[trigger] cur@[k] == saturated(ways(g, r as int, k)),
        decreases w - c,
    {
        let v = if split_at(grid, r, c) {
            proof {
                assert(is_split(g, r as int, c as int));
                assert(!is_split(g, r as int, c + 1));
                if c > 0 {
                    if is_split(g, r as int, c - 1) {
                        assert(!is_split(g, r as int, (c - 1) + 1));
                    }
                }
            }
            let left: u128 = if c > 0 {
                if split_at(grid, r, c - 1) {
                    0
                } else {
                    first[c - 1]
                }
            } else {
                1
            };
            let right: u128 = if c + 1 < cols {
                if split_at(grid, r, c + 1) {
                    0
                } else {
                    first[c + 1]
                }
            } else {
                1
            };
            add_saturating(left, right)
        } else {
            first[c]
        };
        proof {
            assert(v == saturated(ways(g, r as int, c as int)));
        }
        cur.push(v);
        c += 1;
    }
    cur
}

/// Timelines of one particle entering below `S`, when no two splitters
/// stand side by side; `u128::MAX` when there are more.
pub fn solve_part2(input: &str) -> (r: u128)
    requires
        start_from(lines_of(input.spec_bytes()), 0) is Some,
        splitters_apart(lines_of(input.spec_bytes())),
    ensures
        ({
            let g = lines_of(input.spec_bytes());
            let st = start_from(g, 0).unwrap();
            r == if width(g) == 0 || st.0 + 1 >= g.len() {
                0
            } else {
                saturated(ways(g, st.0 + 1, st.1))
            }
        }),
{
    let grid = read_grid(input);
    let ghost g = grid_view(grid@);
    if grid.len() == 0 || grid[0].len() == 0 {
        return 0;
    }
    let (sr, sc) = match find_start(&grid) {
        Some(p) => p,
        None => {
            return 0;
        },
    };
    if sr + 1 >= grid.len() {
        return 0;
    }
    let w = longest_len(&grid);
    proof {
        lemma_longest_bounds(g, g.len() as int);
        assert forall|q: int| 0 <= q < grid.len() implies (#[trigger] grid@[q]).len() <= w by {
            assert(g[q].len() <= longest(g, g.len() as int));
        }
    }
    let mut below: Vec<u128> = vec![0u128; w];
    let mut r: usize = grid.len();
    while r > sr + 1
        invariant
            sr + 1 <= r <= grid.len(),
            sr + 1 < grid.len(),
            g == grid_view(grid@),
            below.len() == w,
            forall|q: int| 0 <= q < grid.len() ==> (#[trigger] grid@[q]).len() <= w,
            width(g) <= w,
            splitters_apart(g),
            r < grid.len() ==> forall|c: int| 0 <= c < w ==> #[trigger] below@[c] == saturated(ways(g, r as int, c)),
        decreases r,
    {
        r -= 1;
        below = ways_row(&grid, r, &below, w);
    }
    proof {
        assert(sc < w);
    }
    below[sc]
}

pub open spec fn longest(g: Seq<Seq<u8>>, n: int) -> int
    decreases n,
{
    if n <= 0 {
        0
    } else {
        max_of(longest(g, n - 1), g[n - 1].len() as int)
    }
}

pub open spec fn max_of(a: int, b: int) -> int {
    if a >= b {
        a
    } else {
        b
    }
}

proof fn lemma_longest_bounds(g: Seq<Seq<u8>>, n: int)
    requires
        0 <= n <= g.len(),
    ensures
        forall|q: int| 0 <= q < n ==> (#[trigger] g[q]).len() <= longest(g, n),
        n > 0 ==> exists|q: int| 0 <= q < n && (#[trigger] g[q]).len() == longest(g, n),
        n == 0 ==> longest(g, n) == 0,
    decreases n,
{
    if n > 0 {
        lemma_longest_bounds(g, n - 1);
        if longest(g, n - 1) < g[n - 1].len() {
        } else if n > 1 {
            let q = choose|q: int| 0 <= q < n - 1 && (#[trigger] g[q]).len() == longest(g, n - 1);
            assert(g[q].len() == longest(g, n));
        } else {
            assert(g[0].len() >= 0);
        }
    }
}

/// Length of the longest row, as `longest` states it.
fn longest_len(grid: &Vec<Vec<u8>>) -> (w: usize)
    ensures
        w == longest(grid_view(grid@), grid.len() as int),
{
    let ghost g = grid_view(grid@);
    let mut w: usize = 0;
    let mut r: usize = 0;
    while r < grid.len()
        invariant
            r <= grid.len(),
            g == grid_view(grid@),
            w == longest(g, r as int),
        decreases grid.len() - r,
    {
        if grid[r].len() > w {
            w = grid[r].len();
        }
        r += 1;
    }
    w
}

/// Splitters that beams reach: the count the puzzle asks for, the same as
/// part one.
pub fn solve(input: &str) -> (r: u128)
    requires
        start_from(lines_of(input.spec_bytes()), 0) is Some,
    ensures
        ({
            let g = lines_of(input.spec_bytes());
            let st = start_from(g, 0).unwrap();
            r == grid_splits(g, (st.0 + 1, st.1), g.len() as int)
        }),
{
    solve_part1(input)
}

} // verus!
