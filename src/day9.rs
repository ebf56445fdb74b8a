//! Red tiles on a floor, given as `x,y` lines: the largest rectangle with
//! red tiles at two opposite corners, and a picture of the floor.

use vstd::prelude::*;
use vstd::string::{StringSliceAdditionalSpecFns, StringExecFns};
use crate::text::{lines_of, trim, signed_value, find_from, line_spans, trim_span, parse_signed, find_byte, copy_span};

verus! {

/// A tile position.
#[derive(Clone, Copy, Debug, PartialEq, Eq, Structural, Hash)]
pub struct Point {
    pub x: i64,
    pub y: i64,
}

/// A signed decimal, white space around it allowed.
pub open spec fn signed_of(s: Seq<u8>) -> Option<int> {
    signed_value(trim(s))
}

pub open spec fn fits_i64(v: int) -> bool {
    i64::MIN <= v <= i64::MAX
}

/// A point line: two signed numbers around the first comma.
pub open spec fn point_of(line: Seq<u8>) -> Option<(int, int)> {
    let k = find_from(line, 44, 0);
    if k >= line.len() {
        None
    } else {
        match (signed_of(line.subrange(0, k)), signed_of(line.subrange(k + 1, line.len() as int))) {
            (Some(x), Some(y)) => if fits_i64(x) && fits_i64(y) {
                Some((x, y))
            } else {
                None
            },
            _ => None,
        }
    }
}

/// The points of the non-blank lines; `None` when a line is no point.
pub open spec fn points_in(lines: Seq<Seq<u8>>) -> Option<Seq<(int, int)>>
    decreases lines.len(),
{
    if lines.len() == 0 {
        Some(seq![])
    } else {
        match points_in(lines.drop_last()) {
            None => None,
            Some(ps) => if trim(lines.last()).len() == 0 {
                Some(ps)
            } else {
                match point_of(lines.last()) {
                    Some(p) => Some(ps.push(p)),
                    None => None,
                }
            },
        }
    }
}

pub open spec fn point_view(p: Point) -> (int, int) {
    (p.x as int, p.y as int)
}

pub open spec fn points_view(ps: Seq<Point>) -> Seq<(int, int)> {
    ps.map_values(|p: Point| point_view(p))
}

/// `s` without repeats, each kept where it first appears.
pub open spec fn distinct(s: Seq<(int, int)>) -> Seq<(int, int)>
    decreases s.len(),
{
    if s.len() == 0 {
        seq![]
    } else if distinct(s.drop_last()).contains(s.last()) {
        distinct(s.drop_last())
    } else {
        distinct(s.drop_last()).push(s.last())
    }
}

fn signed_from(s: &[u8], lo: usize, hi: usize) -> (r: Option<i64>)
    requires
        lo <= hi <= s@.len(),
    ensures
        r matches Some(v) ==> signed_of(s@.subrange(lo as int, hi as int)) == Some(v as int),
        r is None ==> signed_of(s@.subrange(lo as int, hi as int)) matches None || !fits_i64(
            signed_of(s@.subrange(lo as int, hi as int)).unwrap(),
        ),
{
    let (a, b) = trim_span(s, lo, hi);
    parse_signed(s, a, b)
}

fn point_from(line: &[u8]) -> (r: Option<Point>)
    ensures
        r matches Some(p) ==> point_of(line@) == Some(point_view(p)),
        r is None ==> point_of(line@) is None,
{
    let k = find_byte(line, 44, 0);
    if k >= line.len() {
        return None;
    }
    let x = signed_from(line, 0, k);
    let y = signed_from(line, k + 1, line.len());
    match (x, y) {
        (Some(x), Some(y)) => Some(Point { x, y }),
        _ => None,
    }
}

proof fn lemma_points_bad_stays(lines: Seq<Seq<u8>>, k: int)
    requires
        0 <= k <= lines.len(),
        points_in(lines.subrange(0, k)) is None,
    ensures
        points_in(lines) is None,
    decreases lines.len(),
{
    if k == lines.len() {
        assert(lines.subrange(0, k) =~= lines);
    } else {
        assert(lines.drop_last().subrange(0, k) =~= lines.subrange(0, k));
        lemma_points_bad_stays(lines.drop_last(), k);
    }
}

/// The points of the non-blank lines of `input`, in order; `None` when a
/// line is not two integers around a comma.
pub fn parse_points_vec(input: &str) -> (r: Option<Vec<Point>>)
    ensures
        r matches Some(v) ==> points_in(lines_of(input.spec_bytes())) == Some(points_view(v@)),
        r is None ==> points_in(lines_of(input.spec_bytes())) is None,
{
    let s = input.as_bytes();
    let spans = line_spans(s);
    let ghost lines = lines_of(s@);
    let mut out: Vec<Point> = Vec::new();
    let mut i: usize = 0;
    proof {
        assert(lines.subrange(0, 0) =~= Seq::<Seq<u8>>::empty());
        assert(points_view(out@) =~= Seq::<(int, int)>::empty());
    }
    while i < spans.len()
        invariant
            i <= spans.len(),
            spans.len() == lines.len(),
            lines == lines_of(s@),
            s@ == input.spec_bytes(),
            forall|q: int|
                0 <= q < spans.len() ==> (#[trigger] spans@[q]).0 <= spans@[q].1 <= s@.len()
                    && s@.subrange(spans@[q].0 as int, spans@[q].1 as int) == lines_of(s@)[q],
            points_in(lines.subrange(0, i as int)) == Some(points_view(out@)),
        decreases spans.len() - i,
    {
        let (a, b) = spans[i];
        let ghost line = lines[i as int];
        assert(lines.subrange(0, i + 1).drop_last() =~= lines.subrange(0, i as int));
        assert(lines.subrange(0, i + 1).last() == line);
        let (ta, tb) = trim_span(s, a, b);
        if ta < tb {
            let bytes = copy_span(s, a, b);
            match point_from(bytes.as_slice()) {
                Some(p) => {
                    let ghost o0 = out@;
                    out.push(p);
                    assert(points_view(out@) =~= points_view(o0).push(point_view(p)));
                },
                None => {
                    proof {
                        lemma_points_bad_stays(lines, i + 1);
                    }
                    return None;
                },
            }
        }
        i += 1;
    }
    assert(lines.subrange(0, i as int) =~= lines);
    Some(out)
}

fn holds_point(v: &Vec<Point>, p: Point) -> (r: bool)
    ensures
        r == points_view(v@).contains(point_view(p)),
{
    let mut j: usize = 0;
    while j < v.len()
        invariant
            j <= v.len(),
            forall|q: int| 0 <= q < j ==> (#[trigger] points_view(v@)[q]) != point_view(p),
        decreases v.len() - j,
    {
        if v[j].x == p.x && v[j].y == p.y {
            assert(points_view(v@)[j as int] == point_view(p));
            return true;
        }
        j += 1;
    }
    false
}

/// The points of `input` without repeats, each where it first appears;
/// `None` when a line is no point.
pub fn parse_points_set(input: &str) -> (r: Option<Vec<Point>>)
    ensures
        r matches Some(v) ==> points_in(lines_of(input.spec_bytes())) matches Some(ps) && points_view(v@)
            == distinct(ps),
        r is None ==> points_in(lines_of(input.spec_bytes())) is None,
{
    let all = match parse_points_vec(input) {
        Some(v) => v,
        None => {
            return None;
        },
    };
    let ghost ps = points_view(all@);
    let mut out: Vec<Point> = Vec::new();
    let mut i: usize = 0;
    proof {
        assert(ps.subrange(0, 0) =~= Seq::<(int, int)>::empty());
        assert(points_view(out@) =~= Seq::<(int, int)>::empty());
    }
    while i < all.len()
        invariant
            i <= all.len(),
            ps == points_view(all@),
            points_view(out@) == distinct(ps.subrange(0, i as int)),
        decreases all.len() - i,
    {
        let p = all[i];
        assert(ps.subrange(0, i + 1).drop_last() =~= ps.subrange(0, i as int));
        assert(ps.subrange(0, i + 1).last() == point_view(p));
        if !holds_point(&out, p) {
            let ghost o0 = out@;
            out.push(p);
            assert(points_view(out@) =~= points_view(o0).push(point_view(p)));
        }
        i += 1;
    }
    assert(ps.subrange(0, i as int) =~= ps);
    Some(out)
}

pub open spec fn abs(v: int) -> int {
    if v < 0 {
        -v
    } else {
        v
    }
}

/// Tiles of the rectangle with corners `p` and `q`, edges included.
pub open spec fn area(p: (int, int), q: (int, int)) -> int {
    (abs(p.0 - q.0) + 1) * (abs(p.1 - q.1) + 1)
}

/// Largest area of `ps[i]` with one of `ps[0..n]`; 0 when `n` is 0.
pub open spec fn best_with(ps: Seq<(int, int)>, i: int, n: int) -> int
    decreases n,
{
    if n <= 0 {
        0
    } else {
        let a = area(ps[n - 1], ps[i]);
        let b = best_with(ps, i, n - 1);
        if a > b {
            a
        } else {
            b
        }
    }
}

/// Largest area over the pairs among `ps[0..n]`; 0 without a pair.
pub open spec fn best_area(ps: Seq<(int, int)>, n: int) -> int
    decreases n,
{
    if n <= 0 {
        0
    } else {
        let a = best_with(ps, n - 1, n - 1);
        let b = best_area(ps, n - 1);
        if a > b {
            a
        } else {
            b
        }
    }
}

pub open spec fn clamp128(v: int) -> int {
    if v > u128::MAX {
        u128::MAX as int
    } else {
        v
    }
}

/// Tiles of the rectangle with corners `p` and `q`, or `u128::MAX` when
/// there are more.
fn rect_area(p: Point, q: Point) -> (r: u128)
    ensures
        r == clamp128(area(point_view(p), point_view(q))),
{
    let dx: i128 = if p.x >= q.x {
        p.x as i128 - q.x as i128
    } else {
        q.x as i128 - p.x as i128
    };
    let dy: i128 = if p.y >= q.y {
        p.y as i128 - q.y as i128
    } else {
        q.y as i128 - p.y as i128
    };
    let w = (dx + 1) as u128;
    let h = (dy + 1) as u128;
    match w.checked_mul(h) {
        Some(a) => a,
        None => u128::MAX,
    }
}

/// Largest rectangle with red tiles at two opposite corners, counted in
/// tiles with its edges; `u128::MAX` when larger.
pub fn solve_part1(input: &str) -> (r: u128)
    requires
        points_in(lines_of(input.spec_bytes())) is Some,
    ensures
        ({
            let ps = distinct(points_in(lines_of(input.spec_bytes())).unwrap());
            r == clamp128(best_area(ps, ps.len() as int))
        }),
{
    let points = match parse_points_set(input) {
        Some(v) => v,
        None => {
            return 0;
        },
    };
    let ghost ps = points_view(points@);
    let mut best: u128 = 0;
    let mut i: usize = 0;
    while i < points.len()
        invariant
            i <= points.len(),
            ps == points_view(points@),
            best == clamp128(best_area(ps, i as int)),
        decreases points.len() - i,
    {
        let mut row_best: u128 = 0;
        let mut j: usize = 0;
        while j < i
            invariant
                j <= i,
                i < points.len(),
                ps == points_view(points@),
                row_best == clamp128(best_with(ps, i as int, j as int)),
            decreases i - j,
        {
            let a = rect_area(points[j], points[i]);
            if a > row_best {
                row_best = a;
            }
            j += 1;
        }
        if row_best > best {
            best = row_best;
        }
        i += 1;
    }
    best
}

pub open spec fn min_i(a: int, b: int) -> int {
    if a <= b {
        a
    } else {
        b
    }
}

pub open spec fn max_i(a: int, b: int) -> int {
    if a >= b {
        a
    } else {
        b
    }
}

pub type Rect = Option<((int, int), (int, int))>;

pub open spec fn rect_view(rect: Option<(Point, Point)>) -> Rect {
    match rect {
        Some((p, q)) => Some((point_view(p), point_view(q))),
        None => None,
    }
}

/// What the picture shows at `(x, y)`: `O` inside the rectangle (edges
/// included), else `#` on a red tile, else `.`.
pub open spec fn floor_cell(points: Seq<(int, int)>, rect: Rect, x: int, y: int) -> char {
    let in_rect = match rect {
        Some((p, q)) => min_i(p.0, q.0) <= x <= max_i(p.0, q.0) && min_i(p.1, q.1) <= y <= max_i(p.1, q.1),
        None => false,
    };
    if in_rect {
        'O'
    } else if points.contains((x, y)) {
        '#'
    } else {
        '.'
    }
}

/// Row `y` of the picture over columns `x0..=x1`, with its line feed.
pub open spec fn floor_row(points: Seq<(int, int)>, rect: Rect, x0: int, x1: int, y: int) -> Seq<char> {
    Seq::new((x1 - x0 + 1) as nat, |i: int| floor_cell(points, rect, x0 + i, y)).push('\n')
}

/// Rows `y0..y_end` of the picture.
pub open spec fn floor_rows(points: Seq<(int, int)>, rect: Rect, x0: int, x1: int, y0: int, y_end: int) -> Seq<char>
    decreases y_end - y0,
{
    if y_end <= y0 {
        seq![]
    } else {
        floor_rows(points, rect, x0, x1, y0, y_end - 1) + floor_row(points, rect, x0, x1, y_end - 1)
    }
}

/// Least (`least`) or greatest coordinate (`x` or `y` by `along_x`) of the
/// first `n` points.
pub open spec fn extreme(points: Seq<(int, int)>, n: int, along_x: bool, least: bool) -> int
    decreases n,
{
    let v = if along_x {
        points[n - 1].0
    } else {
        points[n - 1].1
    };
    if n <= 1 {
        v
    } else {
        let e = extreme(points, n - 1, along_x, least);
        if least {
            min_i(v, e)
        } else {
            max_i(v, e)
        }
    }
}

/// The picture's columns and rows: fixed at `0..=13` by `0..=8`, or the
/// span of the points.
pub open spec fn floor_bounds(points: Seq<(int, int)>, fixed: bool) -> (int, int, int, int) {
    if fixed {
        (0, 13, 0, 8)
    } else {
        let n = points.len() as int;
        (extreme(points, n, true, true), extreme(points, n, true, false), extreme(points, n, false, true), extreme(points, n, false, false))
    }
}

proof fn lemma_extremes_ordered(points: Seq<(int, int)>, n: int, along_x: bool)
    requires
        n >= 1,
    ensures
        extreme(points, n, along_x, true) <= extreme(points, n, along_x, false),
    decreases n,
{
    if n > 1 {
        lemma_extremes_ordered(points, n - 1, along_x);
    }
}

fn extreme_of(points: &Vec<Point>, along_x: bool, least: bool) -> (r: i64)
    requires
        points.len() > 0,
    ensures
        r == extreme(points_view(points@), points.len() as int, along_x, least),
{
    let ghost ps = points_view(points@);
    let mut r = if along_x {
        points[0].x
    } else {
        points[0].y
    };
    let mut i: usize = 1;
    while i < points.len()
        invariant
            1 <= i <= points.len(),
            ps == points_view(points@),
            r == extreme(ps, i as int, along_x, least),
        decreases points.len() - i,
    {
        let v = if along_x {
            points[i].x
        } else {
            points[i].y
        };
        if least {
            if v < r {
                r = v;
            }
        } else {
            if v > r {
                r = v;
            }
        }
        i += 1;
    }
    r
}

fn cell_text(points: &Vec<Point>, rect: Option<(Point, Point)>, x: i64, y: i64) -> (r: &'static str)
    ensures
        r@ == seq![floor_cell(points_view(points@), rect_view(rect), x as int, y as int)],
{
    let in_rect = match rect {
        Some((p, q)) => {
            let lx = if p.x <= q.x { p.x } else { q.x };
            let hx = if p.x >= q.x { p.x } else { q.x };
            let ly = if p.y <= q.y { p.y } else { q.y };
            let hy = if p.y >= q.y { p.y } else { q.y };
            lx <= x && x <= hx && ly <= y && y <= hy
        },
        None => false,
    };
    if in_rect {
        proof {
            reveal_strlit("O");
        }
        "O"
    } else if holds_point(points, Point { x, y }) {
        proof {
            reveal_strlit("#");
        }
        "#"
    } else {
        proof {
            reveal_strlit(".");
        }
        "."
    }
}

/// A picture of the floor: one line per row, top row first, with `O` for
/// the rectangle, `#` for red tiles and `.` elsewhere. Empty without points.
pub fn visualize_floor(points: &Vec<Point>, rect: Option<(Point, Point)>, fixed_bounds: bool) -> (r: String)
    ensures
        points.len() == 0 ==> r@ == Seq::<char>::empty(),
        points.len() > 0 ==> ({
            let b = floor_bounds(points_view(points@), fixed_bounds);
            r@ == floor_rows(points_view(points@), rect_view(rect), b.0, b.1, b.2, b.3 + 1)
        }),
{
    let mut out = String::new();
    if points.len() == 0 {
        return out;
    }
    let ghost ps = points_view(points@);
    let ghost rv = rect_view(rect);
    let (x0, x1, y0, y1) = if fixed_bounds {
        (0i64, 13i64, 0i64, 8i64)
    } else {
        (
            extreme_of(points, true, true),
            extreme_of(points, true, false),
            extreme_of(points, false, true),
            extreme_of(points, false, false),
        )
    };
    proof {
        lemma_extremes_ordered(ps, ps.len() as int, true);
        lemma_extremes_ordered(ps, ps.len() as int, false);
    }
    let mut y: i128 = y0 as i128;
    while y <= y1 as i128
        invariant
            x0 <= x1,
            y0 as int <= y <= y1 as int + 1,
            ps == points_view(points@),
            rv == rect_view(rect),
            out@ == floor_rows(ps, rv, x0 as int, x1 as int, y0 as int, y as int),
        decreases y1 as int + 1 - y,
    {
        let mut x: i128 = x0 as i128;
        let ghost before = out@;
        while x <= x1 as i128
            invariant
                x0 <= x1,
                x0 as int <= x <= x1 as int + 1,
                y0 as int <= y <= y1 as int,
                ps == points_view(points@),
                rv == rect_view(rect),
                out@ == before + Seq::new((x - x0) as nat, |i: int| floor_cell(ps, rv, x0 + i, y as int)),
            decreases x1 as int + 1 - x,
        {
            let t = cell_text(points, rect, x as i64, y as i64);
            let ghost o0 = out@;
            out.append(t);
            proof {
                assert(Seq::new((x + 1 - x0) as nat, |i: int| floor_cell(ps, rv, x0 + i, y as int))
                    =~= Seq::new((x - x0) as nat, |i: int| floor_cell(ps, rv, x0 + i, y as int)).push(
                    floor_cell(ps, rv, x as int, y as int),
                ));
                assert(out@ =~= before + Seq::new((x + 1 - x0) as nat, |i: int| floor_cell(ps, rv, x0 + i, y as int)));
            }
            x += 1;
        }
        let ghost o1 = out@;
        proof {
            reveal_strlit("\n");
        }
        out.append("\n");
        proof {
            let cells = Seq::new((x - x0) as nat, |i: int| floor_cell(ps, rv, x0 + i, y as int));
            assert(x == x1 + 1);
            assert(cells.push('\n') =~= floor_row(ps, rv, x0 as int, x1 as int, y as int));
            assert(out@ =~= before + cells.push('\n'));
            assert(floor_rows(ps, rv, x0 as int, x1 as int, y0 as int, y + 1) == before + floor_row(ps, rv, x0 as int, x1 as int, y as int));
            assert(out@ =~= floor_rows(ps, rv, x0 as int, x1 as int, y0 as int, y + 1));
        }
        y += 1;
    }
    out
}

pub open spec fn is_between(v: int, a: int, b: int) -> bool {
    (v >= a && v <= b) || (v >= b && v <= a)
}

/// `p` lies on the axis-aligned segment from `a` to `b`.
pub open spec fn on_segment(p: (int, int), a: (int, int), b: (int, int)) -> bool {
    if a.0 == b.0 {
        p.0 == a.0 && is_between(p.1, a.1, b.1)
    } else if a.1 == b.1 {
        p.1 == a.1 && is_between(p.0, a.0, b.0)
    } else {
        false
    }
}

/// Vertex after `i` around the closed polygon.
pub open spec fn next_of(poly: Seq<(int, int)>, i: int) -> (int, int) {
    poly[(i + 1) % (poly.len() as int)]
}

pub open spec fn on_boundary(pt: (int, int), poly: Seq<(int, int)>) -> bool {
    exists|i: int| 0 <= i < poly.len() && #[trigger] on_segment(pt, poly[i], next_of(poly, i))
}

/// The ray from `pt` towards positive x crosses the edge from `pj` to `pi`:
/// the edge spans the row of `pt`, and meets that row strictly right of
/// `pt` (compared exactly, without dividing).
pub open spec fn ray_crosses(pt: (int, int), pi: (int, int), pj: (int, int)) -> bool {
    let d = pj.1 - pi.1;
    let num = (pj.0 - pi.0) * (pt.1 - pi.1);
    let lhs = (pt.0 - pi.0) * d;
    ((pi.1 > pt.1) != (pj.1 > pt.1)) && if d > 0 {
        lhs < num
    } else {
        lhs > num
    }
}

/// Parity of the crossings of the edges ending at vertices `0..n`.
pub open spec fn odd_crossings(pt: (int, int), poly: Seq<(int, int)>, n: int) -> bool
    decreases n,
{
    if n <= 0 {
        false
    } else {
        let j = if n - 1 == 0 {
            poly.len() - 1
        } else {
            n - 2
        };
        odd_crossings(pt, poly, n - 1) != ray_crosses(pt, poly[n - 1], poly[j])
    }
}

/// Even-odd containment with the boundary counted inside; a polygon needs
/// three vertices.
pub open spec fn in_polygon(pt: (int, int), poly: Seq<(int, int)>) -> bool {
    poly.len() >= 3 && (on_boundary(pt, poly) || odd_crossings(pt, poly, poly.len() as int))
}

/// Coordinates small enough for the products of the ray test.
pub open spec fn moderate(poly: Seq<(int, int)>) -> bool {
    forall|i: int|
        0 <= i < poly.len() ==> -0x4000_0000_0000_0000 <= (#[trigger] poly[i]).0 <= 0x4000_0000_0000_0000
            && -0x4000_0000_0000_0000 <= poly[i].1 <= 0x4000_0000_0000_0000
}

fn between(v: i64, a: i64, b: i64) -> (r: bool)
    ensures
        r == is_between(v as int, a as int, b as int),
{
    (v >= a && v <= b) || (v >= b && v <= a)
}

fn on_segment_inclusive(p: Point, a: Point, b: Point) -> (r: bool)
    ensures
        r == on_segment(point_view(p), point_view(a), point_view(b)),
{
    if a.x == b.x {
        p.x == a.x && between(p.y, a.y, b.y)
    } else if a.y == b.y {
        p.y == a.y && between(p.x, a.x, b.x)
    } else {
        false
    }
}

proof fn lemma_product_bound(a: int, b: int)
    requires
        -0x8000_0000_0000_0000 <= a <= 0x8000_0000_0000_0000,
        -0x8000_0000_0000_0000 <= b <= 0x8000_0000_0000_0000,
    ensures
        -0x4000_0000_0000_0000_0000_0000_0000_0000 <= a * b <= 0x4000_0000_0000_0000_0000_0000_0000_0000,
{
    let m: int = 0x8000_0000_0000_0000;
    let ua = if a < 0 { -a } else { a };
    let ub = if b < 0 { -b } else { b };
    assert(ua * ub <= m * m) by (nonlinear_arith)
        requires
            0 <= ua <= m,
            0 <= ub <= m,
    ;
    assert(a * b == ua * ub || a * b == -(ua * ub)) by (nonlinear_arith)
        requires
            ua == if a < 0 { -a } else { a },
            ub == if b < 0 { -b } else { b },
    ;
    assert(m * m == 0x4000_0000_0000_0000_0000_0000_0000_0000);
}

fn ray_crosses_edge(pt: Point, pi: Point, pj: Point) -> (r: bool)
    requires
        moderate(seq![point_view(pt), point_view(pi), point_view(pj)]),
    ensures
        r == ray_crosses(point_view(pt), point_view(pi), point_view(pj)),
{
    let ghost m = seq![point_view(pt), point_view(pi), point_view(pj)];
    proof {
        assert(m[0] == point_view(pt));
        assert(m[1] == point_view(pi));
        assert(m[2] == point_view(pj));
    }
    if (pi.y > pt.y) == (pj.y > pt.y) {
        return false;
    }
    let dx = pj.x as i128 - pi.x as i128;
    let dy = pt.y as i128 - pi.y as i128;
    let d = pj.y as i128 - pi.y as i128;
    let ex = pt.x as i128 - pi.x as i128;
    proof {
        lemma_product_bound(dx as int, dy as int);
        lemma_product_bound(ex as int, d as int);
    }
    let num = dx * dy;
    let lhs = ex * d;
    if d > 0 {
        lhs < num
    } else {
        lhs > num
    }
}

/// Whether `pt` lies in the polygon with vertices `poly` in order, its
/// boundary included (even-odd rule).
pub fn point_in_polygon(pt: Point, poly: &Vec<Point>) -> (r: bool)
    requires
        moderate(points_view(poly@).push(point_view(pt))),
    ensures
        r == in_polygon(point_view(pt), points_view(poly@)),
{
    let ghost pv = points_view(poly@);
    let n = poly.len();
    if n < 3 {
        return false;
    }
    let mut i: usize = 0;
    while i < n
        invariant
            i <= n,
            n == poly.len(),
            n >= 3,
            pv == points_view(poly@),
            forall|k: int| 0 <= k < i ==> !#[trigger] on_segment(point_view(pt), pv[k], next_of(pv, k)),
        decreases n - i,
    {
        let a = poly[i];
        let b = poly[(i + 1) % n];
        if on_segment_inclusive(pt, a, b) {
            proof {
                assert(on_segment(point_view(pt), pv[i as int], next_of(pv, i as int)));
                assert(on_boundary(point_view(pt), pv));
            }
            return true;
        }
        i += 1;
    }
    let mut inside = false;
    let mut i: usize = 0;
    let mut j: usize = n - 1;
    while i < n
        invariant
            i <= n,
            n == poly.len(),
            n >= 3,
            pv == points_view(poly@),
            moderate(pv.push(point_view(pt))),
            j == if i == 0 {
                n - 1
            } else {
                i - 1
            },
            inside == odd_crossings(point_view(pt), pv, i as int),
        decreases n - i,
    {
        let pi = poly[i];
        let pj = poly[j];
        proof {
            let m = pv.push(point_view(pt));
            let s3 = seq![point_view(pt), point_view(pi), point_view(pj)];
            assert(m[n as int] == point_view(pt));
            assert(m[i as int] == point_view(pi));
            assert(m[j as int] == point_view(pj));
            assert forall|k: int| 0 <= k < 3 implies -0x4000_0000_0000_0000 <= (#[trigger] s3[k]).0 <= 0x4000_0000_0000_0000
                && -0x4000_0000_0000_0000 <= s3[k].1 <= 0x4000_0000_0000_0000 by {
                if k == 0 {
                    assert(s3[k] == m[n as int]);
                } else if k == 1 {
                    assert(s3[k] == m[i as int]);
                } else {
                    assert(s3[k] == m[j as int]);
                }
            }
        }
        if ray_crosses_edge(pt, pi, pj) {
            inside = !inside;
        }
        j = i;
        i += 1;
    }
    proof {
        if on_boundary(point_view(pt), pv) {
            let k = choose|k: int| 0 <= k < pv.len() && #[trigger] on_segment(point_view(pt), pv[k], next_of(pv, k));
        }
    }
    inside
}

/// The open intervals `(a1, a2)` and `(b1, b2)` overlap.
pub open spec fn open_overlap(a1: int, a2: int, b1: int, b2: int) -> bool {
    min_i(a2, b2) > max_i(a1, b1)
}

/// The axis-aligned edge from `a` to `b` passes through the open inside of
/// the rectangle `x1..x2` by `y1..y2`.
pub open spec fn edge_cuts(x1: int, x2: int, y1: int, y2: int, a: (int, int), b: (int, int)) -> bool {
    if a.0 == b.0 {
        x1 < a.0 < x2 && open_overlap(min_i(a.1, b.1), max_i(a.1, b.1), y1, y2)
    } else if a.1 == b.1 {
        y1 < a.1 < y2 && open_overlap(min_i(a.0, b.0), max_i(a.0, b.0), x1, x2)
    } else {
        false
    }
}

pub open spec fn cuts_interior(x1: int, x2: int, y1: int, y2: int, poly: Seq<(int, int)>) -> bool {
    exists|i: int| 0 <= i < poly.len() && #[trigger] edge_cuts(x1, x2, y1, y2, poly[i], next_of(poly, i))
}

/// The rectangle with red corners `p` and `q` is not flat, its two other
/// corners lie in the polygon, and no edge of the polygon cuts through it.
pub open spec fn fits_inside(p: (int, int), q: (int, int), poly: Seq<(int, int)>) -> bool {
    let x1 = min_i(p.0, q.0);
    let x2 = max_i(p.0, q.0);
    let y1 = min_i(p.1, q.1);
    let y2 = max_i(p.1, q.1);
    p.0 != q.0 && p.1 != q.1 && in_polygon((x1, y2), poly) && in_polygon((x2, y1), poly) && !cuts_interior(
        x1,
        x2,
        y1,
        y2,
        poly,
    )
}

pub open spec fn inside_area(p: (int, int), q: (int, int), poly: Seq<(int, int)>) -> int {
    if fits_inside(p, q, poly) {
        area(p, q)
    } else {
        0
    }
}

pub open spec fn best_inside_with(ps: Seq<(int, int)>, i: int, n: int) -> int
    decreases n,
{
    if n <= 0 {
        0
    } else {
        let a = inside_area(ps[n - 1], ps[i], ps);
        let b = best_inside_with(ps, i, n - 1);
        if a > b {
            a
        } else {
            b
        }
    }
}

/// Largest fitting rectangle over the pairs among `ps[0..n]`; 0 without one.
pub open spec fn best_inside(ps: Seq<(int, int)>, n: int) -> int
    decreases n,
{
    if n <= 0 {
        0
    } else {
        let a = best_inside_with(ps, n - 1, n - 1);
        let b = best_inside(ps, n - 1);
        if a > b {
            a
        } else {
            b
        }
    }
}

fn intervals_overlap_open(a1: i64, a2: i64, b1: i64, b2: i64) -> (r: bool)
    ensures
        r == open_overlap(a1 as int, a2 as int, b1 as int, b2 as int),
{
    let lo = if a1 >= b1 {
        a1
    } else {
        b1
    };
    let hi = if a2 <= b2 {
        a2
    } else {
        b2
    };
    hi > lo
}

/// Whether an edge of the polygon passes through the open inside of the
/// rectangle `rx1..rx2` by `ry1..ry2`.
fn crosses_interior(rx1: i64, rx2: i64, ry1: i64, ry2: i64, poly: &Vec<Point>) -> (r: bool)
    ensures
        r == cuts_interior(rx1 as int, rx2 as int, ry1 as int, ry2 as int, points_view(poly@)),
{
    let ghost pv = points_view(poly@);
    let n = poly.len();
    let mut i: usize = 0;
    while i < n
        invariant
            i <= n,
            n == poly.len(),
            pv == points_view(poly@),
            forall|k: int|
                0 <= k < i ==> !#[trigger] edge_cuts(
                    rx1 as int,
                    rx2 as int,
                    ry1 as int,
                    ry2 as int,
                    pv[k],
                    next_of(pv, k),
                ),
        decreases n - i,
    {
        let a = poly[i];
        let b = poly[(i + 1) % n];
        let cut = if a.x == b.x {
            let ey1 = if a.y <= b.y { a.y } else { b.y };
            let ey2 = if a.y >= b.y { a.y } else { b.y };
            a.x > rx1 && a.x < rx2 && intervals_overlap_open(ey1, ey2, ry1, ry2)
        } else if a.y == b.y {
            let ex1 = if a.x <= b.x { a.x } else { b.x };
            let ex2 = if a.x >= b.x { a.x } else { b.x };
            a.y > ry1 && a.y < ry2 && intervals_overlap_open(ex1, ex2, rx1, rx2)
        } else {
            false
        };
        if cut {
            proof {
                assert(edge_cuts(rx1 as int, rx2 as int, ry1 as int, ry2 as int, pv[i as int], next_of(pv, i as int)));
            }
            return true;
        }
        i += 1;
    }
    proof {
        if cuts_interior(rx1 as int, rx2 as int, ry1 as int, ry2 as int, pv) {
            let k = choose|k: int| 0 <= k < pv.len() && #[trigger] edge_cuts(rx1 as int, rx2 as int, ry1 as int, ry2 as int, pv[k], next_of(pv, k));
        }
    }
    false
}

/// Largest rectangle with red corners that lies within the polygon the red
/// tiles trace, counted in tiles with its edges; `u128::MAX` when larger.
pub fn solve_part2(input: &str) -> (r: u128)
    requires
        points_in(lines_of(input.spec_bytes())) is Some,
        moderate(points_in(lines_of(input.spec_bytes())).unwrap()),
    ensures
        ({
            let ps = points_in(lines_of(input.spec_bytes())).unwrap();
            r == clamp128(best_inside(ps, ps.len() as int))
        }),
{
    let points = match parse_points_vec(input) {
        Some(v) => v,
        None => {
            return 0;
        },
    };
    let ghost ps = points_view(points@);
    let mut best: u128 = 0;
    let mut i: usize = 0;
    while i < points.len()
        invariant
            i <= points.len(),
            ps == points_view(points@),
            moderate(ps),
            best == clamp128(best_inside(ps, i as int)),
        decreases points.len() - i,
    {
        let mut row_best: u128 = 0;
        let mut j: usize = 0;
        while j < i
            invariant
                j <= i,
                i < points.len(),
                ps == points_view(points@),
                moderate(ps),
                row_best == clamp128(best_inside_with(ps, i as int, j as int)),
            decreases i - j,
        {
            let p = points[j];
            let q = points[i];
            let x1 = if p.x <= q.x { p.x } else { q.x };
            let x2 = if p.x >= q.x { p.x } else { q.x };
            let y1 = if p.y <= q.y { p.y } else { q.y };
            let y2 = if p.y >= q.y { p.y } else { q.y };
            let mut fits = p.x != q.x && p.y != q.y;
            if fits {
                proof {
                    lemma_moderate_push(ps, j as int, i as int, x1 as int, y2 as int);
                }
                fits = point_in_polygon(Point { x: x1, y: y2 }, &points);
            }
            if fits {
                proof {
                    lemma_moderate_push(ps, j as int, i as int, x2 as int, y1 as int);
                }
                fits = point_in_polygon(Point { x: x2, y: y1 }, &points);
            }
            if fits {
                fits = !crosses_interior(x1, x2, y1, y2, &points);
            }
            let a = if fits {
                rect_area(p, q)
            } else {
                0
            };
            if a > row_best {
                row_best = a;
            }
            j += 1;
        }
        if row_best > best {
            best = row_best;
        }
        i += 1;
    }
    best
}

/// A corner built from the coordinates of two moderate points is moderate.
proof fn lemma_moderate_push(ps: Seq<(int, int)>, j: int, i: int, x: int, y: int)
    requires
        moderate(ps),
        0 <= j < ps.len(),
        0 <= i < ps.len(),
        x == ps[j].0 || x == ps[i].0,
        y == ps[j].1 || y == ps[i].1,
    ensures
        moderate(ps.push((x, y))),
{
    let m = ps.push((x, y));
    assert(-0x4000_0000_0000_0000 <= ps[j].0 <= 0x4000_0000_0000_0000);
    assert(-0x4000_0000_0000_0000 <= ps[i].0 <= 0x4000_0000_0000_0000);
    assert forall|k: int| 0 <= k < m.len() implies -0x4000_0000_0000_0000 <= (#[trigger] m[k]).0 <= 0x4000_0000_0000_0000
        && -0x4000_0000_0000_0000 <= m[k].1 <= 0x4000_0000_0000_0000 by {
        if k < ps.len() {
            assert(m[k] == ps[k]);
        }
    }
}

} // verus!
