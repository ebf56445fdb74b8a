//! A dial numbered 0 to 99, starting at 50, turned by a list of rotations:
//! count the rotations that stop on 0, and every click that lands on 0.

use vstd::prelude::*;
use vstd::string::StringSliceAdditionalSpecFns;
use crate::text::{lines_of, trim, signed_value, line_spans, trim_span, parse_signed};

verus! {

/// A rotation line, white space around it allowed: `R` or `L` (either
/// case), then at once a signed number of clicks. `true` turns right.
pub open spec fn rotation_of(line: Seq<u8>) -> Option<(bool, int)> {
    let t = trim(line);
    if t.len() == 0 {
        None
    } else {
        let right = t[0] == 82 || t[0] == 114;
        let left = t[0] == 76 || t[0] == 108;
        match signed_value(t.drop_first()) {
            Some(v) => if (right || left) && i64::MIN <= v <= i64::MAX {
                Some((right, v))
            } else {
                None
            },
            None => None,
        }
    }
}

/// The rotations of the non-blank lines; `None` when a line is no rotation.
pub open spec fn rotations_in(lines: Seq<Seq<u8>>) -> Option<Seq<(bool, int)>>
    decreases lines.len(),
{
    if lines.len() == 0 {
        Some(seq![])
    } else {
        match rotations_in(lines.drop_last()) {
            None => None,
            Some(rs) => if trim(lines.last()).len() == 0 {
                Some(rs)
            } else {
                match rotation_of(lines.last()) {
                    Some(r) => Some(rs.push(r)),
                    None => None,
                }
            },
        }
    }
}

/// Dial position after the first `n` rotations.
pub open spec fn dial_after(rs: Seq<(bool, int)>, n: int) -> int
    decreases n,
{
    if n <= 0 {
        50
    } else {
        let p = dial_after(rs, n - 1);
        if rs[n - 1].0 {
            (p + rs[n - 1].1) % 100
        } else {
            (p - rs[n - 1].1) % 100
        }
    }
}

/// Clicks of one rotation that land on 0: the multiples of 100 that the
/// dial passes, counted from position `p` (taken modulo 100). A rotation of
/// no clicks or a negative count passes none.
pub open spec fn clicks_on_zero(p: int, steps: int, right: bool) -> int {
    let s = p % 100;
    if steps <= 0 {
        0
    } else if right {
        (s + steps) / 100
    } else {
        (steps + (100 - s) % 100) / 100
    }
}

/// Rotations among the first `n` that stop on 0.
pub open spec fn stops_on_zero(rs: Seq<(bool, int)>, n: int) -> int
    decreases n,
{
    if n <= 0 {
        0
    } else {
        stops_on_zero(rs, n - 1) + if dial_after(rs, n) == 0 {
            1int
        } else {
            0int
        }
    }
}

/// Clicks on 0 during the first `n` rotations.
pub open spec fn passes_zero(rs: Seq<(bool, int)>, n: int) -> int
    decreases n,
{
    if n <= 0 {
        0
    } else {
        passes_zero(rs, n - 1) + clicks_on_zero(dial_after(rs, n - 1), rs[n - 1].1, rs[n - 1].0)
    }
}

fn rotation_from(s: &[u8], a: usize, b: usize) -> (r: Option<(bool, i64)>)
    requires
        a <= b <= s@.len(),
    ensures
        r matches Some(v) ==> rotation_of(s@.subrange(a as int, b as int)) == Some((v.0, v.1 as int)),
        r is None ==> rotation_of(s@.subrange(a as int, b as int)) is None,
{
    let (ta, tb) = trim_span(s, a, b);
    if ta == tb {
        return None;
    }
    let c = s[ta];
    let right = c == 82 || c == 114;
    let left = c == 76 || c == 108;
    let ghost t = s@.subrange(ta as int, tb as int);
    assert(t.drop_first() =~= s@.subrange(ta + 1, tb as int));
    match parse_signed(s, ta + 1, tb) {
        Some(v) => if right || left {
            Some((right, v))
        } else {
            None
        },
        None => None,
    }
}

/// The rotations of `input`, or `None` when a non-blank line is no rotation.
pub fn parse_rotations(input: &str) -> (r: Option<Vec<(bool, i64)>>)
    ensures
        r matches Some(v) ==> rotations_in(lines_of(input.spec_bytes())) == Some(
            v@.map_values(|p: (bool, i64)| (p.0, p.1 as int)),
        ),
        r is None ==> rotations_in(lines_of(input.spec_bytes())) is None,
{
    let s = input.as_bytes();
    let spans = line_spans(s);
    let ghost lines = lines_of(s@);
    let mut out: Vec<(bool, i64)> = Vec::new();
    let mut i: usize = 0;
    proof {
        assert(lines.subrange(0, 0) =~= Seq::<Seq<u8>>::empty());
        assert(out@.map_values(|p: (bool, i64)| (p.0, p.1 as int)) =~= Seq::<(bool, int)>::empty());
    }
    while i < spans.len()
        invariant
            i <= spans.len(),
            spans.len() == lines.len(),
            lines == lines_of(s@),
            s@ == input.spec_bytes(),
            forall|q: int|
                0 <= q < spans.len() ==> (#[trigger] spans@[q]).0 <= spans@[q].1 <= s@.len()
                    && s@.subrange(spans@[q].0 as int, spans@[q].1 as int) == lines[q],
            rotations_in(lines.subrange(0, i as int)) == Some(
                out@.map_values(|p: (bool, i64)| (p.0, p.1 as int)),
            ),
        decreases spans.len() - i,
    {
        let (a, b) = spans[i];
        let ghost line = lines[i as int];
        assert(s@.subrange(a as int, b as int) == line);
        assert(lines.subrange(0, i + 1).drop_last() =~= lines.subrange(0, i as int));
        assert(lines.subrange(0, i + 1).last() == line);
        let (ta, tb) = trim_span(s, a, b);
        if ta < tb {
            match rotation_from(s, a, b) {
                Some(rot) => {
                    let ghost o0 = out@;
                    out.push(rot);
                    assert(out@.map_values(|p: (bool, i64)| (p.0, p.1 as int)) =~= o0.map_values(
                        |p: (bool, i64)| (p.0, p.1 as int),
                    ).push((rot.0, rot.1 as int)));
                },
                None => {
                    proof {
                        lemma_bad_line_stays(lines, i + 1);
                    }
                    return None;
                },
            }
        }
        i += 1;
    }
    assert(lines.subrange(0, i as int) =~= lines);
    Some(out)
}

proof fn lemma_bad_line_stays(lines: Seq<Seq<u8>>, k: int)
    requires
        0 <= k <= lines.len(),
        rotations_in(lines.subrange(0, k)) is None,
    ensures
        rotations_in(lines) is None,
    decreases lines.len(),
{
    if k == lines.len() {
        assert(lines.subrange(0, k) =~= lines);
    } else {
        assert(lines.drop_last().subrange(0, k) =~= lines.subrange(0, k));
        lemma_bad_line_stays(lines.drop_last(), k);
    }
}

/// `v` modulo 100, as a value in `0..100`.
fn mod100(v: i128) -> (r: u64)
    requires
        v > i128::MIN,
    ensures
        r == v % 100,
        r < 100,
{
    if v >= 0 {
        (v as u128 % 100) as u64
    } else {
        let m = ((0 - v) as u128 % 100) as u64;
        proof {
            let q = (-v) / 100;
            assert(-v == 100 * q + m);
        }
        if m == 0 {
            0
        } else {
            100 - m
        }
    }
}

/// Clicks that land on 0 when the dial turns `steps` clicks from `start`.
fn hits_in_rotation(start: i64, steps: i64, right: bool) -> (r: u128)
    ensures
        r == clicks_on_zero(start as int, steps as int, right),
{
    if steps <= 0 {
        return 0;
    }
    let s = mod100(start as i128);
    if right {
        (s as u128 + steps as u128) / 100
    } else {
        (steps as u128 + ((100 - s) % 100) as u128) / 100
    }
}

/// Both counts for a list of rotations: how many stop on 0, and how many
/// clicks land on 0.
pub fn count_zeros(rs: &Vec<(bool, i64)>) -> (r: (usize, usize))
    requires
        passes_zero(rs@.map_values(|p: (bool, i64)| (p.0, p.1 as int)), rs.len() as int) <= usize::MAX,
    ensures
        r.0 == stops_on_zero(rs@.map_values(|p: (bool, i64)| (p.0, p.1 as int)), rs.len() as int),
        r.1 == passes_zero(rs@.map_values(|p: (bool, i64)| (p.0, p.1 as int)), rs.len() as int),
{
    let ghost v = rs@.map_values(|p: (bool, i64)| (p.0, p.1 as int));
    let mut pos: u64 = 50;
    let mut stops: usize = 0;
    let mut clicks: usize = 0;
    let mut i: usize = 0;
    while i < rs.len()
        invariant
            i <= rs.len(),
            v == rs@.map_values(|p: (bool, i64)| (p.0, p.1 as int)),
            passes_zero(v, rs.len() as int) <= usize::MAX,
            pos == dial_after(v, i as int),
            pos < 100,
            stops == stops_on_zero(v, i as int),
            stops <= i,
            clicks == passes_zero(v, i as int),
        decreases rs.len() - i,
    {
        let (right, steps) = rs[i];
        let hits = hits_in_rotation(pos as i64, steps, right);
        proof {
            lemma_passes_grow(v, i + 1, rs.len() as int);
        }
        clicks = clicks + hits as usize;
        pos = if right {
            mod100(pos as i128 + steps as i128)
        } else {
            mod100(pos as i128 - steps as i128)
        };
        if pos == 0 {
            stops += 1;
        }
        i += 1;
    }
    (stops, clicks)
}

proof fn lemma_passes_grow(rs: Seq<(bool, int)>, n: int, m: int)
    requires
        0 <= n <= m,
    ensures
        passes_zero(rs, m) >= passes_zero(rs, n),
    decreases m - n,
{
    if m > n {
        lemma_passes_grow(rs, n, m - 1);
        lemma_clicks_nonneg(dial_after(rs, m - 1), rs[m - 1].1, rs[m - 1].0);
    }
}

proof fn lemma_clicks_nonneg(p: int, steps: int, right: bool)
    ensures
        clicks_on_zero(p, steps, right) >= 0,
{
}

/// Part one and part two for a list of rotation lines.
pub fn solve(input: &str) -> (r: (usize, usize))
    requires
        rotations_in(lines_of(input.spec_bytes())) is Some,
        passes_zero(
            rotations_in(lines_of(input.spec_bytes())).unwrap(),
            rotations_in(lines_of(input.spec_bytes())).unwrap().len() as int,
        ) <= usize::MAX,
    ensures
        ({
            let rs = rotations_in(lines_of(input.spec_bytes())).unwrap();
            r == (stops_on_zero(rs, rs.len() as int) as usize, passes_zero(rs, rs.len() as int) as usize)
        }),
{
    match parse_rotations(input) {
        Some(rs) => {
            let r = count_zeros(&rs);
            r
        },
        None => (0, 0),
    }
}

} // verus!
