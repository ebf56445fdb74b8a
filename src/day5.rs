//! Fresh ingredient ranges: which queried ids fall in a range, and how many
//! ids the ranges cover together.

use vstd::prelude::*;
use vstd::set_lib::{set_int_range, lemma_int_range, lemma_set_disjoint_lens};
use vstd::string::StringSliceAdditionalSpecFns;
use crate::text::{lines_of, trim, number_of, find_from, line_spans, trim_span, parse_u64, copy_span, find_byte};

verus! {

/// Some range of `rs` holds `x`.
pub open spec fn in_some_range(rs: Seq<(nat, nat)>, x: int) -> bool {
    exists|i: int| 0 <= i < rs.len() && (#[trigger] rs[i]).0 <= x <= rs[i].1
}

/// The ids that the ranges cover.
pub open spec fn covered_ids(rs: Seq<(nat, nat)>) -> Set<int> {
    Set::new(|x: int| in_some_range(rs, x))
}

pub open spec fn nat_ranges(rs: Seq<(u64, u64)>) -> Seq<(nat, nat)> {
    rs.map_values(|r: (u64, u64)| (r.0 as nat, r.1 as nat))
}

/// Ranges in increasing order, each ending at least two before the next starts.
pub open spec fn apart(rs: Seq<(nat, nat)>) -> bool {
    &&& forall|i: int| 0 <= i < rs.len() ==> (#[trigger] rs[i]).0 <= rs[i].1
    &&& forall|i: int, j: int| 0 <= i < j < rs.len() ==> #[trigger] rs[i].1 + 1 < #[trigger] rs[j].0
}

/// Total length of the first `n` ranges.
pub open spec fn span_sum(rs: Seq<(nat, nat)>, n: int) -> int
    decreases n,
{
    if n <= 0 {
        0
    } else {
        span_sum(rs, n - 1) + (rs[n - 1].1 - rs[n - 1].0 + 1)
    }
}

proof fn lemma_span_prefix(a: Seq<(nat, nat)>, b: Seq<(nat, nat)>, n: int)
    requires
        forall|i: int| 0 <= i < n ==> a[i] == b[i],
    ensures
        span_sum(a, n) == span_sum(b, n),
    decreases n,
{
    if n > 0 {
        lemma_span_prefix(a, b, n - 1);
    }
}

proof fn lemma_apart_count(rs: Seq<(nat, nat)>)
    requires
        apart(rs),
    ensures
        covered_ids(rs).finite(),
        covered_ids(rs).len() == span_sum(rs, rs.len() as int),
    decreases rs.len(),
{
    if rs.len() == 0 {
        assert(covered_ids(rs) =~= Set::<int>::empty());
    } else {
        let init = rs.drop_last();
        let last = rs.last();
        assert(apart(init)) by {
            assert forall|i: int, j: int| 0 <= i < j < init.len() implies #[trigger] init[i].1 + 1
                < #[trigger] init[j].0 by {
                assert(rs[i].1 + 1 < rs[j].0);
            }
        }
        lemma_apart_count(init);
        let r = set_int_range(last.0 as int, last.1 as int + 1);
        lemma_int_range(last.0 as int, last.1 as int + 1);
        assert(covered_ids(rs) =~= covered_ids(init) + r) by {
            assert forall|x: int| covered_ids(rs).contains(x) implies (covered_ids(init) + r).contains(x) by {
                let i = choose|i: int| 0 <= i < rs.len() && (#[trigger] rs[i]).0 <= x <= rs[i].1;
                if i < rs.len() - 1 {
                    assert(init[i] == rs[i]);
                }
            }
            assert forall|x: int| (covered_ids(init) + r).contains(x) implies covered_ids(rs).contains(x) by {
                if covered_ids(init).contains(x) {
                    let i = choose|i: int| 0 <= i < init.len() && (#[trigger] init[i]).0 <= x <= init[i].1;
                    assert(rs[i] == init[i]);
                } else {
                    assert(rs[rs.len() - 1].0 <= x <= rs[rs.len() - 1].1);
                }
            }
        }
        assert(covered_ids(init).disjoint(r)) by {
            assert forall|x: int| covered_ids(init).contains(x) implies !r.contains(x) by {
                let i = choose|i: int| 0 <= i < init.len() && (#[trigger] init[i]).0 <= x <= init[i].1;
                assert(rs[i].1 + 1 < rs[rs.len() - 1].0);
            }
        }
        lemma_set_disjoint_lens(covered_ids(init), r);
        lemma_span_prefix(init, rs, init.len() as int);
    }
}

proof fn lemma_in_insert(rs: Seq<(nat, nat)>, pos: int, r: (nat, nat), x: int)
    requires
        0 <= pos <= rs.len(),
    ensures
        in_some_range(rs.insert(pos, r), x) <==> (in_some_range(rs, x) || r.0 <= x <= r.1),
{
    let l = rs.insert(pos, r);
    if in_some_range(rs, x) {
        let i = choose|i: int| 0 <= i < rs.len() && (#[trigger] rs[i]).0 <= x <= rs[i].1;
        if i < pos {
            assert(l[i] == rs[i]);
        } else {
            assert(l[i + 1] == rs[i]);
        }
    }
    if r.0 <= x <= r.1 {
        assert(l[pos] == r);
    }
    if in_some_range(l, x) {
        let i = choose|i: int| 0 <= i < l.len() && (#[trigger] l[i]).0 <= x <= l[i].1;
        if i < pos {
            assert(l[i] == rs[i]);
        } else if i > pos {
            assert(l[i] == rs[i - 1]);
        }
    }
}

/// The ranges, ordered by start, covering the same ids.
fn sort_by_start(rs: &Vec<(u64, u64)>) -> (out: Vec<(u64, u64)>)
    requires
        forall|i: int| 0 <= i < rs.len() ==> (#[trigger] rs@[i]).0 <= rs@[i].1,
    ensures
        out.len() == rs.len(),
        forall|i: int, j: int| 0 <= i < j < out.len() ==> (#[trigger] out@[i]).0 <= (#[trigger] out@[j]).0,
        forall|i: int| 0 <= i < out.len() ==> (#[trigger] out@[i]).0 <= out@[i].1,
        forall|x: int| in_some_range(nat_ranges(out@), x) <==> in_some_range(nat_ranges(rs@), x),
{
    let mut out: Vec<(u64, u64)> = Vec::new();
    let mut k: usize = 0;
    while k < rs.len()
        invariant
            k <= rs.len(),
            out.len() == k,
            forall|i: int| 0 <= i < rs.len() ==> (#[trigger] rs@[i]).0 <= rs@[i].1,
            forall|i: int, j: int| 0 <= i < j < out.len() ==> (#[trigger] out@[i]).0 <= (#[trigger] out@[j]).0,
            forall|i: int| 0 <= i < out.len() ==> (#[trigger] out@[i]).0 <= out@[i].1,
            forall|x: int|
                in_some_range(nat_ranges(out@), x) <==> in_some_range(
                    nat_ranges(rs@).subrange(0, k as int),
                    x,
                ),
        decreases rs.len() - k,
    {
        let r = rs[k];
        let mut pos: usize = 0;
        while pos < out.len() && out[pos].0 <= r.0
            invariant
                pos <= out.len(),
                forall|i: int| 0 <= i < pos ==> (#[trigger] out@[i]).0 <= r.0,
            decreases out.len() - pos,
        {
            pos += 1;
        }
        let ghost o0 = out@;
        out.insert(pos, r);
        proof {
            let rn = (r.0 as nat, r.1 as nat);
            assert(nat_ranges(out@) =~= nat_ranges(o0).insert(pos as int, rn));
            let pre = nat_ranges(rs@).subrange(0, k as int);
            assert(nat_ranges(rs@).subrange(0, k + 1) =~= pre.push(rn));
            assert forall|x: int|
                in_some_range(nat_ranges(out@), x) <==> in_some_range(
                    nat_ranges(rs@).subrange(0, k + 1),
                    x,
                ) by {
                lemma_in_insert(nat_ranges(o0), pos as int, rn, x);
                lemma_in_push(pre, rn, x);
            }
            assert forall|i: int, j: int| 0 <= i < j < out.len() implies (#[trigger] out@[i]).0 <= (
            #[trigger] out@[j]).0 by {
                if j < pos {
                } else if i < pos && j == pos {
                } else if i < pos {
                    assert(out@[j] == o0[j - 1]);
                } else if i == pos {
                    assert(out@[j] == o0[j - 1]);
                } else {
                    assert(out@[j] == o0[j - 1]);
                    assert(out@[i] == o0[i - 1]);
                }
            }
            assert forall|i: int| 0 <= i < out.len() implies (#[trigger] out@[i]).0 <= out@[i].1 by {
                if i < pos {
                    assert(out@[i] == o0[i]);
                } else if i > pos {
                    assert(out@[i] == o0[i - 1]);
                }
            }
        }
        k += 1;
    }
    proof {
        assert(nat_ranges(rs@).subrange(0, k as int) =~= nat_ranges(rs@));
    }
    out
}

/// Number of distinct ids that the ranges cover. Each range must have its
/// start at most its end.
fn count_ids_in_ranges(ranges: &Vec<(u64, u64)>) -> (r: u128)
    requires
        forall|i: int| 0 <= i < ranges.len() ==> (#[trigger] ranges@[i]).0 <= ranges@[i].1,
    ensures
        r == covered_ids(nat_ranges(ranges@)).len(),
        covered_ids(nat_ranges(ranges@)).finite(),
{
    let ghost orig = nat_ranges(ranges@);
    if ranges.len() == 0 {
        proof {
            assert(covered_ids(orig) =~= Set::<int>::empty());
        }
        return 0;
    }
    let sorted = sort_by_start(ranges);
    let ghost srt = nat_ranges(sorted@);
    let mut merged: Vec<(u64, u64)> = Vec::new();
    let mut cur = sorted[0];
    let mut total: u128 = 0;
    let mut i: usize = 1;
    proof {
        let l = nat_ranges(merged@).push((cur.0 as nat, cur.1 as nat));
        assert(srt.subrange(0, 1) =~= l);
    }
    while i < sorted.len()
        invariant
            1 <= i <= sorted.len(),
            srt == nat_ranges(sorted@),
            forall|p: int, q: int| 0 <= p < q < sorted.len() ==> (#[trigger] sorted@[p]).0 <= (#[trigger] sorted@[q]).0,
            forall|p: int| 0 <= p < sorted.len() ==> (#[trigger] sorted@[p]).0 <= sorted@[p].1,
            cur.0 <= cur.1,
            cur.0 <= sorted@[i - 1].0,
            apart(nat_ranges(merged@).push((cur.0 as nat, cur.1 as nat))),
            total == span_sum(nat_ranges(merged@), merged.len() as int),
            total <= cur.0,
            forall|x: int|
                in_some_range(srt.subrange(0, i as int), x) <==> in_some_range(
                    nat_ranges(merged@).push((cur.0 as nat, cur.1 as nat)),
                    x,
                ),
        decreases sorted.len() - i,
    {
        let (a, b) = sorted[i];
        let ghost m0 = nat_ranges(merged@);
        let ghost c0 = (cur.0 as nat, cur.1 as nat);
        let ghost t0 = total;
        assert(srt[i as int] == (a as nat, b as nat));
        proof {
            assert(srt.subrange(0, i + 1) =~= srt.subrange(0, i as int).push(srt[i as int]));
            assert forall|x: int| in_some_range(srt.subrange(0, i + 1), x) <==> (in_some_range(srt.subrange(0, i as int), x)
                || a <= x <= b) by {
                lemma_in_push(srt.subrange(0, i as int), srt[i as int], x);
            }
            assert forall|x: int| in_some_range(m0.push(c0), x) <==> (in_some_range(m0, x) || c0.0 <= x <= c0.1) by {
                lemma_in_push(m0, c0, x);
            }
        }
        if (a as u128) <= (cur.1 as u128) + 1 {
            if b > cur.1 {
                cur = (cur.0, b);
            }
            proof {
                let c1 = (cur.0 as nat, cur.1 as nat);
                assert(c0.0 <= a);
                let l0 = m0.push(c0);
                let l = m0.push(c1);
                assert forall|x: int| in_some_range(srt.subrange(0, i + 1), x) <==> in_some_range(l, x) by {
                    lemma_in_push(srt.subrange(0, i as int), srt[i as int], x);
                    assert(in_some_range(srt.subrange(0, i as int), x) <==> in_some_range(m0.push(c0), x));
                    lemma_in_push(m0, c0, x);
                    lemma_in_push(m0, c1, x);
                }
                assert forall|p: int, q: int| 0 <= p < q < l.len() implies #[trigger] l[p].1 + 1 < #[trigger] l[q].0 by {
                    assert(l0[p].1 + 1 < l0[q].0);
                }
                assert forall|p: int| 0 <= p < l.len() implies (#[trigger] l[p]).0 <= l[p].1 by {
                    assert(l0[p].0 <= l0[p].1);
                }
            }
        } else {
            merged.push(cur);
            total = total + (cur.1 as u128 - cur.0 as u128 + 1);
            cur = (a, b);
            proof {
                let m1 = nat_ranges(merged@);
                assert(m1 =~= m0.push(c0));
                let c1 = (a as nat, b as nat);
                let l0 = m0.push(c0);
                let l = m1.push(c1);
                assert forall|x: int| in_some_range(srt.subrange(0, i + 1), x) <==> in_some_range(l, x) by {
                    lemma_in_push(srt.subrange(0, i as int), srt[i as int], x);
                    assert(in_some_range(srt.subrange(0, i as int), x) <==> in_some_range(m0.push(c0), x));
                    lemma_in_push(m0, c0, x);
                    lemma_in_push(m1, c1, x);
                }
                assert forall|p: int, q: int| 0 <= p < q < l.len() implies #[trigger] l[p].1 + 1 < #[trigger] l[q].0 by {
                    if q < l.len() - 1 {
                        assert(l0[p].1 + 1 < l0[q].0);
                    } else if p < l.len() - 2 {
                        assert(l0[p].1 + 1 < l0[l.len() - 2].0);
                    }
                }
                assert forall|p: int| 0 <= p < l.len() implies (#[trigger] l[p]).0 <= l[p].1 by {
                    if p < l.len() - 1 {
                        assert(l0[p].0 <= l0[p].1);
                    }
                }
                assert(apart(m1)) by {
                    assert forall|p: int, q: int| 0 <= p < q < m1.len() implies #[trigger] m1[p].1 + 1 < #[trigger] m1[q].0 by {
                        assert(l[p].1 + 1 < l[q].0);
                    }
                    assert forall|p: int| 0 <= p < m1.len() implies (#[trigger] m1[p]).0 <= m1[p].1 by {
                        assert(l[p].0 <= l[p].1);
                    }
                }
                lemma_span_prefix(m1, m0, m0.len() as int);
                lemma_span_bound(m1);
            }
        }
        i += 1;
    }
    let ghost fin = nat_ranges(merged@).push((cur.0 as nat, cur.1 as nat));
    let r = total + (cur.1 as u128 - cur.0 as u128 + 1);
    proof {
        assert(srt.subrange(0, i as int) =~= srt);
        assert(fin.drop_last() =~= nat_ranges(merged@));
        lemma_apart_count(fin);
        lemma_span_prefix(fin, nat_ranges(merged@), merged.len() as int);
        assert(span_sum(fin, fin.len() as int) == r);
        assert forall|x: int| in_some_range(orig, x) <==> in_some_range(fin, x) by {
            assert(in_some_range(srt, x) <==> in_some_range(orig, x));
        }
        assert(covered_ids(orig) =~= covered_ids(fin));
    }
    r
}

proof fn lemma_in_push(rs: Seq<(nat, nat)>, r: (nat, nat), x: int)
    ensures
        in_some_range(rs.push(r), x) <==> (in_some_range(rs, x) || r.0 <= x <= r.1),
{
    let l = rs.push(r);
    if in_some_range(rs, x) {
        let i = choose|i: int| 0 <= i < rs.len() && (#[trigger] rs[i]).0 <= x <= rs[i].1;
        assert(l[i] == rs[i]);
    }
    if r.0 <= x <= r.1 {
        assert(l[rs.len() as int] == r);
    }
    if in_some_range(l, x) {
        let i = choose|i: int| 0 <= i < l.len() && (#[trigger] l[i]).0 <= x <= l[i].1;
        if i < rs.len() {
            assert(l[i] == rs[i]);
        }
    }
}

/// Apart ranges add up to no more than one past the end of the last.
proof fn lemma_span_bound(rs: Seq<(nat, nat)>)
    requires
        apart(rs),
        rs.len() > 0,
    ensures
        span_sum(rs, rs.len() as int) <= rs.last().1 + 1,
    decreases rs.len(),
{
    assert(span_sum(rs, 0) == 0);
    if rs.len() > 1 {
        let init = rs.drop_last();
        assert(init.last() == rs[rs.len() - 2]);
        assert(apart(init)) by {
            assert forall|i: int, j: int| 0 <= i < j < init.len() implies #[trigger] init[i].1 + 1
                < #[trigger] init[j].0 by {
                assert(rs[i].1 + 1 < rs[j].0);
            }
        }
        lemma_span_bound(init);
        lemma_span_prefix(init, rs, init.len() as int);
        assert(rs[rs.len() - 2].1 + 1 < rs[rs.len() - 1].0);
    }
}

/// Why an inventory has no answer.
#[derive(Debug, Clone, Copy, PartialEq, Eq)]
pub enum InventoryError {
    /// The input is not two sections split by one empty line.
    Sections,
    /// This line of the range section is not `a-b`.
    BadRange(usize),
    /// This line of the range section starts after it ends.
    Reversed(usize),
    /// This line of the query section is not a number.
    BadQuery(usize),
    /// The query section holds no number.
    NoQueries,
    /// The count of covered ids exceeds `usize::MAX`.
    TooLarge,
}

/// Index of the first empty line break (`\n\n`) at or after `from`, or `s.len()`.
pub open spec fn find_break(s: Seq<u8>, from: int) -> int
    decreases s.len() - from,
{
    if from < 0 || from + 1 >= s.len() {
        s.len() as int
    } else if s[from] == 10 && s[from + 1] == 10 {
        from
    } else {
        find_break(s, from + 1)
    }
}

/// The two sections around the only `\n\n`.
pub open spec fn sections_of(s: Seq<u8>) -> Option<(Seq<u8>, Seq<u8>)> {
    let k = find_break(s, 0);
    if k >= s.len() {
        None
    } else {
        let rest = s.subrange(k + 2, s.len() as int);
        if find_break(rest, 0) < rest.len() {
            None
        } else {
            Some((s.subrange(0, k), rest))
        }
    }
}

/// A range line: two numbers around the only `-`.
pub open spec fn range_of(line: Seq<u8>) -> Option<(nat, nat)> {
    let t = trim(line);
    let d = find_from(t, 45, 0);
    if d >= t.len() || find_from(t, 45, d + 1) < t.len() {
        None
    } else {
        match (number_of(t.subrange(0, d)), number_of(t.subrange(d + 1, t.len() as int))) {
            (Some(a), Some(b)) => if a <= u64::MAX && b <= u64::MAX {
                Some((a, b))
            } else {
                None
            },
            _ => None,
        }
    }
}

pub open spec fn ranges_in(lines: Seq<Seq<u8>>) -> Result<Seq<(nat, nat)>, InventoryError>
    decreases lines.len(),
{
    if lines.len() == 0 {
        Ok(seq![])
    } else {
        match ranges_in(lines.drop_last()) {
            Err(e) => Err(e),
            Ok(rs) => if trim(lines.last()).len() == 0 {
                Ok(rs)
            } else {
                match range_of(lines.last()) {
                    None => Err(InventoryError::BadRange((lines.len() - 1) as usize)),
                    Some(r) => if r.0 > r.1 {
                        Err(InventoryError::Reversed((lines.len() - 1) as usize))
                    } else {
                        Ok(rs.push(r))
                    },
                }
            },
        }
    }
}

pub open spec fn queries_in(lines: Seq<Seq<u8>>) -> Result<Seq<nat>, InventoryError>
    decreases lines.len(),
{
    if lines.len() == 0 {
        Ok(seq![])
    } else {
        match queries_in(lines.drop_last()) {
            Err(e) => Err(e),
            Ok(qs) => if trim(lines.last()).len() == 0 {
                Ok(qs)
            } else {
                match number_of(lines.last()) {
                    Some(q) => if q <= u64::MAX {
                        Ok(qs.push(q))
                    } else {
                        Err(InventoryError::BadQuery((lines.len() - 1) as usize))
                    },
                    None => Err(InventoryError::BadQuery((lines.len() - 1) as usize)),
                }
            },
        }
    }
}

/// The ranges and the queries of an inventory.
pub open spec fn inventory_of(s: Seq<u8>) -> Result<(Seq<(nat, nat)>, Seq<nat>), InventoryError> {
    match sections_of(s) {
        None => Err(InventoryError::Sections),
        Some((a, b)) => match ranges_in(lines_of(a)) {
            Err(e) => Err(e),
            Ok(rs) => match queries_in(lines_of(b)) {
                Err(e) => Err(e),
                Ok(qs) => if qs.len() == 0 {
                    Err(InventoryError::NoQueries)
                } else {
                    Ok((rs, qs))
                },
            },
        },
    }
}

/// Queries among the first `n` that some range holds.
pub open spec fn fresh_count(rs: Seq<(nat, nat)>, qs: Seq<nat>, n: int) -> int
    decreases n,
{
    if n <= 0 {
        0
    } else {
        fresh_count(rs, qs, n - 1) + if in_some_range(rs, qs[n - 1] as int) {
            1int
        } else {
            0int
        }
    }
}

proof fn lemma_find_break_bounds(s: Seq<u8>, from: int)
    requires
        0 <= from,
    ensures
        find_break(s, from) >= from || find_break(s, from) == s.len(),
        find_break(s, from) < s.len() ==> find_break(s, from) + 1 < s.len(),
    decreases s.len() - from,
{
    if from + 1 < s.len() && !(s[from] == 10 && s[from + 1] == 10) {
        lemma_find_break_bounds(s, from + 1);
    }
}

fn find_break_in(s: &[u8]) -> (r: usize)
    ensures
        r == find_break(s@, 0) || (r == s@.len() && find_break(s@, 0) >= s@.len()),
        r < s@.len() ==> r + 1 < s@.len(),
{
    let mut i: usize = 0;
    while s.len() - i > 1
        invariant
            i <= s@.len(),
            find_break(s@, 0) == find_break(s@, i as int),
        decreases s@.len() - i,
    {
        if s[i] == 10 && s[i + 1] == 10 {
            return i;
        }
        i += 1;
    }
    s.len()
}

fn range_from(s: &[u8], a: usize, b: usize) -> (r: Option<(u64, u64)>)
    requires
        a <= b <= s@.len(),
    ensures
        r matches Some(v) ==> range_of(s@.subrange(a as int, b as int)) == Some((v.0 as nat, v.1 as nat)),
        r is None ==> range_of(s@.subrange(a as int, b as int)) is None,
{
    let (ta, tb) = trim_span(s, a, b);
    let t = copy_span(s, ta, tb);
    let ts = t.as_slice();
    let d = find_byte(ts, 45, 0);
    if d >= ts.len() {
        return None;
    }
    let d2 = find_byte(ts, 45, d + 1);
    if d2 < ts.len() {
        return None;
    }
    let lo = parse_u64(ts, 0, d);
    let hi = parse_u64(ts, d + 1, ts.len());
    match (lo, hi) {
        (Some(x), Some(y)) => Some((x, y)),
        _ => None,
    }
}

fn parse_ranges(s: &[u8]) -> (r: Result<Vec<(u64, u64)>, InventoryError>)
    ensures
        r matches Ok(v) ==> ranges_in(lines_of(s@)) == Ok::<Seq<(nat, nat)>, InventoryError>(nat_ranges(v@)),
        r matches Err(e) ==> ranges_in(lines_of(s@)) == Err::<Seq<(nat, nat)>, InventoryError>(e),
        r matches Err(e) ==> e != InventoryError::TooLarge,
{
    let spans = line_spans(s);
    let ghost lines = lines_of(s@);
    let mut out: Vec<(u64, u64)> = Vec::new();
    let mut i: usize = 0;
    proof {
        assert(lines.subrange(0, 0) =~= Seq::<Seq<u8>>::empty());
        assert(nat_ranges(out@) =~= Seq::<(nat, nat)>::empty());
    }
    while i < spans.len()
        invariant
            i <= spans.len(),
            spans.len() == lines.len(),
            lines == lines_of(s@),
            forall|q: int|
                0 <= q < spans.len() ==> (#[trigger] spans@[q]).0 <= spans@[q].1 <= s@.len()
                    && s@.subrange(spans@[q].0 as int, spans@[q].1 as int) == lines[q],
            ranges_in(lines.subrange(0, i as int)) == Ok::<Seq<(nat, nat)>, InventoryError>(nat_ranges(out@)),
        decreases spans.len() - i,
    {
        let (a, b) = spans[i];
        let ghost line = lines[i as int];
        assert(s@.subrange(a as int, b as int) == line);
        assert(lines.subrange(0, i + 1).drop_last() =~= lines.subrange(0, i as int));
        assert(lines.subrange(0, i + 1).last() == line);
        let (ta, tb) = trim_span(s, a, b);
        if ta < tb {
            match range_from(s, a, b) {
                Some(rg) => {
                    if rg.0 > rg.1 {
                        proof {
                            lemma_ranges_error_stays(lines, i + 1);
                        }
                        return Err(InventoryError::Reversed(i));
                    }
                    let ghost o0 = out@;
                    out.push(rg);
                    assert(nat_ranges(out@) =~= nat_ranges(o0).push((rg.0 as nat, rg.1 as nat)));
                },
                None => {
                    proof {
                        lemma_ranges_error_stays(lines, i + 1);
                    }
                    return Err(InventoryError::BadRange(i));
                },
            }
        }
        i += 1;
    }
    assert(lines.subrange(0, i as int) =~= lines);
    Ok(out)
}

proof fn lemma_ranges_ordered(lines: Seq<Seq<u8>>)
    ensures
        ranges_in(lines) matches Ok(rs) ==> forall|i: int| 0 <= i < rs.len() ==> (#[trigger] rs[i]).0 <= rs[i].1,
    decreases lines.len(),
{
    if lines.len() > 0 {
        lemma_ranges_ordered(lines.drop_last());
    }
}

proof fn lemma_ranges_error_stays(lines: Seq<Seq<u8>>, k: int)
    requires
        0 <= k <= lines.len(),
        ranges_in(lines.subrange(0, k)) is Err,
    ensures
        ranges_in(lines) == ranges_in(lines.subrange(0, k)),
    decreases lines.len(),
{
    if k == lines.len() {
        assert(lines.subrange(0, k) =~= lines);
    } else {
        assert(lines.drop_last().subrange(0, k) =~= lines.subrange(0, k));
        lemma_ranges_error_stays(lines.drop_last(), k);
    }
}

proof fn lemma_queries_error_stays(lines: Seq<Seq<u8>>, k: int)
    requires
        0 <= k <= lines.len(),
        queries_in(lines.subrange(0, k)) is Err,
    ensures
        queries_in(lines) == queries_in(lines.subrange(0, k)),
    decreases lines.len(),
{
    if k == lines.len() {
        assert(lines.subrange(0, k) =~= lines);
    } else {
        assert(lines.drop_last().subrange(0, k) =~= lines.subrange(0, k));
        lemma_queries_error_stays(lines.drop_last(), k);
    }
}

fn parse_queries(s: &[u8]) -> (r: Result<Vec<u64>, InventoryError>)
    ensures
        r matches Ok(v) ==> queries_in(lines_of(s@)) == Ok::<Seq<nat>, InventoryError>(
            v@.map_values(|q: u64| q as nat),
        ),
        r matches Err(e) ==> queries_in(lines_of(s@)) == Err::<Seq<nat>, InventoryError>(e),
        r matches Err(e) ==> e != InventoryError::TooLarge,
{
    let spans = line_spans(s);
    let ghost lines = lines_of(s@);
    let mut out: Vec<u64> = Vec::new();
    let mut i: usize = 0;
    proof {
        assert(lines.subrange(0, 0) =~= Seq::<Seq<u8>>::empty());
        assert(out@.map_values(|q: u64| q as nat) =~= Seq::<nat>::empty());
    }
    while i < spans.len()
        invariant
            i <= spans.len(),
            spans.len() == lines.len(),
            lines == lines_of(s@),
            forall|q: int|
                0 <= q < spans.len() ==> (#[trigger] spans@[q]).0 <= spans@[q].1 <= s@.len()
                    && s@.subrange(spans@[q].0 as int, spans@[q].1 as int) == lines[q],
            queries_in(lines.subrange(0, i as int)) == Ok::<Seq<nat>, InventoryError>(
                out@.map_values(|q: u64| q as nat),
            ),
        decreases spans.len() - i,
    {
        let (a, b) = spans[i];
        let ghost line = lines[i as int];
        assert(s@.subrange(a as int, b as int) == line);
        assert(lines.subrange(0, i + 1).drop_last() =~= lines.subrange(0, i as int));
        assert(lines.subrange(0, i + 1).last() == line);
        let (ta, tb) = trim_span(s, a, b);
        if ta < tb {
            match parse_u64(s, a, b) {
                Some(q) => {
                    let ghost o0 = out@;
                    out.push(q);
                    assert(out@.map_values(|q: u64| q as nat) =~= o0.map_values(|q: u64| q as nat).push(
                        q as nat,
                    ));
                },
                None => {
                    proof {
                        lemma_queries_error_stays(lines, i + 1);
                    }
                    return Err(InventoryError::BadQuery(i));
                },
            }
        }
        i += 1;
    }
    assert(lines.subrange(0, i as int) =~= lines);
    Ok(out)
}

/// Part one: the queries that some range holds. Part two: the ids that the
/// ranges cover together.
pub fn solve(input: &str) -> (r: Result<(usize, usize), InventoryError>)
    ensures
        r matches Ok(p) ==> inventory_of(input.spec_bytes()) matches Ok(inv) && p.0 == fresh_count(
            inv.0,
            inv.1,
            inv.1.len() as int,
        ) && p.1 == covered_ids(inv.0).len(),
        r matches Err(InventoryError::TooLarge) ==> inventory_of(input.spec_bytes()) matches Ok(inv)
            && covered_ids(inv.0).len() > usize::MAX,
        r matches Err(e) ==> e == InventoryError::TooLarge || inventory_of(input.spec_bytes()) == Err::<
            (Seq<(nat, nat)>, Seq<nat>),
            InventoryError,
        >(e),
{
    let s = input.as_bytes();
    let k = find_break_in(s);
    if k >= s.len() {
        return Err(InventoryError::Sections);
    }
    let first = copy_span(s, 0, k);
    let rest = copy_span(s, k + 2, s.len());
    if find_break_in(rest.as_slice()) < rest.len() {
        return Err(InventoryError::Sections);
    }
    let ranges = match parse_ranges(first.as_slice()) {
        Ok(v) => v,
        Err(e) => {
            return Err(e);
        },
    };
    let queries = match parse_queries(rest.as_slice()) {
        Ok(v) => v,
        Err(e) => {
            return Err(e);
        },
    };
    if queries.len() == 0 {
        return Err(InventoryError::NoQueries);
    }
    let ghost rs = nat_ranges(ranges@);
    let ghost qs = queries@.map_values(|q: u64| q as nat);
    proof {
        lemma_ranges_ordered(lines_of(first@));
        assert forall|i: int| 0 <= i < ranges.len() implies (#[trigger] ranges@[i]).0 <= ranges@[i].1 by {
            assert(rs[i].0 <= rs[i].1);
        }
    }
    let ids = count_ids_in_ranges(&ranges);
    let mut fresh: usize = 0;
    let mut i: usize = 0;
    while i < queries.len()
        invariant
            i <= queries.len(),
            rs == nat_ranges(ranges@),
            qs == queries@.map_values(|q: u64| q as nat),
            fresh == fresh_count(rs, qs, i as int),
            fresh <= i,
        decreases queries.len() - i,
    {
        let q = queries[i];
        let mut j: usize = 0;
        let mut hit = false;
        while j < ranges.len() && !hit
            invariant
                j <= ranges.len(),
                rs == nat_ranges(ranges@),
                hit ==> in_some_range(rs, q as int),
                !hit ==> forall|p: int| 0 <= p < j ==> !((#[trigger] rs[p]).0 <= q <= rs[p].1),
            decreases ranges.len() - j + if hit {
                0int
            } else {
                1int
            },
        {
            if ranges[j].0 <= q && q <= ranges[j].1 {
                hit = true;
                assert(rs[j as int].0 <= q <= rs[j as int].1);
            } else {
                j += 1;
            }
        }
        if hit {
            fresh += 1;
        }
        i += 1;
    }
    if ids > usize::MAX as u128 {
        return Err(InventoryError::TooLarge);
    }
    Ok((fresh, ids as usize))
}

} // verus!
