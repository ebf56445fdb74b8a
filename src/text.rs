//! Byte-level text helpers shared by the puzzle parsers: line splitting,
//! white-space trimming and decimal numbers.

use vstd::prelude::*;
use vstd::string::StringSliceAdditionalSpecFns;

verus! {

pub open spec fn is_digit(b: u8) -> bool {
    48 <= b <= 57
}

/// One-byte white space: tab, line feed, vertical tab, form feed, carriage
/// return and space.
pub open spec fn is_blank(b: u8) -> bool {
    b == 32 || (9 <= b <= 13)
}

/// The three-byte encodings of the other white-space characters: U+1680,
/// U+2000 to U+200A, U+2028, U+2029, U+202F, U+205F and U+3000.
pub open spec fn is_wide_blank(a: u8, b: u8, c: u8) -> bool {
    (a == 0xE1 && b == 0x9A && c == 0x80) || (a == 0xE2 && b == 0x80 && ((0x80 <= c <= 0x8A) || c == 0xA8
        || c == 0xA9 || c == 0xAF)) || (a == 0xE2 && b == 0x81 && c == 0x9F) || (a == 0xE3 && b == 0x80 && c
        == 0x80)
}

/// Bytes of the white-space character that `s` starts with (0 if none):
/// the one-byte blanks, U+0085 and U+00A0 in two bytes, and the three-byte
/// ones.
pub open spec fn blank_head(s: Seq<u8>) -> int {
    if s.len() >= 1 && is_blank(s[0]) {
        1
    } else if s.len() >= 2 && s[0] == 0xC2 && (s[1] == 0x85 || s[1] == 0xA0) {
        2
    } else if s.len() >= 3 && is_wide_blank(s[0], s[1], s[2]) {
        3
    } else {
        0
    }
}

/// Bytes of the white-space character that `s` ends with (0 if none).
pub open spec fn blank_tail(s: Seq<u8>) -> int {
    let n = s.len() as int;
    if n >= 1 && is_blank(s[n - 1]) {
        1
    } else if n >= 2 && s[n - 2] == 0xC2 && (s[n - 1] == 0x85 || s[n - 1] == 0xA0) {
        2
    } else if n >= 3 && is_wide_blank(s[n - 3], s[n - 2], s[n - 1]) {
        3
    } else {
        0
    }
}

/// Value of a run of decimal digits.
pub open spec fn decimal(s: Seq<u8>) -> nat
    decreases s.len(),
{
    if s.len() == 0 {
        0
    } else {
        decimal(s.drop_last()) * 10 + (s.last() - 48) as nat
    }
}

pub open spec fn all_digits(s: Seq<u8>) -> bool {
    forall|i: int| 0 <= i < s.len() ==> is_digit(#[trigger] s[i])
}

pub open spec fn trim_start(s: Seq<u8>) -> Seq<u8>
    decreases s.len(),
{
    let k = blank_head(s);
    if k > 0 {
        trim_start(s.subrange(k, s.len() as int))
    } else {
        s
    }
}

pub open spec fn trim_end(s: Seq<u8>) -> Seq<u8>
    decreases s.len(),
{
    let k = blank_tail(s);
    if k > 0 {
        trim_end(s.subrange(0, s.len() - k))
    } else {
        s
    }
}

/// `s` without its leading and trailing white space.
pub open spec fn trim(s: Seq<u8>) -> Seq<u8> {
    trim_end(trim_start(s))
}

/// The value of `t` when it is one or more decimal digits.
pub open spec fn digits_value(t: Seq<u8>) -> Option<nat> {
    if t.len() > 0 && all_digits(t) {
        Some(decimal(t))
    } else {
        None
    }
}

/// An unsigned decimal: digits, after an optional `+`.
pub open spec fn unsigned_of(t: Seq<u8>) -> Option<nat> {
    if t.len() > 0 && t[0] == 43 {
        digits_value(t.drop_first())
    } else {
        digits_value(t)
    }
}

/// A signed decimal: digits, after an optional `+` or `-`.
pub open spec fn signed_value(t: Seq<u8>) -> Option<int> {
    if t.len() > 0 && t[0] == 45 {
        match digits_value(t.drop_first()) {
            Some(v) => Some(-(v as int)),
            None => None,
        }
    } else {
        match unsigned_of(t) {
            Some(v) => Some(v as int),
            None => None,
        }
    }
}

/// The number that `s` spells, white space around it allowed.
pub open spec fn number_of(s: Seq<u8>) -> Option<nat> {
    unsigned_of(trim(s))
}

/// Index of the first `b` in `s` at or after `from`, or `s.len()`.
pub open spec fn find_from(s: Seq<u8>, b: u8, from: int) -> int
    decreases s.len() - from,
{
    if from >= s.len() {
        s.len() as int
    } else if s[from] == b {
        from
    } else {
        find_from(s, b, from + 1)
    }
}

/// The lines of `s`: the pieces between line feeds, with no empty piece
/// after a final line feed.
pub open spec fn lines_of(s: Seq<u8>) -> Seq<Seq<u8>>
    decreases s.len(),
{
    if s.len() == 0 {
        seq![]
    } else {
        let k = find_from(s, 10, 0);
        if k < 0 || k >= s.len() {
            seq![s]
        } else {
            seq![s.subrange(0, k)] + lines_of(s.subrange(k + 1, s.len() as int))
        }
    }
}

proof fn lemma_find_from_bounds(s: Seq<u8>, b: u8, from: int)
    requires
        0 <= from <= s.len(),
    ensures
        from <= find_from(s, b, from) <= s.len(),
        find_from(s, b, from) < s.len() ==> s[find_from(s, b, from)] == b,
        forall|j: int| from <= j < find_from(s, b, from) ==> s[j] != b,
    decreases s.len() - from,
{
    if from < s.len() && s[from] != b {
        lemma_find_from_bounds(s, b, from + 1);
    }
}

/// First index of `b` in `s[from..]`, or `s.len()`.
pub fn find_byte(s: &[u8], b: u8, from: usize) -> (r: usize)
    requires
        from <= s@.len(),
    ensures
        r == find_from(s@, b, from as int),
        from <= r <= s@.len(),
        r < s@.len() ==> s@[r as int] == b,
        forall|j: int| from <= j < r ==> s@[j] != b,
{
    let mut i = from;
    while i < s.len() && s[i] != b
        invariant
            from <= i <= s@.len(),
            find_from(s@, b, from as int) == find_from(s@, b, i as int),
        decreases s@.len() - i,
    {
        i += 1;
    }
    proof {
        lemma_find_from_bounds(s@, b, i as int);
        lemma_find_from_bounds(s@, b, from as int);
    }
    i
}

/// Start and end of each line of `s`, as `lines_of` cuts it.
pub fn line_spans(s: &[u8]) -> (r: Vec<(usize, usize)>)
    ensures
        r.len() == lines_of(s@).len(),
        forall|i: int|
            0 <= i < r.len() ==> (#[trigger] r@[i]).0 <= r@[i].1 <= s@.len() && s@.subrange(
                r@[i].0 as int,
                r@[i].1 as int,
            ) == lines_of(s@)[i],
{
    let mut r: Vec<(usize, usize)> = Vec::new();
    let mut start: usize = 0;
    proof {
        assert(s@.subrange(0, s@.len() as int) =~= s@);
        assert(r@.map_values(|p: (usize, usize)| s@.subrange(p.0 as int, p.1 as int)) =~= Seq::<
            Seq<u8>,
        >::empty());
        assert(lines_of(s@) =~= Seq::<Seq<u8>>::empty() + lines_of(s@));
    }
    while start < s.len()
        invariant
            start <= s@.len(),
            lines_of(s@) == r@.map_values(|p: (usize, usize)| s@.subrange(p.0 as int, p.1 as int))
                + lines_of(s@.subrange(start as int, s@.len() as int)),
            forall|i: int| 0 <= i < r.len() ==> (#[trigger] r@[i]).0 <= r@[i].1 <= s@.len(),
        decreases s@.len() - start,
    {
        let ghost rest = s@.subrange(start as int, s@.len() as int);
        let k = find_byte(s, 10, start);
        proof {
            lemma_find_from_shift(s@, 10, start as int);
        }
        r.push((start, k));
        proof {
            if k >= s.len() {
                assert(rest.subrange(0, (k - start) as int) =~= rest);
            } else {
                assert(rest.subrange((k - start) + 1, rest.len() as int) =~= s@.subrange(
                    k + 1,
                    s@.len() as int,
                ));
            }
            assert(rest.subrange(0, (k - start) as int) =~= s@.subrange(start as int, k as int));
        }
        if k >= s.len() {
            start = s.len();
        } else {
            start = k + 1;
        }
        proof {
            assert(s@.subrange(start as int, s@.len() as int).len() == 0 ==> lines_of(
                s@.subrange(start as int, s@.len() as int),
            ) == Seq::<Seq<u8>>::empty());
            assert(r@.map_values(|p: (usize, usize)| s@.subrange(p.0 as int, p.1 as int))
                =~= r@.drop_last().map_values(
                |p: (usize, usize)| s@.subrange(p.0 as int, p.1 as int),
            ).push(s@.subrange(r@.last().0 as int, r@.last().1 as int)));
        }
    }
    proof {
        assert(s@.subrange(start as int, s@.len() as int).len() == 0);
        assert(lines_of(s@) =~= r@.map_values(
            |p: (usize, usize)| s@.subrange(p.0 as int, p.1 as int),
        ));
    }
    r
}

/// `find_from` on a suffix, shifted back to the whole sequence.
proof fn lemma_find_from_shift(s: Seq<u8>, b: u8, start: int)
    requires
        0 <= start < s.len(),
    ensures
        find_from(s.subrange(start, s.len() as int), b, 0) == find_from(s, b, start) - start,
{
    let t = s.subrange(start, s.len() as int);
    assert forall|k: int| 0 <= k <= t.len() implies find_from(t, b, k) == find_from(s, b, start + k) - start by {
        lemma_find_shift_at(s, b, start, k);
    }
}

proof fn lemma_find_shift_at(s: Seq<u8>, b: u8, start: int, k: int)
    requires
        0 <= start < s.len(),
        0 <= k <= s.len() - start,
    ensures
        find_from(s.subrange(start, s.len() as int), b, k) == find_from(s, b, start + k) - start,
    decreases s.len() - start - k,
{
    if k < s.len() - start {
        lemma_find_shift_at(s, b, start, k + 1);
    }
}

/// The numbers of a comma-separated list, each at most `max`; `None` when an
/// item is not a number or exceeds `max`.
pub open spec fn list_of(s: Seq<u8>, max: nat) -> Option<Seq<nat>>
    decreases s.len(),
{
    let k = find_from(s, 44, 0);
    if k < 0 || k >= s.len() {
        match number_of(s) {
            Some(v) => if v <= max {
                Some(seq![v])
            } else {
                None
            },
            None => None,
        }
    } else {
        match (number_of(s.subrange(0, k)), list_of(s.subrange(k + 1, s.len() as int), max)) {
            (Some(v), Some(rest)) => if v <= max {
                Some(seq![v] + rest)
            } else {
                None
            },
            _ => None,
        }
    }
}

fn wide_blank(a: u8, b: u8, c: u8) -> (r: bool)
    ensures
        r == is_wide_blank(a, b, c),
{
    (a == 0xE1 && b == 0x9A && c == 0x80) || (a == 0xE2 && b == 0x80 && ((0x80 <= c && c <= 0x8A) || c == 0xA8
        || c == 0xA9 || c == 0xAF)) || (a == 0xE2 && b == 0x81 && c == 0x9F) || (a == 0xE3 && b == 0x80 && c
        == 0x80)
}

/// Bytes of the white-space character at the start of `s[a..b]`.
fn head_blank(s: &[u8], a: usize, b: usize) -> (r: usize)
    requires
        a <= b <= s@.len(),
    ensures
        r == blank_head(s@.subrange(a as int, b as int)),
{
    let ghost t = s@.subrange(a as int, b as int);
    let n = b - a;
    if n >= 1 && (s[a] == 32 || (9 <= s[a] && s[a] <= 13)) {
        1
    } else if n >= 2 && s[a] == 0xC2 && (s[a + 1] == 0x85 || s[a + 1] == 0xA0) {
        2
    } else if n >= 3 && wide_blank(s[a], s[a + 1], s[a + 2]) {
        3
    } else {
        proof {
            if n >= 3 {
                assert(t[0] == s@[a as int] && t[1] == s@[a + 1] && t[2] == s@[a + 2]);
            }
        }
        0
    }
}

/// Bytes of the white-space character at the end of `s[a..b]`.
fn tail_blank(s: &[u8], a: usize, b: usize) -> (r: usize)
    requires
        a <= b <= s@.len(),
    ensures
        r == blank_tail(s@.subrange(a as int, b as int)),
{
    let ghost t = s@.subrange(a as int, b as int);
    let n = b - a;
    if n >= 1 && (s[b - 1] == 32 || (9 <= s[b - 1] && s[b - 1] <= 13)) {
        1
    } else if n >= 2 && s[b - 2] == 0xC2 && (s[b - 1] == 0x85 || s[b - 1] == 0xA0) {
        2
    } else if n >= 3 && wide_blank(s[b - 3], s[b - 2], s[b - 1]) {
        3
    } else {
        proof {
            if n >= 3 {
                assert(t[n - 3] == s@[b - 3] && t[n - 2] == s@[b - 2] && t[n - 1] == s@[b - 1]);
            }
        }
        0
    }
}

/// Bounds of `s[lo..hi]` without its leading and trailing white space.
pub fn trim_span(s: &[u8], lo: usize, hi: usize) -> (r: (usize, usize))
    requires
        lo <= hi <= s@.len(),
    ensures
        lo <= r.0 <= r.1 <= hi,
        s@.subrange(r.0 as int, r.1 as int) == trim(s@.subrange(lo as int, hi as int)),
{
    let mut a = lo;
    loop
        invariant
            lo <= a <= hi <= s@.len(),
            trim_start(s@.subrange(lo as int, hi as int)) == trim_start(s@.subrange(a as int, hi as int)),
        ensures
            lo <= a <= hi,
            trim_start(s@.subrange(lo as int, hi as int)) == trim_start(s@.subrange(a as int, hi as int)),
            blank_head(s@.subrange(a as int, hi as int)) == 0,
        decreases hi - a,
    {
        let k = head_blank(s, a, hi);
        if k == 0 {
            break;
        }
        assert(s@.subrange(a as int, hi as int).subrange(k as int, (hi - a) as int) =~= s@.subrange(a + k, hi as int));
        a = a + k;
    }
    let mut b = hi;
    loop
        invariant
            lo <= a <= b <= hi <= s@.len(),
            trim_start(s@.subrange(lo as int, hi as int)) == s@.subrange(a as int, hi as int),
            trim_end(s@.subrange(a as int, hi as int)) == trim_end(s@.subrange(a as int, b as int)),
        ensures
            a <= b <= hi,
            trim_start(s@.subrange(lo as int, hi as int)) == s@.subrange(a as int, hi as int),
            trim_end(s@.subrange(a as int, hi as int)) == trim_end(s@.subrange(a as int, b as int)),
            blank_tail(s@.subrange(a as int, b as int)) == 0,
        decreases b - a,
    {
        let k = tail_blank(s, a, b);
        if k == 0 {
            break;
        }
        assert(s@.subrange(a as int, b as int).subrange(0, (b - a - k) as int) =~= s@.subrange(a as int, b - k));
        b = b - k;
    }
    (a, b)
}

proof fn lemma_decimal_grows(t: Seq<u8>, i: int)
    requires
        0 <= i <= t.len(),
        all_digits(t),
    ensures
        decimal(t) >= decimal(t.subrange(0, i)),
    decreases t.len(),
{
    if i < t.len() {
        assert(t.drop_last() =~= t.subrange(0, t.len() - 1));
        lemma_decimal_grows(t.drop_last(), i);
        assert(t.drop_last().subrange(0, i) =~= t.subrange(0, i));
    } else {
        assert(t.subrange(0, i) =~= t);
    }
}

/// The value of the digits `s[a..b]`; `None` when they are not one or
/// more digits, or exceed `u64::MAX`.
pub fn parse_digits(s: &[u8], a: usize, b: usize) -> (r: Option<u64>)
    requires
        a <= b <= s@.len(),
    ensures
        r matches Some(v) ==> digits_value(s@.subrange(a as int, b as int)) == Some(v as nat),
        r is None ==> digits_value(s@.subrange(a as int, b as int)) matches None
            || digits_value(s@.subrange(a as int, b as int)).unwrap() > u64::MAX,
{
    let ghost t = s@.subrange(a as int, b as int);
    if a == b {
        return None;
    }
    let mut v: u64 = 0;
    let mut i = a;
    while i < b
        invariant
            a <= i <= b <= s@.len(),
            a < b,
            t == s@.subrange(a as int, b as int),
            all_digits(s@.subrange(a as int, i as int)),
            v == decimal(s@.subrange(a as int, i as int)),
        decreases b - i,
    {
        let c = s[i];
        if c < 48 || c > 57 {
            proof {
                assert(t[i - a] == c);
                assert(!is_digit(t[i - a]));
                assert(!all_digits(t));
            }
            return None;
        }
        let w: u128 = v as u128 * 10 + (c - 48) as u128;
        assert(s@.subrange(a as int, i + 1).drop_last() =~= s@.subrange(a as int, i as int));
        if w > u64::MAX as u128 {
            proof {
                assert(decimal(s@.subrange(a as int, i + 1)) == w);
                if all_digits(t) {
                    lemma_decimal_grows(t, i + 1 - a);
                    assert(t.subrange(0, i + 1 - a) =~= s@.subrange(a as int, i + 1));
                }
            }
            return None;
        }
        v = w as u64;
        i += 1;
    }
    assert(s@.subrange(a as int, b as int) =~= t);
    Some(v)
}

/// An unsigned decimal spelled exactly by `s[a..b]` (an optional `+`, then
/// digits); `None` when it is not one or exceeds `u64::MAX`.
pub fn parse_unsigned(s: &[u8], a: usize, b: usize) -> (r: Option<u64>)
    requires
        a <= b <= s@.len(),
    ensures
        r matches Some(v) ==> unsigned_of(s@.subrange(a as int, b as int)) == Some(v as nat),
        r is None ==> unsigned_of(s@.subrange(a as int, b as int)) matches None
            || unsigned_of(s@.subrange(a as int, b as int)).unwrap() > u64::MAX,
{
    if a < b && s[a] == 43 {
        assert(s@.subrange(a as int, b as int).drop_first() =~= s@.subrange(a + 1, b as int));
        parse_digits(s, a + 1, b)
    } else {
        parse_digits(s, a, b)
    }
}

/// A signed decimal spelled exactly by `s[a..b]` (an optional `+` or `-`,
/// then digits); `None` when it is not one or lies outside `i64`.
pub fn parse_signed(s: &[u8], a: usize, b: usize) -> (r: Option<i64>)
    requires
        a <= b <= s@.len(),
    ensures
        r matches Some(v) ==> signed_value(s@.subrange(a as int, b as int)) == Some(v as int),
        r is None ==> signed_value(s@.subrange(a as int, b as int)) matches None || !(i64::MIN <= signed_value(
            s@.subrange(a as int, b as int),
        ).unwrap() <= i64::MAX),
{
    if a < b && s[a] == 45 {
        assert(s@.subrange(a as int, b as int).drop_first() =~= s@.subrange(a + 1, b as int));
        let v = match parse_digits(s, a + 1, b) {
            Some(v) => v,
            None => {
                return None;
            },
        };
        if v > 0x8000_0000_0000_0000u64 {
            return None;
        }
        if v == 0x8000_0000_0000_0000u64 {
            Some(i64::MIN)
        } else {
            Some(-(v as i64))
        }
    } else {
        let v = match parse_unsigned(s, a, b) {
            Some(v) => v,
            None => {
                return None;
            },
        };
        if v > i64::MAX as u64 {
            return None;
        }
        Some(v as i64)
    }
}

/// The number spelled by `s[lo..hi]`, white space around it allowed;
/// `None` when it is no number or exceeds `u64::MAX`.
pub fn parse_u64(s: &[u8], lo: usize, hi: usize) -> (r: Option<u64>)
    requires
        lo <= hi <= s@.len(),
    ensures
        r matches Some(v) ==> number_of(s@.subrange(lo as int, hi as int)) == Some(v as nat),
        r is None ==> number_of(s@.subrange(lo as int, hi as int)) matches None
            || number_of(s@.subrange(lo as int, hi as int)).unwrap() > u64::MAX,
{
    let (a, b) = trim_span(s, lo, hi);
    parse_unsigned(s, a, b)
}

/// Copy of `s[lo..hi]`.
pub fn copy_span(s: &[u8], lo: usize, hi: usize) -> (r: Vec<u8>)
    requires
        lo <= hi <= s@.len(),
    ensures
        r@ == s@.subrange(lo as int, hi as int),
{
    let mut r: Vec<u8> = Vec::new();
    let mut i = lo;
    while i < hi
        invariant
            lo <= i <= hi <= s@.len(),
            r@ == s@.subrange(lo as int, i as int),
        decreases hi - i,
    {
        r.push(s[i]);
        i += 1;
    }
    r
}

/// The numbers of the comma-separated list `s`, each at most `max`.
pub fn parse_list(s: &[u8], max: u64) -> (r: Option<Vec<u64>>)
    ensures
        r matches Some(v) ==> list_of(s@, max as nat) == Some(v@.map_values(|x: u64| x as nat)),
        r is None ==> list_of(s@, max as nat) is None,
{
    let mut out: Vec<u64> = Vec::new();
    let mut cur: usize = 0;
    proof {
        assert(s@.subrange(0, s@.len() as int) =~= s@);
        if let Some(all) = list_of(s@, max as nat) {
            assert(out@.map_values(|x: u64| x as nat) + all =~= all);
        }
    }
    loop
        invariant
            cur <= s@.len(),
            list_of(s@, max as nat) == match list_of(s@.subrange(cur as int, s@.len() as int), max as nat) {
                Some(rest) => Some(out@.map_values(|x: u64| x as nat) + rest),
                None => None::<Seq<nat>>,
            },
        decreases s@.len() - cur,
    {
        let ghost rest = s@.subrange(cur as int, s@.len() as int);
        let k = find_byte(s, 44, cur);
        proof {
            if cur < s@.len() {
                lemma_find_from_shift(s@, 44, cur as int);
            } else {
                assert(find_from(rest, 44, 0) == 0);
            }
            assert(rest.subrange(0, k - cur) =~= s@.subrange(cur as int, k as int));
        }
        let item = parse_u64(s, cur, k);
        match item {
            None => {
                return None;
            },
            Some(v) => {
                if v > max {
                    return None;
                }
                let ghost o0 = out@;
                out.push(v);
                proof {
                    assert(out@.map_values(|x: u64| x as nat) =~= o0.map_values(|x: u64| x as nat).push(v as nat));
                }
                if k >= s.len() {
                    proof {
                        assert(rest =~= s@.subrange(cur as int, k as int));
                        assert(o0.map_values(|x: u64| x as nat) + seq![v as nat] =~= out@.map_values(|x: u64| x as nat));
                    }
                    return Some(out);
                }
                proof {
                    assert(rest.subrange(k - cur + 1, rest.len() as int) =~= s@.subrange(k + 1, s@.len() as int));
                    let r2 = list_of(s@.subrange(k + 1, s@.len() as int), max as nat);
                    if let Some(tail) = r2 {
                        assert(o0.map_values(|x: u64| x as nat) + (seq![v as nat] + tail)
                            =~= out@.map_values(|x: u64| x as nat) + tail);
                    }
                }
                cur = k + 1;
            },
        }
    }
}

pub open spec fn grid_view(g: Seq<Vec<u8>>) -> Seq<Seq<u8>> {
    g.map_values(|row: Vec<u8>| row@)
}

/// The lines of `input` as rows of bytes.
pub fn read_grid(input: &str) -> (g: Vec<Vec<u8>>)
    ensures
        grid_view(g@) == lines_of(input.spec_bytes()),
{
    let s = input.as_bytes();
    let spans = line_spans(s);
    let mut g: Vec<Vec<u8>> = Vec::new();
    let mut i: usize = 0;
    while i < spans.len()
        invariant
            i <= spans.len(),
            s@ == input.spec_bytes(),
            spans.len() == lines_of(s@).len(),
            forall|q: int|
                0 <= q < spans.len() ==> (#[trigger] spans@[q]).0 <= spans@[q].1 <= s@.len()
                    && s@.subrange(spans@[q].0 as int, spans@[q].1 as int) == lines_of(s@)[q],
            grid_view(g@) == lines_of(s@).subrange(0, i as int),
        decreases spans.len() - i,
    {
        let (a, b) = spans[i];
        let row = copy_span(s, a, b);
        let ghost g0 = g@;
        g.push(row);
        assert(row@ == lines_of(s@)[i as int]);
        assert(grid_view(g@) =~= grid_view(g0).push(row@));
        assert(lines_of(s@).subrange(0, i + 1) =~= lines_of(s@).subrange(0, i as int).push(lines_of(s@)[i as int]));
        i += 1;
    }
    assert(lines_of(s@).subrange(0, i as int) =~= lines_of(s@));
    g
}

} // verus!
