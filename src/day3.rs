//! Battery banks: each line's digits, of which `k` are kept in order to
//! spell the largest number; sum that over the lines, for `k = 2` and
//! `k = 12`.

use vstd::prelude::*;
use vstd::string::StringSliceAdditionalSpecFns;
use crate::text::{lines_of, line_spans, is_digit};

verus! {

pub open spec fn pow10(k: nat) -> nat
    decreases k,
{
    if k == 0 {
        1
    } else {
        10 * pow10((k - 1) as nat)
    }
}

/// Largest number spelled by `k` digits of `d` kept in order; 0 when `d`
/// has fewer than `k` digits.
pub open spec fn best_of(d: Seq<u8>, k: nat) -> nat
    decreases d.len(),
{
    if k == 0 || d.len() < k {
        0
    } else {
        let skip = best_of(d.drop_first(), k);
        let take = d[0] as nat * pow10((k - 1) as nat) + best_of(d.drop_first(), (k - 1) as nat);
        if skip >= take {
            skip
        } else {
            take
        }
    }
}

/// The digit values of the digit characters of `s`, in order.
pub open spec fn digits_of(s: Seq<u8>) -> Seq<u8>
    decreases s.len(),
{
    if s.len() == 0 {
        seq![]
    } else if is_digit(s.last()) {
        digits_of(s.drop_last()).push((s.last() - 48) as u8)
    } else {
        digits_of(s.drop_last())
    }
}

/// Sum over the first `n` lines of the best `k`-digit number of each.
pub open spec fn joltage_total(lines: Seq<Seq<u8>>, k: nat, n: int) -> nat
    decreases n,
{
    if n <= 0 {
        0
    } else {
        joltage_total(lines, k, n - 1) + best_of(digits_of(lines[n - 1]), k)
    }
}

pub open spec fn small_digits(d: Seq<u8>) -> bool {
    forall|i: int| 0 <= i < d.len() ==> #[trigger] d[i] <= 9
}

proof fn lemma_best_bound(d: Seq<u8>, k: nat)
    requires
        small_digits(d),
    ensures
        best_of(d, k) < pow10(k),
    decreases d.len(),
{
    lemma_pow10_pos(k);
    if k > 0 && d.len() >= k {
        let t = d.drop_first();
        assert(small_digits(t));
        lemma_best_bound(t, k);
        lemma_best_bound(t, (k - 1) as nat);
        assert(d[0] <= 9);
        let p = pow10((k - 1) as nat);
        assert(d[0] as nat * p + best_of(t, (k - 1) as nat) < pow10(k)) by (nonlinear_arith)
            requires
                d[0] <= 9,
                best_of(t, (k - 1) as nat) < p,
                pow10(k) == 10 * p,
        ;
    }
}

proof fn lemma_pow10_pos(k: nat)
    ensures
        pow10(k) >= 1,
    decreases k,
{
    if k > 0 {
        lemma_pow10_pos((k - 1) as nat);
    }
}

proof fn lemma_pow10_38()
    ensures
        pow10(38) < 0x1_0000_0000_0000_0000_0000_0000_0000_0000,
{
    reveal_with_fuel(pow10, 39);
    assert(pow10(38) == 100000000000000000000000000000000000000);
}

proof fn lemma_pow10_mono(a: nat, b: nat)
    requires
        a <= b,
    ensures
        pow10(a) <= pow10(b),
    decreases b,
{
    if a < b {
        lemma_pow10_mono(a, (b - 1) as nat);
    }
}

proof fn lemma_digits_small(s: Seq<u8>)
    ensures
        small_digits(digits_of(s)),
    decreases s.len(),
{
    if s.len() > 0 {
        lemma_digits_small(s.drop_last());
    }
}

/// Largest number spelled by `k` of the digits, kept in order; 0 when there
/// are fewer than `k`.
pub fn max_subsequence_value(digits: &[u8], k: usize) -> (r: u128)
    requires
        small_digits(digits@),
        k <= 38,
    ensures
        r == best_of(digits@, k as nat),
{
    let n = digits.len();
    // row[j] == best_of(digits[i..], j) for the current suffix start i
    let mut row: Vec<u128> = Vec::new();
    let mut j: usize = 0;
    while j <= k
        invariant
            j <= k + 1,
            k <= 38,
            row.len() == j,
            forall|q: int| 0 <= q < j ==> row@[q] == 0,
        decreases k + 1 - j,
    {
        row.push(0);
        j += 1;
    }
    proof {
        assert forall|q: int| 0 <= q <= k implies row@[q] == best_of(digits@.subrange(n as int, n as int), q as nat) by {}
    }
    let mut i: usize = n;
    while i > 0
        invariant
            i <= n,
            n == digits@.len(),
            k <= 38,
            small_digits(digits@),
            row.len() == k + 1,
            forall|q: int|
                0 <= q <= k ==> #[trigger] row@[q] == best_of(digits@.subrange(i as int, n as int), q as nat),
        decreases i,
    {
        i -= 1;
        let ghost suffix = digits@.subrange(i as int, n as int);
        let ghost old_row = row@;
        proof {
            assert(suffix.drop_first() =~= digits@.subrange(i + 1, n as int));
            assert(small_digits(suffix));
            assert(small_digits(suffix.drop_first()));
            assert(suffix[0] == digits@[i as int]);
        }
        let dig = digits[i] as u128;
        // update from the top so that row[j - 1] still holds the old suffix
        let mut j: usize = k;
        let mut p: u128 = 1;
        let mut q: usize = 0;
        while q + 1 < k
            invariant
                q < k || k == 0,
                q <= 38,
                k <= 38,
                p == pow10(q as nat),
            decreases k - q,
        {
            proof {
                lemma_pow10_mono((q + 1) as nat, 38);
                lemma_pow10_38();
            }
            p = p * 10;
            q += 1;
        }
        while j > 0
            invariant
                j <= k,
                k <= 38,
                row.len() == k + 1,
                i < n,
                n == digits@.len(),
                suffix == digits@.subrange(i as int, n as int),
                suffix.len() == n - i,
                dig <= 9,
                small_digits(suffix.drop_first()),
                suffix.drop_first() == digits@.subrange(i + 1, n as int),
                suffix[0] == dig,
                j >= 1 ==> p == pow10((j - 1) as nat),
                forall|t: int| 0 <= t <= j ==> #[trigger] row@[t] == old_row[t],
                forall|t: int| j < t <= k ==> #[trigger] row@[t] == best_of(suffix, t as nat),
                forall|t: int| 0 <= t <= k ==> #[trigger] old_row[t] == best_of(suffix.drop_first(), t as nat),
            decreases j,
        {
            let skip = row[j];
            let prev = row[j - 1];
            proof {
                lemma_best_bound(suffix.drop_first(), (j - 1) as nat);
                assert(dig * p + prev < pow10(j as nat)) by (nonlinear_arith)
                    requires
                        dig <= 9,
                        prev < p,
                        pow10(j as nat) == 10 * p,
                ;
                lemma_pow10_mono(j as nat, 38);
                lemma_pow10_38();
            }
            let take = dig * p + prev;
            let best = if n - i < j {
                0
            } else if skip >= take {
                skip
            } else {
                take
            };
            row.set(j, best);
            if j > 1 {
                proof {
                    assert(pow10((j - 1) as nat) == 10 * pow10((j - 2) as nat));
                    assert((10 * pow10((j - 2) as nat)) / 10 == pow10((j - 2) as nat)) by (nonlinear_arith);
                }
                p = p / 10;
            }
            j -= 1;
        }
        proof {
            assert(best_of(suffix, 0) == 0);
        }
    }
    assert(digits@.subrange(0, n as int) =~= digits@);
    row[k]
}

/// Digit values of the digit characters of `s[a..b]`.
fn digit_values(s: &[u8], a: usize, b: usize) -> (r: Vec<u8>)
    requires
        a <= b <= s@.len(),
    ensures
        r@ == digits_of(s@.subrange(a as int, b as int)),
{
    let mut r: Vec<u8> = Vec::new();
    let mut i = a;
    while i < b
        invariant
            a <= i <= b <= s@.len(),
            r@ == digits_of(s@.subrange(a as int, i as int)),
        decreases b - i,
    {
        assert(s@.subrange(a as int, i + 1).drop_last() =~= s@.subrange(a as int, i as int));
        let c = s[i];
        if 48 <= c && c <= 57 {
            r.push(c - 48);
        }
        i += 1;
    }
    r
}

/// Sum over the lines of `input` of the best `k`-digit number of each.
fn bank_total(input: &str, k: usize) -> (r: u128)
    requires
        k <= 38,
        joltage_total(lines_of(input.spec_bytes()), k as nat, lines_of(input.spec_bytes()).len() as int)
            <= u128::MAX,
    ensures
        r == joltage_total(lines_of(input.spec_bytes()), k as nat, lines_of(input.spec_bytes()).len() as int),
{
    let s = input.as_bytes();
    let spans = line_spans(s);
    let ghost lines = lines_of(s@);
    let mut total: u128 = 0;
    let mut i: usize = 0;
    while i < spans.len()
        invariant
            i <= spans.len(),
            k <= 38,
            spans.len() == lines.len(),
            lines == lines_of(s@),
            s@ == input.spec_bytes(),
            joltage_total(lines, k as nat, lines.len() as int) <= u128::MAX,
            forall|q: int|
                0 <= q < spans.len() ==> (#[trigger] spans@[q]).0 <= spans@[q].1 <= s@.len()
                    && s@.subrange(spans@[q].0 as int, spans@[q].1 as int) == lines_of(s@)[q],
            total == joltage_total(lines, k as nat, i as int),
        decreases spans.len() - i,
    {
        let (a, b) = spans[i];
        let d = digit_values(s, a, b);
        proof {
            lemma_digits_small(s@.subrange(a as int, b as int));
            lemma_total_grows(lines, k as nat, i + 1, lines.len() as int);
        }
        let v = max_subsequence_value(d.as_slice(), k);
        total = total + v;
        i += 1;
    }
    total
}

proof fn lemma_total_grows(lines: Seq<Seq<u8>>, k: nat, n: int, m: int)
    requires
        0 <= n <= m,
    ensures
        joltage_total(lines, k, n) <= joltage_total(lines, k, m),
    decreases m - n,
{
    if m > n {
        lemma_total_grows(lines, k, n, m - 1);
    }
}

/// Sum over the lines of the largest two-digit number each line's digits
/// spell in order.
pub fn solve(input: &str) -> (r: u64)
    requires
        joltage_total(lines_of(input.spec_bytes()), 2, lines_of(input.spec_bytes()).len() as int) <= u64::MAX,
    ensures
        r == joltage_total(lines_of(input.spec_bytes()), 2, lines_of(input.spec_bytes()).len() as int),
{
    bank_total(input, 2) as u64
}

/// Sum over the lines of the largest twelve-digit number each line's digits
/// spell in order.
pub fn solve_part2(input: &str) -> (r: u128)
    requires
        joltage_total(lines_of(input.spec_bytes()), 12, lines_of(input.spec_bytes()).len() as int)
            <= u128::MAX,
    ensures
        r == joltage_total(lines_of(input.spec_bytes()), 12, lines_of(input.spec_bytes()).len() as int),
{
    bank_total(input, 12)
}

} // verus!
