//! Exact minimum-total solver for accumulation machines: depth-first
//! branch and bound over the buttons in order, under an optional deadline.

use vstd::prelude::*;
use std::time::Instant;
use super::machine::{Machine, buttons_of, lists, touches, counter_sum, counters_match, total};

verus! {

#[verifier::external_type_specification]
#[verifier::external_body]
pub struct ExInstant(std::time::Instant);

/// Relies on std::time::Instant::now, compared with the deadline: whether the
/// clock has reached `deadline`. Nothing is promised of the answer.
#[verifier::external_body]
fn deadline_passed(deadline: &Instant) -> (r: bool) {
    Instant::now() >= *deadline
}

/// Why an accumulation machine got no minimum.
#[derive(Debug, Clone, Copy, PartialEq, Eq)]
pub enum SolveError {
    /// No nonnegative press counts reach the counters exactly.
    Unsolvable,
    /// The deadline passed before the search proved an answer.
    Timeout,
}

pub open spec fn as_ints(x: Seq<u64>) -> Seq<int> {
    x.map_values(|v: u64| v as int)
}

/// `m` is the least total over all press counts that reach `joltage`.
pub open spec fn is_fewest_total(buttons: Seq<Seq<nat>>, joltage: Seq<u64>, m: int) -> bool {
    &&& exists|x: Seq<int>| counters_match(buttons, joltage, x) && total(x, x.len() as int) == m
    &&& forall|x: Seq<int>| counters_match(buttons, joltage, x) ==> m <= total(x, x.len() as int)
}

pub open spec fn solvable(buttons: Seq<Seq<nat>>, joltage: Seq<u64>) -> bool {
    exists|x: Seq<int>| counters_match(buttons, joltage, x)
}

proof fn lemma_sum_prefix(bs: Seq<Seq<nat>>, z: Seq<int>, x: Seq<int>, c: int, n: int)
    requires
        forall|j: int| 0 <= j < n ==> z[j] == x[j],
    ensures
        counter_sum(bs, z, c, n) == counter_sum(bs, x, c, n),
    decreases n,
{
    if n > 0 {
        lemma_sum_prefix(bs, z, x, c, n - 1);
    }
}

proof fn lemma_sum_mono(bs: Seq<Seq<nat>>, z: Seq<int>, c: int, n: int, m: int)
    requires
        0 <= n <= m,
        forall|j: int| n <= j < m ==> z[j] >= 0,
    ensures
        counter_sum(bs, z, c, m) >= counter_sum(bs, z, c, n),
    decreases m - n,
{
    if m > n {
        lemma_sum_mono(bs, z, c, n, m - 1);
    }
}

proof fn lemma_sum_untouched(bs: Seq<Seq<nat>>, z: Seq<int>, i: int, v: int, c: int, n: int)
    requires
        0 <= i < z.len(),
        n <= z.len(),
        !touches(bs, i, c),
    ensures
        counter_sum(bs, z.update(i, v), c, n) == counter_sum(bs, z, c, n),
    decreases n,
{
    if n > 0 {
        lemma_sum_untouched(bs, z, i, v, c, n - 1);

    }
}

proof fn lemma_total_prefix(z: Seq<int>, x: Seq<int>, n: int)
    requires
        forall|j: int| 0 <= j < n ==> z[j] == x[j],
    ensures
        total(z, n) == total(x, n),
    decreases n,
{
    if n > 0 {
        lemma_total_prefix(z, x, n - 1);
    }
}

proof fn lemma_total_mono(z: Seq<int>, n: int, m: int)
    requires
        0 <= n <= m,
        forall|j: int| n <= j < m ==> z[j] >= 0,
    ensures
        total(z, m) >= total(z, n),
    decreases m - n,
{
    if m > n {
        lemma_total_mono(z, n, m - 1);
    }
}

proof fn lemma_total_update(z: Seq<int>, i: int, v: int, n: int)
    requires
        0 <= i < n <= z.len(),
    ensures
        total(z.update(i, v), n) == total(z, n) - z[i] + v,
    decreases n,
{
    if n - 1 > i {
        lemma_total_update(z, i, v, n - 1);
    } else {
        lemma_total_prefix(z.update(i, v), z, n - 1);
    }
}

/// `inc[b][c]`: whether button `b` touches counter `c`, for `c < nc`.
fn touch_table(buttons: &Vec<Vec<usize>>, nc: usize) -> (inc: Vec<Vec<bool>>)
    ensures
        inc.len() == buttons.len(),
        forall|b: int| 0 <= b < inc.len() ==> (#[trigger] inc@[b]).len() == nc,
        forall|b: int, c: int|
            #![trigger inc@[b]@[c]]
            0 <= b < inc.len() && 0 <= c < nc ==> inc@[b]@[c] == buttons_of(buttons@)[b].contains(c as nat),
{
    let mut inc: Vec<Vec<bool>> = Vec::new();
    let mut b: usize = 0;
    while b < buttons.len()
        invariant
            b <= buttons.len(),
            inc.len() == b,
            forall|q: int| 0 <= q < b ==> (#[trigger] inc@[q]).len() == nc,
            forall|q: int, c: int|
                #![trigger inc@[q]@[c]]
                0 <= q < b && 0 <= c < nc ==> inc@[q]@[c] == buttons_of(buttons@)[q].contains(c as nat),
        decreases buttons.len() - b,
    {
        let mut row: Vec<bool> = Vec::new();
        let mut c: usize = 0;
        while c < nc
            invariant
                c <= nc,
                b < buttons.len(),
                row.len() == c,
                forall|k: int| 0 <= k < c ==> row@[k] == buttons_of(buttons@)[b as int].contains(k as nat),
            decreases nc - c,
        {
            row.push(lists(&buttons[b], c));
            c += 1;
        }
        inc.push(row);
        b += 1;
    }
    inc
}

/// Adds `v` presses of one button to the counters it touches.
fn add_presses(row: &Vec<bool>, sums: &mut Vec<u64>, joltage: &Vec<u64>, v: u64)
    requires
        row.len() == old(sums).len(),
        joltage.len() == old(sums).len(),
        forall|k: int| 0 <= k < row.len() && #[trigger] row@[k] ==> old(sums)@[k] + v <= joltage@[k],
    ensures
        final(sums).len() == old(sums).len(),
        forall|k: int|
            0 <= k < row.len() ==> #[trigger] final(sums)@[k] == old(sums)@[k] + if row@[k] {
                v
            } else {
                0
            },
{
    let ghost s0 = sums@;
    let mut c: usize = 0;
    while c < row.len()
        invariant
            c <= row.len(),
            row.len() == sums.len(),
            s0.len() == sums.len(),
            joltage.len() == sums.len(),
            forall|k: int| 0 <= k < row.len() && #[trigger] row@[k] ==> s0[k] + v <= joltage@[k],
            forall|k: int|
                0 <= k < c ==> #[trigger] sums@[k] == s0[k] + if row@[k] {
                    v
                } else {
                    0
                },
            forall|k: int| c <= k < row.len() ==> #[trigger] sums@[k] == s0[k],
        decreases row.len() - c,
    {
        if row[c] {
            let t = sums[c] + v;
            sums.set(c, t);
        }
        c += 1;
    }
}

/// Takes back `v` presses of one button from the counters it touches.
fn remove_presses(row: &Vec<bool>, sums: &mut Vec<u64>, v: u64)
    requires
        row.len() == old(sums).len(),
        forall|k: int| 0 <= k < row.len() && #[trigger] row@[k] ==> old(sums)@[k] >= v,
    ensures
        final(sums).len() == old(sums).len(),
        forall|k: int|
            0 <= k < row.len() ==> #[trigger] final(sums)@[k] == old(sums)@[k] - if row@[k] {
                v
            } else {
                0
            },
{
    let ghost s0 = sums@;
    let mut c: usize = 0;
    while c < row.len()
        invariant
            c <= row.len(),
            row.len() == sums.len(),
            s0.len() == sums.len(),
            forall|k: int| 0 <= k < row.len() && #[trigger] row@[k] ==> s0[k] >= v,
            forall|k: int|
                0 <= k < c ==> #[trigger] sums@[k] == s0[k] - if row@[k] {
                    v
                } else {
                    0
                },
            forall|k: int| c <= k < row.len() ==> #[trigger] sums@[k] == s0[k],
        decreases row.len() - c,
    {
        if row[c] {
            let t = sums[c] - v;
            sums.set(c, t);
        }
        c += 1;
    }
}

/// A cap for button `b`: at least the joltage of some counter it touches,
/// so no solution presses it more often.
pub open spec fn cap_sound(bs: Seq<Seq<nat>>, joltage: Seq<u64>, caps: Seq<u64>, b: int) -> bool {
    (exists|k: int| 0 <= k < joltage.len() && touches(bs, b, k)) ==> exists|k: int|
        0 <= k < joltage.len() && touches(bs, b, k) && caps[b] >= joltage[k]
}

/// Sum of the caps of the buttons in `from..to` that touch counter `c`.
pub open spec fn tail_caps(bs: Seq<Seq<nat>>, caps: Seq<u64>, c: int, from: int, to: int) -> int
    decreases to - from,
{
    if to <= from {
        0
    } else {
        tail_caps(bs, caps, c, from, to - 1) + if touches(bs, to - 1, c) {
            caps[to - 1] as int
        } else {
            0
        }
    }
}

/// A solution presses each button no more than the joltage of any counter
/// the button touches.
proof fn lemma_press_below_joltage(bs: Seq<Seq<nat>>, joltage: Seq<u64>, z: Seq<int>, b: int, k: int)
    requires
        counters_match(bs, joltage, z),
        0 <= b < z.len(),
        0 <= k < joltage.len(),
        touches(bs, b, k),
    ensures
        z[b] <= joltage[k],
{
    lemma_sum_mono(bs, z, k, 0, b);
    lemma_sum_mono(bs, z, k, b + 1, z.len() as int);
    assert(counter_sum(bs, z, k, bs.len() as int) == joltage[k] as int);
}

/// What the buttons in `from..to` add to counter `c` is at most their caps.
proof fn lemma_tail_bound(bs: Seq<Seq<nat>>, joltage: Seq<u64>, caps: Seq<u64>, z: Seq<int>, c: int, from: int, to: int)
    requires
        counters_match(bs, joltage, z),
        0 <= from <= to <= z.len(),
        forall|b: int| 0 <= b < z.len() ==> #[trigger] cap_sound(bs, joltage, caps, b),
        0 <= c < joltage.len(),
    ensures
        counter_sum(bs, z, c, to) - counter_sum(bs, z, c, from) <= tail_caps(bs, caps, c, from, to),
    decreases to - from,
{
    if to > from {
        lemma_tail_bound(bs, joltage, caps, z, c, from, to - 1);
        if touches(bs, to - 1, c) {
            assert(cap_sound(bs, joltage, caps, to - 1));
            let k = choose|k: int| 0 <= k < joltage.len() && touches(bs, to - 1, k) && caps[to - 1] >= joltage[k];
            lemma_press_below_joltage(bs, joltage, z, to - 1, k);
        }
    }
}

/// A best total, if there is one, is the total of the solution `best_x`.
pub open spec fn best_is_witnessed(
    bs: Seq<Seq<nat>>,
    joltage: Seq<u64>,
    best: Option<u128>,
    best_x: Seq<u64>,
) -> bool {
    best matches Some(v) ==> counters_match(bs, joltage, as_ints(best_x)) && total(
        as_ints(best_x),
        best_x.len() as int,
    ) == v
}

fn copy_counts(v: &Vec<u64>) -> (r: Vec<u64>)
    ensures
        r@ == v@,
{
    let mut r: Vec<u64> = Vec::new();
    let mut j: usize = 0;
    while j < v.len()
        invariant
            j <= v.len(),
            r@ == v@.subrange(0, j as int),
        decreases v.len() - j,
    {
        r.push(v[j]);
        j += 1;
    }
    assert(r@ =~= v@);
    r
}

/// `new` is present and no larger than `old`, wherever `old` is present.
pub open spec fn no_worse(new: Option<u128>, old: Option<u128>) -> bool {
    old matches Some(w) ==> (new matches Some(v) && v <= w)
}

/// `best` is at most the total of `z`.
pub open spec fn bounded_by(best: Option<u128>, z: Seq<int>) -> bool {
    best matches Some(v) && v <= total(z, z.len() as int)
}

/// Depth-first search that assigns button `i`, then the later ones.
///
/// `sums` holds the counters reached by the presses `x[0..i]`, `cur` their
/// total. Returns `false` when the deadline cut the search short; otherwise
/// every solution that extends `x[0..i]` has a total of at least `best`.
fn search(
    Ghost(bs): Ghost<Seq<Seq<nat>>>,
    inc: &Vec<Vec<bool>>,
    joltage: &Vec<u64>,
    i: usize,
    x: &mut Vec<u64>,
    sums: &mut Vec<u64>,
    cur: u128,
    best: &mut Option<u128>,
    best_x: &mut Vec<u64>,
    caps: &Vec<u64>,
    rest: &Vec<Vec<u128>>,
    deadline: &Option<Instant>,
) -> (done: bool)
    requires
        inc.len() == old(x).len() == bs.len(),
        caps.len() == bs.len(),
        rest.len() == bs.len() + 1,
        forall|b: int| 0 <= b < bs.len() ==> #[trigger] cap_sound(bs, joltage@, caps@, b),
        forall|q: int| 0 <= q <= bs.len() ==> (#[trigger] rest@[q]).len() == joltage.len(),
        forall|q: int, c: int|
            #![trigger rest@[q]@[c]]
            0 <= q <= bs.len() && 0 <= c < joltage.len() ==> rest@[q]@[c] == tail_caps(
                bs,
                caps@,
                c,
                q,
                bs.len() as int,
            ),
        i <= bs.len(),
        forall|b: int| 0 <= b < inc.len() ==> (#[trigger] inc@[b]).len() == joltage.len(),
        forall|b: int, c: int|
            #![trigger inc@[b]@[c]]
            0 <= b < inc.len() && 0 <= c < joltage.len() ==> inc@[b]@[c] == touches(bs, b, c),
        old(sums).len() == joltage.len(),
        forall|c: int|
            0 <= c < joltage.len() ==> old(sums)@[c] == counter_sum(
                bs,
                as_ints(old(x)@),
                c,
                i as int,
            ) && #[trigger] old(sums)@[c] <= joltage@[c],
        cur == total(as_ints(old(x)@), i as int),
        cur <= i * (u64::MAX as int),
        best_is_witnessed(bs, joltage@, *old(best), old(best_x)@),
    ensures
        final(x)@ == old(x)@,
        final(sums)@ == old(sums)@,
        best_is_witnessed(bs, joltage@, *final(best), final(best_x)@),
        no_worse(*final(best), *old(best)),
        done ==> forall|z: Seq<int>|
            counters_match(bs, joltage@, z) && (forall|j: int|
                0 <= j < i ==> z[j] == old(x)@[j] as int) ==> #[trigger] bounded_by(*final(best), z),
        deadline is None ==> done,
    decreases bs.len() - i,
{
    let nb = inc.len();
    let nc = joltage.len();
    if let Some(d) = deadline {
        if deadline_passed(d) {
            return false;
        }
    }
    let ghost xi = as_ints(x@);
    assert(xi.len() == x@.len());
    assert(forall|j: int| 0 <= j < x@.len() ==> #[trigger] xi[j] == x@[j] as int);
    if let Some(b) = *best {
        if cur >= b {
            proof {
                assert forall|z: Seq<int>|
                    counters_match(bs, joltage@, z) && (forall|j: int|
                        0 <= j < i ==> z[j] == x@[j] as int) implies #[trigger] bounded_by(*best, z) by {
                    lemma_total_prefix(z, xi, i as int);
                    lemma_total_mono(z, i as int, nb as int);
                }
            }
            return true;
        }
    }
    if i == nb {
        let mut c: usize = 0;
        while c < nc
            invariant
                c <= nc,
                nc == joltage.len(),
                sums.len() == nc,
                forall|k: int| 0 <= k < c ==> sums@[k] == joltage@[k],
                best_is_witnessed(bs, joltage@, *best, best_x@),
                i == nb,
                nb == x.len(),
                nb == bs.len(),
                xi == as_ints(x@),
                xi.len() == x@.len(),
                forall|j: int| 0 <= j < x@.len() ==> #[trigger] xi[j] == x@[j] as int,
                forall|k: int|
                    0 <= k < nc ==> #[trigger] sums@[k] == counter_sum(bs, xi, k, i as int),
            decreases nc - c,
        {
            if sums[c] != joltage[c] {
                proof {
                    assert forall|z: Seq<int>|
                        counters_match(bs, joltage@, z) && (forall|j: int|
                            0 <= j < i ==> z[j] == x@[j] as int) implies #[trigger] bounded_by(*best, z) by {
                        assert forall|j: int| 0 <= j < nb implies z[j] == xi[j] by {
                            assert(z[j] == x@[j] as int);
                        }
                        lemma_sum_prefix(bs, z, xi, c as int, nb as int);
                        assert(counter_sum(bs, z, c as int, bs.len() as int) == joltage@[c as int]);
                    }
                }
                return true;
            }
            c += 1;
        }
        proof {
            assert(counters_match(bs, joltage@, xi)) by {
                assert forall|k: int| 0 <= k < joltage.len() implies #[trigger] counter_sum(bs, xi, k, bs.len() as int)
                    == joltage@[k] as int by {
                    assert(sums@[k] == joltage@[k]);
                }
            }
            assert forall|z: Seq<int>|
                counters_match(bs, joltage@, z) && (forall|j: int|
                    0 <= j < i ==> z[j] == x@[j] as int) implies total(z, z.len() as int) == cur by {
                lemma_total_prefix(z, xi, i as int);
            }
        }
        *best_x = copy_counts(x);
        *best = Some(cur);
        return true;
    }
    // The largest count for button `i`: the least slack over its counters.
    let mut hi: u128 = 0;
    let mut touched = false;
    let mut c: usize = 0;
    while c < nc
        invariant
            c <= nc,
            nc == joltage.len(),
            i < nb,
            nb == inc.len(),
            sums.len() == nc,
            forall|b: int| 0 <= b < inc.len() ==> (#[trigger] inc@[b]).len() == joltage.len(),
            forall|k: int| 0 <= k < nc ==> #[trigger] sums@[k] <= joltage@[k],
            touched == exists|k: int| 0 <= k < c && inc@[i as int]@[k],
            !touched ==> hi == 0,
            touched ==> hi <= u64::MAX,
            touched ==> exists|k: int| 0 <= k < c && inc@[i as int]@[k] && hi == joltage@[k] - sums@[k],
            forall|k: int| 0 <= k < c && inc@[i as int]@[k] ==> hi <= joltage@[k] - sums@[k],
        decreases nc - c,
    {
        if inc[i][c] {
            let slack = (joltage[c] - sums[c]) as u128;
            if !touched || slack < hi {
                hi = slack;
            }
            touched = true;
        }
        c += 1;
    }
    let ghost x0 = x@;
    let ghost s0 = sums@;
    let ghost b0 = *best;
    let ghost hk: int = if touched {
        choose|k: int| 0 <= k < nc && inc@[i as int]@[k] && hi == joltage@[k] - sums@[k]
    } else {
        0
    };
    // The fewest presses for button `i`: a counter it touches must still be
    // reachable when every later button takes its cap.
    let mut lo: u128 = 0;
    let ghost mut lk: int = 0;
    let mut c: usize = 0;
    while c < nc
        invariant
            c <= nc,
            nc == joltage.len(),
            i < nb,
            nb == inc.len(),
            rest.len() == nb + 1,
            sums.len() == nc,
            forall|b: int| 0 <= b < inc.len() ==> (#[trigger] inc@[b]).len() == joltage.len(),
            forall|q: int| 0 <= q <= nb ==> (#[trigger] rest@[q]).len() == joltage.len(),
            forall|k: int| 0 <= k < nc ==> #[trigger] sums@[k] <= joltage@[k],
            lo > 0 ==> 0 <= lk < nc && inc@[i as int]@[lk] && lo == joltage@[lk] - sums@[lk] - rest@[i + 1]@[lk],
        decreases nc - c,
    {
        if inc[i][c] {
            let need = (joltage[c] - sums[c]) as u128;
            let more = rest[i + 1][c];
            if need > more && need - more > lo {
                lo = need - more;
                proof {
                    lk = c as int;
                }
            }
        }
        c += 1;
    }
    proof {
        assert forall|z: Seq<int>|
            counters_match(bs, joltage@, z) && (forall|j: int| 0 <= j < i ==> z[j] == xi[j]) implies z[i as int]
                >= lo by {
            if lo > 0 {
                lemma_sum_prefix(bs, z, xi, lk, i as int);
                lemma_tail_bound(bs, joltage@, caps@, z, lk, i + 1, nb as int);
                assert(counter_sum(bs, z, lk, bs.len() as int) == joltage@[lk] as int);
                assert(inc@[i as int]@[lk] == touches(bs, i as int, lk));
                assert(rest@[i + 1]@[lk] == tail_caps(bs, caps@, lk, i + 1, nb as int));
            }
        }
    }
    let mut v: u128 = if lo <= hi {
        lo
    } else {
        hi + 1
    };
    let mut stop = false;
    while v <= hi && !stop
        invariant
            nb == inc.len(),
            caps.len() == bs.len(),
            rest.len() == bs.len() + 1,
            forall|b: int| 0 <= b < bs.len() ==> #[trigger] cap_sound(bs, joltage@, caps@, b),
            forall|q: int| 0 <= q <= bs.len() ==> (#[trigger] rest@[q]).len() == joltage.len(),
            forall|q: int, k: int|
                #![trigger rest@[q]@[k]]
                0 <= q <= bs.len() && 0 <= k < joltage.len() ==> rest@[q]@[k] == tail_caps(
                    bs,
                    caps@,
                    k,
                    q,
                    bs.len() as int,
                ),
            nc == joltage.len(),
            i < nb,
            x@ == x0,
            sums@ == s0,
            xi == as_ints(x0),
            hi <= u64::MAX,
            v <= hi + 1,
            inc.len() == x0.len() == bs.len(),
            forall|b: int| 0 <= b < inc.len() ==> (#[trigger] inc@[b]).len() == joltage.len(),
            forall|b: int, k: int|
                #![trigger inc@[b]@[k]]
                0 <= b < inc.len() && 0 <= k < joltage.len() ==> inc@[b]@[k] == touches(bs, b, k),
            s0.len() == nc,
            forall|k: int|
                0 <= k < nc ==> s0[k] == counter_sum(bs, xi, k, i as int) && #[trigger] s0[k]
                    <= joltage@[k],
            forall|k: int| 0 <= k < nc && inc@[i as int]@[k] ==> hi <= joltage@[k] - s0[k],
            touched ==> 0 <= hk < nc && inc@[i as int]@[hk] && hi == joltage@[hk] - s0[hk],
            !touched ==> hi == 0,
            !touched ==> forall|k: int| 0 <= k < nc ==> !inc@[i as int]@[k],
            cur == total(xi, i as int),
            cur <= i * (u64::MAX as int),
            best_is_witnessed(bs, joltage@, *best, best_x@),
            x0 == old(x)@,
            s0 == old(sums)@,
            b0 == *old(best),
            no_worse(*best, b0),
            stop ==> (*best matches Some(w) && cur + v >= w),
            forall|z: Seq<int>|
                counters_match(bs, joltage@, z) && (forall|j: int| 0 <= j < i ==> z[j] == xi[j])
                    && z[i as int] < v ==> #[trigger] bounded_by(*best, z),
        decreases hi + 1 - v + if stop {
            0int
        } else {
            1int
        },
    {
        if let Some(w) = *best {
            if cur + v >= w {
                stop = true;
            }
        }
        if !stop {
            let vv = v as u64;
            let prev = x[i];
            x.set(i, vv);
            add_presses(&inc[i], sums, joltage, vv);
            let ghost x1 = x@;
            let ghost s1 = sums@;
            let ghost bb = *best;
            proof {
                let xi1 = as_ints(x1);
                assert(xi1 =~= xi.update(i as int, v as int));
                lemma_total_prefix(xi1, xi, i as int);
                assert forall|k: int| 0 <= k < nc implies s1[k] == counter_sum(bs, xi1, k, i + 1)
                    && #[trigger] s1[k] <= joltage@[k] by {
                    lemma_sum_prefix(bs, xi1, xi, k, i as int);
                    assert(inc@[i as int]@[k] == touches(bs, i as int, k));
                }
                assert(cur + v <= (i + 1) * (u64::MAX as int)) by (nonlinear_arith)
                    requires
                        cur <= i * (u64::MAX as int),
                        v <= u64::MAX,
                ;
                assert(best_is_witnessed(bs, joltage@, *best, best_x@));
            }
            let done = search(Ghost(bs), inc, joltage, i + 1, x, sums, cur + v, best, best_x, caps, rest, deadline);
            remove_presses(&inc[i], sums, vv);
            x.set(i, prev);
            proof {
                assert(sums@ =~= s0);
                assert(x@ =~= x0);

            }
            if !done {
                return false;
            }
            proof {
                assert forall|z: Seq<int>|
                    counters_match(bs, joltage@, z) && (forall|j: int| 0 <= j < i ==> z[j] == xi[j])
                        && z[i as int] < v + 1 implies #[trigger] bounded_by(*best, z) by {
                    if z[i as int] == v {
                        assert forall|j: int| 0 <= j < i + 1 implies z[j] == x1[j] as int by {
                            if j < i {
                                assert(z[j] == xi[j]);
                            }
                        }
                    } else {
                        assert(bounded_by(bb, z));
                    }
                }
            }
            v += 1;
        }
    }
    proof {
        assert forall|z: Seq<int>|
            counters_match(bs, joltage@, z) && (forall|j: int| 0 <= j < i ==> z[j] == x@[j] as int)
                implies #[trigger] bounded_by(*best, z) by {
            assert forall|j: int| 0 <= j < i implies z[j] == xi[j] by {
                assert(z[j] == x@[j] as int);
            }
            if z[i as int] >= v {
                if stop {
                    lemma_total_prefix(z, xi, i as int);
                    lemma_total_mono(z, i + 1, nb as int);
                } else if touched {
                    lemma_sum_prefix(bs, z, xi, hk, i as int);
                    lemma_sum_mono(bs, z, hk, i + 1, nb as int);
                    assert(counter_sum(bs, z, hk, bs.len() as int) == joltage@[hk] as int);
                    assert(inc@[i as int]@[hk] == touches(bs, i as int, hk));
                } else {
                    let z0 = z.update(i as int, 0);
                    assert forall|k: int| 0 <= k < joltage.len() implies #[trigger] counter_sum(
                        bs,
                        z0,
                        k,
                        bs.len() as int,
                    ) == joltage@[k] as int by {
                        assert(!inc@[i as int]@[k]);
                        lemma_sum_untouched(bs, z, i as int, 0, k, bs.len() as int);
                        assert(counter_sum(bs, z, k, bs.len() as int) == joltage@[k] as int);
                    }
                    assert(counters_match(bs, joltage@, z0));
                    lemma_total_update(z, i as int, 0, z.len() as int);
                    assert(bounded_by(*best, z0));
                }
            }
        }
    }
    true
}

/// For each button, the least joltage among the counters it touches (0 for
/// a button that touches none).
fn button_caps(Ghost(bs): Ghost<Seq<Seq<nat>>>, inc: &Vec<Vec<bool>>, joltage: &Vec<u64>) -> (caps: Vec<u64>)
    requires
        inc.len() == bs.len(),
        forall|b: int| 0 <= b < inc.len() ==> (#[trigger] inc@[b]).len() == joltage.len(),
        forall|b: int, c: int|
            #![trigger inc@[b]@[c]]
            0 <= b < inc.len() && 0 <= c < joltage.len() ==> inc@[b]@[c] == touches(bs, b, c),
    ensures
        caps.len() == bs.len(),
        forall|b: int| 0 <= b < bs.len() ==> #[trigger] cap_sound(bs, joltage@, caps@, b),
{
    let mut caps: Vec<u64> = Vec::new();
    let mut b: usize = 0;
    while b < inc.len()
        invariant
            b <= inc.len(),
            inc.len() == bs.len(),
            caps.len() == b,
            forall|q: int| 0 <= q < inc.len() ==> (#[trigger] inc@[q]).len() == joltage.len(),
            forall|q: int, c: int|
                #![trigger inc@[q]@[c]]
                0 <= q < inc.len() && 0 <= c < joltage.len() ==> inc@[q]@[c] == touches(bs, q, c),
            forall|q: int| 0 <= q < b ==> #[trigger] cap_sound(bs, joltage@, caps@, q),
        decreases inc.len() - b,
    {
        let mut cap: u64 = 0;
        let mut found = false;
        let ghost mut ck: int = 0;
        let mut c: usize = 0;
        while c < joltage.len()
            invariant
                c <= joltage.len(),
                b < inc.len(),
                forall|q: int| 0 <= q < inc.len() ==> (#[trigger] inc@[q]).len() == joltage.len(),
                found == exists|k: int| 0 <= k < c && inc@[b as int]@[k],
                found ==> 0 <= ck < joltage.len() && inc@[b as int]@[ck] && cap >= joltage@[ck],
            decreases joltage.len() - c,
        {
            if inc[b][c] && (!found || joltage[c] < cap) {
                cap = joltage[c];
                found = true;
                proof {
                    ck = c as int;
                }
            }
            c += 1;
        }
        let ghost c0 = caps@;
        caps.push(cap);
        proof {
            assert forall|q: int| 0 <= q < b + 1 implies #[trigger] cap_sound(bs, joltage@, caps@, q) by {
                if q < b {
                    assert(cap_sound(bs, joltage@, c0, q));
                    assert(caps@[q] == c0[q]);
                } else if exists|k: int| 0 <= k < joltage.len() && touches(bs, q, k) {
                    let k = choose|k: int| 0 <= k < joltage.len() && touches(bs, q, k);
                    assert(inc@[b as int]@[k]);
                    assert(touches(bs, q, ck));
                }
            }
        }
        b += 1;
    }
    caps
}

/// `rest[q][c]`: the caps of the buttons from `q` on that touch counter `c`.
fn cap_suffixes(Ghost(bs): Ghost<Seq<Seq<nat>>>, inc: &Vec<Vec<bool>>, caps: &Vec<u64>, nc: usize) -> (rest: Vec<Vec<u128>>)
    requires
        inc.len() == bs.len(),
        caps.len() == bs.len(),
        forall|b: int| 0 <= b < inc.len() ==> (#[trigger] inc@[b]).len() == nc,
        forall|b: int, c: int|
            #![trigger inc@[b]@[c]]
            0 <= b < inc.len() && 0 <= c < nc ==> inc@[b]@[c] == touches(bs, b, c),
    ensures
        rest.len() == bs.len() + 1,
        forall|q: int| 0 <= q <= bs.len() ==> (#[trigger] rest@[q]).len() == nc,
        forall|q: int, c: int|
            #![trigger rest@[q]@[c]]
            0 <= q <= bs.len() && 0 <= c < nc ==> rest@[q]@[c] == tail_caps(bs, caps@, c, q, bs.len() as int),
{
    let nb = inc.len();
    // rows are built from the last button back and put in order at the end
    let mut rev: Vec<Vec<u128>> = Vec::new();
    let mut row: Vec<u128> = vec![0u128; nc];
    let mut q: usize = nb;
    proof {
        assert forall|c: int| 0 <= c < nc implies row@[c] == tail_caps(bs, caps@, c, nb as int, nb as int) by {}
    }
    rev.push(copy_wide(&row));
    while q > 0
        invariant
            q <= nb,
            nb == inc.len(),
            nb == bs.len(),
            caps.len() == nb,
            forall|b: int| 0 <= b < inc.len() ==> (#[trigger] inc@[b]).len() == nc,
            forall|b: int, c: int|
                #![trigger inc@[b]@[c]]
                0 <= b < inc.len() && 0 <= c < nc ==> inc@[b]@[c] == touches(bs, b, c),
            row.len() == nc,
            forall|c: int| 0 <= c < nc ==> #[trigger] row@[c] == tail_caps(bs, caps@, c, q as int, nb as int),
            forall|c: int| 0 <= c < nc ==> #[trigger] row@[c] <= (nb - q) * (u64::MAX as int),
            rev.len() == nb - q + 1,
            forall|t: int| 0 <= t < rev.len() ==> (#[trigger] rev@[t]).len() == nc,
            forall|t: int, c: int|
                #![trigger rev@[t]@[c]]
                0 <= t < rev.len() && 0 <= c < nc ==> rev@[t]@[c] == tail_caps(bs, caps@, c, nb - t, nb as int),
        decreases q,
    {
        q -= 1;
        let mut next: Vec<u128> = Vec::new();
        let mut c: usize = 0;
        while c < nc
            invariant
                c <= nc,
                q < nb,
                nb == inc.len(),
                nb == bs.len(),
                caps.len() == nb,
                row.len() == nc,
                forall|b: int| 0 <= b < inc.len() ==> (#[trigger] inc@[b]).len() == nc,
                forall|b: int, k: int|
                    #![trigger inc@[b]@[k]]
                    0 <= b < inc.len() && 0 <= k < nc ==> inc@[b]@[k] == touches(bs, b, k),
                forall|k: int| 0 <= k < nc ==> #[trigger] row@[k] == tail_caps(bs, caps@, k, q + 1, nb as int),
                forall|k: int| 0 <= k < nc ==> #[trigger] row@[k] <= (nb - q - 1) * (u64::MAX as int),
                next.len() == c,
                forall|k: int| 0 <= k < c ==> #[trigger] next@[k] == tail_caps(bs, caps@, k, q as int, nb as int),
                forall|k: int| 0 <= k < c ==> #[trigger] next@[k] <= (nb - q) * (u64::MAX as int),
            decreases nc - c,
        {
            proof {
                lemma_tail_front(bs, caps@, c as int, q as int, nb as int);
                assert(row@[c as int] + u64::MAX <= (nb - q) * (u64::MAX as int)) by (nonlinear_arith)
                    requires
                        row@[c as int] <= (nb - q - 1) * (u64::MAX as int),
                ;
            }
            let add: u128 = if inc[q][c] {
                caps[q] as u128
            } else {
                0
            };
            next.push(row[c] + add);
            c += 1;
        }
        row = next;
        rev.push(copy_wide(&row));
    }
    // rev[t] is the row of button nb - t; read it back to front
    let mut rest: Vec<Vec<u128>> = Vec::new();
    let mut t: usize = 0;
    while t <= nb
        invariant
            t <= nb + 1,
            nb == bs.len(),
            rev.len() == nb + 1,
            forall|u: int| 0 <= u < rev.len() ==> (#[trigger] rev@[u]).len() == nc,
            forall|u: int, c: int|
                #![trigger rev@[u]@[c]]
                0 <= u < rev.len() && 0 <= c < nc ==> rev@[u]@[c] == tail_caps(bs, caps@, c, nb - u, nb as int),
            rest.len() == t,
            forall|u: int| 0 <= u < t ==> (#[trigger] rest@[u]).len() == nc,
            forall|u: int, c: int|
                #![trigger rest@[u]@[c]]
                0 <= u < t && 0 <= c < nc ==> rest@[u]@[c] == tail_caps(bs, caps@, c, u, nb as int),
        decreases nb + 1 - t,
    {
        rest.push(copy_wide(&rev[nb - t]));
        t += 1;
    }
    rest
}

fn copy_wide(v: &Vec<u128>) -> (r: Vec<u128>)
    ensures
        r@ == v@,
{
    let mut r: Vec<u128> = Vec::new();
    let mut j: usize = 0;
    while j < v.len()
        invariant
            j <= v.len(),
            r@ == v@.subrange(0, j as int),
        decreases v.len() - j,
    {
        r.push(v[j]);
        j += 1;
    }
    assert(r@ =~= v@);
    r
}

/// Taking the first button off a range of caps.
proof fn lemma_tail_front(bs: Seq<Seq<nat>>, caps: Seq<u64>, c: int, q: int, to: int)
    requires
        q < to,
    ensures
        tail_caps(bs, caps, c, q, to) == tail_caps(bs, caps, c, q + 1, to) + if touches(bs, q, c) {
            caps[q] as int
        } else {
            0
        },
    decreases to - q,
{
    if to - 1 > q {
        lemma_tail_front(bs, caps, c, q, to - 1);
    } else {
        assert(tail_caps(bs, caps, c, q, q) == 0);
        assert(tail_caps(bs, caps, c, q + 1, to) == 0);
    }
}

/// Runs the search from the first button with nothing pressed.
fn run(machine: &Machine, deadline: &Option<Instant>) -> (r: Result<(u128, Vec<u64>), SolveError>)
    ensures
        r matches Ok(p) ==> is_fewest_total(machine.button_seqs(), machine.joltage@, p.0 as int)
            && counters_match(machine.button_seqs(), machine.joltage@, as_ints(p.1@)) && total(
            as_ints(p.1@),
            p.1.len() as int,
        ) == p.0,
        r matches Err(SolveError::Unsolvable) ==> !solvable(machine.button_seqs(), machine.joltage@),
        r matches Err(SolveError::Timeout) ==> deadline.is_some(),
{
    let ghost bs = machine.button_seqs();
    let ghost jv = machine.joltage@;
    let nb = machine.buttons.len();
    let nc = machine.joltage.len();
    let inc = touch_table(&machine.buttons, nc);
    let mut x: Vec<u64> = vec![0u64; nb];
    let mut sums: Vec<u64> = vec![0u64; nc];
    let mut best: Option<u128> = None;
    let mut best_x: Vec<u64> = Vec::new();
    proof {
        assert forall|c: int| 0 <= c < nc implies sums@[c] == counter_sum(bs, as_ints(x@), c, 0)
            && #[trigger] sums@[c] <= jv[c] by {}
    }
    let caps = button_caps(Ghost(bs), &inc, &machine.joltage);
    let rest = cap_suffixes(Ghost(bs), &inc, &caps, nc);
    let done = search(
        Ghost(bs),
        &inc,
        &machine.joltage,
        0,
        &mut x,
        &mut sums,
        0,
        &mut best,
        &mut best_x,
        &caps,
        &rest,
        deadline,
    );
    if !done {
        return Err(SolveError::Timeout);
    }
    match best {
        Some(m) => {
            proof {
                assert forall|z: Seq<int>| counters_match(bs, jv, z) implies m <= total(z, z.len() as int) by {
                    assert(bounded_by(best, z));
                }
                assert(counters_match(bs, jv, as_ints(best_x@)));
                assert(as_ints(best_x@).len() == best_x.len());
            }
            Ok((m, best_x))
        },
        None => {
            proof {
                assert forall|z: Seq<int>| !counters_match(bs, jv, z) by {
                    if counters_match(bs, jv, z) {
                        assert(bounded_by(best, z));
                    }
                }
            }
            Err(SolveError::Unsolvable)
        },
    }
}

/// Press counts that bring every counter exactly to its joltage with the
/// least total, searched until `deadline`. `Unsolvable` is returned only
/// when no press counts reach the counters, `Timeout` only when the deadline
/// passed.
pub fn fewest_presses(machine: &Machine, deadline: Instant) -> (r: Result<Vec<u64>, SolveError>)
    ensures
        r matches Ok(x) ==> counters_match(machine.button_seqs(), machine.joltage@, as_ints(x@))
            && is_fewest_total(machine.button_seqs(), machine.joltage@, total(as_ints(x@), x.len() as int)),
        r matches Err(SolveError::Unsolvable) ==> !solvable(machine.button_seqs(), machine.joltage@),
        !solvable(machine.button_seqs(), machine.joltage@) ==> r is Err,
{
    match run(machine, &Some(deadline)) {
        Ok((_, x)) => {
            proof {
                assert(as_ints(x@).len() == x.len());
            }
            Ok(x)
        },
        Err(e) => Err(e),
    }
}

/// The counters after button `b` is pressed `x[b]` times: the
/// equation-evaluation primitive of the accumulation variant.
pub fn counters_after(machine: &Machine, x: &Vec<u64>) -> (r: Vec<u128>)
    requires
        x.len() == machine.buttons.len(),
    ensures
        r.len() == machine.joltage.len(),
        forall|c: int|
            0 <= c < r.len() ==> #[trigger] r@[c] == counter_sum(
                machine.button_seqs(),
                as_ints(x@),
                c,
                machine.buttons.len() as int,
            ),
{
    let ghost bs = machine.button_seqs();
    let ghost xi = as_ints(x@);
    let nb = machine.buttons.len();
    let nc = machine.joltage.len();
    let inc = touch_table(&machine.buttons, nc);
    let mut r: Vec<u128> = Vec::new();
    let mut c: usize = 0;
    while c < nc
        invariant
            c <= nc,
            nc == machine.joltage.len(),
            nb == machine.buttons.len(),
            nb == inc.len(),
            x.len() == nb,
            xi == as_ints(x@),
            bs == machine.button_seqs(),
            r.len() == c,
            forall|b: int| 0 <= b < inc.len() ==> (#[trigger] inc@[b]).len() == nc,
            forall|b: int, k: int|
                #![trigger inc@[b]@[k]]
                0 <= b < inc.len() && 0 <= k < nc ==> inc@[b]@[k] == touches(bs, b, k),
            forall|q: int| 0 <= q < c ==> #[trigger] r@[q] == counter_sum(bs, xi, q, nb as int),
        decreases nc - c,
    {
        let mut acc: u128 = 0;
        let mut b: usize = 0;
        while b < nb
            invariant
                b <= nb,
                c < nc,
                nb == inc.len(),
                x.len() == nb,
                xi == as_ints(x@),
                forall|q: int| 0 <= q < inc.len() ==> (#[trigger] inc@[q]).len() == nc,
                forall|q: int, k: int|
                    #![trigger inc@[q]@[k]]
                    0 <= q < inc.len() && 0 <= k < nc ==> inc@[q]@[k] == touches(bs, q, k),
                acc == counter_sum(bs, xi, c as int, b as int),
                acc <= b * (u64::MAX as int),
            decreases nb - b,
        {
            if inc[b][c] {
                proof {
                    assert(acc + x@[b as int] <= (b + 1) * (u64::MAX as int)) by (nonlinear_arith)
                        requires
                            acc <= b * (u64::MAX as int),
                            x@[b as int] <= u64::MAX,
                    ;
                }
                acc = acc + x[b] as u128;
            } else {
                proof {
                    assert(acc <= (b + 1) * (u64::MAX as int)) by (nonlinear_arith)
                        requires
                            acc <= b * (u64::MAX as int),
                    ;
                }
            }
            b += 1;
        }
        r.push(acc);
        c += 1;
    }
    r
}

/// Least total number of presses that brings every counter exactly to its
/// joltage, searched until `deadline`. `Unsolvable` is returned only when no
/// press counts reach the counters, `Timeout` only when the deadline passed;
/// a total is always the proven minimum.
pub fn solve_accumulate(machine: &Machine, deadline: Instant) -> (r: Result<u128, SolveError>)
    ensures
        r matches Ok(m) ==> is_fewest_total(machine.button_seqs(), machine.joltage@, m as int),
        r matches Err(SolveError::Unsolvable) ==> !solvable(machine.button_seqs(), machine.joltage@),
        !solvable(machine.button_seqs(), machine.joltage@) ==> r is Err,
{
    match run(machine, &Some(deadline)) {
        Ok((m, x)) => {
            proof {
                assert(counters_match(machine.button_seqs(), machine.joltage@, as_ints(x@)));
            }
            Ok(m)
        },
        Err(e) => Err(e),
    }
}

/// Least total number of presses that brings every counter exactly to its
/// joltage; `None` when no press counts do. The search runs to the end.
pub fn solve_machine(machine: &Machine) -> (r: Option<u128>)
    ensures
        r matches Some(m) ==> is_fewest_total(machine.button_seqs(), machine.joltage@, m as int),
        r is None <==> !solvable(machine.button_seqs(), machine.joltage@),
{
    match run(machine, &None) {
        Ok((m, x)) => {
            proof {
                assert(counters_match(machine.button_seqs(), machine.joltage@, as_ints(x@)));
            }
            Some(m)
        },
        Err(_) => None,
    }
}

} // verus!
