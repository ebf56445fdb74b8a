//! Button machines: a set of buttons, each touching a fixed set of counters,
//! and a target for those counters.

pub mod machine;
pub mod parser;
pub mod solver;
pub mod part2;

use vstd::prelude::*;
use vstd::string::StringSliceAdditionalSpecFns;
use crate::text::lines_of;
pub use machine::Machine;
use machine::{lights_match, presses, counters_match, total, toggled, touches};
use parser::{ParseError, MachineView, machines_in, machine_view, parse_input};
use part2::{is_fewest_total, solvable, solve_accumulate, SolveError};
use std::time::Instant;

verus! {

/// `m` is the fewest presses that light `target`.
pub open spec fn is_least_presses(buttons: Seq<Seq<nat>>, target: Seq<bool>, m: nat) -> bool {
    &&& exists|x: Seq<bool>| lights_match(buttons, target, x) && presses(x) == m
    &&& forall|x: Seq<bool>| lights_match(buttons, target, x) ==> m <= presses(x)
}

pub open spec fn least_presses(buttons: Seq<Seq<nat>>, target: Seq<bool>) -> nat {
    choose|m: nat| is_least_presses(buttons, target, m)
}

pub open spec fn lightable(buttons: Seq<Seq<nat>>, target: Seq<bool>) -> bool {
    exists|x: Seq<bool>| lights_match(buttons, target, x)
}

pub open spec fn fewest_total(buttons: Seq<Seq<nat>>, joltage: Seq<u64>) -> int {
    choose|m: int| is_fewest_total(buttons, joltage, m)
}

/// Sum of the fewest toggle presses of the first `n` machines.
pub open spec fn toggle_sum(ms: Seq<MachineView>, n: int) -> int
    decreases n,
{
    if n <= 0 {
        0
    } else {
        toggle_sum(ms, n - 1) + least_presses(ms[n - 1].1, ms[n - 1].0)
    }
}

pub open spec fn joltage_of_view(m: MachineView) -> Seq<u64> {
    m.2.map_values(|v: nat| v as u64)
}

/// Sum of the fewest accumulation presses of the first `n` machines.
pub open spec fn joltage_sum(ms: Seq<MachineView>, n: int) -> int
    decreases n,
{
    if n <= 0 {
        0
    } else {
        joltage_sum(ms, n - 1) + fewest_total(ms[n - 1].1, joltage_of_view(ms[n - 1]))
    }
}

pub open spec fn solvable_upto(ms: Seq<MachineView>, n: int) -> bool {
    forall|k: int| 0 <= k < n ==> solvable(#[trigger] ms[k].1, joltage_of_view(ms[k]))
}

/// Some prefix of solvable machines already sums past `u128::MAX`.
pub open spec fn sum_overflows(ms: Seq<MachineView>) -> bool {
    exists|n: int| 0 < n <= ms.len() && solvable_upto(ms, n) && #[trigger] joltage_sum(ms, n) > u128::MAX
}

/// Why a batch of machines has no total.
#[derive(Debug, Clone, Copy, PartialEq, Eq)]
pub enum BatchError {
    /// A line is no machine.
    Parse(ParseError),
    /// The machine at this position has no solution.
    Unsolvable(usize),
    /// The deadline passed while the machine at this position was searched.
    Timeout(usize),
    /// The total does not fit the result type.
    TooLarge,
}

proof fn lemma_least_unique(bs: Seq<Seq<nat>>, t: Seq<bool>, m: nat)
    requires
        is_least_presses(bs, t, m),
    ensures
        least_presses(bs, t) == m,
{
    let k = least_presses(bs, t);
    assert(is_least_presses(bs, t, k));
    let xk = choose|x: Seq<bool>| lights_match(bs, t, x) && presses(x) == k;
    let xm = choose|x: Seq<bool>| lights_match(bs, t, x) && presses(x) == m;
    assert(m <= presses(xk));
    assert(k <= presses(xm));
}

proof fn lemma_fewest_unique(bs: Seq<Seq<nat>>, j: Seq<u64>, m: int)
    requires
        is_fewest_total(bs, j, m),
    ensures
        fewest_total(bs, j) == m,
{
    let k = fewest_total(bs, j);
    assert(is_fewest_total(bs, j, k));
    let xk = choose|x: Seq<int>| counters_match(bs, j, x) && total(x, x.len() as int) == k;
    let xm = choose|x: Seq<int>| counters_match(bs, j, x) && total(x, x.len() as int) == m;
    assert(m <= total(xk, xk.len() as int));
    assert(k <= total(xm, xm.len() as int));
}

/// Sum over the machines of `input` of the fewest presses that light each
/// target. Fails on the first malformed line, on the first machine that no
/// presses light, or when the sum exceeds `usize::MAX`.
pub fn solve_part1(input: &str) -> (r: Result<usize, BatchError>)
    ensures
        r matches Ok(t) ==> machines_in(lines_of(input.spec_bytes())) matches Ok(ms) && (forall|k: int|
            0 <= k < ms.len() ==> lightable(#[trigger] ms[k].1, ms[k].0)) && t == toggle_sum(
            ms,
            ms.len() as int,
        ),
        r matches Err(BatchError::Parse(e)) ==> machines_in(lines_of(input.spec_bytes())) == Err::<
            Seq<MachineView>,
            nat,
        >(e.line as nat),
        r matches Err(BatchError::Unsolvable(k)) ==> machines_in(lines_of(input.spec_bytes())) matches Ok(ms)
            && k < ms.len() && !lightable(ms[k as int].1, ms[k as int].0) && (forall|j: int|
            0 <= j < k ==> lightable(#[trigger] ms[j].1, ms[j].0)),
        r matches Err(BatchError::TooLarge) ==> machines_in(lines_of(input.spec_bytes())) matches Ok(ms)
            && toggle_sum(ms, ms.len() as int) > usize::MAX,
        r matches Err(e) ==> !(e matches BatchError::Timeout(_)),
{
    let machines = match parse_input(input) {
        Ok(ms) => ms,
        Err(e) => {
            return Err(BatchError::Parse(e));
        },
    };
    let ghost views = machines@.map_values(|m: Machine| machine_view(m));
    let mut sum: usize = 0;
    let mut i: usize = 0;
    while i < machines.len()
        invariant
            i <= machines.len(),
            views == machines@.map_values(|m: Machine| machine_view(m)),
            machines_in(lines_of(input.spec_bytes())) == Ok::<Seq<MachineView>, nat>(views),
            forall|k: int| 0 <= k < i ==> lightable(#[trigger] views[k].1, views[k].0),
            sum == toggle_sum(views, i as int),
        decreases machines.len() - i,
    {
        let ghost v = views[i as int];
        assert(v.1 == machines@[i as int].button_seqs());
        match solver::solve_machine(&machines[i]) {
            None => {
                return Err(BatchError::Unsolvable(i));
            },
            Some(p) => {
                proof {
                    lemma_least_unique(v.1, v.0, p as nat);
                    let x = choose|x: Seq<bool>| lights_match(v.1, v.0, x) && presses(x) == p;
                    assert(lightable(v.1, v.0));
                }
                if p > usize::MAX - sum {
                    proof {
                        lemma_toggle_sum_grows(views, i + 1, views.len() as int);
                    }
                    return Err(BatchError::TooLarge);
                }
                sum = sum + p;
            },
        }
        i += 1;
    }
    Ok(sum)
}

proof fn lemma_toggle_sum_grows(ms: Seq<MachineView>, n: int, m: int)
    requires
        0 <= n <= m,
    ensures
        toggle_sum(ms, m) >= toggle_sum(ms, n),
    decreases m - n,
{
    if m > n {
        lemma_toggle_sum_grows(ms, n, m - 1);
    }
}

/// Sum over the machines of `input` of the fewest presses that bring each
/// machine's counters to its joltage. Fails on the first malformed line, on
/// the first machine that no presses solve, or when the sum exceeds
/// `u128::MAX`.
pub fn solve_part2(input: &str) -> (r: Result<u128, BatchError>)
    ensures
        r matches Ok(t) ==> machines_in(lines_of(input.spec_bytes())) matches Ok(ms) && (forall|k: int|
            0 <= k < ms.len() ==> solvable(#[trigger] ms[k].1, joltage_of_view(ms[k]))) && t
            == joltage_sum(ms, ms.len() as int),
        r matches Err(BatchError::Parse(e)) ==> machines_in(lines_of(input.spec_bytes())) == Err::<
            Seq<MachineView>,
            nat,
        >(e.line as nat),
        r matches Err(BatchError::Unsolvable(k)) ==> machines_in(lines_of(input.spec_bytes())) matches Ok(ms)
            && k < ms.len() && !solvable(ms[k as int].1, joltage_of_view(ms[k as int])) && solvable_upto(
            ms,
            k as int,
        ),
        r matches Err(BatchError::TooLarge) ==> machines_in(lines_of(input.spec_bytes())) matches Ok(ms)
            && sum_overflows(ms),
        r matches Err(e) ==> !(e matches BatchError::Timeout(_)),
{
    let machines = match parse_input(input) {
        Ok(ms) => ms,
        Err(e) => {
            return Err(BatchError::Parse(e));
        },
    };
    let ghost views = machines@.map_values(|m: Machine| machine_view(m));
    let mut sum: u128 = 0;
    let mut i: usize = 0;
    while i < machines.len()
        invariant
            i <= machines.len(),
            views == machines@.map_values(|m: Machine| machine_view(m)),
            machines_in(lines_of(input.spec_bytes())) == Ok::<Seq<MachineView>, nat>(views),
            forall|k: int| 0 <= k < i ==> solvable(#[trigger] views[k].1, joltage_of_view(views[k])),
            sum == joltage_sum(views, i as int),
        decreases machines.len() - i,
    {
        let ghost v = views[i as int];
        assert(v.1 == machines@[i as int].button_seqs());
        assert(joltage_of_view(v) =~= machines@[i as int].joltage@);
        match part2::solve_machine(&machines[i]) {
            None => {
                return Err(BatchError::Unsolvable(i));
            },
            Some(p) => {
                proof {
                    lemma_fewest_unique(v.1, joltage_of_view(v), p as int);
                }
                if p > u128::MAX - sum {
                    proof {
                        assert(0 < i + 1 <= views.len() && (forall|k: int|
                            0 <= k < i + 1 ==> solvable(#[trigger] views[k].1, joltage_of_view(views[k])))
                            && joltage_sum(views, i + 1) > u128::MAX);
                        assert(solvable_upto(views, i + 1));
                        assert(views.len() == machines.len());
                        assert(joltage_sum(views, i + 1) > u128::MAX);
                        assert(sum_overflows(views));
                    }
                    return Err(BatchError::TooLarge);
                }
                sum = sum + p;
            },
        }
        i += 1;
    }
    Ok(sum)
}

/// As `solve_part2`, with the whole batch searched until `deadline`:
/// `Timeout(k)` names the machine whose search the deadline cut short, all
/// machines before it solved.
pub fn solve_part2_within(input: &str, deadline: Instant) -> (r: Result<u128, BatchError>)
    ensures
        r matches Ok(t) ==> machines_in(lines_of(input.spec_bytes())) matches Ok(ms) && solvable_upto(
            ms,
            ms.len() as int,
        ) && t == joltage_sum(ms, ms.len() as int),
        r matches Err(BatchError::Parse(e)) ==> machines_in(lines_of(input.spec_bytes())) == Err::<
            Seq<MachineView>,
            nat,
        >(e.line as nat),
        r matches Err(BatchError::Unsolvable(k)) ==> machines_in(lines_of(input.spec_bytes())) matches Ok(ms)
            && k < ms.len() && !solvable(ms[k as int].1, joltage_of_view(ms[k as int])) && solvable_upto(
            ms,
            k as int,
        ),
        r matches Err(BatchError::Timeout(k)) ==> machines_in(lines_of(input.spec_bytes())) matches Ok(ms)
            && k < ms.len() && solvable_upto(ms, k as int),
        r matches Err(BatchError::TooLarge) ==> machines_in(lines_of(input.spec_bytes())) matches Ok(ms)
            && sum_overflows(ms),
{
    let machines = match parse_input(input) {
        Ok(ms) => ms,
        Err(e) => {
            return Err(BatchError::Parse(e));
        },
    };
    let ghost views = machines@.map_values(|m: Machine| machine_view(m));
    let mut sum: u128 = 0;
    let mut i: usize = 0;
    while i < machines.len()
        invariant
            i <= machines.len(),
            views == machines@.map_values(|m: Machine| machine_view(m)),
            machines_in(lines_of(input.spec_bytes())) == Ok::<Seq<MachineView>, nat>(views),
            solvable_upto(views, i as int),
            sum == joltage_sum(views, i as int),
        decreases machines.len() - i,
    {
        let ghost v = views[i as int];
        assert(v.1 == machines@[i as int].button_seqs());
        assert(joltage_of_view(v) =~= machines@[i as int].joltage@);
        match solve_accumulate(&machines[i], deadline) {
            Err(SolveError::Unsolvable) => {
                return Err(BatchError::Unsolvable(i));
            },
            Err(SolveError::Timeout) => {
                return Err(BatchError::Timeout(i));
            },
            Ok(p) => {
                proof {
                    lemma_fewest_unique(v.1, joltage_of_view(v), p as int);
                    let x = choose|x: Seq<int>|
                        counters_match(v.1, joltage_of_view(v), x) && total(x, x.len() as int) == p;
                    assert(solvable(v.1, joltage_of_view(v)));
                }
                if p > u128::MAX - sum {
                    proof {
                        assert(solvable_upto(views, i + 1));
                        assert(views.len() == machines.len());
                        assert(joltage_sum(views, i + 1) > u128::MAX);
                        assert(sum_overflows(views));
                    }
                    return Err(BatchError::TooLarge);
                }
                sum = sum + p;
            },
        }
        i += 1;
    }
    Ok(sum)
}

proof fn lemma_toggled_prefix(bs: Seq<Seq<nat>>, bs2: Seq<Seq<nat>>, x: Seq<bool>, x2: Seq<bool>, c: int, n: int)
    requires
        forall|j: int| 0 <= j < n ==> bs2[j] == bs[j] && x2[j] == x[j],
    ensures
        toggled(bs2, x2, c, n) == toggled(bs, x, c, n),
    decreases n,
{
    if n > 0 {
        lemma_toggled_prefix(bs, bs2, x, x2, c, n - 1);
    }
}

proof fn lemma_toggled_flip(bs: Seq<Seq<nat>>, x: Seq<bool>, b: int, v: bool, c: int, n: int)
    requires
        0 <= b < n <= x.len(),
    ensures
        toggled(bs, x.update(b, v), c, n) == (toggled(bs, x, c, n) != ((x[b] != v) && touches(bs, b, c))),
    decreases n,
{
    if n - 1 == b {
        lemma_toggled_prefix(bs, bs, x, x.update(b, v), c, n - 1);
    } else {
        lemma_toggled_flip(bs, x, b, v, c, n - 1);
    }
}

proof fn lemma_presses_update(x: Seq<bool>, b: int, v: bool)
    requires
        0 <= b < x.len(),
    ensures
        presses(x.update(b, v)) + (if x[b] {
            1int
        } else {
            0int
        }) == presses(x) + (if v {
            1int
        } else {
            0int
        }),
    decreases x.len(),
{
    let y = x.update(b, v);
    assert(y.drop_last() =~= if b == x.len() - 1 {
        x.drop_last()
    } else {
        x.drop_last().update(b, v)
    });
    if b < x.len() - 1 {
        lemma_presses_update(x.drop_last(), b, v);
    }
}

/// Pressing a button and its copy once each is pressing neither: a machine
/// with one button listed twice lights the same targets as before, with the
/// same fewest presses.
pub proof fn duplicate_button_changes_nothing(buttons: Seq<Seq<nat>>, target: Seq<bool>, b: int)
    requires
        0 <= b < buttons.len(),
    ensures
        lightable(buttons.push(buttons[b]), target) == lightable(buttons, target),
        forall|m: nat|
            #[trigger] is_least_presses(buttons.push(buttons[b]), target, m) == is_least_presses(
                buttons,
                target,
                m,
            ),
{
    let n = buttons.len() as int;
    let bs2 = buttons.push(buttons[b]);
    // a solution of the machine is one of the longer machine, copy unpressed
    assert forall|x: Seq<bool>| lights_match(buttons, target, x) implies lights_match(bs2, target, x.push(false))
        && presses(x.push(false)) == presses(x) by {
        assert forall|c: int| 0 <= c < target.len() implies #[trigger] toggled(bs2, x.push(false), c, bs2.len() as int)
            == target[c] by {
            lemma_toggled_prefix(buttons, bs2, x, x.push(false), c, n);
            assert(toggled(buttons, x, c, buttons.len() as int) == target[c]);
        }
        assert(x.push(false).drop_last() =~= x);
    }
    // a solution of the longer machine folds the copy onto button `b`
    assert forall|x2: Seq<bool>| lights_match(bs2, target, x2) implies ({
        let y = x2.drop_last().update(b, x2[b] != x2[n]);
        lights_match(buttons, target, y) && presses(y) <= presses(x2)
    }) by {
        let p = x2.drop_last();
        let y = p.update(b, x2[b] != x2[n]);
        assert forall|c: int| 0 <= c < target.len() implies #[trigger] toggled(buttons, y, c, n) == target[c] by {
            lemma_toggled_prefix(buttons, bs2, p, x2, c, n);
            lemma_toggled_flip(buttons, p, b, x2[b] != x2[n], c, n);
            assert(toggled(bs2, x2, c, bs2.len() as int) == target[c]);
            assert(bs2[n] == buttons[b]);
        }
        lemma_presses_update(p, b, x2[b] != x2[n]);
    }
    if lightable(bs2, target) {
        let x2 = choose|x2: Seq<bool>| lights_match(bs2, target, x2);
        let y = x2.drop_last().update(b, x2[b] != x2[n]);
        assert(lights_match(buttons, target, y));
    }
    if lightable(buttons, target) {
        let x = choose|x: Seq<bool>| lights_match(buttons, target, x);
        assert(lights_match(bs2, target, x.push(false)));
    }
    assert forall|m: nat| #[trigger] is_least_presses(bs2, target, m) == is_least_presses(buttons, target, m) by {
        if is_least_presses(buttons, target, m) {
            let x = choose|x: Seq<bool>| lights_match(buttons, target, x) && presses(x) == m;
            assert(lights_match(bs2, target, x.push(false)));
            assert forall|x2: Seq<bool>| lights_match(bs2, target, x2) implies m <= presses(x2) by {
                let y = x2.drop_last().update(b, x2[b] != x2[n]);
                assert(lights_match(buttons, target, y));
            }
        }
        if is_least_presses(bs2, target, m) {
            let x2 = choose|x2: Seq<bool>| lights_match(bs2, target, x2) && presses(x2) == m;
            let y = x2.drop_last().update(b, x2[b] != x2[n]);
            assert(lights_match(buttons, target, y));
            assert(lights_match(bs2, target, y.push(false)));
            assert(m <= presses(y.push(false)));
            assert forall|x: Seq<bool>| lights_match(buttons, target, x) implies m <= presses(x) by {
                assert(lights_match(bs2, target, x.push(false)));
            }
        }
    }
}

} // verus!
