//! The machine model shared by both solvers.

use vstd::prelude::*;

verus! {

/// One puzzle instance.
///
/// `buttons[b]` lists the counters that button `b` touches. `target` is the
/// light pattern of the toggle variant and `joltage` the counter values of the
/// accumulation variant; each variant reads only its own field.
#[derive(Debug, Clone)]
pub struct Machine {
    pub target: Vec<bool>,
    pub buttons: Vec<Vec<usize>>,
    pub joltage: Vec<u64>,
}

/// The buttons as sequences of counter indices.
pub open spec fn buttons_of(buttons: Seq<Vec<usize>>) -> Seq<Seq<nat>> {
    buttons.map_values(|b: Vec<usize>| b@.map_values(|v: usize| v as nat))
}

impl Machine {
    pub open spec fn button_seqs(&self) -> Seq<Seq<nat>> {
        buttons_of(self.buttons@)
    }
}

/// Whether button `b` touches counter `c`.
pub open spec fn touches(buttons: Seq<Seq<nat>>, b: int, c: int) -> bool {
    buttons[b].contains(c as nat)
}

/// State of light `c` after pressing, among the first `n` buttons, those
/// that `x` marks: the parity of the presses that reach it.
pub open spec fn toggled(buttons: Seq<Seq<nat>>, x: Seq<bool>, c: int, n: int) -> bool
    decreases n,
{
    if n <= 0 {
        false
    } else {
        toggled(buttons, x, c, n - 1) != (x[n - 1] && touches(buttons, n - 1, c))
    }
}

/// `x` presses each button at most once and lights exactly `target`.
pub open spec fn lights_match(buttons: Seq<Seq<nat>>, target: Seq<bool>, x: Seq<bool>) -> bool {
    &&& x.len() == buttons.len()
    &&& forall|c: int|
        0 <= c < target.len() ==> #[trigger] toggled(buttons, x, c, buttons.len() as int)
            == target[c]
}

/// Number of buttons that `x` presses.
pub open spec fn presses(x: Seq<bool>) -> nat
    decreases x.len(),
{
    if x.len() == 0 {
        0
    } else {
        presses(x.drop_last()) + if x.last() {
            1nat
        } else {
            0nat
        }
    }
}

/// Value of counter `c` after button `b` is pressed `x[b]` times, for each of
/// the first `n` buttons.
pub open spec fn counter_sum(buttons: Seq<Seq<nat>>, x: Seq<int>, c: int, n: int) -> int
    decreases n,
{
    if n <= 0 {
        0
    } else {
        counter_sum(buttons, x, c, n - 1) + if touches(buttons, n - 1, c) {
            x[n - 1]
        } else {
            0
        }
    }
}

/// `x` presses each button a nonnegative number of times and brings every
/// counter exactly to `joltage`.
pub open spec fn counters_match(buttons: Seq<Seq<nat>>, joltage: Seq<u64>, x: Seq<int>) -> bool {
    &&& x.len() == buttons.len()
    &&& forall|b: int| 0 <= b < x.len() ==> x[b] >= 0
    &&& forall|c: int|
        0 <= c < joltage.len() ==> #[trigger] counter_sum(buttons, x, c, buttons.len() as int)
            == joltage[c] as int
}

/// Total number of presses in `x`, over its first `n` entries.
pub open spec fn total(x: Seq<int>, n: int) -> int
    decreases n,
{
    if n <= 0 {
        0
    } else {
        total(x, n - 1) + x[n - 1]
    }
}

/// Whether `v` lists `c`.
pub fn lists(v: &Vec<usize>, c: usize) -> (r: bool)
    ensures
        r == v@.contains(c),
        r == v@.map_values(|x: usize| x as nat).contains(c as nat),
{
    let ghost w = v@.map_values(|x: usize| x as nat);
    let mut i: usize = 0;
    while i < v.len()
        invariant
            i <= v.len(),
            w == v@.map_values(|x: usize| x as nat),
            forall|j: int| 0 <= j < i ==> v@[j] != c,
        decreases v.len() - i,
    {
        if v[i] == c {
            assert(w[i as int] == c as nat);
            return true;
        }
        i += 1;
    }
    assert forall|j: int| 0 <= j < w.len() implies w[j] != c as nat by {
        assert(v@[j] != c);
    }
    false
}

} // verus!
