//! Reading machines from text. A machine is one line:
//! `[.##.] (3) (1,3) (2) {3,5,4,7}`: the lights between brackets (`#` is
//! on), one parenthesised list of counter indices per button, and the
//! joltage list between braces.

use vstd::prelude::*;
use vstd::string::StringSliceAdditionalSpecFns;
use crate::text::{find_from, list_of, lines_of, trim, find_byte, line_spans, parse_list, copy_span, trim_span};
pub use super::machine::Machine;
use super::machine::buttons_of;

verus! {

/// Why some line of the input is no machine.
#[derive(Debug, Clone, Copy, PartialEq, Eq)]
pub struct ParseError {
    /// Index of the offending line among the lines of the input.
    pub line: usize,
}

/// `#` is a light that must end on.
pub open spec fn lights_of(s: Seq<u8>) -> Seq<bool> {
    s.map_values(|c: u8| c == 35)
}

/// The parenthesised lists from `pos` on: `None` when a list is unclosed or
/// holds something other than indices.
pub open spec fn buttons_from(line: Seq<u8>, pos: int) -> Option<Seq<Seq<nat>>>
    decreases line.len() - pos,
{
    let st = find_from(line, 40, pos);
    if pos < 0 || st >= line.len() || st < pos {
        Some(seq![])
    } else {
        let en = find_from(line, 41, st);
        if en >= line.len() || en < st {
            None
        } else {
            match (list_of(line.subrange(st + 1, en), usize::MAX as nat), buttons_from(line, en + 1)) {
                (Some(b), Some(rest)) => Some(seq![b] + rest),
                _ => None,
            }
        }
    }
}

/// The brace list after position `from`.
pub open spec fn joltage_from(line: Seq<u8>, from: int) -> Option<Seq<nat>> {
    let js = find_from(line, 123, from);
    if js >= line.len() {
        None
    } else {
        let je = find_from(line, 125, js);
        if je >= line.len() {
            None
        } else {
            list_of(line.subrange(js + 1, je), u64::MAX as nat)
        }
    }
}

/// Every button lists counters below `n` only.
pub open spec fn indices_below(bs: Seq<Seq<nat>>, n: nat) -> bool {
    forall|b: int, k: int| 0 <= b < bs.len() && 0 <= k < bs[b].len() ==> #[trigger] bs[b][k] < n
}

/// The machine that `line` describes: lights between the first `[` and the
/// first `]`, then at least one button, then the joltage. Every button
/// index names a light, and there is one joltage per light.
pub open spec fn machine_of(line: Seq<u8>) -> Option<(Seq<bool>, Seq<Seq<nat>>, Seq<nat>)> {
    let ts = find_from(line, 91, 0);
    let te = find_from(line, 93, 0);
    if ts >= line.len() || te >= line.len() || te <= ts {
        None
    } else {
        match (buttons_from(line, te + 1), joltage_from(line, te + 1)) {
            (Some(bs), Some(js)) => {
                let lights = lights_of(line.subrange(ts + 1, te));
                if bs.len() == 0 || !indices_below(bs, lights.len()) || js.len() != lights.len() {
                    None
                } else {
                    Some((lights, bs, js))
                }
            },
            _ => None,
        }
    }
}

pub open spec fn nats_of_usize(s: Seq<usize>) -> Seq<nat> {
    s.map_values(|v: usize| v as nat)
}

pub open spec fn nats_of_u64(s: Seq<u64>) -> Seq<nat> {
    s.map_values(|v: u64| v as nat)
}

/// A machine as plain values.
pub open spec fn machine_view(m: Machine) -> (Seq<bool>, Seq<Seq<nat>>, Seq<nat>) {
    (
        m.target@,
        buttons_of(m.buttons@),
        nats_of_u64(m.joltage@),
    )
}

fn lights(s: &[u8], lo: usize, hi: usize) -> (r: Vec<bool>)
    requires
        lo <= hi <= s@.len(),
    ensures
        r@ == lights_of(s@.subrange(lo as int, hi as int)),
{
    let mut r: Vec<bool> = Vec::new();
    let mut i = lo;
    while i < hi
        invariant
            lo <= i <= hi <= s@.len(),
            r@ == lights_of(s@.subrange(lo as int, i as int)),
        decreases hi - i,
    {
        r.push(s[i] == 35);
        proof {
            assert(lights_of(s@.subrange(lo as int, i + 1)) =~= lights_of(s@.subrange(lo as int, i as int)).push(
                s@[i as int] == 35,
            ));
        }
        i += 1;
    }
    r
}

fn to_indices(v: Vec<u64>) -> (r: Vec<usize>)
    requires
        forall|k: int| 0 <= k < v.len() ==> v@[k] <= usize::MAX,
    ensures
        nats_of_usize(r@) == nats_of_u64(v@),
{
    let mut r: Vec<usize> = Vec::new();
    let mut i: usize = 0;
    while i < v.len()
        invariant
            i <= v.len(),
            forall|k: int| 0 <= k < v.len() ==> v@[k] <= usize::MAX,
            r.len() == i,
            forall|k: int| 0 <= k < i ==> r@[k] as nat == v@[k] as nat,
        decreases v.len() - i,
    {
        r.push(v[i] as usize);
        i += 1;
    }
    assert(nats_of_usize(r@) =~= nats_of_u64(v@));
    r
}

/// The parenthesised lists of `s` from `pos` on.
fn parse_buttons(s: &[u8], pos: usize) -> (r: Option<Vec<Vec<usize>>>)
    requires
        pos <= s@.len(),
    ensures
        r matches Some(b) ==> buttons_from(s@, pos as int) == Some(
            b@.map_values(|v: Vec<usize>| nats_of_usize(v@)),
        ),
        r is None ==> buttons_from(s@, pos as int) is None,
{
    let mut out: Vec<Vec<usize>> = Vec::new();
    let mut p = pos;
    loop
        invariant
            pos <= p <= s@.len(),
            buttons_from(s@, pos as int) == match buttons_from(s@, p as int) {
                Some(rest) => Some(out@.map_values(|v: Vec<usize>| nats_of_usize(v@)) + rest),
                None => None::<Seq<Seq<nat>>>,
            },
        decreases s@.len() - p,
    {
        let st = find_byte(s, 40, p);
        if st >= s.len() {
            proof {
                assert(out@.map_values(|v: Vec<usize>| nats_of_usize(v@)) + seq![] =~= out@.map_values(
                    |v: Vec<usize>| nats_of_usize(v@),
                ));
            }
            return Some(out);
        }
        let en = find_byte(s, 41, st);
        if en >= s.len() {
            return None;
        }
        let inner = copy_span(s, st + 1, en);
        let list = parse_list(inner.as_slice(), usize::MAX as u64);
        match list {
            None => {
                return None;
            },
            Some(vals) => {
                proof {
                    let l = list_of(s@.subrange(st + 1, en as int), usize::MAX as nat);
                    assert(l == Some(nats_of_u64(vals@)));
                    assert forall|k: int| 0 <= k < vals.len() implies vals@[k] <= usize::MAX by {
                        lemma_list_bounded(s@.subrange(st + 1, en as int), usize::MAX as nat, k);
                        assert(nats_of_u64(vals@)[k] == vals@[k] as nat);
                    }
                }
                let b = to_indices(vals);
                let ghost o0 = out@;
                out.push(b);
                proof {
                    assert(out@.map_values(|v: Vec<usize>| nats_of_usize(v@)) =~= o0.map_values(
                        |v: Vec<usize>| nats_of_usize(v@),
                    ).push(nats_of_usize(b@)));
                    if let Some(tail) = buttons_from(s@, en + 1) {
                        assert(o0.map_values(|v: Vec<usize>| nats_of_usize(v@)) + (seq![nats_of_usize(b@)] + tail)
                            =~= out@.map_values(|v: Vec<usize>| nats_of_usize(v@)) + tail);
                    }
                }
                p = en + 1;
            },
        }
    }
}

proof fn lemma_list_bounded(s: Seq<u8>, max: nat, k: int)
    requires
        list_of(s, max) is Some,
        0 <= k < list_of(s, max).unwrap().len(),
    ensures
        list_of(s, max).unwrap()[k] <= max,
    decreases s.len(),
{
    let i = find_from(s, 44, 0);
    if i < 0 || i >= s.len() {
    } else if k > 0 {
        lemma_list_bounded(s.subrange(i + 1, s.len() as int), max, k - 1);
    }
}

/// Whether every index of every button is below `n`.
fn all_below(buttons: &Vec<Vec<usize>>, n: usize) -> (r: bool)
    ensures
        r == indices_below(buttons@.map_values(|v: Vec<usize>| nats_of_usize(v@)), n as nat),
{
    let ghost bs = buttons@.map_values(|v: Vec<usize>| nats_of_usize(v@));
    let mut b: usize = 0;
    while b < buttons.len()
        invariant
            b <= buttons.len(),
            bs == buttons@.map_values(|v: Vec<usize>| nats_of_usize(v@)),
            forall|q: int, k: int| 0 <= q < b && 0 <= k < bs[q].len() ==> #[trigger] bs[q][k] < n,
        decreases buttons.len() - b,
    {
        let mut k: usize = 0;
        while k < buttons[b].len()
            invariant
                b < buttons.len(),
                k <= buttons@[b as int].len(),
                bs == buttons@.map_values(|v: Vec<usize>| nats_of_usize(v@)),
                forall|q: int, j: int| 0 <= q < b && 0 <= j < bs[q].len() ==> #[trigger] bs[q][j] < n,
                forall|j: int| 0 <= j < k ==> #[trigger] bs[b as int][j] < n,
            decreases buttons@[b as int].len() - k,
        {
            if buttons[b][k] >= n {
                proof {
                    assert(bs[b as int][k as int] == buttons@[b as int]@[k as int] as nat);
                }
                return false;
            }
            k += 1;
        }
        b += 1;
    }
    true
}

/// The machine that one line describes; `None` when the line is malformed.
pub fn parse_machine(line: &str) -> (r: Option<Machine>)
    ensures
        r matches Some(m) ==> machine_of(line.spec_bytes()) == Some(machine_view(m)),
        r is None ==> machine_of(line.spec_bytes()) is None,
{
    machine_from(line.as_bytes())
}

fn machine_from(s: &[u8]) -> (r: Option<Machine>)
    ensures
        r matches Some(m) ==> machine_of(s@) == Some(machine_view(m)),
        r is None ==> machine_of(s@) is None,
{
    let ts = find_byte(s, 91, 0);
    let te = find_byte(s, 93, 0);
    if ts >= s.len() || te >= s.len() || te <= ts {
        return None;
    }
    let target = lights(s, ts + 1, te);
    let buttons = match parse_buttons(s, te + 1) {
        Some(b) => b,
        None => {
            return None;
        },
    };
    if buttons.len() == 0 {
        return None;
    }
    let js = find_byte(s, 123, te + 1);
    if js >= s.len() {
        return None;
    }
    let je = find_byte(s, 125, js);
    if je >= s.len() {
        return None;
    }
    let inner = copy_span(s, js + 1, je);
    let joltage = match parse_list(inner.as_slice(), u64::MAX) {
        Some(v) => v,
        None => {
            return None;
        },
    };
    if joltage.len() != target.len() {
        return None;
    }
    if !all_below(&buttons, target.len()) {
        return None;
    }
    let m = Machine { target, buttons, joltage };
    proof {
        assert(machine_view(m).2 == nats_of_u64(m.joltage@));
    }
    Some(m)
}

pub type MachineView = (Seq<bool>, Seq<Seq<nat>>, Seq<nat>);

/// The machines of the non-blank lines, in order, or the index of the first
/// line that is no machine.
pub open spec fn machines_in(lines: Seq<Seq<u8>>) -> Result<Seq<MachineView>, nat>
    decreases lines.len(),
{
    if lines.len() == 0 {
        Ok(seq![])
    } else {
        match machines_in(lines.drop_last()) {
            Err(e) => Err(e),
            Ok(ms) => if trim(lines.last()).len() == 0 {
                Ok(ms)
            } else {
                match machine_of(lines.last()) {
                    Some(m) => Ok(ms.push(m)),
                    None => Err((lines.len() - 1) as nat),
                }
            },
        }
    }
}

proof fn lemma_error_stays(lines: Seq<Seq<u8>>, k: int)
    requires
        0 <= k <= lines.len(),
        machines_in(lines.subrange(0, k)) is Err,
    ensures
        machines_in(lines) == machines_in(lines.subrange(0, k)),
    decreases lines.len(),
{
    if k == lines.len() {
        assert(lines.subrange(0, k) =~= lines);
    } else {
        assert(lines.drop_last().subrange(0, k) =~= lines.subrange(0, k));
        lemma_error_stays(lines.drop_last(), k);
    }
}

/// One machine per non-blank line of `input`; the error names the first
/// line that is no machine.
pub fn parse_input(input: &str) -> (r: Result<Vec<Machine>, ParseError>)
    ensures
        r matches Ok(ms) ==> machines_in(lines_of(input.spec_bytes())) == Ok::<Seq<MachineView>, nat>(
            ms@.map_values(|m: Machine| machine_view(m)),
        ),
        r matches Err(e) ==> machines_in(lines_of(input.spec_bytes())) == Err::<Seq<MachineView>, nat>(
            e.line as nat,
        ),
{
    let s = input.as_bytes();
    let spans = line_spans(s);
    let ghost lines = lines_of(s@);
    let mut out: Vec<Machine> = Vec::new();
    let mut i: usize = 0;
    proof {
        assert forall|q: int|
            0 <= q < spans.len() implies (#[trigger] spans@[q]).0 <= spans@[q].1 <= s@.len()
                && s@.subrange(spans@[q].0 as int, spans@[q].1 as int) == lines[q] by {
            assert(s@.subrange(spans@[q].0 as int, spans@[q].1 as int) == lines_of(s@)[q]);
        }
        assert(lines.subrange(0, 0) =~= Seq::<Seq<u8>>::empty());
        assert(out@.map_values(|m: Machine| machine_view(m)) =~= Seq::<MachineView>::empty());
    }
    while i < spans.len()
        invariant
            i <= spans.len(),
            spans.len() == lines.len(),
            lines == lines_of(s@),
            s@ == input.spec_bytes(),
            forall|q: int|
                0 <= q < spans.len() ==> (#[trigger] spans@[q]).0 <= spans@[q].1 <= s@.len()
                    && s@.subrange(spans@[q].0 as int, spans@[q].1 as int) == lines[q],
            machines_in(lines.subrange(0, i as int)) == Ok::<Seq<MachineView>, nat>(
                out@.map_values(|m: Machine| machine_view(m)),
            ),
        decreases spans.len() - i,
    {
        let (a, b) = spans[i];
        let ghost line = lines[i as int];
        assert(s@.subrange(a as int, b as int) == line);
        assert(lines.subrange(0, i + 1).drop_last() =~= lines.subrange(0, i as int));
        let (ta, tb) = trim_span(s, a, b);
        if ta < tb {
            let bytes = copy_span(s, a, b);
            match machine_from(bytes.as_slice()) {
                Some(m) => {
                    let ghost o0 = out@;
                    out.push(m);
                    assert(out@.map_values(|m: Machine| machine_view(m)) =~= o0.map_values(
                        |m: Machine| machine_view(m),
                    ).push(machine_view(m)));
                },
                None => {
                    proof {
                        assert(lines.subrange(0, i + 1).last() == line);
                        assert(trim(line).len() > 0);
                        assert(machines_in(lines.subrange(0, i + 1)) == Err::<Seq<MachineView>, nat>(i as nat));
                        lemma_error_stays(lines, i + 1);
                    }
                    return Err(ParseError { line: i });
                },
            }
        }
        i += 1;
    }
    assert(lines.subrange(0, i as int) =~= lines);
    Ok(out)
}

} // verus!
