use aoc25::day10::part2::{self, counters_after, fewest_presses, solve_accumulate, SolveError};
use aoc25::day10::{parser, solver, solve_part1, solve_part2, solve_part2_within, BatchError, Machine};
use std::time::{Duration, Instant};

const EXAMPLE: &str = "[.##.] (3) (1,3) (2) (2,3) (0,2) (0,1) {3,5,4,7}
[...#.] (0,2,3,4) (2,3) (0,4) (0,1,2) (1,2,3,4) {7,5,12,7,2}
[.###.#] (0,1,2,3,4) (0,3,4) (0,1,2,4,5) (1,2) {10,11,11,5,10,5}";

fn accumulation(buttons: Vec<Vec<usize>>, joltage: Vec<u64>) -> Machine {
    Machine { target: vec![], buttons, joltage }
}

fn toggle(target: Vec<bool>, buttons: Vec<Vec<usize>>) -> Machine {
    Machine { target, buttons, joltage: vec![] }
}

#[test]
fn test_part1_example() {
    assert_eq!(solve_part1(EXAMPLE).unwrap(), 7);
}

#[test]
fn test_part2_example() {
    assert_eq!(solve_part2(EXAMPLE).unwrap(), 33);
}

#[test]
fn parser_test_parse_simple() {
    let input = "[.##.] (3) (1,3) (2) {3,5,4,7}";
    let machine = parser::parse_machine(input).unwrap();

    assert_eq!(machine.target, vec![false, true, true, false]);
    assert_eq!(machine.buttons.len(), 3);
    assert_eq!(machine.buttons[0], vec![3]);
    assert_eq!(machine.buttons[1], vec![1, 3]);
    assert_eq!(machine.buttons[2], vec![2]);
}

#[test]
fn test_example() {
    assert_eq!(solve_part1(EXAMPLE).unwrap(), 7);
}

#[test]
fn test_joltage_machine() {
    let machine = accumulation(
        vec![vec![3], vec![1, 3], vec![2], vec![2, 3], vec![0, 2], vec![0, 1]],
        vec![3, 5, 4, 7],
    );
    assert_eq!(part2::solve_machine(&machine), Some(10));
}

#[test]
fn test_simple_case() {
    let machine = accumulation(vec![vec![0, 2], vec![1, 2, 3], vec![2, 3]], vec![110, 10, 120, 10]);
    assert!(part2::solve_machine(&machine).is_some());
}

#[test]
fn test_example_machine_2() {
    let machine = accumulation(
        vec![vec![0, 2, 3, 4], vec![2, 3], vec![0, 4], vec![0, 1, 2], vec![1, 2, 3, 4]],
        vec![7, 5, 12, 7, 2],
    );
    assert_eq!(part2::solve_machine(&machine), Some(12));
}

#[test]
fn test_first_real_machine() {
    let machine = accumulation(vec![vec![0], vec![1]], vec![5, 3]);
    let result = part2::solve_machine(&machine);
    assert!(result.is_some());
    assert_eq!(result.unwrap(), 8);
}

#[test]
fn solver_test_parse_simple() {
    let input = "[.##.] (3) (1,3) (2) {3,5,4,7}";
    let machine = solver::parse_machine(input).unwrap();

    assert_eq!(machine.target, vec![false, true, true, false]);
    assert_eq!(machine.buttons.len(), 3);
    assert_eq!(machine.buttons[0], vec![3]);
    assert_eq!(machine.buttons[1], vec![1, 3]);
    assert_eq!(machine.buttons[2], vec![2]);
}

#[test]
fn test_simple_machine() {
    let machine = toggle(
        vec![false, true, true, false],
        vec![vec![3], vec![1, 3], vec![2], vec![2, 3], vec![0, 2], vec![0, 1]],
    );
    assert_eq!(solver::solve_machine(&machine), Some(2));
}

#[test]
fn parse_reads_joltage() {
    let machine = parser::parse_machine("[.##.] (3) (1,3) (2) {3,5,4,7}").unwrap();
    assert_eq!(machine.joltage, vec![3, 5, 4, 7]);
}

#[test]
fn parse_rejects_malformed_lines() {
    assert!(parser::parse_machine("(1) (2) {1,2}").is_none());
    assert!(parser::parse_machine("[.#] {1,2}").is_none());
    assert!(parser::parse_machine("[.#] (1,x) {1,2}").is_none());
    assert!(parser::parse_machine("[.#] (1 {1,2}").is_none());
    assert!(parser::parse_machine("[.#] (1) {1,2").is_none());
}

#[test]
fn parse_input_names_the_bad_line() {
    let input = "[.#] (1) {1,1}\n\n[#] (0,) {1}\n";
    assert_eq!(parser::parse_input(input).unwrap_err().line, 2);
    assert_eq!(solve_part1(input), Err(BatchError::Parse(parser::ParseError { line: 2 })));
}

#[test]
fn parse_input_skips_blank_lines() {
    let input = "\n[.#] (1) {1,1}\n   \n[#] (0) {1}\n";
    assert_eq!(parser::parse_input(input).unwrap().len(), 2);
}

#[test]
fn toggle_unsolvable_machine() {
    // light 1 is touched by no button
    let machine = toggle(vec![false, true], vec![vec![0]]);
    assert_eq!(solver::solve_machine(&machine), None);
    assert_eq!(solve_part1("[.#] (0) {1,1}"), Err(BatchError::Unsolvable(0)));
}

#[test]
fn toggle_free_variables_give_the_minimum() {
    // buttons 0 and 1 do the same thing; button 2 alone lights both lights
    let machine = toggle(vec![true, true], vec![vec![0], vec![0], vec![1], vec![0, 1]]);
    assert_eq!(solver::solve_machine(&machine), Some(1));
    let machine = toggle(vec![false, false], vec![vec![0], vec![1]]);
    assert_eq!(solver::solve_machine(&machine), Some(0));
}

#[test]
fn accumulation_infeasible_is_unsolvable() {
    // counter 0 needs 5 but its only button is capped at 3 by counter 1
    let machine = accumulation(vec![vec![0, 1]], vec![5, 3]);
    assert_eq!(part2::solve_machine(&machine), None);
    let far = Instant::now() + Duration::from_secs(60);
    assert_eq!(solve_accumulate(&machine, far), Err(SolveError::Unsolvable));
    assert_eq!(solve_part2("[..] (0,1) {5,3}"), Err(BatchError::Unsolvable(0)));
}

#[test]
fn accumulation_with_deadline_matches_exact_search() {
    let machine = accumulation(
        vec![vec![0, 2, 3, 4], vec![2, 3], vec![0, 4], vec![0, 1, 2], vec![1, 2, 3, 4]],
        vec![7, 5, 12, 7, 2],
    );
    let far = Instant::now() + Duration::from_secs(60);
    assert_eq!(solve_accumulate(&machine, far), Ok(12));
}

#[test]
fn accumulation_times_out_on_a_large_instance() {
    let mut buttons = Vec::new();
    for a in 0..14usize {
        buttons.push(vec![a % 7, (a * 3 + 1) % 7]);
    }
    let machine = accumulation(buttons, vec![400, 401, 402, 403, 404, 405, 407]);
    let deadline = Instant::now() + Duration::from_millis(1);
    assert_eq!(solve_accumulate(&machine, deadline), Err(SolveError::Timeout));
}

#[test]
fn accumulation_untouched_button_is_never_pressed() {
    let machine = accumulation(vec![vec![], vec![0], vec![7]], vec![4]);
    assert_eq!(part2::solve_machine(&machine), Some(4));
}

/// Small deterministic generator for randomized instances.
struct Lcg(u64);

impl Lcg {
    fn next(&mut self, bound: u64) -> u64 {
        self.0 = self.0.wrapping_mul(6364136223846793005).wrapping_add(1442695040888963407);
        (self.0 >> 33) % bound
    }
}

fn brute_accumulate(buttons: &[Vec<usize>], joltage: &[u64]) -> Option<u128> {
    fn go(b: usize, buttons: &[Vec<usize>], left: &mut Vec<i64>, used: u128, best: &mut Option<u128>) {
        if b == buttons.len() {
            if left.iter().all(|&v| v == 0) && best.map_or(true, |x| used < x) {
                *best = Some(used);
            }
            return;
        }
        let mut k = 0u128;
        loop {
            go(b + 1, buttons, left, used + k, best);
            if buttons[b].is_empty() || buttons[b].iter().any(|&c| left[c] == 0) {
                break;
            }
            for &c in &buttons[b] {
                left[c] -= 1;
            }
            k += 1;
        }
        for &c in &buttons[b] {
            left[c] += k as i64;
        }
    }
    let mut left: Vec<i64> = joltage.iter().map(|&v| v as i64).collect();
    let mut best = None;
    go(0, buttons, &mut left, 0, &mut best);
    best
}

fn brute_toggle(buttons: &[Vec<usize>], target: &[bool]) -> Option<usize> {
    let mut best: Option<usize> = None;
    for mask in 0u32..(1 << buttons.len()) {
        let mut lights = vec![false; target.len()];
        for (b, button) in buttons.iter().enumerate() {
            if mask & (1 << b) != 0 {
                for &c in button {
                    lights[c] = !lights[c];
                }
            }
        }
        if lights == target {
            let w = mask.count_ones() as usize;
            if best.map_or(true, |x| w < x) {
                best = Some(w);
            }
        }
    }
    best
}

fn random_buttons(rng: &mut Lcg, counters: usize) -> Vec<Vec<usize>> {
    let n = 1 + rng.next(6) as usize;
    let mut buttons = Vec::new();
    for _ in 0..n {
        let mut b: Vec<usize> = (0..counters).filter(|_| rng.next(2) == 1).collect();
        if b.is_empty() {
            b.push(rng.next(counters as u64) as usize);
        }
        buttons.push(b);
    }
    buttons
}

#[test]
fn solvers_agree_with_brute_force_on_random_instances() {
    let mut rng = Lcg(7);
    for _ in 0..200 {
        let counters = 1 + rng.next(4) as usize;
        let buttons = random_buttons(&mut rng, counters);
        let joltage: Vec<u64> = (0..counters).map(|_| rng.next(6)).collect();
        let target: Vec<bool> = (0..counters).map(|_| rng.next(2) == 1).collect();
        let acc = accumulation(buttons.clone(), joltage.clone());
        assert_eq!(part2::solve_machine(&acc), brute_accumulate(&buttons, &joltage));
        let tog = toggle(target.clone(), buttons.clone());
        assert_eq!(solver::solve_machine(&tog), brute_toggle(&buttons, &target));
    }
}

#[test]
fn toggle_witness_reconstructs_the_minimum() {
    let machine = toggle(
        vec![false, true, true, false],
        vec![vec![3], vec![1, 3], vec![2], vec![2, 3], vec![0, 2], vec![0, 1]],
    );
    let presses = solver::fewest_toggles(&machine).unwrap();
    assert_eq!(presses.iter().filter(|&&p| p).count(), 2);
    assert_eq!(solver::lights_after(&machine, &presses), machine.target);
}

#[test]
fn accumulation_witness_reconstructs_the_minimum() {
    let far = Instant::now() + Duration::from_secs(60);
    let cases = [
        (vec![vec![3], vec![1, 3], vec![2], vec![2, 3], vec![0, 2], vec![0, 1]], vec![3u64, 5, 4, 7], 10u64),
        (
            vec![vec![0, 2, 3, 4], vec![2, 3], vec![0, 4], vec![0, 1, 2], vec![1, 2, 3, 4]],
            vec![7, 5, 12, 7, 2],
            12,
        ),
    ];
    for (buttons, joltage, best) in cases {
        let machine = accumulation(buttons, joltage.clone());
        let presses = fewest_presses(&machine, far).unwrap();
        assert_eq!(presses.iter().sum::<u64>(), best);
        let reached: Vec<u128> = joltage.iter().map(|&v| v as u128).collect();
        assert_eq!(counters_after(&machine, &presses), reached);
    }
}

#[test]
fn pressing_a_toggle_twice_changes_nothing() {
    let machine = toggle(vec![false, false, false], vec![vec![0, 1], vec![1, 2], vec![2]]);
    let once = solver::lights_after(&machine, &vec![true, false, true]);
    assert_eq!(once, vec![true, true, true]);
    // two presses of every button: each light sees an even number of toggles
    let mut lights = vec![false; 3];
    for _ in 0..2 {
        for b in &machine.buttons {
            for &c in b {
                lights[c] = !lights[c];
            }
        }
    }
    assert_eq!(lights, solver::lights_after(&machine, &vec![false, false, false]));
}

#[test]
fn parse_enforces_the_machine_invariants() {
    // a button index past the lights
    assert!(parser::parse_machine("[.#] (2) {1,1}").is_none());
    // one joltage per light
    assert!(parser::parse_machine("[.#] (1) {1,1,1}").is_none());
    assert!(parser::parse_machine("[.#] (1)").is_none());
    // a plus sign and wide blanks inside lists are fine
    let m = parser::parse_machine("[.#] (+1,\u{a0}0) {\u{c}1, +2}").unwrap();
    assert_eq!(m.buttons, vec![vec![1, 0]]);
    assert_eq!(m.joltage, vec![1, 2]);
}

#[test]
fn batch_reports_the_first_unsolvable_machine() {
    let input = "[.#] (1) {1,1}\n[.#] (0) {1,1}\n[#.] (1) {1,1}\n";
    assert_eq!(solve_part1(input), Err(BatchError::Unsolvable(1)));
    let input = "[..] (0,1) {1,1}\n[..] (0,1) {5,3}\n[..] (0) {1,2}\n";
    assert_eq!(solve_part2(input), Err(BatchError::Unsolvable(1)));
}

#[test]
fn batch_within_a_deadline() {
    let far = Instant::now() + Duration::from_secs(60);
    assert_eq!(solve_part2_within(EXAMPLE, far), Ok(33));
    assert_eq!(solve_part2_within("[..] (0,1) {5,3}", far), Err(BatchError::Unsolvable(0)));
    let mut big = String::from("[..] (0,1) {1,1}\n[.......] ");
    for a in 0..14usize {
        big.push_str(&format!("({},{}) ", a % 7, (a * 3 + 1) % 7));
    }
    big.push_str("{400,401,402,403,404,405,407}\n");
    let soon = Instant::now() + Duration::from_millis(1);
    assert_eq!(solve_part2_within(&big, soon), Err(BatchError::Timeout(1)));
}

#[test]
fn a_duplicated_button_changes_nothing() {
    let buttons = vec![vec![3], vec![1, 3], vec![2], vec![2, 3], vec![0, 2], vec![0, 1]];
    let target = vec![false, true, true, false];
    let base = solver::solve_machine(&toggle(target.clone(), buttons.clone()));
    for b in 0..buttons.len() {
        let mut twice = buttons.clone();
        twice.push(buttons[b].clone());
        assert_eq!(solver::solve_machine(&toggle(target.clone(), twice)), base);
    }
    // an unsolvable machine stays unsolvable
    let none = toggle(vec![false, true], vec![vec![0], vec![0]]);
    assert_eq!(solver::solve_machine(&none), None);
}
