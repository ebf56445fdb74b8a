use aoc25::day3::{max_subsequence_value, solve, solve_part2};

const EXAMPLE: &str = "\
987654321111111
811111111111119
234234234234278
818181911112111
";

#[test]
fn main_example_from_readme() {
    assert_eq!(solve(EXAMPLE), 357);
}

#[test]
fn handles_non_digits_and_short_lines() {
    let input = "\
12a3
9
ab45
";
    assert_eq!(solve(input), 23 + 0 + 45);
}

#[test]
fn main_part2_example_from_readme() {
    assert_eq!(solve_part2(EXAMPLE), 3_121_910_778_619u128);
}

#[test]
fn max_subsequence_simple_cases() {
    let digits = b"123456789".iter().map(|b| b - b'0').collect::<Vec<u8>>();
    assert_eq!(max_subsequence_value(&digits, 2), 89u128);
    assert_eq!(max_subsequence_value(&digits, 3), 789u128);

    let digits2 = b"998877".iter().map(|b| b - b'0').collect::<Vec<u8>>();
    assert_eq!(max_subsequence_value(&digits2, 4), 9988u128);
}

#[test]
fn too_few_digits_give_zero() {
    assert_eq!(max_subsequence_value(&[4, 2], 3), 0);
    assert_eq!(max_subsequence_value(&[4, 2], 0), 0);
    assert_eq!(max_subsequence_value(&[1, 9, 1, 9], 2), 99);
}
