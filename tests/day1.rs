use aoc25::day1::{parse_rotations, solve};

#[test]
fn example() {
    let input = "\
L68
L30
R48
L5
R60
L55
L1
L99
R14
L82
";
    let (p1, p2) = solve(input);
    assert_eq!(p1, 3);
    assert_eq!(p2, 6);
}

#[test]
fn large_rotation_counts_multiple_hits() {
    // starting at 50, R1000 -> passes 0 ten times (k_first = 50 -> 50,150,...,950)
    let (p1, p2) = solve("R1000\n");
    // final position returns to 50 -> part1 = 0
    assert_eq!(p1, 0);
    assert_eq!(p2, 10);
}

#[test]
fn left_turn_from_zero_counts_full_turns_only() {
    // L50 stops on 0; L100 from 0 lands on 0 once more; L99 never reaches it
    assert_eq!(solve("L50\nL100\nL99\n"), (2, 2));
}

#[test]
fn lower_case_and_blank_lines() {
    assert_eq!(solve("r50\n\n  l1 \n"), (1, 1));
}

#[test]
fn malformed_rotation_is_rejected() {
    assert!(parse_rotations("R10\nX5\n").is_none());
    assert!(parse_rotations("R\n").is_none());
    assert_eq!(parse_rotations("R10\nL5\n"), Some(vec![(true, 10), (false, 5)]));
}

#[test]
fn signed_click_counts_parse_like_integers() {
    assert_eq!(parse_rotations("R+5\nL-3\n"), Some(vec![(true, 5), (false, -3)]));
    // the count follows the letter at once
    assert!(parse_rotations("R 5\n").is_none());
    assert!(parse_rotations("R+-5\n").is_none());
    // a negative count turns the other way and lands on no click
    assert_eq!(solve("R-50\n"), (1, 0));
    assert_eq!(solve("L+50\n"), (1, 1));
}

#[test]
fn unicode_blanks_around_a_line_are_trimmed() {
    assert_eq!(solve("\u{a0}R50\u{3000}\n\u{c}\n"), (1, 1));
}
