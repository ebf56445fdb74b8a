use aoc25::day4::{solve, solve_part2};

const EXAMPLE: &str = "\
..@@.@@@@.
@@@.@.@.@@
@@@@@.@.@@
@.@@@@..@.
@@.@@@@.@@
.@@@@@@@.@
.@.@.@.@@@
@.@@@.@@@@
.@@@@@@@@.
@.@.@@@.@.
";

#[test]
fn example_from_readme_part1() {
    assert_eq!(solve(EXAMPLE), 13);
}

#[test]
fn example_from_readme_part2() {
    assert_eq!(solve_part2(EXAMPLE), 43);
}

#[test]
fn single_roll_accessible() {
    let input = "@\n";
    assert_eq!(solve(input), 1);
    assert_eq!(solve_part2(input), 1);
}

#[test]
fn fully_surrounded_not_accessible() {
    let input = "\
@@@
@@@
@@@
";
    assert_eq!(solve(input), 4);
    assert_eq!(solve_part2(input), 9);
}

#[test]
fn part2_iterative_removal() {
    let input = "\
@@
@@
";
    assert_eq!(solve(input), 4);
    assert_eq!(solve_part2(input), 4);
}

#[test]
fn empty_grid_has_no_rolls() {
    assert_eq!(solve(""), 0);
    assert_eq!(solve_part2(""), 0);
}

#[test]
fn exactly_four_neighbours_blocks_access() {
    // the centre has four neighbours; the corners have two each
    let input = "@.@\n.@.\n@.@\n";
    assert_eq!(solve(input), 4);
    assert_eq!(solve_part2(input), 5);
}
