use aoc25::day7::{solve, solve_part1, solve_part2};

const EXAMPLE: &str = ".......S.......\n\
                       ...............\n\
                       .......^.......\n\
                       ...............\n\
                       ......^.^......\n\
                       ...............\n\
                       .....^.^.^.....\n\
                       ...............\n\
                       ....^.^...^....\n\
                       ...............\n\
                       ...^.^...^.^...\n\
                       ...............\n\
                       ..^...^.....^..\n\
                       ...............\n\
                       .^.^.^.^.^...^.\n\
                       ...............";

#[test]
fn example_part1_splits() {
    assert_eq!(solve_part1(EXAMPLE), 21);
}

#[test]
fn example_part2_timelines() {
    assert_eq!(solve_part2(EXAMPLE), 40);
}

#[test]
fn beams_leaving_the_sides_still_count_as_timelines() {
    // the splitter sits on the left edge: one way out the side, one down
    let input = "S..\n^..\n...\n";
    assert_eq!(solve_part1(input), 1);
    assert_eq!(solve_part2(input), 2);
}

#[test]
fn start_on_the_last_row_sends_no_beam() {
    assert_eq!(solve_part1("...\n.S.\n"), 0);
    assert_eq!(solve_part2("...\n.S.\n"), 0);
}

#[test]
fn splitters_below_one_another() {
    // the beams from the top splitter meet the two below it
    let input = "..S..\n..^..\n.^.^.\n.....\n";
    assert_eq!(solve_part1(input), 3);
    assert_eq!(solve_part2(input), 4);
}

#[test]
fn example_splits() {
    assert_eq!(solve(EXAMPLE), 21);
}

#[test]
fn a_splitter_hit_by_two_beams_counts_once() {
    // the beam down column 1 and the beam sent left from row 3 both fall
    // onto the splitter of row 5, which counts once
    let input = "..S...\n..^...\n...^..\n..^...\n......\n.^....\n......\n";
    assert_eq!(solve_part1(input), 4);
    assert_eq!(solve(input), 4);
    assert_eq!(solve_part2(input), 6);
}

#[test]
fn splitters_side_by_side_pass_beams_along() {
    // the beam hits the middle of three splitters; the run sends beams to
    // both of its ends and past them
    let input = "..S..\n.^^^.\n.....\n";
    assert_eq!(solve_part1(input), 3);
    assert_eq!(solve(input), 3);
}
