use aoc25::day5::{solve, InventoryError};

#[test]
fn example_from_readme() {
    let input = "\
3-5
10-14
16-20
12-18

1
5
8
11
17
32
";
    let (part1, part2) = solve(input).unwrap();
    assert_eq!(part1, 3); // 5, 11, 17 are fresh (in ranges)
    assert_eq!(part2, 14); // total IDs: 3,4,5,10-20 = 14 IDs
}

#[test]
fn all_queries_in_range() {
    let input = "\
1-10

3
5
7
";
    let (part1, part2) = solve(input).unwrap();
    assert_eq!(part1, 3); // all fresh
    assert_eq!(part2, 10); // 1-10 = 10 IDs
}

#[test]
fn no_queries_in_range() {
    let input = "\
10-20

1
2
30
";
    let (part1, part2) = solve(input).unwrap();
    assert_eq!(part1, 0); // none fresh
    assert_eq!(part2, 11); // 10-20 = 11 IDs
}

#[test]
fn overlapping_ranges() {
    let input = "\
5-10
8-15

7
12
20
";
    let (part1, part2) = solve(input).unwrap();
    assert_eq!(part1, 2); // 7, 12 are fresh
    assert_eq!(part2, 11); // merged 5-15 = 11 IDs
}

#[test]
fn non_overlapping_ranges() {
    let input = "\
1-5
10-15
20-25

3
";
    let (part1, part2) = solve(input).unwrap();
    assert_eq!(part1, 1);
    assert_eq!(part2, 17); // 5 + 6 + 6 = 17 IDs
}

#[test]
fn adjacent_ranges_merge() {
    let input = "\
1-5
6-10

3
";
    let (_part1, part2) = solve(input).unwrap();
    assert_eq!(part2, 10); // 1-10 merged = 10 IDs
}

#[test]
fn handles_invalid_range_format() {
    let input = "\
not-a-range

5
";
    assert!(solve(input).is_err());
}

#[test]
fn handles_reversed_range() {
    let input = "\
10-5

7
";
    assert!(solve(input).is_err());
}

#[test]
fn handles_large_numbers() {
    let input = "\
263168346238540-263168346238550

263168346238545
999999999999999
";
    let (part1, part2) = solve(input).unwrap();
    assert_eq!(part1, 1); // one query in range
    assert_eq!(part2, 11); // 263168346238540-263168346238550 = 11 IDs
}

#[test]
fn handles_empty_queries() {
    let input = "\
1-10

";
    assert!(solve(input).is_err());
}

#[test]
fn each_error_kind() {
    assert_eq!(solve("1-2\n3\n"), Err(InventoryError::Sections));
    assert_eq!(solve("1-2\n\n3\n\n4\n"), Err(InventoryError::Sections));
    assert_eq!(solve("1-2\n1-2-3\n\n3\n"), Err(InventoryError::BadRange(1)));
    assert_eq!(solve("1-2\n9-3\n\n3\n"), Err(InventoryError::Reversed(1)));
    assert_eq!(solve("1-2\n\n3\nx\n"), Err(InventoryError::BadQuery(1)));
    assert_eq!(solve("1-2\n\n \n"), Err(InventoryError::NoQueries));
}

#[test]
fn unsorted_nested_ranges_count_once() {
    assert_eq!(solve("20-30\n1-100\n40-45\n0-0\n\n0\n101\n").unwrap(), (1, 101));
}

#[test]
fn plus_signs_and_wide_blanks_are_accepted() {
    assert_eq!(solve("1-5\n\n+3").unwrap(), (1, 5));
    assert_eq!(solve("+1-\u{b}5\u{2003}\n\n\u{a0}4\u{c}\n").unwrap(), (1, 5));
    assert_eq!(solve("1-5\n\n+\n"), Err(InventoryError::BadQuery(0)));
    assert_eq!(solve("1-5\n\n-3\n"), Err(InventoryError::BadQuery(0)));
}
