use aoc25::day9::{parse_points_set, parse_points_vec, point_in_polygon, solve_part1, solve_part2, visualize_floor, Point};

const EXAMPLE: &str = "7,1
11,1
11,7
9,7
9,5
2,5
2,3
7,3";

fn parse(input: &str) -> Vec<Point> {
    parse_points_set(input).unwrap()
}

#[test]
fn example_largest_rectangle() {
    assert_eq!(solve_part1(EXAMPLE), 50);
}

#[test]
fn visualize_red_tiles_only() {
    let points = parse(EXAMPLE);
    let floor = visualize_floor(&points, None, true);
    println!("\nRed tiles only:\n{}", floor);

    let expected = "..............
.......#...#..
..............
..#....#......
..............
..#......#....
..............
.........#.#..
..............
";
    assert_eq!(floor, expected);
}

#[test]
fn visualize_with_small_rectangle() {
    let points = parse(EXAMPLE);
    let p1 = Point { x: 2, y: 5 };
    let p2 = Point { x: 9, y: 7 };
    let floor = visualize_floor(&points, Some((p1, p2)), true);
    println!("\nRectangle 2,5 to 9,7 (area 24):\n{}", floor);

    let expected = "..............
.......#...#..
..............
..#....#......
..............
..OOOOOOOO....
..OOOOOOOO....
..OOOOOOOO.#..
..............
";
    assert_eq!(floor, expected);
}

#[test]
fn visualize_with_largest_rectangle() {
    let points = parse(EXAMPLE);
    let p1 = Point { x: 2, y: 1 };
    let p2 = Point { x: 11, y: 5 };
    let floor = visualize_floor(&points, Some((p1, p2)), true);
    println!("\nLargest rectangle 2,1 to 11,5 (area 50):\n{}", floor);

    let expected = "..............
..OOOOOOOOOO..
..OOOOOOOOOO..
..OOOOOOOOOO..
..OOOOOOOOOO..
..OOOOOOOOOO..
..............
.........#.#..
..............
";
    assert_eq!(floor, expected);
}

#[test]
fn large_coordinate_values() {
    // Test with large input values
    let input = "97498,50350
2103,50332";
    let result = solve_part1(input);
    // (97498-2103+1) * (50350-50332+1) = 95396 * 19 = 1,812,524
    assert_eq!(result, 1_812_524);
}

#[test]
fn points_parse_signs_and_repeats() {
    let v = parse_points_vec("-3,+4\n\n5, -6\n-3,4\n").unwrap();
    assert_eq!(v, vec![Point { x: -3, y: 4 }, Point { x: 5, y: -6 }, Point { x: -3, y: 4 }]);
    assert_eq!(parse(" -3,4\n5,-6\n-3,4\n"), vec![Point { x: -3, y: 4 }, Point { x: 5, y: -6 }]);
    assert!(parse_points_vec("1;2\n").is_none());
    assert!(parse_points_vec("1,2,3\n").is_none());
    assert!(parse_points_vec("9223372036854775808,0\n").is_none());
    assert_eq!(
        parse_points_vec("-9223372036854775808,0").unwrap(),
        vec![Point { x: i64::MIN, y: 0 }]
    );
}

#[test]
fn fewer_than_two_tiles_make_no_rectangle() {
    assert_eq!(solve_part1("4,4\n4,4\n"), 0);
    assert_eq!(solve_part1(""), 0);
    assert_eq!(visualize_floor(&Vec::new(), None, false), "");
}

#[test]
fn dynamic_bounds_follow_the_points() {
    let points = parse("1,1\n3,2\n");
    assert_eq!(visualize_floor(&points, None, false), "#..\n..#\n");
}

#[test]
fn example_part2() {
    assert_eq!(solve_part2(EXAMPLE), 24);
}

#[test]
fn point_in_polygon_counts_the_boundary() {
    let poly = parse_points_vec(EXAMPLE).unwrap();
    assert!(point_in_polygon(Point { x: 7, y: 1 }, &poly));
    assert!(point_in_polygon(Point { x: 9, y: 1 }, &poly));
    assert!(point_in_polygon(Point { x: 8, y: 4 }, &poly));
    assert!(!point_in_polygon(Point { x: 1, y: 1 }, &poly));
    assert!(!point_in_polygon(Point { x: 3, y: 1 }, &poly));
    assert!(!point_in_polygon(Point { x: 0, y: 0 }, &poly[..2].to_vec()));
}

#[test]
fn coordinates_with_wide_blanks_and_signs() {
    let v = parse_points_vec("\u{c}+3\u{a0}, -4\u{b}\n").unwrap();
    assert_eq!(v, vec![Point { x: 3, y: -4 }]);
    assert!(parse_points_vec("- 3,4\n").is_none());
    assert!(parse_points_vec("-+3,4\n").is_none());
}
