use advent::parse_lines;
use advent::y2018::day1;
use advent::y2018::day2::helpers::{extract, repeated};
use advent::y2018::day3;
use advent::y2018::day4;
use advent::y2018::day5;
use advent::y2018::day6::{glyph, owner, Point};
use std::str::FromStr;

#[test]
fn examples() {
    assert_eq!(day1::part1(&[1, 1, 1]), 3);
    assert_eq!(day1::part1(&[1, 1, -2]), 0);
    assert_eq!(day1::part1(&[-1, -2, -3]), -6);
    assert_eq!(day1::part2(&[1, -1]), 0);
    assert_eq!(day1::part2(&[3, 3, 4, -2, -4]), 10);
    assert_eq!(day1::part2(&[-6, 3, 8, 5, -6]), 5);
    assert_eq!(day1::part2(&[7, 7, -2, -7, -4]), 14);
}

#[test]
fn day5_examples() {
    let input = "dabAcCaCBAcCcaDA";
    assert_eq!(10, day5::part1(input.as_bytes()));
    assert_eq!(4, day5::part2(input));
}

#[test]
fn inverses_differ_in_case_only() {
    assert!(day5::inverses(b'a', b'A'));
    assert!(day5::inverses(b'Z', b'z'));
    assert!(!day5::inverses(b'a', b'a'));
    assert!(!day5::inverses(b'a', b'B'));
    assert!(day5::inverses(32, 0));
}

#[test]
fn reduction_goes_on_until_nothing_reacts() {
    assert_eq!(day5::part1(b"aA"), 0);
    assert_eq!(day5::part1(b"abBA"), 0);
    assert_eq!(day5::part1(b"abAB"), 4);
    assert_eq!(day5::part1(b"aabAAB"), 6);
    assert_eq!(day5::part1(b""), 0);
}

#[test]
fn day6_examples() {
    let input = r"
    1, 1
    1, 6
    8, 3
    3, 4
    5, 5
    8, 9";
    let points = parse_lines::<Point>(input);
    assert_eq!(
        points,
        vec![Point(1, 1), Point(1, 6), Point(8, 3), Point(3, 4), Point(5, 5), Point(8, 9)]
    );
}

#[test]
fn day6_solution() {
    assert!(true);
}

#[test]
fn y2018_day2_examples() {
    let one: Vec<&str> = r"
    abcdef
    bababc
    abbcde
    abcccd
    aabcdd
    abcdee
    ababab
    "
    .lines()
    .map(str::trim)
    .filter(|s| !s.is_empty())
    .collect();

    let two: Vec<&str> = r"
    abcde
    fghij
    klmno
    pqrst
    fguij
    axcye
    wvxyz
    "
    .lines()
    .map(str::trim)
    .filter(|s| !s.is_empty())
    .collect();

    assert_eq!(advent::y2018::day2::part1(&one), 12);
    assert_eq!(advent::y2018::day2::part2(&two), String::from("fgij"));
}

#[test]
fn y2018_day3_examples() {
    let fabric = advent::y2018::day3::read(
        r"
#1 @ 1,3: 4x4
#2 @ 3,1: 4x4
#3 @ 5,5: 2x2
    ",
    );
    assert_eq!(4, advent::y2018::day3::part1(&fabric));
    assert_eq!(3, advent::y2018::day3::part2(&fabric))
}

#[test]
fn y2018_day4_examples() {
    let input = r"
[1518-11-01 00:00] Guard #10 begins shift
[1518-11-01 00:05] falls asleep
[1518-11-01 00:25] wakes up
[1518-11-01 00:30] falls asleep
[1518-11-01 00:55] wakes up
[1518-11-03 00:05] Guard #10 begins shift
[1518-11-01 23:58] Guard #99 begins shift
[1518-11-02 00:40] falls asleep
[1518-11-02 00:50] wakes up
[1518-11-03 00:24] falls asleep
[1518-11-04 00:36] falls asleep
[1518-11-03 00:29] wakes up
[1518-11-04 00:02] Guard #99 begins shift
[1518-11-05 00:03] Guard #99 begins shift
[1518-11-04 00:46] wakes up
[1518-11-05 00:45] falls asleep
[1518-11-05 00:55] wakes up
";
    let log = advent::y2018::day4::read(input);
    let (guard, minute) = advent::y2018::day4::part1(&log);

    assert_eq!(240, guard * minute);

    let (guard, minute) = advent::y2018::day4::part2(&log);
    assert_eq!(4455, guard * minute);
}

#[test]
fn a_square_is_owned_by_its_only_nearest_point() {
    let points = vec![Point(1, 1), Point(1, 6), Point(8, 3), Point(3, 4), Point(5, 5), Point(8, 9)];
    assert_eq!(owner(&points, 0, 0), 0);
    assert_eq!(owner(&points, 4, 4), 3);
    assert_eq!(owner(&points, 5, 0), -1);
    assert_eq!(owner(&points, 1, 4), -1);
    assert_eq!(owner(&points, 8, 9), 5);
    assert_eq!(owner(&[], 3, 3), -1);
    assert_eq!(owner(&[Point(2, 2), Point(2, 2)], 2, 2), -1);
    assert_eq!(glyph(0), 'a');
    assert_eq!(glyph(5), 'f');
    assert_eq!(glyph(-1), '.');
    assert_eq!(glyph(256 + 2), 'c');
}

#[test]
fn points_are_read_from_two_numbers() {
    assert_eq!(Point::from_str("3, 4"), Ok(Point(3, 4)));
    assert_eq!(Point::from_str("3,4"), Ok(Point(3, 4)));
    assert_eq!(Point::from_str("3"), Err(advent::TRUST));
    assert_eq!(Point::from_str("1, 2, 3"), Err(advent::TRUST));
    assert_eq!(Point::from_str("1, 70000"), Err(advent::TRUST));
}

#[test]
fn first_repeated_frequency_may_be_the_start() {
    assert_eq!(day1::part2(&[5, -5, 7]), 0);
    assert_eq!(day1::part1(&[]), 0);
}

#[test]
fn claims_are_read_and_counted() {
    let fabric = day3::read("#7 @ 0,0: 2x2\n#8 @ 1,1: 2x2\n#9 @ 1,1: 1x1\n");
    assert_eq!(day3::part1(&fabric), 1);
    assert_eq!(day3::part2(&fabric), 0);
    let fabric = day3::read("#7 @ 0,0: 2x2\n#8 @ 2,0: 2x3\n");
    assert_eq!(day3::part1(&fabric), 0);
    assert_eq!(day3::part2(&fabric), 7);
    let fabric = day3::read("");
    assert_eq!(day3::part1(&fabric), 0);
    assert_eq!(day3::part2(&fabric), 0);
}

#[test]
fn extract_wants_exactly_one_difference() {
    assert_eq!(extract("fghij", "fguij"), Some(String::from("fgij")));
    assert_eq!(extract("abcde", "abcde"), None);
    assert_eq!(extract("abcde", "axcye"), None);
    assert_eq!(extract("añc", "aoc"), Some(String::from("ac")));
    assert_eq!(repeated("abcdef"), (false, false));
    assert_eq!(repeated("bababc"), (true, true));
    assert_eq!(repeated("abbcde"), (true, false));
    assert_eq!(repeated("abcccd"), (false, true));
    assert_eq!(repeated("aaaa"), (false, false));
}

#[test]
fn the_guard_with_the_highest_number_wins_a_tie() {
    let input = "
[1518-01-01 00:00] Guard #3 begins shift
[1518-01-01 00:10] falls asleep
[1518-01-01 00:12] wakes up
[1518-01-02 00:00] Guard #5 begins shift
[1518-01-02 00:20] falls asleep
[1518-01-02 00:22] wakes up
";
    let log = day4::read(input);
    assert_eq!(log.len(), 2);
    assert_eq!(day4::part1(&log), (5, 21));
    assert_eq!(day4::part2(&log), (5, 21));
    assert_eq!(day4::pick(&log, |hour| hour[10]), (3, 11));
}
