use advent::y2017::day1;
use advent::y2017::day1::helpers;
use advent::y2017::day2;
use advent::y2017::day3::{down, left, part2, right, spiral, up, Move};
use advent::y2017::day4::{no_anagram, no_repeat};

#[test]
fn day1_examples() {
    assert_eq!(day1::part1(&helpers::read_digits("1122")), 3);
    assert_eq!(day1::part1(&helpers::read_digits("1111")), 4);
    assert_eq!(day1::part1(&helpers::read_digits("1234")), 0);
    assert_eq!(day1::part1(&helpers::read_digits("91212129")), 9);

    assert_eq!(day1::part2(&helpers::read_digits("1212")), 6);
    assert_eq!(day1::part2(&helpers::read_digits("1221")), 0);
    assert_eq!(day1::part2(&helpers::read_digits("123425")), 4);
    assert_eq!(day1::part2(&helpers::read_digits("123123")), 12);
    assert_eq!(day1::part2(&helpers::read_digits("12131415")), 4);
}

#[test]
fn read_digits_passes_over_other_characters() {
    assert_eq!(helpers::read_digits(" 1a2\n3-0 "), vec![1, 2, 3, 0]);
    assert_eq!(helpers::read_digits(""), Vec::<u8>::new());
}

#[test]
fn skip_beyond_the_end_matches_every_digit() {
    assert_eq!(helpers::skip_take_sum(&[1, 2, 3], 7), 6);
    assert_eq!(helpers::skip_take_sum(&[1, 2, 3], 3), 6);
    assert_eq!(helpers::skip_take_sum(&[1, 2, 1], 2), 1);
    assert_eq!(helpers::skip_take_sum(&[], 1), 0);
}

#[test]
fn day2_examples() {
    let one = r"
    5 1 9 5
    7 5 3
    2 4 6 8
    ";
    let two = r"
    5 9 2 8
    9 4 7 3
    3 8 6 5
    ";
    assert_eq!(day2::part1(&day2::read_matrix(one)), 18);
    assert_eq!(day2::part2(&mut day2::read_matrix(two)), 9);
}

#[test]
fn read_matrix_keeps_one_row_for_each_line_with_content() {
    let matrix = day2::read_matrix("1 2\tx 3\n\n  \n +4 -5 40000000000 6\n");
    assert_eq!(matrix, vec![vec![1, 2, 3], vec![4, 6]]);
}

#[test]
fn range_is_the_largest_less_the_smallest() {
    assert_eq!(day2::range(&[5, 1, 9, 5]), 8);
    assert_eq!(day2::range(&[7]), 0);
    assert_eq!(day2::range(&[0, 4294967295]), 4294967295);
}

#[test]
fn multiples_sorts_the_row_and_takes_the_first_pair() {
    let mut row = vec![5, 9, 2, 8];
    assert_eq!(day2::multiples(&mut row), 4);
    assert_eq!(row, vec![2, 5, 8, 9]);
    let mut twice = vec![7, 3, 3];
    assert_eq!(day2::multiples(&mut twice), 1);
    let mut several = vec![12, 4, 2];
    assert_eq!(day2::multiples(&mut several), 2);
}

#[test]
fn day4_examples() {
    assert!(no_repeat(&"aa bb cc dd ee"));
    assert!(!no_repeat(&"aa bb cc dd aa"));
    assert!(no_repeat(&"aa bb cc dd aaa"));
    assert!(no_anagram(&"abcde fghij"));
    assert!(!no_anagram(&"abcde xyz ecdab"));
    assert!(no_anagram(&"a ab abc abd abf abj"));
    assert!(no_anagram(&"iiii oiii ooii oooi oooo"));
    assert!(!no_anagram(&"oiii ioii iioi iiio"));
}

#[test]
fn passphrases_are_counted_line_by_line() {
    let input = "aa bb cc dd ee\naa bb cc dd aa\naa bb cc dd aaa\n";
    assert_eq!(advent::y2017::day4::part1(input), 2);
    let input = "abcde fghij\nabcde xyz ecdab\n\noiii ioii iioi iiio";
    assert_eq!(advent::y2017::day4::part2(input), 2);
    assert_eq!(advent::y2017::day4::part1(""), 0);
    assert_eq!(advent::y2017::day4::part1("\n"), 1);
}

#[test]
fn day3_examples() {
    assert_eq!(advent::y2017::day3::part1(1), 0);
    assert_eq!(advent::y2017::day3::part1(12), 3);
    assert_eq!(advent::y2017::day3::part1(23), 2);
    assert_eq!(advent::y2017::day3::part1(1024), 31);
}

#[test]
fn day3_solution() {
    assert_eq!(advent::y2017::day3::part1(265149), 438);
    assert_eq!(advent::y2017::day3::part2(265149), 266330);
}

// A list put together by hand so that both sums are known. Each half begins
// with 67 eights, which match their neighbours (2 * 66 * 8) and each other
// across the circle (2 * 67 * 8 = 1072); the 33 fives of the first half match
// their neighbours only (32 * 5), and nothing in the rest matches at all.
#[test]
fn day1_solution() {
    let mut input = String::new();
    input.push_str(&"8".repeat(67));
    input.push_str(&"5".repeat(33));
    input.push_str(&"8".repeat(67));
    input.push_str(&"12".repeat(16));
    input.push('1');
    let digits = helpers::read_digits(&input);
    assert_eq!(digits.len(), 200);
    assert_eq!(day1::part1(&digits), 1216);
    assert_eq!(day1::part2(&digits), 1072);
}

#[test]
fn moves_are_written_with_their_direction() {
    assert_eq!(Move { x: 0, y: 0 }.label(), "");
    assert_eq!(Move { x: 1, y: 0 }.label(), "R");
    assert_eq!(Move { x: -1, y: 1 }.label(), "LU");
    assert_eq!(Move { x: 3, y: -2 }.label(), "3R2D");
    assert_eq!(Move { x: -120, y: 0 }.label(), "120L");
    assert_eq!(Move { x: 0, y: 2147483647 }.label(), "2147483647U");
    assert_eq!(Move { x: 10, y: -1 }.label(), "10RD");
}

#[test]
fn spiral_turns_left_after_runs_that_grow() {
    let mut moves = spiral();
    let expected = [
        right(),
        up(),
        left(),
        left(),
        down(),
        down(),
        right(),
        right(),
        right(),
        up(),
        up(),
        up(),
        left(),
    ];
    for m in expected {
        assert_eq!(moves.next(), Some(m));
    }
}

#[test]
fn moves_add_up_and_measure_their_distance() {
    let sum = Move { x: 2, y: -3 }.add(Move { x: -5, y: 1 });
    assert_eq!(sum, Move { x: -3, y: -2 });
    assert_eq!(sum.manhattan_distance(), 5);
    assert_eq!(Move::default().manhattan_distance(), 0);
}

#[test]
fn spiral_values_grow_past_small_inputs() {
    assert_eq!(part2(0), 1);
    assert_eq!(part2(1), 2);
    assert_eq!(part2(2), 4);
    assert_eq!(part2(4), 5);
    assert_eq!(part2(5), 10);
    assert_eq!(part2(747), 806);
    assert_eq!(part2(805), 806);
    assert_eq!(part2(806), 880);
}
