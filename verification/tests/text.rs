use advent::lexical::{contains_word, text_leq};
use advent::numeral::write_numeral;
use advent::parse::Parse;
use advent::text::{chars_of, same_text, space, split_spans, trim_span, word_spans, Separator};
use advent::{lines, parse_lines, parse_splits};

fn chars(s: &str) -> Vec<char> {
    s.chars().collect()
}

#[test]
fn lines_are_trimmed_and_blank_ones_dropped() {
    assert_eq!(lines("  a b \n\n\t\r\n c\r\nd"), vec!["a b", "c", "d"]);
    assert_eq!(lines(""), Vec::<&str>::new());
    assert_eq!(lines(" \n \n"), Vec::<&str>::new());
    assert_eq!(lines("\u{3000}x\u{a0}"), vec!["x"]);
}

#[test]
fn lines_agree_with_the_standard_library() {
    let input = " one\n\n  two words \r\n\tthree\u{2003}\n\n";
    let expected: Vec<&str> = input.lines().map(str::trim).filter(|l| !l.is_empty()).collect();
    assert_eq!(lines(input), expected);
}

#[test]
fn parse_lines_keeps_what_parses() {
    assert_eq!(parse_lines::<i32>("+1\n-2\n x\n 30 \n2147483648\n-2147483648"), vec![
        1,
        -2,
        30,
        -2147483648
    ]);
    assert_eq!(parse_lines::<u32>("1 2\n3"), vec![3]);
}

#[test]
fn parse_splits_splits_at_every_delimiter() {
    assert_eq!(parse_splits::<usize>("#1 @ 1,3: 4x4", "#@,:x "), vec![1, 1, 3, 4, 4]);
    assert_eq!(parse_splits::<u16>("1, 6", ", "), vec![1, 6]);
    assert_eq!(parse_splits::<u16>("65535,65536,-1,+7,,0012", ","), vec![65535, 7, 12]);
    assert_eq!(parse_splits::<u32>("", ","), Vec::<u32>::new());
}

#[test]
fn numbers_parse_as_the_standard_library_reads_them() {
    let texts = [
        "0", "+0", "-0", "007", "+", "-", "", " 1", "1 ", "12a", "4294967295", "4294967296", "--1",
        "+-1", "१",
    ];
    for text in texts {
        let ours = u32::parse(&chars(text));
        assert_eq!(ours, text.parse::<u32>().ok(), "{:?}", text);
        let ours = i32::parse(&chars(text));
        assert_eq!(ours, text.parse::<i32>().ok(), "{:?}", text);
        let ours = usize::parse(&chars(text));
        assert_eq!(ours, text.parse::<usize>().ok(), "{:?}", text);
        let ours = u16::parse(&chars(text));
        assert_eq!(ours, text.parse::<u16>().ok(), "{:?}", text);
    }
    assert_eq!(i32::parse(&chars("-2147483648")), Some(i32::MIN));
    assert_eq!(i32::parse(&chars("-2147483649")), None);
    assert_eq!(usize::parse(&chars("18446744073709551615")), "18446744073709551615".parse().ok());
    assert_eq!(usize::parse(&chars("18446744073709551616")), None);
    assert_eq!(usize::parse(&chars("99999999999999999999999999999999999999999")), None);
}

#[test]
fn white_space_is_what_the_standard_library_takes_for_it() {
    for code in 0..0x3100u32 {
        if let Some(c) = char::from_u32(code) {
            assert_eq!(space(c), c.is_whitespace(), "{:x}", code);
        }
    }
}

#[test]
fn splitting_keeps_empty_pieces() {
    let text = chars(",a,,b,");
    let marks = [','];
    let spans = split_spans(&text, &Separator::AnyOf(&marks));
    assert_eq!(spans, vec![(0, 0), (1, 2), (3, 3), (4, 5), (6, 6)]);
    let spans = split_spans(&chars(""), &Separator::Space);
    assert_eq!(spans, vec![(0, 0)]);
}

#[test]
fn words_and_trimming() {
    let text = chars("  two  words\t");
    assert_eq!(word_spans(&text), vec![(2, 5), (7, 12)]);
    assert_eq!(trim_span(&text, 0, text.len()), (2, 12));
    assert_eq!(trim_span(&text, 0, 2), (2, 2));
    assert_eq!(chars_of("añb"), vec!['a', 'ñ', 'b']);
    assert!(same_text(&chars("ab"), &chars("ab")));
    assert!(!same_text(&chars("ab"), &chars("abc")));
}

#[test]
fn dictionary_order_is_that_of_strings() {
    let words = ["", "a", "ab", "abc", "b", "B", "[1518-11-01 00:05]", "[1518-11-01 00:00]", "é"];
    for a in words {
        for b in words {
            assert_eq!(text_leq(&chars(a), &chars(b)), a <= b, "{:?} {:?}", a, b);
        }
    }
}

#[test]
fn words_are_found_anywhere_in_a_text() {
    let cases = [
        ("falls asleep", "asleep"),
        ("Guard", "Guard"),
        ("Guar", "Guard"),
        ("x", ""),
        ("", ""),
        ("", "a"),
        ("abcab", "cab"),
        ("abcab", "cb"),
    ];
    for (text, word) in cases {
        assert_eq!(contains_word(&chars(text), &chars(word)), text.contains(word));
    }
}

#[test]
fn numerals_have_no_leading_zeros() {
    let cases = [(0u32, "0"), (7, "7"), (10, "10"), (4294967295, "4294967295"), (1000, "1000")];
    for (n, text) in cases {
        let mut out = String::from("n=");
        write_numeral(&mut out, n);
        assert_eq!(out, format!("n={}", text));
    }
}
