use advent::y2017::day1::helpers::{read_digits, skip_take_sum};
use advent::y2017::day2::{multiples, range, read_matrix};
use advent::y2017::day4::{no_anagram, no_repeat};
use advent::y2017::day3;
use advent::y2018::day1;
use advent::y2018::day2::helpers::{extract, repeated};
use advent::y2018::day3 as fabric;
use advent::y2018::day4;
use advent::y2018::day5;
use std::collections::{BTreeMap, HashMap, HashSet};

struct Dice(u64);

impl Dice {
    fn roll(&mut self, sides: u64) -> u64 {
        self.0 = self.0.wrapping_mul(6364136223846793005).wrapping_add(1442695040888963407);
        (self.0 >> 33) % sides
    }

    fn text(&mut self, len: u64, alphabet: &[char]) -> String {
        (0..len).map(|_| alphabet[self.roll(alphabet.len() as u64) as usize]).collect()
    }
}

fn sum_with_iterators(digits: &[u8], skip: usize) -> u32 {
    let shifted = digits.iter().skip(skip).chain(digits.iter().take(skip));
    digits.iter().zip(shifted).filter(|pair| pair.1 == pair.0).map(|pair| u32::from(*pair.0)).sum()
}

#[test]
fn captcha_sums_agree_with_shifted_iterators() {
    let mut dice = Dice(1);
    for _ in 0..300 {
        let len = dice.roll(12);
        let digits: Vec<u8> = (0..len).map(|_| dice.roll(4) as u8).collect();
        let skip = dice.roll(16) as usize;
        assert_eq!(skip_take_sum(&digits, skip), sum_with_iterators(&digits, skip));
    }
}

#[test]
fn digits_are_read_as_by_filtering_characters() {
    let mut dice = Dice(2);
    for _ in 0..200 {
        let len = dice.roll(20);
        let text = dice.text(len, &['0', '1', '9', 'a', ' ', '\n', '-', '٣', '5']);
        let expected: Vec<u8> = text
            .chars()
            .filter(|c| char::is_digit(*c, 10))
            .map(|c| char::to_digit(c, 10).unwrap() as u8)
            .collect();
        assert_eq!(read_digits(&text), expected);
    }
}

#[test]
fn rows_are_read_and_measured_as_with_iterators() {
    let mut dice = Dice(3);
    for _ in 0..200 {
        let len = dice.roll(40);
        let text = dice.text(len, &['1', '2', '7', ' ', ' ', '\n', '\t', 'x', '\r']);
        let expected: Vec<Vec<u32>> = text
            .lines()
            .filter(|l| !l.trim().is_empty())
            .map(|l| l.split_whitespace().filter_map(|s| s.parse().ok()).collect())
            .collect();
        let matrix = read_matrix(&text);
        assert_eq!(matrix, expected);
        for row in matrix {
            if !row.is_empty() {
                let spread = row.iter().max().unwrap() - row.iter().min().unwrap();
                assert_eq!(range(&row), spread);
            }
        }
    }
}

fn first_quotient(row: &mut Vec<u32>) -> Option<u32> {
    row.sort();
    for i in 0..row.len() {
        for j in i + 1..row.len() {
            if row[j] % row[i] == 0 {
                return Some(row[j] / row[i]);
            }
        }
    }
    None
}

#[test]
fn quotients_agree_with_a_search_through_the_sorted_row() {
    let mut dice = Dice(4);
    let mut tried = 0;
    while tried < 200 {
        let len = 2 + dice.roll(6);
        let row: Vec<u32> = (0..len).map(|_| 1 + dice.roll(60) as u32).collect();
        let mut copy = row.clone();
        if let Some(expected) = first_quotient(&mut copy) {
            let mut ours = row.clone();
            assert_eq!(multiples(&mut ours), expected);
            assert_eq!(ours, copy);
            tried += 1;
        }
    }
}

#[test]
fn passphrases_agree_with_hash_sets() {
    let mut dice = Dice(5);
    for _ in 0..300 {
        let len = dice.roll(14);
        let line = dice.text(len, &['a', 'b', ' ', ' ', '\t', 'c']);
        let mut seen = HashSet::new();
        let no_word_twice = line.split_whitespace().all(|w| seen.insert(w));
        let mut seen = HashSet::new();
        let no_letters_twice = line
            .split_whitespace()
            .map(|m| {
                let mut vec: Vec<char> = m.chars().collect();
                vec.sort();
                vec
            })
            .all(|w| seen.insert(w));
        assert_eq!(no_repeat(&line.as_str()), no_word_twice, "{:?}", line);
        assert_eq!(no_anagram(&line.as_str()), no_letters_twice, "{:?}", line);
    }
}

#[test]
fn repeated_letters_agree_with_a_count_by_hash_map() {
    let mut dice = Dice(6);
    for _ in 0..300 {
        let len = dice.roll(10);
        let line = dice.text(len, &['a', 'b', 'c', 'é']);
        let mut counts = HashMap::new();
        line.chars().for_each(|c| *counts.entry(c).or_insert(0) += 1);
        let twice = counts.iter().any(|e| *e.1 == 2);
        let thrice = counts.iter().any(|e| *e.1 == 3);
        assert_eq!(repeated(&line), (twice, thrice), "{:?}", line);
    }
}

#[test]
fn extraction_agrees_with_zipped_characters() {
    let mut dice = Dice(7);
    for _ in 0..300 {
        let len = dice.roll(6);
        let a = dice.text(len, &['a', 'b', 'é']);
        let len = dice.roll(6);
        let b = dice.text(len, &['a', 'b', 'é']);
        let differing = a.chars().zip(b.chars()).filter(|x| x.0 != x.1).count();
        let expected: Option<String> = match differing {
            1 => Some(a.chars().zip(b.chars()).filter(|x| x.0 == x.1).map(|x| x.0).collect()),
            _ => None,
        };
        assert_eq!(extract(&a, &b), expected, "{:?} {:?}", a, b);
    }
}

fn reduce_by_passes(input: &[u8]) -> usize {
    let mut last: Vec<u8> = Vec::from(input);
    let mut current: Vec<u8> = Vec::with_capacity(last.len());
    let mut reduced = true;
    while reduced {
        reduced = false;
        let mut index = 0;
        while index < last.len() {
            let unit = last[index];
            let next = if index + 1 < last.len() { last[index + 1] } else { 0 };
            if day5::inverses(unit, next) {
                reduced = true;
                index += 2;
                continue;
            }
            current.push(unit);
            index += 1;
        }
        last.clear();
        last.extend(current.drain(..))
    }
    last.len()
}

#[test]
fn reduction_agrees_with_passes_over_two_buffers() {
    let mut dice = Dice(8);
    for _ in 0..300 {
        let len = dice.roll(30);
        let polymer = dice.text(len, &['a', 'A', 'b', 'B', 'c', ' ']);
        assert_eq!(day5::part1(polymer.as_bytes()), reduce_by_passes(polymer.as_bytes()));
        let shortest = (b'a'..=b'z')
            .map(|u| (u as char, ((u - 32) as char)))
            .map(|(l, u)| reduce_by_passes(polymer.replace(l, "").replace(u, "").as_bytes()))
            .min()
            .unwrap();
        assert_eq!(day5::part2(&polymer), shortest, "{:?}", polymer);
    }
}

fn first_repeat_with_hash_set(input: &[i32]) -> i32 {
    let mut current: i32 = 0;
    let mut seen = HashSet::new();
    seen.insert(current);
    for x in input.iter().cycle() {
        current += x;
        if !seen.insert(current) {
            return current;
        }
    }
    unreachable!()
}

#[test]
fn first_repeated_frequency_agrees_with_a_hash_set() {
    let mut dice = Dice(9);
    for _ in 0..200 {
        let len = 1 + dice.roll(8);
        let mut changes: Vec<i32> = (0..len).map(|_| dice.roll(21) as i32 - 10).collect();
        let sum: i32 = changes.iter().sum();
        changes.push(-sum);
        assert_eq!(day1::part2(&changes), first_repeat_with_hash_set(&changes));
        assert_eq!(day1::part1(&changes), 0);
    }
}

#[test]
fn overlaps_agree_with_a_count_on_a_grid() {
    let mut dice = Dice(10);
    for _ in 0..100 {
        let claims: Vec<(usize, usize, usize, usize, usize)> = (0..dice.roll(7))
            .map(|i| {
                (
                    i as usize + 1,
                    dice.roll(6) as usize,
                    dice.roll(6) as usize,
                    dice.roll(4) as usize,
                    dice.roll(4) as usize,
                )
            })
            .collect();
        let text: String = claims
            .iter()
            .map(|c| format!("#{} @ {},{}: {}x{}\n", c.0, c.1, c.2, c.3, c.4))
            .collect();
        let mut grid = vec![vec![0u32; 12]; 12];
        for c in &claims {
            for x in c.1..c.1 + c.3 {
                for y in c.2..c.2 + c.4 {
                    grid[x][y] += 1;
                }
            }
        }
        let crowded = grid.iter().flat_map(|v| v.iter()).filter(|c| **c > 1).count();
        let alone = claims
            .iter()
            .find(|c| (c.1..c.1 + c.3).all(|x| (c.2..c.2 + c.4).all(|y| grid[x][y] <= 1)))
            .map(|c| c.0)
            .unwrap_or(0);
        let read = fabric::read(&text);
        assert_eq!(fabric::part1(&read), crowded, "{}", text);
        assert_eq!(fabric::part2(&read), alone, "{}", text);
    }
}

fn read_with_standard_tools(input: &str) -> BTreeMap<usize, Vec<u32>> {
    let mut records: Vec<&str> = advent::lines(input);
    records.sort();
    let mut log = BTreeMap::new();
    let mut guard = 0;
    let mut since = 0;
    for line in records {
        let numbers: Vec<usize> = advent::parse_splits(line, "[-:] # ");
        if line.contains("Guard") {
            guard = numbers[5];
        }
        if line.contains("falls asleep") {
            since = numbers[4];
        }
        if line.contains("wakes up") {
            let now = numbers[4];
            let slept = log.entry(guard).or_insert_with(|| vec![0; 60]);
            for i in since..now {
                slept[i] += 1
            }
        }
    }
    log
}

fn choose_with_iterators<F>(log: &BTreeMap<usize, Vec<u32>>, strategy: F) -> (usize, usize)
where
    F: Fn(&[u32]) -> u32,
{
    let (sleepiest_guard, _) = log.iter().max_by_key(|(_, sleep)| strategy(sleep)).unwrap();
    let (sleepiest_minute, _) = log
        .get(sleepiest_guard)
        .unwrap()
        .iter()
        .enumerate()
        .max_by_key(|(_, slept)| *slept)
        .unwrap();
    (*sleepiest_guard, sleepiest_minute)
}

#[test]
fn sleep_logs_agree_with_the_standard_collections() {
    let mut dice = Dice(11);
    for _ in 0..100 {
        let mut text = String::new();
        for day in 1..=(1 + dice.roll(9)) {
            let guard = 1 + dice.roll(4);
            text.push_str(&format!("[1518-03-{:02} 00:00] Guard #{} begins shift\n", day, guard));
            let mut minute = 1 + dice.roll(20);
            while minute < 58 && dice.roll(3) != 0 {
                let wake = minute + 1 + dice.roll(59 - minute);
                text.push_str(&format!("[1518-03-{:02} 00:{:02}] wakes up\n", day, wake));
                text.push_str(&format!("  [1518-03-{:02} 00:{:02}] falls asleep\n", day, minute));
                minute = wake + 1;
            }
        }
        let expected = read_with_standard_tools(&text);
        let log = day4::read(&text);
        assert_eq!(log, expected, "{}", text);
        if !log.is_empty() {
            assert_eq!(day4::part1(&log), choose_with_iterators(&log, |s| s.iter().sum()));
            let peak = choose_with_iterators(&log, |s| *s.iter().max().unwrap());
            assert_eq!(day4::part2(&log), peak);
            assert_eq!(day4::pick(&log, |s| s[30]), choose_with_iterators(&log, |s| s[30]));
        }
    }
}

#[test]
fn spiral_distances_agree_with_the_sum_of_its_moves() {
    for input in 1..400usize {
        let mut moves = day3::spiral();
        let mut x = 0i32;
        let mut y = 0i32;
        for _ in 0..input - 1 {
            let m = moves.next().unwrap();
            x += m.x;
            y += m.y;
        }
        assert_eq!(day3::part1(input), x.abs() + y.abs());
    }
}

#[test]
fn spiral_values_agree_with_a_grid_in_a_hash_map() {
    for input in 0..3000usize {
        let mut grid = HashMap::new();
        let mut at = (0i32, 0i32);
        grid.insert(at, 1usize);
        let mut moves = day3::spiral();
        let expected = loop {
            let m = moves.next().unwrap();
            at = (at.0 + m.x, at.1 + m.y);
            let mut value = 0;
            for dx in -1..=1 {
                for dy in -1..=1 {
                    if (dx, dy) != (0, 0) {
                        value += grid.get(&(at.0 + dx, at.1 + dy)).copied().unwrap_or(0);
                    }
                }
            }
            grid.insert(at, value);
            if value > input {
                break value;
            }
        };
        assert_eq!(day3::part2(input), expected);
    }
}

#[test]
fn lines_and_splits_agree_with_the_standard_library() {
    let mut dice = Dice(12);
    let alphabet =
        ['a', '1', '2', ' ', '\n', '\r', '\t', '\u{85}', '\u{2028}', '\u{a0}', ',', '-', '+'];
    for _ in 0..500 {
        let len = dice.roll(25);
        let text = dice.text(len, &alphabet);
        let expected: Vec<&str> = text.lines().map(str::trim).filter(|l| !l.is_empty()).collect();
        assert_eq!(advent::lines(&text), expected, "{:?}", text);
        let numbers: Vec<i32> = expected.iter().filter_map(|l| l.parse().ok()).collect();
        assert_eq!(advent::parse_lines::<i32>(&text), numbers, "{:?}", text);
        let delimit = ", a";
        let pieces: Vec<u32> =
            text.split(|c| delimit.contains(c)).filter_map(|s| s.parse().ok()).collect();
        assert_eq!(advent::parse_splits::<u32>(&text, delimit), pieces, "{:?}", text);
        let counted = text.lines().filter(|l| {
            let mut seen = HashSet::new();
            l.split_whitespace().all(|w| seen.insert(w))
        });
        assert_eq!(advent::y2017::day4::part1(&text), counted.count(), "{:?}", text);
    }
}
