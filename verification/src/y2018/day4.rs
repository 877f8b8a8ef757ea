//! Repose Record: the log of a guard post, and the guard who is most often
//! found asleep.
use crate::lexical::{contains_word, has_word, part, ByText, Lexical};
use crate::parse::reader;
use crate::sorting::{ascending, lemma_sorted_map, sort, sorted, Order, Relation};
use crate::text::{chars_of, cut, split, split_spans, Separator};
use crate::{content_lines, line_spans, parse_spans};
use std::collections::BTreeMap;
use vstd::prelude::*;
use vstd::slice::slice_subrange;

verus! {

broadcast use {vstd::std_specs::btree::group_btree_axioms, vstd::laws_cmp::group_laws_cmp};

/// SleepLog is a mapping from guard to the number of times slept in a given
/// minute
pub type SleepLog = BTreeMap<usize, Vec<u32>>;

/// The number of minutes in the hour that is recorded.
pub const MINUTES: usize = 60;

/// The characters that separate the numbers of a record.
pub open spec fn record_marks() -> Set<char> {
    set!['[', '-', ':', ']', ' ', '#']
}

/// The numbers that a record writes: year, month, day, hour, minute, and the
/// number of a guard where the record names one.
pub open spec fn numbers_in(line: Seq<char>) -> Seq<usize> {
    split(line, record_marks()).filter_map(reader::<usize>())
}

/// An hour in which nobody slept.
pub open spec fn awake() -> Seq<u32> {
    Seq::new(MINUTES as nat, |i: int| 0u32)
}

/// The hour `slept` with one more in each minute from `since` up to, but
/// not including, `now`.
pub open spec fn rested(slept: Seq<u32>, since: int, now: int) -> Seq<u32> {
    Seq::new(
        slept.len(),
        |i: int|
            if since <= i < now {
                (slept[i] + 1) as u32
            } else {
                slept[i]
            },
    )
}

/// What is known while the records are gone through: the guard on duty, the
/// minute at which he fell asleep, and for each guard how often he was
/// asleep in each minute.
pub struct Watch {
    pub guard: usize,
    pub since: usize,
    pub log: Map<usize, Seq<u32>>,
}

/// The hour noted for a guard so far.
pub open spec fn hour_of(log: Map<usize, Seq<u32>>, guard: usize) -> Seq<u32> {
    if log.contains_key(guard) {
        log[guard]
    } else {
        awake()
    }
}

/// The guard on duty after a record: the one it names, if it names one.
pub open spec fn guard_after(w: Watch, line: Seq<char>) -> usize {
    if has_word(line, "Guard"@) {
        numbers_in(line)[5]
    } else {
        w.guard
    }
}

/// The minute of falling asleep after a record.
pub open spec fn since_after(w: Watch, line: Seq<char>) -> usize {
    if has_word(line, "falls asleep"@) {
        numbers_in(line)[4]
    } else {
        w.since
    }
}

/// What is known after one more record.
pub open spec fn noted(w: Watch, line: Seq<char>) -> Watch {
    let guard = guard_after(w, line);
    let since = since_after(w, line);
    Watch {
        guard,
        since,
        log: if has_word(line, "wakes up"@) {
            w.log.insert(
                guard,
                rested(hour_of(w.log, guard), since as int, numbers_in(line)[4] as int),
            )
        } else {
            w.log
        },
    }
}

/// What is known after the first `n` records.
pub open spec fn replay(records: Seq<Seq<char>>, n: int) -> Watch
    decreases n,
{
    if n <= 0 {
        Watch { guard: 0, since: 0, log: Map::empty() }
    } else {
        noted(replay(records, n - 1), records[n - 1])
    }
}

/// Whether a record can be taken in: it writes the numbers that its words
/// call for, and where a guard wakes up after he fell asleep, he does so
/// within the hour.
pub open spec fn legible(w: Watch, line: Seq<char>) -> bool {
    let numbers = numbers_in(line);
    &&& has_word(line, "Guard"@) ==> numbers.len() > 5
    &&& has_word(line, "falls asleep"@) ==> numbers.len() > 4
    &&& has_word(line, "wakes up"@) ==> numbers.len() > 4 && (since_after(w, line) < numbers[4]
        ==> numbers[4] <= MINUTES)
}

/// The records of the input in the order of time: its lines in dictionary
/// order.
pub open spec fn records_of(input: Seq<char>) -> Seq<Seq<char>> {
    sorted(content_lines(input), &Lexical)
}

/// Whether a text can be read as a log: each of its records can be taken
/// in, and there are no more records than a count can hold.
pub open spec fn readable(input: Seq<char>) -> bool {
    let records = records_of(input);
    &&& records.len() <= u32::MAX
    &&& forall|n: int|
        0 <= n < records.len() ==> legible(#[trigger] replay(records, n), records[n])
}

/// The hours of a log as sequences.
pub open spec fn hours(log: Map<usize, Vec<u32>>) -> Map<usize, Seq<u32>> {
    log.map_values(|hour: Vec<u32>| hour@)
}

/// Whether every hour noted has sixty minutes, none of them with a count
/// above `n`.
pub open spec fn within(log: Map<usize, Seq<u32>>, n: int) -> bool {
    forall|g: usize| #[trigger]
        log.contains_key(g) ==> log[g].len() == MINUTES && forall|i: int|
            0 <= i < MINUTES ==> #[trigger] log[g][i] <= n
}

/// Adds one to each minute from `since` up to `now`.
fn rest(slept: &mut Vec<u32>, since: usize, now: usize)
    requires
        old(slept)@.len() == MINUTES,
        since < now ==> now <= MINUTES,
        forall|i: int| 0 <= i < MINUTES ==> old(slept)@[i] < u32::MAX,
    ensures
        final(slept)@ == rested(old(slept)@, since as int, now as int),
{
    let mut i: usize = since;
    while i < now
        invariant
            since <= i,
            since < now ==> i <= now <= MINUTES,
            since >= now ==> i == since,
            slept@.len() == MINUTES,
            old(slept)@.len() == MINUTES,
            forall|k: int| 0 <= k < MINUTES ==> old(slept)@[k] < u32::MAX,
            forall|k: int|
                0 <= k < MINUTES ==> slept@[k] == if since <= k < i {
                    (old(slept)@[k] + 1) as u32
                } else {
                    old(slept)@[k]
                },
        decreases now - i,
    {
        let count = slept[i];
        slept[i] = count + 1;
        i += 1;
    }
    assert(slept@ =~= rested(old(slept)@, since as int, now as int));
}

/// An hour in which nobody slept.
fn fresh_hour() -> (hour: Vec<u32>)
    ensures
        hour@ == awake(),
{
    let mut hour: Vec<u32> = Vec::new();
    for i in 0..MINUTES
        invariant
            hour@.len() == i,
            forall|k: int| 0 <= k < i ==> hour@[k] == 0,
    {
        hour.push(0);
    }
    assert(hour@ =~= awake());
    hour
}

/// Read the sleep log from the given input: the records are put in the
/// order of time and gone through one by one.
pub fn read(input: &str) -> (log: SleepLog)
    requires
        readable(input@),
    ensures
        hours(log@) == replay(records_of(input@), records_of(input@).len() as int).log,
{
    let text = chars_of(input);
    // Read the logs and sort them
    let found = line_spans(text.as_slice());
    let order = ByText(text.as_slice());
    let spans = sort(found.as_slice(), &order);
    let ghost records = records_of(input@);
    proof {
        let f = |span: (usize, usize)| part(text@, span);
        assert(cut(text@, found@) =~= found@.map_values(f));
        assert(cut(text@, spans@) =~= spans@.map_values(f));
        lemma_sorted_map(found@, f, &order, &Lexical);
    }
    let marks: Vec<char> = vec!['[', '-', ':', ']', ' ', '#'];
    let separator = Separator::AnyOf(marks.as_slice());
    assert(separator.marks() =~= record_marks()) by {
        assert(marks@[0] == '[' && marks@[1] == '-' && marks@[2] == ':' && marks@[3] == ']'
            && marks@[4] == ' ' && marks@[5] == '#');
    }
    let guard_word = chars_of("Guard");
    let asleep_word = chars_of("falls asleep");
    let wakes_word = chars_of("wakes up");

    // Initialize a new sleep log
    let mut log: SleepLog = BTreeMap::new();
    // Initialize the indices
    let mut guard: usize = 0;
    let mut since: usize = 0;
    assert(hours(log@) =~= Map::<usize, Seq<u32>>::empty());

    // Read the log and update the minutes slept
    for n in 0..spans.len()
        invariant
            text@ == input@,
            readable(input@),
            records == records_of(input@),
            records == cut(text@, spans@),
            spans.len() == records.len(),
            crate::sorting::all_admitted(spans@, &order),
            order.0@ == text@,
            separator.marks() == record_marks(),
            guard_word@ == "Guard"@,
            asleep_word@ == "falls asleep"@,
            wakes_word@ == "wakes up"@,
            guard == replay(records, n as int).guard,
            since == replay(records, n as int).since,
            hours(log@) == replay(records, n as int).log,
            within(hours(log@), n as int),
    {
        let ghost before = replay(records, n as int);
        let (from, to) = spans[n];
        assert(order.admits(spans@[n as int]));
        let line = slice_subrange(text.as_slice(), from, to);
        assert(line@ == records[n as int]);
        assert(legible(before, line@));
        let pieces = split_spans(line, &separator);
        let numbers: Vec<usize> = parse_spans(line, pieces.as_slice());

        if contains_word(line, guard_word.as_slice()) {
            guard = numbers[5];
        }
        if contains_word(line, asleep_word.as_slice()) {
            since = numbers[4];
        }
        if contains_word(line, wakes_word.as_slice()) {
            let now = numbers[4];
            let ghost old_log = log@;
            let mut slept = match log.remove(&guard) {
                Some(hour) => hour,
                None => fresh_hour(),
            };
            assert(slept@ == hour_of(hours(old_log), guard));
            assert(forall|i: int| 0 <= i < MINUTES ==> slept@[i] <= n);
            rest(&mut slept, since, now);
            log.insert(guard, slept);
            assert(hours(log@) =~= noted(before, line@).log);
        }
        assert(within(hours(log@), n + 1)) by {
            assert forall|g: usize| #[trigger] hours(log@).contains_key(g) implies hours(
                log@,
            )[g].len() == MINUTES && forall|i: int|
                0 <= i < MINUTES ==> #[trigger] hours(log@)[g][i] <= n + 1 by {
                if !(has_word(line@, "wakes up"@) && g == guard) {
                    assert(before.log.contains_key(g));
                }
            }
        }
    }
    log
}

/// The guards of the log.
fn guards(log: &SleepLog) -> (keys: Vec<usize>)
    ensures
        forall|g: usize| log@.contains_key(g) <==> keys@.contains(g),
{
    let mut keys: Vec<usize> = Vec::new();
    for k in it: log.keys()
        invariant
            it.seq().unref().to_set() == log@.dom(),
            forall|i: int| 0 <= i < keys@.len() ==> log@.contains_key(#[trigger] keys@[i]),
            forall|g: usize|
                log@.contains_key(g) ==> keys@.contains(g) || exists|i: int|
                    it.index() <= i < it.seq().len() && *#[trigger] it.seq()[i] == g,
    {
        let ghost before = keys@;
        proof {
            let all = it.seq().unref();
            assert(all[it.index()] == *k);
            assert(all.contains(*k));
            assert(all.to_set().contains(*k));
        }
        keys.push(*k);
        proof {
            assert(keys@[before.len() as int] == *k);
            assert forall|g: usize| log@.contains_key(g) implies keys@.contains(g) || exists|
                i: int,
            |
                it.index() + 1 <= i < it.seq().len() && *#[trigger] it.seq()[i] == g by {
                if before.contains(g) {
                    let i = choose|i: int| 0 <= i < before.len() && before[i] == g;
                    assert(keys@[i] == g);
                } else if g != *k {
                    let i = choose|i: int|
                        it.index() <= i < it.seq().len() && *#[trigger] it.seq()[i] == g;
                    assert(i != it.index());
                }
            }
        }
    }
    keys
}

/// The order of guards by their number.
pub struct ByNumber;

impl Relation<usize> for ByNumber {
    open spec fn admits(&self, a: usize) -> bool {
        true
    }

    open spec fn le(&self, a: usize, b: usize) -> bool {
        a <= b
    }

    proof fn lemma_total(&self, a: usize, b: usize) {
    }

    proof fn lemma_transitive(&self, a: usize, b: usize, c: usize) {
    }
}

impl Order<usize> for ByNumber {
    fn leq(&self, a: &usize, b: &usize) -> (r: bool) {
        *a <= *b
    }
}

/// Whether the strategy can be asked for a score of each hour of the log.
pub open spec fn applies<F: Fn(&[u32]) -> u32>(log: Map<usize, Vec<u32>>, strategy: F) -> bool {
    forall|g: usize| #[trigger]
        log.contains_key(g) ==> forall|hour: &[u32]|
            hour@ == log[g]@ ==> #[trigger] call_requires(strategy, (hour,))
}

/// Whether `scores` holds for each guard of the log a score that the
/// strategy gives for his hour.
pub open spec fn scored<F: Fn(&[u32]) -> u32>(
    log: Map<usize, Vec<u32>>,
    strategy: F,
    scores: Map<usize, u32>,
) -> bool {
    forall|g: usize| #[trigger]
        log.contains_key(g) ==> scores.contains_key(g) && exists|hour: &[u32]|
            hour@ == log[g]@ && #[trigger] call_ensures(strategy, (hour,), scores[g])
}

/// Whether `g` is the guard of the log with the highest score, and among
/// several with that score the one with the highest number.
pub open spec fn sleepiest(log: Map<usize, Vec<u32>>, scores: Map<usize, u32>, g: usize) -> bool {
    &&& log.contains_key(g)
    &&& forall|h: usize| #[trigger]
        log.contains_key(h) ==> scores[h] < scores[g] || (scores[h] == scores[g] && h <= g)
}

/// Whether `m` is the minute of the hour with the highest count, and among
/// several with that count the last.
pub open spec fn peak(hour: Seq<u32>, m: int) -> bool {
    &&& 0 <= m < hour.len()
    &&& forall|i: int|
        0 <= i < hour.len() ==> #[trigger] hour[i] < hour[m] || (hour[i] == hour[m] && i <= m)
}

/// Finds the last minute of the hour with the highest count.
pub fn peak_minute(hour: &[u32]) -> (m: usize)
    requires
        hour@.len() > 0,
    ensures
        peak(hour@, m as int),
{
    let mut m: usize = 0;
    for i in 1..hour.len()
        invariant
            m < i,
            m < hour@.len(),
            forall|k: int|
                0 <= k < i ==> #[trigger] hour@[k] < hour@[m as int] || (hour@[k] == hour@[m as int]
                    && k <= m),
    {
        if hour[i] >= hour[m] {
            m = i;
        }
    }
    m
}

/// Pick a guard based on the given strategy: the guard whose hour the
/// strategy gives the highest score, and the minute in which he was asleep
/// most often.
pub fn pick<F>(log: &SleepLog, strategy: F) -> (chosen: (usize, usize)) where
    F: Fn(&[u32]) -> u32,

    requires
        exists|g: usize| log@.contains_key(g),
        forall|g: usize| #[trigger] log@.contains_key(g) ==> log@[g]@.len() > 0,
        applies(log@, strategy),
    ensures
        exists|scores: Map<usize, u32>|
            scored(log@, strategy, scores) && #[trigger] sleepiest(log@, scores, chosen.0),
        log@.contains_key(chosen.0),
        peak(log@[chosen.0]@, chosen.1 as int),
{
    let found = guards(log);
    let keys = sort(found.as_slice(), &ByNumber);
    proof {
        assert forall|g: usize| log@.contains_key(g) <==> keys@.contains(g) by {
            vstd::seq_lib::to_multiset_contains(found@, g);
            vstd::seq_lib::to_multiset_contains(keys@, g);
        }
        let some = choose|g: usize| log@.contains_key(g);
        assert(keys@.contains(some));
    }
    let first = log.get(&keys[0]);
    assert(keys@.contains(keys@[0]));
    let mut best: usize = keys[0];
    let first_hour = first.unwrap().as_slice();
    let mut best_score: u32 = strategy(first_hour);
    let ghost mut scores: Map<usize, u32> = Map::empty().insert(best, best_score);
    assert(call_ensures(strategy, (first_hour,), scores[best]));
    for i in 1..keys.len()
        invariant
            keys@.len() > 0,
            ascending(keys@, &ByNumber),
            forall|g: usize| log@.contains_key(g) <==> keys@.contains(g),
            applies(log@, strategy),
            log@.contains_key(best),
            scores.contains_key(best),
            scores[best] == best_score,
            forall|k: int| 0 <= k < i ==> scores.contains_key(#[trigger] keys@[k]),
            forall|g: usize| #[trigger]
                scores.contains_key(g) ==> log@.contains_key(g) && (scores[g] < best_score || (
                scores[g] == best_score && g <= best)) && exists|hour: &[u32]|
                    hour@ == log@[g]@ && #[trigger] call_ensures(strategy, (hour,), scores[g]),
            forall|g: usize| scores.contains_key(g) ==> g <= keys@[i - 1],
    {
        let guard = keys[i];
        assert(keys@.contains(keys@[i as int]));
        assert(ByNumber.le(keys@[i - 1], keys@[i as int]));
        if guard != keys[i - 1] {
            let hour = log.get(&guard).unwrap().as_slice();
            let score = strategy(hour);
            proof {
                assert(call_ensures(strategy, (hour,), score));
                scores = scores.insert(guard, score);
            }
            if score >= best_score {
                best = guard;
                best_score = score;
            }
        }
    }
    proof {
        assert forall|g: usize| #[trigger] log@.contains_key(g) implies scores.contains_key(g) by {
            assert(keys@.contains(g));
            let k = choose|k: int| 0 <= k < keys@.len() && keys@[k] == g;
            assert(scores.contains_key(keys@[k]));
        }
        assert(scored(log@, strategy, scores));
    }
    let minute = peak_minute(log.get(&best).unwrap().as_slice());
    let chosen = (best, minute);
    assert(sleepiest(log@, scores, chosen.0));
    chosen
}

/// The number of minutes asleep in an hour, each minute counted as often as
/// it was slept in.
pub open spec fn minutes_asleep(hour: Seq<u32>) -> int
    decreases hour.len(),
{
    if hour.len() == 0 {
        0
    } else {
        minutes_asleep(hour.drop_last()) + hour.last()
    }
}

/// The highest count of an hour; 0 for an hour without minutes.
pub open spec fn most_asleep(hour: Seq<u32>) -> int
    decreases hour.len(),
{
    if hour.len() == 0 {
        0
    } else if hour.last() >= most_asleep(hour.drop_last()) {
        hour.last() as int
    } else {
        most_asleep(hour.drop_last())
    }
}

/// The sum over more minutes is no smaller.
pub proof fn lemma_minutes_grow(hour: Seq<u32>, i: int)
    requires
        0 <= i <= hour.len(),
    ensures
        0 <= minutes_asleep(hour.take(i)) <= minutes_asleep(hour),
    decreases hour.len() - i,
{
    lemma_minutes_counted(hour.take(i));
    if i < hour.len() {
        lemma_minutes_grow(hour, i + 1);
        assert(hour.take(i + 1).drop_last() =~= hour.take(i));
    } else {
        assert(hour.take(i) =~= hour);
    }
}

/// The minutes asleep are no negative number.
pub proof fn lemma_minutes_counted(hour: Seq<u32>)
    ensures
        0 <= minutes_asleep(hour),
    decreases hour.len(),
{
    if hour.len() > 0 {
        lemma_minutes_counted(hour.drop_last());
    }
}

/// Adds up the counts of an hour.
pub fn total_asleep(hour: &[u32]) -> (sum: u32)
    requires
        minutes_asleep(hour@) <= u32::MAX,
    ensures
        sum == minutes_asleep(hour@),
{
    let mut sum: u32 = 0;
    for i in 0..hour.len()
        invariant
            minutes_asleep(hour@) <= u32::MAX,
            sum == minutes_asleep(hour@.take(i as int)),
    {
        proof {
            lemma_minutes_grow(hour@, i + 1);
            assert(hour@.take(i + 1).drop_last() =~= hour@.take(i as int));
        }
        sum = sum + hour[i];
    }
    assert(hour@.take(hour.len() as int) =~= hour@);
    sum
}

/// Finds the highest count of an hour.
pub fn highest_count(hour: &[u32]) -> (most: u32)
    requires
        hour@.len() > 0,
    ensures
        most == most_asleep(hour@),
{
    let mut most: u32 = 0;
    for i in 0..hour.len()
        invariant
            most == most_asleep(hour@.take(i as int)),
    {
        assert(hour@.take(i + 1).drop_last() =~= hour@.take(i as int));
        if hour[i] >= most {
            most = hour[i];
        }
    }
    assert(hour@.take(hour.len() as int) =~= hour@);
    most
}

/// Whether `g` is the guard of the log whose hour measures highest, and
/// among several such guards the one with the highest number.
pub open spec fn foremost(
    log: Map<usize, Vec<u32>>,
    measure: spec_fn(Seq<u32>) -> int,
    g: usize,
) -> bool {
    &&& log.contains_key(g)
    &&& forall|h: usize| #[trigger]
        log.contains_key(h) ==> measure(log[h]@) < measure(log[g]@) || (measure(log[h]@)
            == measure(log[g]@) && h <= g)
}

/// Whether the log has a guard, and an hour with minutes for each guard.
pub open spec fn kept(log: Map<usize, Vec<u32>>) -> bool {
    &&& exists|g: usize| log.contains_key(g)
    &&& forall|g: usize| #[trigger] log.contains_key(g) ==> log[g]@.len() > 0
}

/// Find the guard who is asleep for the most minutes, and the minute in
/// which he is asleep most often.
pub fn part1(log: &SleepLog) -> (chosen: (usize, usize))
    requires
        kept(log@),
        forall|g: usize| #[trigger] log@.contains_key(g) ==> minutes_asleep(log@[g]@) <= u32::MAX,
    ensures
        foremost(log@, |hour: Seq<u32>| minutes_asleep(hour), chosen.0),
        peak(log@[chosen.0]@, chosen.1 as int),
{
    let strategy = |sleep: &[u32]| -> (sum: u32)
        requires
            minutes_asleep(sleep@) <= u32::MAX,
        ensures
            sum == minutes_asleep(sleep@),
        { total_asleep(sleep) };
    let chosen = pick(log, strategy);
    proof {
        let scores = choose|scores: Map<usize, u32>|
            scored(log@, strategy, scores) && #[trigger] sleepiest(log@, scores, chosen.0);
        assert forall|h: usize| #[trigger] log@.contains_key(h) implies scores[h]
            == minutes_asleep(log@[h]@) by {}
        assert(log@.contains_key(chosen.0));
    }
    chosen
}

/// Find the guard who is asleep most often in one and the same minute, and
/// that minute.
pub fn part2(log: &SleepLog) -> (chosen: (usize, usize))
    requires
        kept(log@),
    ensures
        foremost(log@, |hour: Seq<u32>| most_asleep(hour), chosen.0),
        peak(log@[chosen.0]@, chosen.1 as int),
{
    let strategy = |sleep: &[u32]| -> (most: u32)
        requires
            sleep@.len() > 0,
        ensures
            most == most_asleep(sleep@),
        { highest_count(sleep) };
    let chosen = pick(log, strategy);
    proof {
        let scores = choose|scores: Map<usize, u32>|
            scored(log@, strategy, scores) && #[trigger] sleepiest(log@, scores, chosen.0);
        assert forall|h: usize| #[trigger] log@.contains_key(h) implies scores[h] == most_asleep(
            log@[h]@,
        ) by {}
        assert(log@.contains_key(chosen.0));
    }
    chosen
}

} // verus!
