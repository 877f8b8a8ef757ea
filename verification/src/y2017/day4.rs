//! High-Entropy Passphrases: lines of words in which no word may occur
//! twice, or in which no two words may be made of the same letters.
use crate::sorting::{lemma_sorted, sort, sorted, Order, Relation};
use crate::text::{
    all_differ, chars_of, cut, spans_fit, text_line_spans, text_lines, word_spans, words,
};
use vstd::multiset::Multiset;
use vstd::prelude::*;
use vstd::relations::{sorted_by, total_ordering};
use vstd::slice::{slice_subrange, slice_to_vec};

verus! {

/// The order of characters by code point.
pub struct ByCode;

impl Relation<char> for ByCode {
    open spec fn admits(&self, a: char) -> bool {
        true
    }

    open spec fn le(&self, a: char, b: char) -> bool {
        a <= b
    }

    proof fn lemma_total(&self, a: char, b: char) {
    }

    proof fn lemma_transitive(&self, a: char, b: char, c: char) {
    }
}

impl Order<char> for ByCode {
    fn leq(&self, a: &char, b: &char) -> (r: bool) {
        *a <= *b
    }
}

/// The letters of a word, each as often as the word has it.
pub open spec fn letters() -> spec_fn(Seq<char>) -> Multiset<char> {
    |word: Seq<char>| word.to_multiset()
}

/// Whether no word of the line occurs twice in it.
pub open spec fn words_differ(line: Seq<char>) -> bool {
    words(line).no_duplicates()
}

/// Whether no two words of the line are made of the same letters.
pub open spec fn letters_differ(line: Seq<char>) -> bool {
    words(line).map_values(letters()).no_duplicates()
}

/// Two words have the same letters exactly where sorting their letters
/// gives the same word.
pub proof fn lemma_sorted_letters(a: Seq<char>, b: Seq<char>)
    ensures
        (sorted(a, &ByCode) == sorted(b, &ByCode)) <==> (a.to_multiset() == b.to_multiset()),
{
    lemma_sorted(a, &ByCode);
    lemma_sorted(b, &ByCode);
    if a.to_multiset() == b.to_multiset() {
        let by_code = |x: char, y: char| x <= y;
        let x = sorted(a, &ByCode);
        let y = sorted(b, &ByCode);
        assert(sorted_by(x, by_code)) by {
            assert forall|i: int, j: int| 0 <= i < j < x.len() implies #[trigger] by_code(
                x[i],
                x[j],
            ) by {
                assert(ByCode.le(x[i], x[j]));
            }
        }
        assert(sorted_by(y, by_code)) by {
            assert forall|i: int, j: int| 0 <= i < j < y.len() implies #[trigger] by_code(
                y[i],
                y[j],
            ) by {
                assert(ByCode.le(y[i], y[j]));
            }
        }
        assert(total_ordering(by_code));
        vstd::seq_lib::lemma_sorted_unique(x, y, by_code);
    }
}

/// Whether no word of the line occurs twice in it.
pub fn distinct_words(line: &[char]) -> (r: bool)
    ensures
        r == words_differ(line@),
{
    let spans = word_spans(line);
    let mut items: Vec<Vec<char>> = Vec::new();
    for i in 0..spans.len()
        invariant
            spans_fit(spans@, line@.len()),
            items.len() == i,
            forall|k: int| 0 <= k < i ==> (#[trigger] items@[k])@ == cut(line@, spans@)[k],
    {
        let (from, to) = spans[i];
        items.push(slice_to_vec(slice_subrange(line, from, to)));
    }
    let r = all_differ(&items);
    proof {
        let all = words(line@);
        if r {
            assert forall|i: int, j: int|
                0 <= i < all.len() && 0 <= j < all.len() && i != j implies all[i] != all[j] by {
                if i < j {
                    assert(items@[i]@ != items@[j]@);
                } else {
                    assert(items@[j]@ != items@[i]@);
                }
            }
        } else {
            let (i, j) = choose|i: int, j: int|
                0 <= i < j < items@.len() && (#[trigger] items@[i])@ == (#[trigger] items@[j])@;
            assert(all[i] == all[j]);
        }
    }
    r
}

/// Whether no two words of the line are made of the same letters.
pub fn distinct_letters(line: &[char]) -> (r: bool)
    ensures
        r == letters_differ(line@),
{
    let spans = word_spans(line);
    let mut items: Vec<Vec<char>> = Vec::new();
    for i in 0..spans.len()
        invariant
            spans_fit(spans@, line@.len()),
            items.len() == i,
            forall|k: int|
                0 <= k < i ==> (#[trigger] items@[k])@ == sorted(cut(line@, spans@)[k], &ByCode),
    {
        let (from, to) = spans[i];
        items.push(sort(slice_subrange(line, from, to), &ByCode));
    }
    let r = all_differ(&items);
    proof {
        let all = words(line@);
        let kinds = all.map_values(letters());
        if r {
            assert forall|i: int, j: int|
                0 <= i < kinds.len() && 0 <= j < kinds.len() && i != j implies kinds[i]
                != kinds[j] by {
                lemma_sorted_letters(all[i], all[j]);
                if i < j {
                    assert(items@[i]@ != items@[j]@);
                } else {
                    assert(items@[j]@ != items@[i]@);
                }
            }
        } else {
            let (i, j) = choose|i: int, j: int|
                0 <= i < j < items@.len() && (#[trigger] items@[i])@ == (#[trigger] items@[j])@;
            lemma_sorted_letters(all[i], all[j]);
            assert(kinds[i] == kinds[j]);
        }
    }
    r
}

/// Check that the line has no repeated words.
pub fn no_repeat(line: &&str) -> (r: bool)
    ensures
        r == words_differ(line@),
{
    let text = chars_of(*line);
    distinct_words(text.as_slice())
}

/// Check that the line has no words that are anagrams of each other.
pub fn no_anagram(line: &&str) -> (r: bool)
    ensures
        r == letters_differ(line@),
{
    let text = chars_of(*line);
    distinct_letters(text.as_slice())
}

/// Whether a line has no repeated words.
pub open spec fn valid() -> spec_fn(Seq<char>) -> bool {
    |line: Seq<char>| words_differ(line)
}

/// Whether a line has no two words made of the same letters.
pub open spec fn secure() -> spec_fn(Seq<char>) -> bool {
    |line: Seq<char>| letters_differ(line)
}

/// The number of lines in which no word occurs twice.
pub fn part1(input: &str) -> (count: usize)
    ensures
        count == text_lines(input@).filter(valid()).len(),
{
    let text = chars_of(input);
    let spans = text_line_spans(text.as_slice());
    let ghost all = cut(text@, spans@);
    let mut count: usize = 0;
    assert(all.take(0).filter(valid()) =~= Seq::<Seq<char>>::empty()) by {
        reveal(Seq::filter);
    }
    for i in 0..spans.len()
        invariant
            all == cut(text@, spans@),
            spans_fit(spans@, text@.len()),
            count <= i,
            count == all.take(i as int).filter(valid()).len(),
    {
        let (from, to) = spans[i];
        proof {
            assert(all.take(i + 1) =~= all.take(i as int).push(all[i as int]));
            all.take(i as int).lemma_filter_push(all[i as int], valid());
        }
        if distinct_words(slice_subrange(text.as_slice(), from, to)) {
            count += 1;
        }
    }
    assert(all.take(spans.len() as int) =~= all);
    count
}

/// The number of lines in which no two words are anagrams of each other.
pub fn part2(input: &str) -> (count: usize)
    ensures
        count == text_lines(input@).filter(secure()).len(),
{
    let text = chars_of(input);
    let spans = text_line_spans(text.as_slice());
    let ghost all = cut(text@, spans@);
    let mut count: usize = 0;
    assert(all.take(0).filter(secure()) =~= Seq::<Seq<char>>::empty()) by {
        reveal(Seq::filter);
    }
    for i in 0..spans.len()
        invariant
            all == cut(text@, spans@),
            spans_fit(spans@, text@.len()),
            count <= i,
            count == all.take(i as int).filter(secure()).len(),
    {
        let (from, to) = spans[i];
        proof {
            assert(all.take(i + 1) =~= all.take(i as int).push(all[i as int]));
            all.take(i as int).lemma_filter_push(all[i as int], secure());
        }
        if distinct_letters(slice_subrange(text.as_slice(), from, to)) {
            count += 1;
        }
    }
    assert(all.take(spans.len() as int) =~= all);
    count
}

} // verus!
