//! The order of texts as in a dictionary, and the search for a word in a
//! text.
use crate::sorting::{Order, Relation};
use crate::text::same_text;
use vstd::prelude::*;
use vstd::slice::slice_subrange;

verus! {

/// Whether `a` comes before `b` in the dictionary, or is `b`: at the first
/// place where they differ `a` has the smaller character, or `a` ends there.
pub open spec fn lex_le(a: Seq<char>, b: Seq<char>) -> bool
    decreases a.len(),
{
    if a.len() == 0 {
        true
    } else if b.len() == 0 {
        false
    } else if a[0] != b[0] {
        a[0] < b[0]
    } else {
        lex_le(a.drop_first(), b.drop_first())
    }
}

/// Of two texts one comes before the other, or they are the same.
pub proof fn lemma_lex_total(a: Seq<char>, b: Seq<char>)
    ensures
        lex_le(a, b) || lex_le(b, a),
    decreases a.len(),
{
    if a.len() > 0 && b.len() > 0 && a[0] == b[0] {
        lemma_lex_total(a.drop_first(), b.drop_first());
    }
}

/// What comes before a text comes before all that the text comes before.
pub proof fn lemma_lex_transitive(a: Seq<char>, b: Seq<char>, c: Seq<char>)
    requires
        lex_le(a, b),
        lex_le(b, c),
    ensures
        lex_le(a, c),
    decreases a.len(),
{
    if a.len() > 0 && b.len() > 0 && c.len() > 0 && a[0] == b[0] && b[0] == c[0] {
        lemma_lex_transitive(a.drop_first(), b.drop_first(), c.drop_first());
    }
}

/// The dictionary order of texts.
pub struct Lexical;

impl Relation<Seq<char>> for Lexical {
    open spec fn admits(&self, a: Seq<char>) -> bool {
        true
    }

    open spec fn le(&self, a: Seq<char>, b: Seq<char>) -> bool {
        lex_le(a, b)
    }

    proof fn lemma_total(&self, a: Seq<char>, b: Seq<char>) {
        lemma_lex_total(a, b);
    }

    proof fn lemma_transitive(&self, a: Seq<char>, b: Seq<char>, c: Seq<char>) {
        lemma_lex_transitive(a, b, c);
    }
}

/// Whether `a` comes before `b` in the dictionary, or is `b`.
pub fn text_leq(a: &[char], b: &[char]) -> (r: bool)
    ensures
        r == lex_le(a@, b@),
{
    let mut i: usize = 0;
    assert(a@.skip(0) =~= a@ && b@.skip(0) =~= b@);
    while i < a.len() && i < b.len()
        invariant
            i <= a@.len(),
            i <= b@.len(),
            lex_le(a@, b@) == lex_le(a@.skip(i as int), b@.skip(i as int)),
        decreases a@.len() - i,
    {
        if a[i] != b[i] {
            return a[i] < b[i];
        }
        assert(a@.skip(i as int).drop_first() =~= a@.skip(i + 1));
        assert(b@.skip(i as int).drop_first() =~= b@.skip(i + 1));
        i += 1;
    }
    i == a.len()
}

/// The part of `text` that a span marks.
pub open spec fn part(text: Seq<char>, span: (usize, usize)) -> Seq<char> {
    text.subrange(span.0 as int, span.1 as int)
}

/// The order of the spans of a text by the parts they mark.
pub struct ByText<'a>(pub &'a [char]);

impl<'a> Relation<(usize, usize)> for ByText<'a> {
    open spec fn admits(&self, a: (usize, usize)) -> bool {
        a.0 <= a.1 <= self.0@.len()
    }

    open spec fn le(&self, a: (usize, usize), b: (usize, usize)) -> bool {
        lex_le(part(self.0@, a), part(self.0@, b))
    }

    proof fn lemma_total(&self, a: (usize, usize), b: (usize, usize)) {
        lemma_lex_total(part(self.0@, a), part(self.0@, b));
    }

    proof fn lemma_transitive(&self, a: (usize, usize), b: (usize, usize), c: (usize, usize)) {
        lemma_lex_transitive(part(self.0@, a), part(self.0@, b), part(self.0@, c));
    }
}

impl<'a> Order<(usize, usize)> for ByText<'a> {
    fn leq(&self, a: &(usize, usize), b: &(usize, usize)) -> (r: bool) {
        text_leq(slice_subrange(self.0, a.0, a.1), slice_subrange(self.0, b.0, b.1))
    }
}

/// Whether `word` stands somewhere in `text`.
pub open spec fn has_word(text: Seq<char>, word: Seq<char>) -> bool {
    exists|i: int|
        0 <= i <= text.len() - word.len() && #[trigger] text.subrange(i, i + word.len()) == word
}

/// Whether `word` stands somewhere in `text`.
pub fn contains_word(text: &[char], word: &[char]) -> (r: bool)
    ensures
        r == has_word(text@, word@),
{
    if word.len() > text.len() {
        return false;
    }
    let last = text.len() - word.len();
    let mut i: usize = 0;
    loop
        invariant
            i <= last,
            word@.len() <= text@.len() <= usize::MAX,
            last == text@.len() - word@.len(),
            forall|k: int| 0 <= k < i ==> #[trigger] text@.subrange(k, k + word@.len()) != word@,
        decreases last - i,
    {
        if same_text(slice_subrange(text, i, i + word.len()), word) {
            return true;
        }
        if i == last {
            return false;
        }
        i += 1;
    }
}

} // verus!
