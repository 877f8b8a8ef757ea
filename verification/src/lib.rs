//! Solutions to a collection of small daily programming puzzles, together with
//! a two-dimensional spatial index over integer points.
//!
//! Every function carries a contract over a mathematical model of its inputs,
//! and every contract is machine-checked.
use crate::parse::{reader, Parse};
use crate::text::{
    chars_of, cut, has_content, spans_fit, split, split_spans, trim_span, trimmed, trimming,
    Separator,
};
use vstd::prelude::*;
use vstd::slice::slice_subrange;
use vstd::string::*;

pub mod lexical;
pub mod numeral;
pub mod parse;
pub mod sorting;
pub mod spatial;
pub mod text;
pub mod y2017;
pub mod y2018;

verus! {

/// Message for results that are unwrapped on trust in the input.
pub const TRUST: &'static str = "Input guarantees not met";

/// Message for results that can obviously be unwrapped.
pub const OBVIOUS: &'static str = "Wrong assumption";

/// The lines of `input` that are not blank, each without the white space at
/// either end. A line ends at a line feed or at the end of the text.
pub open spec fn content_lines(input: Seq<char>) -> Seq<Seq<char>> {
    split(input, set!['\n']).map_values(trimming()).filter(has_content())
}

/// The spans of the trimmed, non-blank lines of `text`.
pub fn line_spans(text: &[char]) -> (spans: Vec<(usize, usize)>)
    ensures
        spans_fit(spans@, text@.len()),
        cut(text@, spans@) == content_lines(text@),
{
    let feed: Vec<char> = vec!['\n'];
    let separator = Separator::AnyOf(feed.as_slice());
    assert(separator.marks() =~= set!['\n']) by {
        assert(feed@[0] == '\n');
    }
    let pieces = split_spans(text, &separator);
    let ghost raw = cut(text@, pieces@);
    let mut spans: Vec<(usize, usize)> = Vec::new();
    assert(raw.take(0).map_values(trimming()).filter(has_content()) =~= Seq::<
        Seq<char>,
    >::empty()) by {
        reveal(Seq::filter);
    }
    assert(cut(text@, spans@) =~= Seq::<Seq<char>>::empty());
    for i in 0..pieces.len()
        invariant
            raw == cut(text@, pieces@),
            spans_fit(pieces@, text@.len()),
            spans_fit(spans@, text@.len()),
            cut(text@, spans@) == raw.take(i as int).map_values(trimming()).filter(has_content()),
    {
        let ghost done = cut(text@, spans@);
        let (from, to) = pieces[i];
        let inner = trim_span(text, from, to);
        proof {
            let seen = raw.take(i as int).map_values(trimming());
            assert(raw.take(i + 1).map_values(trimming()) =~= seen.push(trimmed(raw[i as int])));
            seen.lemma_filter_push(trimmed(raw[i as int]), has_content());
        }
        if inner.0 < inner.1 {
            spans.push(inner);
            assert(cut(text@, spans@) =~= done.push(trimmed(raw[i as int])));
        }
    }
    assert(raw.take(pieces.len() as int) =~= raw);
    spans
}

/// Reads the non-blank lines of the input, each trimmed of white space.
pub fn lines(input: &str) -> (out: Vec<&str>)
    ensures
        out@.map_values(|line: &str| line@) == content_lines(input@),
{
    let text = chars_of(input);
    let spans = line_spans(text.as_slice());
    let mut out: Vec<&str> = Vec::new();
    for i in 0..spans.len()
        invariant
            text@ == input@,
            spans_fit(spans@, text@.len()),
            out.len() == i,
            forall|k: int| 0 <= k < i ==> (#[trigger] out@[k])@ == cut(text@, spans@)[k],
    {
        let (from, to) = spans[i];
        out.push(input.substring_char(from, to));
    }
    assert(out@.map_values(|line: &str| line@) =~= cut(text@, spans@));
    out
}

/// Reads a value from each of the given spans of `text` and collects those
/// that could be read.
pub fn parse_spans<T: Parse>(text: &[char], spans: &[(usize, usize)]) -> (out: Vec<T>)
    requires
        spans_fit(spans@, text@.len()),
    ensures
        out@ == cut(text@, spans@).filter_map(reader::<T>()),
{
    let ghost pieces = cut(text@, spans@);
    let mut out: Vec<T> = Vec::new();
    for i in 0..spans.len()
        invariant
            pieces == cut(text@, spans@),
            spans_fit(spans@, text@.len()),
            out@ == pieces.take(i as int).filter_map(reader::<T>()),
    {
        let (from, to) = spans[i];
        proof {
            pieces.lemma_filter_map_take_succ(reader::<T>(), i as int);
        }
        match T::parse(slice_subrange(text, from, to)) {
            Some(value) => {
                out.push(value);
            },
            None => {},
        }
    }
    assert(pieces.take(spans.len() as int) =~= pieces);
    out
}

/// Reads the non-blank lines of the input, parses each and collects the
/// values of those that parse.
pub fn parse_lines<T: Parse>(input: &str) -> (out: Vec<T>)
    ensures
        out@ == content_lines(input@).filter_map(reader::<T>()),
{
    let text = chars_of(input);
    let spans = line_spans(text.as_slice());
    parse_spans(text.as_slice(), spans.as_slice())
}

/// Splits the input at every character of `delimit`, parses each piece and
/// collects the values of those that parse.
pub fn parse_splits<T: Parse>(input: &str, delimit: &str) -> (out: Vec<T>)
    ensures
        out@ == split(input@, delimit@.to_set()).filter_map(reader::<T>()),
{
    let text = chars_of(input);
    let marks = chars_of(delimit);
    let spans = split_spans(text.as_slice(), &Separator::AnyOf(marks.as_slice()));
    parse_spans(text.as_slice(), spans.as_slice())
}

} // verus!
