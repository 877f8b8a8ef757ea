//! Text as sequences of characters: whitespace, splitting at separators and
//! trimming.
use vstd::prelude::*;

verus! {

/// Whether `c` is white space: one of the code points that Unicode gives the
/// property `White_Space`.
pub open spec fn is_space(c: char) -> bool {
    let n = c as u32;
    ||| 0x09 <= n <= 0x0D
    ||| n == 0x20
    ||| n == 0x85
    ||| n == 0xA0
    ||| n == 0x1680
    ||| 0x2000 <= n <= 0x200A
    ||| n == 0x2028
    ||| n == 0x2029
    ||| n == 0x202F
    ||| n == 0x205F
    ||| n == 0x3000
}

/// Whether `c` is white space.
pub fn space(c: char) -> (r: bool)
    ensures
        r == is_space(c),
{
    let n: u32 = c as u32;
    (0x09 <= n && n <= 0x0D) || n == 0x20 || n == 0x85 || n == 0xA0 || n == 0x1680 || (0x2000 <= n
        && n <= 0x200A) || n == 0x2028 || n == 0x2029 || n == 0x202F || n == 0x205F || n == 0x3000
}

/// The characters of `s`, in order.
pub fn chars_of(s: &str) -> (v: Vec<char>)
    ensures
        v@ == s@,
{
    let mut v: Vec<char> = Vec::new();
    for c in it: s.chars()
        invariant
            it.seq() == s@,
            v@ == it.seq().take(it.index() as int),
    {
        v.push(c);
    }
    v
}

/// What a text is split at.
pub enum Separator<'a> {
    /// Any white space character.
    Space,
    /// Any of the given characters.
    AnyOf(&'a [char]),
}

impl<'a> Separator<'a> {
    /// The characters that separate.
    pub open spec fn marks(self) -> Set<char> {
        match self {
            Separator::Space => Set::new(|c: char| is_space(c)),
            Separator::AnyOf(list) => list@.to_set(),
        }
    }

    /// Whether `c` separates.
    pub fn hits(&self, c: char) -> (r: bool)
        ensures
            r == self.marks().contains(c),
    {
        match self {
            Separator::Space => space(c),
            Separator::AnyOf(list) => {
                let mut i: usize = 0;
                while i < list.len()
                    invariant
                        i <= list.len(),
                        self.marks() == list@.to_set(),
                        forall|k: int| 0 <= k < i ==> list@[k] != c,
                    decreases list.len() - i,
                {
                    if list[i] == c {
                        assert(list@[i as int] == c);
                        return true;
                    }
                    i += 1;
                }
                false
            },
        }
    }
}

/// The pieces of `s` between separators. A text with `n` separators has
/// `n + 1` pieces, some of which may be empty.
pub open spec fn split(s: Seq<char>, marks: Set<char>) -> Seq<Seq<char>>
    decreases s.len(),
{
    if s.len() == 0 {
        seq![Seq::empty()]
    } else {
        let before = split(s.drop_last(), marks);
        if marks.contains(s.last()) {
            before.push(Seq::empty())
        } else {
            before.drop_last().push(before.last().push(s.last()))
        }
    }
}

/// Whether every span lies within a text of length `len`.
pub open spec fn spans_fit(spans: Seq<(usize, usize)>, len: nat) -> bool {
    forall|i: int| 0 <= i < spans.len() ==> (#[trigger] spans[i]).0 <= spans[i].1 <= len
}

/// The parts of `s` that the spans mark, in order.
pub open spec fn cut(s: Seq<char>, spans: Seq<(usize, usize)>) -> Seq<Seq<char>> {
    Seq::new(spans.len(), |i: int| s.subrange(spans[i].0 as int, spans[i].1 as int))
}

/// A split always yields at least one piece.
pub proof fn lemma_split_len(s: Seq<char>, marks: Set<char>)
    ensures
        split(s, marks).len() >= 1,
    decreases s.len(),
{
    if s.len() > 0 {
        lemma_split_len(s.drop_last(), marks);
    }
}

/// Splits `text` at the separator and returns the span of each piece.
pub fn split_spans(text: &[char], separator: &Separator) -> (spans: Vec<(usize, usize)>)
    ensures
        spans_fit(spans@, text@.len()),
        cut(text@, spans@) == split(text@, separator.marks()),
{
    let ghost marks = separator.marks();
    let mut spans: Vec<(usize, usize)> = Vec::new();
    let mut start: usize = 0;
    let mut i: usize = 0;
    assert(text@.take(0) =~= Seq::<char>::empty());
    assert(cut(text@, spans@).push(text@.subrange(0, 0)) =~= split(text@.take(0), marks));
    while i < text.len()
        invariant
            start <= i <= text.len(),
            marks == separator.marks(),
            spans_fit(spans@, text@.len()),
            cut(text@, spans@).push(text@.subrange(start as int, i as int)) == split(
                text@.take(i as int),
                marks,
            ),
        decreases text.len() - i,
    {
        let ghost upto = text@.take(i + 1);
        let ghost before = split(text@.take(i as int), marks);
        let ghost done = cut(text@, spans@);
        let ghost piece = text@.subrange(start as int, i as int);
        assert(upto.drop_last() =~= text@.take(i as int));
        assert(upto.last() == text@[i as int]);
        assert(before.drop_last() =~= done);
        assert(before.last() == piece);
        if separator.hits(text[i]) {
            spans.push((start, i));
            start = i + 1;
            assert(cut(text@, spans@) =~= done.push(piece));
            assert(text@.subrange(start as int, i + 1) =~= Seq::<char>::empty());
        } else {
            assert(text@.subrange(start as int, i + 1) =~= piece.push(text@[i as int]));
        }
        i += 1;
    }
    let ghost done = cut(text@, spans@);
    spans.push((start, i));
    assert(text@.take(i as int) =~= text@);
    assert(cut(text@, spans@) =~= done.push(text@.subrange(start as int, i as int)));
    spans
}

/// `s` without the white space it begins with.
pub open spec fn trimmed_start(s: Seq<char>) -> Seq<char>
    decreases s.len(),
{
    if s.len() > 0 && is_space(s.first()) {
        trimmed_start(s.drop_first())
    } else {
        s
    }
}

/// `s` without the white space it ends with.
pub open spec fn trimmed_end(s: Seq<char>) -> Seq<char>
    decreases s.len(),
{
    if s.len() > 0 && is_space(s.last()) {
        trimmed_end(s.drop_last())
    } else {
        s
    }
}

/// `s` without the white space at either end.
pub open spec fn trimmed(s: Seq<char>) -> Seq<char> {
    trimmed_end(trimmed_start(s))
}

/// The text without the white space at either end.
pub open spec fn trimming() -> spec_fn(Seq<char>) -> Seq<char> {
    |s: Seq<char>| trimmed(s)
}

/// Narrows the span `from..to` of `text` to what is left once the white
/// space at either end is gone.
pub fn trim_span(text: &[char], from: usize, to: usize) -> (span: (usize, usize))
    requires
        from <= to <= text@.len(),
    ensures
        from <= span.0 <= span.1 <= to,
        text@.subrange(span.0 as int, span.1 as int) == trimmed(
            text@.subrange(from as int, to as int),
        ),
{
    let mut a: usize = from;
    while a < to && space(text[a])
        invariant
            from <= a <= to <= text@.len(),
            trimmed_start(text@.subrange(from as int, to as int)) == trimmed_start(
                text@.subrange(a as int, to as int),
            ),
        decreases to - a,
    {
        assert(text@.subrange(a as int, to as int).drop_first() =~= text@.subrange(
            a + 1,
            to as int,
        ));
        a += 1;
    }
    let mut b: usize = to;
    while a < b && space(text[b - 1])
        invariant
            a <= b <= to <= text@.len(),
            trimmed_end(text@.subrange(a as int, to as int)) == trimmed_end(
                text@.subrange(a as int, b as int),
            ),
        decreases b,
    {
        assert(text@.subrange(a as int, b as int).drop_last() =~= text@.subrange(
            a as int,
            b - 1,
        ));
        b -= 1;
    }
    (a, b)
}

/// Whether a piece of text has any character.
pub open spec fn has_content() -> spec_fn(Seq<char>) -> bool {
    |piece: Seq<char>| piece.len() > 0
}

/// The white space characters.
pub open spec fn spaces() -> Set<char> {
    Set::new(|c: char| is_space(c))
}

/// The words of `s`: the pieces between white space that have any
/// character.
pub open spec fn words(s: Seq<char>) -> Seq<Seq<char>> {
    split(s, spaces()).filter(has_content())
}

/// The spans of `spans` that are not empty, in order.
pub fn filled_spans(text: &[char], spans: &[(usize, usize)]) -> (out: Vec<(usize, usize)>)
    requires
        spans_fit(spans@, text@.len()),
    ensures
        spans_fit(out@, text@.len()),
        cut(text@, out@) == cut(text@, spans@).filter(has_content()),
{
    let ghost pieces = cut(text@, spans@);
    let mut out: Vec<(usize, usize)> = Vec::new();
    assert(pieces.take(0).filter(has_content()) =~= Seq::<Seq<char>>::empty()) by {
        reveal(Seq::filter);
    }
    assert(cut(text@, out@) =~= Seq::<Seq<char>>::empty());
    for i in 0..spans.len()
        invariant
            pieces == cut(text@, spans@),
            spans_fit(spans@, text@.len()),
            spans_fit(out@, text@.len()),
            cut(text@, out@) == pieces.take(i as int).filter(has_content()),
    {
        let ghost done = cut(text@, out@);
        let span = spans[i];
        proof {
            assert(pieces.take(i + 1) =~= pieces.take(i as int).push(pieces[i as int]));
            pieces.take(i as int).lemma_filter_push(pieces[i as int], has_content());
        }
        if span.0 < span.1 {
            out.push(span);
            assert(cut(text@, out@) =~= done.push(pieces[i as int]));
        }
    }
    assert(pieces.take(spans.len() as int) =~= pieces);
    out
}

/// The spans of the words of `text`.
pub fn word_spans(text: &[char]) -> (spans: Vec<(usize, usize)>)
    ensures
        spans_fit(spans@, text@.len()),
        cut(text@, spans@) == words(text@),
{
    let pieces = split_spans(text, &Separator::Space);
    filled_spans(text, pieces.as_slice())
}

/// The lines of `s`: the pieces between line feeds, but for the piece behind
/// the last line feed where it is empty.
pub open spec fn text_lines(s: Seq<char>) -> Seq<Seq<char>> {
    let pieces = split(s, set!['\n']);
    if pieces.last().len() == 0 {
        pieces.drop_last()
    } else {
        pieces
    }
}

/// The spans of the lines of `text`.
pub fn text_line_spans(text: &[char]) -> (spans: Vec<(usize, usize)>)
    ensures
        spans_fit(spans@, text@.len()),
        cut(text@, spans@) == text_lines(text@),
{
    let feed: Vec<char> = vec!['\n'];
    let separator = Separator::AnyOf(feed.as_slice());
    assert(separator.marks() =~= set!['\n']) by {
        assert(feed@[0] == '\n');
    }
    let mut spans = split_spans(text, &separator);
    proof {
        lemma_split_len(text@, set!['\n']);
    }
    let ghost pieces = cut(text@, spans@);
    let last = spans[spans.len() - 1];
    if last.0 == last.1 {
        spans.pop();
        assert(cut(text@, spans@) =~= pieces.drop_last());
    }
    spans
}

/// Whether two texts are the same.
pub fn same_text(a: &[char], b: &[char]) -> (r: bool)
    ensures
        r == (a@ == b@),
{
    if a.len() != b.len() {
        return false;
    }
    for i in 0..a.len()
        invariant
            a@.len() == b@.len(),
            forall|k: int| 0 <= k < i ==> a@[k] == b@[k],
    {
        if a[i] != b[i] {
            return false;
        }
    }
    assert(a@ =~= b@);
    true
}

/// Whether no two of the texts are the same.
pub fn all_differ(items: &Vec<Vec<char>>) -> (r: bool)
    ensures
        r == forall|i: int, j: int|
            0 <= i < j < items@.len() ==> (#[trigger] items@[i])@ != (#[trigger] items@[j])@,
{
    for j in 0..items.len()
        invariant
            forall|a: int, b: int|
                0 <= a < b < j ==> (#[trigger] items@[a])@ != (#[trigger] items@[b])@,
    {
        for i in 0..j
            invariant
                j < items@.len(),
                forall|a: int| 0 <= a < i ==> (#[trigger] items@[a])@ != items@[j as int]@,
        {
            if same_text(items[i].as_slice(), items[j].as_slice()) {
                return false;
            }
        }
    }
    true
}

} // verus!
