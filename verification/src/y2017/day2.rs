//! Corruption Checksum: the spread of each row of a spreadsheet, and the one
//! whole quotient that each row holds.
use crate::parse::reader;
use crate::sorting::{ascending, lemma_places, lemma_sorted, sort, sorted, Order, Relation};
use crate::text::{chars_of, cut, is_space, spans_fit, split, split_spans, Separator};
use crate::{content_lines, line_spans, parse_spans};
use vstd::prelude::*;
use vstd::slice::slice_subrange;

verus! {

/// The largest value of a row; 0 for a row without values.
pub open spec fn largest(row: Seq<u32>) -> int
    decreases row.len(),
{
    if row.len() == 0 {
        0
    } else if row.last() >= largest(row.drop_last()) {
        row.last() as int
    } else {
        largest(row.drop_last())
    }
}

/// The smallest value of a row; the largest number there is for a row
/// without values.
pub open spec fn smallest(row: Seq<u32>) -> int
    decreases row.len(),
{
    if row.len() == 0 {
        u32::MAX as int
    } else if row.last() <= smallest(row.drop_last()) {
        row.last() as int
    } else {
        smallest(row.drop_last())
    }
}

/// The difference between the largest and the smallest value of a row.
pub open spec fn spread(row: Seq<u32>) -> int {
    largest(row) - smallest(row)
}

/// The largest and the smallest value of a row bound all its values, and
/// both are values of the row.
pub proof fn lemma_extremes(row: Seq<u32>)
    requires
        row.len() > 0,
    ensures
        forall|i: int| 0 <= i < row.len() ==> smallest(row) <= #[trigger] row[i] <= largest(row),
        exists|i: int| 0 <= i < row.len() && row[i] == largest(row),
        exists|i: int| 0 <= i < row.len() && row[i] == smallest(row),
        0 <= spread(row) <= u32::MAX,
    decreases row.len(),
{
    let front = row.drop_last();
    let n = row.len() as int;
    if front.len() > 0 {
        lemma_extremes(front);
        let hi = choose|i: int| 0 <= i < front.len() && front[i] == largest(front);
        let lo = choose|i: int| 0 <= i < front.len() && front[i] == smallest(front);
        assert(row[hi] == front[hi] && row[lo] == front[lo]);
        assert(row[n - 1] == row.last());
        assert(row[n - 1] == largest(row) || row[hi] == largest(row));
        assert(row[n - 1] == smallest(row) || row[lo] == smallest(row));
        assert forall|i: int| 0 <= i < row.len() implies smallest(row) <= #[trigger] row[i]
            <= largest(row) by {
            if i < n - 1 {
                assert(row[i] == front[i]);
            }
        }
    } else {
        assert(largest(front) == 0 && smallest(front) == u32::MAX);
        assert(row[0] == largest(row) && row[0] == smallest(row));
    }
}

/// Range of values in the row: the difference between its largest and its
/// smallest value.
pub fn range(row: &[u32]) -> (r: u32)
    requires
        row@.len() > 0,
    ensures
        r == spread(row@),
{
    let mut max: u32 = row[0];
    let mut min: u32 = row[0];
    proof {
        let none = row@.take(1).drop_last();
        assert(none.len() == 0);
        assert(largest(none) == 0 && smallest(none) == u32::MAX);
        assert(row@.take(1).last() == row@[0]);
    }
    for i in 1..row.len()
        invariant
            row@.len() > 0,
            max == largest(row@.take(i as int)),
            min == smallest(row@.take(i as int)),
    {
        assert(row@.take(i + 1).drop_last() =~= row@.take(i as int));
        if row[i] >= max {
            max = row[i];
        }
        if row[i] <= min {
            min = row[i];
        }
    }
    proof {
        assert(row@.take(row.len() as int) =~= row@);
        lemma_extremes(row@);
    }
    max - min
}

/// The sum of the spreads of the first `n` rows.
pub open spec fn spread_sum(matrix: Seq<Vec<u32>>, n: int) -> int
    decreases n,
{
    if n <= 0 {
        0
    } else {
        spread_sum(matrix, n - 1) + spread(matrix[n - 1]@)
    }
}

/// The sum over more rows is no smaller.
pub proof fn lemma_spread_sum_grows(matrix: Seq<Vec<u32>>, m: int, n: int)
    requires
        0 <= m <= n <= matrix.len(),
        forall|i: int| 0 <= i < matrix.len() ==> (#[trigger] matrix[i]).len() > 0,
    ensures
        spread_sum(matrix, m) <= spread_sum(matrix, n),
    decreases n - m,
{
    if m < n {
        lemma_spread_sum_grows(matrix, m, n - 1);
        lemma_extremes(matrix[n - 1]@);
    }
}

/// The spreadsheet's checksum: the sum over its rows of the difference
/// between the largest and the smallest value of the row.
pub fn part1(matrix: &[Vec<u32>]) -> (sum: u32)
    requires
        forall|i: int| 0 <= i < matrix@.len() ==> (#[trigger] matrix@[i]).len() > 0,
        spread_sum(matrix@, matrix@.len() as int) <= u32::MAX,
    ensures
        sum == spread_sum(matrix@, matrix@.len() as int),
{
    let mut sum: u32 = 0;
    for i in 0..matrix.len()
        invariant
            forall|k: int| 0 <= k < matrix@.len() ==> (#[trigger] matrix@[k]).len() > 0,
            spread_sum(matrix@, matrix@.len() as int) <= u32::MAX,
            sum == spread_sum(matrix@, i as int),
    {
        proof {
            lemma_spread_sum_grows(matrix@, i + 1, matrix@.len() as int);
        }
        sum = sum + range(matrix[i].as_slice());
    }
    sum
}

/// The numbers written in a line between white space.
pub open spec fn numbers_in() -> spec_fn(Seq<char>) -> Seq<u32> {
    |line: Seq<char>| split(line, Set::new(|c: char| is_space(c))).filter_map(reader::<u32>())
}

/// The rows of a matrix as sequences.
pub open spec fn rows_of(matrix: Seq<Vec<u32>>) -> Seq<Seq<u32>> {
    matrix.map_values(|row: Vec<u32>| row@)
}

/// Read a 2-dimensional array of numbers delimited by newlines and
/// whitespace: one row for each line that is not blank, holding the numbers
/// written in it.
pub fn read_matrix(input: &str) -> (matrix: Vec<Vec<u32>>)
    ensures
        rows_of(matrix@) == content_lines(input@).map_values(numbers_in()),
{
    let text = chars_of(input);
    let spans = line_spans(text.as_slice());
    let mut matrix: Vec<Vec<u32>> = Vec::new();
    for i in 0..spans.len()
        invariant
            text@ == input@,
            spans_fit(spans@, text@.len()),
            cut(text@, spans@) == content_lines(text@),
            matrix.len() == i,
            forall|k: int|
                0 <= k < i ==> (#[trigger] matrix@[k])@ == numbers_in()(cut(text@, spans@)[k]),
    {
        let (from, to) = spans[i];
        let line = slice_subrange(text.as_slice(), from, to);
        let pieces = split_spans(line, &Separator::Space);
        let row: Vec<u32> = parse_spans(line, pieces.as_slice());
        matrix.push(row);
    }
    assert(rows_of(matrix@) =~= content_lines(input@).map_values(numbers_in()));
    matrix
}

/// The order of numbers by size.
pub struct BySize;

impl Relation<u32> for BySize {
    open spec fn admits(&self, a: u32) -> bool {
        true
    }

    open spec fn le(&self, a: u32, b: u32) -> bool {
        a <= b
    }

    proof fn lemma_total(&self, a: u32, b: u32) {
    }

    proof fn lemma_transitive(&self, a: u32, b: u32, c: u32) {
    }
}

impl Order<u32> for BySize {
    fn leq(&self, a: &u32, b: &u32) -> (r: bool) {
        *a <= *b
    }
}

/// Whether the value at `i` divides the value at `j` evenly.
pub open spec fn divides(row: Seq<u32>, i: int, j: int) -> bool {
    row[i] != 0 && row[j] % row[i] == 0
}

/// Whether the pair of places `(a, b)` is looked at before the pair `(i, j)`
/// when pairs are gone through by their first place, then by their second.
pub open spec fn earlier(a: int, b: int, i: int, j: int) -> bool {
    a < i || (a == i && b < j)
}

/// Whether `(i, j)` is the first pair of places, the first before the
/// second, at which the one value divides the other evenly.
pub open spec fn first_pair(row: Seq<u32>, i: int, j: int) -> bool {
    &&& 0 <= i < j < row.len()
    &&& divides(row, i, j)
    &&& forall|a: int, b: int|
        0 <= a < b < row.len() && earlier(a, b, i, j) ==> !#[trigger] divides(row, a, b)
}

/// The quotient at the first pair of places at which one value divides the
/// other.
pub open spec fn quotient(row: Seq<u32>) -> int {
    let (i, j) = choose|i: int, j: int| first_pair(row, i, j);
    row[j] as int / row[i] as int
}

/// There is one first pair at most.
pub proof fn lemma_first_pair_unique(row: Seq<u32>, i: int, j: int)
    requires
        first_pair(row, i, j),
    ensures
        quotient(row) == row[j] as int / row[i] as int,
{
    let (a, b) = choose|a: int, b: int| first_pair(row, a, b);
    assert(first_pair(row, a, b));
    if earlier(a, b, i, j) {
        assert(!divides(row, a, b));
    }
    if earlier(i, j, a, b) {
        assert(!divides(row, i, j));
    }
}

/// A row in which one value divides another has a first such pair, once no
/// value is zero and the values ascend.
pub proof fn lemma_has_first_pair(row: Seq<u32>)
    requires
        has_whole_quotient(row),
        ascending(row, &BySize),
        forall|k: int| 0 <= k < row.len() ==> row[k] != 0,
    ensures
        exists|i: int, j: int| first_pair(row, i, j),
{
    let (a, b) = choose|a: int, b: int|
        0 <= a < row.len() && 0 <= b < row.len() && a != b && #[trigger] divides(row, a, b);
    let (lo, hi) = if a < b {
        (a, b)
    } else {
        (b, a)
    };
    if a > b {
        assert(BySize.le(row[b], row[a]));
        assert(row[a] == row[b]) by (nonlinear_arith)
            requires
                0 < row[b] <= row[a],
                row[b] as int % row[a] as int == 0,
        ;
    }
    assert(divides(row, lo, hi));
    lemma_least_pair(row, lo, hi, 0, 1);
}

/// Going through the pairs from `(i, j)` on, where no earlier pair divides,
/// ends at the first pair that does.
proof fn lemma_least_pair(row: Seq<u32>, lo: int, hi: int, i: int, j: int)
    requires
        0 <= lo < hi < row.len(),
        divides(row, lo, hi),
        0 <= i < j <= row.len(),
        !earlier(lo, hi, i, j),
        forall|a: int, b: int|
            0 <= a < b < row.len() && earlier(a, b, i, j) ==> !#[trigger] divides(row, a, b),
    ensures
        exists|i: int, j: int| first_pair(row, i, j),
    decreases row.len() - i, row.len() - j,
{
    if j == row.len() {
        assert forall|a: int, b: int|
            0 <= a < b < row.len() && earlier(a, b, i + 1, i + 2) implies !#[trigger] divides(
            row,
            a,
            b,
        ) by {
            assert(earlier(a, b, i, j));
        }
        lemma_least_pair(row, lo, hi, i + 1, i + 2);
    } else if divides(row, i, j) {
        assert(first_pair(row, i, j));
    } else {
        assert forall|a: int, b: int|
            0 <= a < b < row.len() && earlier(a, b, i, j + 1) implies !#[trigger] divides(
            row,
            a,
            b,
        ) by {
            if !earlier(a, b, i, j) {
                assert(a == i && b == j);
            }
        }
        lemma_least_pair(row, lo, hi, i, j + 1);
    }
}

/// Whether two values at different places of the row are such that one
/// divides the other evenly.
pub open spec fn has_whole_quotient(row: Seq<u32>) -> bool {
    exists|i: int, j: int|
        0 <= i < row.len() && 0 <= j < row.len() && i != j && #[trigger] divides(row, i, j)
}

/// A row without a zero has none however its values are rearranged.
pub proof fn lemma_no_zero_survives(s: Seq<u32>, t: Seq<u32>)
    requires
        s.to_multiset() == t.to_multiset(),
        forall|k: int| 0 <= k < s.len() ==> s[k] != 0,
    ensures
        forall|k: int| 0 <= k < t.len() ==> t[k] != 0,
{
    assert forall|k: int| 0 <= k < t.len() implies t[k] != 0 by {
        vstd::seq_lib::to_multiset_contains(t, t[k]);
        vstd::seq_lib::to_multiset_contains(s, t[k]);
    }
}

/// A row keeps its whole quotient however its values are rearranged.
pub proof fn lemma_whole_quotient_survives(s: Seq<u32>, t: Seq<u32>)
    requires
        s.to_multiset() == t.to_multiset(),
        has_whole_quotient(s),
    ensures
        has_whole_quotient(t),
{
    let (i, j) = choose|i: int, j: int|
        0 <= i < s.len() && 0 <= j < s.len() && i != j && #[trigger] divides(s, i, j);
    let (a, b) = lemma_places(t, s, i, j);
    assert(divides(t, a, b));
}

/// Each row has 2 numbers where the larger is a whole multiple of the
/// smaller. Sorts the row, finds the first such pair in it and returns the
/// quotient.
pub fn multiples(row: &mut Vec<u32>) -> (q: u32)
    requires
        forall|i: int| 0 <= i < old(row)@.len() ==> old(row)@[i] != 0,
        has_whole_quotient(old(row)@),
    ensures
        final(row)@ == sorted(old(row)@, &BySize),
        q == quotient(final(row)@),
        exists|i: int, j: int| first_pair(final(row)@, i, j),
{
    let ordered = sort(row.as_slice(), &BySize);
    proof {
        lemma_no_zero_survives(row@, ordered@);
        lemma_whole_quotient_survives(row@, ordered@);
    }
    *row = ordered;
    let n = row.len();
    let mut i: usize = 0;
    while i < n
        invariant
            n == row@.len(),
            row@ == sorted(old(row)@, &BySize),
            has_whole_quotient(row@),
            ascending(row@, &BySize),
            forall|k: int| 0 <= k < row@.len() ==> row@[k] != 0,
            forall|a: int, b: int| 0 <= a < b < n && a < i ==> !#[trigger] divides(row@, a, b),
        decreases n - i,
    {
        let mut j: usize = i + 1;
        while j < n
            invariant
                i < j <= n,
                n == row@.len(),
                row@ == sorted(old(row)@, &BySize),
                forall|k: int| 0 <= k < row@.len() ==> row@[k] != 0,
                forall|a: int, b: int|
                    0 <= a < b < n && earlier(a, b, i as int, j as int) ==> !#[trigger] divides(
                        row@,
                        a,
                        b,
                    ),
            decreases n - j,
        {
            if row[j] % row[i] == 0 {
                proof {
                    assert(divides(row@, i as int, j as int));
                    assert(first_pair(row@, i as int, j as int));
                    lemma_first_pair_unique(row@, i as int, j as int);
                }
                return row[j] / row[i];
            }
            j += 1;
        }
        i += 1;
    }
    proof {
        lemma_has_first_pair(row@);
        let (a, b) = choose|a: int, b: int| first_pair(row@, a, b);
        assert(divides(row@, a, b));
    }
    0
}

/// The quotient of a row once it is sorted.
pub open spec fn sorted_quotient(row: Seq<u32>) -> int {
    quotient(sorted(row, &BySize))
}

/// The sum of the quotients of the first `n` rows.
pub open spec fn quotient_sum(matrix: Seq<Vec<u32>>, n: int) -> int
    decreases n,
{
    if n <= 0 {
        0
    } else {
        quotient_sum(matrix, n - 1) + sorted_quotient(matrix[n - 1]@)
    }
}

/// Whether a row can be asked for its whole quotient: it holds no zero, and
/// two of its values are such that one divides the other evenly.
pub open spec fn row_fits(row: Seq<u32>) -> bool {
    &&& forall|i: int| 0 <= i < row.len() ==> row[i] != 0
    &&& has_whole_quotient(row)
}

/// The quotient of a row that holds no zero is a 32-bit number.
pub proof fn lemma_quotient_bounds(row: Seq<u32>)
    requires
        exists|i: int, j: int| first_pair(row, i, j),
    ensures
        0 <= quotient(row) <= u32::MAX,
{
    let (i, j) = choose|i: int, j: int| first_pair(row, i, j);
    let a = row[i] as int;
    let b = row[j] as int;
    assert(0 <= b / a <= b) by (nonlinear_arith)
        requires
            a > 0,
            b >= 0,
    ;
}

/// The sum over more rows is no smaller.
pub proof fn lemma_quotient_sum_grows(matrix: Seq<Vec<u32>>, m: int, n: int)
    requires
        0 <= m <= n <= matrix.len(),
        forall|i: int| 0 <= i < matrix.len() ==> row_fits((#[trigger] matrix[i])@),
    ensures
        quotient_sum(matrix, m) <= quotient_sum(matrix, n),
    decreases n - m,
{
    if m < n {
        lemma_quotient_sum_grows(matrix, m, n - 1);
        let row = matrix[n - 1]@;
        let line = sorted(row, &BySize);
        lemma_sorted(row, &BySize);
        lemma_whole_quotient_survives(row, line);
        lemma_no_zero_survives(row, line);
        lemma_has_first_pair(line);
        lemma_quotient_bounds(line);
    }
}

/// For each row, finds the only two numbers where one evenly divides the
/// other and divides them; the result is the sum of the quotients. The rows
/// are left sorted.
pub fn part2(matrix: &mut [Vec<u32>]) -> (sum: u32)
    requires
        forall|i: int| 0 <= i < old(matrix)@.len() ==> row_fits((#[trigger] old(matrix)@[i])@),
        quotient_sum(old(matrix)@, old(matrix)@.len() as int) <= u32::MAX,
    ensures
        sum == quotient_sum(old(matrix)@, old(matrix)@.len() as int),
        final(matrix)@.len() == old(matrix)@.len(),
        forall|i: int|
            0 <= i < old(matrix)@.len() ==> (#[trigger] final(matrix)@[i])@ == sorted(
                old(matrix)@[i]@,
                &BySize,
            ),
{
    let n = matrix.len();
    let mut sum: u32 = 0;
    for i in 0..n
        invariant
            n == old(matrix)@.len(),
            matrix@.len() == n,
            forall|k: int| 0 <= k < n ==> row_fits((#[trigger] old(matrix)@[k])@),
            quotient_sum(old(matrix)@, n as int) <= u32::MAX,
            sum == quotient_sum(old(matrix)@, i as int),
            forall|k: int| i <= k < n ==> matrix@[k] == old(matrix)@[k],
            forall|k: int|
                0 <= k < i ==> (#[trigger] matrix@[k])@ == sorted(old(matrix)@[k]@, &BySize),
    {
        proof {
            lemma_quotient_sum_grows(old(matrix)@, i + 1, n as int);
        }
        let q = multiples(&mut matrix[i]);
        sum = sum + q;
    }
    sum
}

} // verus!
