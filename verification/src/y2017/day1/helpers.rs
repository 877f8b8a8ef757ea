//! Helper routines
use crate::parse::{digit, digit_value, is_digit};
use crate::text::chars_of;
use vstd::prelude::*;

verus! {

/// Whether a character is a decimal digit.
pub open spec fn decimal_digit() -> spec_fn(char) -> bool {
    |c: char| is_digit(c)
}

/// The value of a decimal digit.
pub open spec fn value_of() -> spec_fn(char) -> u8 {
    |c: char| digit_value(c) as u8
}

/// The values of the decimal digits in `input`, in order; every other
/// character is passed over.
pub open spec fn digits_in(input: Seq<char>) -> Seq<u8> {
    input.filter(decimal_digit()).map_values(value_of())
}

/// Read digits from the input.
pub fn read_digits(input: &str) -> (digits: Vec<u8>)
    ensures
        digits@ == digits_in(input@),
{
    let text = chars_of(input);
    let mut digits: Vec<u8> = Vec::new();
    assert(digits_in(text@.take(0)) =~= Seq::<u8>::empty()) by {
        reveal(Seq::filter);
    }
    for i in 0..text.len()
        invariant
            text@ == input@,
            digits@ == digits_in(text@.take(i as int)),
    {
        let c = text[i];
        proof {
            let seen = text@.take(i as int);
            assert(text@.take(i + 1) =~= seen.push(c));
            seen.lemma_filter_push(c, decimal_digit());
        }
        if digit(c) {
            digits.push((c as u32 - '0' as u32) as u8);
            assert(digits@ =~= digits_in(text@.take(i + 1)));
        }
    }
    assert(text@.take(text.len() as int) =~= text@);
    digits
}

/// The list turned by `skip` places: the digits from place `skip` on,
/// followed by the first `skip` digits. A `skip` beyond the end leaves the
/// list as it is.
pub open spec fn turned(digits: Seq<u8>, skip: int) -> Seq<u8> {
    if skip >= digits.len() {
        digits
    } else {
        digits.skip(skip) + digits.take(skip)
    }
}

/// The sum of the first `n` digits of `a` that equal the digit of `b` at the
/// same place.
pub open spec fn matching_sum(a: Seq<u8>, b: Seq<u8>, n: int) -> int
    decreases n,
{
    if n <= 0 {
        0
    } else {
        matching_sum(a, b, n - 1) + if a[n - 1] == b[n - 1] {
            a[n - 1] as int
        } else {
            0
        }
    }
}

/// The sum of the digits that equal the digit `skip` places further on in
/// the circular list.
pub open spec fn captcha(digits: Seq<u8>, skip: int) -> int {
    matching_sum(digits, turned(digits, skip), digits.len() as int)
}

/// The sum never shrinks as more places are taken in.
pub proof fn lemma_matching_sum_grows(a: Seq<u8>, b: Seq<u8>, m: int, n: int)
    requires
        m <= n,
    ensures
        matching_sum(a, b, m) <= matching_sum(a, b, n),
    decreases n - m,
{
    if m < n {
        lemma_matching_sum_grows(a, b, m, n - 1);
    }
}

/// Sums the digits that equal the digit `skip` places further on in the
/// circular list.
pub fn skip_take_sum(digits: &[u8], skip: usize) -> (sum: u32)
    requires
        captcha(digits@, skip as int) <= u32::MAX,
    ensures
        sum == captcha(digits@, skip as int),
{
    let n = digits.len();
    let ghost other = turned(digits@, skip as int);
    let mut sum: u32 = 0;
    for i in 0..n
        invariant
            n == digits@.len(),
            other == turned(digits@, skip as int),
            other.len() == n,
            sum == matching_sum(digits@, other, i as int),
            matching_sum(digits@, other, n as int) <= u32::MAX,
    {
        let j = if skip >= n {
            i
        } else if i < n - skip {
            i + skip
        } else {
            i - (n - skip)
        };
        assert(other[i as int] == digits@[j as int]);
        proof {
            lemma_matching_sum_grows(digits@, other, i + 1, n as int);
        }
        if digits[i] == digits[j] {
            sum = sum + digits[i] as u32;
        }
    }
    sum
}

} // verus!
