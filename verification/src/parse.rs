//! Values read from text: decimal integers, and the trait of the types that
//! can be read.
use vstd::prelude::*;
use vstd::slice::slice_subrange;

verus! {

/// Whether `c` is one of the ten decimal digits.
pub open spec fn is_digit(c: char) -> bool {
    '0' <= c <= '9'
}

/// The value of a decimal digit.
pub open spec fn digit_value(c: char) -> nat {
    (c as u32 - '0' as u32) as nat
}

/// Whether `s` consists of decimal digits only.
pub open spec fn all_digits(s: Seq<char>) -> bool {
    forall|i: int| 0 <= i < s.len() ==> is_digit(#[trigger] s[i])
}

/// The number that the digits of `s` write in base ten.
pub open spec fn decimal(s: Seq<char>) -> nat
    decreases s.len(),
{
    if s.len() == 0 {
        0
    } else {
        10 * decimal(s.drop_last()) + digit_value(s.last())
    }
}

/// The number that `s` writes, where `s` is one or more decimal digits.
pub open spec fn magnitude(s: Seq<char>) -> Option<nat> {
    if s.len() > 0 && all_digits(s) {
        Some(decimal(s))
    } else {
        None
    }
}

/// The integer that `s` writes: one or more decimal digits, after an
/// optional `+`, or, where `signed` allows it, an optional `-`. Nothing else
/// may stand in `s`, white space included.
pub open spec fn integer(s: Seq<char>, signed: bool) -> Option<int> {
    if s.len() > 0 && s[0] == '+' {
        match magnitude(s.drop_first()) {
            Some(n) => Some(n as int),
            None => None,
        }
    } else if signed && s.len() > 0 && s[0] == '-' {
        match magnitude(s.drop_first()) {
            Some(n) => Some(-(n as int)),
            None => None,
        }
    } else {
        match magnitude(s) {
            Some(n) => Some(n as int),
            None => None,
        }
    }
}

/// The integer that `s` writes, where it lies between `least` and `most`.
pub open spec fn integer_within(s: Seq<char>, signed: bool, least: int, most: int) -> Option<int> {
    match integer(s, signed) {
        Some(v) if least <= v <= most => Some(v),
        _ => None,
    }
}

/// More digits never write a smaller number.
pub proof fn lemma_decimal_grows(s: Seq<char>, i: int)
    requires
        0 <= i <= s.len(),
    ensures
        decimal(s.take(i)) <= decimal(s),
    decreases s.len(),
{
    if i == s.len() {
        assert(s.take(i) =~= s);
    } else {
        lemma_decimal_grows(s.drop_last(), i);
        assert(s.drop_last().take(i) =~= s.take(i));
    }
}

/// Whether `c` is a decimal digit.
pub fn digit(c: char) -> (r: bool)
    ensures
        r == is_digit(c),
{
    '0' <= c && c <= '9'
}

/// Reads a run of decimal digits that writes a number up to `limit`.
pub fn read_magnitude(text: &[char], limit: u128) -> (r: Option<u128>)
    requires
        limit <= 0x1_0000_0000_0000_0000,
    ensures
        r == match magnitude(text@) {
            Some(n) if n <= limit => Some(n as u128),
            _ => None::<u128>,
        },
{
    if text.len() == 0 {
        return None;
    }
    let mut value: u128 = 0;
    let mut i: usize = 0;
    assert(text@.take(0) =~= Seq::<char>::empty());
    while i < text.len()
        invariant
            i <= text.len(),
            limit <= 0x1_0000_0000_0000_0000,
            all_digits(text@.take(i as int)),
            value == decimal(text@.take(i as int)),
            value <= limit,
        decreases text.len() - i,
    {
        let c = text[i];
        if !digit(c) {
            assert(!is_digit(text@[i as int]));
            return None;
        }
        let ghost upto = text@.take(i + 1);
        assert(upto.drop_last() =~= text@.take(i as int));
        assert(upto.last() == c);
        let d: u128 = (c as u32 - '0' as u32) as u128;
        value = 10 * value + d;
        i += 1;
        if value > limit {
            proof {
                if all_digits(text@) {
                    lemma_decimal_grows(text@, i as int);
                }
            }
            return None;
        }
        assert forall|k: int| 0 <= k < upto.len() implies is_digit(#[trigger] upto[k]) by {
            if k < i - 1 {
                assert(upto[k] == text@.take(i - 1)[k]);
            }
        }
    }
    assert(text@.take(i as int) =~= text@);
    Some(value)
}

/// Reads an integer whose absolute value is at most `limit`.
pub fn read_integer(text: &[char], signed: bool, limit: u128) -> (r: Option<i128>)
    requires
        limit <= 0x1_0000_0000_0000_0000,
    ensures
        r == match integer_within(text@, signed, -(limit as int), limit as int) {
            Some(v) => Some(v as i128),
            None => None::<i128>,
        },
{
    let n = text.len();
    if n > 0 && text[0] == '+' {
        assert(text@.drop_first() =~= text@.subrange(1, n as int));
        match read_magnitude(slice_subrange(text, 1, n), limit) {
            Some(m) => Some(m as i128),
            None => None,
        }
    } else if signed && n > 0 && text[0] == '-' {
        assert(text@.drop_first() =~= text@.subrange(1, n as int));
        match read_magnitude(slice_subrange(text, 1, n), limit) {
            Some(m) => Some(-(m as i128)),
            None => None,
        }
    } else {
        match read_magnitude(text, limit) {
            Some(m) => Some(m as i128),
            None => None,
        }
    }
}

/// A type whose values can be read from text.
pub trait Parse: Sized {
    /// The value that `text` writes, if it writes one.
    spec fn parsed(text: Seq<char>) -> Option<Self>;

    /// Reads a value from `text`.
    fn parse(text: &[char]) -> (r: Option<Self>)
        ensures
            r == Self::parsed(text@),
    ;
}

/// The value that a piece of text writes, if any.
pub open spec fn reader<T: Parse>() -> spec_fn(Seq<char>) -> Option<T> {
    |piece: Seq<char>| T::parsed(piece)
}

impl Parse for u16 {
    open spec fn parsed(text: Seq<char>) -> Option<u16> {
        match integer_within(text, false, 0, u16::MAX as int) {
            Some(v) => Some(v as u16),
            None => None,
        }
    }

    fn parse(text: &[char]) -> (r: Option<u16>) {
        match read_integer(text, false, 0xffff) {
            Some(v) => Some(v as u16),
            None => None,
        }
    }
}

impl Parse for u32 {
    open spec fn parsed(text: Seq<char>) -> Option<u32> {
        match integer_within(text, false, 0, u32::MAX as int) {
            Some(v) => Some(v as u32),
            None => None,
        }
    }

    fn parse(text: &[char]) -> (r: Option<u32>) {
        match read_integer(text, false, 0xffff_ffff) {
            Some(v) => Some(v as u32),
            None => None,
        }
    }
}

impl Parse for usize {
    open spec fn parsed(text: Seq<char>) -> Option<usize> {
        match integer_within(text, false, 0, usize::MAX as int) {
            Some(v) => Some(v as usize),
            None => None,
        }
    }

    fn parse(text: &[char]) -> (r: Option<usize>) {
        match read_integer(text, false, usize::MAX as u128) {
            Some(v) => Some(v as usize),
            None => None,
        }
    }
}

impl Parse for i32 {
    open spec fn parsed(text: Seq<char>) -> Option<i32> {
        match integer_within(text, true, i32::MIN as int, i32::MAX as int) {
            Some(v) => Some(v as i32),
            None => None,
        }
    }

    fn parse(text: &[char]) -> (r: Option<i32>) {
        match read_integer(text, true, 0x8000_0000) {
            Some(v) => if v <= 0x7fff_ffff {
                Some(v as i32)
            } else {
                None
            },
            None => None,
        }
    }
}

} // verus!
