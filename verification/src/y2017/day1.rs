//! Inverse Captcha: the sum of the digits of a circular list that match the
//! digit a fixed number of places further on.
use crate::y2017::day1::helpers::{captcha, skip_take_sum};
use vstd::prelude::*;

pub mod helpers;

verus! {

/// The sum of all digits that match the next digit in the list. The list is
/// circular, so the digit after the last digit is the first digit.
pub fn part1(input: &[u8]) -> (sum: u32)
    requires
        captcha(input@, 1) <= u32::MAX,
    ensures
        sum == captcha(input@, 1),
{
    skip_take_sum(input, 1)
}

/// The sum of all digits that match the digit halfway around the circular
/// list, which has an even number of digits.
pub fn part2(input: &[u8]) -> (sum: u32)
    requires
        input@.len() % 2 == 0,
        captcha(input@, input@.len() as int / 2) <= u32::MAX,
    ensures
        sum == captcha(input@, input@.len() as int / 2),
{
    skip_take_sum(input, input.len() / 2)
}

} // verus!
