//! Inventory Management System: box identifiers with repeated letters, and
//! the two identifiers that differ in one place only.
use crate::y2018::day2::helpers::{
    extract, has_thrice, has_twice, mismatches, paired, repeated, shared,
};
use vstd::prelude::*;

pub mod helpers;

verus! {

/// The characters of each line.
pub open spec fn texts(lines: Seq<&str>) -> Seq<Seq<char>> {
    lines.map_values(|line: &str| line@)
}

/// The number of lines in which some character occurs exactly twice.
pub open spec fn twice_count(lines: Seq<Seq<char>>) -> nat {
    lines.filter(|line: Seq<char>| has_twice(line)).len()
}

/// The number of lines in which some character occurs exactly three times.
pub open spec fn thrice_count(lines: Seq<Seq<char>>) -> nat {
    lines.filter(|line: Seq<char>| has_thrice(line)).len()
}

/// The checksum of the input: the number of lines in which some character
/// occurs exactly twice, times the number of lines in which some character
/// occurs exactly three times.
pub fn part1(lines: &[&str]) -> (checksum: u32)
    requires
        lines@.len() <= u32::MAX,
        twice_count(texts(lines@)) * thrice_count(texts(lines@)) <= u32::MAX,
    ensures
        checksum == twice_count(texts(lines@)) * thrice_count(texts(lines@)),
{
    let ghost all = texts(lines@);
    let ghost two = |line: Seq<char>| has_twice(line);
    let ghost three = |line: Seq<char>| has_thrice(line);
    let mut twice: u32 = 0;
    let mut thrice: u32 = 0;
    proof {
        reveal(Seq::filter);
        assert(all.take(0).filter(two) =~= Seq::<Seq<char>>::empty());
        assert(all.take(0).filter(three) =~= Seq::<Seq<char>>::empty());
    }
    for i in 0..lines.len()
        invariant
            all == texts(lines@),
            two == |line: Seq<char>| has_twice(line),
            three == |line: Seq<char>| has_thrice(line),
            lines@.len() <= u32::MAX,
            twice <= i,
            thrice <= i,
            twice == all.take(i as int).filter(two).len(),
            thrice == all.take(i as int).filter(three).len(),
    {
        let (with_two, with_three) = repeated(lines[i]);
        proof {
            assert(all.take(i + 1) =~= all.take(i as int).push(all[i as int]));
            all.take(i as int).lemma_filter_push(all[i as int], two);
            all.take(i as int).lemma_filter_push(all[i as int], three);
        }
        if with_two {
            twice += 1;
        }
        if with_three {
            thrice += 1;
        }
    }
    assert(all.take(lines.len() as int) =~= all);
    twice * thrice
}

/// Whether the lines at `i` and `j` differ in exactly one place.
pub open spec fn close(lines: Seq<Seq<char>>, i: int, j: int) -> bool {
    0 <= i < lines.len() && 0 <= j < lines.len() && mismatches(
        lines[i],
        lines[j],
        paired(lines[i], lines[j]),
    ) == 1
}

/// Whether `(i, j)` is the first pair of lines that differ in exactly one
/// place, going through the pairs by their first line, then by their second.
pub open spec fn first_close(lines: Seq<Seq<char>>, i: int, j: int) -> bool {
    &&& close(lines, i, j)
    &&& forall|a: int, b: int|
        0 <= a < lines.len() && 0 <= b < lines.len() && (a < i || (a == i && b < j)) ==> !close(
            lines,
            a,
            b,
        )
}

/// The "box identifier" of the input: for the first two lines that differ in
/// exactly one place, the characters that they share, in order. There must
/// be two such lines.
pub fn part2(lines: &[&str]) -> (id: String)
    requires
        exists|i: int, j: int| close(texts(lines@), i, j),
    ensures
        exists|i: int, j: int| #[trigger]
            first_close(texts(lines@), i, j) && id@ == shared(
                lines@[i]@,
                lines@[j]@,
                paired(lines@[i]@, lines@[j]@),
            ),
{
    let ghost all = texts(lines@);
    let n = lines.len();
    for i in 0..n
        invariant
            all == texts(lines@),
            n == lines@.len(),
            exists|a: int, b: int| close(all, a, b),
            forall|a: int, b: int| 0 <= a < i && 0 <= b < n ==> !close(all, a, b),
    {
        for j in 0..n
            invariant
                all == texts(lines@),
                n == lines@.len(),
                i < n,
                forall|a: int, b: int|
                    0 <= a < n && 0 <= b < n && (a < i || (a == i && b < j)) ==> !close(all, a, b),
        {
            match extract(lines[i], lines[j]) {
                Some(id) => {
                    assert(close(all, i as int, j as int));
                    assert(first_close(all, i as int, j as int));
                    return id;
                },
                None => {
                    assert(!close(all, i as int, j as int));
                },
            }
        }
    }
    proof {
        let (a, b) = choose|a: int, b: int| close(all, a, b);
        assert(!close(all, a, b));
    }
    String::new()
}

} // verus!
