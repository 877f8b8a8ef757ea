//! Helper routines
use crate::text::chars_of;
use vstd::prelude::*;
use vstd::string::*;

verus! {

/// The number of places at which two lines are held against each other: the
/// length of the shorter one.
pub open spec fn paired(a: Seq<char>, b: Seq<char>) -> int {
    if a.len() <= b.len() {
        a.len() as int
    } else {
        b.len() as int
    }
}

/// The number of the first `n` places at which `a` and `b` differ.
pub open spec fn mismatches(a: Seq<char>, b: Seq<char>, n: int) -> int
    decreases n,
{
    if n <= 0 {
        0
    } else {
        mismatches(a, b, n - 1) + if a[n - 1] != b[n - 1] {
            1int
        } else {
            0int
        }
    }
}

/// The characters that `a` and `b` share at the first `n` places, in order.
pub open spec fn shared(a: Seq<char>, b: Seq<char>, n: int) -> Seq<char>
    decreases n,
{
    if n <= 0 {
        Seq::empty()
    } else if a[n - 1] == b[n - 1] {
        shared(a, b, n - 1).push(a[n - 1])
    } else {
        shared(a, b, n - 1)
    }
}

/// Take two strings and if they differ at exactly one index, return the
/// equal chars in sequence. The strings are held against each other place
/// by place, as far as the shorter one goes.
pub fn extract(a: &str, b: &str) -> (id: Option<String>)
    ensures
        id matches Some(s) ==> s@ == shared(a@, b@, paired(a@, b@)),
        id is Some <==> mismatches(a@, b@, paired(a@, b@)) == 1,
{
    let left = chars_of(a);
    let right = chars_of(b);
    let n = if left.len() <= right.len() {
        left.len()
    } else {
        right.len()
    };
    let mut differing: usize = 0;
    for i in 0..n
        invariant
            n <= left@.len(),
            n <= right@.len(),
            differing <= i,
            differing == mismatches(left@, right@, i as int),
    {
        if left[i] != right[i] {
            differing += 1;
        }
    }
    if differing != 1 {
        return None;
    }
    let mut id = String::new();
    for i in 0..n
        invariant
            left@ == a@,
            n <= left@.len(),
            n <= right@.len(),
            id@ == shared(left@, right@, i as int),
    {
        if left[i] == right[i] {
            let one = a.substring_char(i, i + 1);
            assert(one@ =~= seq![left@[i as int]]);
            id.append(one);
            assert(id@ =~= shared(left@, right@, i as int).push(left@[i as int]));
        }
    }
    Some(id)
}

/// Whether some character occurs exactly twice in the line.
pub open spec fn has_twice(line: Seq<char>) -> bool {
    exists|c: char| line.to_multiset().count(c) == 2
}

/// Whether some character occurs exactly three times in the line.
pub open spec fn has_thrice(line: Seq<char>) -> bool {
    exists|c: char| line.to_multiset().count(c) == 3
}

/// Counts how often `c` occurs in the text.
pub fn occurrences(text: &[char], c: char) -> (n: usize)
    ensures
        n == text@.to_multiset().count(c),
{
    broadcast use vstd::multiset::group_multiset_axioms;

    let mut n: usize = 0;
    proof {
        vstd::seq_lib::to_multiset_len(text@.take(0));
        vstd::multiset::lemma_multiset_empty_len(text@.take(0).to_multiset());
    }
    for i in 0..text.len()
        invariant
            n <= i,
            n == text@.take(i as int).to_multiset().count(c),
    {
        proof {
            assert(text@.take(i + 1) =~= text@.take(i as int).push(text@[i as int]));
            vstd::seq_lib::to_multiset_build(text@.take(i as int), text@[i as int]);
        }
        if text[i] == c {
            n += 1;
        }
    }
    assert(text@.take(text.len() as int) =~= text@);
    n
}

/// Test if the line has characters that repeat exactly 2 or exactly 3 times.
pub fn repeated(line: &str) -> (found: (bool, bool))
    ensures
        found.0 == has_twice(line@),
        found.1 == has_thrice(line@),
{
    let text = chars_of(line);
    let mut twice = false;
    let mut thrice = false;
    for i in 0..text.len()
        invariant
            text@ == line@,
            twice == exists|k: int|
                0 <= k < i && text@.to_multiset().count(#[trigger] text@[k]) == 2,
            thrice == exists|k: int|
                0 <= k < i && text@.to_multiset().count(#[trigger] text@[k]) == 3,
    {
        let n = occurrences(text.as_slice(), text[i]);
        if n == 2 {
            twice = true;
        }
        if n == 3 {
            thrice = true;
        }
    }
    proof {
        if has_twice(text@) {
            let c = choose|c: char| text@.to_multiset().count(c) == 2;
            vstd::seq_lib::to_multiset_contains(text@, c);
            let k = choose|k: int| 0 <= k < text@.len() && text@[k] == c;
            assert(text@.to_multiset().count(text@[k]) == 2);
        }
        if has_thrice(text@) {
            let c = choose|c: char| text@.to_multiset().count(c) == 3;
            vstd::seq_lib::to_multiset_contains(text@, c);
            let k = choose|k: int| 0 <= k < text@.len() && text@[k] == c;
            assert(text@.to_multiset().count(text@[k]) == 3);
        }
    }
    (twice, thrice)
}

} // verus!
