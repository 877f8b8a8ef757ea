//! Alchemical Reduction: a polymer whose adjacent units of the same type and
//! opposite polarity react and vanish.
use vstd::prelude::*;
use vstd::string::StringSliceAdditionalSpecFns;

verus! {

/// ASCII case difference
pub const CASE: u8 = 32;

/// Whether two units differ by the distance between the two cases of a
/// letter.
pub open spec fn reacts(x: u8, y: u8) -> bool {
    x - y == CASE || y - x == CASE
}

/// Two units are inverses if they differ only in case (input is restricted
/// to ASCII).
pub fn inverses(x: u8, y: u8) -> (r: bool)
    ensures
        r == reacts(x, y),
{
    let difference: u8 = if x > y {
        x - y
    } else if y > x {
        y - x
    } else {
        0
    };
    CASE == difference
}

/// The unit that follows the first one; behind the last unit stands a zero.
pub open spec fn follower(s: Seq<u8>) -> u8 {
    if s.len() > 1 {
        s[1]
    } else {
        0
    }
}

/// One pass over the polymer from the left: a unit that reacts with its
/// follower vanishes together with it, any other unit stays.
pub open spec fn sweep(s: Seq<u8>) -> Seq<u8>
    decreases s.len(),
{
    if s.len() == 0 {
        s
    } else if reacts(s[0], follower(s)) {
        if s.len() == 1 {
            Seq::empty()
        } else {
            sweep(s.skip(2))
        }
    } else {
        seq![s[0]] + sweep(s.skip(1))
    }
}

/// The polymer after as many passes as shorten it.
pub open spec fn reduced(s: Seq<u8>) -> Seq<u8>
    decreases s.len(),
{
    if sweep(s).len() < s.len() {
        reduced(sweep(s))
    } else {
        s
    }
}

/// Whether no unit of the polymer reacts with its follower.
pub open spec fn inert(s: Seq<u8>) -> bool {
    forall|i: int| 0 <= i < s.len() ==> !reacts(#[trigger] s[i], follower(s.skip(i)))
}

/// A pass never lengthens the polymer, and one that keeps its length finds
/// nothing to react and leaves it as it is.
pub proof fn lemma_sweep(s: Seq<u8>)
    ensures
        sweep(s).len() <= s.len(),
        sweep(s).len() == s.len() ==> sweep(s) == s && inert(s),
    decreases s.len(),
{
    if s.len() == 0 {
    } else if reacts(s[0], follower(s)) {
        if s.len() > 1 {
            lemma_sweep(s.skip(2));
        }
    } else {
        let rest = s.skip(1);
        lemma_sweep(rest);
        if sweep(s).len() == s.len() {
            assert(sweep(s) =~= s);
            assert forall|i: int| 0 <= i < s.len() implies !reacts(
                #[trigger] s[i],
                follower(s.skip(i)),
            ) by {
                if i == 0 {
                    assert(s.skip(0) =~= s);
                } else {
                    assert(rest[i - 1] == s[i]);
                    assert(rest.skip(i - 1) =~= s.skip(i));
                }
            }
        }
    }
}

/// What is left after the passes is inert and no longer than the polymer
/// was.
pub proof fn lemma_reduced(s: Seq<u8>)
    ensures
        inert(reduced(s)),
        reduced(s).len() <= s.len(),
        sweep(reduced(s)) == reduced(s),
    decreases s.len(),
{
    lemma_sweep(s);
    if sweep(s).len() < s.len() {
        lemma_reduced(sweep(s));
    }
}

/// Makes one pass over the polymer.
fn pass(last: &Vec<u8>) -> (current: Vec<u8>)
    ensures
        current@ == sweep(last@),
{
    let mut current: Vec<u8> = Vec::with_capacity(last.len());
    let mut index: usize = 0;
    assert(last@.skip(0) =~= last@);
    while index < last.len()
        invariant
            index <= last.len(),
            current@ + sweep(last@.skip(index as int)) == sweep(last@),
        decreases last.len() - index,
    {
        let ghost rest = last@.skip(index as int);
        let unit = last[index];
        let next = if index + 1 < last.len() {
            last[index + 1]
        } else {
            0
        };
        assert(rest[0] == unit && follower(rest) == next);
        if inverses(unit, next) {
            if index + 1 < last.len() {
                assert(rest.skip(2) =~= last@.skip(index + 2));
                index += 2;
            } else {
                assert(last@.skip(index + 1) =~= Seq::<u8>::empty());
                index += 1;
            }
        } else {
            assert(rest.skip(1) =~= last@.skip(index + 1));
            let ghost before = current@;
            current.push(unit);
            assert(current@ + sweep(last@.skip(index + 1)) =~= before + (seq![unit] + sweep(
                rest.skip(1),
            )));
            index += 1;
        }
    }
    assert(last@.skip(index as int) =~= Seq::<u8>::empty());
    assert(current@ + Seq::<u8>::empty() =~= current@);
    current
}

/// Reduce the given polymer by passes until a pass removes nothing; returns
/// the number of units that are left.
pub fn part1(input: &[u8]) -> (len: usize)
    ensures
        len == reduced(input@).len(),
{
    let mut last: Vec<u8> = vstd::slice::slice_to_vec(input);
    loop
        invariant
            reduced(last@) == reduced(input@),
        decreases last@.len(),
    {
        let current = pass(&last);
        proof {
            lemma_sweep(last@);
        }
        if current.len() == last.len() {
            return last.len();
        }
        last = current;
    }
}

/// The polymer without the units of one type: without the lower case letter
/// `unit` and without its upper case.
pub open spec fn without(s: Seq<u8>, unit: u8) -> Seq<u8> {
    s.filter(other_than(unit))
}

/// Whether a unit is of another type than the lower case letter `unit`.
pub open spec fn other_than(unit: u8) -> spec_fn(u8) -> bool {
    |b: u8| b != unit && b != unit - CASE
}

/// The length that the polymer reduces to once the units of one type are
/// taken out.
pub open spec fn length_without(s: Seq<u8>, unit: u8) -> nat {
    reduced(without(s, unit)).len()
}

/// Whether `unit` is a lower case letter.
pub open spec fn is_unit(unit: u8) -> bool {
    0x61 <= unit <= 0x7a
}

/// Takes the units of one type out of the polymer.
fn remove_unit(bytes: &[u8], unit: u8) -> (out: Vec<u8>)
    requires
        is_unit(unit),
    ensures
        out@ == without(bytes@, unit),
{
    let ghost keep = other_than(unit);
    let mut out: Vec<u8> = Vec::new();
    assert(bytes@.take(0).filter(keep) =~= Seq::<u8>::empty()) by {
        reveal(Seq::filter);
    }
    for i in 0..bytes.len()
        invariant
            is_unit(unit),
            keep == other_than(unit),
            out@ == bytes@.take(i as int).filter(keep),
    {
        let b = bytes[i];
        proof {
            assert(bytes@.take(i + 1) =~= bytes@.take(i as int).push(b));
            bytes@.take(i as int).lemma_filter_push(b, keep);
        }
        if b != unit && b != unit - CASE {
            out.push(b);
        }
    }
    assert(bytes@.take(bytes.len() as int) =~= bytes@);
    out
}

/// Find the "problem" unit, the one which when removed from the input gives
/// the shortest reduction, and return the length of that reduction. The
/// polymer is the UTF-8 encoding of the input.
pub fn part2(input: &str) -> (len: usize)
    ensures
        exists|unit: u8| is_unit(unit) && len == length_without(input.spec_bytes(), unit),
        forall|unit: u8| is_unit(unit) ==> len <= length_without(input.spec_bytes(), unit),
{
    let bytes = input.as_bytes();
    let mut best: usize = part1(remove_unit(bytes, 0x61).as_slice());
    let mut unit: u8 = 0x62;
    let ghost mut found: u8 = 0x61;
    while unit <= 0x7a
        invariant
            0x62 <= unit <= 0x7b,
            bytes@ == input.spec_bytes(),
            is_unit(found),
            best == length_without(bytes@, found),
            forall|u: u8| 0x61 <= u < unit ==> best <= length_without(bytes@, u),
        decreases 0x7b - unit,
    {
        let len = part1(remove_unit(bytes, unit).as_slice());
        if len < best {
            best = len;
            proof {
                found = unit;
            }
        }
        unit += 1;
    }
    best
}

} // verus!
