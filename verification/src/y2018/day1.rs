//! Chronal Calibration: a frequency that drifts by a list of changes.
use std::collections::HashSet;
use vstd::prelude::*;

verus! {

/// The sum of all changes.
pub open spec fn total(changes: Seq<i32>) -> int
    decreases changes.len(),
{
    if changes.len() == 0 {
        0
    } else {
        total(changes.drop_last()) + changes.last()
    }
}

/// Whether `v` is a 32-bit signed number.
pub open spec fn fits(v: int) -> bool {
    i32::MIN <= v <= i32::MAX
}

/// The frequency reached after all changes, starting from zero. Every
/// frequency on the way must be a 32-bit number.
pub fn part1(input: &[i32]) -> (sum: i32)
    requires
        forall|k: int| 0 <= k <= input@.len() ==> fits(#[trigger] total(input@.take(k))),
    ensures
        sum == total(input@),
{
    let mut sum: i32 = 0;
    for i in 0..input.len()
        invariant
            forall|k: int| 0 <= k <= input@.len() ==> fits(#[trigger] total(input@.take(k))),
            sum == total(input@.take(i as int)),
    {
        assert(input@.take(i + 1).drop_last() =~= input@.take(i as int));
        assert(fits(total(input@.take(i + 1))));
        sum = sum + input[i];
    }
    assert(input@.take(input.len() as int) =~= input@);
    sum
}

/// The frequency after `k` changes, where the list of changes is gone
/// through over and over.
pub open spec fn frequency(changes: Seq<i32>, k: int) -> int
    decreases k,
{
    if k <= 0 {
        0
    } else {
        frequency(changes, k - 1) + changes[(k - 1) % changes.len() as int]
    }
}

/// The frequencies reached with up to `k` changes.
pub open spec fn reached(changes: Seq<i32>, k: int) -> Set<i32> {
    Set::new(|v: i32| exists|j: int| 0 <= j <= k && #[trigger] frequency(changes, j) == v)
}

/// Whether the frequency after `k` changes was reached before.
pub open spec fn seen_before(changes: Seq<i32>, k: int) -> bool {
    exists|j: int| 0 <= j < k && #[trigger] frequency(changes, j) == frequency(changes, k)
}

/// Whether `k` changes lead to the first frequency that was reached before.
pub open spec fn first_repeat(changes: Seq<i32>, k: int) -> bool {
    &&& seen_before(changes, k)
    &&& forall|j: int| 0 <= j < k ==> !#[trigger] seen_before(changes, j)
}

/// The first frequency that is reached twice, where the list of changes is
/// gone through over and over. There must be such a frequency, and every
/// frequency up to it must be a 32-bit number.
pub fn part2(input: &[i32]) -> (found: i32)
    requires
        input@.len() > 0,
        exists|k: int|
            #[trigger] first_repeat(input@, k) && forall|j: int|
                0 <= j <= k ==> fits(#[trigger] frequency(input@, j)),
    ensures
        exists|k: int| #[trigger] first_repeat(input@, k) && found == frequency(input@, k),
{
    broadcast use vstd::std_specs::hash::group_hash_axioms;

    let ghost last = choose|k: int|
        #[trigger] first_repeat(input@, k) && forall|j: int|
            0 <= j <= k ==> fits(#[trigger] frequency(input@, j));
    let n = input.len();
    let mut current: i32 = 0;
    let mut seen: HashSet<i32> = HashSet::new();
    seen.insert(current);
    let mut at: usize = 0;
    let ghost mut k: int = 0;
    assert(frequency(input@, 0) == 0);
    assert(seen@ =~= reached(input@, 0));
    loop
        invariant
            n == input@.len(),
            n > 0,
            first_repeat(input@, last),
            forall|j: int| 0 <= j <= last ==> fits(#[trigger] frequency(input@, j)),
            0 <= k < last,
            at == k % (n as int),
            current == frequency(input@, k),
            seen@ == reached(input@, k),
            forall|j: int| 0 <= j <= k ==> !#[trigger] seen_before(input@, j),
        decreases last - k,
    {
        assert(fits(frequency(input@, k + 1)));
        current = current + input[at];
        let ghost before = seen@;
        let fresh = seen.insert(current);
        proof {
            if before.contains(current) {
                let j = choose|j: int| 0 <= j <= k && #[trigger] frequency(input@, j) == current;
                assert(frequency(input@, j) == frequency(input@, k + 1));
                assert(seen_before(input@, k + 1));
            }
            if seen_before(input@, k + 1) {
                let j = choose|j: int|
                    0 <= j < k + 1 && #[trigger] frequency(input@, j) == frequency(input@, k + 1);
                assert(before.contains(current));
            }
        }
        if !fresh {
            assert(first_repeat(input@, k + 1));
            return current;
        }
        proof {
            assert(seen@ =~= reached(input@, k + 1));
            assert((k + 1) % (n as int) == if at + 1 == n {
                0
            } else {
                at + 1
            }) by (nonlinear_arith)
                requires
                    at == k % (n as int),
                    0 <= at < n,
                    k >= 0,
            ;
            k = k + 1;
        }
        at = if at + 1 == n {
            0
        } else {
            at + 1
        };
    }
}

} // verus!
