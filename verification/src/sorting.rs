//! A stable sort under any total order.
use vstd::prelude::*;

verus! {

/// A total order on the values of `T` that it admits.
pub trait Relation<T> {
    /// Whether the order can compare `a`.
    spec fn admits(&self, a: T) -> bool;

    /// Whether `a` comes before `b` or ties with it.
    spec fn le(&self, a: T, b: T) -> bool;

    /// Of any two values one comes before the other, or they tie.
    proof fn lemma_total(&self, a: T, b: T)
        requires
            self.admits(a),
            self.admits(b),
        ensures
            self.le(a, b) || self.le(b, a),
    ;

    /// What comes before a value comes before all that the value comes before.
    proof fn lemma_transitive(&self, a: T, b: T, c: T)
        requires
            self.admits(a),
            self.admits(b),
            self.admits(c),
            self.le(a, b),
            self.le(b, c),
        ensures
            self.le(a, c),
    ;

}

/// A total order that can be decided.
pub trait Order<T>: Relation<T> {
    /// Whether `a` comes before `b` or ties with it.
    fn leq(&self, a: &T, b: &T) -> (r: bool)
        requires
            self.admits(*a),
            self.admits(*b),
        ensures
            r == self.le(*a, *b),
    ;
}

/// Whether the order admits every value of `s`.
pub open spec fn all_admitted<T, O: Relation<T>>(s: Seq<T>, order: &O) -> bool {
    forall|i: int| 0 <= i < s.len() ==> order.admits(#[trigger] s[i])
}

/// Whether no value of `s` comes strictly before an earlier one.
pub open spec fn ascending<T, O: Relation<T>>(s: Seq<T>, order: &O) -> bool {
    forall|i: int, j: int| 0 <= i <= j < s.len() ==> order.le(s[i], s[j])
}

/// Where `x` goes into `s`: behind the last value that does not come
/// strictly after it, so behind the values it ties with.
pub open spec fn slot<T, O: Relation<T>>(s: Seq<T>, x: T, order: &O) -> int
    decreases s.len(),
{
    if s.len() == 0 || order.le(s.last(), x) {
        s.len() as int
    } else {
        slot(s.drop_last(), x, order)
    }
}

/// The values of `s` in ascending order; values that tie keep the order
/// they have in `s`.
pub open spec fn sorted<T, O: Relation<T>>(s: Seq<T>, order: &O) -> Seq<T>
    decreases s.len(),
{
    if s.len() == 0 {
        s
    } else {
        let front = sorted(s.drop_last(), order);
        front.insert(slot(front, s.last(), order), s.last())
    }
}

/// The slot is a position of `s`; the value before it does not come after
/// `x`, and every value from it on does.
pub proof fn lemma_slot<T, O: Relation<T>>(s: Seq<T>, x: T, order: &O)
    ensures
        0 <= slot(s, x, order) <= s.len(),
        slot(s, x, order) > 0 ==> order.le(s[slot(s, x, order) - 1], x),
        forall|k: int| slot(s, x, order) <= k < s.len() ==> !order.le(#[trigger] s[k], x),
    decreases s.len(),
{
    if s.len() == 0 || order.le(s.last(), x) {
    } else {
        let front = s.drop_last();
        lemma_slot(front, x, order);
        assert forall|k: int| slot(s, x, order) <= k < s.len() implies !order.le(
            #[trigger] s[k],
            x,
        ) by {
            if k < front.len() {
                assert(front[k] == s[k]);
            }
        }
        if slot(s, x, order) > 0 {
            assert(front[slot(s, x, order) - 1] == s[slot(s, x, order) - 1]);
        }
    }
}

/// Putting a value into an ascending sequence at its slot keeps the sequence
/// ascending, adds the value and nothing else.
pub proof fn lemma_insert_at_slot<T, O: Relation<T>>(s: Seq<T>, x: T, order: &O)
    requires
        all_admitted(s, order),
        order.admits(x),
    ensures
        s.insert(slot(s, x, order), x).len() == s.len() + 1,
        s.insert(slot(s, x, order), x).to_multiset() == s.to_multiset().insert(x),
        all_admitted(s.insert(slot(s, x, order), x), order),
        ascending(s, order) ==> ascending(s.insert(slot(s, x, order), x), order),
{
    let at = slot(s, x, order);
    let r = s.insert(at, x);
    lemma_slot(s, x, order);
    s.insert_ensures(at, x);
    vstd::seq_lib::to_multiset_insert(s, at, x);
    assert forall|i: int| 0 <= i < r.len() implies order.admits(#[trigger] r[i]) by {
        if i < at {
            assert(r[i] == s[i]);
        } else if i > at {
            assert(r[i] == s[i - 1]);
        }
    }
    if ascending(s, order) {
        assert forall|i: int, j: int| 0 <= i <= j < r.len() implies order.le(r[i], r[j]) by {
            if i < at {
                assert(r[i] == s[i]);
            } else if i > at {
                assert(r[i] == s[i - 1]);
            }
            if j < at {
                assert(r[j] == s[j]);
            } else if j > at {
                assert(r[j] == s[j - 1]);
            }
            if i == j {
                order.lemma_total(r[i], r[i]);
            } else if j < at || i > at {
            } else if j == at {
                order.lemma_transitive(s[i], s[at - 1], x);
            } else if i == at {
                order.lemma_total(x, s[j - 1]);
            } else {
                order.lemma_transitive(s[i], s[at - 1], x);
                order.lemma_total(x, s[j - 1]);
                order.lemma_transitive(s[i], x, s[j - 1]);
            }
        }
    }
}

/// Sorting gives an ascending sequence of the same values.
pub proof fn lemma_sorted<T, O: Relation<T>>(s: Seq<T>, order: &O)
    requires
        all_admitted(s, order),
    ensures
        sorted(s, order).len() == s.len(),
        sorted(s, order).to_multiset() == s.to_multiset(),
        all_admitted(sorted(s, order), order),
        ascending(sorted(s, order), order),
    decreases s.len(),
{
    if s.len() > 0 {
        let front = s.drop_last();
        assert forall|i: int| 0 <= i < front.len() implies order.admits(#[trigger] front[i]) by {
            assert(front[i] == s[i]);
        }
        lemma_sorted(front, order);
        lemma_insert_at_slot(sorted(front, order), s.last(), order);
        vstd::seq_lib::to_multiset_build(front, s.last());
        assert(front.push(s.last()) =~= s);
    }
}

/// Two places of a sequence hold what two places of a rearrangement of it
/// hold.
pub proof fn lemma_places<T>(s: Seq<T>, t: Seq<T>, i: int, j: int) -> (at: (int, int))
    requires
        s.to_multiset() == t.to_multiset(),
        0 <= i < t.len(),
        0 <= j < t.len(),
        i != j,
    ensures
        0 <= at.0 < s.len(),
        0 <= at.1 < s.len(),
        at.0 != at.1,
        s[at.0] == t[i],
        s[at.1] == t[j],
{
    broadcast use vstd::multiset::group_multiset_axioms;

    let x = t[i];
    let y = t[j];
    vstd::seq_lib::to_multiset_contains(t, x);
    vstd::seq_lib::to_multiset_contains(t, y);
    vstd::seq_lib::to_multiset_contains(s, x);
    vstd::seq_lib::to_multiset_contains(s, y);
    let a = choose|a: int| 0 <= a < s.len() && s[a] == x;
    if x != y {
        let b = choose|b: int| 0 <= b < s.len() && s[b] == y;
        (a, b)
    } else {
        let others = t.remove(i);
        vstd::seq_lib::to_multiset_remove(t, i);
        assert(others[if j < i { j } else { j - 1 }] == x);
        vstd::seq_lib::to_multiset_contains(others, x);
        let rest = s.remove(a);
        vstd::seq_lib::to_multiset_remove(s, a);
        vstd::seq_lib::to_multiset_contains(rest, x);
        assert(rest.to_multiset().count(x) == s.to_multiset().count(x) - 1);
        let k = choose|k: int| 0 <= k < rest.len() && rest[k] == x;
        if k < a {
            (a, k)
        } else {
            (a, k + 1)
        }
    }
}

/// Sorting goes along with a change of values that keeps the order: where
/// `f` takes values ordered by `from` to values ordered alike by `to`, the
/// values of `s` sorted and then changed are the changed values sorted.
pub proof fn lemma_sorted_map<T, U, O: Relation<T>, P: Relation<U>>(
    s: Seq<T>,
    f: spec_fn(T) -> U,
    from: &O,
    to: &P,
)
    requires
        forall|a: T, b: T| #[trigger] from.le(a, b) == to.le(f(a), f(b)),
    ensures
        sorted(s, from).map_values(f) == sorted(s.map_values(f), to),
    decreases s.len(),
{
    if s.len() == 0 {
        assert(sorted(s, from).map_values(f) =~= sorted(s.map_values(f), to));
    } else {
        let front = sorted(s.drop_last(), from);
        let x = s.last();
        lemma_sorted_map(s.drop_last(), f, from, to);
        assert(s.map_values(f).drop_last() =~= s.drop_last().map_values(f));
        lemma_slot_map(front, x, f, from, to);
        lemma_slot(front, x, from);
        let at = slot(front, x, from);
        assert(front.insert(at, x).map_values(f) =~= front.map_values(f).insert(at, f(x)));
    }
}

/// A value that keeps its order under `f` keeps its slot.
proof fn lemma_slot_map<T, U, O: Relation<T>, P: Relation<U>>(
    s: Seq<T>,
    x: T,
    f: spec_fn(T) -> U,
    from: &O,
    to: &P,
)
    requires
        forall|a: T, b: T| #[trigger] from.le(a, b) == to.le(f(a), f(b)),
    ensures
        slot(s, x, from) == slot(s.map_values(f), f(x), to),
    decreases s.len(),
{
    if s.len() > 0 {
        assert(from.le(s.last(), x) == to.le(f(s.last()), f(x)));
        assert(s.map_values(f).drop_last() =~= s.drop_last().map_values(f));
        lemma_slot_map(s.drop_last(), x, f, from, to);
    }
}

/// Whether a value ties with `x`: neither comes strictly before the other.
pub open spec fn ties_with<T, O: Relation<T>>(x: T, order: &O) -> spec_fn(T) -> bool {
    |y: T| order.le(x, y) && order.le(y, x)
}

/// The sort is stable: the values that tie with one another stand in the
/// sorted sequence in the order in which they stand in `s`.
pub proof fn lemma_sorted_is_stable<T, O: Relation<T>>(s: Seq<T>, x: T, order: &O)
    requires
        all_admitted(s, order),
        order.admits(x),
    ensures
        sorted(s, order).filter(ties_with(x, order)) == s.filter(ties_with(x, order)),
    decreases s.len(),
{
    let tie = ties_with(x, order);
    if s.len() > 0 {
        let rest = s.drop_last();
        let y = s.last();
        let front = sorted(rest, order);
        assert forall|i: int| 0 <= i < rest.len() implies order.admits(#[trigger] rest[i]) by {
            assert(rest[i] == s[i]);
        }
        lemma_sorted_is_stable(rest, x, order);
        lemma_sorted(rest, order);
        lemma_slot(front, y, order);
        let at = slot(front, y, order);
        let before = front.subrange(0, at);
        let after = front.subrange(at, front.len() as int);
        assert(front =~= before + after);
        assert(sorted(s, order) =~= before.push(y) + after);
        assert(s =~= rest.push(y));
        rest.lemma_filter_push(y, tie);
        before.lemma_filter_push(y, tie);
        Seq::filter_distributes_over_add(before, after, tie);
        Seq::filter_distributes_over_add(before.push(y), after, tie);
        if tie(y) {
            assert forall|i: int| 0 <= i < after.len() implies !tie(#[trigger] after[i]) by {
                let z = after[i];
                assert(z == front[at + i]);
                if tie(z) {
                    order.lemma_transitive(z, x, y);
                }
            }
            after.lemma_all_neg_filter_empty(tie);
            assert(after.filter(tie) =~= Seq::<T>::empty());
            assert(before.push(y).filter(tie) + after.filter(tie) =~= (before.filter(tie)
                + after.filter(tie)).push(y));
        }
    } else {
        assert(sorted(s, order) =~= s);
    }
}

/// `s` with `x` put in at its slot.
pub open spec fn placed<T, O: Relation<T>>(s: Seq<T>, x: T, order: &O) -> Seq<T> {
    s.insert(slot(s, x, order), x)
}

/// A value goes behind the last value of a sequence where it does not come
/// before it, and else into the sequence without its last value.
pub proof fn lemma_placed<T, O: Relation<T>>(s: Seq<T>, x: T, order: &O)
    ensures
        s.len() == 0 || order.le(s.last(), x) ==> placed(s, x, order) == s.push(x),
        s.len() > 0 && !order.le(s.last(), x) ==> placed(s, x, order) == placed(
            s.drop_last(),
            x,
            order,
        ).push(s.last()),
{
    if s.len() == 0 || order.le(s.last(), x) {
        assert(placed(s, x, order) =~= s.push(x));
    } else {
        lemma_slot(s.drop_last(), x, order);
        assert(placed(s, x, order) =~= placed(s.drop_last(), x, order).push(s.last()));
    }
}

/// Two ascending sequences merged into one: of the two last values the one
/// of `a` goes last where it comes strictly after the one of `b`, so that
/// values that tie stand with those of `a` first.
pub open spec fn merged<T, O: Relation<T>>(a: Seq<T>, b: Seq<T>, order: &O) -> Seq<T>
    decreases a.len() + b.len(),
{
    if a.len() == 0 {
        b
    } else if b.len() == 0 {
        a
    } else if order.le(a.last(), b.last()) {
        merged(a, b.drop_last(), order).push(b.last())
    } else {
        merged(a.drop_last(), b, order).push(a.last())
    }
}

/// The last value of a merged sequence is the last of `b`, unless the last
/// of `a` comes strictly after it.
proof fn lemma_merged_last<T, O: Relation<T>>(a: Seq<T>, b: Seq<T>, order: &O)
    requires
        a.len() > 0,
        b.len() > 0,
    ensures
        merged(a, b, order).len() > 0,
        merged(a, b, order).last() == if order.le(a.last(), b.last()) {
            b.last()
        } else {
            a.last()
        },
        merged(a, b, order).drop_last() == if order.le(a.last(), b.last()) {
            merged(a, b.drop_last(), order)
        } else {
            merged(a.drop_last(), b, order)
        },
{
    if order.le(a.last(), b.last()) {
        assert(merged(a, b, order).drop_last() =~= merged(a, b.drop_last(), order));
    } else {
        assert(merged(a, b, order).drop_last() =~= merged(a.drop_last(), b, order));
    }
}

/// Putting a value into the second of two sequences and merging them gives
/// what merging them and putting the value in gives.
pub proof fn lemma_merged_placed<T, O: Relation<T>>(a: Seq<T>, b: Seq<T>, y: T, order: &O)
    requires
        all_admitted(a, order),
        all_admitted(b, order),
        order.admits(y),
    ensures
        placed(merged(a, b, order), y, order) == merged(a, placed(b, y, order), order),
    decreases a.len() + b.len(),
{
    let more = placed(b, y, order);
    lemma_placed(b, y, order);
    lemma_slot(b, y, order);
    if a.len() == 0 {
    } else if b.len() == 0 {
        assert(more =~= seq![y]);
        assert(more.last() == y && more.drop_last() =~= Seq::<T>::empty());
        lemma_placed(a, y, order);
        if !order.le(a.last(), y) {
            let front = a.drop_last();
            assert forall|i: int| 0 <= i < front.len() implies order.admits(
                #[trigger] front[i],
            ) by {
                assert(front[i] == a[i]);
            }
            lemma_merged_placed(front, b, y, order);
            assert(merged(front, b, order) == front);
            assert(merged(a, more, order) == merged(front, more, order).push(a.last()));
        } else {
            assert(merged(a, more, order) == merged(a, more.drop_last(), order).push(y));
        }
    } else {
        let x = a.last();
        let z = b.last();
        let front = a.drop_last();
        let rest = b.drop_last();
        assert(order.admits(x) && order.admits(z)) by {
            assert(x == a[a.len() - 1] && z == b[b.len() - 1]);
        }
        assert forall|i: int| 0 <= i < front.len() implies order.admits(#[trigger] front[i]) by {
            assert(front[i] == a[i]);
        }
        assert forall|i: int| 0 <= i < rest.len() implies order.admits(#[trigger] rest[i]) by {
            assert(rest[i] == b[i]);
        }
        let all = merged(a, b, order);
        lemma_merged_last(a, b, order);
        lemma_placed(all, y, order);
        if order.le(z, y) {
            assert(more == b.push(y));
            assert(more.last() == y && more.drop_last() =~= b);
            if order.le(x, y) {
                assert(merged(a, more, order) == merged(a, b, order).push(y));
            } else {
                if order.le(x, z) {
                    order.lemma_transitive(x, z, y);
                }
                lemma_merged_placed(front, b, y, order);
                assert(merged(a, more, order) == merged(front, more, order).push(x));
            }
        } else {
            assert(more == placed(rest, y, order).push(z));
            assert(more.last() == z && more.drop_last() =~= placed(rest, y, order));
            if order.le(x, z) {
                lemma_merged_placed(a, rest, y, order);
                assert(merged(a, more, order) == merged(a, more.drop_last(), order).push(z));
            } else {
                if order.le(x, y) {
                    order.lemma_total(z, y);
                    order.lemma_transitive(x, y, z);
                }
                lemma_merged_placed(front, b, y, order);
                assert(merged(a, more, order) == merged(front, more, order).push(x));
            }
        }
    }
}

/// Sorting a sequence in two parts and merging the parts sorts it.
pub proof fn lemma_sorted_in_parts<T, O: Relation<T>>(s: Seq<T>, t: Seq<T>, order: &O)
    requires
        all_admitted(s, order),
        all_admitted(t, order),
    ensures
        sorted(s + t, order) == merged(sorted(s, order), sorted(t, order), order),
    decreases t.len(),
{
    lemma_sorted(s, order);
    if t.len() == 0 {
        assert(s + t =~= s);
        assert(sorted(t, order) =~= Seq::<T>::empty());
    } else {
        let rest = t.drop_last();
        let y = t.last();
        assert(order.admits(y)) by {
            assert(y == t[t.len() - 1]);
        }
        assert forall|i: int| 0 <= i < rest.len() implies order.admits(#[trigger] rest[i]) by {
            assert(rest[i] == t[i]);
        }
        lemma_sorted_in_parts(s, rest, order);
        lemma_sorted(rest, order);
        assert((s + t).drop_last() =~= s + rest);
        assert((s + t).last() == y);
        lemma_merged_placed(sorted(s, order), sorted(rest, order), y, order);
    }
}

/// The values of `s` from the last to the first.
pub open spec fn backwards<T>(s: Seq<T>) -> Seq<T> {
    Seq::new(s.len(), |i: int| s[s.len() - 1 - i])
}

/// Merges two sequences, going through both from their ends.
fn merge<T: Copy, O: Order<T>>(a: &Vec<T>, b: &Vec<T>, order: &O) -> (out: Vec<T>)
    requires
        all_admitted(a@, order),
        all_admitted(b@, order),
    ensures
        out@ == merged(a@, b@, order),
{
    let mut back: Vec<T> = Vec::new();
    let mut i: usize = a.len();
    let mut j: usize = b.len();
    assert(a@.take(i as int) =~= a@ && b@.take(j as int) =~= b@);
    assert(merged(a@, b@, order) + backwards(back@) =~= merged(a@, b@, order));
    while i > 0 || j > 0
        invariant
            i <= a.len(),
            j <= b.len(),
            all_admitted(a@, order),
            all_admitted(b@, order),
            merged(a@, b@, order) == merged(a@.take(i as int), b@.take(j as int), order)
                + backwards(back@),
        decreases i + j,
    {
        let ghost left = a@.take(i as int);
        let ghost right = b@.take(j as int);
        let ghost done = back@;
        let from_b = if i == 0 {
            true
        } else if j == 0 {
            false
        } else {
            order.leq(&a[i - 1], &b[j - 1])
        };
        if from_b {
            assert(right.drop_last() =~= b@.take(j - 1));
            assert(merged(left, right, order) =~= merged(left, right.drop_last(), order).push(
                right.last(),
            ));
            back.push(b[j - 1]);
            j -= 1;
            assert(backwards(back@) =~= seq![right.last()] + backwards(done));
        } else {
            assert(left.drop_last() =~= a@.take(i - 1));
            assert(merged(left, right, order) =~= merged(left.drop_last(), right, order).push(
                left.last(),
            ));
            back.push(a[i - 1]);
            i -= 1;
            assert(backwards(back@) =~= seq![left.last()] + backwards(done));
        }
        assert(merged(a@, b@, order) =~= merged(a@.take(i as int), b@.take(j as int), order)
            + backwards(back@));
    }
    assert(merged(a@, b@, order) =~= backwards(back@));
    let mut out: Vec<T> = Vec::with_capacity(back.len());
    let mut k: usize = back.len();
    while k > 0
        invariant
            k <= back.len(),
            out@.len() == back.len() - k,
            forall|t: int| 0 <= t < out@.len() ==> out@[t] == back@[back.len() - 1 - t],
        decreases k,
    {
        k -= 1;
        out.push(back[k]);
    }
    assert(out@ =~= backwards(back@));
    out
}

/// Sorts the values under `order`, keeping values that tie in their order.
pub fn sort<T: Copy, O: Order<T>>(items: &[T], order: &O) -> (out: Vec<T>)
    requires
        all_admitted(items@, order),
    ensures
        out@ == sorted(items@, order),
        out.len() == items.len(),
        out@.to_multiset() == items@.to_multiset(),
        all_admitted(out@, order),
        ascending(out@, order),
    decreases items@.len(),
{
    let n = items.len();
    proof {
        lemma_sorted(items@, order);
    }
    if n <= 1 {
        proof {
            if n == 1 {
                assert(items@.drop_last() =~= Seq::<T>::empty());
                assert(sorted(items@, order) =~= items@);
            }
        }
        vstd::slice::slice_to_vec(items)
    } else {
        let mid = n / 2;
        let first = vstd::slice::slice_subrange(items, 0, mid);
        let second = vstd::slice::slice_subrange(items, mid, n);
        proof {
            assert forall|i: int| 0 <= i < first@.len() implies order.admits(
                #[trigger] first@[i],
            ) by {
                assert(first@[i] == items@[i]);
            }
            assert forall|i: int| 0 <= i < second@.len() implies order.admits(
                #[trigger] second@[i],
            ) by {
                assert(second@[i] == items@[mid + i]);
            }
            assert(first@ + second@ =~= items@);
            lemma_sorted_in_parts(first@, second@, order);
        }
        let left = sort(first, order);
        let right = sort(second, order);
        merge(&left, &right, order)
    }
}

} // verus!
