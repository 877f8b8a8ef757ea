//! The tree itself: its shape, its invariant, construction and the
//! containment query.
use crate::sorting::{ascending, lemma_places, lemma_sorted, sort, sorted};
use crate::spatial::nearest::{is_nearest, lemma_searched, search, searched};
use crate::spatial::order::{coordinate, key, lemma_ascending_coordinates, Along, Axis};
use crate::y2018::day6::Point;
use vstd::multiset::Multiset;
use vstd::prelude::*;

verus! {

/// A node of the tree.
pub enum Node {
    /// No point at all.
    Empty,
    /// Exactly one point.
    Leaf(Point),
    /// A point that splits the others along `axis`: those that lie strictly
    /// before it are on the left, the others on the right.
    Internal { axis: Axis, point: Point, left: Box<Node>, right: Box<Node> },
}

impl Node {
    /// The points held in this subtree, each as often as it was put in.
    pub open spec fn points(self) -> Multiset<Point>
        decreases self,
    {
        match self {
            Node::Empty => Multiset::empty(),
            Node::Leaf(p) => Multiset::singleton(p),
            Node::Internal { point, left, right, .. } => left.points().add(right.points()).insert(
                point,
            ),
        }
    }

    /// The number of nodes on the longest path from this node down.
    pub open spec fn height(self) -> nat
        decreases self,
    {
        match self {
            Node::Empty => 0,
            Node::Leaf(_) => 1,
            Node::Internal { left, right, .. } => 1 + if left.height() >= right.height() {
                left.height()
            } else {
                right.height()
            },
        }
    }

    /// Whether every internal node of this subtree, whose root lies at
    /// `depth`, splits along the axis of its depth: x at even depth, y at
    /// odd.
    pub open spec fn splits_by_depth(self, depth: nat) -> bool
        decreases self,
    {
        match self {
            Node::Empty => true,
            Node::Leaf(_) => true,
            Node::Internal { axis, left, right, .. } => {
                &&& axis == Axis::at_depth(depth)
                &&& left.splits_by_depth(depth + 1)
                &&& right.splits_by_depth(depth + 1)
            },
        }
    }

    /// The invariant of a subtree whose root splits along `axis`: the axes
    /// alternate from level to level, and each internal node separates its
    /// left subtree (strictly smaller coordinate) from its right subtree
    /// (greater or equal coordinate).
    pub open spec fn ordered(self, axis: Axis) -> bool
        decreases self,
    {
        match self {
            Node::Empty => true,
            Node::Leaf(_) => true,
            Node::Internal { axis: a, point, left, right } => {
                &&& a == axis
                &&& left.ordered(axis.spec_next())
                &&& right.ordered(axis.spec_next())
                &&& forall|p: Point| #[trigger]
                    left.points().contains(p) ==> coordinate(p, axis) < coordinate(point, axis)
                &&& forall|p: Point| #[trigger]
                    right.points().contains(p) ==> coordinate(p, axis) >= coordinate(point, axis)
            },
        }
    }
}

/// The first position of the run of equal coordinates that position `i` of
/// `line` lies in.
pub open spec fn first_tie(line: Seq<Point>, axis: Axis, i: int) -> int
    decreases i,
{
    if 0 < i < line.len() && coordinate(line[i - 1], axis) == coordinate(line[i], axis) {
        first_tie(line, axis, i - 1)
    } else {
        i
    }
}

/// The position of the splitting point in a sorted `line`: the middle one, or,
/// where points before the middle tie with it, the first of those.
pub open spec fn median(line: Seq<Point>, axis: Axis) -> int {
    first_tie(line, axis, line.len() as int / 2)
}

/// The tree over the points of `s` whose root splits along `axis`.
pub open spec fn grown(s: Seq<Point>, axis: Axis) -> Node
    decreases s.len(),
{
    if s.len() == 0 {
        Node::Empty
    } else if s.len() == 1 {
        Node::Leaf(s[0])
    } else {
        let line = sorted(s, &Along(axis));
        let m = median(line, axis);
        proof {
            lemma_sorted(s, &Along(axis));
            lemma_first_tie(line, axis, line.len() as int / 2);
        }
        Node::Internal {
            axis,
            point: line[m],
            left: Box::new(grown(line.subrange(0, m), axis.spec_next())),
            right: Box::new(grown(line.subrange(m + 1, line.len() as int), axis.spec_next())),
        }
    }
}

/// The first position of a run is a position at or before `i` with the same
/// coordinate, and the point before it has another one.
pub proof fn lemma_first_tie(line: Seq<Point>, axis: Axis, i: int)
    requires
        0 <= i < line.len(),
    ensures
        0 <= first_tie(line, axis, i) <= i,
        coordinate(line[first_tie(line, axis, i)], axis) == coordinate(line[i], axis),
        first_tie(line, axis, i) > 0 ==> coordinate(line[first_tie(line, axis, i) - 1], axis)
            != coordinate(line[i], axis),
    decreases i,
{
    if 0 < i < line.len() && coordinate(line[i - 1], axis) == coordinate(line[i], axis) {
        lemma_first_tie(line, axis, i - 1);
    }
}

/// A sorted line falls into three parts at its median: the points strictly
/// before the splitting point, that point, and the points not before it.
pub proof fn lemma_median_splits(line: Seq<Point>, axis: Axis)
    requires
        line.len() >= 2,
        ascending(line, &Along(axis)),
    ensures
        0 <= median(line, axis) < line.len(),
        forall|k: int|
            0 <= k < median(line, axis) ==> coordinate(#[trigger] line[k], axis) < coordinate(
                line[median(line, axis)],
                axis,
            ),
        forall|k: int|
            median(line, axis) < k < line.len() ==> coordinate(#[trigger] line[k], axis)
                >= coordinate(line[median(line, axis)], axis),
        line.to_multiset() == line.subrange(0, median(line, axis)).to_multiset().add(
            line.subrange(median(line, axis) + 1, line.len() as int).to_multiset(),
        ).insert(line[median(line, axis)]),
{
    let m = median(line, axis);
    let n = line.len() as int;
    lemma_first_tie(line, axis, n / 2);
    lemma_ascending_coordinates(line, axis);
    assert forall|k: int| 0 <= k < m implies coordinate(#[trigger] line[k], axis) < coordinate(
        line[m],
        axis,
    ) by {
        assert(coordinate(line[k], axis) <= coordinate(line[m - 1], axis));
        assert(coordinate(line[m - 1], axis) <= coordinate(line[m], axis));
    }
    let before = line.subrange(0, m);
    let after = line.subrange(m + 1, n);
    assert(line =~= before.push(line[m]) + after);
    vstd::seq_lib::lemma_multiset_commutative(before.push(line[m]), after);
    vstd::seq_lib::to_multiset_build(before, line[m]);
    let head = before.to_multiset();
    let rest = after.to_multiset();
    assert(head.insert(line[m]).add(rest) =~= head.add(rest).insert(line[m]));
}

/// A sequence without points has the empty multiset.
proof fn lemma_nothing(s: Seq<Point>)
    requires
        s.len() == 0,
    ensures
        s.to_multiset() == Multiset::<Point>::empty(),
{
    vstd::seq_lib::to_multiset_len(s);
    vstd::multiset::lemma_multiset_empty_len(s.to_multiset());
    assert(s.to_multiset() =~= Multiset::<Point>::empty());
}

/// The tree grown over `s` holds exactly the points of `s` and is ordered.
pub proof fn lemma_grown(s: Seq<Point>, axis: Axis)
    ensures
        grown(s, axis).points() == s.to_multiset(),
        grown(s, axis).ordered(axis),
    decreases s.len(),
{
    broadcast use vstd::multiset::group_multiset_axioms;

    if s.len() == 0 {
        lemma_nothing(s);
    } else if s.len() == 1 {
        let none = Seq::<Point>::empty();
        assert(s =~= none.push(s[0]));
        vstd::seq_lib::to_multiset_build(none, s[0]);
        lemma_nothing(none);
        assert(s.to_multiset() =~= Multiset::singleton(s[0]));
    } else {
        let line = sorted(s, &Along(axis));
        let m = median(line, axis);
        lemma_sorted(s, &Along(axis));
        lemma_median_splits(line, axis);
        let before = line.subrange(0, m);
        let after = line.subrange(m + 1, line.len() as int);
        lemma_grown(before, axis.spec_next());
        lemma_grown(after, axis.spec_next());
        assert forall|p: Point| #[trigger] before.to_multiset().contains(p) implies coordinate(
            p,
            axis,
        ) < coordinate(line[m], axis) by {
            vstd::seq_lib::to_multiset_contains(before, p);
            let k = choose|k: int| 0 <= k < before.len() && before[k] == p;
            assert(line[k] == p);
        }
        assert forall|p: Point| #[trigger] after.to_multiset().contains(p) implies coordinate(
            p,
            axis,
        ) >= coordinate(line[m], axis) by {
            vstd::seq_lib::to_multiset_contains(after, p);
            let k = choose|k: int| 0 <= k < after.len() && after[k] == p;
            assert(line[m + 1 + k] == p);
        }
    }
}

/// In an ordered subtree every node splits along the axis of its depth.
pub proof fn lemma_splits_by_depth(node: Node, depth: nat)
    requires
        node.ordered(Axis::at_depth(depth)),
    ensures
        node.splits_by_depth(depth),
    decreases node,
{
    match node {
        Node::Empty => {},
        Node::Leaf(_) => {},
        Node::Internal { left, right, .. } => {
            assert(Axis::at_depth(depth).spec_next() == Axis::at_depth(depth + 1));
            lemma_splits_by_depth(*left, depth + 1);
            lemma_splits_by_depth(*right, depth + 1);
        },
    }
}

/// A subtree is no higher than it has points.
pub proof fn lemma_height_counts(node: Node)
    ensures
        node.height() <= node.points().len(),
    decreases node,
{
    broadcast use vstd::multiset::group_multiset_axioms;

    match node {
        Node::Empty => {},
        Node::Leaf(_) => {},
        Node::Internal { left, right, .. } => {
            lemma_height_counts(*left);
            lemma_height_counts(*right);
        },
    }
}

/// The number of binary digits of `n`: 0 for 0, 1 for 1, 2 for 2 and 3, and
/// so on.
pub open spec fn bits(n: nat) -> nat
    decreases n,
{
    if n == 0 {
        0
    } else {
        1 + bits(n / 2)
    }
}

/// A larger number has no fewer binary digits.
pub proof fn lemma_bits_grow(m: nat, n: nat)
    requires
        m <= n,
    ensures
        bits(m) <= bits(n),
    decreases n,
{
    if m > 0 {
        lemma_bits_grow(m / 2, n / 2);
    }
}

/// Whether no two points of `s` share a coordinate on either axis.
pub open spec fn spread_out(s: Seq<Point>) -> bool {
    forall|i: int, j: int|
        0 <= i < j < s.len() ==> (#[trigger] s[i]).0 != (#[trigger] s[j]).0 && s[i].1 != s[j].1
}

/// Points that share no coordinate share none however they are arranged.
pub proof fn lemma_spread_out_survives(s: Seq<Point>, t: Seq<Point>)
    requires
        s.to_multiset() == t.to_multiset(),
        spread_out(s),
    ensures
        spread_out(t),
{
    assert forall|i: int, j: int| 0 <= i < j < t.len() implies (#[trigger] t[i]).0 != (
    #[trigger] t[j]).0 && t[i].1 != t[j].1 by {
        let (a, b) = lemma_places(s, t, i, j);
        if a < b {
            assert(s[a].0 != s[b].0 && s[a].1 != s[b].1);
        } else {
            assert(s[b].0 != s[a].0 && s[b].1 != s[a].1);
        }
    }
}

/// Where no two points share a coordinate, every split is in the middle,
/// and the tree is no higher than the number of its points has binary
/// digits.
pub proof fn lemma_grown_height(s: Seq<Point>, axis: Axis)
    requires
        spread_out(s),
    ensures
        grown(s, axis).height() <= bits(s.len()),
    decreases s.len(),
{
    if s.len() == 1 {
        assert(bits(1) == 1 + bits(0));
    } else if s.len() >= 2 {
        let line = sorted(s, &Along(axis));
        let n = line.len() as int;
        lemma_sorted(s, &Along(axis));
        lemma_spread_out_survives(s, line);
        let m = median(line, axis);
        assert(m == n / 2) by {
            assert(coordinate(line[n / 2 - 1], axis) != coordinate(line[n / 2], axis));
        }
        let before = line.subrange(0, m);
        let after = line.subrange(m + 1, n);
        assert(spread_out(before)) by {
            assert forall|i: int, j: int| 0 <= i < j < before.len() implies (
            #[trigger] before[i]).0 != (#[trigger] before[j]).0 && before[i].1 != before[j].1 by {
                assert(before[i] == line[i] && before[j] == line[j]);
            }
        }
        assert(spread_out(after)) by {
            assert forall|i: int, j: int| 0 <= i < j < after.len() implies (#[trigger] after[i]).0
                != (#[trigger] after[j]).0 && after[i].1 != after[j].1 by {
                assert(after[i] == line[m + 1 + i] && after[j] == line[m + 1 + j]);
            }
        }
        lemma_grown_height(before, axis.spec_next());
        lemma_grown_height(after, axis.spec_next());
        lemma_bits_grow(after.len(), (n / 2) as nat);
        assert(bits(n as nat) == 1 + bits((n / 2) as nat));
    }
}

/// Finds the splitting position of a sorted line.
fn find_median(line: &Vec<Point>, axis: Axis) -> (m: usize)
    requires
        line.len() >= 1,
    ensures
        m == median(line@, axis),
        m < line.len(),
{
    let mut m: usize = line.len() / 2;
    while m > 0 && key(&line[m - 1], axis) == key(&line[m], axis)
        invariant
            m < line.len(),
            first_tie(line@, axis, m as int) == median(line@, axis),
        decreases m,
    {
        m -= 1;
    }
    m
}

/// Grows the tree over `points` whose root splits along `axis`.
fn grow(points: Vec<Point>, axis: Axis) -> (node: Node)
    ensures
        node == grown(points@, axis),
    decreases points.len(),
{
    let n = points.len();
    if n == 0 {
        Node::Empty
    } else if n == 1 {
        Node::Leaf(points[0])
    } else {
        let mut line = sort(points.as_slice(), &Along(axis));
        let m = find_median(&line, axis);
        let ghost whole = line@;
        let rest = line.split_off(m + 1);
        let point = line[m];
        line.truncate(m);
        assert(line@ =~= whole.subrange(0, m as int));
        let left = grow(line, axis.next());
        let right = grow(rest, axis.next());
        Node::Internal { axis, point, left: Box::new(left), right: Box::new(right) }
    }
}

/// A k-d tree over a finite collection of points, built once and read-only
/// thereafter. Its view is the multiset of the points it was built from.
pub struct SpatialIndex {
    root: Node,
    size: usize,
}

impl View for SpatialIndex {
    type V = Multiset<Point>;

    closed spec fn view(&self) -> Multiset<Point> {
        self.root.points()
    }
}

impl SpatialIndex {
    /// The root node; it splits along the x axis.
    pub closed spec fn root(self) -> Node {
        self.root
    }

    /// The number of points that the tree was built with.
    pub closed spec fn spec_len(&self) -> usize {
        self.size
    }

    /// The invariant of the tree: its root is ordered along the x axis, and
    /// it knows the number of its points.
    #[verifier::type_invariant]
    pub closed spec fn well_formed(self) -> bool {
        &&& self.root.ordered(Axis::X)
        &&& self.root.points().len() == self.size
    }

    /// Whether this is the tree that construction yields for `s`.
    pub open spec fn built_from(self, s: Seq<Point>) -> bool {
        self.root() == grown(s, Axis::X) && self.spec_len() == s.len()
    }

    /// The point that the search for the neighbour nearest to `q` ends with:
    /// it starts at the root with nothing.
    pub open spec fn spec_nearest(self, q: Point) -> Option<Point> {
        searched(self.root(), q, None)
    }

    /// What the view and the invariant mean in terms of the root.
    pub broadcast proof fn lemma_root(self)
        ensures
            #[trigger] self@ == self.root().points(),
            #[trigger] self.well_formed() == (self.root().ordered(Axis::X) && self@.len()
                == self.spec_len()),
    {
    }

    /// Builds the tree over `points`. Any finite input is valid: the empty
    /// one gives the empty tree, and a point that occurs several times is
    /// held as often.
    pub fn build(points: &[Point]) -> (tree: SpatialIndex)
        ensures
            tree.built_from(points@),
            tree.well_formed(),
            tree@ == points@.to_multiset(),
    {
        let owned = vstd::slice::slice_to_vec(points);
        proof {
            lemma_grown(points@, Axis::X);
            vstd::seq_lib::to_multiset_len(points@);
        }
        SpatialIndex { root: grow(owned, Axis::X), size: points.len() }
    }

    /// Whether `query` is one of the points of the tree.
    pub fn contains(&self, query: &Point) -> (found: bool)
        ensures
            found == self@.contains(*query),
    {
        proof {
            use_type_invariant(self);
        }
        let mut node = &self.root;
        let ghost mut axis = Axis::X;
        loop
            invariant
                node.ordered(axis),
                self@.contains(*query) == node.points().contains(*query),
            decreases node,
        {
            broadcast use vstd::multiset::group_multiset_axioms;

            match node {
                Node::Empty => {
                    return false;
                },
                Node::Leaf(p) => {
                    return *p == *query;
                },
                Node::Internal { axis: a, point, left, right } => {
                    if *point == *query {
                        return true;
                    }
                    proof {
                        let q = *query;
                        if coordinate(q, axis) < coordinate(*point, axis) {
                            assert(!right.points().contains(q));
                        } else {
                            assert(!left.points().contains(q));
                        }
                        assert(node.points().count(q) == left.points().count(q)
                            + right.points().count(q));
                        axis = axis.spec_next();
                    }
                    if key(query, *a) < key(point, *a) {
                        node = &**left;
                    } else {
                        node = &**right;
                    }
                },
            }
        }
    }

    /// The point of the tree nearest to `query` under the Manhattan distance,
    /// or nothing where the tree is empty. Among several nearest points it
    /// is the one that the search meets first.
    pub fn nearest(&self, query: &Point) -> (found: Option<Point>)
        ensures
            found == self.spec_nearest(*query),
            is_nearest(found, self@, *query),
    {
        proof {
            use_type_invariant(self);
            lemma_searched(self.root, Axis::X, *query, None);
        }
        search(&self.root, query, None)
    }

    /// The number of points in the tree.
    #[verifier::when_used_as_spec(spec_len)]
    pub fn len(&self) -> (n: usize)
        ensures
            n == self.spec_len(),
            n == self@.len(),
    {
        proof {
            use_type_invariant(self);
        }
        self.size
    }

    /// Whether the tree holds no point.
    pub fn is_empty(&self) -> (empty: bool)
        ensures
            empty == (self@.len() == 0),
    {
        proof {
            use_type_invariant(self);
        }
        self.size == 0
    }

    /// The number of nodes on the longest path from the root down; 0 for the
    /// empty tree.
    pub fn height(&self) -> (h: usize)
        ensures
            h == self.root().height(),
    {
        proof {
            use_type_invariant(self);
        }
        measure(&self.root)
    }
}

/// Measures the height of a subtree.
fn measure(node: &Node) -> (h: usize)
    requires
        node.points().len() <= usize::MAX,
    ensures
        h == node.height(),
    decreases node,
{
    broadcast use vstd::multiset::group_multiset_axioms;

    match node {
        Node::Empty => 0,
        Node::Leaf(_) => 1,
        Node::Internal { left, right, .. } => {
            proof {
                lemma_height_counts(**left);
                lemma_height_counts(**right);
            }
            let l = measure(left);
            let r = measure(right);
            if l >= r {
                1 + l
            } else {
                1 + r
            }
        },
    }
}

} // verus!
