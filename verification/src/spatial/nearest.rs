//! The nearest-neighbour search under the Manhattan distance.
use crate::spatial::order::{coordinate, key, Axis};
use crate::spatial::tree::Node;
use crate::y2018::day6::{abs_diff, distance, gap, manhattan, Point};
use vstd::multiset::Multiset;
use vstd::prelude::*;

verus! {

/// The best point so far after `p` has been looked at: `p` replaces it only
/// where `p` is strictly nearer to `q`, so the point met first wins a tie.
pub open spec fn nearer(best: Option<Point>, p: Point, q: Point) -> Option<Point> {
    match best {
        None => Some(p),
        Some(b) => if manhattan(p, q) < manhattan(b, q) {
            Some(p)
        } else {
            best
        },
    }
}

/// The best point after the search has gone through `node`, having come with
/// `best`. At an internal node it first goes down the side that `q` lies on,
/// then looks at the node's own point, and goes down the other side unless
/// the distance from `q` to the splitting line alone exceeds the distance to
/// the best point so far.
pub open spec fn searched(node: Node, q: Point, best: Option<Point>) -> Option<Point>
    decreases node,
{
    match node {
        Node::Empty => best,
        Node::Leaf(p) => nearer(best, p, q),
        Node::Internal { axis, point, left, right } => {
            let to_line = gap(coordinate(q, axis), coordinate(point, axis));
            if coordinate(q, axis) < coordinate(point, axis) {
                let found = nearer(searched(*left, q, best), point, q);
                if to_line > manhattan(found.unwrap(), q) {
                    found
                } else {
                    searched(*right, q, found)
                }
            } else {
                let found = nearer(searched(*right, q, best), point, q);
                if to_line > manhattan(found.unwrap(), q) {
                    found
                } else {
                    searched(*left, q, found)
                }
            }
        },
    }
}

/// Whether `r` is a point of `among` that no point of `among` is nearer to
/// `q` than, or nothing where `among` has no point.
pub open spec fn is_nearest(r: Option<Point>, among: Multiset<Point>, q: Point) -> bool {
    match r {
        None => among.len() == 0,
        Some(p) => {
            &&& among.contains(p)
            &&& forall|s: Point| #[trigger] among.contains(s) ==> manhattan(p, q) <= manhattan(s, q)
        },
    }
}

/// The search never loses ground: what it returns is the point it came with
/// or a point of the subtree, and nothing in the subtree, nor the point it
/// came with, is nearer. It returns nothing only where it came with nothing
/// and the subtree is empty.
pub proof fn lemma_searched(node: Node, axis: Axis, q: Point, best: Option<Point>)
    requires
        node.ordered(axis),
    ensures
        searched(node, q, best) is None <==> best is None && node.points().len() == 0,
        searched(node, q, best) matches Some(p) ==> {
            &&& node.points().contains(p) || best == Some(p)
            &&& forall|s: Point| #[trigger]
                node.points().contains(s) ==> manhattan(p, q) <= manhattan(s, q)
            &&& best matches Some(b) ==> manhattan(p, q) <= manhattan(b, q)
        },
    decreases node,
{
    broadcast use vstd::multiset::group_multiset_axioms;

    match node {
        Node::Empty => {},
        Node::Leaf(p) => {},
        Node::Internal { axis: a, point, left, right } => {
            let to_line = gap(coordinate(q, axis), coordinate(point, axis));
            let goes_left = coordinate(q, axis) < coordinate(point, axis);
            let near = if goes_left {
                *left
            } else {
                *right
            };
            let far = if goes_left {
                *right
            } else {
                *left
            };
            let first = searched(near, q, best);
            let found = nearer(first, point, q);
            lemma_searched(near, axis.spec_next(), q, best);
            lemma_searched(far, axis.spec_next(), q, found);
            let r = searched(node, q, best);
            assert(node.points().len() > 0);
            assert forall|s: Point| far.points().contains(s) implies to_line <= manhattan(s, q) by {
                assert(goes_left ==> right.points().contains(s));
                assert(!goes_left ==> left.points().contains(s));
            }
            assert forall|s: Point| #[trigger] node.points().contains(s) implies manhattan(
                r.unwrap(),
                q,
            ) <= manhattan(s, q) by {
                assert(near.points().contains(s) || far.points().contains(s) || s == point);
            }
        },
    }
}

/// Keeps the nearer of the best point so far and `p`.
fn keep_nearer(best: Option<Point>, p: &Point, q: &Point) -> (r: Option<Point>)
    ensures
        r == nearer(best, *p, *q),
{
    match best {
        None => Some(*p),
        Some(b) => if distance(p, q.0, q.1) < distance(&b, q.0, q.1) {
            Some(*p)
        } else {
            best
        },
    }
}

/// Searches `node` for points nearer to `q` than `best`.
pub(crate) fn search(node: &Node, q: &Point, best: Option<Point>) -> (r: Option<Point>)
    ensures
        r == searched(*node, *q, best),
    decreases node,
{
    match node {
        Node::Empty => best,
        Node::Leaf(p) => keep_nearer(best, p, q),
        Node::Internal { axis, point, left, right } => {
            let to_line = abs_diff(key(q, *axis), key(point, *axis));
            let goes_left = key(q, *axis) < key(point, *axis);
            let first = if goes_left {
                search(left, q, best)
            } else {
                search(right, q, best)
            };
            let found = keep_nearer(first, point, q);
            match found {
                Some(b) if to_line <= distance(&b, q.0, q.1) => if goes_left {
                    search(right, q, found)
                } else {
                    search(left, q, found)
                },
                _ => found,
            }
        },
    }
}

} // verus!
