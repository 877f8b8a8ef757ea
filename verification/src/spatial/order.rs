//! The two axes, and the order of points along one of them.
use crate::sorting::{ascending, Order, Relation};
use crate::y2018::day6::Point;
use vstd::prelude::*;

verus! {

/// One of the two coordinate axes.
#[derive(Clone, Copy, Debug, PartialEq, Eq, Structural)]
pub enum Axis {
    X,
    Y,
}

impl Axis {
    /// The other axis.
    pub open spec fn spec_next(self) -> Axis {
        match self {
            Axis::X => Axis::Y,
            Axis::Y => Axis::X,
        }
    }

    /// The axis a node at the given depth splits on: x at even depth, y at odd.
    pub open spec fn at_depth(depth: nat) -> Axis {
        if depth % 2 == 0 {
            Axis::X
        } else {
            Axis::Y
        }
    }

    /// The other axis.
    #[verifier::when_used_as_spec(spec_next)]
    pub fn next(self) -> (r: Axis)
        ensures
            r == self.spec_next(),
    {
        match self {
            Axis::X => Axis::Y,
            Axis::Y => Axis::X,
        }
    }
}

/// The coordinate of `p` along `axis`.
pub open spec fn coordinate(p: Point, axis: Axis) -> int {
    match axis {
        Axis::X => p.0 as int,
        Axis::Y => p.1 as int,
    }
}

/// The coordinate of `p` along `axis`.
pub fn key(p: &Point, axis: Axis) -> (k: u16)
    ensures
        k == coordinate(*p, axis),
{
    match axis {
        Axis::X => p.0,
        Axis::Y => p.1,
    }
}

/// The order of points by their coordinate along one axis.
pub struct Along(pub Axis);

impl Relation<Point> for Along {
    open spec fn admits(&self, a: Point) -> bool {
        true
    }

    open spec fn le(&self, a: Point, b: Point) -> bool {
        coordinate(a, self.0) <= coordinate(b, self.0)
    }

    proof fn lemma_total(&self, a: Point, b: Point) {
    }

    proof fn lemma_transitive(&self, a: Point, b: Point, c: Point) {
    }
}

impl Order<Point> for Along {
    fn leq(&self, a: &Point, b: &Point) -> (r: bool) {
        key(a, self.0) <= key(b, self.0)
    }
}

/// In a sequence that ascends along an axis the coordinates never decrease.
pub proof fn lemma_ascending_coordinates(line: Seq<Point>, axis: Axis)
    requires
        ascending(line, &Along(axis)),
    ensures
        forall|i: int, j: int|
            0 <= i <= j < line.len() ==> coordinate(#[trigger] line[i], axis) <= coordinate(
                #[trigger] line[j],
                axis,
            ),
{
    assert forall|i: int, j: int| 0 <= i <= j < line.len() implies coordinate(
        #[trigger] line[i],
        axis,
    ) <= coordinate(#[trigger] line[j], axis) by {
        assert(Along(axis).le(line[i], line[j]));
    }
}

} // verus!
