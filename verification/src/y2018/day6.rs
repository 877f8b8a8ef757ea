//! Chronal Coordinates: points on a grid and the Manhattan distance between them.
use crate::parse::{reader, Parse};
use crate::text::{chars_of, split, split_spans, Separator};
use crate::{parse_spans, TRUST};
use vstd::prelude::*;

verus! {

/// A two dimensional point with non-negative integer coordinates.
#[derive(Clone, Copy, Debug, PartialEq, Eq, Structural)]
pub struct Point(pub u16, pub u16);

/// The numbers that a text writes between commas and blanks.
pub open spec fn coordinates_in(text: Seq<char>) -> Seq<u16> {
    split(text, set![',', ' ']).filter_map(reader::<u16>())
}

impl Parse for Point {
    /// The point whose two coordinates the text writes; a text that writes
    /// fewer or more numbers writes no point.
    open spec fn parsed(text: Seq<char>) -> Option<Point> {
        let c = coordinates_in(text);
        if c.len() == 2 {
            Some(Point(c[0], c[1]))
        } else {
            None
        }
    }

    fn parse(text: &[char]) -> (r: Option<Point>) {
        let marks: Vec<char> = vec![',', ' '];
        let separator = Separator::AnyOf(marks.as_slice());
        assert(separator.marks() =~= set![',', ' ']) by {
            assert(marks@[0] == ',' && marks@[1] == ' ');
        }
        let pieces = split_spans(text, &separator);
        let c: Vec<u16> = parse_spans(text, pieces.as_slice());
        if c.len() == 2 {
            Some(Point(c[0], c[1]))
        } else {
            None
        }
    }
}

impl std::str::FromStr for Point {
    type Err = &'static str;

    fn from_str(s: &str) -> (r: Result<Self, Self::Err>)
        ensures
            r == match Point::parsed(s@) {
                Some(p) => Ok::<Point, &'static str>(p),
                None => Err::<Point, &'static str>(TRUST),
            },
    {
        let text = chars_of(s);
        match Point::parse(text.as_slice()) {
            Some(p) => Ok(p),
            None => Err(TRUST),
        }
    }
}

/// The absolute difference of two integers.
pub open spec fn gap(a: int, b: int) -> int {
    if a >= b {
        a - b
    } else {
        b - a
    }
}

/// The Manhattan distance between two points: the sum of the absolute
/// differences of their coordinates.
pub open spec fn manhattan(p: Point, q: Point) -> int {
    gap(p.0 as int, q.0 as int) + gap(p.1 as int, q.1 as int)
}

/// The absolute difference of two coordinates.
pub fn abs_diff(a: u16, b: u16) -> (d: i32)
    ensures
        d == gap(a as int, b as int),
        0 <= d <= 65535,
{
    if a >= b {
        (a - b) as i32
    } else {
        (b - a) as i32
    }
}

/// The Manhattan distance from `p` to the grid position `(x, y)`.
pub fn distance(p: &Point, x: u16, y: u16) -> (d: i32)
    ensures
        d == manhattan(*p, Point(x, y)),
        0 <= d <= 131070,
{
    abs_diff(p.0, x) + abs_diff(p.1, y)
}

/// Whether the point at `i` is nearer to `q` than every other point.
pub open spec fn owns(points: Seq<Point>, i: int, q: Point) -> bool {
    &&& 0 <= i < points.len()
    &&& forall|j: int|
        0 <= j < points.len() && j != i ==> manhattan(points[i], q) < manhattan(
            #[trigger] points[j],
            q,
        )
}

/// The place of the one point that is nearest to the square `(x, y)`, or -1
/// where two or more points are nearest, or where there is no point. At
/// most `i32::MAX` points can be told apart.
pub fn owner(points: &[Point], x: u16, y: u16) -> (place: i32)
    requires
        points@.len() <= i32::MAX,
    ensures
        place >= 0 ==> owns(points@, place as int, Point(x, y)),
        place < 0 ==> place == -1 && forall|i: int| !owns(points@, i, Point(x, y)),
{
    let ghost q = Point(x, y);
    if points.len() == 0 {
        return -1;
    }
    let mut least: usize = 0;
    let mut least_distance: i32 = distance(&points[0], x, y);
    let mut count: usize = 1;
    for i in 1..points.len()
        invariant
            q == Point(x, y),
            points@.len() <= i32::MAX,
            least < i,
            1 <= count <= i,
            least_distance == manhattan(points@[least as int], q),
            forall|k: int| 0 <= k < i ==> least_distance <= manhattan(#[trigger] points@[k], q),
            forall|k: int| 0 <= k < least ==> least_distance < manhattan(#[trigger] points@[k], q),
            count == 1 ==> forall|k: int|
                0 <= k < i && k != least ==> least_distance < manhattan(#[trigger] points@[k], q),
            count > 1 ==> exists|k: int|
                0 <= k < i && k != least && least_distance == manhattan(#[trigger] points@[k], q),
    {
        let d = distance(&points[i], x, y);
        if d < least_distance {
            least = i;
            least_distance = d;
            count = 1;
        } else if d == least_distance {
            count += 1;
        }
    }
    if count == 1 {
        least as i32
    } else {
        proof {
            let k = choose|k: int|
                0 <= k < points@.len() && k != least && least_distance == manhattan(
                    #[trigger] points@[k],
                    q,
                );
            assert forall|i: int| !owns(points@, i, q) by {
                if owns(points@, i, q) {
                    if i == least {
                        assert(manhattan(points@[i], q) < manhattan(points@[k], q));
                    } else {
                        assert(manhattan(points@[i], q) < manhattan(points@[least as int], q));
                    }
                }
            }
        }
        -1
    }
}

/// The character that stands for a square on a printed grid: a letter that
/// tells the owners apart, counting from `a`, or a dot for a square without
/// an owner.
pub open spec fn spec_glyph(place: i32) -> char {
    if place >= 0 {
        (0x61 + place % 256) as char
    } else {
        '.'
    }
}

/// The character that stands for a square on a printed grid. The place of
/// an owner, taken modulo 256, must leave room for a character of one byte.
pub fn glyph(place: i32) -> (c: char)
    requires
        place >= 0 ==> place % 256 <= 0x9e,
    ensures
        c == spec_glyph(place),
{
    if place >= 0 {
        let low: u8 = (place % 256) as u8;
        let code: u8 = 0x61 + low;
        code as char
    } else {
        '.'
    }
}

} // verus!
