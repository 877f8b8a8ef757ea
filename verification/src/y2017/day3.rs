//! Spiral Memory: squares of a grid numbered along a spiral that starts at
//! the centre and winds outward.
use crate::numeral::{numeral, write_numeral};
use std::collections::HashMap;
use vstd::prelude::*;
use vstd::string::*;

verus! {

/// A move in 2 dimensions
#[derive(Copy, Clone, Debug, Eq, PartialEq, Hash, Structural)]
pub struct Move {
    pub x: i32,
    pub y: i32,
}

/// Move right
pub open spec fn spec_right() -> Move {
    Move { x: 1, y: 0 }
}

/// Move left
pub open spec fn spec_left() -> Move {
    Move { x: -1i32, y: 0 }
}

/// Move up
pub open spec fn spec_up() -> Move {
    Move { x: 0, y: 1 }
}

/// Move down
pub open spec fn spec_down() -> Move {
    Move { x: 0, y: -1i32 }
}

/// Move right
#[verifier::when_used_as_spec(spec_right)]
pub fn right() -> (m: Move)
    ensures
        m == spec_right(),
{
    Move { x: 1, y: 0 }
}

/// Move left
#[verifier::when_used_as_spec(spec_left)]
pub fn left() -> (m: Move)
    ensures
        m == spec_left(),
{
    Move { x: -1, y: 0 }
}

/// Move up
#[verifier::when_used_as_spec(spec_up)]
pub fn up() -> (m: Move)
    ensures
        m == spec_up(),
{
    Move { x: 0, y: 1 }
}

/// Move down
#[verifier::when_used_as_spec(spec_down)]
pub fn down() -> (m: Move)
    ensures
        m == spec_down(),
{
    Move { x: 0, y: -1 }
}

/// The absolute value of an integer.
pub open spec fn magnitude(v: int) -> int {
    if v >= 0 {
        v
    } else {
        -v
    }
}

impl Default for Move {
    /// The move that goes nowhere.
    fn default() -> (m: Move)
        ensures
            m == (Move { x: 0, y: 0 }),
    {
        Move { x: 0, y: 0 }
    }
}

/// How a move along one axis is written: nothing for no move, else the
/// number of squares, unless it is one, and the letter of the direction.
pub open spec fn axis_label(v: int, forward: char, backward: char) -> Seq<char> {
    if v == 0 {
        Seq::empty()
    } else {
        let count = if magnitude(v) != 1 {
            numeral(magnitude(v) as nat)
        } else {
            Seq::empty()
        };
        count.push(
            if v > 0 {
                forward
            } else {
                backward
            },
        )
    }
}

/// Writes a move along one axis behind what `out` holds.
fn write_axis(out: &mut String, v: i32, forward: &str, backward: &str)
    requires
        v > i32::MIN,
        forward@.len() == 1,
        backward@.len() == 1,
    ensures
        final(out)@ == old(out)@ + axis_label(v as int, forward@[0], backward@[0]),
{
    let size: u32 = if v >= 0 {
        v as u32
    } else {
        (-v) as u32
    };
    if size != 0 {
        if size != 1 {
            write_numeral(out, size);
        }
        let ghost counted = out@;
        if v > 0 {
            out.append(forward);
            assert(forward@ =~= seq![forward@[0]]);
        } else {
            out.append(backward);
            assert(backward@ =~= seq![backward@[0]]);
        }
        assert(out@ =~= old(out)@ + axis_label(v as int, forward@[0], backward@[0]));
    } else {
        assert(out@ =~= old(out)@ + axis_label(v as int, forward@[0], backward@[0]));
    }
}

impl Move {
    /// How the move is written: the move along x with `R` or `L`, then the
    /// move along y with `U` or `D`.
    pub open spec fn spec_label(self) -> Seq<char> {
        axis_label(self.x as int, 'R', 'L') + axis_label(self.y as int, 'U', 'D')
    }

    /// Writes the move out, as in `3R2U`, `L` or `5D`.
    pub fn label(&self) -> (text: String)
        requires
            self.x > i32::MIN,
            self.y > i32::MIN,
        ensures
            text@ == self.spec_label(),
    {
        proof {
            reveal_strlit("R");
            reveal_strlit("L");
            reveal_strlit("U");
            reveal_strlit("D");
        }
        let mut text = String::new();
        write_axis(&mut text, self.x, "R", "L");
        write_axis(&mut text, self.y, "U", "D");
        assert(text@ =~= self.spec_label());
        text
    }

    /// The sum of the absolute values of the two coordinates.
    pub open spec fn spec_manhattan_distance(self) -> int {
        magnitude(self.x as int) + magnitude(self.y as int)
    }

    /// Add two moves to get aggregate move
    pub fn add(self, rhs: Move) -> (sum: Move)
        requires
            i32::MIN <= self.x + rhs.x <= i32::MAX,
            i32::MIN <= self.y + rhs.y <= i32::MAX,
        ensures
            sum.x == self.x + rhs.x,
            sum.y == self.y + rhs.y,
    {
        Move { x: self.x + rhs.x, y: self.y + rhs.y }
    }

    /// [Manhattan Distance](https://en.wikipedia.org/wiki/Taxicab_geometry)
    /// of the move from where it starts.
    pub fn manhattan_distance(self) -> (d: i32)
        requires
            self.spec_manhattan_distance() <= i32::MAX,
        ensures
            d == self.spec_manhattan_distance(),
    {
        let x: i32 = if self.x >= 0 {
            self.x
        } else {
            -self.x
        };
        let y: i32 = if self.y >= 0 {
            self.y
        } else {
            -self.y
        };
        x + y
    }
}

/// The number of moves in run `j` of the spiral. The spiral goes in runs of
/// moves in one direction: one to the right, one up, two to the left, two
/// down, three to the right, and so on.
pub open spec fn run_length(j: nat) -> nat {
    j / 2 + 1
}

/// The direction of run `j`: right, up, left, down, and so on in turn.
pub open spec fn run_heading(j: nat) -> Move {
    if j % 4 == 0 {
        right()
    } else if j % 4 == 1 {
        up()
    } else if j % 4 == 2 {
        left()
    } else {
        down()
    }
}

/// The move that is `n` moves after the start of run `j`.
pub open spec fn heading(n: nat, j: nat) -> Move
    decreases n,
{
    if n < run_length(j) {
        run_heading(j)
    } else {
        heading((n - run_length(j)) as nat, j + 1)
    }
}

/// Move number `n` of the spiral, counting from zero.
pub open spec fn step(n: nat) -> Move {
    heading(n, 0)
}

/// The number of moves before run `j`.
pub open spec fn run_start(j: nat) -> nat
    decreases j,
{
    if j == 0 {
        0
    } else {
        run_start((j - 1) as nat) + run_length((j - 1) as nat)
    }
}

/// Where the spiral is after `n` moves, as coordinates from the centre.
pub open spec fn position(n: nat) -> (int, int)
    decreases n,
{
    if n == 0 {
        (0, 0)
    } else {
        let before = position((n - 1) as nat);
        let m = step((n - 1) as nat);
        (before.0 + m.x, before.1 + m.y)
    }
}

/// The moves of run `j` all go in its direction.
pub proof fn lemma_step_in_run(n: nat, j: nat)
    requires
        run_start(j) <= n < run_start(j + 1),
    ensures
        step(n) == run_heading(j),
{
    lemma_heading_from(n, j);
    assert(run_start(j + 1) == run_start(j) + run_length(j));
}

/// The move `n` is the move that is `n - run_start(j)` moves after the start
/// of run `j`.
proof fn lemma_heading_from(n: nat, j: nat)
    requires
        run_start(j) <= n,
    ensures
        heading(n, 0) == heading((n - run_start(j)) as nat, j),
    decreases j,
{
    if j > 0 {
        let i = (j - 1) as nat;
        lemma_heading_from(n, i);
        assert(run_start(j) == run_start(i) + run_length(i));
        let from_i = (n - run_start(i)) as nat;
        assert(from_i >= run_length(i));
        assert(heading(from_i, i) == heading((from_i - run_length(i)) as nat, i + 1));
    }
}

/// Where the runs of ring `c` start: its first run after `c * (c - 1)`
/// moves, its second after `c * c`, and the next ring after `c * (c + 1)`.
pub proof fn lemma_ring_start(c: nat)
    requires
        c >= 1,
    ensures
        run_start((2 * c - 2) as nat) == c * (c - 1),
        run_start((2 * c - 1) as nat) == c * c,
        run_start(2 * c) == c * (c + 1),
    decreases c,
{
    let a = (2 * c - 2) as nat;
    let b = (2 * c - 1) as nat;
    if c == 1 {
        assert(run_start(0) == 0);
        assert(c * (c - 1) == 0) by (nonlinear_arith)
            requires
                c == 1,
        ;
    } else {
        let d = (c - 1) as nat;
        lemma_ring_start(d);
        assert(2 * d == a);
        assert(d * (d + 1) == c * (c - 1)) by (nonlinear_arith)
            requires
                d + 1 == c,
        ;
    }
    assert(run_start(a) == c * (c - 1));
    assert(run_start(b) == run_start(a) + run_length(a));
    assert(run_length(a) == c);
    assert(run_start(2 * c) == run_start(b) + run_length(b));
    assert(run_length(b) == c);
    assert(c * (c - 1) + c == c * c) by (nonlinear_arith);
    assert(c * c + c == c * (c + 1)) by (nonlinear_arith);
}

/// Every move goes one square along one axis.
pub proof fn lemma_unit_step(n: nat, j: nat)
    ensures
        magnitude(heading(n, j).x as int) + magnitude(heading(n, j).y as int) == 1,
    decreases n,
{
    if n >= run_length(j) {
        lemma_unit_step((n - run_length(j)) as nat, j + 1);
    }
}

/// After `n` moves the spiral is at most `n` squares from the centre.
pub proof fn lemma_position_bound(n: nat)
    ensures
        magnitude(position(n).0) + magnitude(position(n).1) <= n,
    decreases n,
{
    if n > 0 {
        lemma_position_bound((n - 1) as nat);
        lemma_unit_step((n - 1) as nat, 0);
    }
}

/// State for spiral iterator
#[derive(Debug)]
pub struct Spiral {
    current: usize,
    repeat: usize,
    offset: usize,
}

impl Spiral {
    /// The number of moves that the spiral has made.
    pub closed spec fn made(self) -> nat {
        (self.current * self.current + self.current - self.repeat) as nat
    }

    /// The number of the ring that the spiral is in: each ring is a run
    /// along x and a run along y of the same length.
    pub closed spec fn ring(self) -> nat {
        self.current as nat
    }

    /// The spiral has made at least as many moves as the number of its
    /// ring, and all the moves of the rings before.
    pub proof fn lemma_ring(self)
        requires
            self.well_formed(),
        ensures
            self.ring() <= self.made(),
            self.ring() >= 1 ==> run_start((2 * self.ring() - 2) as nat) < self.made(),
    {
        let c = self.current as int;
        let r = self.repeat as int;
        Self::lemma_made(c, r);
        if c >= 1 {
            lemma_ring_start(c as nat);
            assert(c * (c - 1) == c * c - c) by (nonlinear_arith);
        }
    }

    /// The invariant of the state: in ring `current` there are `repeat`
    /// moves left, and `offset` is the direction of the move made last.
    #[verifier::type_invariant]
    pub closed spec fn well_formed(self) -> bool {
        &&& self.repeat <= 2 * self.current
        &&& self.current > 0 ==> self.repeat < 2 * self.current
        &&& self.offset == if self.current > 0 && self.repeat >= self.current {
            (2 * self.current - 1) % 4
        } else {
            (2 * self.current) % 4
        }
    }

    /// The number of moves made is no negative number, and no smaller than
    /// the number of the ring.
    proof fn lemma_made(c: int, r: int)
        requires
            0 <= r <= 2 * c,
            c > 0 ==> r < 2 * c,
        ensures
            c <= c * c + c - r,
            0 <= c * c + c - r,
    {
        assert(c <= c * c + c - r) by (nonlinear_arith)
            requires
                0 <= r <= 2 * c,
                c > 0 ==> r < 2 * c,
        ;
    }

    /// The spiral before its first move.
    pub fn new() -> (s: Spiral)
        ensures
            s.made() == 0,
    {
        Spiral { current: 0, repeat: 0, offset: 0 }
    }

    /// Advance the move sequence offset
    fn advance_offset(offset: usize) -> (next: usize)
        requires
            offset < 4,
        ensures
            next == (offset + 1) % 4,
    {
        (offset + 1) % 4
    }

    /// The direction that stands at `offset` in the sequence of directions.
    fn direction(offset: usize) -> (m: Move)
        requires
            offset < 4,
        ensures
            m == run_heading(((offset + 3) % 4) as nat),
    {
        if offset == 0 {
            down()
        } else if offset == 1 {
            right()
        } else if offset == 2 {
            up()
        } else {
            left()
        }
    }

    /// Makes the next move of the spiral and returns it. Twice the number of
    /// the ring must fit a machine word.
    pub fn next(&mut self) -> (m: Option<Move>)
        requires
            old(self).ring() < usize::MAX / 2,
        ensures
            m == Some(step(old(self).made())),
            final(self).made() == old(self).made() + 1,
    {
        proof {
            use_type_invariant(&*self);
        }
        let mut current = self.current;
        let mut repeat = self.repeat;
        let mut offset = self.offset;
        let ghost n = self.made();
        proof {
            Self::lemma_made(current as int, repeat as int);
        }
        // If we've repeated the required number of times
        if repeat == 0 {
            // Reset and advance
            current += 1;
            repeat = current * 2;
            offset = Self::advance_offset(offset);
            proof {
                lemma_ring_start(current as nat);
                assert(n == (current - 1) * (current - 1) + (current - 1));
                assert(n == current * (current - 1)) by (nonlinear_arith)
                    requires
                        n == (current - 1) * (current - 1) + (current - 1),
                ;
                assert(current * current + current - (repeat - 1) == n + 1) by (nonlinear_arith)
                    requires
                        n == current * (current - 1),
                        repeat == 2 * current,
                ;
                lemma_step_in_run(n, (2 * current - 2) as nat);
            }
        } else if repeat == current {
            // If we've halfway through the repetitions
            offset = Self::advance_offset(offset);
            proof {
                lemma_ring_start(current as nat);
                lemma_step_in_run(n, (2 * current - 1) as nat);
            }
        } else {
            proof {
                lemma_ring_start(current as nat);
                if repeat > current {
                    assert(current * (current - 1) == current * current - current)
                        by (nonlinear_arith);
                    lemma_step_in_run(n, (2 * current - 2) as nat);
                } else {
                    assert(current * (current + 1) == current * current + current)
                        by (nonlinear_arith);
                    lemma_step_in_run(n, (2 * current - 1) as nat);
                }
            }
        }
        // Track repeats
        repeat -= 1;
        let m = Self::direction(offset);
        proof {
            Self::lemma_made(current as int, repeat as int);
        }
        *self = Spiral { current, repeat, offset };
        // Return current move
        Some(m)
    }
}

/// The spiral of moves in the grid, before its first move.
pub fn spiral() -> (s: Spiral)
    ensures
        s.made() == 0,
{
    Spiral::new()
}

/// How many steps are required to carry the data from the square numbered
/// `input` to the centre, where the squares are numbered from 1 along the
/// spiral: the Manhattan distance of the square from the centre.
pub fn part1(input: usize) -> (steps: i32)
    requires
        1 <= input <= i32::MAX,
    ensures
        steps == magnitude(position((input - 1) as nat).0) + magnitude(
            position((input - 1) as nat).1,
        ),
{
    let mut moves = spiral();
    let mut at = Move::default();
    for i in 0..(input - 1)
        invariant
            1 <= input <= i32::MAX,
            moves.made() == i,
            at.x == position(i as nat).0,
            at.y == position(i as nat).1,
    {
        proof {
            lemma_position_bound(i as nat + 1);
            use_type_invariant(&moves);
            moves.lemma_ring();
        }
        let m = moves.next();
        at = at.add(m.unwrap());
    }
    proof {
        lemma_position_bound((input - 1) as nat);
    }
    at.manhattan_distance()
}

/// The moves of a run lead straight on from where the run starts.
pub proof fn lemma_position_in_run(j: nat, t: nat)
    requires
        t <= run_length(j),
    ensures
        position(run_start(j) + t).0 == position(run_start(j)).0 + t * run_heading(j).x,
        position(run_start(j) + t).1 == position(run_start(j)).1 + t * run_heading(j).y,
    decreases t,
{
    if t > 0 {
        let before = (t - 1) as nat;
        lemma_position_in_run(j, before);
        assert(run_start(j + 1) == run_start(j) + run_length(j));
        lemma_step_in_run(run_start(j) + before, j);
        let h = run_heading(j);
        assert(before * h.x + h.x == t * h.x) by (nonlinear_arith)
            requires
                before + 1 == t,
        ;
        assert(before * h.y + h.y == t * h.y) by (nonlinear_arith)
            requires
                before + 1 == t,
        ;
    }
}

/// Where run `j` starts: the corners of the spiral lie on the diagonals.
pub open spec fn corner(j: nat) -> (int, int) {
    let k = (j / 4) as int;
    if j % 4 == 0 {
        (-k, -k)
    } else if j % 4 == 1 {
        (k + 1, -k)
    } else if j % 4 == 2 {
        (k + 1, k + 1)
    } else {
        (-k - 1, k + 1)
    }
}

/// Every run starts at its corner.
pub proof fn lemma_corner(j: nat)
    ensures
        position(run_start(j)) == corner(j),
    decreases j,
{
    if j > 0 {
        let i = (j - 1) as nat;
        lemma_corner(i);
        lemma_position_in_run(i, run_length(i));
        assert(run_start(j) == run_start(i) + run_length(i));
        let h = run_heading(i);
        let len = run_length(i);
        assert(len * 1 == len && len * 0 == 0 && len * (-1) == -len) by (nonlinear_arith);
    }
}

/// Up to the start of run `j` the spiral stays within `j / 4 + 1` squares of
/// the centre along either axis.
pub proof fn lemma_reach(n: nat, j: nat)
    requires
        n <= run_start(j),
    ensures
        magnitude(position(n).0) <= j / 4 + 1,
        magnitude(position(n).1) <= j / 4 + 1,
    decreases j,
{
    if j > 0 {
        let i = (j - 1) as nat;
        assert(run_start(j) == run_start(i) + run_length(i));
        if n <= run_start(i) {
            lemma_reach(n, i);
        } else {
            let t = (n - run_start(i)) as nat;
            lemma_corner(i);
            lemma_position_in_run(i, t);
            let h = run_heading(i);
            assert(t * 1 == t && t * 0 == 0 && t * (-1) == -t) by (nonlinear_arith);
        }
    }
}

/// Later runs start later.
pub proof fn lemma_run_start_grows(i: nat, j: nat)
    requires
        i <= j,
    ensures
        run_start(i) + (j - i) <= run_start(j),
    decreases j - i,
{
    if i < j {
        lemma_run_start_grows(i, (j - 1) as nat);
    }
}

/// What a square of the grid holds; an empty square counts as zero.
pub open spec fn value_at(grid: Map<(int, int), nat>, q: (int, int)) -> nat {
    if grid.contains_key(q) {
        grid[q]
    } else {
        0
    }
}

/// The sum of what the eight squares around `p` hold.
pub open spec fn around(grid: Map<(int, int), nat>, p: (int, int)) -> nat {
    value_at(grid, (p.0 + 1, p.1)) + value_at(grid, (p.0 - 1, p.1)) + value_at(
        grid,
        (p.0, p.1 + 1),
    ) + value_at(grid, (p.0, p.1 - 1)) + value_at(grid, (p.0 + 1, p.1 + 1)) + value_at(
        grid,
        (p.0 + 1, p.1 - 1),
    ) + value_at(grid, (p.0 - 1, p.1 - 1)) + value_at(grid, (p.0 - 1, p.1 + 1))
}

/// The grid after `n` moves: the centre holds 1, and each square that the
/// spiral comes to is given the sum of what the squares around it hold.
pub open spec fn stored(n: nat) -> Map<(int, int), nat>
    decreases n,
{
    if n == 0 {
        Map::empty().insert((0int, 0int), 1nat)
    } else {
        let before = stored((n - 1) as nat);
        before.insert(position(n), around(before, position(n)))
    }
}

/// The value written into the square that the spiral comes to with move
/// `n`; the centre holds 1 from the start.
pub open spec fn written(n: nat) -> nat {
    stored(n)[position(n)]
}

/// The grid holds the squares that the spiral has come to, none of them
/// with less than 1 or with more than was written last; and what is written
/// is no less than what was written before.
pub proof fn lemma_stored(n: nat)
    ensures
        forall|j: nat| j <= n ==> stored(n).contains_key(#[trigger] position(j)),
        forall|q: (int, int)| #[trigger]
            stored(n).contains_key(q) ==> 1 <= stored(n)[q] <= written(n),
        n > 0 ==> written((n - 1) as nat) <= written(n),
    decreases n,
{
    if n > 0 {
        let m = (n - 1) as nat;
        lemma_stored(m);
        lemma_unit_step(m, 0);
        let before = stored(m);
        let p = position(n);
        let q = position(m);
        assert(before.contains_key(q));
        assert(value_at(before, q) == written(m));
        assert(q == (p.0 - step(m).x, p.1 - step(m).y));
        assert(around(before, p) >= written(m));
        assert forall|j: nat| j <= n implies stored(n).contains_key(#[trigger] position(j)) by {
            if j < n {
                assert(before.contains_key(position(j)));
            }
        }
    } else {
        assert(position(0) == (0int, 0int));
        assert forall|j: nat| j <= n implies stored(n).contains_key(#[trigger] position(j)) by {
            assert(j == 0);
        }
    }
}

/// What is written never falls.
pub proof fn lemma_written_grows(m: nat, n: nat)
    requires
        m <= n,
    ensures
        1 <= written(m) <= written(n),
    decreases n - m,
{
    lemma_stored(m);
    if m < n {
        lemma_written_grows(m, (n - 1) as nat);
        lemma_stored(n);
    }
}

/// With the first move of a run the spiral has turned, and what is written
/// there is more than what was written before.
pub proof fn lemma_turn(j: nat)
    requires
        j >= 1,
    ensures
        written(run_start(j) + 1) > written(run_start(j)),
{
    let n = run_start(j) + 1;
    let m = run_start(j);
    let i = (j - 1) as nat;
    assert(run_start(j) == run_start(i) + run_length(i));
    assert(run_start(j + 1) == run_start(j) + run_length(j));
    let l = (m - 1) as nat;
    lemma_step_in_run(m, j);
    lemma_step_in_run(l, i);
    lemma_stored(m);
    let before = stored(m);
    let p = position(n);
    let q = position(m);
    let r = position(l);
    assert(before.contains_key(q));
    assert(before.contains_key(r));
    assert(value_at(before, q) == written(m));
    assert(value_at(before, r) >= 1);
    assert(q == (p.0 - run_heading(j).x, p.1 - run_heading(j).y));
    assert(r == (q.0 - run_heading(i).x, q.1 - run_heading(i).y));
    assert(around(before, p) >= written(m) + 1);
}

/// With the first move of run `j` a value above `j` is written.
pub proof fn lemma_written_at_turn(j: nat)
    ensures
        written(run_start(j) + 1) > j,
    decreases j,
{
    if j == 0 {
        lemma_written_grows(0, 1);
    } else {
        let i = (j - 1) as nat;
        lemma_written_at_turn(i);
        lemma_turn(j);
        lemma_run_start_grows(i, j);
        lemma_written_grows(run_start(i) + 1, run_start(j));
    }
}

/// Whether move `n` is the first to write a value above `input`.
pub open spec fn first_above(input: nat, n: nat) -> bool {
    &&& n >= 1
    &&& written(n) > input
    &&& forall|j: nat| 1 <= j < n ==> #[trigger] written(j) <= input
}

/// The key under which the square `(x, y)` is kept.
pub open spec fn cell_key(x: i64, y: i64) -> i128 {
    (x * 0x1_0000_0000_0000_0000 + (y + 0x8000_0000_0000_0000)) as i128
}

/// The key under which the square `(x, y)` is kept.
fn key_of(x: i64, y: i64) -> (k: i128)
    ensures
        k == cell_key(x, y),
{
    (x as i128) * 0x1_0000_0000_0000_0000 + ((y as i128) + 0x8000_0000_0000_0000)
}

/// Different squares have different keys.
pub proof fn lemma_key_differs(x: i64, y: i64, a: i64, b: i64)
    ensures
        cell_key(x, y) == cell_key(a, b) <==> x == a && y == b,
{
    if x != a {
        assert(x * 0x1_0000_0000_0000_0000 + (y + 0x8000_0000_0000_0000) != a
            * 0x1_0000_0000_0000_0000 + (b + 0x8000_0000_0000_0000));
    }
}

/// Whether the map holds under the key of each square what the grid holds
/// in that square.
pub open spec fn mirrors(kept: Map<i128, usize>, grid: Map<(int, int), nat>) -> bool {
    forall|x: i64, y: i64|
        (#[trigger] kept.contains_key(cell_key(x, y))) == grid.contains_key((x as int, y as int))
            && (grid.contains_key((x as int, y as int)) ==> kept[cell_key(x, y)] == grid[(
                x as int,
                y as int,
            )])
}

/// What the square `(x, y)` holds; an empty square counts as zero.
fn lookup(
    kept: &HashMap<i128, usize>,
    x: i64,
    y: i64,
    Ghost(grid): Ghost<Map<(int, int), nat>>,
    Ghost(bound): Ghost<usize>,
) -> (v: usize)
    requires
        mirrors(kept@, grid),
        forall|k: i128| #[trigger] kept@.contains_key(k) ==> kept@[k] <= bound,
    ensures
        v == value_at(grid, (x as int, y as int)),
        v <= bound,
{
    broadcast use vstd::std_specs::hash::group_hash_axioms;

    let k = key_of(x, y);
    assert(kept@.contains_key(cell_key(x, y)) == grid.contains_key((x as int, y as int)));
    match kept.get(&k) {
        Some(v) => *v,
        None => 0,
    }
}

/// In the same allocation order as the spiral, each square stores the sum
/// of the values in all adjacent squares, including diagonals; the centre
/// stores 1. The result is the first value written that is larger than the
/// input. Eight values as large as the input must add up within a machine
/// word.
pub fn part2(input: usize) -> (value: usize)
    requires
        input <= usize::MAX / 8,
    ensures
        exists|n: nat| #[trigger] first_above(input as nat, n) && value == written(n),
{
    broadcast use vstd::std_specs::hash::group_hash_axioms;

    let ghost limit = run_start(input as nat) + 1;
    let bound: usize = if input == 0 {
        1
    } else {
        input
    };
    // Keep a record of all the slots we've filled so far
    let mut moves = spiral();
    let mut x: i64 = 0;
    let mut y: i64 = 0;
    let mut kept: HashMap<i128, usize> = HashMap::new();
    kept.insert(key_of(x, y), 1);
    let ghost mut n: nat = 0;
    proof {
        lemma_written_at_turn(input as nat);
        lemma_run_start_grows(input as nat, 2 * (input as nat + 1));
        assert forall|a: i64, b: i64|
            (#[trigger] kept@.contains_key(cell_key(a, b))) == stored(0).contains_key(
                (a as int, b as int),
            ) && (stored(0).contains_key((a as int, b as int)) ==> kept@[cell_key(a, b)]
                == stored(0)[(a as int, b as int)]) by {
            lemma_key_differs(a, b, 0, 0);
        }
    }
    loop
        invariant
            input <= usize::MAX / 8,
            input <= bound <= usize::MAX / 8,
            1 <= bound,
            limit == run_start(input as nat) + 1,
            limit <= run_start(2 * (input as nat + 1)),
            written(limit) > input,
            moves.made() == n,
            n < limit,
            x == position(n).0,
            y == position(n).1,
            mirrors(kept@, stored(n)),
            forall|k: i128| #[trigger] kept@.contains_key(k) ==> kept@[k] <= bound,
            forall|j: nat| 1 <= j <= n ==> #[trigger] written(j) <= input,
        decreases limit - n,
    {
        let ghost grid = stored(n);
        let ghost next = n + 1;
        proof {
            use_type_invariant(&moves);
            moves.lemma_ring();
            if moves.ring() > input + 1 {
                lemma_run_start_grows(2 * (input as nat + 1), (2 * moves.ring() - 2) as nat);
            }
            lemma_reach(next, 2 * (input as nat + 1));
        }
        // Make the next move
        let m = moves.next().unwrap();
        x = x + m.x as i64;
        y = y + m.y as i64;
        // Compute its value based its neighbors we have values for
        let value = lookup(&kept, x + 1, y, Ghost(grid), Ghost(bound)) + lookup(
            &kept,
            x - 1,
            y,
            Ghost(grid),
            Ghost(bound),
        ) + lookup(&kept, x, y + 1, Ghost(grid), Ghost(bound)) + lookup(
            &kept,
            x,
            y - 1,
            Ghost(grid),
            Ghost(bound),
        ) + lookup(&kept, x + 1, y + 1, Ghost(grid), Ghost(bound)) + lookup(
            &kept,
            x + 1,
            y - 1,
            Ghost(grid),
            Ghost(bound),
        ) + lookup(&kept, x - 1, y - 1, Ghost(grid), Ghost(bound)) + lookup(
            &kept,
            x - 1,
            y + 1,
            Ghost(grid),
            Ghost(bound),
        );
        assert(value == around(grid, position(next)));
        // Fill this position in the grid
        kept.insert(key_of(x, y), value);
        proof {
            assert(stored(next) == grid.insert(position(next), value as nat));
            assert forall|a: i64, b: i64|
                (#[trigger] kept@.contains_key(cell_key(a, b))) == stored(next).contains_key(
                    (a as int, b as int),
                ) && (stored(next).contains_key((a as int, b as int)) ==> kept@[cell_key(a, b)]
                    == stored(next)[(a as int, b as int)]) by {
                lemma_key_differs(a, b, x, y);
            }
            assert(written(next) == value);
        }
        if value > input {
            assert(first_above(input as nat, next));
            return value;
        }
        proof {
            n = next;
        }
    }
}

} // verus!
