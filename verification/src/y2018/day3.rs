//! No Matter How You Slice It: rectangular claims on a fabric, and the
//! squares that more than one claim covers.
use crate::parse::reader;
use crate::text::{chars_of, cut, spans_fit, split, split_spans, Separator};
use crate::{content_lines, line_spans, parse_spans};
use vstd::prelude::*;
use vstd::slice::slice_subrange;

verus! {

/// A single claim
pub struct Claim {
    /// The identifier
    id: usize,
    /// The x coordinate of the origin
    x: usize,
    /// The y coordinate of the origin
    y: usize,
    /// The length of the claim
    l: usize,
    /// The height of the claim
    h: usize,
}

impl Claim {
    /// The identifier.
    pub closed spec fn id(self) -> usize {
        self.id
    }

    /// The x coordinate of the origin.
    pub closed spec fn x(self) -> usize {
        self.x
    }

    /// The y coordinate of the origin.
    pub closed spec fn y(self) -> usize {
        self.y
    }

    /// The length of the claim, along x.
    pub closed spec fn l(self) -> usize {
        self.l
    }

    /// The height of the claim, along y.
    pub closed spec fn h(self) -> usize {
        self.h
    }

    /// The claim with the given identifier, origin and size.
    pub closed spec fn of(numbers: Seq<usize>) -> Claim {
        Claim { id: numbers[0], x: numbers[1], y: numbers[2], l: numbers[3], h: numbers[4] }
    }

    /// A claim is its five numbers.
    pub broadcast proof fn lemma_of(numbers: Seq<usize>)
        ensures
            (#[trigger] Claim::of(numbers)).id() == numbers[0],
            Claim::of(numbers).x() == numbers[1],
            Claim::of(numbers).y() == numbers[2],
            Claim::of(numbers).l() == numbers[3],
            Claim::of(numbers).h() == numbers[4],
    {
    }

    /// Whether the claim covers the square `(x, y)`.
    pub open spec fn covers(self, x: int, y: int) -> bool {
        self.x() <= x < self.x() + self.l() && self.y() <= y < self.y() + self.h()
    }

    /// Whether the far corner of the claim has coordinates that fit a
    /// machine word.
    pub open spec fn fits(self) -> bool {
        self.x() + self.l() <= usize::MAX && self.y() + self.h() <= usize::MAX
    }
}

/// The characters that separate the numbers of a claim.
pub open spec fn claim_marks() -> Set<char> {
    set!['#', '@', ',', ':', 'x', ' ']
}

/// The numbers that a line writes between the marks of a claim.
pub open spec fn numbers_of(line: Seq<char>) -> Seq<usize> {
    split(line, claim_marks()).filter_map(reader::<usize>())
}

/// The claim that a line writes.
pub open spec fn claim_of() -> spec_fn(Seq<char>) -> Claim {
    |line: Seq<char>| Claim::of(numbers_of(line))
}

/// Reads a claim from a line of characters.
pub fn claim_from(line: &[char]) -> (claim: Claim)
    requires
        numbers_of(line@).len() == 5,
    ensures
        claim == Claim::of(numbers_of(line@)),
{
    let marks: Vec<char> = vec!['#', '@', ',', ':', 'x', ' '];
    let separator = Separator::AnyOf(marks.as_slice());
    assert(separator.marks() =~= claim_marks()) by {
        assert(marks@[0] == '#' && marks@[1] == '@' && marks@[2] == ',' && marks@[3] == ':'
            && marks@[4] == 'x' && marks@[5] == ' ');
    }
    let pieces = split_spans(line, &separator);
    let num: Vec<usize> = parse_spans(line, pieces.as_slice());
    Claim { id: num[0], x: num[1], y: num[2], l: num[3], h: num[4] }
}

/// Read a single claim from the form `#1 @ 1,3: 4x4`: an identifier, the
/// origin and the size. The line must write exactly five numbers.
pub fn read_claim(input: &str) -> (claim: Claim)
    requires
        numbers_of(input@).len() == 5,
    ensures
        claim == Claim::of(numbers_of(input@)),
{
    let text = chars_of(input);
    claim_from(text.as_slice())
}

/// The number of the first `n` claims that cover the square `(x, y)`.
pub open spec fn covering(claims: Seq<Claim>, n: int, x: int, y: int) -> nat
    decreases n,
{
    if n <= 0 {
        0
    } else {
        covering(claims, n - 1, x, y) + if claims[n - 1].covers(x, y) {
            1nat
        } else {
            0nat
        }
    }
}

/// The width that the claims need: the largest x coordinate beyond a claim.
pub open spec fn width(claims: Seq<Claim>, n: int) -> int
    decreases n,
{
    if n <= 0 {
        0
    } else if claims[n - 1].x() + claims[n - 1].l() >= width(claims, n - 1) {
        claims[n - 1].x() + claims[n - 1].l()
    } else {
        width(claims, n - 1)
    }
}

/// The height that the claims need: the largest y coordinate beyond a claim.
pub open spec fn height(claims: Seq<Claim>, n: int) -> int
    decreases n,
{
    if n <= 0 {
        0
    } else if claims[n - 1].y() + claims[n - 1].h() >= height(claims, n - 1) {
        claims[n - 1].y() + claims[n - 1].h()
    } else {
        height(claims, n - 1)
    }
}

/// More claims never cover a square less often.
pub proof fn lemma_covering_grows(claims: Seq<Claim>, m: int, n: int, x: int, y: int)
    requires
        m <= n,
    ensures
        covering(claims, m, x, y) <= covering(claims, n, x, y),
    decreases n - m,
{
    if m < n {
        lemma_covering_grows(claims, m, n - 1, x, y);
    }
}

/// Every claim lies within the width and the height that the claims need.
pub proof fn lemma_extent(claims: Seq<Claim>, n: int, i: int)
    requires
        0 <= i < n,
    ensures
        claims[i].x() + claims[i].l() <= width(claims, n),
        claims[i].y() + claims[i].h() <= height(claims, n),
        0 <= width(claims, n),
        0 <= height(claims, n),
    decreases n,
{
    if i < n - 1 {
        lemma_extent(claims, n - 1, i);
    } else if n > 1 {
        lemma_extent(claims, n - 1, 0);
    }
}

/// The number of the first `n` squares of a column that more than one claim
/// covers.
pub open spec fn crowded_in(column: Seq<u8>, n: int) -> nat
    decreases n,
{
    if n <= 0 {
        0
    } else {
        crowded_in(column, n - 1) + if column[n - 1] > 1 {
            1nat
        } else {
            0nat
        }
    }
}

/// The number of squares in the first `n` columns that more than one claim
/// covers.
pub open spec fn crowded(grid: Seq<Vec<u8>>, n: int) -> nat
    decreases n,
{
    if n <= 0 {
        0
    } else {
        crowded(grid, n - 1) + crowded_in(grid[n - 1]@, grid[n - 1]@.len() as int)
    }
}

/// The first `n` squares of a column hold at most `n` crowded ones.
pub proof fn lemma_crowded_in_bound(column: Seq<u8>, n: int)
    requires
        0 <= n,
    ensures
        crowded_in(column, n) <= n,
    decreases n,
{
    if n > 0 {
        lemma_crowded_in_bound(column, n - 1);
    }
}

/// The first `n` columns of height `h` hold at most `n * h` crowded squares.
pub proof fn lemma_crowded_bound(grid: Seq<Vec<u8>>, n: int, h: int)
    requires
        0 <= n <= grid.len(),
        forall|x: int| 0 <= x < grid.len() ==> (#[trigger] grid[x])@.len() == h,
    ensures
        crowded(grid, n) <= n * h,
    decreases n,
{
    if n > 0 {
        lemma_crowded_bound(grid, n - 1, h);
        assert(grid[n - 1]@.len() == h);
        lemma_crowded_in_bound(grid[n - 1]@, h);
        assert((n - 1) * h + h == n * h) by (nonlinear_arith);
    } else {
        assert(n * h == 0) by (nonlinear_arith)
            requires
                n == 0,
        ;
    }
}

/// The entire fabric
pub struct Fabric {
    /// The claims
    claims: Vec<Claim>,
    /// The overlap tracking grid
    overlaps: Vec<Vec<u8>>,
}

impl Fabric {
    /// The claims, in the order in which they were read.
    pub closed spec fn claims(self) -> Seq<Claim> {
        self.claims@
    }

    /// The grid: one column for each x coordinate, holding for each y
    /// coordinate the number of claims that cover the square.
    pub closed spec fn grid(self) -> Seq<Vec<u8>> {
        self.overlaps@
    }

    /// The invariant of a fabric: the grid is as wide and as high as the
    /// claims need, small enough to be counted, and it holds for each square
    /// the number of claims that cover it.
    #[verifier::type_invariant]
    pub closed spec fn well_formed(self) -> bool {
        let n = self.claims@.len() as int;
        &&& self.overlaps@.len() == width(self.claims@, n)
        &&& forall|x: int|
            0 <= x < self.overlaps@.len() ==> (#[trigger] self.overlaps@[x])@.len() == height(
                self.claims@,
                n,
            )
        &&& width(self.claims@, n) * height(self.claims@, n) <= usize::MAX
        &&& forall|i: int| 0 <= i < n ==> (#[trigger] self.claims@[i]).fits()
        &&& forall|x: int, y: int|
            0 <= x < width(self.claims@, n) && 0 <= y < height(self.claims@, n)
                ==> #[trigger] self.overlaps@[x]@[y] == covering(self.claims@, n, x, y)
    }

    /// What the invariant says of the grid.
    pub proof fn lemma_grid(self)
        requires
            self.well_formed(),
        ensures
            self.grid().len() == width(self.claims(), self.claims().len() as int),
            forall|x: int|
                0 <= x < self.grid().len() ==> (#[trigger] self.grid()[x])@.len() == height(
                    self.claims(),
                    self.claims().len() as int,
                ),
            forall|x: int, y: int|
                0 <= x < width(self.claims(), self.claims().len() as int) && 0 <= y < height(
                    self.claims(),
                    self.claims().len() as int,
                ) ==> #[trigger] self.grid()[x]@[y] == covering(
                    self.claims(),
                    self.claims().len() as int,
                    x,
                    y,
                ),
    {
    }
}

/// Whether a text can be read as a fabric: each of its lines writes exactly
/// five numbers, the claims and the grid they need fit the machine, and no
/// square is covered by more than 255 claims.
pub open spec fn readable(input: Seq<char>) -> bool {
    let lines = content_lines(input);
    let claims = lines.map_values(claim_of());
    let n = claims.len() as int;
    &&& forall|i: int| 0 <= i < lines.len() ==> numbers_of(#[trigger] lines[i]).len() == 5
    &&& forall|i: int| 0 <= i < n ==> (#[trigger] claims[i]).fits()
    &&& width(claims, n) * height(claims, n) <= usize::MAX
    &&& forall|x: int, y: int|
        0 <= x < width(claims, n) && 0 <= y < height(claims, n) ==> #[trigger] covering(
            claims,
            n,
            x,
            y,
        ) <= 255
}

/// A grid of the given width and height that holds zero everywhere.
fn blank(w: usize, h: usize) -> (grid: Vec<Vec<u8>>)
    ensures
        grid@.len() == w,
        forall|x: int| 0 <= x < w ==> (#[trigger] grid@[x])@.len() == h,
        forall|x: int, y: int| 0 <= x < w && 0 <= y < h ==> #[trigger] grid@[x]@[y] == 0,
{
    let mut grid: Vec<Vec<u8>> = Vec::new();
    for x in 0..w
        invariant
            grid@.len() == x,
            forall|a: int| 0 <= a < x ==> (#[trigger] grid@[a])@.len() == h,
            forall|a: int, b: int| 0 <= a < x && 0 <= b < h ==> #[trigger] grid@[a]@[b] == 0,
    {
        let mut column: Vec<u8> = Vec::new();
        for y in 0..h
            invariant
                column@.len() == y,
                forall|b: int| 0 <= b < y ==> column@[b] == 0,
        {
            column.push(0);
        }
        grid.push(column);
    }
    grid
}

/// Whether the square `(cx, cy)` comes before `(x, y)` when the squares are
/// gone through column by column.
pub open spec fn passed(cx: int, cy: int, x: int, y: int) -> bool {
    cx < x || (cx == x && cy < y)
}

/// The count that a square holds while a claim is being added: the number
/// of earlier claims that cover it, and one more once the claim has reached
/// it.
pub open spec fn shade(claims: Seq<Claim>, k: int, reached: bool, x: int, y: int) -> nat {
    covering(claims, k, x, y) + if reached {
        1nat
    } else {
        0nat
    }
}

/// Adds one claim to the grid.
fn mark(
    overlaps: &mut Vec<Vec<u8>>,
    claim: &Claim,
    Ghost(claims): Ghost<Seq<Claim>>,
    Ghost(k): Ghost<int>,
    Ghost(next): Ghost<int>,
    Ghost(w): Ghost<int>,
    Ghost(h): Ghost<int>,
)
    requires
        0 <= k < claims.len(),
        next == k + 1,
        claims[k] == *claim,
        claim.fits(),
        claim.x() + claim.l() <= w,
        claim.y() + claim.h() <= h,
        old(overlaps)@.len() == w,
        forall|x: int| 0 <= x < w ==> (#[trigger] old(overlaps)@[x])@.len() == h,
        forall|x: int, y: int|
            0 <= x < w && 0 <= y < h ==> #[trigger] old(overlaps)@[x]@[y] == covering(
                claims,
                k,
                x,
                y,
            ),
        forall|x: int, y: int|
            0 <= x < w && 0 <= y < h ==> #[trigger] covering(claims, next, x, y) <= 255,
    ensures
        final(overlaps)@.len() == w,
        forall|x: int| 0 <= x < w ==> (#[trigger] final(overlaps)@[x])@.len() == h,
        forall|x: int, y: int|
            0 <= x < w && 0 <= y < h ==> #[trigger] final(overlaps)@[x]@[y] == covering(
                claims,
                next,
                x,
                y,
            ),
{
    let x_end = claim.x + claim.l;
    let y_end = claim.y + claim.h;
    let mut x: usize = claim.x;
    while x < x_end
        invariant
            0 <= k < claims.len(),
            next == k + 1,
            claims[k] == *claim,
            claim.x() <= x <= x_end,
            x_end == claim.x() + claim.l(),
            y_end == claim.y() + claim.h(),
            x_end <= w,
            y_end <= h,
            overlaps@.len() == w,
            forall|a: int| 0 <= a < w ==> (#[trigger] overlaps@[a])@.len() == h,
            forall|a: int, b: int|
                0 <= a < w && 0 <= b < h ==> #[trigger] covering(claims, next, a, b) <= 255,
            forall|a: int, b: int|
                0 <= a < w && 0 <= b < h ==> #[trigger] overlaps@[a]@[b] == shade(
                    claims,
                    k,
                    a < x && claim.covers(a, b),
                    a,
                    b,
                ),
        decreases x_end - x,
    {
        let mut y: usize = claim.y;
        while y < y_end
            invariant
                0 <= k < claims.len(),
                next == k + 1,
                claims[k] == *claim,
                claim.x() <= x < x_end,
                claim.y() <= y <= y_end,
                x_end == claim.x() + claim.l(),
                y_end == claim.y() + claim.h(),
                x_end <= w,
                y_end <= h,
                overlaps@.len() == w,
                forall|a: int| 0 <= a < w ==> (#[trigger] overlaps@[a])@.len() == h,
                forall|a: int, b: int|
                    0 <= a < w && 0 <= b < h ==> #[trigger] covering(claims, next, a, b) <= 255,
                forall|a: int, b: int|
                    0 <= a < w && 0 <= b < h ==> #[trigger] overlaps@[a]@[b] == shade(
                        claims,
                        k,
                        passed(a, b, x as int, y as int) && claim.covers(a, b),
                        a,
                        b,
                    ),
            decreases y_end - y,
        {
            assert(claim.covers(x as int, y as int));
            assert(covering(claims, next, x as int, y as int) <= 255);
            let count = overlaps[x][y];
            overlaps[x][y] = count + 1;
            y += 1;
        }
        x += 1;
    }
}

/// Read all claims from the input lines, and count for each square of the
/// fabric the claims that cover it.
pub fn read(input: &str) -> (fabric: Fabric)
    requires
        readable(input@),
    ensures
        fabric.well_formed(),
        fabric.claims() == content_lines(input@).map_values(claim_of()),
{
    let text = chars_of(input);
    let spans = line_spans(text.as_slice());
    let ghost lines = content_lines(input@);
    let ghost all = lines.map_values(claim_of());
    let mut claims: Vec<Claim> = Vec::new();
    let mut dimensions: (usize, usize) = (0, 0);
    for i in 0..spans.len()
        invariant
            text@ == input@,
            readable(input@),
            lines == content_lines(input@),
            all == lines.map_values(claim_of()),
            spans_fit(spans@, text@.len()),
            cut(text@, spans@) == lines,
            claims@ == all.take(i as int),
            dimensions.0 == width(all, i as int),
            dimensions.1 == height(all, i as int),
    {
        let (from, to) = spans[i];
        assert(numbers_of(lines[i as int]).len() == 5);
        let claim = claim_from(slice_subrange(text.as_slice(), from, to));
        assert(claim == all[i as int]);
        assert(all[i as int].fits());
        if claim.x + claim.l > dimensions.0 {
            dimensions.0 = claim.x + claim.l;
        }
        if claim.y + claim.h > dimensions.1 {
            dimensions.1 = claim.y + claim.h;
        }
        claims.push(claim);
        assert(claims@ =~= all.take(i + 1));
    }
    assert(all.take(spans.len() as int) =~= all);
    let ghost n = all.len() as int;
    let mut overlaps = blank(dimensions.0, dimensions.1);
    for k in 0..claims.len()
        invariant
            readable(input@),
            all == content_lines(input@).map_values(claim_of()),
            claims@ == all,
            n == all.len(),
            dimensions.0 == width(all, n),
            dimensions.1 == height(all, n),
            overlaps@.len() == dimensions.0,
            forall|x: int|
                0 <= x < dimensions.0 ==> (#[trigger] overlaps@[x])@.len() == dimensions.1,
            forall|x: int, y: int|
                0 <= x < dimensions.0 && 0 <= y < dimensions.1 ==> #[trigger] overlaps@[x]@[y]
                    == covering(all, k as int, x, y),
    {
        let ghost next = k as int + 1;
        proof {
            lemma_extent(all, n, k as int);
            assert(all[k as int].fits());
            assert forall|x: int, y: int|
                0 <= x < dimensions.0 && 0 <= y < dimensions.1 implies covering(all, next, x, y)
                <= 255 by {
                lemma_covering_grows(all, next, n, x, y);
            }
        }
        mark(
            &mut overlaps,
            &claims[k],
            Ghost(all),
            Ghost(k as int),
            Ghost(next),
            Ghost(dimensions.0 as int),
            Ghost(dimensions.1 as int),
        );
    }
    Fabric { claims, overlaps }
}

/// Count the squares that more than one claim covers.
pub fn part1(fabric: &Fabric) -> (count: usize)
    ensures
        count == crowded(fabric.grid(), fabric.grid().len() as int),
{
    proof {
        use_type_invariant(fabric);
    }
    let ghost h = height(fabric.claims@, fabric.claims@.len() as int);
    let w = fabric.overlaps.len();
    let mut count: usize = 0;
    for x in 0..w
        invariant
            w == fabric.overlaps@.len(),
            forall|a: int| 0 <= a < w ==> (#[trigger] fabric.overlaps@[a])@.len() == h,
            0 <= h,
            w * h <= usize::MAX,
            count == crowded(fabric.overlaps@, x as int),
    {
        let column = &fabric.overlaps[x];
        let ghost before = count;
        proof {
            lemma_crowded_bound(fabric.overlaps@, x as int + 1, h);
            assert((x + 1) * h <= w * h) by (nonlinear_arith)
                requires
                    x + 1 <= w,
                    0 <= h,
            ;
        }
        for y in 0..column.len()
            invariant
                column@ == fabric.overlaps@[x as int]@,
                before + crowded_in(column@, column@.len() as int) <= usize::MAX,
                count == before + crowded_in(column@, y as int),
                before == crowded(fabric.overlaps@, x as int),
        {
            proof {
                lemma_crowded_in_grows(column@, y + 1, column@.len() as int);
            }
            if column[y] > 1 {
                count += 1;
            }
        }
    }
    count
}

/// More squares of a column never hold fewer crowded ones.
pub proof fn lemma_crowded_in_grows(column: Seq<u8>, m: int, n: int)
    requires
        m <= n,
    ensures
        crowded_in(column, m) <= crowded_in(column, n),
    decreases n - m,
{
    if m < n {
        lemma_crowded_in_grows(column, m, n - 1);
    }
}

/// Whether no square of the claim is covered by another claim as well.
pub open spec fn alone(claims: Seq<Claim>, claim: Claim) -> bool {
    forall|x: int, y: int| #[trigger]
        claim.covers(x, y) ==> covering(claims, claims.len() as int, x, y) <= 1
}

/// Find the first claim that does not overlap with another and return its
/// identifier, or 0 where every claim overlaps.
pub fn part2(fabric: &Fabric) -> (id: usize)
    ensures
        (forall|i: int|
            0 <= i < fabric.claims().len() ==> !alone(
                fabric.claims(),
                #[trigger] fabric.claims()[i],
            )) ==> id == 0,
        forall|i: int|
            0 <= i < fabric.claims().len() && alone(fabric.claims(), fabric.claims()[i]) && (
            forall|k: int| 0 <= k < i ==> !alone(fabric.claims(), #[trigger] fabric.claims()[k]))
                ==> id == fabric.claims()[i].id(),
{
    proof {
        use_type_invariant(fabric);
    }
    let ghost all = fabric.claims@;
    let ghost n = all.len() as int;
    for i in 0..fabric.claims.len()
        invariant
            all == fabric.claims@,
            n == all.len(),
            fabric.well_formed(),
            forall|k: int| 0 <= k < i ==> !alone(all, #[trigger] all[k]),
    {
        let claim = &fabric.claims[i];
        proof {
            lemma_extent(all, n, i as int);
            assert(all[i as int].fits());
        }
        let x_end = claim.x + claim.l;
        let y_end = claim.y + claim.h;
        let mut overlap = false;
        let ghost mut at: (int, int) = (0, 0);
        let mut x: usize = claim.x;
        while x < x_end
            invariant
                all == fabric.claims@,
                n == all.len(),
                fabric.well_formed(),
                i < n,
                *claim == all[i as int],
                claim.x() <= x <= x_end,
                x_end == claim.x() + claim.l(),
                y_end == claim.y() + claim.h(),
                x_end <= width(all, n),
                y_end <= height(all, n),
                overlap ==> claim.covers(at.0, at.1) && covering(all, n, at.0, at.1) > 1,
                !overlap ==> forall|a: int, b: int|
                    a < x && #[trigger] claim.covers(a, b) ==> covering(all, n, a, b) <= 1,
            decreases x_end - x,
        {
            let mut y: usize = claim.y;
            while y < y_end
                invariant
                    all == fabric.claims@,
                    n == all.len(),
                    fabric.well_formed(),
                    i < n,
                    *claim == all[i as int],
                    claim.x() <= x < x_end,
                    claim.y() <= y <= y_end,
                    x_end == claim.x() + claim.l(),
                    y_end == claim.y() + claim.h(),
                    x_end <= width(all, n),
                    y_end <= height(all, n),
                    overlap ==> claim.covers(at.0, at.1) && covering(all, n, at.0, at.1) > 1,
                    !overlap ==> forall|a: int, b: int|
                        passed(a, b, x as int, y as int) && #[trigger] claim.covers(a, b)
                            ==> covering(all, n, a, b) <= 1,
                decreases y_end - y,
            {
                assert(claim.covers(x as int, y as int));
                if fabric.overlaps[x][y] > 1 {
                    overlap = true;
                    proof {
                        at = (x as int, y as int);
                    }
                }
                y += 1;
            }
            x += 1;
        }
        if !overlap {
            assert(alone(fabric.claims(), fabric.claims()[i as int]));
            return claim.id;
        }
        assert(!alone(all, all[i as int]));
    }
    0
}

} // verus!
