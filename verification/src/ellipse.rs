//! Ellipses inscribed in a box of cells, in integer arithmetic throughout.
//!
//! An ellipse is symmetric in both axes, so it is described by one quarter: a
//! walk of positions `(i, j)`, where `i` counts columns inwards from the left
//! side of the box and `j` counts rows outwards from its middle.

use vstd::prelude::*;

use crate::grid::{on_canvas, COLS, ROWS};
use crate::util::gap;

verus! {

/// The implicit function of the ellipse in a box of spans `a` and `b`, at the
/// position (i, j): negative inside, zero on the curve, positive outside.
pub open spec fn field(a: int, b: int, i: int, j: int) -> int {
    (b * b) * ((2 * i - a) * (2 * i - a)) + (a * a) * ((2 * j + b % 2) * (2 * j + b % 2)) - (a * a)
        * (b * b)
}

/// Whether the walk steps outwards by a row: the cell diagonally ahead is
/// nearer to the curve than the one beside it.
pub open spec fn outward(a: int, b: int, i: int, j: int) -> bool {
    field(a, b, i + 1, j + 1) + field(a, b, i + 1, j) <= 0
}

/// Whether the walk steps inwards by a column: it does when it does not step
/// outwards, when the diagonal cell is no farther inside than the one above is
/// outside, and when the row beyond would leave the curve.
pub open spec fn inward(a: int, b: int, i: int, j: int) -> bool {
    ||| !outward(a, b, i, j)
    ||| field(a, b, i + 1, j + 1) + field(a, b, i, j + 1) >= 0
    ||| field(a, b, i + 1, j + 2) + field(a, b, i + 1, j + 1) > 0
}

/// The position that follows (i, j) on the walk.
pub open spec fn walk_next(a: int, b: int, i: int, j: int) -> (int, int) {
    (
        if inward(a, b, i, j) {
            i + 1
        } else {
            i
        },
        if outward(a, b, i, j) {
            j + 1
        } else {
            j
        },
    )
}

/// Whether the walk is still on its way from the side of the box to the middle.
pub open spec fn walking(a: int, b: int, i: int, j: int) -> bool {
    0 <= i && 2 * i <= a && 0 <= j <= b + 1
}

/// The walk from (i, j) on, until the two sides have met.
pub open spec fn walk(a: int, b: int, i: int, j: int) -> Seq<(int, int)>
    decreases (a + 2 - 2 * i) + (b + 3 - j),
{
    if walking(a, b, i, j) {
        let next = walk_next(a, b, i, j);
        seq![(i, j)] + walk(a, b, next.0, next.1)
    } else {
        Seq::empty()
    }
}

/// Where the walk from (i, j) stops: the first position past the middle column.
pub open spec fn walk_end(a: int, b: int, i: int, j: int) -> (int, int)
    decreases (a + 2 - 2 * i) + (b + 3 - j),
{
    if walking(a, b, i, j) {
        let next = walk_next(a, b, i, j);
        walk_end(a, b, next.0, next.1)
    } else {
        (i, j)
    }
}

/// The rows from `j` outwards to the side of the box, at column offset `i`.
pub open spec fn tip(b: int, i: int, j: int) -> Seq<(int, int)>
    decreases b + 1 - j,
{
    if 0 <= j && 2 * j + b % 2 <= b {
        seq![(i, j)] + tip(b, i, j + 1)
    } else {
        Seq::empty()
    }
}

/// The quarter that the walk covers.
pub open spec fn quarter_walk(a: int, b: int) -> Seq<(int, int)> {
    walk(a, b, 0, 0)
}

/// The rows that a flat ellipse has beyond the end of its walk.
pub open spec fn quarter_tip(a: int, b: int) -> Seq<(int, int)> {
    let end = walk_end(a, b, 0, 0);
    tip(b, end.0 - 1, end.1)
}

/// A box of cells, given by its sides.
#[verifier::ext_equal]
pub struct Extent {
    pub left: int,
    pub right: int,
    pub top: int,
    pub bottom: int,
}

/// The box with two opposite corners, in whatever order.
pub open spec fn extent(x0: int, y0: int, x1: int, y1: int) -> Extent {
    Extent {
        left: if x0 <= x1 { x0 } else { x1 },
        right: if x0 <= x1 { x1 } else { x0 },
        top: if y0 <= y1 { y0 } else { y1 },
        bottom: if y0 <= y1 { y1 } else { y0 },
    }
}

impl Extent {
    /// Horizontal span.
    pub open spec fn a(self) -> int {
        self.right - self.left
    }

    /// Vertical span.
    pub open spec fn b(self) -> int {
        self.bottom - self.top
    }

    /// The row `j` steps from the middle towards the bottom.
    pub open spec fn row_down(self, j: int) -> int {
        self.top + (self.b() + 1) / 2 + j
    }

    /// The row `j` steps from the middle towards the top.
    pub open spec fn row_up(self, j: int) -> int {
        self.top + (self.b() + 1) / 2 - self.b() % 2 - j
    }

    /// Whether a cell lies in the box.
    pub open spec fn holds(self, x: int, y: int) -> bool {
        self.left <= x <= self.right && self.top <= y <= self.bottom
    }
}

/// The cell (x, y) if it is on the canvas.
pub open spec fn clipped(x: int, y: int) -> Seq<(usize, usize)> {
    if on_canvas(x, y) {
        seq![(x as usize, y as usize)]
    } else {
        Seq::empty()
    }
}

/// The cells of row `y` from `xl` to `xr` that are on the canvas.
pub open spec fn clipped_span(y: int, xl: int, xr: int) -> Seq<(usize, usize)>
    decreases xr + 1 - xl,
{
    if xl > xr {
        Seq::empty()
    } else {
        clipped_span(y, xl, xr - 1) + clipped(xr, y)
    }
}

/// The four mirror images of a position on the walk.
pub open spec fn walk_marks(e: Extent, p: (int, int)) -> Seq<(usize, usize)> {
    clipped(e.right - p.0, e.row_down(p.1)) + clipped(e.left + p.0, e.row_down(p.1)) + clipped(
        e.left + p.0,
        e.row_up(p.1),
    ) + clipped(e.right - p.0, e.row_up(p.1))
}

/// The four mirror images of a position in a tip.
pub open spec fn tip_marks(e: Extent, p: (int, int)) -> Seq<(usize, usize)> {
    clipped(e.left + p.0, e.row_down(p.1)) + clipped(e.right - p.0, e.row_down(p.1)) + clipped(
        e.left + p.0,
        e.row_up(p.1),
    ) + clipped(e.right - p.0, e.row_up(p.1))
}

/// The two rows of a position, from side to side.
pub open spec fn span_marks(e: Extent, p: (int, int)) -> Seq<(usize, usize)> {
    clipped_span(e.row_down(p.1), e.left + p.0, e.right - p.0) + clipped_span(
        e.row_up(p.1),
        e.left + p.0,
        e.right - p.0,
    )
}

/// The marks of positions in turn.
pub open spec fn marks_of(
    positions: Seq<(int, int)>,
    marks: spec_fn((int, int)) -> Seq<(usize, usize)>,
) -> Seq<(usize, usize)>
    decreases positions.len(),
{
    if positions.len() == 0 {
        Seq::empty()
    } else {
        marks_of(positions.drop_last(), marks) + marks(positions.last())
    }
}

/// The outline of the ellipse in a box, clipped to the canvas.
pub open spec fn outline_cells(e: Extent) -> Seq<(usize, usize)> {
    marks_of(quarter_walk(e.a(), e.b()), |p: (int, int)| walk_marks(e, p)) + marks_of(
        quarter_tip(e.a(), e.b()),
        |p: (int, int)| tip_marks(e, p),
    )
}

/// The ellipse in a box with its inside, clipped to the canvas.
pub open spec fn filled_cells(e: Extent) -> Seq<(usize, usize)> {
    marks_of(quarter_walk(e.a(), e.b()) + quarter_tip(e.a(), e.b()), |p: (int, int)| span_marks(e, p))
}

/// The spans for which the arithmetic stays within 64 bits.
pub open spec fn spans_fit(a: int, b: int) -> bool {
    8 * ((a + 4) * (a + 4)) * ((b + 4) * (b + 4)) <= i64::MAX
}

/// The coordinates for which the arithmetic stays within 64 bits.
pub open spec fn coordinate_fits(v: int) -> bool {
    -0x4000_0000_0000_0000 <= v <= 0x4000_0000_0000_0000
}

proof fn lemma_field_steps(a: int, b: int, i: int, j: int)
    ensures
        field(a, b, i + 1, j) - field(a, b, i, j) == 4 * (b * b) * (2 * i + 1 - a),
        field(a, b, i, j + 1) - field(a, b, i, j) == 4 * (a * a) * (2 * j + 1 + b % 2),
{
    let u = 2 * i - a;
    let v = 2 * j + b % 2;
    let bb = b * b;
    let aa = a * a;
    assert(2 * (i + 1) - a == u + 2);
    assert(2 * (j + 1) + b % 2 == v + 2);
    assert(bb * ((u + 2) * (u + 2)) - bb * (u * u) == 4 * bb * (u + 1)) by (nonlinear_arith);
    assert(aa * ((v + 2) * (v + 2)) - aa * (v * v) == 4 * aa * (v + 1)) by (nonlinear_arith);
}

/// A step outwards stays within the box, unless the box is a single cell.
proof fn lemma_outward_in_box(a: int, b: int, i: int, j: int)
    requires
        0 <= a,
        0 <= b,
        0 <= i,
        0 <= j,
        outward(a, b, i, j),
    ensures
        0 < a ==> 2 * (j + 1) + b % 2 <= b,
        a == 0 ==> b == 0,
{
    let v = 2 * j + b % 2;
    let u = 2 * (i + 1) - a;
    let aa = a * a;
    let bb = b * b;
    assert(2 * (j + 1) + b % 2 == v + 2);
    assert(bb >= 0) by (nonlinear_arith) requires bb == b * b;
    assert(u * u >= 0) by (nonlinear_arith);
    assert(bb * (u * u) >= 0) by (nonlinear_arith) requires bb >= 0, u * u >= 0;
    if a > 0 {
        assert(aa > 0) by (nonlinear_arith) requires aa == a * a, a > 0;
        assert(aa * ((v + 2) * (v + 2)) + aa * (v * v) <= 2 * (aa * bb));
        if v + 2 > b {
            assert(v >= b) by {
                assert(v % 2 == b % 2);
            }
            assert((v + 2) * (v + 2) > bb && v * v >= bb) by (nonlinear_arith)
                requires v >= b, b >= 0, bb == b * b;
            assert(aa * ((v + 2) * (v + 2)) > aa * bb) by (nonlinear_arith)
                requires aa > 0, (v + 2) * (v + 2) > bb;
            assert(aa * (v * v) >= aa * bb) by (nonlinear_arith) requires aa > 0, v * v >= bb;
        }
    } else {
        assert(aa == 0) by (nonlinear_arith) requires aa == a * a, a == 0;
        assert(aa * bb == 0 && aa * ((v + 2) * (v + 2)) == 0 && aa * (v * v) == 0) by (nonlinear_arith)
            requires aa == 0;
        assert(u >= 2);
        if b > 0 {
            assert(bb * (u * u) > 0) by (nonlinear_arith) requires b > 0, bb == b * b, u >= 2;
        }
    }
}

/// How large the terms of the walk get.
proof fn lemma_field_bound(a: int, b: int, i: int, j: int)
    requires
        0 <= a,
        0 <= b,
        0 <= i,
        2 * i <= a + 4,
        0 <= j,
        2 * j + b % 2 <= b + 4,
    ensures
        ({
            let m = ((a + 4) * (a + 4)) * ((b + 4) * (b + 4));
            -m <= field(a, b, i, j) <= 2 * m
        }),
{
    let u = 2 * i - a;
    let v = 2 * j + b % 2;
    let p = (a + 4) * (a + 4);
    let q = (b + 4) * (b + 4);
    let aa = a * a;
    let bb = b * b;
    assert(0 <= u * u <= p) by (nonlinear_arith) requires -a <= u <= 4, 0 <= a, p == (a + 4) * (a + 4);
    assert(0 <= v * v <= q) by (nonlinear_arith) requires 0 <= v <= b + 4, q == (b + 4) * (b + 4);
    assert(0 <= aa <= p) by (nonlinear_arith) requires aa == a * a, 0 <= a, p == (a + 4) * (a + 4);
    assert(0 <= bb <= q) by (nonlinear_arith) requires bb == b * b, 0 <= b, q == (b + 4) * (b + 4);
    assert(0 <= bb * (u * u) <= p * q) by (nonlinear_arith) requires 0 <= u * u <= p, 0 <= bb <= q;
    assert(0 <= aa * (v * v) <= p * q) by (nonlinear_arith) requires 0 <= v * v <= q, 0 <= aa <= p;
    assert(0 <= aa * bb <= p * q) by (nonlinear_arith) requires 0 <= bb <= q, 0 <= aa <= p;
}

/// The mathematical positions of machine positions.
pub open spec fn positions(s: Seq<(i64, i64)>) -> Seq<(int, int)> {
    s.map_values(|p: (i64, i64)| (p.0 as int, p.1 as int))
}

/// The terms that the walk starts with.
proof fn lemma_start(a: int, b: int)
    requires
        0 <= a,
        0 <= b,
    ensures
        ({
            let m = ((a + 4) * (a + 4)) * ((b + 4) * (b + 4));
            &&& 0 <= a * a <= m
            &&& 0 <= b * b <= m
            &&& 8 * (a * a) <= 2 * m
            &&& 8 * (b * b) <= 2 * m
            &&& 4 * (1 - a) * b * b == 4 * (b * b) * (1 - a)
            &&& -m <= 4 * (1 - a) * b <= m
            &&& -m <= 4 * (1 - a) * b * b <= m
            &&& 4 * (b % 2 + 1) * a * a == 4 * (a * a) * (1 + b % 2)
            &&& 0 <= 4 * (b % 2 + 1) * a <= m
            &&& 0 <= 4 * (b % 2 + 1) * a * a <= m
            &&& b % 2 * a * a == b % 2 * (a * a)
            &&& 0 <= b % 2 * a <= m
            &&& 4 * (b * b) * (1 - a) + 4 * (a * a) * (1 + b % 2) + b % 2 * (a * a) == field(a, b, 1, 1)
        }),
{
    let c = a + 4;
    let d = b + 4;
    let p = c * c;
    let q = d * d;
    let m = p * q;
    let o = b % 2;
    assert(p >= 16 && p >= a * a + 8 * a + 16) by (nonlinear_arith) requires p == c * c, c == a + 4, a >= 0;
    assert(q >= 16 && q >= b * b + 8 * b + 16) by (nonlinear_arith) requires q == d * d, d == b + 4, b >= 0;
    assert(0 <= a * a && 0 <= b * b) by (nonlinear_arith);
    assert(m >= 16 * p && m >= 16 * q) by (nonlinear_arith) requires m == p * q, p >= 16, q >= 16;
    assert(4 * (1 - a) * b * b == 4 * (b * b) * (1 - a)) by (nonlinear_arith);
    assert(4 * (o + 1) * a * a == 4 * (a * a) * (1 + o)) by (nonlinear_arith);
    assert(o * a * a == o * (a * a)) by (nonlinear_arith);
    assert(0 <= o * a <= a) by (nonlinear_arith) requires 0 <= o <= 1, 0 <= a;
    assert(0 <= 4 * (o + 1) * a <= 8 * a) by (nonlinear_arith) requires 0 <= o <= 1, 0 <= a;
    assert(0 <= 4 * (a * a) * (1 + o) <= 8 * (a * a)) by (nonlinear_arith) requires 0 <= o <= 1, 0 <= a * a;
    let bb = b * b;
    let aa = a * a;
    assert(-m <= 4 * bb * (1 - a) <= m) by (nonlinear_arith)
        requires m == p * q, 0 <= bb <= q, p >= aa + 8 * a + 16, aa >= 0, a >= 0, q >= 16;
    assert(-m <= 4 * (1 - a) * b <= m) by (nonlinear_arith)
        requires m == p * q, 0 <= b, q >= bb + 8 * b + 16, bb >= 0, p >= aa + 8 * a + 16, aa >= 0, a >= 0;
    assert(bb * ((2 * 1 - a) * (2 * 1 - a)) == 4 * bb * (1 - a) + aa * bb) by (nonlinear_arith)
        requires aa == a * a;
    assert(aa * ((2 * 1 + o) * (2 * 1 + o)) == 4 * aa * (1 + o) + o * aa) by (nonlinear_arith)
        requires 0 <= o <= 1;
}

/// The walk of the ellipse with spans `a` and `b`, and the rows beyond its end.
fn ellipse_walk(a: i64, b: i64) -> (quarter: (Vec<(i64, i64)>, Vec<(i64, i64)>))
    requires
        0 <= a,
        0 <= b,
        spans_fit(a as int, b as int),
    ensures
        positions(quarter.0@) == quarter_walk(a as int, b as int),
        positions(quarter.1@) == quarter_tip(a as int, b as int),
        forall|k: int|
            0 <= k < quarter.0@.len() ==> 0 <= (#[trigger] quarter.0@[k]).0 && 2 * quarter.0@[k].0 <= a
                && 0 <= quarter.0@[k].1 && 2 * quarter.0@[k].1 + b % 2 <= b,
        forall|k: int|
            0 <= k < quarter.1@.len() ==> 0 <= (#[trigger] quarter.1@[k]).0 && 2 * quarter.1@[k].0 <= a
                && 0 <= quarter.1@[k].1 && 2 * quarter.1@[k].1 + b % 2 <= b,
{
    let ghost ga = a as int;
    let ghost gb = b as int;
    let ghost m = ((ga + 4) * (ga + 4)) * ((gb + 4) * (gb + 4));
    proof {
        lemma_start(ga, gb);
        assert(8 * m <= i64::MAX) by (nonlinear_arith)
            requires
                m == ((ga + 4) * (ga + 4)) * ((gb + 4) * (gb + 4)),
                8 * ((ga + 4) * (ga + 4)) * ((gb + 4) * (gb + 4)) <= i64::MAX,
        ;
        assert(8 * ga * ga == 8 * (ga * ga)) by (nonlinear_arith);
        assert(8 * gb * gb == 8 * (gb * gb)) by (nonlinear_arith);
        assert(a <= m && b <= m) by (nonlinear_arith)
            requires
                m == ((ga + 4) * (ga + 4)) * ((gb + 4) * (gb + 4)),
                ga == a,
                gb == b,
                0 <= ga,
                0 <= gb,
        ;
    }
    let b_odd: i64 = b % 2;
    let mut dx: i64 = 4 * (1 - a) * b * b;
    let mut dy: i64 = 4 * (b_odd + 1) * a * a;
    let mut err: i64 = dx + dy + b_odd * a * a;
    let da: i64 = 8 * a * a;
    let db: i64 = 8 * b * b;
    let mut i: i64 = 0;
    let mut j: i64 = 0;
    let mut main: Vec<(i64, i64)> = Vec::new();
    assert(positions(main@) + walk(ga, gb, 0, 0) =~= quarter_walk(ga, gb));
    assert(2 * j + b % 2 <= b);
    while 2 * i <= a
        invariant
            ga == a,
            gb == b,
            0 <= a <= m,
            0 <= b <= m,
            b_odd == gb % 2,
            m == ((ga + 4) * (ga + 4)) * ((gb + 4) * (gb + 4)),
            8 * m <= i64::MAX,
            da == 8 * (ga * ga),
            db == 8 * (gb * gb),
            0 <= i,
            2 * i <= a + 2,
            0 <= j,
            2 * i <= a ==> 2 * j + b_odd <= b,
            j <= b + 1,
            dx == 4 * (gb * gb) * (2 * i + 1 - ga),
            dy == 4 * (ga * ga) * (2 * j + 1 + gb % 2),
            2 * i <= a ==> err == field(ga, gb, i + 1, j + 1),
            positions(main@) + walk(ga, gb, i as int, j as int) =~= quarter_walk(ga, gb),
            walk_end(ga, gb, i as int, j as int) == walk_end(ga, gb, 0, 0),
            forall|k: int|
                0 <= k < main@.len() ==> 0 <= (#[trigger] main@[k]).0 && 2 * main@[k].0 <= a
                    && 0 <= main@[k].1 && 2 * main@[k].1 + b % 2 <= b,
        decreases (a + 2 - 2 * i) + (b + 3 - j),
    {
        let ghost i0 = i as int;
        let ghost j0 = j as int;
        let ghost main0 = main@;
        main.push((i, j));
        proof {
            lemma_field_bound(ga, gb, i0 + 1, j0 + 1);
            lemma_field_bound(ga, gb, i0, j0 + 1);
            lemma_field_bound(ga, gb, i0 + 1, j0);
            lemma_field_bound(ga, gb, i0 + 1, j0 + 2);
            lemma_field_bound(ga, gb, i0 + 2, j0 + 1);
            lemma_field_bound(ga, gb, i0 + 2, j0 + 2);
            lemma_field_steps(ga, gb, i0, j0);
            lemma_field_steps(ga, gb, i0 + 1, j0);
            lemma_field_steps(ga, gb, i0 + 1, j0 + 1);
            lemma_field_steps(ga, gb, i0, j0 + 1);
            lemma_field_steps(ga, gb, i0 + 1, j0 + 2);
            assert(4 * (ga * ga) * (2 * j0 + 1 + gb % 2) + 8 * (ga * ga) == 4 * (ga * ga) * (2 * (j0 + 1) + 1
                + gb % 2)) by (nonlinear_arith);
            assert(4 * (gb * gb) * (2 * i0 + 1 - ga) + 8 * (gb * gb) == 4 * (gb * gb) * (2 * (i0 + 1) + 1
                - ga)) by (nonlinear_arith);
            if outward(ga, gb, i0, j0) {
                lemma_outward_in_box(ga, gb, i0, j0);
                if ga == 0 {
                    assert(inward(ga, gb, i0, j0)) by {
                        assert(field(0, 0, i0 + 1, j0 + 1) == 0 && field(0, 0, i0, j0 + 1) == 0)
                            by (nonlinear_arith);
                    }
                }
            }
            assert(walk(ga, gb, i0, j0) == seq![(i0, j0)] + walk(
                ga,
                gb,
                walk_next(ga, gb, i0, j0).0,
                walk_next(ga, gb, i0, j0).1,
            ));
            assert(positions(main@) =~= positions(main0).push((i0, j0)));
            assert(positions(main@) + walk(
                ga,
                gb,
                walk_next(ga, gb, i0, j0).0,
                walk_next(ga, gb, i0, j0).1,
            ) =~= positions(main0) + walk(ga, gb, i0, j0));
        }
        let e2: i64 = 2 * err;
        if e2 <= dy {
            j = j + 1;
            dy = dy + da;
            err = err + dy;
        }
        if e2 >= dx || 2 * err > dy {
            i = i + 1;
            dx = dx + db;
            err = err + dx;
        }
        assert((i as int, j as int) == walk_next(ga, gb, i0, j0));
    }
    let mut tips: Vec<(i64, i64)> = Vec::new();
    let ghost end = walk_end(ga, gb, 0, 0);
    assert(end == (i as int, j as int));
    assert(positions(tips@) + tip(gb, i - 1, j as int) =~= quarter_tip(ga, gb));
    while 2 * j + b_odd <= b
        invariant
            gb == b,
            0 <= b,
            b + 4 <= i64::MAX,
            b_odd == gb % 2,
            0 < i,
            2 * i <= a + 2,
            0 <= j <= b + 2,
            2 * (b + 2) <= i64::MAX,
            positions(tips@) + tip(gb, i - 1, j as int) =~= quarter_tip(ga, gb),
            forall|k: int|
                0 <= k < tips@.len() ==> 0 <= (#[trigger] tips@[k]).0 && 2 * tips@[k].0 <= a
                    && 0 <= tips@[k].1 && 2 * tips@[k].1 + b % 2 <= b,
        decreases b + 1 - j,
    {
        let ghost tips0 = tips@;
        tips.push((i - 1, j));
        proof {
            assert(tip(gb, i - 1, j as int) == seq![((i - 1) as int, j as int)] + tip(gb, i - 1, j + 1));
            assert(positions(tips@) =~= positions(tips0).push(((i - 1) as int, j as int)));
            assert(positions(tips@) + tip(gb, i - 1, j + 1) =~= positions(tips0) + tip(gb, i - 1, j as int));
        }
        j = j + 1;
    }
    assert(positions(main@) =~= quarter_walk(ga, gb));
    assert(positions(tips@) =~= quarter_tip(ga, gb));
    (main, tips)
}

/// Append the cell (x, y) if it is on the canvas.
fn push_clipped(cells: &mut Vec<(usize, usize)>, x: i64, y: i64)
    ensures
        final(cells)@ == old(cells)@ + clipped(x as int, y as int),
{
    if x >= 0 && y >= 0 && x < COLS as i64 && y < ROWS as i64 {
        cells.push((x as usize, y as usize));
    }
    assert(cells@ =~= old(cells)@ + clipped(x as int, y as int));
}

/// Clipping a span to the columns of the canvas changes nothing of it.
proof fn lemma_clipped_span(y: int, xl: int, xr: int)
    ensures
        clipped_span(y, xl, xr) =~= clipped_span(
            y,
            if xl < 0 { 0 } else { xl },
            if xr < COLS { xr } else { COLS - 1 },
        ),
        !(0 <= y < ROWS) ==> clipped_span(y, xl, xr) =~= Seq::<(usize, usize)>::empty(),
    decreases xr + 1 - xl,
{
    if xl <= xr {
        lemma_clipped_span(y, xl, xr - 1);
    }
}

/// Append the cells of row `y` from `xl` to `xr` that are on the canvas.
fn push_span(cells: &mut Vec<(usize, usize)>, y: i64, xl: i64, xr: i64)
    ensures
        final(cells)@ == old(cells)@ + clipped_span(y as int, xl as int, xr as int),
{
    proof {
        lemma_clipped_span(y as int, xl as int, xr as int);
    }
    let ghost before = cells@;
    assert(before + Seq::<(usize, usize)>::empty() =~= before);
    if y >= 0 && y < ROWS as i64 && xl <= xr {
        let x_lo: i64 = if xl < 0 { 0 } else { xl };
        let x_hi: i64 = if xr < COLS as i64 { xr } else { COLS as i64 - 1 };
        let mut x: i64 = x_lo;
        while x <= x_hi
            invariant
                0 <= y < ROWS,
                0 <= x_lo <= x,
                x_hi < COLS,
                x_lo <= x_hi ==> x <= x_hi + 1,
                x_lo > x_hi ==> x == x_lo,
                cells@ =~= before + clipped_span(y as int, x_lo as int, x - 1),
            decreases x_hi + 1 - x,
        {
            cells.push((x as usize, y as usize));
            assert(clipped_span(y as int, x_lo as int, x as int) =~= clipped_span(
                y as int,
                x_lo as int,
                x - 1,
            ) + clipped(x as int, y as int));
            x = x + 1;
        }
    }
    assert(cells@ =~= before + clipped_span(y as int, xl as int, xr as int));
}

/// The marks of one position more.
proof fn lemma_marks_push(
    s: Seq<(i64, i64)>,
    k: int,
    marks: spec_fn((int, int)) -> Seq<(usize, usize)>,
)
    requires
        0 <= k < s.len(),
    ensures
        marks_of(positions(s).take(k + 1), marks) == marks_of(positions(s).take(k), marks) + marks(
            (s[k].0 as int, s[k].1 as int),
        ),
{
    let upto = positions(s).take(k + 1);
    assert(upto.drop_last() =~= positions(s).take(k));
    assert(upto.last() == (s[k].0 as int, s[k].1 as int));
}

proof fn lemma_concat<T>(s: Seq<T>, a: Seq<T>, b: Seq<T>, c: Seq<T>, d: Seq<T>)
    ensures
        s + a + b + c + d == s + (a + b + c + d),
        s + a + b == s + (a + b),
{
    assert(s + a + b + c + d =~= s + (a + b + c + d));
    assert(s + a + b =~= s + (a + b));
}

/// The cells of the outline of the ellipse inscribed in the box with corners
/// (bx0, by0) and (bx1, by1). The box may reach beyond the canvas; cells that
/// do are left out.
pub fn ellipse_cells(bx0: i64, by0: i64, bx1: i64, by1: i64) -> (cells: Vec<(usize, usize)>)
    requires
        coordinate_fits(bx0 as int),
        coordinate_fits(by0 as int),
        coordinate_fits(bx1 as int),
        coordinate_fits(by1 as int),
        spans_fit(gap(bx0 as int, bx1 as int), gap(by0 as int, by1 as int)),
    ensures
        cells@ == outline_cells(extent(bx0 as int, by0 as int, bx1 as int, by1 as int)),
{
    let ghost e = extent(bx0 as int, by0 as int, bx1 as int, by1 as int);
    let left: i64 = if bx0 <= bx1 { bx0 } else { bx1 };
    let right: i64 = if bx0 <= bx1 { bx1 } else { bx0 };
    let top: i64 = if by0 <= by1 { by0 } else { by1 };
    let bottom: i64 = if by0 <= by1 { by1 } else { by0 };
    proof {
        lemma_start(e.a(), e.b());
        assert(e.a() <= i64::MAX / 8 && e.b() <= i64::MAX / 8) by (nonlinear_arith)
            requires
                8 * ((e.a() + 4) * (e.a() + 4)) * ((e.b() + 4) * (e.b() + 4)) <= i64::MAX,
                0 <= e.a(),
                0 <= e.b(),
        ;
    }
    let a: i64 = right - left;
    let b: i64 = bottom - top;
    let mid: i64 = top + (b + 1) / 2;
    let up: i64 = mid - b % 2;
    let (walked, tips) = ellipse_walk(a, b);
    let mut cells: Vec<(usize, usize)> = Vec::new();
    let ghost wm = |p: (int, int)| walk_marks(e, p);
    let ghost tm = |p: (int, int)| tip_marks(e, p);
    let mut k: usize = 0;
    while k < walked.len()
        invariant
            0 <= k <= walked.len(),
            e.left == left,
            e.right == right,
            e.top == top,
            e.bottom == bottom,
            coordinate_fits(left as int),
            coordinate_fits(right as int),
            coordinate_fits(top as int),
            coordinate_fits(bottom as int),
            a == e.a(),
            b == e.b(),
            0 <= a <= i64::MAX / 8,
            0 <= b <= i64::MAX / 8,
            mid == e.row_down(0),
            up == e.row_up(0),
            wm == (|p: (int, int)| walk_marks(e, p)),
            forall|n: int|
                0 <= n < walked@.len() ==> 0 <= (#[trigger] walked@[n]).0 && 2 * walked@[n].0 <= a
                    && 0 <= walked@[n].1 && 2 * walked@[n].1 + b % 2 <= b,
            cells@ == marks_of(positions(walked@).take(k as int), wm),
        decreases walked.len() - k,
    {
        let (i, j) = walked[k];
        assert(0 <= i && 2 * i <= a && 0 <= j && 2 * j <= b);
        let ghost done = cells@;
        push_clipped(&mut cells, right - i, mid + j);
        push_clipped(&mut cells, left + i, mid + j);
        push_clipped(&mut cells, left + i, up - j);
        push_clipped(&mut cells, right - i, up - j);
        proof {
            lemma_concat(
                done,
                clipped(right - i, mid + j),
                clipped(left + i, mid + j),
                clipped(left + i, up - j),
                clipped(right - i, up - j),
            );
            lemma_marks_push(walked@, k as int, wm);
            assert(wm((i as int, j as int)) == walk_marks(e, (i as int, j as int)));
        }
        k = k + 1;
    }
    assert(positions(walked@).take(walked@.len() as int) =~= quarter_walk(e.a(), e.b()));
    let ghost outer = cells@;
    let mut n: usize = 0;
    while n < tips.len()
        invariant
            0 <= n <= tips.len(),
            e.left == left,
            e.right == right,
            e.top == top,
            e.bottom == bottom,
            coordinate_fits(left as int),
            coordinate_fits(right as int),
            coordinate_fits(top as int),
            coordinate_fits(bottom as int),
            a == e.a(),
            b == e.b(),
            0 <= a <= i64::MAX / 8,
            0 <= b <= i64::MAX / 8,
            mid == e.row_down(0),
            up == e.row_up(0),
            tm == (|p: (int, int)| tip_marks(e, p)),
            forall|n: int|
                0 <= n < tips@.len() ==> 0 <= (#[trigger] tips@[n]).0 && 2 * tips@[n].0 <= a
                    && 0 <= tips@[n].1 && 2 * tips@[n].1 + b % 2 <= b,
            cells@ == outer + marks_of(positions(tips@).take(n as int), tm),
        decreases tips.len() - n,
    {
        let (i, j) = tips[n];
        assert(0 <= i && 2 * i <= a && 0 <= j && 2 * j <= b);
        let ghost done = cells@;
        push_clipped(&mut cells, left + i, mid + j);
        push_clipped(&mut cells, right - i, mid + j);
        push_clipped(&mut cells, left + i, up - j);
        push_clipped(&mut cells, right - i, up - j);
        proof {
            lemma_concat(
                done,
                clipped(left + i, mid + j),
                clipped(right - i, mid + j),
                clipped(left + i, up - j),
                clipped(right - i, up - j),
            );
            lemma_marks_push(tips@, n as int, tm);
            assert(tm((i as int, j as int)) == tip_marks(e, (i as int, j as int)));
            let none = Seq::<(usize, usize)>::empty();
            lemma_concat(
                outer,
                marks_of(positions(tips@).take(n as int), tm),
                tm((i as int, j as int)),
                none,
                none,
            );
        }
        n = n + 1;
    }
    assert(positions(tips@).take(tips@.len() as int) =~= quarter_tip(e.a(), e.b()));
    cells
}

/// The cells of the ellipse inscribed in the box with corners (bx0, by0) and
/// (bx1, by1) and of its inside, from the same walk as the outline.
pub fn filled_ellipse_cells(bx0: i64, by0: i64, bx1: i64, by1: i64) -> (cells: Vec<(usize, usize)>)
    requires
        coordinate_fits(bx0 as int),
        coordinate_fits(by0 as int),
        coordinate_fits(bx1 as int),
        coordinate_fits(by1 as int),
        spans_fit(gap(bx0 as int, bx1 as int), gap(by0 as int, by1 as int)),
    ensures
        cells@ == filled_cells(extent(bx0 as int, by0 as int, bx1 as int, by1 as int)),
{
    let ghost e = extent(bx0 as int, by0 as int, bx1 as int, by1 as int);
    let left: i64 = if bx0 <= bx1 { bx0 } else { bx1 };
    let right: i64 = if bx0 <= bx1 { bx1 } else { bx0 };
    let top: i64 = if by0 <= by1 { by0 } else { by1 };
    let bottom: i64 = if by0 <= by1 { by1 } else { by0 };
    proof {
        assert(e.a() <= i64::MAX / 8 && e.b() <= i64::MAX / 8) by (nonlinear_arith)
            requires
                8 * ((e.a() + 4) * (e.a() + 4)) * ((e.b() + 4) * (e.b() + 4)) <= i64::MAX,
                0 <= e.a(),
                0 <= e.b(),
        ;
    }
    let a: i64 = right - left;
    let b: i64 = bottom - top;
    let mid: i64 = top + (b + 1) / 2;
    let up: i64 = mid - b % 2;
    let (mut walked, mut tips) = ellipse_walk(a, b);
    let ghost walked0 = walked@;
    let ghost tips0 = tips@;
    walked.append(&mut tips);
    proof {
        assert(positions(walked@) =~= quarter_walk(e.a(), e.b()) + quarter_tip(e.a(), e.b()));
        assert forall|n: int| 0 <= n < walked@.len() implies 0 <= (#[trigger] walked@[n]).0 && 2
            * walked@[n].0 <= a && 0 <= walked@[n].1 && 2 * walked@[n].1 + b % 2 <= b by {
            if n < walked0.len() {
                assert(walked@[n] == walked0[n]);
            } else {
                assert(walked@[n] == tips0[n - walked0.len()]);
            }
        }
    }
    let mut cells: Vec<(usize, usize)> = Vec::new();
    let ghost sm = |p: (int, int)| span_marks(e, p);
    let mut k: usize = 0;
    while k < walked.len()
        invariant
            0 <= k <= walked.len(),
            e.left == left,
            e.right == right,
            e.top == top,
            e.bottom == bottom,
            coordinate_fits(left as int),
            coordinate_fits(right as int),
            coordinate_fits(top as int),
            coordinate_fits(bottom as int),
            a == e.a(),
            b == e.b(),
            0 <= a <= i64::MAX / 8,
            0 <= b <= i64::MAX / 8,
            mid == e.row_down(0),
            up == e.row_up(0),
            sm == (|p: (int, int)| span_marks(e, p)),
            forall|n: int|
                0 <= n < walked@.len() ==> 0 <= (#[trigger] walked@[n]).0 && 2 * walked@[n].0 <= a
                    && 0 <= walked@[n].1 && 2 * walked@[n].1 + b % 2 <= b,
            cells@ == marks_of(positions(walked@).take(k as int), sm),
        decreases walked.len() - k,
    {
        let (i, j) = walked[k];
        assert(0 <= i && 2 * i <= a && 0 <= j && 2 * j <= b);
        let ghost done = cells@;
        push_span(&mut cells, mid + j, left + i, right - i);
        push_span(&mut cells, up - j, left + i, right - i);
        proof {
            let none = Seq::<(usize, usize)>::empty();
            lemma_concat(
                done,
                clipped_span(mid + j, left + i, right - i),
                clipped_span(up - j, left + i, right - i),
                none,
                none,
            );
            lemma_marks_push(walked@, k as int, sm);
            assert(sm((i as int, j as int)) == span_marks(e, (i as int, j as int)));
        }
        k = k + 1;
    }
    assert(positions(walked@).take(walked@.len() as int) =~= positions(walked@));
    cells
}

/// The whole quarter: the walk and the rows beyond its end.
pub open spec fn quarter(a: int, b: int) -> Seq<(int, int)> {
    quarter_walk(a, b) + quarter_tip(a, b)
}

/// Whether (x, y) is a mirror image of the position `p`.
pub open spec fn mirrors(e: Extent, p: (int, int), x: int, y: int) -> bool {
    (x == e.left + p.0 || x == e.right - p.0) && (y == e.row_down(p.1) || y == e.row_up(p.1))
}

/// Whether (x, y) is on the outline of the ellipse in a box, on the canvas or
/// beyond it.
pub open spec fn on_outline(e: Extent, x: int, y: int) -> bool {
    exists|k: int|
        0 <= k < quarter(e.a(), e.b()).len() && mirrors(e, #[trigger] quarter(e.a(), e.b())[k], x, y)
}

/// Whether some position is on the row `r`.
pub open spec fn has_row(w: Seq<(int, int)>, r: int) -> bool {
    exists|k: int| 0 <= k < w.len() && (#[trigger] w[k]).1 == r
}

/// Whether some position is on the column `c`.
pub open spec fn has_column(w: Seq<(int, int)>, c: int) -> bool {
    exists|k: int| 0 <= k < w.len() && (#[trigger] w[k]).0 == c
}

/// Every position of the walk from (i, j) lies in the quarter of the box, in
/// steps of at most one, and the walk ends one column past the middle.
proof fn lemma_walk(a: int, b: int, i: int, j: int)
    requires
        0 <= a,
        0 <= b,
        walking(a, b, i, j),
        2 * j + b % 2 <= b,
    ensures
        ({
            let w = walk(a, b, i, j);
            let end = walk_end(a, b, i, j);
            &&& w.len() > 0
            &&& w[0] == (i, j)
            &&& forall|k: int|
                0 <= k < w.len() ==> i <= (#[trigger] w[k]).0 && 2 * w[k].0 <= a && j <= w[k].1 && 2
                    * w[k].1 + b % 2 <= b
            &&& forall|r: int| j <= r < end.1 && 2 * r + b % 2 <= b ==> #[trigger] has_row(w, r)
            &&& forall|c: int| i <= c && 2 * c <= a ==> #[trigger] has_column(w, c)
            &&& forall|k: int|
                0 <= k < w.len() - 1 ==> 0 <= w[k + 1].0 - (#[trigger] w[k]).0 <= 1 && 0 <= w[k + 1].1
                    - w[k].1 <= 1
            &&& a < 2 * end.0 <= a + 2
            &&& j <= end.1
            &&& end.0 == w.last().0 + 1
            &&& w.last().1 <= end.1 <= w.last().1 + 1
        }),
    decreases (a + 2 - 2 * i) + (b + 3 - j),
{
    let (i1, j1) = walk_next(a, b, i, j);
    let w = walk(a, b, i, j);
    let rest = walk(a, b, i1, j1);
    let end = walk_end(a, b, i, j);
    assert(w =~= seq![(i, j)] + rest);
    if outward(a, b, i, j) {
        lemma_outward_in_box(a, b, i, j);
        if a == 0 {
            assert(field(0, 0, i + 1, j + 1) == 0 && field(0, 0, i, j + 1) == 0) by (nonlinear_arith);
        }
    }
    if 2 * i1 <= a {
        lemma_walk(a, b, i1, j1);
        assert(end == walk_end(a, b, i1, j1));
        assert forall|r: int| j <= r < end.1 && 2 * r + b % 2 <= b implies #[trigger] has_row(w, r) by {
            if r < j1 {
                assert(w[0].1 == r);
            } else {
                assert(has_row(rest, r));
                let k = choose|k: int| 0 <= k < rest.len() && (#[trigger] rest[k]).1 == r;
                assert(w[k + 1].1 == r);
            }
        }
        assert forall|c: int| i <= c && 2 * c <= a implies #[trigger] has_column(w, c) by {
            if c < i1 {
                assert(w[0].0 == c);
            } else {
                assert(has_column(rest, c));
                let k = choose|k: int| 0 <= k < rest.len() && (#[trigger] rest[k]).0 == c;
                assert(w[k + 1].0 == c);
            }
        }
        assert forall|k: int| 0 <= k < w.len() - 1 implies 0 <= w[k + 1].0 - (#[trigger] w[k]).0 <= 1 && 0
            <= w[k + 1].1 - w[k].1 <= 1 by {
            if k > 0 {
                assert(w[k] == rest[k - 1] && w[k + 1] == rest[k]);
            } else {
                assert(w[1] == rest[0]);
            }
        }
        assert forall|k: int| 0 <= k < w.len() implies i <= (#[trigger] w[k]).0 && 2 * w[k].0 <= a && j
            <= w[k].1 && 2 * w[k].1 + b % 2 <= b by {
            if k > 0 {
                assert(w[k] == rest[k - 1]);
            }
        }
        assert(w.last() == rest.last());
    } else {
        assert(rest =~= Seq::<(int, int)>::empty());
        assert(walk_end(a, b, i1, j1) == (i1, j1));
        assert(end == (i1, j1));
        assert forall|r: int| j <= r < end.1 && 2 * r + b % 2 <= b implies #[trigger] has_row(w, r) by {
            assert(w[0].1 == r);
        }
        assert forall|c: int| i <= c && 2 * c <= a implies #[trigger] has_column(w, c) by {
            assert(w[0].0 == c);
        }
    }
}

/// The rows of a tip run from `j` to the side of the box, one by one.
proof fn lemma_tip(b: int, i: int, j: int)
    requires
        0 <= b,
        0 <= j,
    ensures
        ({
            let t = tip(b, i, j);
            &&& forall|k: int| 0 <= k < t.len() ==> #[trigger] t[k] == (i, j + k)
            &&& forall|k: int| 0 <= k < t.len() ==> 2 * (#[trigger] t[k]).1 + b % 2 <= b
            &&& forall|r: int| j <= r && 2 * r + b % 2 <= b ==> #[trigger] has_row(t, r)
        }),
    decreases b + 1 - j,
{
    if 2 * j + b % 2 <= b {
        lemma_tip(b, i, j + 1);
        let t = tip(b, i, j);
        let rest = tip(b, i, j + 1);
        assert(t =~= seq![(i, j)] + rest);
        assert forall|k: int| 0 <= k < t.len() implies #[trigger] t[k] == (i, j + k) by {
            if k > 0 {
                assert(t[k] == rest[k - 1]);
            }
        }
        assert forall|r: int| j <= r && 2 * r + b % 2 <= b implies #[trigger] has_row(t, r) by {
            if r == j {
                assert(t[0].1 == r);
            } else {
                assert(has_row(rest, r));
                let k = choose|k: int| 0 <= k < rest.len() && (#[trigger] rest[k]).1 == r;
                assert(t[k + 1].1 == r);
            }
        }
    }
}

/// The quarter stays in its quarter of the box, and reaches every row and
/// every column of it.
proof fn lemma_quarter(a: int, b: int)
    requires
        0 <= a,
        0 <= b,
    ensures
        forall|k: int|
            0 <= k < quarter(a, b).len() ==> 0 <= (#[trigger] quarter(a, b)[k]).0 && 2 * quarter(a, b)[k].0
                <= a && 0 <= quarter(a, b)[k].1 && 2 * quarter(a, b)[k].1 + b % 2 <= b,
        forall|r: int| 0 <= r && 2 * r + b % 2 <= b ==> #[trigger] has_row(quarter(a, b), r),
        forall|c: int| 0 <= c && 2 * c <= a ==> #[trigger] has_column(quarter(a, b), c),
{
    let w = quarter_walk(a, b);
    let t = quarter_tip(a, b);
    let q = quarter(a, b);
    let end = walk_end(a, b, 0, 0);
    lemma_walk(a, b, 0, 0);
    lemma_tip(b, end.0 - 1, end.1);
    assert forall|k: int| 0 <= k < q.len() implies 0 <= (#[trigger] q[k]).0 && 2 * q[k].0 <= a && 0
        <= q[k].1 && 2 * q[k].1 + b % 2 <= b by {
        if k < w.len() {
            assert(q[k] == w[k]);
        } else {
            assert(q[k] == t[k - w.len()]);
        }
    }
    assert forall|r: int| 0 <= r && 2 * r + b % 2 <= b implies #[trigger] has_row(q, r) by {
        if r < end.1 {
            assert(has_row(w, r));
            let k = choose|k: int| 0 <= k < w.len() && (#[trigger] w[k]).1 == r;
            assert(q[k].1 == r);
        } else {
            assert(has_row(t, r));
            let k = choose|k: int| 0 <= k < t.len() && (#[trigger] t[k]).1 == r;
            assert(q[w.len() + k].1 == r);
        }
    }
    assert forall|c: int| 0 <= c && 2 * c <= a implies #[trigger] has_column(q, c) by {
        assert(has_column(w, c));
        let k = choose|k: int| 0 <= k < w.len() && (#[trigger] w[k]).0 == c;
        assert(q[k].0 == c);
    }
}

/// A cell is among the marks exactly when it is a mark of some position.
proof fn lemma_marks_contains(
    ps: Seq<(int, int)>,
    marks: spec_fn((int, int)) -> Seq<(usize, usize)>,
    cell: (usize, usize),
)
    ensures
        marks_of(ps, marks).contains(cell) <==> exists|k: int|
            0 <= k < ps.len() && marks(#[trigger] ps[k]).contains(cell),
    decreases ps.len(),
{
    if ps.len() > 0 {
        let head = ps.drop_last();
        lemma_marks_contains(head, marks, cell);
        let front = marks_of(head, marks);
        let back = marks(ps.last());
        lemma_contains_concat(front, back, cell);
        if front.contains(cell) {
            let k = choose|k: int| 0 <= k < head.len() && marks(#[trigger] head[k]).contains(cell);
            assert(ps[k] == head[k]);
        }
        if back.contains(cell) {
            assert(ps[ps.len() - 1] == ps.last());
        }
        if exists|k: int| 0 <= k < ps.len() && marks(#[trigger] ps[k]).contains(cell) {
            let k = choose|k: int| 0 <= k < ps.len() && marks(#[trigger] ps[k]).contains(cell);
            if k < ps.len() - 1 {
                assert(head[k] == ps[k]);
            }
        }
    }
}

proof fn lemma_contains_concat<T>(s: Seq<T>, t: Seq<T>, x: T)
    ensures
        (s + t).contains(x) <==> s.contains(x) || t.contains(x),
{
    if s.contains(x) {
        let k = choose|k: int| 0 <= k < s.len() && s[k] == x;
        assert((s + t)[k] == x);
    }
    if t.contains(x) {
        let k = choose|k: int| 0 <= k < t.len() && t[k] == x;
        assert((s + t)[s.len() + k] == x);
    }
    if (s + t).contains(x) {
        let k = choose|k: int| 0 <= k < (s + t).len() && (s + t)[k] == x;
        if k < s.len() {
            assert(s[k] == x);
        } else {
            assert(t[k - s.len()] == x);
        }
    }
}

proof fn lemma_clipped_contains(x: int, y: int, cell: (usize, usize))
    ensures
        clipped(x, y).contains(cell) <==> on_canvas(x, y) && x == cell.0 && y == cell.1,
{
    if on_canvas(x, y) {
        assert(clipped(x, y)[0] == (x as usize, y as usize));
    }
}

proof fn lemma_span_contains(y: int, xl: int, xr: int, cell: (usize, usize))
    ensures
        clipped_span(y, xl, xr).contains(cell) <==> on_canvas(cell.0 as int, y) && xl <= cell.0 <= xr && y
            == cell.1,
    decreases xr + 1 - xl,
{
    if xl <= xr {
        lemma_span_contains(y, xl, xr - 1, cell);
        lemma_contains_concat(clipped_span(y, xl, xr - 1), clipped(xr, y), cell);
        lemma_clipped_contains(xr, y, cell);
    }
}

/// The marks of a position are its mirror images on the canvas.
proof fn lemma_position_marks(e: Extent, p: (int, int), cell: (usize, usize))
    ensures
        walk_marks(e, p).contains(cell) <==> on_canvas(cell.0 as int, cell.1 as int) && mirrors(
            e,
            p,
            cell.0 as int,
            cell.1 as int,
        ),
        tip_marks(e, p).contains(cell) <==> on_canvas(cell.0 as int, cell.1 as int) && mirrors(
            e,
            p,
            cell.0 as int,
            cell.1 as int,
        ),
        span_marks(e, p).contains(cell) <==> on_canvas(cell.0 as int, cell.1 as int) && e.left + p.0 <= cell.0
            <= e.right - p.0 && (cell.1 == e.row_down(p.1) || cell.1 == e.row_up(p.1)),
{
    let (l, r, d, u) = (e.left + p.0, e.right - p.0, e.row_down(p.1), e.row_up(p.1));
    lemma_clipped_contains(l, d, cell);
    lemma_clipped_contains(l, u, cell);
    lemma_clipped_contains(r, d, cell);
    lemma_clipped_contains(r, u, cell);
    let w1 = clipped(r, d) + clipped(l, d);
    let w2 = w1 + clipped(l, u);
    lemma_contains_concat(clipped(r, d), clipped(l, d), cell);
    lemma_contains_concat(w1, clipped(l, u), cell);
    lemma_contains_concat(w2, clipped(r, u), cell);
    let t1 = clipped(l, d) + clipped(r, d);
    let t2 = t1 + clipped(l, u);
    lemma_contains_concat(clipped(l, d), clipped(r, d), cell);
    lemma_contains_concat(t1, clipped(l, u), cell);
    lemma_contains_concat(t2, clipped(r, u), cell);
    lemma_span_contains(d, l, r, cell);
    lemma_span_contains(u, l, r, cell);
    lemma_contains_concat(clipped_span(d, l, r), clipped_span(u, l, r), cell);
}

/// The outline function lists exactly the cells of the canvas that are on the
/// outline.
pub proof fn law_outline_cells(e: Extent, col: usize, row: usize)
    requires
        e.left <= e.right,
        e.top <= e.bottom,
    ensures
        outline_cells(e).contains((col, row)) <==> on_canvas(col as int, row as int) && on_outline(
            e,
            col as int,
            row as int,
        ),
{
    let cell = (col, row);
    let w = quarter_walk(e.a(), e.b());
    let t = quarter_tip(e.a(), e.b());
    let q = quarter(e.a(), e.b());
    let wm = |p: (int, int)| walk_marks(e, p);
    let tm = |p: (int, int)| tip_marks(e, p);
    lemma_marks_contains(w, wm, cell);
    lemma_marks_contains(t, tm, cell);
    lemma_contains_concat(marks_of(w, wm), marks_of(t, tm), cell);
    if marks_of(w, wm).contains(cell) {
        let k = choose|k: int| 0 <= k < w.len() && wm(#[trigger] w[k]).contains(cell);
        lemma_position_marks(e, w[k], cell);
        assert(q[k] == w[k]);
        assert(mirrors(e, q[k], col as int, row as int));
    }
    if marks_of(t, tm).contains(cell) {
        let k = choose|k: int| 0 <= k < t.len() && tm(#[trigger] t[k]).contains(cell);
        lemma_position_marks(e, t[k], cell);
        assert(q[w.len() + k] == t[k]);
        assert(mirrors(e, q[w.len() + k], col as int, row as int));
    }
    if on_canvas(col as int, row as int) && on_outline(e, col as int, row as int) {
        let k = choose|k: int| 0 <= k < q.len() && mirrors(e, #[trigger] q[k], col as int, row as int);
        lemma_position_marks(e, q[k], cell);
        if k < w.len() {
            assert(wm(w[k]).contains(cell));
        } else {
            assert(tm(t[k - w.len()]).contains(cell));
        }
    }
}

/// The filled ellipse is the outline and what lies between: a cell of the
/// canvas is filled exactly when outline cells of its row enclose it. Outline
/// and inside therefore leave no gap between them.
pub proof fn law_filled_between_outline(e: Extent, col: usize, row: usize)
    requires
        e.left <= e.right,
        e.top <= e.bottom,
    ensures
        filled_cells(e).contains((col, row)) <==> on_canvas(col as int, row as int) && exists|xl: int, xr: int|
            xl <= col <= xr && #[trigger] on_outline(e, xl, row as int) && #[trigger] on_outline(
                e,
                xr,
                row as int,
            ),
{
    let cell = (col, row);
    let q = quarter(e.a(), e.b());
    let sm = |p: (int, int)| span_marks(e, p);
    lemma_quarter(e.a(), e.b());
    lemma_marks_contains(q, sm, cell);
    if filled_cells(e).contains(cell) {
        let k = choose|k: int| 0 <= k < q.len() && sm(#[trigger] q[k]).contains(cell);
        lemma_position_marks(e, q[k], cell);
        let xl = e.left + q[k].0;
        let xr = e.right - q[k].0;
        assert(mirrors(e, q[k], xl, row as int));
        assert(mirrors(e, q[k], xr, row as int));
        assert(on_outline(e, xl, row as int) && on_outline(e, xr, row as int));
    }
    if on_canvas(col as int, row as int) && exists|xl: int, xr: int|
        xl <= col <= xr && #[trigger] on_outline(e, xl, row as int) && #[trigger] on_outline(e, xr, row as int) {
        let (xl, xr) = choose|xl: int, xr: int|
            xl <= col <= xr && #[trigger] on_outline(e, xl, row as int) && #[trigger] on_outline(
                e,
                xr,
                row as int,
            );
        let k = choose|k: int| 0 <= k < q.len() && mirrors(e, #[trigger] q[k], xl, row as int);
        let n = choose|n: int| 0 <= n < q.len() && mirrors(e, #[trigger] q[n], xr, row as int);
        let best = if q[k].0 <= q[n].0 { k } else { n };
        lemma_position_marks(e, q[best], cell);
        assert(sm(q[best]).contains(cell));
    }
}

/// In a box that lies on the canvas the filled ellipse holds exactly the cells
/// between two outline cells of their row, these included.
pub proof fn law_filled_spans_outline(e: Extent, col: usize, row: usize)
    requires
        0 <= e.left <= e.right < 80,
        0 <= e.top <= e.bottom < 24,
    ensures
        filled_cells(e).contains((col, row)) <==> exists|xl: usize, xr: usize|
            xl <= col <= xr && #[trigger] outline_cells(e).contains((xl, row)) && #[trigger] outline_cells(
                e,
            ).contains((xr, row)),
{
    law_filled_between_outline(e, col, row);
    if filled_cells(e).contains((col, row)) {
        let (xl, xr) = choose|xl: int, xr: int|
            xl <= col <= xr && #[trigger] on_outline(e, xl, row as int) && #[trigger] on_outline(e, xr, row as int);
        lemma_outline_in_box(e, xl, row as int);
        lemma_outline_in_box(e, xr, row as int);
        law_outline_cells(e, xl as usize, row);
        law_outline_cells(e, xr as usize, row);
    }
    if exists|xl: usize, xr: usize|
        xl <= col <= xr && #[trigger] outline_cells(e).contains((xl, row)) && #[trigger] outline_cells(e).contains(
            (xr, row),
        ) {
        let (xl, xr) = choose|xl: usize, xr: usize|
            xl <= col <= xr && #[trigger] outline_cells(e).contains((xl, row)) && #[trigger] outline_cells(
                e,
            ).contains((xr, row));
        law_outline_cells(e, xl, row);
        law_outline_cells(e, xr, row);
        assert(on_outline(e, xl as int, row as int) && on_outline(e, xr as int, row as int));
    }
}

proof fn lemma_outline_in_box(e: Extent, x: int, y: int)
    requires
        e.left <= e.right,
        e.top <= e.bottom,
        on_outline(e, x, y),
    ensures
        e.left <= x <= e.right,
        e.top <= y <= e.bottom,
{
    let q = quarter(e.a(), e.b());
    lemma_quarter(e.a(), e.b());
    let k = choose|k: int| 0 <= k < q.len() && mirrors(e, #[trigger] q[k], x, y);
    let p = q[k];
}

/// The outline is part of the filled ellipse.
pub proof fn law_filled_holds_outline(e: Extent, col: usize, row: usize)
    requires
        e.left <= e.right,
        e.top <= e.bottom,
        outline_cells(e).contains((col, row)),
    ensures
        filled_cells(e).contains((col, row)),
{
    law_outline_cells(e, col, row);
    law_filled_between_outline(e, col, row);
}

/// An ellipse stays in its box, and so does its inside.
pub proof fn law_ellipse_in_box(e: Extent, col: usize, row: usize)
    requires
        e.left <= e.right,
        e.top <= e.bottom,
        filled_cells(e).contains((col, row)),
    ensures
        on_canvas(col as int, row as int),
        e.holds(col as int, row as int),
{
    let q = quarter(e.a(), e.b());
    let sm = |p: (int, int)| span_marks(e, p);
    lemma_quarter(e.a(), e.b());
    lemma_marks_contains(q, sm, (col, row));
    let k = choose|k: int| 0 <= k < q.len() && sm(#[trigger] q[k]).contains((col, row));
    lemma_position_marks(e, q[k], (col, row));
}

/// An ellipse is symmetric: the mirror images of an outline cell, left to
/// right and top to bottom, are outline cells.
pub proof fn law_outline_symmetric(e: Extent, x: int, y: int)
    requires
        e.left <= e.right,
        e.top <= e.bottom,
        on_outline(e, x, y),
    ensures
        on_outline(e, e.left + e.right - x, y),
        on_outline(e, x, e.top + e.bottom - y),
{
    let q = quarter(e.a(), e.b());
    let k = choose|k: int| 0 <= k < q.len() && mirrors(e, #[trigger] q[k], x, y);
    assert(mirrors(e, q[k], e.left + e.right - x, y));
    assert(mirrors(e, q[k], x, e.top + e.bottom - y));
}

/// Whether a position hugs the curve: the cell one column and one row nearer to
/// the centre is not outside it, and the one as much farther away is not inside.
spec fn hugs(a: int, b: int, i: int, j: int) -> bool {
    &&& j >= 1 && 2 * i + 2 <= a ==> field(a, b, i + 1, j - 1) <= 0
    &&& i >= 1 ==> field(a, b, i - 1, j + 1) >= 0
}

/// The field grows away from the centre.
proof fn lemma_field_grows(a: int, b: int, i: int, j: int)
    requires
        0 <= j,
    ensures
        field(a, b, i, j) <= field(a, b, i, j + 1),
        2 * i + 1 <= a ==> field(a, b, i + 1, j) <= field(a, b, i, j),
{
    lemma_field_steps(a, b, i, j);
    let (aa, bb) = (a * a, b * b);
    assert(aa >= 0 && bb >= 0) by (nonlinear_arith)
        requires
            aa == a * a,
            bb == b * b,
    ;
    let up = 2 * j + 1 + b % 2;
    assert(4 * aa * up >= 0) by (nonlinear_arith)
        requires
            aa >= 0,
            up >= 0,
    ;
    if 2 * i + 1 <= a {
        let down = 2 * i + 1 - a;
        assert(4 * bb * down <= 0) by (nonlinear_arith)
            requires
                bb >= 0,
                down <= 0,
        ;
    }
}

proof fn lemma_step_hugs(a: int, b: int, i: int, j: int)
    requires
        0 <= a,
        0 <= b,
        0 <= i,
        0 <= j,
        2 * i <= a,
        hugs(a, b, i, j),
    ensures
        ({
            let next = walk_next(a, b, i, j);
            &&& 2 * next.0 <= a ==> hugs(a, b, next.0, next.1)
            &&& next.0 == i + 1 && i >= 1 ==> field(a, b, i - 1, next.1 + 1) >= 0
        }),
{
    lemma_field_grows(a, b, i, j);
    lemma_field_grows(a, b, i, j + 1);
    lemma_field_grows(a, b, i + 1, j);
    lemma_field_grows(a, b, i + 1, j + 1);
    lemma_field_grows(a, b, i - 1, j + 1);
    if j >= 1 {
        lemma_field_grows(a, b, i + 1, j - 1);
    }
}

proof fn lemma_walk_hugs(a: int, b: int, i: int, j: int)
    requires
        0 <= a,
        0 <= b,
        walking(a, b, i, j),
        2 * j + b % 2 <= b,
        hugs(a, b, i, j),
    ensures
        ({
            let w = walk(a, b, i, j);
            let end = walk_end(a, b, i, j);
            &&& forall|k: int| 0 <= k < w.len() ==> hugs(a, b, (#[trigger] w[k]).0, w[k].1)
            &&& end.0 >= 2 ==> field(a, b, end.0 - 2, end.1 + 1) >= 0
        }),
    decreases (a + 2 - 2 * i) + (b + 3 - j),
{
    let (i1, j1) = walk_next(a, b, i, j);
    let w = walk(a, b, i, j);
    let rest = walk(a, b, i1, j1);
    assert(w =~= seq![(i, j)] + rest);
    lemma_step_hugs(a, b, i, j);
    if outward(a, b, i, j) {
        lemma_outward_in_box(a, b, i, j);
        if a == 0 {
            assert(field(0, 0, i + 1, j + 1) == 0 && field(0, 0, i, j + 1) == 0) by (nonlinear_arith);
        }
    }
    if 2 * i1 <= a {
        lemma_walk_hugs(a, b, i1, j1);
        assert forall|k: int| 0 <= k < w.len() implies hugs(a, b, (#[trigger] w[k]).0, w[k].1) by {
            if k > 0 {
                assert(w[k] == rest[k - 1]);
            }
        }
    } else {
        assert(rest =~= Seq::<(int, int)>::empty());
        assert(walk_end(a, b, i1, j1) == (i1, j1));
    }
}

/// Every position of the quarter hugs the curve, as far as the tips allow.
proof fn lemma_quarter_hugs(a: int, b: int, k: int)
    requires
        0 <= a,
        0 <= b,
        0 <= k < quarter(a, b).len(),
    ensures
        hugs(a, b, quarter(a, b)[k].0, quarter(a, b)[k].1),
{
    let w = quarter_walk(a, b);
    let t = quarter_tip(a, b);
    let end = walk_end(a, b, 0, 0);
    lemma_walk(a, b, 0, 0);
    lemma_walk_hugs(a, b, 0, 0);
    lemma_tip(b, end.0 - 1, end.1);
    if k < w.len() {
        assert(quarter(a, b)[k] == w[k]);
    } else {
        let m = k - w.len();
        assert(quarter(a, b)[k] == t[m]);
        assert(t[m] == (end.0 - 1, end.1 + m));
        if end.0 >= 2 {
            lemma_column_outside(a, b, end.0 - 2, end.1 + 1, m);
        }
    }
}

proof fn lemma_column_outside(a: int, b: int, i: int, j: int, m: int)
    requires
        0 <= j,
        0 <= m,
        field(a, b, i, j) >= 0,
    ensures
        field(a, b, i, j + m) >= 0,
    decreases m,
{
    if m > 0 {
        lemma_column_outside(a, b, i, j, m - 1);
        lemma_field_grows(a, b, i, j + m - 1);
    }
}

/// An ellipse is the curve inscribed in its box, to within a cell. Take the
/// distances of an outline cell from the middle column and from the middle row,
/// both doubled, and the spans of the box: one cell farther away in both
/// directions a point is not inside the curve, and one cell nearer it is not
/// outside.
pub proof fn law_outline_follows_curve(e: Extent, col: usize, row: usize)
    requires
        e.left <= e.right,
        e.top <= e.bottom,
        outline_cells(e).contains((col, row)),
    ensures
        ({
            let (a, b) = (e.right - e.left, e.bottom - e.top);
            let (x, y) = (2 * col - e.left - e.right, 2 * row - e.top - e.bottom);
            let dx = if x >= 0 { x } else { -x };
            let dy = if y >= 0 { y } else { -y };
            &&& (b * b) * ((dx + 2) * (dx + 2)) + (a * a) * ((dy + 2) * (dy + 2)) >= (a * a) * (b * b)
            &&& dx >= 2 && dy >= 2 ==> (b * b) * ((dx - 2) * (dx - 2)) + (a * a) * ((dy - 2) * (dy - 2)) <= (a
                * a) * (b * b)
        }),
{
    let (a, b) = (e.a(), e.b());
    let (x, y) = (2 * col - e.left - e.right, 2 * row - e.top - e.bottom);
    let dx = if x >= 0 { x } else { -x };
    let dy = if y >= 0 { y } else { -y };
    law_outline_cells(e, col, row);
    lemma_quarter(a, b);
    let q = quarter(a, b);
    let k = choose|k: int| 0 <= k < q.len() && mirrors(e, #[trigger] q[k], col as int, row as int);
    let (i, j) = q[k];
    lemma_quarter_hugs(a, b, k);
    assert(dx == a - 2 * i);
    assert(dy == 2 * j + b % 2);
    assert((2 * (i - 1) - a) * (2 * (i - 1) - a) == (dx + 2) * (dx + 2)) by (nonlinear_arith)
        requires
            dx == a - 2 * i,
    ;
    assert((2 * (i + 1) - a) * (2 * (i + 1) - a) == (dx - 2) * (dx - 2)) by (nonlinear_arith)
        requires
            dx == a - 2 * i,
    ;
    assert(2 * (j + 1) + b % 2 == dy + 2 && 2 * (j - 1) + b % 2 == dy - 2);
    if i == 0 {
        let (aa, bb) = (a * a, b * b);
        assert(bb * ((a + 2) * (a + 2)) >= aa * bb && aa * ((dy + 2) * (dy + 2)) >= 0) by (nonlinear_arith)
            requires
                a >= 0,
                aa == a * a,
                bb == b * b,
        ;
    }
}

/// An ellipse touches every row and every column of its box: neither its
/// sides nor its tips are cut short.
pub proof fn law_outline_reaches(e: Extent, x: int, y: int)
    requires
        e.holds(x, y),
    ensures
        exists|c: int| #[trigger] on_outline(e, c, y),
        exists|r: int| #[trigger] on_outline(e, x, r),
{
    let (a, b) = (e.a(), e.b());
    let q = quarter(a, b);
    lemma_quarter(a, b);
    let j = if y >= e.row_down(0) {
        y - e.row_down(0)
    } else {
        e.row_up(0) - y
    };
    assert(0 <= j && 2 * j + b % 2 <= b);
    assert(has_row(q, j));
    let k = choose|k: int| 0 <= k < q.len() && (#[trigger] q[k]).1 == j;
    assert(mirrors(e, q[k], e.left + q[k].0, y));
    assert(on_outline(e, e.left + q[k].0, y));
    let i = if 2 * (x - e.left) <= a {
        x - e.left
    } else {
        e.right - x
    };
    assert(has_column(q, i));
    let n = choose|n: int| 0 <= n < q.len() && (#[trigger] q[n]).0 == i;
    assert(mirrors(e, q[n], x, e.row_down(q[n].1)));
    assert(on_outline(e, x, e.row_down(q[n].1)));
}

} // verus!
