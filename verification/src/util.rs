//! Straight lines on the cell grid.

use vstd::prelude::*;

verus! {

/// Distance between two coordinates.
pub open spec fn gap(a: int, b: int) -> int {
    if a <= b {
        b - a
    } else {
        a - b
    }
}

/// Steps of the line between two cells: the larger of its two extents.
pub open spec fn line_steps(c0: int, r0: int, c1: int, r1: int) -> int {
    if gap(c0, c1) >= gap(r0, r1) {
        gap(c0, c1)
    } else {
        gap(r0, r1)
    }
}

/// Cells covered after `k` of `n` steps when `d` are to be covered in all:
/// `d * k / n` rounded to the nearest, a half upwards.
pub open spec fn offset(d: int, k: int, n: int) -> int {
    (2 * d * k + n) / (2 * n)
}

/// The coordinate `k` of `n` steps from `from` towards `to`, rounded to the
/// nearest cell, a half away from `from`.
pub open spec fn along(from: int, to: int, k: int, n: int) -> int {
    let d = if n == 0 {
        0
    } else {
        offset(gap(from, to), k, n)
    };
    if from < to {
        from + d
    } else {
        from - d
    }
}

/// The line from (c0, r0) to (c1, r1): cell `k` lies `k / n` of the way along
/// it, where `n` is the number of steps.
pub open spec fn line_cells(c0: int, r0: int, c1: int, r1: int) -> Seq<(usize, usize)> {
    let n = line_steps(c0, r0, c1, r1);
    Seq::new(
        (n + 1) as nat,
        |k: int| (along(c0, c1, k, n) as usize, along(r0, r1, k, n) as usize),
    )
}

/// One more step moves the offset by one exactly when the exact position is
/// at least half a cell beyond it, and by nothing otherwise.
proof fn lemma_offset_step(d: int, k: int, n: int)
    requires
        0 <= d <= n,
        0 < n,
        0 <= k,
    ensures
        2 * n * offset(d, k, n) <= 2 * d * k + n < 2 * n * (offset(d, k, n) + 1),
        offset(d, k + 1, n) == if 2 * d * (k + 1) >= n * (2 * offset(d, k, n) + 1) {
            offset(d, k, n) + 1
        } else {
            offset(d, k, n)
        },
{
    let t = 2 * d * k + n;
    let m = 2 * n;
    let q = t / m;
    vstd::arithmetic::div_mod::lemma_fundamental_div_mod(t, m);
    vstd::arithmetic::div_mod::lemma_mod_bound(t, m);
    assert(m * q <= t < m * (q + 1)) by (nonlinear_arith)
        requires
            t == m * q + t % m,
            0 <= t % m < m,
    ;
    assert(2 * d * (k + 1) == 2 * d * k + 2 * d) by (nonlinear_arith);
    assert(n * (2 * q + 1) == m * q + n) by (nonlinear_arith)
        requires
            m == 2 * n,
    ;
    let t1 = 2 * d * (k + 1) + n;
    let q1 = if 2 * d * (k + 1) >= n * (2 * q + 1) {
        q + 1
    } else {
        q
    };
    assert(m * (q + 1) == m * q + m) by (nonlinear_arith);
    assert(m * (q + 2) == m * q + 2 * m) by (nonlinear_arith);
    assert(m * q1 <= t1 < m * q1 + m);
    vstd::arithmetic::div_mod::lemma_fundamental_div_mod_converse(t1, m, q1, t1 - m * q1);
}

/// Ends of a line: no steps cover nothing, all steps cover the whole extent.
proof fn lemma_offset_ends(d: int, n: int)
    requires
        0 <= d <= n,
        0 < n,
    ensures
        offset(d, 0, n) == 0,
        offset(d, n, n) == d,
        forall|k: int| #[trigger] offset(n, k, n) == k,
{
    assert(2 * d * 0 + n == n);
    vstd::arithmetic::div_mod::lemma_fundamental_div_mod_converse(n, 2 * n, 0, n);
    assert(2 * d * n + n == (2 * n) * d + n) by (nonlinear_arith);
    vstd::arithmetic::div_mod::lemma_fundamental_div_mod_converse(2 * d * n + n, 2 * n, d, n);
    assert forall|k: int| #[trigger] offset(n, k, n) == k by {
        assert(2 * n * k + n == (2 * n) * k + n);
        vstd::arithmetic::div_mod::lemma_fundamental_div_mod_converse(2 * n * k + n, 2 * n, k, n);
    }
}

/// The offset never passes the extent.
proof fn lemma_offset_bound(d: int, k: int, n: int)
    requires
        0 <= d <= n,
        0 < n,
        0 <= k <= n,
    ensures
        0 <= offset(d, k, n) <= d,
    decreases n - k,
{
    lemma_offset_ends(d, n);
    if k < n {
        lemma_offset_bound(d, k + 1, n);
        lemma_offset_step(d, k, n);
    }
    assert(0 <= 2 * d * k) by (nonlinear_arith)
        requires
            0 <= d,
            0 <= k,
    ;
    vstd::arithmetic::div_mod::lemma_div_pos_is_pos(2 * d * k + n, 2 * n);
}

/// Every cell of the straight line from (c0, r0) to (c1, r1), both ends
/// included, in order from the first to the second.
pub fn bresenham(c0: usize, r0: usize, c1: usize, r1: usize) -> (cells: Vec<(usize, usize)>)
    requires
        c0 <= i32::MAX,
        r0 <= i32::MAX,
        c1 <= i32::MAX,
        r1 <= i32::MAX,
    ensures
        cells@ == line_cells(c0 as int, r0 as int, c1 as int, r1 as int),
{
    let mut x: i64 = c0 as i64;
    let mut y: i64 = r0 as i64;
    let x1: i64 = c1 as i64;
    let y1: i64 = r1 as i64;
    let dx: i64 = if x < x1 { x1 - x } else { x - x1 };
    let dy: i64 = if y < y1 { y1 - y } else { y - y1 };
    let sx: i64 = if x < x1 { 1 } else { -1 };
    let sy: i64 = if y < y1 { 1 } else { -1 };
    let mut err: i64 = dx - dy;
    let mut cells: Vec<(usize, usize)> = Vec::new();
    let ghost n = line_steps(c0 as int, r0 as int, c1 as int, r1 as int);
    let ghost mut i: int = 0;
    let ghost mut j: int = 0;
    let ghost mut k: int = 0;
    let ghost line = line_cells(c0 as int, r0 as int, c1 as int, r1 as int);
    proof {
        if n > 0 {
            lemma_offset_ends(dx as int, n);
            lemma_offset_ends(dy as int, n);
        }
        assert(dx * 1 - dy * 1 == dx - dy);
    }
    loop
        invariant_except_break
            cells@ =~= line.take(k),
        invariant
            c0 <= i32::MAX,
            r0 <= i32::MAX,
            c1 <= i32::MAX,
            r1 <= i32::MAX,
            x1 == c1,
            y1 == r1,
            n == line_steps(c0 as int, r0 as int, c1 as int, r1 as int),
            line == line_cells(c0 as int, r0 as int, c1 as int, r1 as int),
            dx == gap(c0 as int, c1 as int),
            dy == gap(r0 as int, r1 as int),
            sx == if c0 < c1 { 1int } else { -1int },
            sy == if r0 < r1 { 1int } else { -1int },
            0 <= k <= n,
            n > 0 ==> i == offset(dx as int, k, n) && j == offset(dy as int, k, n),
            n == 0 ==> i == 0 && j == 0,
            0 <= i <= dx,
            0 <= j <= dy,
            x == if c0 < c1 { c0 + i } else { c0 - i },
            y == if r0 < r1 { r0 + j } else { r0 - j },
            err == dx * (j + 1) - dy * (i + 1),
        ensures
            cells@ =~= line,
        decreases n - k,
    {
        assert((x as usize, y as usize) == line[k]);
        cells.push((x as usize, y as usize));
        assert(line.take(k + 1) =~= line.take(k).push(line[k]));
        proof {
            if n > 0 {
                lemma_offset_ends(dx as int, n);
                lemma_offset_ends(dy as int, n);
            }
        }
        if x == x1 && y == y1 {
            assert(k == n);
            assert(line.take(n + 1) =~= line);
            break;
        }
        assert(k < n);
        proof {
            lemma_offset_step(dx as int, k, n);
            lemma_offset_step(dy as int, k, n);
            lemma_offset_bound(dx as int, k + 1, n);
            lemma_offset_bound(dy as int, k + 1, n);
            lemma_line_step(dx as int, dy as int, n, k, i, j, err as int);
        }
        let e2: i64 = 2 * err;
        if e2 >= -dy {
            err = err - dy;
            x = x + sx;
            proof { i = i + 1; }
        }
        if e2 <= dx {
            err = err + dx;
            y = y + sy;
            proof { j = j + 1; }
        }
        proof { k = k + 1; }
    }
    cells
}

/// The error term decides each coordinate's step as the exact line does.
proof fn lemma_line_step(dx: int, dy: int, n: int, k: int, i: int, j: int, err: int)
    requires
        0 <= dx <= n,
        0 <= dy <= n,
        n == dx || n == dy,
        0 < n <= i32::MAX,
        0 <= k < n,
        i == offset(dx, k, n),
        j == offset(dy, k, n),
        err == dx * (j + 1) - dy * (i + 1),
        2 * n * i <= 2 * dx * k + n < 2 * n * (i + 1),
        2 * n * j <= 2 * dy * k + n < 2 * n * (j + 1),
    ensures
        2 * err >= -dy <==> 2 * dx * (k + 1) >= n * (2 * i + 1),
        2 * err <= dx <==> 2 * dy * (k + 1) >= n * (2 * j + 1),
        -2 * n <= err <= 2 * n,
        err - dy + dx == dx * (j + 2) - dy * (i + 2),
        err - dy == dx * (j + 1) - dy * (i + 2),
        err + dx == dx * (j + 2) - dy * (i + 1),
{
    lemma_offset_ends(dx, n);
    assert(err - dy + dx == dx * (j + 2) - dy * (i + 2)) by (nonlinear_arith)
        requires err == dx * (j + 1) - dy * (i + 1);
    assert(err - dy == dx * (j + 1) - dy * (i + 2)) by (nonlinear_arith)
        requires err == dx * (j + 1) - dy * (i + 1);
    assert(err + dx == dx * (j + 2) - dy * (i + 1)) by (nonlinear_arith)
        requires err == dx * (j + 1) - dy * (i + 1);
    if n == dx {
        assert(offset(n, k, n) == k);
        assert(i == k);
        assert(2 * err >= -dy && 2 * dx * (k + 1) >= n * (2 * i + 1)
            && (2 * err <= dx <==> 2 * dy * (k + 1) >= n * (2 * j + 1))
            && -2 * n <= err <= 2 * n) by (nonlinear_arith)
            requires
                n == dx, i == k, 0 <= dy <= n, 0 < n, 0 <= k,
                err == dx * (j + 1) - dy * (i + 1),
                2 * n * j <= 2 * dy * k + n < 2 * n * (j + 1);
    } else {
        assert(offset(n, k, n) == k);
        assert(j == k);
        assert((2 * err >= -dy <==> 2 * dx * (k + 1) >= n * (2 * i + 1))
            && 2 * err <= dx && 2 * dy * (k + 1) >= n * (2 * j + 1)
            && -2 * n <= err <= 2 * n) by (nonlinear_arith)
            requires
                n == dy, j == k, 0 <= dx <= n, 0 < n, 0 <= k,
                err == dx * (j + 1) - dy * (i + 1),
                2 * n * i <= 2 * dx * k + n < 2 * n * (i + 1);
    }
}

/// A cell of the line, in terms of the offsets of its two coordinates, stays
/// between the two ends.
proof fn lemma_along(from: int, to: int, k: int, n: int)
    requires
        0 <= k <= n,
        gap(from, to) <= n,
    ensures
        from <= to ==> from <= along(from, to, k, n) <= to,
        to <= from ==> to <= along(from, to, k, n) <= from,
        k == 0 ==> along(from, to, k, n) == from,
        k == n ==> along(from, to, k, n) == to,
        k < n ==> -1 <= along(from, to, k + 1, n) - along(from, to, k, n) <= 1,
        k < n && gap(from, to) == n ==> along(from, to, k + 1, n) != along(from, to, k, n),
{
    if n > 0 {
        let d = gap(from, to);
        lemma_offset_ends(d, n);
        lemma_offset_bound(d, k, n);
        lemma_offset_step(d, k, n);
        if d == n {
            assert(offset(n, k, n) == k && offset(n, k + 1, n) == k + 1);
        }
    }
}

/// Every cell of a line lies in the box spanned by its ends.
pub proof fn lemma_line_in_box(c0: usize, r0: usize, c1: usize, r1: usize, k: int)
    requires
        0 <= k < line_cells(c0 as int, r0 as int, c1 as int, r1 as int).len(),
    ensures
        ({
            let cell = line_cells(c0 as int, r0 as int, c1 as int, r1 as int)[k];
            &&& c0 <= c1 ==> c0 <= cell.0 <= c1
            &&& c1 <= c0 ==> c1 <= cell.0 <= c0
            &&& r0 <= r1 ==> r0 <= cell.1 <= r1
            &&& r1 <= r0 ==> r1 <= cell.1 <= r0
        }),
{
    let n = line_steps(c0 as int, r0 as int, c1 as int, r1 as int);
    lemma_along(c0 as int, c1 as int, k, n);
    lemma_along(r0 as int, r1 as int, k, n);
}

/// A line starts at its first end, stops at its second, and has one cell more
/// than its larger extent.
pub proof fn law_line_ends(c0: usize, r0: usize, c1: usize, r1: usize)
    ensures
        ({
            let line = line_cells(c0 as int, r0 as int, c1 as int, r1 as int);
            &&& line.len() == line_steps(c0 as int, r0 as int, c1 as int, r1 as int) + 1
            &&& line.first() == (c0, r0)
            &&& line.last() == (c1, r1)
        }),
{
    let n = line_steps(c0 as int, r0 as int, c1 as int, r1 as int);
    lemma_along(c0 as int, c1 as int, 0, n);
    lemma_along(r0 as int, r1 as int, 0, n);
    lemma_along(c0 as int, c1 as int, n, n);
    lemma_along(r0 as int, r1 as int, n, n);
}

/// A line leaves no gap: consecutive cells are distinct and touch, at a side
/// or at a corner.
pub proof fn law_line_no_gaps(c0: usize, r0: usize, c1: usize, r1: usize, k: int)
    requires
        0 <= k,
        k + 1 < line_cells(c0 as int, r0 as int, c1 as int, r1 as int).len(),
    ensures
        ({
            let line = line_cells(c0 as int, r0 as int, c1 as int, r1 as int);
            &&& -1 <= line[k + 1].0 - line[k].0 <= 1
            &&& -1 <= line[k + 1].1 - line[k].1 <= 1
            &&& line[k + 1] != line[k]
        }),
{
    let n = line_steps(c0 as int, r0 as int, c1 as int, r1 as int);
    lemma_along(c0 as int, c1 as int, k, n);
    lemma_along(r0 as int, r1 as int, k, n);
    lemma_along(c0 as int, c1 as int, k + 1, n);
    lemma_along(r0 as int, r1 as int, k + 1, n);
}

/// Every cell of a line is the one nearest to the exact line: after `k` of as
/// many steps as the larger extent, each coordinate has come the share `k` of its
/// own extent, rounded to the nearest cell and a half onwards.
pub proof fn law_line_is_nearest(c0: usize, r0: usize, c1: usize, r1: usize, k: int)
    requires
        0 <= k < line_cells(c0 as int, r0 as int, c1 as int, r1 as int).len(),
        (c0, r0) != (c1, r1),
    ensures
        ({
            let dc = if c1 >= c0 { c1 - c0 } else { c0 - c1 };
            let dr = if r1 >= r0 { r1 - r0 } else { r0 - r1 };
            let n = if dc >= dr { dc } else { dr };
            let (x, y) = line_cells(c0 as int, r0 as int, c1 as int, r1 as int)[k];
            let across = if c1 >= c0 { x - c0 } else { c0 - x };
            let down = if r1 >= r0 { y - r0 } else { r0 - y };
            &&& line_cells(c0 as int, r0 as int, c1 as int, r1 as int).len() == n + 1
            &&& -n < 2 * (n * across - k * dc) <= n
            &&& -n < 2 * (n * down - k * dr) <= n
        }),
{
    let n = line_steps(c0 as int, r0 as int, c1 as int, r1 as int);
    lemma_line_in_box(c0, r0, c1, r1, k);
    lemma_along(c0 as int, c1 as int, k, n);
    lemma_along(r0 as int, r1 as int, k, n);
    lemma_offset_near(gap(c0 as int, c1 as int), k, n);
    lemma_offset_near(gap(r0 as int, r1 as int), k, n);
}

proof fn lemma_offset_near(d: int, k: int, n: int)
    requires
        0 <= d <= n,
        0 < n,
        0 <= k <= n,
    ensures
        0 <= offset(d, k, n) <= d,
        -n < 2 * (n * offset(d, k, n) - k * d) <= n,
{
    lemma_offset_bound(d, k, n);
    lemma_offset_step(d, k, n);
    let q = offset(d, k, n);
    assert(2 * n * q == 2 * (n * q) && 2 * d * k == 2 * (k * d) && 2 * n * (q + 1) == 2 * (n * q) + 2 * n)
        by (nonlinear_arith);
}

/// A line along one axis keeps the other coordinate throughout.
pub proof fn law_line_straight(c0: usize, r0: usize, c1: usize, r1: usize, k: int)
    requires
        0 <= k < line_cells(c0 as int, r0 as int, c1 as int, r1 as int).len(),
    ensures
        r0 == r1 ==> line_cells(c0 as int, r0 as int, c1 as int, r1 as int)[k].1 == r0,
        c0 == c1 ==> line_cells(c0 as int, r0 as int, c1 as int, r1 as int)[k].0 == c0,
{
    lemma_line_in_box(c0, r0, c1, r1, k);
}

/// A line visits no cell twice.
pub proof fn law_line_visits_once(c0: usize, r0: usize, c1: usize, r1: usize, i: int, j: int)
    requires
        0 <= i < line_cells(c0 as int, r0 as int, c1 as int, r1 as int).len(),
        0 <= j < line_cells(c0 as int, r0 as int, c1 as int, r1 as int).len(),
        i != j,
    ensures
        line_cells(c0 as int, r0 as int, c1 as int, r1 as int)[i] != line_cells(
            c0 as int,
            r0 as int,
            c1 as int,
            r1 as int,
        )[j],
{
    let n = line_steps(c0 as int, r0 as int, c1 as int, r1 as int);
    lemma_offset_ends(n, n);
    assert(offset(n, i, n) == i && offset(n, j, n) == j);
    lemma_line_in_box(c0, r0, c1, r1, i);
    lemma_line_in_box(c0, r0, c1, r1, j);
    lemma_along(c0 as int, c1 as int, i, n);
    lemma_along(r0 as int, r1 as int, i, n);
    lemma_along(c0 as int, c1 as int, j, n);
    lemma_along(r0 as int, r1 as int, j, n);
}

} // verus!
