//! Lines, ellipses, fills and the canvas.

use charpaint::ellipse::{ellipse_cells, filled_ellipse_cells};
use charpaint::fill::flood_fill_cells;
use charpaint::grid::{Grid, BLANK, CELLS, COLS, CURSOR_CHAR, ROWS};
use charpaint::util::bresenham;

/// The usual stepping line algorithm, to compare with.
fn stepped_line(c0: i32, r0: i32, c1: i32, r1: i32) -> Vec<(usize, usize)> {
    let dx = (c1 - c0).abs();
    let dy = -(r1 - r0).abs();
    let sx = if c0 < c1 { 1 } else { -1 };
    let sy = if r0 < r1 { 1 } else { -1 };
    let mut err = dx + dy;
    let (mut x, mut y) = (c0, r0);
    let mut out = Vec::new();
    loop {
        out.push((x as usize, y as usize));
        if x == c1 && y == r1 {
            return out;
        }
        let twice = 2 * err;
        if twice >= dy {
            err += dy;
            x += sx;
        }
        if twice <= dx {
            err += dx;
            y += sy;
        }
    }
}

/// The usual stepping ellipse algorithm, as spans (row, left, right).
fn stepped_ellipse(bx0: i64, by0: i64, bx1: i64, by1: i64) -> Vec<(i64, i64, i64)> {
    let (mut x0, mut x1) = (bx0.min(bx1), bx0.max(bx1));
    let (top, bottom) = (by0.min(by1), by0.max(by1));
    let a = x1 - x0;
    let b = bottom - top;
    let odd = b & 1;
    let mut dx = 4 * (1 - a) * b * b;
    let mut dy = 4 * (odd + 1) * a * a;
    let mut err = dx + dy + odd * a * a;
    let mut y0 = top + (b + 1) / 2;
    let mut y1 = y0 - odd;
    let mut spans = Vec::new();
    loop {
        spans.push((y0, x0, x1));
        spans.push((y1, x0, x1));
        let twice = 2 * err;
        if twice <= dy {
            y0 += 1;
            y1 -= 1;
            dy += 8 * a * a;
            err += dy;
        }
        if twice >= dx || 2 * err > dy {
            x0 += 1;
            x1 -= 1;
            dx += 8 * b * b;
            err += dx;
        }
        if x0 > x1 {
            break;
        }
    }
    while y0 - y1 <= b {
        spans.push((y0, x0 - 1, x1 + 1));
        y0 += 1;
        spans.push((y1, x0 - 1, x1 + 1));
        y1 -= 1;
    }
    spans
}

fn sorted(mut cells: Vec<(usize, usize)>) -> Vec<(usize, usize)> {
    cells.sort();
    cells.dedup();
    cells
}

#[test]
fn line_with_shallow_slope() {
    assert_eq!(bresenham(0, 0, 3, 1), vec![(0, 0), (1, 0), (2, 1), (3, 1)]);
    assert_eq!(bresenham(3, 1, 0, 0), vec![(3, 1), (2, 1), (1, 0), (0, 0)]);
}

#[test]
fn line_of_one_cell() {
    assert_eq!(bresenham(7, 5, 7, 5), vec![(7, 5)]);
}

#[test]
fn line_along_axes_and_diagonals() {
    assert_eq!(bresenham(2, 4, 5, 4), vec![(2, 4), (3, 4), (4, 4), (5, 4)]);
    assert_eq!(bresenham(2, 4, 2, 2), vec![(2, 4), (2, 3), (2, 2)]);
    assert_eq!(bresenham(5, 5, 3, 3), vec![(5, 5), (4, 4), (3, 3)]);
}

#[test]
fn line_matches_stepping() {
    for c1 in 0..17 {
        for r1 in 0..17 {
            assert_eq!(
                bresenham(8, 8, c1, r1),
                stepped_line(8, 8, c1 as i32, r1 as i32),
                "to {} {}",
                c1,
                r1
            );
        }
    }
    assert_eq!(bresenham(0, 23, 79, 0), stepped_line(0, 23, 79, 0));
}

#[test]
fn line_has_no_gaps_and_no_repeats() {
    let line = bresenham(3, 20, 70, 1);
    assert_eq!(line.len(), 68);
    assert_eq!(line[0], (3, 20));
    assert_eq!(line[67], (70, 1));
    for k in 1..line.len() {
        let dc = line[k].0 as i32 - line[k - 1].0 as i32;
        let dr = line[k].1 as i32 - line[k - 1].1 as i32;
        assert!(dc.abs() <= 1 && dr.abs() <= 1);
    }
    assert_eq!(sorted(line.clone()).len(), line.len());
}

#[test]
fn ellipse_of_one_cell() {
    assert_eq!(sorted(ellipse_cells(4, 4, 4, 4)), vec![(4, 4)]);
    assert_eq!(sorted(filled_ellipse_cells(4, 4, 4, 4)), vec![(4, 4)]);
}

#[test]
fn small_circle() {
    let expected = vec![
        (0, 1),
        (0, 2),
        (0, 3),
        (1, 0),
        (1, 4),
        (2, 0),
        (2, 4),
        (3, 0),
        (3, 4),
        (4, 1),
        (4, 2),
        (4, 3),
    ];
    assert_eq!(sorted(ellipse_cells(0, 0, 4, 4)), expected);
}

#[test]
fn ellipse_matches_stepping() {
    for a in 0..20 {
        for b in 0..12 {
            for (x, y) in [(3i64, 2i64), (-4, -3), (70, 18)] {
                let spans = stepped_ellipse(x, y, x + a, y + b);
                let mut outline = Vec::new();
                let mut filled = Vec::new();
                for &(row, left, right) in &spans {
                    for px in left..=right {
                        if px >= 0 && row >= 0 && px < COLS as i64 && row < ROWS as i64 {
                            let cell = (px as usize, row as usize);
                            filled.push(cell);
                            if px == left || px == right {
                                outline.push(cell);
                            }
                        }
                    }
                }
                assert_eq!(sorted(ellipse_cells(x, y, x + a, y + b)), sorted(outline));
                assert_eq!(sorted(filled_ellipse_cells(x, y, x + a, y + b)), sorted(filled));
            }
        }
    }
}

#[test]
fn ellipse_takes_corners_in_any_order() {
    let a = sorted(ellipse_cells(10, 3, 30, 15));
    assert_eq!(sorted(ellipse_cells(30, 15, 10, 3)), a);
    assert_eq!(sorted(ellipse_cells(30, 3, 10, 15)), a);
}

#[test]
fn ellipse_is_symmetric_and_touches_its_box() {
    let cells = sorted(ellipse_cells(10, 3, 31, 16));
    for &(c, r) in &cells {
        assert!((10..=31).contains(&c) && (3..=16).contains(&r));
        assert!(cells.contains(&(41 - c, r)));
        assert!(cells.contains(&(c, 19 - r)));
    }
    assert!(cells.iter().any(|p| p.0 == 10) && cells.iter().any(|p| p.0 == 31));
    assert!(cells.iter().any(|p| p.1 == 3) && cells.iter().any(|p| p.1 == 16));
}

#[test]
fn filled_ellipse_covers_outline() {
    let filled = sorted(filled_ellipse_cells(5, 2, 40, 20));
    for cell in ellipse_cells(5, 2, 40, 20) {
        assert!(filled.contains(&cell));
    }
    assert!(filled.contains(&(22, 11)));
}

fn walled_canvas() -> Vec<char> {
    // A diagonal wall of three cells cuts off the top left corner.
    let mut canvas = vec![BLANK; CELLS];
    for k in 0..3 {
        canvas[Grid::idx(2 - k, k)] = '#';
    }
    canvas
}

#[test]
fn fill_keeps_behind_diagonal_wall() {
    let canvas = walled_canvas();
    let inside = sorted(flood_fill_cells(0, 0, BLANK, &canvas, false));
    assert_eq!(inside, vec![(0, 0), (0, 1), (1, 0)]);
}

#[test]
fn fill_with_corners_passes_diagonal_wall() {
    let canvas = walled_canvas();
    let all = flood_fill_cells(0, 0, BLANK, &canvas, true);
    assert_eq!(all.len(), CELLS - 3);
    for cell in flood_fill_cells(0, 0, BLANK, &canvas, false) {
        assert!(all.contains(&cell));
    }
}

#[test]
fn fill_goes_outward_from_its_start() {
    let canvas = vec![BLANK; CELLS];
    let cells = flood_fill_cells(40, 12, BLANK, &canvas, false);
    assert_eq!(cells[0], (40, 12));
    let distance = |p: &(usize, usize)| p.0.abs_diff(40) + p.1.abs_diff(12);
    for k in 1..cells.len() {
        assert!(distance(&cells[k - 1]) <= distance(&cells[k]));
    }
    assert_eq!(cells.len(), CELLS);
}

#[test]
fn fill_of_one_cell() {
    let mut canvas = vec!['x'; CELLS];
    canvas[Grid::idx(79, 23)] = 'o';
    assert_eq!(flood_fill_cells(79, 23, 'o', &canvas, true), vec![(79, 23)]);
}

#[test]
fn grid_shows_preview_over_committed() {
    let mut grid = Grid::new();
    assert_eq!(grid.display_char(0, 0), BLANK);
    grid.set_committed(3, 2, 'a');
    grid.set_preview(3, 2, Some('b'));
    assert_eq!(grid.display_char(3, 2), 'b');
    assert!(grid.is_preview(3, 2));
    grid.set_preview(3, 2, None);
    assert_eq!(grid.display_char(3, 2), 'a');
    assert!(!grid.is_preview(3, 2));
}

#[test]
fn grid_commits_and_aborts_previews() {
    let mut grid = Grid::new();
    grid.set_preview(79, 23, Some('z'));
    grid.set_preview(1, 0, Some('a'));
    assert_eq!(grid.commit_preview(), vec![(1, 0), (79, 23)]);
    assert_eq!(grid.display_char(79, 23), 'z');
    assert!(!grid.is_preview(79, 23));
    assert_eq!(grid.commit_preview(), vec![]);
    grid.set_preview(1, 0, Some('q'));
    assert_eq!(grid.abort_preview(), vec![(1, 0)]);
    assert_eq!(grid.display_char(1, 0), 'a');
}

#[test]
fn canvas_has_the_usual_size() {
    assert_eq!((COLS, ROWS, CELLS), (80, 24, 1920));
    assert_eq!(Grid::idx(5, 2), 165);
    assert_eq!(CURSOR_CHAR, '▄');
}

#[test]
fn fill_finds_neighbours_row_by_row() {
    let mut canvas = vec!['x'; CELLS];
    for row in 4..=6 {
        for col in 9..=11 {
            canvas[row * COLS + col] = BLANK;
        }
    }
    assert_eq!(
        flood_fill_cells(10, 5, BLANK, &canvas, false),
        vec![(10, 5), (10, 4), (9, 5), (11, 5), (10, 6), (9, 4), (11, 4), (9, 6), (11, 6)]
    );
    assert_eq!(
        flood_fill_cells(10, 5, BLANK, &canvas, true),
        vec![(10, 5), (9, 4), (10, 4), (11, 4), (9, 5), (11, 5), (9, 6), (10, 6), (11, 6)]
    );
}
