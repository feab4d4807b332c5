//! Painting: what a step of a stroke puts into the preview.

use vstd::prelude::*;

use crate::app::{cell_ok, App, AppState, Stroke};
use crate::ellipse::{
    ellipse_cells, extent, filled_cells, filled_ellipse_cells, law_filled_holds_outline,
    outline_cells, spans_fit,
    Extent,
};
use crate::fill::{adjacent, flood_fill_cells, Region};
use crate::grid::{
    all_on_canvas, cell_at, cell_index, on_canvas, Grid, GridState, BLANK, CELLS, COLS, ROWS,
};
use crate::modes::{art_char, stroke_of, Axis, BlendMode, FillMode, LineMode, PencilMode, Tool};
use crate::selection::spanning;
use crate::util::{bresenham, gap, law_line_ends, law_line_visits_once, lemma_line_in_box, line_cells};

verus! {

// ---------------------------------------------------------------------------
// Shapes
// ---------------------------------------------------------------------------

/// The box that a drag spans: between its two ends, or centred on its start.
pub open spec fn drag_box(start: (usize, usize), to: (usize, usize), centred: bool) -> Extent {
    if centred {
        let dx = gap(start.0 as int, to.0 as int);
        let dy = gap(start.1 as int, to.1 as int);
        extent(start.0 - dx, start.1 - dy, start.0 + dx, start.1 + dy)
    } else {
        extent(start.0 as int, start.1 as int, to.0 as int, to.1 as int)
    }
}

/// Whether a cell belongs to a rectangle: to its sides, or `filled` to its
/// inside too.
pub open spec fn rect_holds(e: Extent, filled: bool, cell: (usize, usize)) -> bool {
    &&& on_canvas(cell.0 as int, cell.1 as int)
    &&& e.holds(cell.0 as int, cell.1 as int)
    &&& filled || cell.0 == e.left || cell.0 == e.right || cell.1 == e.top || cell.1 == e.bottom
}

/// The cells of the shape that a tool draws into a box.
pub open spec fn shape_cells(tool: Tool, e: Extent) -> Set<(usize, usize)> {
    match tool {
        Tool::Rect => Set::new(|cell: (usize, usize)| rect_holds(e, false, cell)),
        Tool::RectFill => Set::new(|cell: (usize, usize)| rect_holds(e, true, cell)),
        Tool::Oval => outline_cells(e).to_set(),
        Tool::OvalFill => filled_cells(e).to_set(),
        _ => Set::empty(),
    }
}

/// The cells that a freehand step covers: a line from the last cell, or at the
/// beginning of a stroke the cell alone.
pub open spec fn step_cells(last: Option<(usize, usize)>, to: (usize, usize)) -> Seq<(usize, usize)> {
    match last {
        Some(from) => line_cells(from.0 as int, from.1 as int, to.0 as int, to.1 as int),
        None => seq![to],
    }
}

/// The stroke that fits the way from one cell to another.
pub open spec fn stroke_between(a: (usize, usize), b: (usize, usize)) -> char {
    stroke_of(b.0 - a.0, b.1 - a.1)
}

/// The preview with the first `n` cells marked, each with its mark if it has
/// one. Where a cell comes twice, the later mark stands.
pub open spec fn with_marks(
    preview: Seq<Option<char>>,
    cells: Seq<(usize, usize)>,
    marks: Seq<Option<char>>,
    n: int,
) -> Seq<Option<char>>
    decreases n,
{
    if n <= 0 {
        preview
    } else {
        let before = with_marks(preview, cells, marks, n - 1);
        match marks[n - 1] {
            Some(ch) => before.update(
                cell_index(cells[n - 1].0 as int, cells[n - 1].1 as int),
                Some(ch),
            ),
            None => before,
        }
    }
}

// ---------------------------------------------------------------------------
// Steps of a stroke
// ---------------------------------------------------------------------------

impl<L> AppState<L> {
    /// Whether the blend mode keeps paint off a cell.
    pub open spec fn blocked(self, cell: (usize, usize)) -> bool {
        self.settings.blend_mode == BlendMode::Stamp && self.grid.committed_at(
            cell.0 as int,
            cell.1 as int,
        ) != BLANK
    }

    /// The character that the tool puts into a cell.
    pub open spec fn stamp(self, cell: (usize, usize)) -> char {
        self.bg.stamp(self.settings.tool, self.settings.brush_char, cell.0 as int, cell.1 as int)
    }

    /// The given cells painted in preview, except where the blend mode keeps
    /// paint off.
    pub open spec fn stamped(self, cells: Set<(usize, usize)>) -> AppState<L> {
        AppState {
            grid: GridState {
                preview: Seq::new(
                    CELLS as nat,
                    |i: int|
                        if cells.contains(cell_at(i)) && !self.blocked(cell_at(i)) {
                            Some(self.stamp(cell_at(i)))
                        } else {
                            self.grid.preview[i]
                        },
                ),
                ..self.grid
            },
            ..self
        }
    }

    /// The given cells marked in preview.
    pub open spec fn marked(self, cells: Seq<(usize, usize)>, marks: Seq<Option<char>>) -> AppState<L> {
        AppState {
            grid: GridState {
                preview: with_marks(self.grid.preview, cells, marks, cells.len() as int),
                ..self.grid
            },
            ..self
        }
    }

    /// The strokes of the art pencil. A resumed stroke corrects its last cell
    /// now that the way on from it is known; a new one begins with a dash. Cells
    /// that the blend mode keeps paint off have no stroke, and none to correct.
    pub open spec fn pencil_marks(self, cells: Seq<(usize, usize)>, resumed: bool) -> Seq<Option<char>> {
        Seq::new(
            cells.len(),
            |i: int|
                if self.blocked(cells[i]) {
                    None
                } else if i == 0 && resumed {
                    if cells.len() > 1 {
                        Some(stroke_between(cells[0], cells[1]))
                    } else {
                        None
                    }
                } else if i == 0 {
                    Some('-')
                } else {
                    Some(stroke_between(cells[i - 1], cells[i]))
                },
        )
    }

    /// The strokes of an art line: each cell has the stroke of the way that led
    /// to it, the first one that of the way on.
    pub open spec fn line_marks(self, cells: Seq<(usize, usize)>) -> Seq<Option<char>> {
        Seq::new(
            cells.len(),
            |i: int|
                if self.blocked(cells[i]) {
                    None
                } else if i > 0 {
                    Some(stroke_between(cells[i - 1], cells[i]))
                } else if cells.len() > 1 {
                    Some(stroke_between(cells[0], cells[1]))
                } else {
                    Some(stroke_of(0, 0))
                },
        )
    }

    /// The cell painted last remembered.
    pub open spec fn reached(self, cell: (usize, usize)) -> AppState<L> {
        AppState { stroke: Stroke { last_painted_cell: Some(cell), ..self.stroke }, ..self }
    }

    /// Nothing in preview.
    pub open spec fn preview_cleared(self) -> AppState<L> {
        AppState { grid: self.grid.aborted_preview(), ..self }
    }

    /// The axis that a step under Shift fixes, if it does: the one along which
    /// the stroke has come further. A tie fixes none, and neither does a step
    /// of a stroke that is fixed already.
    pub open spec fn axis_fixed(self, col: usize, row: usize, shift: bool) -> Option<Axis> {
        match self.stroke.draw_start {
            Some(start) => if self.stroke.locked_axis is Some || !shift {
                None
            } else if gap(start.0 as int, col as int) > gap(start.1 as int, row as int) {
                Some(Axis::Horizontal)
            } else if gap(start.1 as int, row as int) > gap(start.0 as int, col as int) {
                Some(Axis::Vertical)
            } else {
                None
            },
            None => None,
        }
    }

    /// The axis of the stroke after a step.
    pub open spec fn axis_after(self, col: usize, row: usize, shift: bool) -> Option<Axis> {
        match self.stroke.locked_axis {
            Some(axis) => Some(axis),
            None => self.axis_fixed(col, row, shift),
        }
    }

    /// Where a step leads: on the axis of the stroke, if it has one.
    pub open spec fn target(self, col: usize, row: usize, shift: bool) -> (usize, usize) {
        match (self.stroke.draw_start, self.axis_after(col, row, shift)) {
            (Some(start), Some(Axis::Horizontal)) => (col, start.1),
            (Some(start), Some(Axis::Vertical)) => (start.0, row),
            _ => (col, row),
        }
    }

    /// The state before a step is painted: where the step fixes an axis, what
    /// was painted freehand is taken back to the start of the stroke.
    pub open spec fn resolved(self, col: usize, row: usize, shift: bool) -> AppState<L> {
        match self.axis_fixed(col, row, shift) {
            Some(axis) => AppState {
                stroke: Stroke {
                    locked_axis: Some(axis),
                    last_painted_cell: self.stroke.draw_start,
                    ..self.stroke
                },
                ..self.preview_cleared()
            },
            None => self,
        }
    }

    /// A step of the pencil or the eraser.
    pub open spec fn painted_freehand(self, col: usize, row: usize, shift: bool) -> AppState<L> {
        let s = self.resolved(col, row, shift);
        let to = self.target(col, row, shift);
        let cells = step_cells(s.stroke.last_painted_cell, to);
        let painted = if self.settings.tool == Tool::Pencil && self.settings.pencil_mode == PencilMode::Art {
            s.marked(cells, s.pencil_marks(cells, s.stroke.last_painted_cell is Some))
        } else {
            s.stamped(cells.to_set())
        };
        painted.reached(to)
    }

    /// A step of the line tool: the whole line anew.
    pub open spec fn painted_line(self, col: usize, row: usize) -> AppState<L> {
        let s = self.preview_cleared();
        match self.stroke.draw_start {
            Some(start) => {
                let cells = line_cells(start.0 as int, start.1 as int, col as int, row as int);
                if s.bg.aa_active() || s.settings.line_mode == LineMode::Character {
                    s.stamped(cells.to_set())
                } else {
                    s.marked(cells, s.line_marks(cells))
                }
            },
            None => s,
        }.reached((col, row))
    }

    /// A step of a shape tool: the whole shape anew.
    pub open spec fn painted_shape(self, col: usize, row: usize, shift: bool) -> AppState<L> {
        let s = self.preview_cleared();
        match self.stroke.draw_start {
            Some(start) => s.stamped(
                shape_cells(self.settings.tool, drag_box(start, (col, row), shift)),
            ),
            None => s,
        }.reached((col, row))
    }

    /// What a fill at a cell spreads over.
    pub open spec fn fill_region(self, col: usize, row: usize) -> Region {
        Region {
            committed: self.grid.committed,
            target: self.grid.committed_at(col as int, row as int),
            diagonals: self.settings.fill_mode == FillMode::Flood8,
            start: (col, row),
        }
    }

    /// A step of the fill tool: only the first of a stroke fills, and not where
    /// the brush character is already.
    pub open spec fn painted_fill(self, col: usize, row: usize) -> AppState<L> {
        if self.stroke.last_painted_cell is Some {
            self
        } else if self.bg.aa_mode || self.grid.committed_at(col as int, row as int)
            != self.settings.brush_char {
            self.stamped(
                Set::new(|cell: (usize, usize)| self.fill_region(col, row).holds(cell)),
            ).reached((col, row))
        } else {
            self.reached((col, row))
        }
    }

    /// A step of the selection tool.
    pub open spec fn painted_selection(self, col: usize, row: usize) -> AppState<L> {
        match self.stroke.draw_start {
            Some(start) => AppState { selection: Some(spanning(start.0, start.1, col, row)), ..self },
            None => self,
        }.reached((col, row))
    }

    /// The state after a step of the stroke to a cell, with the tool in use.
    pub open spec fn painted(self, col: usize, row: usize, shift_held: bool) -> AppState<L> {
        let shift = shift_held || self.settings.shift_locked;
        match self.settings.tool {
            Tool::Pencil | Tool::Eraser => self.painted_freehand(col, row, shift),
            Tool::Line => self.painted_line(col, row),
            Tool::Rect | Tool::RectFill | Tool::Oval | Tool::OvalFill => self.painted_shape(col, row, shift),
            Tool::Select => self.painted_selection(col, row),
            Tool::Fill => self.painted_fill(col, row),
            Tool::Text | Tool::BgMove => self,
        }
    }
}

// ---------------------------------------------------------------------------
// Implementation
// ---------------------------------------------------------------------------

proof fn lemma_cell_at(i: int)
    requires
        0 <= i < CELLS,
    ensures
        on_canvas(cell_at(i).0 as int, cell_at(i).1 as int),
        cell_index(cell_at(i).0 as int, cell_at(i).1 as int) == i,
{
}

proof fn lemma_cell_index(col: usize, row: usize)
    requires
        on_canvas(col as int, row as int),
    ensures
        0 <= cell_index(col as int, row as int) < CELLS,
        cell_at(cell_index(col as int, row as int)) == (col, row),
{
}

proof fn lemma_take_contains<A>(s: Seq<A>, k: int, x: A)
    requires
        0 <= k < s.len(),
    ensures
        s.take(k + 1).contains(x) <==> s.take(k).contains(x) || s[k] == x,
{
    let long = s.take(k + 1);
    let short = s.take(k);
    if long.contains(x) {
        let i = choose|i: int| 0 <= i < long.len() && long[i] == x;
        if i < k {
            assert(short[i] == x);
        }
    }
    if short.contains(x) {
        let i = choose|i: int| 0 <= i < short.len() && short[i] == x;
        assert(long[i] == x);
    }
    if s[k] == x {
        assert(long[k] == x);
    }
}

/// The stroke that fits the way from one cell to another.
fn art_between(a: (usize, usize), b: (usize, usize)) -> (ch: char)
    requires
        on_canvas(a.0 as int, a.1 as int),
        on_canvas(b.0 as int, b.1 as int),
    ensures
        ch == stroke_between(a, b),
{
    art_char(b.0 as i32 - a.0 as i32, b.1 as i32 - a.1 as i32)
}

/// The line between two cells of the canvas.
fn line_on_canvas(from: (usize, usize), to: (usize, usize)) -> (cells: Vec<(usize, usize)>)
    requires
        on_canvas(from.0 as int, from.1 as int),
        on_canvas(to.0 as int, to.1 as int),
    ensures
        cells@ == line_cells(from.0 as int, from.1 as int, to.0 as int, to.1 as int),
        all_on_canvas(cells@),
        cells@.len() > 0,
{
    let cells: Vec<(usize, usize)> = bresenham(from.0, from.1, to.0, to.1);
    proof {
        law_line_ends(from.0, from.1, to.0, to.1);
        assert forall|i: int| 0 <= i < cells@.len() implies on_canvas(
            (#[trigger] cells@[i]).0 as int,
            cells@[i].1 as int,
        ) by {
            lemma_line_in_box(from.0, from.1, to.0, to.1, i);
        }
    }
    cells
}

/// The cells of a rectangle that are on the canvas.
fn rect_cells(left: i64, top: i64, right: i64, bottom: i64, filled: bool) -> (cells: Vec<(usize, usize)>)
    ensures
        forall|cell: (usize, usize)|
            #[trigger] cells@.contains(cell) <==> rect_holds(
                Extent {
                    left: left as int,
                    right: right as int,
                    top: top as int,
                    bottom: bottom as int,
                },
                filled,
                cell,
            ),
{
    let ghost e = Extent {
        left: left as int,
        right: right as int,
        top: top as int,
        bottom: bottom as int,
    };
    let mut cells: Vec<(usize, usize)> = Vec::new();
    let mut i: usize = 0;
    while i < CELLS
        invariant
            0 <= i <= CELLS,
            e == (Extent {
                left: left as int,
                right: right as int,
                top: top as int,
                bottom: bottom as int,
            }),
            forall|cell: (usize, usize)|
                #[trigger] cells@.contains(cell) <==> rect_holds(e, filled, cell) && cell_index(
                    cell.0 as int,
                    cell.1 as int,
                ) < i,
        decreases CELLS - i,
    {
        let col: usize = i % COLS;
        let row: usize = i / COLS;
        let x: i64 = col as i64;
        let y: i64 = row as i64;
        let ghost before = cells@;
        if left <= x && x <= right && top <= y && y <= bottom && (filled || x == left || x == right || y
            == top || y == bottom) {
            cells.push((col, row));
        }
        proof {
            assert forall|cell: (usize, usize)|
                #[trigger] cells@.contains(cell) <==> rect_holds(e, filled, cell) && cell_index(
                    cell.0 as int,
                    cell.1 as int,
                ) < i + 1 by {
                if cells@ != before {
                    assert(cells@ =~= before.push((col, row)));
                    assert(cells@.take(before.len() as int) =~= before);
                    assert(cells@.take(cells@.len() as int) =~= cells@);
                    lemma_take_contains(cells@, before.len() as int, cell);
                }
                assert(before.contains(cell) <==> rect_holds(e, filled, cell) && cell_index(
                    cell.0 as int,
                    cell.1 as int,
                ) < i);
                if rect_holds(e, filled, cell) && cell_index(cell.0 as int, cell.1 as int) == i {
                    lemma_cell_index(cell.0, cell.1);
                    assert(cell == (col, row));
                }
            }
        }
        i = i + 1;
    }
    proof {
        assert forall|cell: (usize, usize)|
            #[trigger] cells@.contains(cell) <==> rect_holds(e, filled, cell) by {
            if rect_holds(e, filled, cell) {
                lemma_cell_index(cell.0, cell.1);
            }
        }
    }
    cells
}

impl<L: Copy> App<L> {
    /// Whether the blend mode keeps paint off a cell.
    fn is_blocked(&self, col: usize, row: usize) -> (yes: bool)
        requires
            self@.wf(),
            on_canvas(col as int, row as int),
        ensures
            yes == self@.blocked((col, row)),
    {
        self.settings.blend_mode == BlendMode::Stamp && self.grid.committed[Grid::idx(col, row)] != BLANK
    }

    /// Paint the given cells in preview. Cells off the canvas are ignored.
    fn stamp_cells(&mut self, cells: &Vec<(usize, usize)>)
        requires
            old(self)@.wf(),
        ensures
            final(self)@.wf(),
            final(self)@ == old(self)@.stamped(cells@.to_set()),
    {
        let ghost before = self@;
        let mut k: usize = 0;
        assert(self@ =~= before.stamped(cells@.take(0).to_set()));
        while k < cells.len()
            invariant
                0 <= k <= cells@.len(),
                before.wf(),
                self@.wf(),
                self@ == before.stamped(cells@.take(k as int).to_set()),
            decreases cells@.len() - k,
        {
            let (col, row) = cells[k];
            let ghost old_preview = self@.grid.preview;
            if col < COLS && row < ROWS && !self.is_blocked(col, row) {
                let ch: char = self.bg.stamp_char(
                    self.settings.tool,
                    self.settings.brush_char,
                    col,
                    row,
                );
                self.grid.set_preview(col, row, Some(ch));
            }
            proof {
                let goal = before.stamped(cells@.take(k + 1).to_set());
                assert forall|i: int| 0 <= i < CELLS implies self@.grid.preview[i] == #[trigger] goal.grid.preview[i] by {
                    lemma_cell_at(i);
                    lemma_take_contains(cells@, k as int, cell_at(i));
                    if on_canvas(col as int, row as int) {
                        lemma_cell_index(col, row);
                    }
                }
                assert(self@.grid.preview =~= goal.grid.preview);
                assert(self@ =~= goal);
            }
            k = k + 1;
        }
        assert(cells@.take(cells@.len() as int) =~= cells@);
    }

    /// Mark the given cells in preview.
    fn mark_cells(&mut self, cells: &Vec<(usize, usize)>, marks: &Vec<Option<char>>)
        requires
            old(self)@.wf(),
            all_on_canvas(cells@),
            marks@.len() == cells@.len(),
        ensures
            final(self)@.wf(),
            final(self)@ == old(self)@.marked(cells@, marks@),
    {
        let ghost before = self@;
        let mut k: usize = 0;
        while k < cells.len()
            invariant
                0 <= k <= cells@.len(),
                all_on_canvas(cells@),
                marks@.len() == cells@.len(),
                self@.wf(),
                self@ == (AppState {
                    grid: GridState {
                        preview: with_marks(before.grid.preview, cells@, marks@, k as int),
                        ..before.grid
                    },
                    ..before
                }),
            decreases cells@.len() - k,
        {
            let (col, row) = cells[k];
            assert(on_canvas(cells@[k as int].0 as int, cells@[k as int].1 as int));
            if let Some(ch) = marks[k] {
                self.grid.set_preview(col, row, Some(ch));
            }
            k = k + 1;
        }
    }

    /// The strokes of the art pencil.
    fn art_pencil_marks(&self, cells: &Vec<(usize, usize)>, resumed: bool) -> (marks: Vec<Option<char>>)
        requires
            self@.wf(),
            all_on_canvas(cells@),
        ensures
            marks@ == self@.pencil_marks(cells@, resumed),
    {
        let mut marks: Vec<Option<char>> = Vec::new();
        let mut i: usize = 0;
        while i < cells.len()
            invariant
                0 <= i <= cells@.len(),
                self@.wf(),
                all_on_canvas(cells@),
                marks@ == self@.pencil_marks(cells@, resumed).take(i as int),
            decreases cells@.len() - i,
        {
            let (col, row) = cells[i];
            assert(on_canvas(cells@[i as int].0 as int, cells@[i as int].1 as int));
            let mark: Option<char> = if self.is_blocked(col, row) {
                None
            } else if i == 0 && resumed {
                if cells.len() > 1 {
                    assert(on_canvas(cells@[1].0 as int, cells@[1].1 as int));
                    Some(art_between(cells[0], cells[1]))
                } else {
                    None
                }
            } else if i == 0 {
                Some('-')
            } else {
                assert(on_canvas(cells@[i - 1].0 as int, cells@[i - 1].1 as int));
                Some(art_between(cells[i - 1], cells[i]))
            };
            marks.push(mark);
            i = i + 1;
            assert(marks@ =~= self@.pencil_marks(cells@, resumed).take(i as int));
        }
        assert(marks@ =~= self@.pencil_marks(cells@, resumed));
        marks
    }

    /// The strokes of an art line.
    fn art_line_marks(&self, cells: &Vec<(usize, usize)>) -> (marks: Vec<Option<char>>)
        requires
            self@.wf(),
            all_on_canvas(cells@),
        ensures
            marks@ == self@.line_marks(cells@),
    {
        let mut marks: Vec<Option<char>> = Vec::new();
        let mut i: usize = 0;
        while i < cells.len()
            invariant
                0 <= i <= cells@.len(),
                self@.wf(),
                all_on_canvas(cells@),
                marks@ == self@.line_marks(cells@).take(i as int),
            decreases cells@.len() - i,
        {
            let (col, row) = cells[i];
            assert(on_canvas(cells@[i as int].0 as int, cells@[i as int].1 as int));
            let mark: Option<char> = if self.is_blocked(col, row) {
                None
            } else if i > 0 {
                assert(on_canvas(cells@[i - 1].0 as int, cells@[i - 1].1 as int));
                Some(art_between(cells[i - 1], cells[i]))
            } else if cells.len() > 1 {
                assert(on_canvas(cells@[1].0 as int, cells@[1].1 as int));
                Some(art_between(cells[0], cells[1]))
            } else {
                Some(art_char(0, 0))
            };
            marks.push(mark);
            i = i + 1;
            assert(marks@ =~= self@.line_marks(cells@).take(i as int));
        }
        assert(marks@ =~= self@.line_marks(cells@));
        marks
    }

    /// Empty the preview and go back to the start of the stroke.
    fn clear_preview_for_snap(&mut self, axis: Axis)
        requires
            old(self)@.wf(),
        ensures
            final(self)@.wf(),
            final(self)@ == (AppState {
                stroke: Stroke {
                    locked_axis: Some(axis),
                    last_painted_cell: old(self)@.stroke.draw_start,
                    ..old(self)@.stroke
                },
                ..old(self)@.preview_cleared()
            }),
    {
        self.grid.abort_preview();
        self.stroke.locked_axis = Some(axis);
        self.stroke.last_painted_cell = self.stroke.draw_start;
    }

    /// The cell that a step leads to, on the axis of the stroke if it has one.
    /// Where the step fixes the axis, the preview starts over.
    fn resolve_target(&mut self, col: usize, row: usize, shift: bool) -> (to: (usize, usize))
        requires
            old(self)@.wf(),
            on_canvas(col as int, row as int),
        ensures
            final(self)@.wf(),
            final(self)@ == old(self)@.resolved(col, row, shift),
            to == old(self)@.target(col, row, shift),
            on_canvas(to.0 as int, to.1 as int),
    {
        let start: (usize, usize) = match self.stroke.draw_start {
            Some(start) => start,
            None => return (col, row),
        };
        if let Some(axis) = self.stroke.locked_axis {
            return match axis {
                Axis::Horizontal => (col, start.1),
                Axis::Vertical => (start.0, row),
            };
        }
        if shift {
            let dx: usize = if col >= start.0 { col - start.0 } else { start.0 - col };
            let dy: usize = if row >= start.1 { row - start.1 } else { start.1 - row };
            if dx > dy {
                self.clear_preview_for_snap(Axis::Horizontal);
                return (col, start.1);
            } else if dy > dx {
                self.clear_preview_for_snap(Axis::Vertical);
                return (start.0, row);
            }
        }
        (col, row)
    }

    /// A step of the pencil or the eraser.
    fn paint_freehand(&mut self, col: usize, row: usize, shift: bool)
        requires
            old(self)@.wf(),
            on_canvas(col as int, row as int),
        ensures
            final(self)@.wf(),
            final(self)@ == old(self)@.painted_freehand(col, row, shift),
    {
        let to: (usize, usize) = self.resolve_target(col, row, shift);
        let resumed: bool = self.stroke.last_painted_cell.is_some();
        let cells: Vec<(usize, usize)> = match self.stroke.last_painted_cell {
            Some(from) => line_on_canvas(from, to),
            None => vec![to],
        };
        assert(cells@ =~= step_cells(self@.stroke.last_painted_cell, to));
        assert(all_on_canvas(cells@));
        if self.settings.tool == Tool::Pencil && self.settings.pencil_mode == PencilMode::Art {
            let marks: Vec<Option<char>> = self.art_pencil_marks(&cells, resumed);
            self.mark_cells(&cells, &marks);
        } else {
            self.stamp_cells(&cells);
        }
        self.stroke.last_painted_cell = Some(to);
    }

    /// A step of the line tool.
    fn paint_line(&mut self, col: usize, row: usize)
        requires
            old(self)@.wf(),
            on_canvas(col as int, row as int),
        ensures
            final(self)@.wf(),
            final(self)@ == old(self)@.painted_line(col, row),
    {
        self.grid.abort_preview();
        assert(self@ =~= old(self)@.preview_cleared());
        if let Some(start) = self.stroke.draw_start {
            let cells: Vec<(usize, usize)> = line_on_canvas(start, (col, row));
            if self.bg.aa_active() || self.settings.line_mode == LineMode::Character {
                self.stamp_cells(&cells);
            } else {
                let marks: Vec<Option<char>> = self.art_line_marks(&cells);
                self.mark_cells(&cells, &marks);
            }
        }
        self.stroke.last_painted_cell = Some((col, row));
    }

    /// The cells of the shape that the tool draws between two cells.
    fn drag_shape(&self, start: (usize, usize), to: (usize, usize), centred: bool) -> (cells: Vec<
        (usize, usize),
    >)
        requires
            on_canvas(start.0 as int, start.1 as int),
            on_canvas(to.0 as int, to.1 as int),
        ensures
            cells@.to_set() == shape_cells(self@.settings.tool, drag_box(start, to, centred)),
    {
        let sc: i64 = start.0 as i64;
        let sr: i64 = start.1 as i64;
        let col: i64 = to.0 as i64;
        let row: i64 = to.1 as i64;
        let dx: i64 = if col >= sc { col - sc } else { sc - col };
        let dy: i64 = if row >= sr { row - sr } else { sr - row };
        let ghost e = drag_box(start, to, centred);
        let (left, right): (i64, i64) = if centred {
            (sc - dx, sc + dx)
        } else if sc <= col {
            (sc, col)
        } else {
            (col, sc)
        };
        let (top, bottom): (i64, i64) = if centred {
            (sr - dy, sr + dy)
        } else if sr <= row {
            (sr, row)
        } else {
            (row, sr)
        };
        assert(e.left == left && e.right == right && e.top == top && e.bottom == bottom);
        assert(extent(left as int, top as int, right as int, bottom as int) =~= e);
        assert(spans_fit(gap(left as int, right as int), gap(top as int, bottom as int))) by {
            let a = gap(left as int, right as int);
            let b = gap(top as int, bottom as int);
            assert((a + 4) * (a + 4) <= 164 * 164) by (nonlinear_arith)
                requires
                    0 <= a <= 160,
            ;
            assert((b + 4) * (b + 4) <= 52 * 52) by (nonlinear_arith)
                requires
                    0 <= b <= 48,
            ;
            let p = (a + 4) * (a + 4);
            let q = (b + 4) * (b + 4);
            assert(8 * p * q <= 8 * (164 * 164) * (52 * 52)) by (nonlinear_arith)
                requires
                    0 <= p <= 164 * 164,
                    0 <= q <= 52 * 52,
            ;
            assert(p >= 0 && q >= 0) by (nonlinear_arith)
                requires
                    p == (a + 4) * (a + 4),
                    q == (b + 4) * (b + 4),
            ;
        }
        match self.settings.tool {
            Tool::Rect => {
                let cells: Vec<(usize, usize)> = rect_cells(left, top, right, bottom, false);
                assert(cells@.to_set() =~= shape_cells(Tool::Rect, e));
                cells
            },
            Tool::RectFill => {
                let cells: Vec<(usize, usize)> = rect_cells(left, top, right, bottom, true);
                assert(cells@.to_set() =~= shape_cells(Tool::RectFill, e));
                cells
            },
            Tool::Oval => ellipse_cells(left, top, right, bottom),
            Tool::OvalFill => filled_ellipse_cells(left, top, right, bottom),
            _ => {
                let cells: Vec<(usize, usize)> = Vec::new();
                assert(cells@.to_set() =~= Set::empty());
                cells
            },
        }
    }

    /// A step of a shape tool.
    fn paint_shape(&mut self, col: usize, row: usize, shift: bool)
        requires
            old(self)@.wf(),
            on_canvas(col as int, row as int),
        ensures
            final(self)@.wf(),
            final(self)@ == old(self)@.painted_shape(col, row, shift),
    {
        self.grid.abort_preview();
        assert(self@ =~= old(self)@.preview_cleared());
        if let Some(start) = self.stroke.draw_start {
            let cells: Vec<(usize, usize)> = self.drag_shape(start, (col, row), shift);
            self.stamp_cells(&cells);
        }
        self.stroke.last_painted_cell = Some((col, row));
    }

    /// A step of the fill tool.
    fn paint_fill(&mut self, col: usize, row: usize)
        requires
            old(self)@.wf(),
            on_canvas(col as int, row as int),
        ensures
            final(self)@.wf(),
            final(self)@ == old(self)@.painted_fill(col, row),
    {
        if self.stroke.last_painted_cell.is_some() {
            return;
        }
        let target: char = self.grid.committed[Grid::idx(col, row)];
        if self.bg.aa_mode || target != self.settings.brush_char {
            let cells: Vec<(usize, usize)> = flood_fill_cells(
                col,
                row,
                target,
                self.grid.committed.as_slice(),
                self.settings.fill_mode == FillMode::Flood8,
            );
            let ghost s = self@;
            assert(cells@.to_set() =~= Set::new(
                |cell: (usize, usize)| s.fill_region(col, row).holds(cell),
            ));
            self.stamp_cells(&cells);
        }
        self.stroke.last_painted_cell = Some((col, row));
    }

    /// Paint a step of the stroke to a cell into the preview, with the tool in
    /// use. Pencil and eraser go on from the last cell; lines and shapes are
    /// drawn anew from the start of the stroke; a fill fills once; the selection
    /// tool selects.
    pub fn paint_stroke_to(&mut self, col: usize, row: usize, shift_held: bool)
        requires
            old(self)@.wf(),
            on_canvas(col as int, row as int),
        ensures
            final(self)@.wf(),
            final(self)@ == old(self)@.painted(col, row, shift_held),
    {
        let shift: bool = shift_held || self.settings.shift_locked;
        match self.settings.tool {
            Tool::Pencil | Tool::Eraser => self.paint_freehand(col, row, shift),
            Tool::Line => self.paint_line(col, row),
            Tool::Rect | Tool::RectFill | Tool::Oval | Tool::OvalFill => self.paint_shape(col, row, shift),
            Tool::Select => {
                if let Some(start) = self.stroke.draw_start {
                    self.apply_selection(start.0, start.1, col, row);
                }
                self.stroke.last_painted_cell = Some((col, row));
            },
            Tool::Fill => self.paint_fill(col, row),
            Tool::Text | Tool::BgMove => {},
        }
    }
}

proof fn lemma_freehand_fits<L>(s: AppState<L>, col: usize, row: usize, shift: bool)
    requires
        s.wf(),
        on_canvas(col as int, row as int),
    ensures
        s.painted_freehand(col, row, shift).grid.preview.len() == CELLS,
{
    let to = s.target(col, row, shift);
    let r = s.resolved(col, row, shift);
    let cells = step_cells(r.stroke.last_painted_cell, to);
    if let Some(from) = r.stroke.last_painted_cell {
        lemma_line_on_canvas(from, to);
    }
    let marks = r.pencil_marks(cells, r.stroke.last_painted_cell is Some);
    lemma_marks_len(r.grid.preview, cells, marks, cells.len() as int);
}

proof fn lemma_line_fits<L>(s: AppState<L>, col: usize, row: usize)
    requires
        s.wf(),
        on_canvas(col as int, row as int),
    ensures
        s.painted_line(col, row).grid.preview.len() == CELLS,
{
    if let Some(start) = s.stroke.draw_start {
        let cells = line_cells(start.0 as int, start.1 as int, col as int, row as int);
        lemma_line_on_canvas(start, (col, row));
        let r = s.preview_cleared();
        lemma_marks_len(r.grid.preview, cells, r.line_marks(cells), cells.len() as int);
    }
}

/// A step keeps the preview as large as the canvas, and the stroke and the
/// selection on it.
pub proof fn lemma_painted_fits<L>(s: AppState<L>, col: usize, row: usize, shift: bool)
    requires
        s.wf(),
        on_canvas(col as int, row as int),
    ensures
        s.painted(col, row, shift).grid.preview.len() == CELLS,
        cell_ok(s.painted(col, row, shift).stroke.last_painted_cell),
        match s.painted(col, row, shift).selection {
            Some(sel) => sel.wf(),
            None => true,
        },
{
    lemma_freehand_fits(s, col, row, shift || s.settings.shift_locked);
    lemma_line_fits(s, col, row);
}

// ---------------------------------------------------------------------------
// Laws
// ---------------------------------------------------------------------------

/// Painting goes into the preview only: the committed layer, the history, the
/// settings and the background stay, and so do the start and the state of the
/// stroke. The selection changes with the selection tool only.
pub proof fn law_painting_is_preview<L>(s: AppState<L>, col: usize, row: usize, shift: bool)
    requires
        s.wf(),
        on_canvas(col as int, row as int),
    ensures
        ({
            let t = s.painted(col, row, shift);
            &&& t == (AppState {
                grid: GridState { preview: t.grid.preview, ..s.grid },
                stroke: Stroke {
                    locked_axis: t.stroke.locked_axis,
                    last_painted_cell: t.stroke.last_painted_cell,
                    ..s.stroke
                },
                selection: t.selection,
                ..s
            })
            &&& s.settings.tool != Tool::Select ==> t.selection == s.selection
            &&& s.settings.tool == Tool::Select ==> t.grid == s.grid
        }),
{
}

/// Lines and shapes leave no smear: the preview depends on where the drag is
/// now, not on where it has been.
pub proof fn law_shapes_leave_no_smear<L>(
    s: AppState<L>,
    over: (usize, usize),
    over_shift: bool,
    to: (usize, usize),
    shift: bool,
)
    requires
        s.wf(),
        on_canvas(over.0 as int, over.1 as int),
        on_canvas(to.0 as int, to.1 as int),
        s.settings.tool == Tool::Line || s.settings.tool == Tool::Rect || s.settings.tool
            == Tool::RectFill || s.settings.tool == Tool::Oval || s.settings.tool == Tool::OvalFill,
    ensures
        s.painted(over.0, over.1, over_shift).painted(to.0, to.1, shift) == s.painted(to.0, to.1, shift),
{
    let t = s.painted(over.0, over.1, over_shift);
    law_painting_is_preview(s, over.0, over.1, over_shift);
    let b = s.preview_cleared();
    assert(t.preview_cleared() =~= (AppState { stroke: t.stroke, ..b }));
    if let Some(start) = s.stroke.draw_start {
        if s.settings.tool == Tool::Line {
            let cells = line_cells(start.0 as int, start.1 as int, to.0 as int, to.1 as int);
            lemma_stamp_ignores_stroke(b, t.stroke, cells.to_set());
            lemma_marks_ignore_stroke(b, t.stroke, cells);
        } else {
            let cells = shape_cells(
                s.settings.tool,
                drag_box(start, to, shift || s.settings.shift_locked),
            );
            lemma_stamp_ignores_stroke(b, t.stroke, cells);
        }
    }
}

proof fn lemma_stamp_ignores_stroke<L>(s: AppState<L>, stroke: Stroke, cells: Set<(usize, usize)>)
    ensures
        (AppState { stroke, ..s }).stamped(cells) == (AppState { stroke, ..s.stamped(cells) }),
{
    let t = AppState { stroke, ..s };
    assert(t.stamped(cells).grid.preview =~= s.stamped(cells).grid.preview);
}

proof fn lemma_marks_ignore_stroke<L>(s: AppState<L>, stroke: Stroke, cells: Seq<(usize, usize)>)
    ensures
        (AppState { stroke, ..s }).line_marks(cells) == s.line_marks(cells),
{
    let t = AppState { stroke, ..s };
    assert(t.line_marks(cells) =~= s.line_marks(cells));
}

proof fn lemma_marks_elsewhere(
    preview: Seq<Option<char>>,
    cells: Seq<(usize, usize)>,
    marks: Seq<Option<char>>,
    n: int,
    col: usize,
    row: usize,
)
    requires
        0 <= n <= cells.len(),
        cells.len() == marks.len(),
        preview.len() == CELLS,
        all_on_canvas(cells),
        on_canvas(col as int, row as int),
        forall|k: int| 0 <= k < n && cells[k] == (col, row) ==> #[trigger] marks[k] is None,
    ensures
        with_marks(preview, cells, marks, n).len() == CELLS,
        with_marks(preview, cells, marks, n)[cell_index(col as int, row as int)] == preview[cell_index(
            col as int,
            row as int,
        )],
    decreases n,
{
    if n > 0 {
        lemma_marks_elsewhere(preview, cells, marks, n - 1, col, row);
        let cell = cells[n - 1];
        assert(on_canvas(cell.0 as int, cell.1 as int));
        lemma_cell_index(cell.0, cell.1);
        lemma_cell_index(col, row);
        if marks[n - 1] is Some {
            assert(cell != (col, row));
        }
    }
}

proof fn lemma_marks_at(
    preview: Seq<Option<char>>,
    cells: Seq<(usize, usize)>,
    marks: Seq<Option<char>>,
    n: int,
    k: int,
)
    requires
        0 <= k < n <= cells.len(),
        cells.len() == marks.len(),
        preview.len() == CELLS,
        all_on_canvas(cells),
        cells.no_duplicates(),
        marks[k] is Some,
    ensures
        with_marks(preview, cells, marks, n).len() == CELLS,
        with_marks(preview, cells, marks, n)[cell_index(cells[k].0 as int, cells[k].1 as int)] == marks[k],
    decreases n,
{
    let cell = cells[k];
    assert(on_canvas(cell.0 as int, cell.1 as int));
    lemma_cell_index(cell.0, cell.1);
    if k < n - 1 {
        lemma_marks_at(preview, cells, marks, n - 1, k);
        let last = cells[n - 1];
        assert(on_canvas(last.0 as int, last.1 as int));
        lemma_cell_index(last.0, last.1);
        assert(last != cell);
    } else {
        lemma_marks_len(preview, cells, marks, n - 1);
    }
}

proof fn lemma_marks_len(
    preview: Seq<Option<char>>,
    cells: Seq<(usize, usize)>,
    marks: Seq<Option<char>>,
    n: int,
)
    requires
        preview.len() == CELLS,
        n <= cells.len(),
        all_on_canvas(cells),
    ensures
        with_marks(preview, cells, marks, n).len() == CELLS,
    decreases n,
{
    if n > 0 {
        lemma_marks_len(preview, cells, marks, n - 1);
        let cell = cells[n - 1];
        assert(on_canvas(cell.0 as int, cell.1 as int));
    }
}

proof fn lemma_line_on_canvas(from: (usize, usize), to: (usize, usize))
    requires
        on_canvas(from.0 as int, from.1 as int),
        on_canvas(to.0 as int, to.1 as int),
    ensures
        all_on_canvas(line_cells(from.0 as int, from.1 as int, to.0 as int, to.1 as int)),
{
    let cells = line_cells(from.0 as int, from.1 as int, to.0 as int, to.1 as int);
    assert forall|i: int| 0 <= i < cells.len() implies on_canvas(
        (#[trigger] cells[i]).0 as int,
        cells[i].1 as int,
    ) by {
        lemma_line_in_box(from.0, from.1, to.0, to.1, i);
    }
}

/// In Stamp mode a step paints nothing over a cell that is committed with
/// something, whatever the tool: its preview is as it was, or emptied.
pub proof fn law_stamp_spares_occupied_cells<L>(
    s: AppState<L>,
    col: usize,
    row: usize,
    shift: bool,
    cell: (usize, usize),
)
    requires
        s.wf(),
        on_canvas(col as int, row as int),
        on_canvas(cell.0 as int, cell.1 as int),
        s.settings.blend_mode == BlendMode::Stamp,
        s.grid.committed_at(cell.0 as int, cell.1 as int) != BLANK,
    ensures
        ({
            let i = cell_index(cell.0 as int, cell.1 as int);
            let after = s.painted(col, row, shift).grid.preview[i];
            after is None || after == s.grid.preview[i]
        }),
{
    lemma_cell_index(cell.0, cell.1);
    if s.settings.tool == Tool::Line && s.stroke.draw_start is Some {
        let t = s.preview_cleared();
        let start = s.stroke.draw_start->0;
        let cells = line_cells(start.0 as int, start.1 as int, col as int, row as int);
        lemma_line_on_canvas(start, (col, row));
        let marks = t.line_marks(cells);
        assert forall|k: int| 0 <= k < cells.len() && cells[k] == cell implies #[trigger] marks[k] is None by {
            assert(t.blocked(cells[k]));
        }
        lemma_marks_elsewhere(t.grid.preview, cells, marks, cells.len() as int, cell.0, cell.1);
    }
    if s.settings.tool == Tool::Pencil {
        let held = shift || s.settings.shift_locked;
        let t = s.resolved(col, row, held);
        let to = s.target(col, row, held);
        let cells = step_cells(t.stroke.last_painted_cell, to);
        if let Some(from) = t.stroke.last_painted_cell {
            lemma_line_on_canvas(from, to);
        }
        let marks = t.pencil_marks(cells, t.stroke.last_painted_cell is Some);
        assert forall|k: int| 0 <= k < cells.len() && cells[k] == cell implies #[trigger] marks[k] is None by {
            assert(t.blocked(cells[k]));
        }
        lemma_marks_elsewhere(t.grid.preview, cells, marks, cells.len() as int, cell.0, cell.1);
    }
}

/// The art line is exactly the line: every cell of it has its stroke, or
/// nothing where the blend mode keeps paint off, and no other cell is painted.
pub proof fn law_art_line<L>(s: AppState<L>, start: (usize, usize), to: (usize, usize), cell: (usize, usize), k: int)
    requires
        s.wf(),
        s.settings.tool == Tool::Line,
        s.settings.line_mode == LineMode::Art,
        !s.bg.aa_active(),
        s.stroke.draw_start == Some(start),
        on_canvas(to.0 as int, to.1 as int),
        on_canvas(cell.0 as int, cell.1 as int),
    ensures
        ({
            let cells = line_cells(start.0 as int, start.1 as int, to.0 as int, to.1 as int);
            let after = s.painted_line(to.0, to.1).grid.preview[cell_index(cell.0 as int, cell.1 as int)];
            &&& 0 <= k < cells.len() && cells[k] == cell ==> after == s.line_marks(cells)[k]
            &&& !cells.contains(cell) ==> after is None
        }),
{
    let t = s.preview_cleared();
    let cells = line_cells(start.0 as int, start.1 as int, to.0 as int, to.1 as int);
    lemma_line_on_canvas(start, to);
    lemma_cell_index(cell.0, cell.1);
    let marks = t.line_marks(cells);
    assert(marks =~= s.line_marks(cells));
    assert forall|i: int, j: int| 0 <= i < cells.len() && 0 <= j < cells.len() && i != j implies cells[i]
        != cells[j] by {
        law_line_visits_once(start.0, start.1, to.0, to.1, i, j);
    }
    if 0 <= k < cells.len() && cells[k] == cell {
        if marks[k] is Some {
            lemma_marks_at(t.grid.preview, cells, marks, cells.len() as int, k);
        } else {
            assert forall|m: int| 0 <= m < cells.len() && cells[m] == cell implies #[trigger] marks[m] is None by {
                assert(m == k);
            }
            lemma_marks_elsewhere(t.grid.preview, cells, marks, cells.len() as int, cell.0, cell.1);
        }
    }
    if !cells.contains(cell) {
        assert forall|m: int| 0 <= m < cells.len() && cells[m] == cell implies #[trigger] marks[m] is None by {
            assert(cells.contains(cells[m]));
        }
        lemma_marks_elsewhere(t.grid.preview, cells, marks, cells.len() as int, cell.0, cell.1);
    }
}

/// Filling with the character that is there already does nothing to the canvas.
pub proof fn law_fill_with_same_character<L>(s: AppState<L>, col: usize, row: usize)
    requires
        s.wf(),
        on_canvas(col as int, row as int),
        !s.bg.aa_mode,
        s.grid.committed_at(col as int, row as int) == s.settings.brush_char,
    ensures
        s.painted_fill(col, row).grid == s.grid,
        s.settings.tool == Tool::Fill ==> s.painted(col, row, false).grid == s.grid,
{
}

/// A stroke of the fill tool fills once: moving on with the button held does
/// nothing.
pub proof fn law_fill_fills_once<L>(
    s: AppState<L>,
    at: (usize, usize),
    shift: bool,
    to: (usize, usize),
    to_shift: bool,
)
    requires
        s.wf(),
        s.settings.tool == Tool::Fill,
        on_canvas(at.0 as int, at.1 as int),
        on_canvas(to.0 as int, to.1 as int),
    ensures
        s.painted(at.0, at.1, shift).painted(to.0, to.1, to_shift) == s.painted(at.0, at.1, shift),
{
}

/// Once a stroke of the pencil or the eraser is fixed to an axis it stays on
/// it, whether Shift is held or not.
pub proof fn law_axis_stays_fixed<L>(s: AppState<L>, col: usize, row: usize, shift: bool)
    requires
        s.wf(),
        on_canvas(col as int, row as int),
        s.settings.tool == Tool::Pencil || s.settings.tool == Tool::Eraser,
        s.stroke.draw_start is Some,
        s.stroke.locked_axis is Some,
    ensures
        ({
            let start = s.stroke.draw_start->0;
            let t = s.painted(col, row, shift);
            let last = t.stroke.last_painted_cell->0;
            &&& t.stroke.locked_axis == s.stroke.locked_axis
            &&& t.stroke.last_painted_cell is Some
            &&& s.stroke.locked_axis == Some(Axis::Horizontal) ==> last.1 == start.1
            &&& s.stroke.locked_axis == Some(Axis::Vertical) ==> last.0 == start.0
        }),
{
}

/// The step that fixes the axis leaves a clean straight line from the start of
/// the stroke: every painted cell is on the axis.
pub proof fn law_fixing_axis_straightens<L>(
    s: AppState<L>,
    col: usize,
    row: usize,
    shift: bool,
    cell: (usize, usize),
)
    requires
        s.wf(),
        on_canvas(col as int, row as int),
        on_canvas(cell.0 as int, cell.1 as int),
        s.settings.tool == Tool::Eraser || s.settings.tool == Tool::Pencil && s.settings.pencil_mode
            == PencilMode::Normal,
        s.axis_fixed(col, row, shift || s.settings.shift_locked) is Some,
        s.painted(col, row, shift).grid.preview[cell_index(cell.0 as int, cell.1 as int)] is Some,
    ensures
        ({
            let start = s.stroke.draw_start->0;
            match s.axis_fixed(col, row, shift || s.settings.shift_locked)->0 {
                Axis::Horizontal => cell.1 == start.1,
                Axis::Vertical => cell.0 == start.0,
            }
        }),
{
    let held = shift || s.settings.shift_locked;
    let start = s.stroke.draw_start->0;
    let to = s.target(col, row, held);
    let cells = line_cells(start.0 as int, start.1 as int, to.0 as int, to.1 as int);
    lemma_cell_index(cell.0, cell.1);
    assert(cells.to_set().contains(cell));
    let k = choose|k: int| 0 <= k < cells.len() && cells[k] == cell;
    lemma_line_in_box(start.0, start.1, to.0, to.1, k);
}

/// The eraser in Overwrite mode leaves blanks on the whole way from the last
/// cell.
pub proof fn law_eraser_leaves_blanks<L>(s: AppState<L>, to: (usize, usize), k: int)
    requires
        s.wf(),
        on_canvas(to.0 as int, to.1 as int),
        s.settings.tool == Tool::Eraser,
        s.settings.blend_mode != BlendMode::Stamp,
        !s.settings.shift_locked,
        s.stroke.locked_axis is None,
        0 <= k < step_cells(s.stroke.last_painted_cell, to).len(),
    ensures
        ({
            let cell = step_cells(s.stroke.last_painted_cell, to)[k];
            s.painted(to.0, to.1, false).grid.display(cell.0 as int, cell.1 as int) == BLANK
        }),
{
    let cells = step_cells(s.stroke.last_painted_cell, to);
    if let Some(from) = s.stroke.last_painted_cell {
        lemma_line_on_canvas(from, to);
    }
    let cell = cells[k];
    assert(on_canvas(cell.0 as int, cell.1 as int));
    lemma_cell_index(cell.0, cell.1);
    assert(cells.to_set().contains(cell));
}

/// The pencil in its normal mode and in Overwrite mode paints the whole way from
/// the last cell, and nothing else.
pub proof fn law_pencil_paints_the_way<L>(s: AppState<L>, to: (usize, usize), cell: (usize, usize))
    requires
        s.wf(),
        on_canvas(to.0 as int, to.1 as int),
        on_canvas(cell.0 as int, cell.1 as int),
        s.settings.tool == Tool::Pencil,
        s.settings.pencil_mode == PencilMode::Normal,
        s.settings.blend_mode != BlendMode::Stamp,
        !s.settings.shift_locked,
        s.stroke.locked_axis is None,
    ensures
        ({
            let i = cell_index(cell.0 as int, cell.1 as int);
            let after = s.painted(to.0, to.1, false).grid.preview[i];
            if step_cells(s.stroke.last_painted_cell, to).contains(cell) {
                after == Some(s.stamp(cell))
            } else {
                after == s.grid.preview[i]
            }
        }),
{
    lemma_cell_index(cell.0, cell.1);
}

/// Whether a character looks like a step from one cell to another: `-` within a
/// row, `|` within a column, `\` where column and row grow or shrink together,
/// `/` where one grows and the other shrinks.
pub open spec fn fits_step(ch: char, a: (usize, usize), b: (usize, usize)) -> bool {
    &&& a.1 == b.1 && a.0 != b.0 ==> ch == '-'
    &&& a.0 == b.0 && a.1 != b.1 ==> ch == '|'
    &&& a.0 < b.0 && a.1 < b.1 ==> ch == '\\'
    &&& a.0 > b.0 && a.1 > b.1 ==> ch == '\\'
    &&& a.0 < b.0 && a.1 > b.1 ==> ch == '/'
    &&& a.0 > b.0 && a.1 < b.1 ==> ch == '/'
}

/// With Shift held and no axis fixed yet, a step of the pencil or the eraser
/// fixes the axis along which it has come further from the start, whichever way
/// it went, and goes on along that axis. A tie fixes none, and neither does a
/// step without Shift.
pub proof fn law_axis_by_distance<L>(s: AppState<L>, start: (usize, usize), col: usize, row: usize, shift: bool)
    requires
        s.wf(),
        on_canvas(col as int, row as int),
        s.settings.tool == Tool::Pencil || s.settings.tool == Tool::Eraser,
        s.stroke.draw_start == Some(start),
        s.stroke.locked_axis is None,
    ensures
        ({
            let held = shift || s.settings.shift_locked;
            let dc = if col >= start.0 { col - start.0 } else { start.0 - col };
            let dr = if row >= start.1 { row - start.1 } else { start.1 - row };
            let t = s.painted(col, row, shift).stroke;
            &&& held && dc > dr ==> t.locked_axis == Some(Axis::Horizontal) && t.last_painted_cell == Some(
                (col, start.1),
            )
            &&& held && dr > dc ==> t.locked_axis == Some(Axis::Vertical) && t.last_painted_cell == Some(
                (start.0, row),
            )
            &&& !held || dc == dr ==> t.locked_axis is None && t.last_painted_cell == Some((col, row))
        }),
{
}

/// Once an axis is fixed, steps follow the pointer along it: the column on the
/// horizontal one and the row on the vertical one, with the other coordinate that
/// of the start.
pub proof fn law_steps_follow_fixed_axis<L>(s: AppState<L>, start: (usize, usize), col: usize, row: usize, shift: bool)
    requires
        s.wf(),
        on_canvas(col as int, row as int),
        s.settings.tool == Tool::Pencil || s.settings.tool == Tool::Eraser,
        s.stroke.draw_start == Some(start),
    ensures
        s.stroke.locked_axis == Some(Axis::Horizontal) ==> s.painted(col, row, shift).stroke.last_painted_cell == Some(
            (col, start.1),
        ),
        s.stroke.locked_axis == Some(Axis::Vertical) ==> s.painted(col, row, shift).stroke.last_painted_cell == Some(
            (start.0, row),
        ),
        s.stroke.locked_axis is Some ==> s.painted(col, row, shift).stroke.locked_axis == s.stroke.locked_axis,
{
}

/// Steps that are mirror images of each other about the start, left to right or
/// top to bottom or both, fix the same axis.
pub proof fn law_axis_of_mirrored_step<L>(
    s: AppState<L>,
    start: (usize, usize),
    a: (usize, usize),
    b: (usize, usize),
    shift: bool,
)
    requires
        s.wf(),
        on_canvas(a.0 as int, a.1 as int),
        on_canvas(b.0 as int, b.1 as int),
        s.settings.tool == Tool::Pencil || s.settings.tool == Tool::Eraser,
        s.stroke.draw_start == Some(start),
        a.0 == b.0 || a.0 + b.0 == 2 * start.0,
        a.1 == b.1 || a.1 + b.1 == 2 * start.1,
    ensures
        s.painted(a.0, a.1, shift).stroke.locked_axis == s.painted(b.0, b.1, shift).stroke.locked_axis,
{
}

/// A step of the pencil in its normal mode or of the eraser covers the line from
/// the last cell to the one it leads to, or that cell alone at the beginning of
/// a stroke; where it fixes the axis, the line from the start and nothing else.
/// Covered cells get the tool's character, but in Stamp mode blank ones only.
pub proof fn law_freehand_covers_the_way<L>(
    s: AppState<L>,
    col: usize,
    row: usize,
    shift: bool,
    cell: (usize, usize),
)
    requires
        s.wf(),
        on_canvas(col as int, row as int),
        on_canvas(cell.0 as int, cell.1 as int),
        s.settings.tool == Tool::Eraser || s.settings.tool == Tool::Pencil && s.settings.pencil_mode
            == PencilMode::Normal,
    ensures
        ({
            let t = s.painted(col, row, shift);
            let i = 80 * cell.1 + cell.0;
            let to = t.stroke.last_painted_cell->0;
            let fixed_now = s.stroke.locked_axis != t.stroke.locked_axis;
            let from = if fixed_now { s.stroke.draw_start } else { s.stroke.last_painted_cell };
            let covered = match from {
                Some(f) => line_cells(f.0 as int, f.1 as int, to.0 as int, to.1 as int).contains(cell),
                None => cell == to,
            };
            let free = s.settings.blend_mode != BlendMode::Stamp || s.grid.committed[i] == ' ';
            &&& t.stroke.last_painted_cell is Some
            &&& covered && free ==> t.grid.preview[i] == Some(
                s.bg.stamp(s.settings.tool, s.settings.brush_char, cell.0 as int, cell.1 as int),
            )
            &&& !(covered && free) ==> t.grid.preview[i] == if fixed_now {
                None
            } else {
                s.grid.preview[i]
            }
        }),
{
    lemma_cell_index(cell.0, cell.1);
    let t = s.painted(col, row, shift);
    let to = t.stroke.last_painted_cell->0;
    if s.stroke.locked_axis == t.stroke.locked_axis && s.stroke.last_painted_cell is None {
        assert(seq![to].to_set().contains(cell) <==> cell == to) by {
            if cell == to {
                assert(seq![to][0] == cell);
            }
        }
    }
}

/// The strokes that the art pencil puts into the preview, for a way that begins
/// at `from`.
proof fn lemma_art_strokes<L>(
    r: AppState<L>,
    from: Option<(usize, usize)>,
    to: (usize, usize),
    cell: (usize, usize),
    k: int,
)
    requires
        r.grid.preview.len() == CELLS,
        cell_ok(from),
        on_canvas(to.0 as int, to.1 as int),
        on_canvas(cell.0 as int, cell.1 as int),
    ensures
        ({
            let cells = step_cells(from, to);
            let i = cell_index(cell.0 as int, cell.1 as int);
            let after = r.marked(cells, r.pencil_marks(cells, from is Some)).grid.preview[i];
            let before = r.grid.preview[i];
            let free = !r.blocked(cell);
            &&& !free ==> after == before
            &&& from is None ==> after == if cell == to && free {
                Some('-')
            } else {
                before
            }
            &&& from is Some ==> {
                &&& !cells.contains(cell) ==> after == before
                &&& cells.len() == 1 ==> after == before
                &&& 0 < k < cells.len() && cells[k] == cell && free ==> after == Some(
                    stroke_between(cells[k - 1], cells[k]),
                )
                &&& cells.len() > 1 && cells[0] == cell && free ==> after == Some(
                    stroke_between(cells[0], cells[1]),
                )
            }
        }),
{
    let cells = step_cells(from, to);
    let marks = r.pencil_marks(cells, from is Some);
    if let Some(f) = from {
        lemma_line_on_canvas(f, to);
        lemma_line_distinct(f, to);
    } else {
        assert(cells[0] == to);
    }
    lemma_marked_cell(r.grid.preview, cells, marks, cell);
    if cells.contains(cell) {
        let m = choose|m: int| 0 <= m < cells.len() && cells[m] == cell;
        assert(cells[m] == cell);
    }
    if from is None && cell == to {
        assert(cells[0] == cell);
    }
}

/// The parts of a step of the pencil or the eraser.
proof fn lemma_freehand_parts<L>(s: AppState<L>, col: usize, row: usize, shift: bool)
    requires
        s.wf(),
        on_canvas(col as int, row as int),
        s.settings.tool == Tool::Pencil || s.settings.tool == Tool::Eraser,
    ensures
        ({
            let held = shift || s.settings.shift_locked;
            let t = s.painted(col, row, shift);
            let r = s.resolved(col, row, held);
            let to = s.target(col, row, held);
            let fixed_now = s.stroke.locked_axis != t.stroke.locked_axis;
            &&& t.stroke.last_painted_cell == Some(to)
            &&& on_canvas(to.0 as int, to.1 as int)
            &&& r.stroke.last_painted_cell == if fixed_now {
                s.stroke.draw_start
            } else {
                s.stroke.last_painted_cell
            }
            &&& r.grid.preview.len() == CELLS
            &&& fixed_now ==> r.grid.preview == crate::grid::no_preview()
            &&& !fixed_now ==> r.grid.preview == s.grid.preview
            &&& r.grid.committed == s.grid.committed
            &&& r.settings == s.settings
        }),
{
}

proof fn lemma_stroke_fits(a: (usize, usize), b: (usize, usize))
    ensures
        fits_step(stroke_between(a, b), a, b),
{
}

/// A step of the art pencil: the first cell of a stroke is a dash; on every step
/// the cells of the way look like the steps that lead to them, and the cell that
/// the way comes from like the step on from it. In Stamp mode that goes for
/// blank cells only. All other cells stay as they were, or are emptied where the
/// step fixes the axis.
#[verifier::rlimit(40)]
pub proof fn law_art_pencil_strokes<L>(
    s: AppState<L>,
    col: usize,
    row: usize,
    shift: bool,
    cell: (usize, usize),
    k: int,
)
    requires
        s.wf(),
        on_canvas(col as int, row as int),
        on_canvas(cell.0 as int, cell.1 as int),
        s.settings.tool == Tool::Pencil,
        s.settings.pencil_mode == PencilMode::Art,
    ensures
        ({
            let t = s.painted(col, row, shift);
            let i = 80 * cell.1 + cell.0;
            let after = t.grid.preview[i];
            let to = t.stroke.last_painted_cell->0;
            let fixed_now = s.stroke.locked_axis != t.stroke.locked_axis;
            let from = if fixed_now { s.stroke.draw_start } else { s.stroke.last_painted_cell };
            let before = if fixed_now { None } else { s.grid.preview[i] };
            let free = s.settings.blend_mode != BlendMode::Stamp || s.grid.committed[i] == ' ';
            &&& t.stroke.last_painted_cell is Some
            &&& !free ==> after == before
            &&& match from {
                None => after == if cell == to && free {
                    Some('-')
                } else {
                    before
                },
                Some(f) => {
                    let way = line_cells(f.0 as int, f.1 as int, to.0 as int, to.1 as int);
                    &&& !way.contains(cell) ==> after == before
                    &&& way.len() == 1 ==> after == before
                    &&& 0 < k < way.len() && way[k] == cell && free ==> after is Some && fits_step(
                        after->0,
                        way[k - 1],
                        way[k],
                    )
                    &&& way.len() > 1 && way[0] == cell && free ==> after is Some && fits_step(
                        after->0,
                        way[0],
                        way[1],
                    )
                },
            }
        }),
{
    lemma_cell_index(cell.0, cell.1);
    let held = shift || s.settings.shift_locked;
    let r = s.resolved(col, row, held);
    let to = s.target(col, row, held);
    lemma_freehand_parts(s, col, row, shift);
    lemma_art_strokes(r, r.stroke.last_painted_cell, to, cell, k);
    assert(r.blocked(cell) == s.blocked(cell));
    let cells = step_cells(r.stroke.last_painted_cell, to);
    if 0 < k < cells.len() {
        lemma_stroke_fits(cells[k - 1], cells[k]);
    }
    if cells.len() > 1 {
        lemma_stroke_fits(cells[0], cells[1]);
    }
    assert(s.painted(col, row, shift).grid.preview == r.marked(
        cells,
        r.pencil_marks(cells, r.stroke.last_painted_cell is Some),
    ).grid.preview);
}

proof fn lemma_marked_cell(
    preview: Seq<Option<char>>,
    cells: Seq<(usize, usize)>,
    marks: Seq<Option<char>>,
    cell: (usize, usize),
)
    requires
        cells.len() == marks.len(),
        preview.len() == CELLS,
        all_on_canvas(cells),
        cells.no_duplicates(),
        on_canvas(cell.0 as int, cell.1 as int),
    ensures
        ({
            let i = cell_index(cell.0 as int, cell.1 as int);
            let after = with_marks(preview, cells, marks, cells.len() as int)[i];
            &&& !cells.contains(cell) ==> after == preview[i]
            &&& forall|m: int|
                0 <= m < cells.len() && #[trigger] cells[m] == cell ==> after == if marks[m] is Some {
                    marks[m]
                } else {
                    preview[i]
                }
        }),
{
    let n = cells.len() as int;
    if cells.contains(cell) {
        let m = choose|m: int| 0 <= m < n && cells[m] == cell;
        if marks[m] is Some {
            lemma_marks_at(preview, cells, marks, n, m);
        } else {
            assert forall|j: int| 0 <= j < n && cells[j] == cell implies #[trigger] marks[j] is None by {
                assert(j == m);
            }
            lemma_marks_elsewhere(preview, cells, marks, n, cell.0, cell.1);
        }
        assert forall|j: int| 0 <= j < n && #[trigger] cells[j] == cell implies j == m by {}
    } else {
        assert forall|j: int| 0 <= j < n && cells[j] == cell implies #[trigger] marks[j] is None by {
            assert(cells.contains(cells[j]));
        }
        lemma_marks_elsewhere(preview, cells, marks, n, cell.0, cell.1);
    }
}

proof fn lemma_line_distinct(from: (usize, usize), to: (usize, usize))
    ensures
        line_cells(from.0 as int, from.1 as int, to.0 as int, to.1 as int).no_duplicates(),
{
    let cells = line_cells(from.0 as int, from.1 as int, to.0 as int, to.1 as int);
    assert forall|i: int, j: int| 0 <= i < cells.len() && 0 <= j < cells.len() && i != j implies cells[i]
        != cells[j] by {
        law_line_visits_once(from.0, from.1, to.0, to.1, i, j);
    }
}

/// In an art line each cell after the first looks like the step that leads to
/// it and the first like the second, in Stamp mode as far as they are blank. No
/// other cell is painted.
pub proof fn law_art_line_strokes<L>(
    s: AppState<L>,
    start: (usize, usize),
    to: (usize, usize),
    shift: bool,
    cell: (usize, usize),
    k: int,
)
    requires
        s.wf(),
        s.settings.tool == Tool::Line,
        s.settings.line_mode == LineMode::Art,
        !s.bg.aa_active(),
        s.stroke.draw_start == Some(start),
        on_canvas(to.0 as int, to.1 as int),
        on_canvas(cell.0 as int, cell.1 as int),
    ensures
        ({
            let line = line_cells(start.0 as int, start.1 as int, to.0 as int, to.1 as int);
            let i = 80 * cell.1 + cell.0;
            let after = s.painted(to.0, to.1, shift).grid.preview[i];
            let free = s.settings.blend_mode != BlendMode::Stamp || s.grid.committed[i] == ' ';
            &&& !line.contains(cell) || !free ==> after is None
            &&& 0 < k < line.len() && line[k] == cell && free ==> after is Some && fits_step(
                after->0,
                line[k - 1],
                line[k],
            )
            &&& line.len() > 1 && line[0] == cell && free ==> after is Some && fits_step(
                after->0,
                line[0],
                line[1],
            )
            &&& line.len() == 1 && line[0] == cell && free ==> after == Some('/')
        }),
{
    let line = line_cells(start.0 as int, start.1 as int, to.0 as int, to.1 as int);
    lemma_cell_index(cell.0, cell.1);
    if line.contains(cell) {
        let m = choose|m: int| 0 <= m < line.len() && line[m] == cell;
        law_art_line(s, start, to, cell, m);
        lemma_line_distinct(start, to);
    } else {
        law_art_line(s, start, to, cell, 0);
    }
    if 0 <= k < line.len() {
        assert(line.contains(line[k]));
    }
    if line.len() > 0 {
        assert(line.contains(line[0]));
    }
}

/// A line drawn with the brush, or matched to the image, is exactly the line
/// between the start and where the drag is now, in Stamp mode the blank cells of
/// it.
pub proof fn law_brush_line<L>(
    s: AppState<L>,
    start: (usize, usize),
    to: (usize, usize),
    shift: bool,
    cell: (usize, usize),
)
    requires
        s.wf(),
        s.settings.tool == Tool::Line,
        s.settings.line_mode == LineMode::Character || s.bg.aa_active(),
        s.stroke.draw_start == Some(start),
        on_canvas(to.0 as int, to.1 as int),
        on_canvas(cell.0 as int, cell.1 as int),
    ensures
        ({
            let line = line_cells(start.0 as int, start.1 as int, to.0 as int, to.1 as int);
            let i = 80 * cell.1 + cell.0;
            let free = s.settings.blend_mode != BlendMode::Stamp || s.grid.committed[i] == ' ';
            s.painted(to.0, to.1, shift).grid.preview[i] == if line.contains(cell) && free {
                Some(s.bg.stamp(Tool::Line, s.settings.brush_char, cell.0 as int, cell.1 as int))
            } else {
                None
            }
        }),
{
    lemma_cell_index(cell.0, cell.1);
}

/// A rectangle: its four sides, or filled all of it. Its corners are the start
/// of the drag and where it is now; with Shift the start is its centre. In Stamp
/// mode blank cells only.
pub proof fn law_rectangle<L>(
    s: AppState<L>,
    start: (usize, usize),
    to: (usize, usize),
    shift: bool,
    cell: (usize, usize),
)
    requires
        s.wf(),
        s.settings.tool == Tool::Rect || s.settings.tool == Tool::RectFill,
        s.stroke.draw_start == Some(start),
        on_canvas(to.0 as int, to.1 as int),
        on_canvas(cell.0 as int, cell.1 as int),
    ensures
        ({
            let held = shift || s.settings.shift_locked;
            let (x0, y0) = if held {
                (2 * start.0 - to.0, 2 * start.1 - to.1)
            } else {
                (start.0 as int, start.1 as int)
            };
            let (x, y) = (cell.0, cell.1);
            let inside = (x0 <= x <= to.0 || to.0 <= x <= x0) && (y0 <= y <= to.1 || to.1 <= y <= y0);
            let side = x == x0 || x == to.0 || y == y0 || y == to.1;
            let i = 80 * cell.1 + cell.0;
            let free = s.settings.blend_mode != BlendMode::Stamp || s.grid.committed[i] == ' ';
            s.painted(to.0, to.1, shift).grid.preview[i] == if inside && (side || s.settings.tool
                == Tool::RectFill) && free {
                Some(s.bg.stamp(s.settings.tool, s.settings.brush_char, x as int, y as int))
            } else {
                None
            }
        }),
{
    lemma_cell_index(cell.0, cell.1);
}

/// An oval: the ellipse, or filled the ellipse with its inside, in the box that
/// a rectangle would have. In Stamp mode blank cells only.
pub proof fn law_oval<L>(
    s: AppState<L>,
    start: (usize, usize),
    to: (usize, usize),
    shift: bool,
    cell: (usize, usize),
    e: Extent,
)
    requires
        s.wf(),
        s.settings.tool == Tool::Oval || s.settings.tool == Tool::OvalFill,
        s.stroke.draw_start == Some(start),
        on_canvas(to.0 as int, to.1 as int),
        on_canvas(cell.0 as int, cell.1 as int),
        e.left <= e.right,
        e.top <= e.bottom,
        ({
            let held = shift || s.settings.shift_locked;
            let (x0, y0) = if held {
                (2 * start.0 - to.0, 2 * start.1 - to.1)
            } else {
                (start.0 as int, start.1 as int)
            };
            &&& e.left == x0 && e.right == to.0 || e.left == to.0 && e.right == x0
            &&& e.top == y0 && e.bottom == to.1 || e.top == to.1 && e.bottom == y0
        }),
    ensures
        ({
            let i = 80 * cell.1 + cell.0;
            let free = s.settings.blend_mode != BlendMode::Stamp || s.grid.committed[i] == ' ';
            let holds = if s.settings.tool == Tool::Oval {
                outline_cells(e).contains(cell)
            } else {
                filled_cells(e).contains(cell)
            };
            s.painted(to.0, to.1, shift).grid.preview[i] == if holds && free {
                Some(s.bg.stamp(s.settings.tool, s.settings.brush_char, cell.0 as int, cell.1 as int))
            } else {
                None
            }
        }),
{
    lemma_cell_index(cell.0, cell.1);
    assert(drag_box(start, to, shift || s.settings.shift_locked) =~= e);
}

/// A chain of cells that hold the character of its first: each touches the one
/// before it, at a side, or with `corners` at a side or a corner.
pub open spec fn is_chain(committed: Seq<char>, chain: Seq<(usize, usize)>, corners: bool) -> bool {
    &&& chain.len() > 0
    &&& forall|k: int|
        0 <= k < chain.len() ==> (#[trigger] chain[k]).0 < 80 && chain[k].1 < 24 && committed[80 * chain[k].1
            + chain[k].0] == committed[80 * chain[0].1 + chain[0].0]
    &&& forall|j: int, k: int|
        0 <= j && k == j + 1 && k < chain.len() ==> {
            let (p, q) = (#[trigger] chain[j], #[trigger] chain[k]);
            &&& -1 <= q.0 - p.0 <= 1
            &&& -1 <= q.1 - p.1 <= 1
            &&& corners || p.0 == q.0 || p.1 == q.1
        }
}

/// Every cell of the region of a fill is the end of a chain from the pressed
/// cell.
proof fn lemma_chain_to(reg: Region, cell: (usize, usize), k: nat) -> (chain: Seq<(usize, usize)>)
    requires
        reg.within(cell, k),
        on_canvas(reg.start.0 as int, reg.start.1 as int),
        reg.target == reg.committed[cell_index(reg.start.0 as int, reg.start.1 as int)],
    ensures
        is_chain(reg.committed, chain, reg.diagonals),
        chain.first() == reg.start,
        chain.last() == cell,
    decreases k,
{
    if k == 0 {
        seq![reg.start]
    } else if reg.within(cell, (k - 1) as nat) {
        lemma_chain_to(reg, cell, (k - 1) as nat)
    } else {
        let from = choose|from: (usize, usize)|
            reg.within(from, (k - 1) as nat) && #[trigger] adjacent(from, cell, reg.diagonals);
        let before = lemma_chain_to(reg, from, (k - 1) as nat);
        let chain = before.push(cell);
        assert forall|j: int| 0 <= j < chain.len() implies (#[trigger] chain[j]).0 < 80 && chain[j].1 < 24
            && reg.committed[80 * chain[j].1 + chain[j].0] == reg.committed[80 * chain[0].1 + chain[0].0] by {
            if j < before.len() {
                assert(chain[j] == before[j]);
            }
        }
        assert forall|i: int, j: int| 0 <= i && j == i + 1 && j < chain.len() implies {
            let (p, q) = (#[trigger] chain[i], #[trigger] chain[j]);
            &&& -1 <= q.0 - p.0 <= 1
            &&& -1 <= q.1 - p.1 <= 1
            &&& reg.diagonals || p.0 == q.0 || p.1 == q.1
        } by {
            if j < before.len() {
                assert(chain[j] == before[j] && chain[i] == before[i]);
            } else {
                assert(chain[i] == before.last());
            }
        }
        chain
    }
}

/// The end of a chain belongs to the region of the fill at its beginning.
proof fn lemma_chain_within(reg: Region, chain: Seq<(usize, usize)>, n: int)
    requires
        is_chain(reg.committed, chain, reg.diagonals),
        chain[0] == reg.start,
        reg.target == reg.committed[cell_index(reg.start.0 as int, reg.start.1 as int)],
        0 <= n < chain.len(),
    ensures
        reg.within(chain[n], n as nat),
    decreases n,
{
    if n > 0 {
        lemma_chain_within(reg, chain, n - 1);
        let (p, q) = (chain[n - 1], chain[n]);
        if p == q {
            assert(reg.within(q, (n - 1) as nat));
        } else {
            assert(adjacent(p, q, reg.diagonals));
        }
    }
}

/// A press with the fill tool fills no further than chains of cells that hold
/// the pressed character reach: in Flood4 neighbours of the chain share a side,
/// in Flood8 they may touch at a corner. A cell that no such chain leads to
/// stays as it was.
pub proof fn law_fill_follows_chains<L>(
    s: AppState<L>,
    at: (usize, usize),
    shift: bool,
    cell: (usize, usize),
) -> (chain: Seq<(usize, usize)>)
    requires
        s.wf(),
        s.settings.tool == Tool::Fill,
        s.stroke.last_painted_cell is None,
        on_canvas(at.0 as int, at.1 as int),
        on_canvas(cell.0 as int, cell.1 as int),
        s.painted(at.0, at.1, shift).grid.preview[80 * cell.1 + cell.0] != s.grid.preview[80 * cell.1 + cell.0],
    ensures
        is_chain(s.grid.committed, chain, s.settings.fill_mode == FillMode::Flood8),
        chain.first() == at,
        chain.last() == cell,
{
    lemma_cell_index(cell.0, cell.1);
    let reg = s.fill_region(at.0, at.1);
    assert(reg.holds(cell));
    let k = choose|k: nat| #[trigger] reg.within(cell, k);
    lemma_chain_to(reg, cell, k)
}

/// A press with the fill tool fills all that chains of cells that hold the
/// pressed character lead to: in Flood4 chains whose neighbours share a side, in
/// Flood8 also those that pass corners. It does so unless the brush character is
/// there already and is not matched to the image, and in Stamp mode only where
/// the pressed cell is blank.
pub proof fn law_fill_reaches_all_chains<L>(s: AppState<L>, at: (usize, usize), shift: bool, chain: Seq<(usize, usize)>)
    requires
        s.wf(),
        s.settings.tool == Tool::Fill,
        s.stroke.last_painted_cell is None,
        on_canvas(at.0 as int, at.1 as int),
        is_chain(s.grid.committed, chain, s.settings.fill_mode == FillMode::Flood8),
        chain.first() == at,
        s.bg.aa_mode || s.grid.committed[80 * at.1 + at.0] != s.settings.brush_char,
        s.settings.blend_mode != BlendMode::Stamp || s.grid.committed[80 * at.1 + at.0] == ' ',
    ensures
        s.painted(at.0, at.1, shift).grid.preview[80 * chain.last().1 + chain.last().0] == Some(
            s.bg.stamp(
                Tool::Fill,
                s.settings.brush_char,
                chain.last().0 as int,
                chain.last().1 as int,
            ),
        ),
{
    let n = chain.len() - 1;
    let cell = chain[n];
    assert(cell.0 < 80 && cell.1 < 24);
    assert(chain[0].0 < 80);
    lemma_cell_index(cell.0, cell.1);
    let reg = s.fill_region(at.0, at.1);
    lemma_chain_within(reg, chain, n);
    assert(reg.holds(cell));
}

/// The selection tool selects the rectangle between the start of the drag and
/// where it is now, whichever way the drag went.
pub proof fn law_dragging_selects<L>(
    s: AppState<L>,
    start: (usize, usize),
    to: (usize, usize),
    shift: bool,
    cell: (usize, usize),
)
    requires
        s.wf(),
        s.settings.tool == Tool::Select,
        s.stroke.draw_start == Some(start),
        on_canvas(to.0 as int, to.1 as int),
    ensures
        s.painted(to.0, to.1, shift).look(cell.0 as int, cell.1 as int).selected <==> (start.0 <= cell.0
            <= to.0 || to.0 <= cell.0 <= start.0) && (start.1 <= cell.1 <= to.1 || to.1 <= cell.1 <= start.1),
{
}

/// The text tool and moving the background do not paint.
pub proof fn law_some_tools_do_not_paint<L>(s: AppState<L>, col: usize, row: usize, shift: bool)
    requires
        s.settings.tool == Tool::Text || s.settings.tool == Tool::BgMove,
    ensures
        s.painted(col, row, shift) == s,
{
}

/// A filled shape covers its outline, whatever the box: the cells of the
/// rectangle and of the oval are among those of the filled ones.
pub proof fn law_filled_shape_covers_outline(e: Extent, cell: (usize, usize))
    requires
        e.left <= e.right,
        e.top <= e.bottom,
    ensures
        shape_cells(Tool::Rect, e).contains(cell) ==> shape_cells(Tool::RectFill, e).contains(cell),
        shape_cells(Tool::Oval, e).contains(cell) ==> shape_cells(Tool::OvalFill, e).contains(cell),
{
    if outline_cells(e).contains(cell) {
        law_filled_holds_outline(e, cell.0, cell.1);
    }
}

/// A drag with Shift draws around its start: the box is symmetric about it and
/// the end of the drag is on its border.
pub proof fn law_centred_box(start: (usize, usize), to: (usize, usize))
    ensures
        ({
            let e = drag_box(start, to, true);
            &&& e.left + e.right == 2 * start.0
            &&& e.top + e.bottom == 2 * start.1
            &&& to.0 == e.left || to.0 == e.right
            &&& to.1 == e.top || to.1 == e.bottom
        }),
{
}

} // verus!
