//! Selecting, clearing and copying.

use vstd::prelude::*;

use crate::app::{App, AppState, Selection};
use crate::clipboard::{
    full_text, html_of, html_wrap, law_text_keeps_full_rows, law_text_separates_rows, region_text,
    text_of_region,
};
use crate::grid::{all_blank, cell_at, cell_index, on_canvas, GridState, BLANK, CELLS, COLS, ROWS};

verus! {

/// The rectangle between two corners, in any order.
pub open spec fn spanning(sc: usize, sr: usize, ec: usize, er: usize) -> Selection {
    Selection {
        left: if sc <= ec { sc } else { ec },
        top: if sr <= er { sr } else { er },
        right: if sc <= ec { ec } else { sc },
        bottom: if sr <= er { er } else { sr },
    }
}

/// The committed layer with the selected cells blank.
pub open spec fn blanked(committed: Seq<char>, sel: Selection) -> Seq<char> {
    Seq::new(
        CELLS as nat,
        |i: int|
            if sel.holds(cell_at(i).0 as int, cell_at(i).1 as int) {
                BLANK
            } else {
                committed[i]
            },
    )
}

impl<L> AppState<L> {
    /// Nothing selected.
    pub open spec fn deselected(self) -> AppState<L> {
        AppState { selection: None, ..self }
    }

    /// The selected cells cleared and nothing selected, or without a selection
    /// the whole canvas cleared. Text being typed is committed first, and there
    /// is a step to undo.
    pub open spec fn cleared(self) -> AppState<L> {
        let s = self.text_committed().snapshot();
        AppState {
            grid: GridState {
                committed: match s.selection {
                    Some(sel) => blanked(s.grid.committed, sel),
                    None => all_blank(),
                },
                ..s.grid
            },
            selection: None,
            ..s
        }
    }

    /// The text of the selection, if there is one.
    pub open spec fn selection_text(self) -> Option<Seq<char>> {
        match self.selection {
            Some(sel) => Some(
                region_text(
                    self.grid.committed,
                    sel.left as int,
                    sel.top as int,
                    sel.right as int,
                    sel.bottom as int,
                ),
            ),
            None => None,
        }
    }

    /// The text that is copied: the selection, or without one the canvas.
    pub open spec fn copied(self) -> Seq<char> {
        match self.selection_text() {
            Some(text) => text,
            None => full_text(self.grid.committed),
        }
    }
}

impl<L: Copy> App<L> {
    /// Select nothing.
    pub fn clear_selection(&mut self)
        requires
            old(self)@.wf(),
        ensures
            final(self)@.wf(),
            final(self)@ == old(self)@.deselected(),
    {
        self.selection = None;
    }

    /// Select the rectangle between two cells.
    pub fn apply_selection(&mut self, sc: usize, sr: usize, ec: usize, er: usize)
        requires
            old(self)@.wf(),
            on_canvas(sc as int, sr as int),
            on_canvas(ec as int, er as int),
        ensures
            final(self)@.wf(),
            final(self)@ == (AppState { selection: Some(spanning(sc, sr, ec, er)), ..old(self)@ }),
    {
        self.selection = Some(
            Selection {
                left: if sc <= ec { sc } else { ec },
                top: if sr <= er { sr } else { er },
                right: if sc <= ec { ec } else { sc },
                bottom: if sr <= er { er } else { sr },
            },
        );
    }

    /// Write a blank into every selected cell.
    fn blank_selection(&mut self, sel: Selection)
        requires
            old(self)@.wf(),
            sel.wf(),
        ensures
            final(self)@.wf(),
            final(self)@ == (AppState {
                grid: GridState {
                    committed: blanked(old(self)@.grid.committed, sel),
                    ..old(self)@.grid
                },
                ..old(self)@
            }),
    {
        let ghost before = self@.grid.committed;
        let mut i: usize = 0;
        while i < CELLS
            invariant
                0 <= i <= CELLS,
                self@.wf(),
                before.len() == CELLS,
                self@ == (AppState {
                    grid: GridState { committed: self@.grid.committed, ..old(self)@.grid },
                    ..old(self)@
                }),
                forall|k: int| 0 <= k < i ==> self@.grid.committed[k] == blanked(before, sel)[k],
                forall|k: int| i <= k < CELLS ==> self@.grid.committed[k] == before[k],
            decreases CELLS - i,
        {
            let col: usize = i % COLS;
            let row: usize = i / COLS;
            if sel.left <= col && col <= sel.right && sel.top <= row && row <= sel.bottom {
                self.grid.set_committed(col, row, BLANK);
            }
            i = i + 1;
        }
        assert(self@.grid.committed =~= blanked(before, sel));
    }

    /// Clear the selection, or without one the canvas.
    pub fn clear_canvas(&mut self)
        requires
            old(self)@.wf(),
        ensures
            final(self)@.wf(),
            final(self)@ == old(self)@.cleared(),
    {
        self.commit_text_session();
        self.push_undo_snapshot();
        match self.selection {
            Some(sel) => {
                self.blank_selection(sel);
                self.clear_selection();
            },
            None => {
                self.blank_all();
            },
        }
        assert(self@ =~= old(self)@.cleared());
    }

    /// Write a blank into every cell.
    pub(crate) fn blank_all(&mut self)
        requires
            old(self)@.wf(),
        ensures
            final(self)@.wf(),
            final(self)@ == (AppState {
                grid: GridState { committed: all_blank(), ..old(self)@.grid },
                ..old(self)@
            }),
    {
        self.grid.committed = vec![BLANK; CELLS];
        assert(self@.grid.committed =~= all_blank());
    }

    /// The committed canvas as text, every row at its full width.
    pub fn canvas_text(&self) -> (text: String)
        requires
            self@.wf(),
        ensures
            text@ == full_text(self@.grid.committed),
    {
        text_of_region(&self.grid.committed, 0, 0, COLS - 1, ROWS - 1)
    }

    /// The selected part of the committed canvas as text.
    pub fn selected_text(&self) -> (text: Option<String>)
        requires
            self@.wf(),
        ensures
            match text {
                Some(t) => self@.selection_text() == Some(t@),
                None => self@.selection_text() is None,
            },
    {
        match self.selection {
            Some(sel) => Some(
                text_of_region(&self.grid.committed, sel.left, sel.top, sel.right, sel.bottom),
            ),
            None => None,
        }
    }

    /// The committed canvas as HTML.
    pub fn canvas_html(&self) -> (html: String)
        requires
            self@.wf(),
        ensures
            html@ == html_of(full_text(self@.grid.committed)),
    {
        html_wrap(self.canvas_text().as_str())
    }

    /// The selected part of the committed canvas as HTML.
    pub fn selected_html(&self) -> (html: Option<String>)
        requires
            self@.wf(),
        ensures
            match html {
                Some(h) => self@.selection_text() is Some && h@ == html_of(self@.selection_text()->0),
                None => self@.selection_text() is None,
            },
    {
        match self.selected_text() {
            Some(text) => Some(html_wrap(text.as_str())),
            None => None,
        }
    }

    /// What is copied, as plain text and as HTML: the selection, or without one
    /// the canvas.
    pub fn copy(&self) -> (formats: (String, String))
        requires
            self@.wf(),
        ensures
            formats.0@ == self@.copied(),
            formats.1@ == html_of(self@.copied()),
    {
        let plain: String = match self.selected_text() {
            Some(text) => text,
            None => self.canvas_text(),
        };
        let html: String = match self.selected_html() {
            Some(html) => html,
            None => self.canvas_html(),
        };
        (plain, html)
    }
}

// ---------------------------------------------------------------------------
// Laws
// ---------------------------------------------------------------------------

/// Copying looks at the committed layer only: a preview makes no difference.
pub proof fn law_copy_ignores_preview<L>(s: AppState<L>, t: AppState<L>)
    requires
        s.grid.committed == t.grid.committed,
        s.selection == t.selection,
    ensures
        s.copied() == t.copied(),
{
}

/// The order of the corners makes no difference, and both are selected.
pub proof fn law_corners_in_any_order(sc: usize, sr: usize, ec: usize, er: usize)
    requires
        on_canvas(sc as int, sr as int),
        on_canvas(ec as int, er as int),
    ensures
        spanning(sc, sr, ec, er) == spanning(ec, er, sc, sr),
        spanning(sc, sr, ec, er) == spanning(sc, er, ec, sr),
        spanning(sc, sr, ec, er).wf(),
        spanning(sc, sr, ec, er).holds(sc as int, sr as int),
        spanning(sc, sr, ec, er).holds(ec as int, er as int),
{
}

/// A selection between two corners holds exactly the cells between them.
pub proof fn law_selection_between_corners(a: (usize, usize), b: (usize, usize), col: int, row: int)
    ensures
        spanning(a.0, a.1, b.0, b.1).holds(col, row) <==> (a.0 <= col <= b.0 || b.0 <= col <= a.0) && (a.1
            <= row <= b.1 || b.1 <= row <= a.1),
{
}

/// What is copied of a selection: row by row, each cell of the committed layer
/// in its place, and a newline between rows.
pub proof fn law_copied_selection<L>(s: AppState<L>, sel: Selection, col: int, row: int)
    requires
        s.wf(),
        s.selection == Some(sel),
        sel.left <= col <= sel.right,
        sel.top <= row <= sel.bottom,
    ensures
        ({
            let width = sel.right - sel.left + 1;
            let rows = sel.bottom - sel.top + 1;
            let text = s.copied();
            &&& text.len() == (width + 1) * rows - 1
            &&& text[(width + 1) * (row - sel.top) + (col - sel.left)] == s.grid.committed[80 * row + col]
            &&& row < sel.bottom ==> text[(width + 1) * (row - sel.top) + width] == '\n'
        }),
{
    let (c0, r0, c1, r1) = (sel.left as int, sel.top as int, sel.right as int, sel.bottom as int);
    law_text_keeps_full_rows(s.grid.committed, c0, r0, c1, r1);
    law_text_separates_rows(s.grid.committed, c0, r0, c1, r1, row);
    assert(cell_index(col, row) == 80 * row + col);
    assert(s.grid.committed[cell_index(col, row)] == s.grid.committed[80 * row + col]);
}

/// Without a selection the whole canvas is copied: 24 rows of 80 characters, with
/// a newline between rows.
pub proof fn law_copied_canvas<L>(s: AppState<L>, col: int, row: int)
    requires
        s.wf(),
        s.selection is None,
        0 <= col < 80,
        0 <= row < 24,
    ensures
        s.copied().len() == 81 * 24 - 1,
        s.copied()[81 * row + col] == s.grid.committed[80 * row + col],
        row < 23 ==> s.copied()[81 * row + 80] == '\n',
{
    law_text_keeps_full_rows(s.grid.committed, 0, 0, 79, 23);
    law_text_separates_rows(s.grid.committed, 0, 0, 79, 23, row);
    assert(s.grid.committed[cell_index(col, row)] == s.grid.committed[80 * row + col]);
}

/// Clearing takes one step of the history, in which the canvas is as it was, and
/// blanks the cells between the corners of the selection, or all cells.
pub proof fn law_clear_blanks<L>(s: AppState<L>, col: int, row: int)
    requires
        s.wf(),
        s.text is None,
        0 <= col < 80,
        0 <= row < 24,
    ensures
        ({
            let i = 80 * row + col;
            let t = s.cleared();
            &&& t.undo == s.undo.push(s.grid.committed)
            &&& t.redo.len() == 0
            &&& t.selection is None
            &&& t.grid.preview == s.grid.preview
            &&& t.grid.committed[i] == match s.selection {
                None => ' ',
                Some(sel) => if sel.left <= col <= sel.right && sel.top <= row <= sel.bottom {
                    ' '
                } else {
                    s.grid.committed[i]
                },
            }
        }),
{
    law_clear_keeps_to_selection(s, col, row);
}

/// Clearing with a selection blanks the selected cells and leaves every other
/// cell as it was; without one no cell keeps its character.
pub proof fn law_clear_keeps_to_selection<L>(s: AppState<L>, col: int, row: int)
    requires
        s.wf(),
        s.text is None,
        on_canvas(col, row),
    ensures
        s.cleared().grid.committed_at(col, row) == match s.selection {
            Some(sel) => if sel.holds(col, row) {
                BLANK
            } else {
                s.grid.committed_at(col, row)
            },
            None => BLANK,
        },
        s.cleared().selection is None,
{
    let i = cell_index(col, row);
    assert(cell_at(i) == (col as usize, row as usize));
}

/// A selection stays after the release that ends its drag.
pub proof fn law_selection_survives_release<L>(s: AppState<L>)
    requires
        s.wf(),
    ensures
        s.stroke_committed().selection == s.selection,
        s.released().selection == s.selection,
{
}

/// A cleared canvas can be brought back.
pub proof fn law_undo_reverts_clear<L>(s: AppState<L>)
    requires
        s.wf(),
        s.text is None,
    ensures
        s.cleared().undone().grid.committed == s.grid.committed,
        s.cleared().undone().undo == s.undo,
{
    assert(s.cleared().undone().undo =~= s.undo);
}

} // verus!
