//! The character canvas: a committed layer and a preview layer over it.

use vstd::prelude::*;

verus! {

/// Columns of the canvas.
pub const COLS: usize = 80;

/// Rows of the canvas.
pub const ROWS: usize = 24;

/// Cells of the canvas.
pub const CELLS: usize = 1920;

/// The character in a blank or erased cell.
pub const BLANK: char = ' ';

/// The lower half block, shown as the text cursor.
pub const CURSOR_CHAR: char = '\u{2584}';

/// Whether (col, row) is a cell of the canvas.
pub open spec fn on_canvas(col: int, row: int) -> bool {
    0 <= col < COLS && 0 <= row < ROWS
}

/// Row-major index of the cell (col, row).
pub open spec fn cell_index(col: int, row: int) -> int {
    row * COLS + col
}

/// The cell at row-major index `i`.
pub open spec fn cell_at(i: int) -> (usize, usize) {
    ((i % COLS as int) as usize, (i / COLS as int) as usize)
}

/// Every cell of `cells` lies on the canvas.
pub open spec fn all_on_canvas(cells: Seq<(usize, usize)>) -> bool {
    forall|i: int| 0 <= i < cells.len() ==> on_canvas((#[trigger] cells[i]).0 as int, cells[i].1 as int)
}

/// What the canvas holds: one committed character and at most one preview
/// character per cell, row by row.
#[verifier::ext_equal]
pub struct GridState {
    pub committed: Seq<char>,
    pub preview: Seq<Option<char>>,
}

/// The preview layer with nothing in it.
pub open spec fn no_preview() -> Seq<Option<char>> {
    Seq::new(CELLS as nat, |i: int| None)
}

/// The committed layer of an empty canvas.
pub open spec fn all_blank() -> Seq<char> {
    Seq::new(CELLS as nat, |i: int| BLANK)
}

/// The cells among the first `n` that hold a preview character, row by row.
pub open spec fn previewed_below(preview: Seq<Option<char>>, n: int) -> Seq<(usize, usize)>
    decreases n,
{
    if n <= 0 {
        Seq::empty()
    } else if preview[n - 1] is Some {
        previewed_below(preview, n - 1).push(cell_at(n - 1))
    } else {
        previewed_below(preview, n - 1)
    }
}

/// All cells that hold a preview character, row by row.
pub open spec fn previewed(preview: Seq<Option<char>>) -> Seq<(usize, usize)> {
    previewed_below(preview, CELLS as int)
}

/// The cells that a commit or an abort reports are exactly those that held a
/// preview character.
pub proof fn law_reported_cells(preview: Seq<Option<char>>, col: usize, row: usize)
    requires
        on_canvas(col as int, row as int),
    ensures
        previewed(preview).contains((col, row)) <==> preview[cell_index(col as int, row as int)] is Some,
{
    lemma_previewed(preview, CELLS as int, col, row);
}

proof fn lemma_previewed(preview: Seq<Option<char>>, n: int, col: usize, row: usize)
    requires
        0 <= n <= CELLS,
        on_canvas(col as int, row as int),
    ensures
        previewed_below(preview, n).contains((col, row)) <==> cell_index(col as int, row as int) < n
            && preview[cell_index(col as int, row as int)] is Some,
    decreases n,
{
    if n > 0 {
        lemma_previewed(preview, n - 1, col, row);
        let before = previewed_below(preview, n - 1);
        let k = cell_index(col as int, row as int);
        assert(cell_at(k) == (col, row)) by {
            assert(k / 80 == row && k % 80 == col);
        }
        if preview[n - 1] is Some {
            let all = before.push(cell_at(n - 1));
            if all.contains((col, row)) && !before.contains((col, row)) {
                let i = choose|i: int| 0 <= i < all.len() && all[i] == (col, row);
                assert(i == before.len());
                assert(n - 1 == k) by {
                    assert((n - 1) == 80 * ((n - 1) / 80) + (n - 1) % 80);
                }
            }
            if before.contains((col, row)) {
                let i = choose|i: int| 0 <= i < before.len() && before[i] == (col, row);
                assert(all[i] == (col, row));
            }
            if k == n - 1 {
                assert(all[before.len() as int] == (col, row));
            }
        }
    }
}

impl GridState {
    /// Both layers have one entry per cell.
    pub open spec fn wf(self) -> bool {
        self.committed.len() == CELLS && self.preview.len() == CELLS
    }

    /// The committed character of a cell.
    pub open spec fn committed_at(self, col: int, row: int) -> char {
        self.committed[cell_index(col, row)]
    }

    /// The character shown in a cell: the preview over the committed one.
    pub open spec fn display(self, col: int, row: int) -> char {
        match self.preview[cell_index(col, row)] {
            Some(ch) => ch,
            None => self.committed[cell_index(col, row)],
        }
    }

    /// The canvas with every preview character moved into the committed layer.
    pub open spec fn committed_preview(self) -> GridState {
        GridState {
            committed: Seq::new(
                CELLS as nat,
                |i: int|
                    match self.preview[i] {
                        Some(ch) => ch,
                        None => self.committed[i],
                    },
            ),
            preview: no_preview(),
        }
    }

    /// The canvas with the preview layer emptied.
    pub open spec fn aborted_preview(self) -> GridState {
        GridState { committed: self.committed, preview: no_preview() }
    }

    /// The canvas with one preview cell replaced.
    pub open spec fn with_preview(self, col: int, row: int, ch: Option<char>) -> GridState {
        GridState { preview: self.preview.update(cell_index(col, row), ch), ..self }
    }
}

/// The character canvas.
pub struct Grid {
    pub(crate) committed: Vec<char>,
    pub(crate) preview: Vec<Option<char>>,
}

impl Grid {
    /// What the canvas holds.
    pub open(crate) spec fn view(&self) -> GridState {
        GridState { committed: self.committed@, preview: self.preview@ }
    }

    /// An empty canvas.
    pub fn new() -> (grid: Grid)
        ensures
            grid@.wf(),
            grid@.committed == all_blank(),
            grid@.preview == no_preview(),
    {
        let grid = Grid { committed: vec![BLANK; CELLS], preview: vec![None; CELLS] };
        assert(grid@.committed =~= all_blank());
        assert(grid@.preview =~= no_preview());
        grid
    }

    /// Flat index of a cell.
    pub fn idx(col: usize, row: usize) -> (i: usize)
        requires
            on_canvas(col as int, row as int),
        ensures
            i == cell_index(col as int, row as int),
            i < CELLS,
    {
        row * COLS + col
    }

    /// The character to display in a cell: the preview takes priority.
    pub fn display_char(&self, col: usize, row: usize) -> (ch: char)
        requires
            self@.wf(),
            on_canvas(col as int, row as int),
        ensures
            ch == self@.display(col as int, row as int),
    {
        match self.preview[Self::idx(col, row)] {
            Some(ch) => ch,
            None => self.committed[Self::idx(col, row)],
        }
    }

    /// Whether a cell shows an uncommitted character.
    pub fn is_preview(&self, col: usize, row: usize) -> (yes: bool)
        requires
            self@.wf(),
            on_canvas(col as int, row as int),
        ensures
            yes == (self@.preview[cell_index(col as int, row as int)] is Some),
    {
        self.preview[Self::idx(col, row)].is_some()
    }

    /// Write a committed character.
    pub fn set_committed(&mut self, col: usize, row: usize, ch: char)
        requires
            old(self)@.wf(),
            on_canvas(col as int, row as int),
        ensures
            final(self)@.wf(),
            final(self)@ == (GridState {
                committed: old(self)@.committed.update(cell_index(col as int, row as int), ch),
                ..old(self)@
            }),
    {
        let i: usize = Self::idx(col, row);
        self.committed.set(i, ch);
    }

    /// Write or remove a preview character.
    pub fn set_preview(&mut self, col: usize, row: usize, ch: Option<char>)
        requires
            old(self)@.wf(),
            on_canvas(col as int, row as int),
        ensures
            final(self)@.wf(),
            final(self)@ == old(self)@.with_preview(col as int, row as int, ch),
    {
        let i: usize = Self::idx(col, row);
        self.preview.set(i, ch);
    }

    /// Move all preview characters into the committed layer and return the
    /// cells they were in.
    pub fn commit_preview(&mut self) -> (dirty: Vec<(usize, usize)>)
        requires
            old(self)@.wf(),
        ensures
            final(self)@.wf(),
            final(self)@ == old(self)@.committed_preview(),
            dirty@ == previewed(old(self)@.preview),
    {
        let ghost before = self@;
        let mut dirty: Vec<(usize, usize)> = Vec::new();
        let mut i: usize = 0;
        while i < CELLS
            invariant
                0 <= i <= CELLS,
                before.wf(),
                self@.wf(),
                forall|k: int| i <= k < CELLS ==> self.preview@[k] == before.preview[k],
                forall|k: int| i <= k < CELLS ==> self.committed@[k] == before.committed[k],
                forall|k: int| 0 <= k < i ==> self.preview@[k] == None::<char>,
                forall|k: int|
                    0 <= k < i ==> self.committed@[k] == before.committed_preview().committed[k],
                dirty@ == previewed_below(before.preview, i as int),
            decreases CELLS - i,
        {
            if let Some(ch) = self.preview[i] {
                self.preview.set(i, None);
                self.committed.set(i, ch);
                dirty.push((i % COLS, i / COLS));
            }
            i = i + 1;
        }
        assert(self@ =~= before.committed_preview());
        dirty
    }

    /// Discard all preview characters and return the cells they were in.
    pub fn abort_preview(&mut self) -> (dirty: Vec<(usize, usize)>)
        requires
            old(self)@.wf(),
        ensures
            final(self)@.wf(),
            final(self)@ == old(self)@.aborted_preview(),
            dirty@ == previewed(old(self)@.preview),
    {
        let ghost before = self@;
        let mut dirty: Vec<(usize, usize)> = Vec::new();
        let mut i: usize = 0;
        while i < CELLS
            invariant
                0 <= i <= CELLS,
                before.wf(),
                self@.wf(),
                self.committed@ == before.committed,
                forall|k: int| i <= k < CELLS ==> self.preview@[k] == before.preview[k],
                forall|k: int| 0 <= k < i ==> self.preview@[k] == None::<char>,
                dirty@ == previewed_below(before.preview, i as int),
            decreases CELLS - i,
        {
            if self.preview[i].is_some() {
                self.preview.set(i, None);
                dirty.push((i % COLS, i / COLS));
            }
            i = i + 1;
        }
        assert(self@ =~= before.aborted_preview());
        dirty
    }
}

} // verus!
