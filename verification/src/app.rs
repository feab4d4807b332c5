//! The state of the program.

use vstd::prelude::*;

use crate::background::{Background, BackgroundState};
use crate::grid::{
    all_blank, cell_index, no_preview, on_canvas, Grid, GridState, CELLS, COLS, ROWS,
};
use crate::modes::{
    AaCharset, Axis, BgOutlineMode, BlendMode, FillMode, LineMode, PencilMode, Tool,
};

verus! {

// ---------------------------------------------------------------------------
// Parts of the state
// ---------------------------------------------------------------------------

/// The stroke in progress.
#[derive(Clone, Copy, PartialEq, Eq, Debug)]
pub struct Stroke {
    pub is_drawing: bool,
    /// Cell where the stroke began.
    pub draw_start: Option<(usize, usize)>,
    /// Axis that the stroke keeps to. Once set, it stays for the stroke.
    pub locked_axis: Option<Axis>,
    /// Cell painted last, from which the next step is interpolated.
    pub last_painted_cell: Option<(usize, usize)>,
}

/// No stroke.
pub open spec fn idle() -> Stroke {
    Stroke { is_drawing: false, draw_start: None, locked_axis: None, last_painted_cell: None }
}

/// What the user has chosen.
#[derive(Clone, Copy, PartialEq, Eq, Structural, Debug)]
pub struct Settings {
    pub tool: Tool,
    /// Character that is painted with.
    pub brush_char: char,
    /// Whether Shift counts as held.
    pub shift_locked: bool,
    pub dark_mode: bool,
    pub blend_mode: BlendMode,
    pub line_mode: LineMode,
    pub pencil_mode: PencilMode,
    pub fill_mode: FillMode,
    pub help_mode: bool,
}

/// Text being typed in one row.
#[derive(Clone, Copy, PartialEq, Eq, Structural, Debug)]
pub struct TextSession {
    /// Column where typing began.
    pub origin: usize,
    /// Column of the next character; COLS past the right edge.
    pub cursor: usize,
    pub row: usize,
}

/// A rectangle of selected cells, from (left, top) to (right, bottom).
#[derive(Clone, Copy, PartialEq, Eq, Structural, Debug)]
pub struct Selection {
    pub left: usize,
    pub top: usize,
    pub right: usize,
    pub bottom: usize,
}

impl Selection {
    /// The corners are in order and on the canvas.
    pub open spec fn wf(self) -> bool {
        self.left <= self.right && self.top <= self.bottom && on_canvas(self.right as int, self.bottom as int)
    }

    /// Whether a cell is selected.
    pub open spec fn holds(self, col: int, row: int) -> bool {
        self.left <= col <= self.right && self.top <= row <= self.bottom
    }
}

/// How a cell looks.
#[derive(Clone, Copy, PartialEq, Eq, Structural, Debug)]
pub struct CellLook {
    pub ch: char,
    /// Shown, but not committed.
    pub preview: bool,
    /// Holds the text cursor.
    pub cursor: bool,
    pub selected: bool,
}

// ---------------------------------------------------------------------------
// Model
// ---------------------------------------------------------------------------

/// The state of the program.
#[verifier::ext_equal]
pub struct AppState<L> {
    pub grid: GridState,
    /// Committed layers to go back to, the latest last.
    pub undo: Seq<Seq<char>>,
    /// Committed layers to go forward to, the latest last.
    pub redo: Seq<Seq<char>>,
    pub stroke: Stroke,
    pub settings: Settings,
    pub selection: Option<Selection>,
    pub text: Option<TextSession>,
    /// Tool to return to after moving the background.
    pub prev_tool: Option<Tool>,
    /// Whether the canvas still shows the greeting.
    pub demo_active: bool,
    /// Whether neither painting nor an image has begun the work.
    pub is_new_project: bool,
    /// Whether a gesture of two fingers is going on or ending.
    pub is_two_finger: bool,
    pub bg: BackgroundState<L>,
}

/// Whether an optional cell, if there is one, is on the canvas.
pub open spec fn cell_ok(cell: Option<(usize, usize)>) -> bool {
    match cell {
        Some((col, row)) => on_canvas(col as int, row as int),
        None => true,
    }
}

/// Every layer of a history has one character per cell.
pub open spec fn layers_ok(history: Seq<Seq<char>>) -> bool {
    forall|i: int| 0 <= i < history.len() ==> (#[trigger] history[i]).len() == CELLS
}

impl<L> AppState<L> {
    /// All parts fit the canvas, and the tool to return to after moving the
    /// background is another one.
    pub open spec fn wf(self) -> bool {
        &&& self.grid.wf()
        &&& layers_ok(self.undo)
        &&& layers_ok(self.redo)
        &&& cell_ok(self.stroke.draw_start)
        &&& cell_ok(self.stroke.last_painted_cell)
        &&& match self.selection {
            Some(sel) => sel.wf(),
            None => true,
        }
        &&& match self.text {
            Some(text) => text.origin < COLS && text.origin <= text.cursor <= COLS && text.row < ROWS,
            None => true,
        }
        &&& self.prev_tool != Some(Tool::BgMove)
        &&& self.bg.wf()
    }

    /// How a cell looks.
    pub open spec fn look(self, col: int, row: int) -> CellLook {
        CellLook {
            ch: self.grid.display(col, row),
            preview: self.grid.preview[cell_index(col, row)] is Some,
            cursor: match self.text {
                Some(text) => text.cursor == col && text.row == row,
                None => false,
            },
            selected: match self.selection {
                Some(sel) => sel.holds(col, row),
                None => false,
            },
        }
    }
}

/// The state that the program starts in, before the greeting is drawn.
pub open spec fn initial<L>(layout: L) -> AppState<L> {
    AppState {
        grid: GridState { committed: all_blank(), preview: no_preview() },
        undo: Seq::empty(),
        redo: Seq::empty(),
        stroke: idle(),
        settings: Settings {
            tool: Tool::Pencil,
            brush_char: '*',
            shift_locked: false,
            dark_mode: true,
            blend_mode: BlendMode::Overwrite,
            line_mode: LineMode::Character,
            pencil_mode: PencilMode::Normal,
            fill_mode: FillMode::Flood4,
            help_mode: false,
        },
        selection: None,
        text: None,
        prev_tool: None,
        demo_active: true,
        is_new_project: true,
        is_two_finger: false,
        bg: BackgroundState {
            url: None,
            layout,
            saved_layout: None,
            raw: None,
            maps: None,
            width: 0,
            height: 0,
            zoom_generation: 0,
            texture_amount: 0,
            pop_amount: 0,
            hidden: false,
            outline_mode: BgOutlineMode::Original,
            columns: Seq::new(COLS as nat, |i: int| None),
            rows: Seq::new(ROWS as nat, |i: int| None),
            blur_radius: 0,
            aa_mode: false,
            aa_charset: AaCharset::Ascii7,
            catalog_ascii7: Seq::empty(),
            catalog_braille: Seq::empty(),
        },
    }
}

// ---------------------------------------------------------------------------
// Implementation
// ---------------------------------------------------------------------------

/// The program: the canvas with its history, the tools and the background.
pub struct App<L> {
    pub(crate) grid: Grid,
    pub(crate) undo_stack: Vec<Vec<char>>,
    pub(crate) redo_stack: Vec<Vec<char>>,
    pub(crate) stroke: Stroke,
    pub(crate) settings: Settings,
    pub(crate) selection: Option<Selection>,
    pub(crate) text: Option<TextSession>,
    pub(crate) prev_tool: Option<Tool>,
    pub(crate) demo_active: bool,
    pub(crate) is_new_project: bool,
    pub(crate) is_two_finger: bool,
    pub(crate) bg: Background<L>,
}

/// The layers of a history.
pub open spec fn layers(stack: Seq<Vec<char>>) -> Seq<Seq<char>> {
    Seq::new(stack.len(), |i: int| stack[i]@)
}

impl<L: Copy> App<L> {
    /// The state as plain mathematical values.
    pub open(crate) spec fn view(&self) -> AppState<L> {
        AppState {
            grid: self.grid@,
            undo: layers(self.undo_stack@),
            redo: layers(self.redo_stack@),
            stroke: self.stroke,
            settings: self.settings,
            selection: self.selection,
            text: self.text,
            prev_tool: self.prev_tool,
            demo_active: self.demo_active,
            is_new_project: self.is_new_project,
            is_two_finger: self.is_two_finger,
            bg: self.bg@,
        }
    }

    /// A program with an empty canvas and no image. `layout` places the image
    /// that is not there yet.
    pub fn new(layout: L) -> (app: App<L>)
        ensures
            app@.wf(),
            app@ == initial(layout),
    {
        let app = App {
            grid: Grid::new(),
            undo_stack: Vec::new(),
            redo_stack: Vec::new(),
            stroke: Stroke {
                is_drawing: false,
                draw_start: None,
                locked_axis: None,
                last_painted_cell: None,
            },
            settings: Settings {
                tool: Tool::Pencil,
                brush_char: '*',
                shift_locked: false,
                dark_mode: true,
                blend_mode: BlendMode::Overwrite,
                line_mode: LineMode::Character,
                pencil_mode: PencilMode::Normal,
                fill_mode: FillMode::Flood4,
                help_mode: false,
            },
            selection: None,
            text: None,
            prev_tool: None,
            demo_active: true,
            is_new_project: true,
            is_two_finger: false,
            bg: Background::new(layout),
        };
        assert(app@.undo =~= Seq::empty());
        assert(app@.redo =~= Seq::empty());
        app
    }

    /// How a cell looks.
    pub fn cell_look(&self, col: usize, row: usize) -> (look: CellLook)
        requires
            self@.wf(),
            on_canvas(col as int, row as int),
        ensures
            look == self@.look(col as int, row as int),
    {
        CellLook {
            ch: self.grid.display_char(col, row),
            preview: self.grid.is_preview(col, row),
            cursor: match self.text {
                Some(text) => text.cursor == col && text.row == row,
                None => false,
            },
            selected: match self.selection {
                Some(sel) => sel.left <= col && col <= sel.right && sel.top <= row && row <= sel.bottom,
                None => false,
            },
        }
    }

    /// What the user has chosen.
    pub fn settings(&self) -> (settings: Settings)
        ensures
            settings == self@.settings,
    {
        self.settings
    }

    /// The stroke in progress.
    pub fn stroke(&self) -> (stroke: Stroke)
        ensures
            stroke == self@.stroke,
    {
        self.stroke
    }

    /// The selected rectangle.
    pub fn selection(&self) -> (selection: Option<Selection>)
        ensures
            selection == self@.selection,
    {
        self.selection
    }

    /// The text being typed.
    pub fn text_session(&self) -> (text: Option<TextSession>)
        ensures
            text == self@.text,
    {
        self.text
    }

    /// Whether the canvas still shows the greeting.
    pub fn demo_active(&self) -> (yes: bool)
        ensures
            yes == self@.demo_active,
    {
        self.demo_active
    }

    /// Whether neither painting nor an image has begun the work.
    pub fn is_new_project(&self) -> (yes: bool)
        ensures
            yes == self@.is_new_project,
    {
        self.is_new_project
    }

    /// Whether a gesture of two fingers is going on or ending.
    pub fn is_two_finger(&self) -> (yes: bool)
        ensures
            yes == self@.is_two_finger,
    {
        self.is_two_finger
    }

    /// How many steps can be undone.
    pub fn undo_depth(&self) -> (depth: usize)
        ensures
            depth == self@.undo.len(),
    {
        self.undo_stack.len()
    }

    /// How many steps can be redone.
    pub fn redo_depth(&self) -> (depth: usize)
        ensures
            depth == self@.redo.len(),
    {
        self.redo_stack.len()
    }
}

// ---------------------------------------------------------------------------
// Laws
// ---------------------------------------------------------------------------

/// What a cell shows: its preview character, tinted, or without one the
/// committed one. It is marked where the selection covers it and where the text
/// cursor is.
pub proof fn law_what_a_cell_shows<L>(s: AppState<L>, col: int, row: int)
    requires
        s.wf(),
        0 <= col < 80,
        0 <= row < 24,
    ensures
        ({
            let look = s.look(col, row);
            let i = 80 * row + col;
            &&& s.grid.preview[i] matches Some(ch) ==> look.ch == ch && look.preview
            &&& s.grid.preview[i] is None ==> look.ch == s.grid.committed[i] && !look.preview
            &&& s.selection is None ==> !look.selected
            &&& s.selection matches Some(sel) ==> (look.selected <==> sel.left <= col <= sel.right && sel.top
                <= row <= sel.bottom)
            &&& s.text is None ==> !look.cursor
            &&& s.text matches Some(text) ==> (look.cursor <==> text.cursor == col && text.row == row)
        }),
{
}

} // verus!
