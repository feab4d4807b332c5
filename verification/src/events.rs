//! What the program does on events of the mouse, of fingers and of the
//! keyboard.

use vstd::prelude::*;

use crate::app::{cell_ok, App, AppState, Stroke};
use crate::clipboard::chars_of;
use crate::grid::{all_blank, no_preview, on_canvas};
use crate::modes::{same_text, Tool};
use crate::paint::{law_painting_is_preview, lemma_painted_fits};

verus! {

// ---------------------------------------------------------------------------
// Answers to the shell
// ---------------------------------------------------------------------------

/// What the shell has to do after a press on the canvas.
#[derive(Clone, Copy, PartialEq, Eq, Structural, Debug)]
pub enum Press {
    /// Nothing.
    Ignored,
    /// Start dragging the image.
    Drag,
    /// Raise the keyboard.
    Type,
    /// Show the stroke.
    Paint,
}

/// What the shell has to do after a movement over the canvas.
#[derive(Clone, Copy, PartialEq, Eq, Structural, Debug)]
pub enum Move {
    /// Nothing.
    Ignored,
    /// Drag the image on.
    Drag,
    /// Show the stroke.
    Paint,
}

/// What the shell has to do after a release.
#[derive(Clone, Copy, PartialEq, Eq, Structural, Debug)]
pub enum Release {
    /// Nothing.
    Ignored,
    /// Stop dragging the image.
    Drop,
    /// Show the canvas.
    Paint,
}

/// What two fingers scale.
#[derive(Clone, Copy, PartialEq, Eq, Structural, Debug)]
pub enum Pinch {
    /// Nothing.
    Ignored,
    /// The background image.
    Image,
    /// The canvas.
    Canvas,
}

/// What a key did.
#[derive(Clone, Copy, PartialEq, Eq, Structural, Debug)]
pub enum KeyAction {
    Ignored,
    TextAborted,
    TextCommitted,
    TextErased,
    TextTyped,
    MoveAccepted,
    MoveCancelled,
    Undone,
    Redone,
    StrokeAborted,
    Deselected,
}

// ---------------------------------------------------------------------------
// Model
// ---------------------------------------------------------------------------

impl<L> AppState<L> {
    /// A stroke begun at a cell, with a step to undo it unless it only selects.
    pub open spec fn begun(self, col: usize, row: usize, shift: bool) -> AppState<L> {
        let s = if self.settings.tool == Tool::Select {
            self
        } else {
            self.snapshot()
        };
        AppState {
            stroke: Stroke {
                is_drawing: true,
                draw_start: Some((col, row)),
                locked_axis: None,
                last_painted_cell: None,
            },
            ..s
        }.painted(col, row, shift)
    }

    /// What a press at a cell does with a tool that works on the canvas: begin
    /// to type, or begin a stroke.
    pub open spec fn worked(self, col: usize, row: usize, shift: bool) -> AppState<L> {
        if self.settings.tool == Tool::Text {
            self.text_committed().text_started(col, row)
        } else {
            self.begun(col, row, shift)
        }
    }

    /// What the shell has to do when the canvas is worked on.
    pub open spec fn work_answer(self) -> Press {
        if self.settings.tool == Tool::Text {
            Press::Type
        } else {
            Press::Paint
        }
    }

    /// What the shell has to do when the image is pressed on.
    pub open spec fn drag_answer(self) -> Press {
        if self.bg.url is Some {
            Press::Drag
        } else {
            Press::Ignored
        }
    }

    /// The state after the mouse is pressed, at a cell or beside the canvas.
    pub open spec fn mouse_pressed(self, cell: Option<(usize, usize)>, shift: bool) -> AppState<L> {
        match cell {
            None => self,
            Some((col, row)) => if self.settings.tool == Tool::BgMove {
                self.demo_cleared()
            } else {
                self.demo_cleared().worked(col, row, shift)
            },
        }
    }

    /// The state after the pointer moves, to a cell or beside the canvas.
    pub open spec fn moved(self, cell: Option<(usize, usize)>, shift: bool) -> AppState<L> {
        match cell {
            Some((col, row)) => if self.settings.tool != Tool::BgMove && self.stroke.is_drawing {
                self.painted(col, row, shift)
            } else {
                self
            },
            None => self,
        }
    }

    /// The state after a release: the stroke is committed.
    pub open spec fn released(self) -> AppState<L> {
        if self.settings.tool != Tool::BgMove && self.stroke.is_drawing {
            self.stroke_committed()
        } else {
            self
        }
    }

    /// What the shell has to do after a release.
    pub open spec fn release_answer(self) -> Release {
        if self.settings.tool == Tool::BgMove {
            Release::Drop
        } else if self.stroke.is_drawing {
            Release::Paint
        } else {
            Release::Ignored
        }
    }

    /// The state after one finger touches down. After a gesture of two fingers
    /// it does nothing until all of them are lifted.
    pub open spec fn finger_pressed(self, cell: Option<(usize, usize)>) -> AppState<L> {
        if self.is_two_finger || self.settings.tool == Tool::BgMove {
            self
        } else {
            match cell {
                Some((col, row)) => self.demo_cleared().worked(col, row, false),
                None => self,
            }
        }
    }

    /// The state after a second finger touches down: a stroke is cancelled.
    pub open spec fn second_finger_pressed(self) -> AppState<L> {
        let s = if self.stroke.is_drawing {
            self.stroke_aborted()
        } else {
            self
        };
        AppState { is_two_finger: true, ..s }
    }

    /// The state after fingers are lifted and `remaining` still touch.
    pub open spec fn fingers_lifted(self, remaining: int) -> AppState<L> {
        if remaining == 0 {
            AppState { is_two_finger: false, ..self.released() }
        } else {
            self
        }
    }

    /// The state after touches are interrupted: a stroke is cancelled.
    pub open spec fn touch_interrupted(self) -> AppState<L> {
        let s = if self.settings.tool != Tool::BgMove && self.stroke.is_drawing {
            self.stroke_aborted()
        } else {
            self
        };
        AppState { is_two_finger: false, ..s }
    }

    /// What a key does. While text is being typed it is served first.
    pub open spec fn key_meaning(self, key: Seq<char>, ctrl: bool, alt: bool, shift: bool) -> KeyAction {
        if self.text is Some && key == "Escape"@ {
            KeyAction::TextAborted
        } else if self.text is Some && key == "Enter"@ {
            KeyAction::TextCommitted
        } else if self.text is Some && key == "Backspace"@ && !ctrl && !alt {
            KeyAction::TextErased
        } else if self.text is Some && key.len() == 1 && !ctrl && !alt {
            KeyAction::TextTyped
        } else if key == "Enter"@ && self.settings.tool == Tool::BgMove {
            KeyAction::MoveAccepted
        } else if (key == "z"@ || key == "Z"@) && ctrl {
            if shift {
                KeyAction::Redone
            } else {
                KeyAction::Undone
            }
        } else if key == "Escape"@ && self.settings.tool == Tool::BgMove {
            KeyAction::MoveCancelled
        } else if key == "Escape"@ && self.stroke.is_drawing {
            KeyAction::StrokeAborted
        } else if key == "Escape"@ && self.selection is Some {
            KeyAction::Deselected
        } else {
            KeyAction::Ignored
        }
    }

    /// The state after a key.
    pub open spec fn keyed(self, key: Seq<char>, ctrl: bool, alt: bool, shift: bool) -> AppState<L> {
        match self.key_meaning(key, ctrl, alt, shift) {
            KeyAction::Ignored => self,
            KeyAction::TextAborted => self.text_aborted(),
            KeyAction::TextCommitted => self.text_committed(),
            KeyAction::TextErased => self.erased(),
            KeyAction::TextTyped => self.typed(key[0]),
            KeyAction::MoveAccepted => self.move_accepted(),
            KeyAction::MoveCancelled => self.move_cancelled(),
            KeyAction::Undone => self.undone(),
            KeyAction::Redone => self.redone(),
            KeyAction::StrokeAborted => self.stroke_aborted(),
            KeyAction::Deselected => self.deselected(),
        }
    }
}

/// Whether a key copies.
pub open spec fn copies(key: Seq<char>, ctrl: bool, shift: bool) -> bool {
    key == "c"@ && ctrl && !shift
}

/// Whether a media type is that of an image.
pub open spec fn is_image(media_type: Seq<char>) -> bool {
    "image/"@.is_prefix_of(media_type)
}

// ---------------------------------------------------------------------------
// Implementation
// ---------------------------------------------------------------------------

/// Whether a key copies.
pub fn is_copy_key(key: &str, ctrl: bool, shift: bool) -> (yes: bool)
    ensures
        yes == copies(key@, ctrl, shift),
{
    same_text(key, "c") && ctrl && !shift
}

/// Whether a media type is that of an image.
pub fn is_image_type(media_type: &str) -> (yes: bool)
    ensures
        yes == is_image(media_type@),
{
    let chars: Vec<char> = chars_of(media_type);
    let start: Vec<char> = chars_of("image/");
    if chars.len() < start.len() {
        return false;
    }
    let mut i: usize = 0;
    while i < start.len()
        invariant
            0 <= i <= start@.len() <= chars@.len(),
            start@ == "image/"@,
            chars@ == media_type@,
            forall|k: int| 0 <= k < i ==> chars@[k] == start@[k],
        decreases start@.len() - i,
    {
        if chars[i] != start[i] {
            assert(!(start@ =~= media_type@.subrange(0, start@.len() as int))) by {
                assert(media_type@.subrange(0, start@.len() as int)[i as int] == chars@[i as int]);
            }
            return false;
        }
        i = i + 1;
    }
    assert(start@ =~= media_type@.subrange(0, start@.len() as int));
    true
}

impl<L: Copy> App<L> {
    /// Begin a stroke at a cell.
    fn begin_stroke(&mut self, col: usize, row: usize, shift: bool)
        requires
            old(self)@.wf(),
            on_canvas(col as int, row as int),
        ensures
            final(self)@.wf(),
            final(self)@ == old(self)@.begun(col, row, shift),
    {
        if self.settings.tool != Tool::Select {
            self.push_undo_snapshot();
        }
        self.stroke = Stroke {
            is_drawing: true,
            draw_start: Some((col, row)),
            locked_axis: None,
            last_painted_cell: None,
        };
        self.paint_stroke_to(col, row, shift);
    }

    /// Begin to type or to paint at a cell.
    fn work_at(&mut self, col: usize, row: usize, shift: bool) -> (press: Press)
        requires
            old(self)@.wf(),
            on_canvas(col as int, row as int),
        ensures
            final(self)@.wf(),
            final(self)@ == old(self)@.worked(col, row, shift),
            press == old(self)@.work_answer(),
    {
        if self.settings.tool == Tool::Text {
            self.start_text_session(col, row);
            Press::Type
        } else {
            self.begin_stroke(col, row, shift);
            Press::Paint
        }
    }

    /// The mouse is pressed, at a cell or beside the canvas.
    pub fn mouse_down(&mut self, cell: Option<(usize, usize)>, shift: bool) -> (press: Press)
        requires
            old(self)@.wf(),
            cell is Some ==> on_canvas((cell->0).0 as int, (cell->0).1 as int),
        ensures
            final(self)@.wf(),
            final(self)@ == old(self)@.mouse_pressed(cell, shift),
            press == if cell is None {
                Press::Ignored
            } else if old(self)@.settings.tool == Tool::BgMove {
                old(self)@.drag_answer()
            } else {
                old(self)@.work_answer()
            },
    {
        let (col, row) = match cell {
            Some(at) => at,
            None => return Press::Ignored,
        };
        self.clear_demo_if_active();
        if self.settings.tool == Tool::BgMove {
            if self.bg.url.is_some() {
                Press::Drag
            } else {
                Press::Ignored
            }
        } else {
            self.work_at(col, row, shift)
        }
    }

    /// The mouse moves, over a cell or beside the canvas.
    pub fn mouse_move(&mut self, cell: Option<(usize, usize)>, shift: bool) -> (moved: Move)
        requires
            old(self)@.wf(),
            cell is Some ==> on_canvas((cell->0).0 as int, (cell->0).1 as int),
        ensures
            final(self)@.wf(),
            final(self)@ == old(self)@.moved(cell, shift),
            moved == if old(self)@.settings.tool == Tool::BgMove {
                Move::Drag
            } else if old(self)@.stroke.is_drawing && cell is Some {
                Move::Paint
            } else {
                Move::Ignored
            },
    {
        if self.settings.tool == Tool::BgMove {
            return Move::Drag;
        }
        if !self.stroke.is_drawing {
            return Move::Ignored;
        }
        match cell {
            Some((col, row)) => {
                self.paint_stroke_to(col, row, shift);
                Move::Paint
            },
            None => Move::Ignored,
        }
    }

    /// The mouse is released.
    pub fn mouse_up(&mut self) -> (release: Release)
        requires
            old(self)@.wf(),
        ensures
            final(self)@.wf(),
            final(self)@ == old(self)@.released(),
            release == old(self)@.release_answer(),
    {
        if self.settings.tool == Tool::BgMove {
            Release::Drop
        } else if self.stroke.is_drawing {
            self.commit_stroke();
            Release::Paint
        } else {
            Release::Ignored
        }
    }

    /// Whether the wheel scales the image.
    pub fn wheel_zooms(&self) -> (yes: bool)
        ensures
            yes == (self@.settings.tool == Tool::BgMove && self@.bg.url is Some),
    {
        self.settings.tool == Tool::BgMove && self.bg.url.is_some()
    }

    /// One finger touches down, at a cell or beside the canvas.
    pub fn touch_start_one(&mut self, cell: Option<(usize, usize)>) -> (press: Press)
        requires
            old(self)@.wf(),
            cell is Some ==> on_canvas((cell->0).0 as int, (cell->0).1 as int),
        ensures
            final(self)@.wf(),
            final(self)@ == old(self)@.finger_pressed(cell),
            press == if old(self)@.is_two_finger {
                Press::Ignored
            } else if old(self)@.settings.tool == Tool::BgMove {
                old(self)@.drag_answer()
            } else if cell is None {
                Press::Ignored
            } else {
                old(self)@.work_answer()
            },
    {
        if self.is_two_finger {
            return Press::Ignored;
        }
        if self.settings.tool == Tool::BgMove {
            return if self.bg.url.is_some() {
                Press::Drag
            } else {
                Press::Ignored
            };
        }
        match cell {
            Some((col, row)) => {
                self.clear_demo_if_active();
                self.work_at(col, row, false)
            },
            None => Press::Ignored,
        }
    }

    /// A second finger touches down.
    pub fn touch_start_two(&mut self)
        requires
            old(self)@.wf(),
        ensures
            final(self)@.wf(),
            final(self)@ == old(self)@.second_finger_pressed(),
    {
        if self.stroke.is_drawing {
            self.abort_stroke();
        }
        self.is_two_finger = true;
    }

    /// One finger moves, over a cell or beside the canvas.
    pub fn touch_move_one(&mut self, cell: Option<(usize, usize)>) -> (moved: Move)
        requires
            old(self)@.wf(),
            cell is Some ==> on_canvas((cell->0).0 as int, (cell->0).1 as int),
        ensures
            final(self)@.wf(),
            final(self)@ == old(self)@.moved(cell, false),
            moved == if old(self)@.settings.tool == Tool::BgMove {
                if old(self)@.is_two_finger {
                    Move::Ignored
                } else {
                    Move::Drag
                }
            } else if old(self)@.stroke.is_drawing && cell is Some {
                Move::Paint
            } else {
                Move::Ignored
            },
    {
        if self.settings.tool == Tool::BgMove && self.is_two_finger {
            Move::Ignored
        } else {
            self.mouse_move(cell, false)
        }
    }

    /// What two moving fingers scale.
    pub fn touch_move_two(&self) -> (pinch: Pinch)
        ensures
            pinch == if !self@.is_two_finger {
                Pinch::Ignored
            } else if self@.settings.tool == Tool::BgMove {
                Pinch::Image
            } else {
                Pinch::Canvas
            },
    {
        if !self.is_two_finger {
            Pinch::Ignored
        } else if self.settings.tool == Tool::BgMove {
            Pinch::Image
        } else {
            Pinch::Canvas
        }
    }

    /// Fingers are lifted and `remaining` still touch.
    pub fn touch_end(&mut self, remaining: u32) -> (release: Release)
        requires
            old(self)@.wf(),
        ensures
            final(self)@.wf(),
            final(self)@ == old(self)@.fingers_lifted(remaining as int),
            release == if remaining == 0 {
                old(self)@.release_answer()
            } else {
                Release::Ignored
            },
    {
        if remaining == 0 {
            let release: Release = self.mouse_up();
            self.is_two_finger = false;
            release
        } else {
            Release::Ignored
        }
    }

    /// Touches are interrupted.
    pub fn touch_cancel(&mut self) -> (release: Release)
        requires
            old(self)@.wf(),
        ensures
            final(self)@.wf(),
            final(self)@ == old(self)@.touch_interrupted(),
            release == old(self)@.release_answer(),
    {
        let release: Release = if self.settings.tool == Tool::BgMove {
            Release::Drop
        } else if self.stroke.is_drawing {
            self.abort_stroke();
            Release::Paint
        } else {
            Release::Ignored
        };
        self.is_two_finger = false;
        release
    }

    /// What a key means.
    fn meaning_of_key(&self, key: &str, ctrl: bool, alt: bool, shift: bool) -> (action: KeyAction)
        ensures
            action == self@.key_meaning(key@, ctrl, alt, shift),
    {
        let typing: bool = self.text.is_some();
        if typing && same_text(key, "Escape") {
            KeyAction::TextAborted
        } else if typing && same_text(key, "Enter") {
            KeyAction::TextCommitted
        } else if typing && same_text(key, "Backspace") && !ctrl && !alt {
            KeyAction::TextErased
        } else if typing && chars_of(key).len() == 1 && !ctrl && !alt {
            KeyAction::TextTyped
        } else if same_text(key, "Enter") && self.settings.tool == Tool::BgMove {
            KeyAction::MoveAccepted
        } else if (same_text(key, "z") || same_text(key, "Z")) && ctrl {
            if shift {
                KeyAction::Redone
            } else {
                KeyAction::Undone
            }
        } else if same_text(key, "Escape") && self.settings.tool == Tool::BgMove {
            KeyAction::MoveCancelled
        } else if same_text(key, "Escape") && self.stroke.is_drawing {
            KeyAction::StrokeAborted
        } else if same_text(key, "Escape") && self.selection.is_some() {
            KeyAction::Deselected
        } else {
            KeyAction::Ignored
        }
    }

    /// A key is pressed.
    pub fn key_down(&mut self, key: &str, ctrl: bool, alt: bool, shift: bool) -> (action: KeyAction)
        requires
            old(self)@.wf(),
        ensures
            final(self)@.wf(),
            final(self)@ == old(self)@.keyed(key@, ctrl, alt, shift),
            action == old(self)@.key_meaning(key@, ctrl, alt, shift),
    {
        let action: KeyAction = self.meaning_of_key(key, ctrl, alt, shift);
        match action {
            KeyAction::Ignored => {},
            KeyAction::TextAborted => self.abort_text_session(),
            KeyAction::TextCommitted => self.commit_text_session(),
            KeyAction::TextErased => self.text_backspace(),
            KeyAction::TextTyped => {
                let chars: Vec<char> = chars_of(key);
                self.type_char(chars[0]);
            },
            KeyAction::MoveAccepted => {
                self.accept_bg_move();
            },
            KeyAction::MoveCancelled => self.cancel_bg_move(),
            KeyAction::Undone => self.undo(),
            KeyAction::Redone => self.redo(),
            KeyAction::StrokeAborted => self.abort_stroke(),
            KeyAction::Deselected => self.clear_selection(),
        }
        action
    }
}

// ---------------------------------------------------------------------------
// Laws
// ---------------------------------------------------------------------------

/// The state after a stroke moves through several cells.
pub open spec fn moved_through<L>(
    s: AppState<L>,
    moves: Seq<(Option<(usize, usize)>, bool)>,
) -> AppState<L>
    decreases moves.len(),
{
    if moves.len() == 0 {
        s
    } else {
        moved_through(s, moves.drop_last()).moved(moves.last().0, moves.last().1)
    }
}

/// Every cell that is moved to is on the canvas.
pub open spec fn moves_ok(moves: Seq<(Option<(usize, usize)>, bool)>) -> bool {
    forall|i: int| 0 <= i < moves.len() ==> cell_ok((#[trigger] moves[i]).0)
}

/// A step keeps the state well formed.
proof fn lemma_painted_wf<L>(s: AppState<L>, col: usize, row: usize, shift: bool)
    requires
        s.wf(),
        on_canvas(col as int, row as int),
    ensures
        s.painted(col, row, shift).wf(),
{
    law_painting_is_preview(s, col, row, shift);
    lemma_painted_fits(s, col, row, shift);
}

proof fn lemma_moved_through<L>(s: AppState<L>, moves: Seq<(Option<(usize, usize)>, bool)>)
    requires
        s.wf(),
        moves_ok(moves),
    ensures
        ({
            let t = moved_through(s, moves);
            &&& t.wf()
            &&& t.grid.committed == s.grid.committed
            &&& t.undo == s.undo
            &&& t.redo == s.redo
            &&& t.text == s.text
            &&& t.settings == s.settings
            &&& t.stroke.is_drawing == s.stroke.is_drawing
        }),
    decreases moves.len(),
{
    if moves.len() > 0 {
        let before = moves.drop_last();
        assert forall|i: int| 0 <= i < before.len() implies cell_ok((#[trigger] before[i]).0) by {
            assert(before[i] == moves[i]);
        }
        lemma_moved_through(s, before);
        let t = moved_through(s, before);
        let last = moves[moves.len() - 1];
        assert(cell_ok(last.0));
        if let Some((col, row)) = last.0 {
            law_painting_is_preview(t, col, row, last.1);
            lemma_painted_wf(t, col, row, last.1);
        }
    }
}

/// A whole stroke, from the press through any number of movements to the
/// release, is one step: undo brings back the canvas from before the press.
pub proof fn law_stroke_is_one_step<L>(
    s: AppState<L>,
    at: (usize, usize),
    shift: bool,
    moves: Seq<(Option<(usize, usize)>, bool)>,
)
    requires
        s.wf(),
        s.text is None,
        !s.demo_active,
        on_canvas(at.0 as int, at.1 as int),
        moves_ok(moves),
        s.settings.tool != Tool::BgMove && s.settings.tool != Tool::Text && s.settings.tool != Tool::Select,
    ensures
        ({
            let end = moved_through(s.mouse_pressed(Some(at), shift), moves).released();
            &&& end.undone().grid.committed == s.grid.committed
            &&& end.undone().undo == s.undo
            &&& end.undo == s.undo.push(s.grid.committed)
            &&& !end.stroke.is_drawing
        }),
{
    lemma_stroke_so_far(s, at, shift, moves);
    let end = moved_through(s.mouse_pressed(Some(at), shift), moves).released();
    assert(end.undo.drop_last() =~= s.undo);
}

proof fn lemma_stroke_so_far<L>(
    s: AppState<L>,
    at: (usize, usize),
    shift: bool,
    moves: Seq<(Option<(usize, usize)>, bool)>,
)
    requires
        s.wf(),
        !s.demo_active,
        on_canvas(at.0 as int, at.1 as int),
        moves_ok(moves),
        s.settings.tool != Tool::BgMove && s.settings.tool != Tool::Text,
    ensures
        ({
            let t = moved_through(s.mouse_pressed(Some(at), shift), moves);
            &&& t.wf()
            &&& t.grid.committed == s.grid.committed
            &&& t.undo == if s.settings.tool == Tool::Select {
                s.undo
            } else {
                s.undo.push(s.grid.committed)
            }
            &&& t.text == s.text
            &&& t.settings == s.settings
            &&& t.stroke.is_drawing
        }),
{
    let first = AppState {
        stroke: Stroke {
            is_drawing: true,
            draw_start: Some(at),
            locked_axis: None,
            last_painted_cell: None,
        },
        ..if s.settings.tool == Tool::Select {
            s
        } else {
            s.snapshot()
        }
    };
    assert(first.wf());
    law_painting_is_preview(first, at.0, at.1, shift);
    lemma_painted_wf(first, at.0, at.1, shift);
    lemma_moved_through(s.mouse_pressed(Some(at), shift), moves);
}

/// A stroke that is cancelled leaves no trace: the canvas, what can be undone
/// and what is shown are as before the press.
pub proof fn law_cancelled_stroke_leaves_no_trace<L>(
    s: AppState<L>,
    at: (usize, usize),
    shift: bool,
    moves: Seq<(Option<(usize, usize)>, bool)>,
)
    requires
        s.wf(),
        !s.demo_active,
        on_canvas(at.0 as int, at.1 as int),
        moves_ok(moves),
        s.settings.tool != Tool::BgMove && s.settings.tool != Tool::Text && s.settings.tool != Tool::Select,
        s.grid.preview == no_preview(),
    ensures
        ({
            let end = moved_through(s.mouse_pressed(Some(at), shift), moves).stroke_aborted();
            &&& end.grid == s.grid
            &&& end.undo == s.undo
            &&& !end.stroke.is_drawing
        }),
{
    lemma_stroke_so_far(s, at, shift, moves);
    let end = moved_through(s.mouse_pressed(Some(at), shift), moves).stroke_aborted();
    assert(end.undo =~= s.undo);
}

/// The first press wipes off the greeting before it takes its step, so that the
/// greeting cannot be brought back by undo.
pub proof fn law_greeting_is_never_undone_to<L>(s: AppState<L>, at: (usize, usize), shift: bool)
    requires
        s.wf(),
        s.demo_active,
        s.text is None,
        on_canvas(at.0 as int, at.1 as int),
        s.settings.tool != Tool::BgMove && s.settings.tool != Tool::Select,
    ensures
        ({
            let t = s.mouse_pressed(Some(at), shift);
            &&& !t.demo_active
            &&& !t.is_new_project
            &&& t.undo == s.undo.push(all_blank())
        }),
{
    let d = s.demo_cleared();
    assert(d.wf());
    if s.settings.tool != Tool::Text {
        let first = AppState {
            stroke: Stroke {
                is_drawing: true,
                draw_start: Some(at),
                locked_axis: None,
                last_painted_cell: None,
            },
            ..d.snapshot()
        };
        assert(first.wf());
        law_painting_is_preview(first, at.0, at.1, shift);
    }
}

/// A press with a tool that paints begins a stroke there: the canvas is
/// remembered as a step to undo, nothing can be redone, and nothing is committed
/// yet. The selection tool begins a stroke without a step.
pub proof fn law_press_begins_stroke<L>(s: AppState<L>, at: (usize, usize), shift: bool)
    requires
        s.wf(),
        !s.demo_active,
        on_canvas(at.0 as int, at.1 as int),
        s.settings.tool != Tool::BgMove && s.settings.tool != Tool::Text,
    ensures
        ({
            let t = s.mouse_pressed(Some(at), shift);
            &&& t.stroke.is_drawing
            &&& t.stroke.draw_start == Some(at)
            &&& t.stroke.last_painted_cell == Some(at)
            &&& t.stroke.locked_axis is None
            &&& t.grid.committed == s.grid.committed
            &&& s.settings.tool != Tool::Select ==> t.undo == s.undo.push(s.grid.committed) && t.redo.len() == 0
            &&& s.settings.tool == Tool::Select ==> t.undo == s.undo && t.redo == s.redo && t.grid == s.grid
            &&& t.settings == s.settings && t.bg == s.bg && t.text == s.text
        }),
{
    let first = AppState {
        stroke: Stroke {
            is_drawing: true,
            draw_start: Some(at),
            locked_axis: None,
            last_painted_cell: None,
        },
        ..if s.settings.tool == Tool::Select {
            s
        } else {
            s.snapshot()
        }
    };
    law_painting_is_preview(first, at.0, at.1, shift);
}

/// A press with the text tool begins to type in that cell; text being typed
/// elsewhere is committed first. A press while the image is being moved leaves
/// the canvas alone, but for the greeting.
pub proof fn law_press_of_other_tools<L>(s: AppState<L>, at: (usize, usize), shift: bool)
    requires
        s.wf(),
        on_canvas(at.0 as int, at.1 as int),
    ensures
        s.settings.tool == Tool::Text ==> s.mouse_pressed(Some(at), shift) == s.demo_cleared().text_committed().text_started(
            at.0,
            at.1,
        ),
        s.settings.tool == Tool::BgMove ==> s.mouse_pressed(Some(at), shift) == s.demo_cleared(),
        s.settings.tool == Tool::BgMove ==> s.finger_pressed(Some(at)) == s,
{
}

/// What the shell is told: to raise the keyboard for the text tool and to show
/// the stroke for the others, to drag an image only if there is one, and at a
/// release to drop the image or to show the canvas if a stroke was going on.
pub proof fn law_answers_to_the_shell<L>(s: AppState<L>)
    ensures
        s.work_answer() == if s.settings.tool == Tool::Text { Press::Type } else { Press::Paint },
        s.drag_answer() == Press::Drag <==> s.bg.url is Some,
        s.drag_answer() == Press::Ignored <==> s.bg.url is None,
        s.release_answer() == Release::Drop <==> s.settings.tool == Tool::BgMove,
        s.release_answer() == Release::Paint <==> s.settings.tool != Tool::BgMove && s.stroke.is_drawing,
{
}

/// A second finger cancels a stroke and does nothing else; without a stroke it
/// changes nothing but that two fingers are down.
pub proof fn law_second_finger<L>(s: AppState<L>)
    requires
        s.wf(),
    ensures
        s.second_finger_pressed().is_two_finger,
        s.stroke.is_drawing ==> s.second_finger_pressed() == (AppState {
            is_two_finger: true,
            ..s.stroke_aborted()
        }),
        !s.stroke.is_drawing ==> s.second_finger_pressed() == (AppState { is_two_finger: true, ..s }),
{
}

/// A finger does what the mouse does without Shift, as long as it is the only
/// one and the image is not being moved; likewise when it moves and when it is
/// lifted.
pub proof fn law_finger_is_like_mouse<L>(s: AppState<L>, cell: Option<(usize, usize)>)
    requires
        s.wf(),
        !s.is_two_finger,
        s.settings.tool != Tool::BgMove,
    ensures
        s.finger_pressed(cell) == s.mouse_pressed(cell, false),
        s.fingers_lifted(0) == s.released(),
{
    assert(s.fingers_lifted(0) =~= s.released());
}

/// Beside the canvas a press or a movement does nothing, and movements and
/// releases without a stroke do nothing either.
pub proof fn law_nothing_happens_beside_the_canvas<L>(s: AppState<L>, cell: Option<(usize, usize)>, shift: bool)
    requires
        s.wf(),
    ensures
        s.mouse_pressed(None, shift) == s,
        s.finger_pressed(None) == s,
        s.moved(None, shift) == s,
        !s.stroke.is_drawing ==> s.moved(cell, shift) == s && s.released() == s,
{
}

/// While a stroke is going on a movement to a cell paints to it, and a release
/// ends the stroke and commits what it shows.
pub proof fn law_stroke_goes_on_and_ends<L>(s: AppState<L>, to: (usize, usize), shift: bool, i: int)
    requires
        s.wf(),
        s.stroke.is_drawing,
        s.settings.tool != Tool::BgMove,
        on_canvas(to.0 as int, to.1 as int),
        0 <= i < 1920,
    ensures
        s.moved(Some(to), shift) == s.painted(to.0, to.1, shift),
        !s.released().stroke.is_drawing,
        s.released().grid.preview[i] is None,
        s.released().grid.committed[i] == match s.grid.preview[i] {
            Some(ch) => ch,
            None => s.grid.committed[i],
        },
        s.released().undo == s.undo,
{
}

/// An interrupted touch cancels its stroke and commits nothing.
pub proof fn law_interrupted_touch<L>(s: AppState<L>)
    requires
        s.wf(),
    ensures
        s.touch_interrupted().grid.committed == s.grid.committed,
        !s.touch_interrupted().is_two_finger,
        s.settings.tool != Tool::BgMove && s.stroke.is_drawing ==> s.touch_interrupted().grid
            == s.stroke_aborted().grid && s.touch_interrupted().undo == s.stroke_aborted().undo
            && !s.touch_interrupted().stroke.is_drawing,
{
}

/// A media type is that of an image exactly if it begins with `image/`.
pub proof fn law_image_types(media_type: Seq<char>)
    ensures
        is_image(media_type) <==> media_type.len() >= 6 && media_type[0] == 'i' && media_type[1] == 'm'
            && media_type[2] == 'a' && media_type[3] == 'g' && media_type[4] == 'e' && media_type[5] == '/',
{
    reveal_strlit("image/");
    if media_type.len() >= 6 {
        let start = media_type.subrange(0, 6);
        assert(start[0] == media_type[0] && start[1] == media_type[1] && start[2] == media_type[2]);
        assert(start[3] == media_type[3] && start[4] == media_type[4] && start[5] == media_type[5]);
        if media_type[0] == 'i' && media_type[1] == 'm' && media_type[2] == 'a' && media_type[3] == 'g'
            && media_type[4] == 'e' && media_type[5] == '/' {
            assert("image/"@ =~= start);
        }
    }
}

/// Ctrl and `c` copy, with nothing else held.
pub proof fn law_copy_key(ctrl: bool, shift: bool)
    ensures
        copies("c"@, ctrl, shift) <==> ctrl && !shift,
        !copies("C"@, ctrl, shift),
{
    reveal_strlit("c");
    reveal_strlit("C");
    assert("c"@[0] == 'c' && "C"@[0] == 'C');
}

/// Enter ends typing, or without text accepts the placement of an image that is
/// being moved; otherwise it does nothing.
pub proof fn law_enter_key<L>(s: AppState<L>, ctrl: bool, alt: bool, shift: bool)
    requires
        s.wf(),
    ensures
        s.keyed("Enter"@, ctrl, alt, shift) == if s.text is Some {
            s.text_committed()
        } else if s.settings.tool == Tool::BgMove {
            s.move_accepted()
        } else {
            s
        },
{
    reveal_strlit("Escape");
    reveal_strlit("Enter");
    reveal_strlit("z");
    reveal_strlit("Z");
    assert("z"@.len() == 1 && "Z"@.len() == 1);
    assert("Enter"@.len() == 5 && "Escape"@.len() == 6);
}

/// Backspace takes back a typed character while text is being typed, and does
/// nothing otherwise.
pub proof fn law_backspace_key<L>(s: AppState<L>, shift: bool)
    requires
        s.wf(),
    ensures
        s.keyed("Backspace"@, false, false, shift) == if s.text is Some {
            s.erased()
        } else {
            s
        },
{
    reveal_strlit("Escape");
    reveal_strlit("Enter");
    reveal_strlit("Backspace");
    assert("Enter"@.len() == 5 && "Escape"@.len() == 6 && "Backspace"@.len() == 9);
}

/// With Alt held a key for a single character is not typed, and without Ctrl it
/// does nothing else either.
pub proof fn law_alt_is_not_typed<L>(s: AppState<L>, key: Seq<char>, shift: bool)
    requires
        s.wf(),
        key.len() == 1,
    ensures
        s.keyed(key, false, true, shift) == s,
{
    reveal_strlit("Escape");
    reveal_strlit("Enter");
    reveal_strlit("Backspace");
    assert("Enter"@.len() == 5 && "Escape"@.len() == 6 && "Backspace"@.len() == 9);
}

/// Without text being typed a key for a single character does nothing unless
/// Ctrl is held.
pub proof fn law_plain_keys_do_nothing<L>(s: AppState<L>, key: Seq<char>, alt: bool, shift: bool)
    requires
        s.wf(),
        s.text is None,
        key.len() == 1,
    ensures
        s.keyed(key, false, alt, shift) == s,
{
    reveal_strlit("Escape");
    reveal_strlit("Enter");
    assert("Enter"@.len() == 5 && "Escape"@.len() == 6);
}

/// A second finger cancels the stroke of the first, and until all fingers are
/// lifted no finger paints.
pub proof fn law_two_fingers_do_not_paint<L>(s: AppState<L>, cell: Option<(usize, usize)>, remaining: int)
    requires
        s.wf(),
        remaining > 0,
    ensures
        ({
            let t = s.second_finger_pressed();
            &&& t.grid.committed == s.grid.committed
            &&& !t.stroke.is_drawing
            &&& t.moved(cell, false) == t
            &&& t.fingers_lifted(remaining) == t
            &&& t.finger_pressed(cell) == t
            &&& !t.fingers_lifted(0).is_two_finger
        }),
{
}

/// A key that is typed as text does nothing else.
pub proof fn law_typing_goes_to_text<L>(s: AppState<L>, key: Seq<char>, shift: bool)
    requires
        s.wf(),
        s.text is Some,
        key.len() == 1,
    ensures
        s.keyed(key, false, false, shift) == s.typed(key[0]),
{
    reveal_strlit("Escape");
    reveal_strlit("Enter");
    reveal_strlit("Backspace");
}

/// Ctrl+Z undoes and Shift+Ctrl+Z redoes, even while text is being typed.
pub proof fn law_undo_keys<L>(s: AppState<L>)
    requires
        s.wf(),
    ensures
        s.keyed("z"@, true, false, false) == s.undone(),
        s.keyed("Z"@, true, false, true) == s.redone(),
{
    reveal_strlit("Escape");
    reveal_strlit("Enter");
    reveal_strlit("Backspace");
    reveal_strlit("z");
    reveal_strlit("Z");
    assert("z"@.len() == 1 && "Z"@.len() == 1);
    assert("Enter"@.len() == 5 && "Escape"@.len() == 6 && "Backspace"@.len() == 9);
}

/// Escape ends what is going on: typing, else moving the image, else a stroke.
/// Otherwise it drops the selection.
pub proof fn law_escape_key<L>(s: AppState<L>, ctrl: bool, alt: bool, shift: bool)
    requires
        s.wf(),
    ensures
        s.keyed("Escape"@, ctrl, alt, shift) == if s.text is Some {
            s.text_aborted()
        } else if s.settings.tool == Tool::BgMove {
            s.move_cancelled()
        } else if s.stroke.is_drawing {
            s.stroke_aborted()
        } else {
            s.deselected()
        },
{
    reveal_strlit("Escape");
    reveal_strlit("Enter");
    reveal_strlit("z");
    reveal_strlit("Z");
    assert("z"@.len() == 1 && "Z"@.len() == 1);
    assert("Enter"@.len() == 5 && "Escape"@.len() == 6);
}

} // verus!
