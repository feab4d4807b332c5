//! Typing text onto the canvas.

use vstd::prelude::*;

use crate::app::{App, AppState, TextSession};
use crate::grid::{cell_index, no_preview, on_canvas, GridState, CELLS, COLS, CURSOR_CHAR};
use crate::history::popped;

verus! {

impl<L> AppState<L> {
    /// A new text session at a cell, with a step to undo it.
    pub open spec fn text_started(self, col: usize, row: usize) -> AppState<L> {
        AppState {
            text: Some(TextSession { origin: col, cursor: col, row }),
            grid: self.grid.with_preview(col as int, row as int, Some(CURSOR_CHAR)),
            ..self.snapshot()
        }
    }

    /// The typed characters committed, without the cursor, and the session over.
    pub open spec fn text_committed(self) -> AppState<L> {
        match self.text {
            None => self,
            Some(text) => AppState {
                grid: if text.cursor < COLS {
                    self.grid.with_preview(text.cursor as int, text.row as int, None).committed_preview()
                } else {
                    self.grid.committed_preview()
                },
                text: None,
                ..self
            },
        }
    }

    /// The typed characters discarded with their step to undo, and the cursor
    /// back where the session began.
    pub open spec fn text_aborted(self) -> AppState<L> {
        match self.text {
            None => self,
            Some(text) => AppState {
                grid: self.grid.aborted_preview(),
                undo: popped(self.undo),
                text: None,
                ..self
            }.text_started(text.origin, text.row),
        }
    }

    /// A character in place of the cursor, and the cursor one column on. Past
    /// the right edge there is neither cursor nor typing.
    pub open spec fn typed(self, ch: char) -> AppState<L> {
        match self.text {
            Some(text) => if text.cursor < COLS {
                let put = self.grid.with_preview(text.cursor as int, text.row as int, Some(ch));
                AppState {
                    grid: if text.cursor + 1 < COLS {
                        put.with_preview(text.cursor + 1, text.row as int, Some(CURSOR_CHAR))
                    } else {
                        put
                    },
                    text: Some(TextSession { cursor: (text.cursor + 1) as usize, ..text }),
                    ..self
                }
            } else {
                self
            },
            None => self,
        }
    }

    /// The cursor one column back in place of the character there. It does not
    /// go back before the column where the session began.
    pub open spec fn erased(self) -> AppState<L> {
        match self.text {
            Some(text) => if text.cursor > text.origin {
                let rest = if text.cursor < COLS {
                    self.grid.with_preview(text.cursor as int, text.row as int, None)
                } else {
                    self.grid
                };
                AppState {
                    grid: rest.with_preview(text.cursor - 1, text.row as int, Some(CURSOR_CHAR)),
                    text: Some(TextSession { cursor: (text.cursor - 1) as usize, ..text }),
                    ..self
                }
            } else {
                self
            },
            None => self,
        }
    }

    /// The state after several characters are typed.
    pub open spec fn typed_all(self, chars: Seq<char>) -> AppState<L>
        decreases chars.len(),
    {
        if chars.len() == 0 {
            self
        } else {
            self.typed_all(chars.drop_last()).typed(chars.last())
        }
    }
}

impl<L: Copy> App<L> {
    /// Put the cursor at a cell, with a step to undo what is typed.
    fn start_text_session_at(&mut self, col: usize, row: usize)
        requires
            old(self)@.wf(),
            on_canvas(col as int, row as int),
        ensures
            final(self)@.wf(),
            final(self)@ == old(self)@.text_started(col, row),
    {
        self.push_undo_snapshot();
        self.text = Some(TextSession { origin: col, cursor: col, row });
        self.grid.set_preview(col, row, Some(CURSOR_CHAR));
        assert(self@ =~= old(self)@.text_started(col, row));
    }

    /// Begin typing at a cell. Text being typed elsewhere is committed first.
    pub fn start_text_session(&mut self, col: usize, row: usize)
        requires
            old(self)@.wf(),
            on_canvas(col as int, row as int),
        ensures
            final(self)@.wf(),
            final(self)@ == old(self)@.text_committed().text_started(col, row),
    {
        self.commit_text_session();
        self.start_text_session_at(col, row);
    }

    /// Commit the typed characters and end the session, if there is one.
    pub fn commit_text_session(&mut self)
        requires
            old(self)@.wf(),
        ensures
            final(self)@.wf(),
            final(self)@ == old(self)@.text_committed(),
    {
        if let Some(text) = self.text {
            if text.cursor < COLS {
                self.grid.set_preview(text.cursor, text.row, None);
            }
            self.grid.commit_preview();
            self.text = None;
            assert(self@ =~= old(self)@.text_committed());
        }
    }

    /// Discard the typed characters and put the cursor back where the session
    /// began, if there is a session.
    pub fn abort_text_session(&mut self)
        requires
            old(self)@.wf(),
        ensures
            final(self)@.wf(),
            final(self)@ == old(self)@.text_aborted(),
    {
        if let Some(text) = self.text {
            self.grid.abort_preview();
            self.pop_undo();
            self.text = None;
            assert(self@ =~= (AppState {
                grid: old(self)@.grid.aborted_preview(),
                undo: popped(old(self)@.undo),
                text: None,
                ..old(self)@
            }));
            self.start_text_session_at(text.origin, text.row);
        }
    }

    /// Type one character.
    pub fn type_char(&mut self, ch: char)
        requires
            old(self)@.wf(),
        ensures
            final(self)@.wf(),
            final(self)@ == old(self)@.typed(ch),
    {
        if let Some(text) = self.text {
            if text.cursor < COLS {
                let next: usize = text.cursor + 1;
                self.grid.set_preview(text.cursor, text.row, Some(ch));
                if next < COLS {
                    self.grid.set_preview(next, text.row, Some(CURSOR_CHAR));
                }
                self.text = Some(TextSession { origin: text.origin, cursor: next, row: text.row });
                assert(self@ =~= old(self)@.typed(ch));
            }
        }
    }

    /// Erase the character typed last.
    pub fn text_backspace(&mut self)
        requires
            old(self)@.wf(),
        ensures
            final(self)@.wf(),
            final(self)@ == old(self)@.erased(),
    {
        if let Some(text) = self.text {
            if text.cursor > text.origin {
                if text.cursor < COLS {
                    self.grid.set_preview(text.cursor, text.row, None);
                }
                let back: usize = text.cursor - 1;
                self.grid.set_preview(back, text.row, Some(CURSOR_CHAR));
                self.text = Some(TextSession { origin: text.origin, cursor: back, row: text.row });
                assert(self@ =~= old(self)@.erased());
            }
        }
    }

    /// Type every character of a string.
    pub fn type_text(&mut self, value: &str)
        requires
            old(self)@.wf(),
        ensures
            final(self)@.wf(),
            final(self)@ == old(self)@.typed_all(value@),
    {
        for ch in it: value.chars()
            invariant
                it.seq() == value@,
                self@.wf(),
                self@ == old(self)@.typed_all(value@.take(it.index() as int)),
        {
            self.type_char(ch);
            assert(value@.take(it.index() + 1).drop_last() =~= value@.take(it.index() as int));
        }
        assert(value@.take(value@.len() as int) =~= value@);
    }
}

// ---------------------------------------------------------------------------
// Laws
// ---------------------------------------------------------------------------

/// The preview of a session in which `chars` were typed from (col, row) on:
/// the characters, then the cursor if it is on the canvas, and nothing else.
pub open spec fn typed_preview(col: int, row: int, chars: Seq<char>) -> Seq<Option<char>> {
    Seq::new(
        CELLS as nat,
        |i: int|
            {
                let k = i - cell_index(col, row);
                if 0 <= k < chars.len() {
                    Some(chars[k])
                } else if k == chars.len() && col + k < COLS {
                    Some(CURSOR_CHAR)
                } else {
                    None
                }
            },
    )
}

proof fn lemma_typed_all<L>(s: AppState<L>, col: usize, row: usize, chars: Seq<char>)
    requires
        s.wf(),
        s.grid.preview == no_preview(),
        on_canvas(col as int, row as int),
        col + chars.len() <= COLS,
    ensures
        s.text_started(col, row).typed_all(chars) == (AppState {
            text: Some(
                TextSession { origin: col, cursor: (col + chars.len()) as usize, row },
            ),
            grid: GridState { preview: typed_preview(col as int, row as int, chars), ..s.grid },
            ..s.snapshot()
        }),
    decreases chars.len(),
{
    let goal = AppState {
        text: Some(TextSession { origin: col, cursor: (col + chars.len()) as usize, row }),
        grid: GridState { preview: typed_preview(col as int, row as int, chars), ..s.grid },
        ..s.snapshot()
    };
    if chars.len() == 0 {
        assert(s.text_started(col, row).grid.preview =~= goal.grid.preview);
        assert(s.text_started(col, row) =~= goal);
    } else {
        lemma_typed_all(s, col, row, chars.drop_last());
        let before = s.text_started(col, row).typed_all(chars.drop_last());
        assert(before.typed(chars.last()).grid.preview =~= goal.grid.preview);
        assert(before.typed(chars.last()) =~= goal);
    }
}

/// The committed layer with `chars` written from (col, row) on.
pub open spec fn written(committed: Seq<char>, col: int, row: int, chars: Seq<char>) -> Seq<char> {
    Seq::new(
        CELLS as nat,
        |i: int|
            {
                let k = i - cell_index(col, row);
                if 0 <= k < chars.len() {
                    chars[k]
                } else {
                    committed[i]
                }
            },
    )
}

/// Typing and committing writes exactly the typed characters, never the cursor,
/// and leaves one step that undoes it.
pub proof fn law_typed_text_is_written<L>(s: AppState<L>, col: usize, row: usize, chars: Seq<char>)
    requires
        s.wf(),
        s.grid.preview == no_preview(),
        on_canvas(col as int, row as int),
        col + chars.len() <= COLS,
    ensures
        ({
            let end = s.text_started(col, row).typed_all(chars).text_committed();
            &&& end.grid.committed == written(s.grid.committed, col as int, row as int, chars)
            &&& end.grid.preview == no_preview()
            &&& end.text is None
            &&& end.undo == s.undo.push(s.grid.committed)
        }),
{
    lemma_typed_all(s, col, row, chars);
    let end = s.text_started(col, row).typed_all(chars).text_committed();
    assert(end.grid.committed =~= written(s.grid.committed, col as int, row as int, chars));
}

/// Beginning to type puts the cursor, a lower half block, into the cell and
/// remembers the canvas as a step to undo.
pub proof fn law_typing_begins<L>(s: AppState<L>, col: usize, row: usize, i: int)
    requires
        s.wf(),
        on_canvas(col as int, row as int),
        0 <= i < 1920,
    ensures
        ({
            let t = s.text_started(col, row);
            &&& t.text matches Some(text) && text.origin == col && text.cursor == col && text.row == row
            &&& t.grid.preview[i] == if i == 80 * row + col { Some('\u{2584}') } else { s.grid.preview[i] }
            &&& t.grid.committed == s.grid.committed
            &&& t.undo == s.undo.push(s.grid.committed)
            &&& t.redo.len() == 0
        }),
{
}

/// Typing a character puts it where the cursor is and moves the cursor one
/// column on, in the same row. In the last column there is no cell for the
/// cursor. Nothing is committed.
pub proof fn law_typing_moves_on<L>(s: AppState<L>, text: TextSession, ch: char, i: int)
    requires
        s.wf(),
        s.text == Some(text),
        text.cursor < 80,
        0 <= i < 1920,
    ensures
        ({
            let t = s.typed(ch);
            let at = 80 * text.row + text.cursor;
            &&& t.text matches Some(new) && new.origin == text.origin && new.row == text.row && new.cursor
                == text.cursor + 1
            &&& t.grid.preview[i] == if i == at {
                Some(ch)
            } else if i == at + 1 && text.cursor < 79 {
                Some('\u{2584}')
            } else {
                s.grid.preview[i]
            }
            &&& t.grid.committed == s.grid.committed
            &&& t.undo == s.undo && t.redo == s.redo
        }),
{
}

/// Backspace moves the cursor one column back, over the character there, and
/// empties the cell that the cursor was in.
pub proof fn law_backspace_moves_back<L>(s: AppState<L>, text: TextSession, i: int)
    requires
        s.wf(),
        s.text == Some(text),
        text.cursor > text.origin,
        0 <= i < 1920,
    ensures
        ({
            let t = s.erased();
            let at = 80 * text.row + text.cursor;
            &&& t.text matches Some(new) && new.origin == text.origin && new.row == text.row && new.cursor
                == text.cursor - 1
            &&& t.grid.preview[i] == if i == at - 1 {
                Some('\u{2584}')
            } else if i == at && text.cursor < 80 {
                None
            } else {
                s.grid.preview[i]
            }
            &&& t.grid.committed == s.grid.committed
            &&& t.undo == s.undo && t.redo == s.redo
        }),
{
}

/// Ending the typing commits what is in preview but for the cursor.
pub proof fn law_typing_ends<L>(s: AppState<L>, text: TextSession, i: int)
    requires
        s.wf(),
        s.text == Some(text),
        0 <= i < 1920,
    ensures
        ({
            let t = s.text_committed();
            let cursor = text.cursor < 80 && i == 80 * text.row + text.cursor;
            &&& t.text is None
            &&& t.grid.preview[i] is None
            &&& t.grid.committed[i] == if s.grid.preview[i] is Some && !cursor {
                s.grid.preview[i]->0
            } else {
                s.grid.committed[i]
            }
            &&& t.undo == s.undo && t.redo == s.redo
        }),
{
}

/// Escape discards whatever was typed: the state is again that of a session
/// just begun at the same cell.
pub proof fn law_escape_restarts_typing<L>(s: AppState<L>, col: usize, row: usize, chars: Seq<char>)
    requires
        s.wf(),
        s.grid.preview == no_preview(),
        on_canvas(col as int, row as int),
        col + chars.len() <= COLS,
    ensures
        s.text_started(col, row).typed_all(chars).text_aborted() == s.text_started(col, row),
{
    lemma_typed_all(s, col, row, chars);
    let t = s.text_started(col, row).typed_all(chars);
    assert(popped(t.undo) =~= s.undo);
    let u = AppState { grid: t.grid.aborted_preview(), undo: popped(t.undo), text: None, ..t };
    assert(u.grid.preview =~= s.grid.preview);
    assert(t.text_aborted() =~= s.text_started(col, row));
}

/// Backspace takes back the character typed last.
pub proof fn law_backspace_undoes_typing<L>(
    s: AppState<L>,
    col: usize,
    row: usize,
    chars: Seq<char>,
    ch: char,
)
    requires
        s.wf(),
        s.grid.preview == no_preview(),
        on_canvas(col as int, row as int),
        col + chars.len() < COLS,
    ensures
        s.text_started(col, row).typed_all(chars.push(ch)).erased() == s.text_started(col, row).typed_all(
            chars,
        ),
{
    lemma_typed_all(s, col, row, chars);
    lemma_typed_all(s, col, row, chars.push(ch));
    let a = s.text_started(col, row).typed_all(chars.push(ch)).erased();
    let b = s.text_started(col, row).typed_all(chars);
    assert(a.grid.preview =~= b.grid.preview);
    assert(a =~= b);
}

/// At the column where the session began backspace does nothing.
pub proof fn law_backspace_stops_at_origin<L>(s: AppState<L>, col: usize, row: usize)
    requires
        s.wf(),
        on_canvas(col as int, row as int),
    ensures
        s.text_started(col, row).erased() == s.text_started(col, row),
{
}

/// Past the right edge typing does nothing, and the session stays open.
pub proof fn law_typing_stops_at_edge<L>(s: AppState<L>, ch: char)
    requires
        s.wf(),
        s.text is Some,
        s.text->0.cursor == COLS,
    ensures
        s.typed(ch) == s,
{
}

} // verus!
