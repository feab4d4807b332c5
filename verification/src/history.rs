//! Undo and redo, and the end of a stroke.

use vstd::prelude::*;

use crate::app::{idle, layers, App, AppState, Stroke};
use crate::grid::{no_preview, GridState, CELLS};
use crate::modes::Tool;

verus! {

/// A history without its latest entry.
pub open spec fn popped(history: Seq<Seq<char>>) -> Seq<Seq<char>> {
    if history.len() == 0 {
        history
    } else {
        history.drop_last()
    }
}

impl<L> AppState<L> {
    /// The committed layer remembered as a step to undo. What could be redone
    /// no longer can.
    pub open spec fn snapshot(self) -> AppState<L> {
        AppState { undo: self.undo.push(self.grid.committed), redo: Seq::empty(), ..self }
    }

    /// The state with another committed layer, nothing in preview and no stroke
    /// going on.
    pub open spec fn restored(self, committed: Seq<char>) -> AppState<L> {
        AppState {
            grid: GridState { committed, preview: no_preview() },
            stroke: Stroke { is_drawing: false, last_painted_cell: None, ..self.stroke },
            ..self
        }
    }

    /// One step back. Text being typed is committed first.
    pub open spec fn undone(self) -> AppState<L> {
        let s = self.text_committed();
        if s.undo.len() == 0 {
            s
        } else {
            AppState {
                undo: s.undo.drop_last(),
                redo: s.redo.push(s.grid.committed),
                ..s.restored(s.undo.last())
            }
        }
    }

    /// One step forward again. Text being typed is committed first.
    pub open spec fn redone(self) -> AppState<L> {
        let s = self.text_committed();
        if s.redo.len() == 0 {
            s
        } else {
            AppState {
                undo: s.undo.push(s.grid.committed),
                redo: s.redo.drop_last(),
                ..s.restored(s.redo.last())
            }
        }
    }

    /// The stroke finished and its preview committed.
    pub open spec fn stroke_committed(self) -> AppState<L> {
        AppState { grid: self.grid.committed_preview(), stroke: idle(), ..self }
    }

    /// The stroke cancelled: its preview discarded, and with it the step that
    /// would have undone it, or for the selection tool the selection.
    pub open spec fn stroke_aborted(self) -> AppState<L> {
        let s = AppState { grid: self.grid.aborted_preview(), stroke: idle(), ..self };
        if self.settings.tool == Tool::Select {
            AppState { selection: None, ..s }
        } else {
            AppState { undo: popped(self.undo), ..s }
        }
    }
}

impl<L: Copy> App<L> {
    /// Remember the committed layer as a step to undo.
    pub fn push_undo_snapshot(&mut self)
        requires
            old(self)@.wf(),
        ensures
            final(self)@.wf(),
            final(self)@ == old(self)@.snapshot(),
    {
        let layer: Vec<char> = self.grid.committed.clone();
        assert(layer@ =~= self.grid.committed@);
        self.undo_stack.push(layer);
        self.redo_stack.clear();
        assert(self@.undo =~= old(self)@.undo.push(old(self)@.grid.committed));
        assert(self@.redo =~= Seq::empty());
    }

    /// Forget the latest step to undo.
    pub(crate) fn pop_undo(&mut self)
        requires
            old(self)@.wf(),
        ensures
            final(self)@.wf(),
            final(self)@ == (AppState { undo: popped(old(self)@.undo), ..old(self)@ }),
    {
        self.undo_stack.pop();
        assert(self@.undo =~= popped(old(self)@.undo));
    }

    /// Show another committed layer, with nothing in preview. Returns the layer
    /// that it replaces.
    fn restore(&mut self, layer: Vec<char>) -> (replaced: Vec<char>)
        requires
            old(self)@.wf(),
            layer@.len() == CELLS,
        ensures
            final(self)@.wf(),
            final(self)@ == old(self)@.restored(layer@),
            replaced@ == old(self)@.grid.committed,
    {
        let mut replaced: Vec<char> = layer;
        std::mem::swap(&mut replaced, &mut self.grid.committed);
        self.grid.preview = vec![None; CELLS];
        assert(self.grid.preview@ =~= no_preview());
        self.stroke.is_drawing = false;
        self.stroke.last_painted_cell = None;
        assert(self@ =~= old(self)@.restored(layer@));
        replaced
    }

    /// Take one step back.
    pub fn undo(&mut self)
        requires
            old(self)@.wf(),
        ensures
            final(self)@.wf(),
            final(self)@ == old(self)@.undone(),
    {
        self.commit_text_session();
        let ghost s = self@;
        match self.undo_stack.pop() {
            Some(layer) => {
                assert(layer@ == s.undo.last());
                assert(layers(self.undo_stack@) =~= s.undo.drop_last());
                let replaced: Vec<char> = self.restore(layer);
                self.redo_stack.push(replaced);
                assert(self@.redo =~= s.redo.push(s.grid.committed));
                assert(self@ =~= old(self)@.undone());
            },
            None => {
                assert(self@ =~= s);
            },
        }
    }

    /// Take an undone step again.
    pub fn redo(&mut self)
        requires
            old(self)@.wf(),
        ensures
            final(self)@.wf(),
            final(self)@ == old(self)@.redone(),
    {
        self.commit_text_session();
        let ghost s = self@;
        match self.redo_stack.pop() {
            Some(layer) => {
                assert(layer@ == s.redo.last());
                assert(layers(self.redo_stack@) =~= s.redo.drop_last());
                let replaced: Vec<char> = self.restore(layer);
                self.undo_stack.push(replaced);
                assert(self@.undo =~= s.undo.push(s.grid.committed));
                assert(self@ =~= old(self)@.redone());
            },
            None => {
                assert(self@ =~= s);
            },
        }
    }

    /// Finish the stroke: what it shows in preview is committed.
    pub fn commit_stroke(&mut self)
        requires
            old(self)@.wf(),
        ensures
            final(self)@.wf(),
            final(self)@ == old(self)@.stroke_committed(),
    {
        self.grid.commit_preview();
        self.end_stroke();
        assert(self@ =~= old(self)@.stroke_committed());
    }

    /// Cancel the stroke: nothing of it stays, not even a step to undo.
    pub fn abort_stroke(&mut self)
        requires
            old(self)@.wf(),
        ensures
            final(self)@.wf(),
            final(self)@ == old(self)@.stroke_aborted(),
    {
        self.grid.abort_preview();
        if self.settings.tool == Tool::Select {
            self.selection = None;
        } else {
            self.pop_undo();
        }
        self.end_stroke();
        assert(self@ =~= old(self)@.stroke_aborted());
    }

    /// Forget the stroke in progress.
    fn end_stroke(&mut self)
        ensures
            final(self)@ == (AppState { stroke: idle(), ..old(self)@ }),
    {
        self.stroke = Stroke {
            is_drawing: false,
            draw_start: None,
            locked_axis: None,
            last_painted_cell: None,
        };
    }
}

// ---------------------------------------------------------------------------
// Laws
// ---------------------------------------------------------------------------

/// Redo takes back an undo: canvas and history are as before it.
pub proof fn law_redo_reverts_undo<L>(s: AppState<L>)
    requires
        s.wf(),
        s.text is None,
        s.undo.len() > 0,
    ensures
        s.undone().redone().grid.committed == s.grid.committed,
        s.undone().redone().grid.preview == no_preview(),
        s.undone().redone().undo == s.undo,
        s.undone().redone().redo == s.redo,
{
    assert(s.undone().redone().undo =~= s.undo);
    assert(s.undone().redone().redo =~= s.redo);
}

/// Undo takes back a redo: canvas and history are as before it.
pub proof fn law_undo_reverts_redo<L>(s: AppState<L>)
    requires
        s.wf(),
        s.text is None,
        s.redo.len() > 0,
    ensures
        s.redone().undone().grid.committed == s.grid.committed,
        s.redone().undone().grid.preview == no_preview(),
        s.redone().undone().undo == s.undo,
        s.redone().undone().redo == s.redo,
{
    assert(s.redone().undone().undo =~= s.undo);
    assert(s.redone().undone().redo =~= s.redo);
}

/// A new step cannot be followed by a redo of an older one.
pub proof fn law_new_step_ends_redo<L>(s: AppState<L>)
    requires
        s.wf(),
        s.text is None,
    ensures
        s.snapshot().redone() == s.snapshot(),
{
}

/// Whatever is committed after a snapshot, undo brings back the layer that the
/// snapshot was taken of.
pub proof fn law_undo_brings_back_snapshot<L>(s: AppState<L>, later: AppState<L>)
    requires
        s.wf(),
        later.wf(),
        later.text is None,
        later.undo == s.snapshot().undo,
    ensures
        later.undone().grid.committed == s.grid.committed,
        later.undone().undo == s.undo,
{
    assert(later.undone().undo =~= s.undo);
}

/// Undo shows the layer remembered last and takes it off what can be undone; the
/// layer that was shown can be redone. Settings, selection and background stay.
pub proof fn law_undo_shows_latest_layer<L>(s: AppState<L>, older: Seq<Seq<char>>, latest: Seq<char>)
    requires
        s.wf(),
        s.text is None,
        s.undo == older.push(latest),
    ensures
        ({
            let t = s.undone();
            &&& t.grid.committed == latest
            &&& t.undo == older
            &&& t.redo == s.redo.push(s.grid.committed)
            &&& forall|i: int| 0 <= i < 1920 ==> #[trigger] t.grid.preview[i] is None
            &&& !t.stroke.is_drawing
            &&& t.settings == s.settings && t.selection == s.selection && t.bg == s.bg
        }),
{
    assert(s.undone().undo =~= older);
}

/// Redo shows the layer undone last and takes it off what can be redone; the
/// layer that was shown can be undone. Settings, selection and background stay.
pub proof fn law_redo_shows_latest_layer<L>(s: AppState<L>, older: Seq<Seq<char>>, latest: Seq<char>)
    requires
        s.wf(),
        s.text is None,
        s.redo == older.push(latest),
    ensures
        ({
            let t = s.redone();
            &&& t.grid.committed == latest
            &&& t.redo == older
            &&& t.undo == s.undo.push(s.grid.committed)
            &&& forall|i: int| 0 <= i < 1920 ==> #[trigger] t.grid.preview[i] is None
            &&& !t.stroke.is_drawing
            &&& t.settings == s.settings && t.selection == s.selection && t.bg == s.bg
        }),
{
    assert(s.redone().redo =~= older);
}

/// Finishing a stroke commits what is in preview, cell by cell, and leaves all
/// other cells; cancelling it commits nothing. Either way the preview is empty
/// and no stroke is going on.
pub proof fn law_end_of_stroke_cells<L>(s: AppState<L>, i: int)
    requires
        s.wf(),
        0 <= i < 1920,
    ensures
        ({
            let (t, u) = (s.stroke_committed(), s.stroke_aborted());
            &&& t.grid.committed[i] == match s.grid.preview[i] {
                Some(ch) => ch,
                None => s.grid.committed[i],
            }
            &&& u.grid.committed[i] == s.grid.committed[i]
            &&& t.grid.preview[i] is None && u.grid.preview[i] is None
            &&& t.undo == s.undo && t.redo == s.redo
            &&& !t.stroke.is_drawing && t.stroke.draw_start is None && t.stroke.locked_axis is None
                && t.stroke.last_painted_cell is None
            &&& u.stroke == t.stroke
            &&& t.settings == s.settings && u.settings == s.settings && t.bg == s.bg && u.bg == s.bg
        }),
{
}

/// Cancelling a stroke takes its step off the history; with the selection tool,
/// which takes none, it drops the selection.
pub proof fn law_cancelling_takes_step_back<L>(s: AppState<L>, older: Seq<Seq<char>>, latest: Seq<char>)
    requires
        s.wf(),
        s.undo == older.push(latest),
    ensures
        s.settings.tool != Tool::Select ==> s.stroke_aborted().undo == older && s.stroke_aborted().selection
            == s.selection,
        s.settings.tool == Tool::Select ==> s.stroke_aborted().undo == s.undo
            && s.stroke_aborted().selection is None,
{
    if s.settings.tool != Tool::Select {
        assert(s.stroke_aborted().undo =~= older);
    }
}

/// Text being typed is committed before undo, redo and clearing do their work.
pub proof fn law_text_is_committed_first<L>(s: AppState<L>)
    requires
        s.wf(),
    ensures
        s.undone() == s.text_committed().undone(),
        s.redone() == s.text_committed().redone(),
        s.cleared() == s.text_committed().cleared(),
        s.text_committed().text is None,
{
}

/// Without anything to undo or redo, and without text being typed, both do
/// nothing.
pub proof fn law_empty_history<L>(s: AppState<L>)
    requires
        s.wf(),
        s.text is None,
    ensures
        s.undo.len() == 0 ==> s.undone() == s,
        s.redo.len() == 0 ==> s.redone() == s,
{
}

/// Committing a stroke changes nothing that is shown, but for the tint of the
/// preview; cancelling it shows the committed characters.
pub proof fn law_end_of_stroke_display<L>(s: AppState<L>, col: int, row: int)
    requires
        s.wf(),
        0 <= col < crate::grid::COLS,
        0 <= row < crate::grid::ROWS,
    ensures
        s.stroke_committed().grid.display(col, row) == s.grid.display(col, row),
        s.stroke_aborted().grid.display(col, row) == s.grid.committed_at(col, row),
        s.stroke_aborted().grid.committed == s.grid.committed,
{
}

} // verus!
