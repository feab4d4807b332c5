//! What the program shows at first: the palette and the greeting.

use vstd::prelude::*;

use crate::app::{App, AppState};
use crate::clipboard::chars_of;
use crate::grid::{all_blank, cell_at, GridState, CELLS, COLS, ROWS};

verus! {

/// One entry of the character palette.
#[derive(Clone, Copy, PartialEq, Eq, Structural, Debug)]
pub struct PalEntry {
    /// Shown on the button.
    pub label: char,
    /// Painted with.
    pub ch: char,
    /// Whether it is the chosen one at first.
    pub initially_active: bool,
}

/// An entry that shows the character it paints with.
pub open spec fn plain_entry(ch: char) -> Option<PalEntry> {
    Some(PalEntry { label: ch, ch, initially_active: false })
}

/// The palette, group by group; `None` separates groups.
pub open spec fn palette_spec() -> Seq<Option<PalEntry>> {
    seq![
        plain_entry('█'),
        plain_entry('▓'),
        plain_entry('▒'),
        plain_entry('░'),
        None,
        plain_entry('#'),
        Some(PalEntry { label: '*', ch: '*', initially_active: true }),
        plain_entry('+'),
        plain_entry('.'),
        None,
        plain_entry('─'),
        plain_entry('│'),
        plain_entry('┼'),
        None,
        Some(PalEntry { label: '⣠', ch: ' ', initially_active: false }),
    ]
}

fn entry(ch: char) -> (e: Option<PalEntry>)
    ensures
        e == plain_entry(ch),
{
    Some(PalEntry { label: ch, ch, initially_active: false })
}

/// The character palette, group by group; `None` separates groups.
pub fn palette() -> (entries: Vec<Option<PalEntry>>)
    ensures
        entries@ == palette_spec(),
{
    let entries: Vec<Option<PalEntry>> = vec![
        entry('█'),
        entry('▓'),
        entry('▒'),
        entry('░'),
        None,
        entry('#'),
        Some(PalEntry { label: '*', ch: '*', initially_active: true }),
        entry('+'),
        entry('.'),
        None,
        entry('─'),
        entry('│'),
        entry('┼'),
        None,
        Some(PalEntry { label: '⣠', ch: ' ', initially_active: false }),
    ];
    assert(entries@ =~= palette_spec());
    entries
}

/// The greeting.
pub open spec fn greeting() -> Seq<char> {
    "✦  charpaint  ✦"@
}

/// What the greeting screen has in a cell, if anything: a frame, and the
/// greeting in the middle.
pub open spec fn demo_char(col: int, row: int) -> Option<char> {
    if row == 0 && col == 0 {
        Some('┌')
    } else if row == 0 && col == COLS - 1 {
        Some('┐')
    } else if row == ROWS - 1 && col == 0 {
        Some('└')
    } else if row == ROWS - 1 && col == COLS - 1 {
        Some('┘')
    } else if col == 0 || col == COLS - 1 {
        Some('│')
    } else if row == 0 || row == ROWS - 1 {
        Some('─')
    } else if row == 12 && 32 <= col < 47 {
        Some(greeting()[col - 32])
    } else {
        None
    }
}

/// The committed layer with the greeting screen drawn over it.
pub open spec fn greeted(committed: Seq<char>) -> Seq<char> {
    Seq::new(
        CELLS as nat,
        |i: int|
            match demo_char(cell_at(i).0 as int, cell_at(i).1 as int) {
                Some(ch) => ch,
                None => committed[i],
            },
    )
}

impl<L> AppState<L> {
    /// The greeting wiped off and the work begun, if it was still there.
    pub open spec fn demo_cleared(self) -> AppState<L> {
        if self.demo_active {
            AppState {
                grid: GridState { committed: all_blank(), ..self.grid },
                demo_active: false,
                is_new_project: false,
                ..self
            }
        } else {
            self
        }
    }
}

impl<L: Copy> App<L> {
    /// Draw the greeting screen: a frame, and a greeting in the middle.
    pub fn draw_demo(&mut self)
        requires
            old(self)@.wf(),
        ensures
            final(self)@.wf(),
            final(self)@ == (AppState {
                grid: GridState {
                    committed: greeted(old(self)@.grid.committed),
                    ..old(self)@.grid
                },
                ..old(self)@
            }),
    {
        let message: Vec<char> = chars_of("✦  charpaint  ✦");
        proof {
            reveal_strlit("✦  charpaint  ✦");
        }
        let ghost before = self@.grid.committed;
        let mut i: usize = 0;
        while i < CELLS
            invariant
                0 <= i <= CELLS,
                message@ == greeting(),
                message@.len() == 15,
                self@.wf(),
                before == old(self)@.grid.committed,
                before.len() == CELLS,
                self@ == (AppState {
                    grid: GridState { committed: self@.grid.committed, ..old(self)@.grid },
                    ..old(self)@
                }),
                forall|k: int| 0 <= k < i ==> self@.grid.committed[k] == greeted(before)[k],
                forall|k: int| i <= k < CELLS ==> self@.grid.committed[k] == before[k],
            decreases CELLS - i,
        {
            let col: usize = i % COLS;
            let row: usize = i / COLS;
            let drawn: Option<char> = if row == 0 && col == 0 {
                Some('┌')
            } else if row == 0 && col == COLS - 1 {
                Some('┐')
            } else if row == ROWS - 1 && col == 0 {
                Some('└')
            } else if row == ROWS - 1 && col == COLS - 1 {
                Some('┘')
            } else if col == 0 || col == COLS - 1 {
                Some('│')
            } else if row == 0 || row == ROWS - 1 {
                Some('─')
            } else if row == 12 && 32 <= col && col < 47 {
                Some(message[col - 32])
            } else {
                None
            };
            if let Some(ch) = drawn {
                self.grid.set_committed(col, row, ch);
            }
            i = i + 1;
        }
        assert(self@.grid.committed =~= greeted(before));
    }

    /// Wipe off the greeting, if it is still there.
    pub fn clear_demo_if_active(&mut self)
        requires
            old(self)@.wf(),
        ensures
            final(self)@.wf(),
            final(self)@ == old(self)@.demo_cleared(),
    {
        if self.demo_active {
            self.blank_all();
            self.demo_active = false;
            self.is_new_project = false;
            assert(self@ =~= old(self)@.demo_cleared());
        }
    }
}

// ---------------------------------------------------------------------------
// Laws
// ---------------------------------------------------------------------------

/// Wiping off the greeting a second time does nothing.
pub proof fn law_demo_cleared_once<L>(s: AppState<L>)
    ensures
        s.demo_cleared().demo_cleared() == s.demo_cleared(),
        !s.demo_cleared().demo_active,
{
}

/// The greeting screen has a frame along the border of the canvas, the greeting
/// in the middle, and leaves all other cells.
pub proof fn law_greeting_screen(committed: Seq<char>, col: int, row: int)
    requires
        0 <= col < 80,
        0 <= row < 24,
    ensures
        ({
            let ch = greeted(committed)[80 * row + col];
            &&& row == 0 && col == 0 ==> ch == '┌'
            &&& row == 0 && col == 79 ==> ch == '┐'
            &&& row == 23 && col == 0 ==> ch == '└'
            &&& row == 23 && col == 79 ==> ch == '┘'
            &&& (row == 0 || row == 23) && 0 < col < 79 ==> ch == '─'
            &&& (col == 0 || col == 79) && 0 < row < 23 ==> ch == '│'
            &&& row == 12 && 32 <= col < 47 ==> ch == "✦  charpaint  ✦"@[col - 32]
            &&& 0 < row < 23 && 0 < col < 79 && !(row == 12 && 32 <= col < 47) ==> ch == committed[80 * row + col]
        }),
{
    assert(cell_at(80 * row + col) == (col as usize, row as usize));
}

/// The first touch leaves a blank canvas and ends a new project; later ones leave
/// the canvas alone.
pub proof fn law_first_touch_wipes<L>(s: AppState<L>, i: int)
    requires
        s.wf(),
        0 <= i < 1920,
    ensures
        s.demo_active ==> s.demo_cleared().grid.committed[i] == ' ' && !s.demo_cleared().is_new_project,
        !s.demo_active ==> s.demo_cleared() == s,
        s.demo_cleared().undo == s.undo,
{
}

/// In the palette exactly one entry is chosen at first: the asterisk, which is
/// the brush that the program starts with.
pub proof fn law_palette_starts_with_asterisk<L>(layout: L, i: int)
    requires
        0 <= i < palette_spec().len(),
        palette_spec()[i] is Some,
    ensures
        (palette_spec()[i]->0).initially_active <==> (palette_spec()[i]->0).ch == '*',
        crate::app::initial(layout).settings.brush_char == '*',
{
}

/// The greeting is in the middle of its row.
pub proof fn law_greeting_is_centred()
    ensures
        greeting().len() == 15,
        32 == (COLS - greeting().len()) / 2,
        12 == ROWS / 2,
{
    reveal_strlit("✦  charpaint  ✦");
}

} // verus!
