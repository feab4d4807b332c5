//! Strokes with every tool.

use charpaint::app::App;
use charpaint::grid::{BLANK, COLS, ROWS};
use charpaint::modes::{Axis, BlendMode, LineMode, PencilMode, Tool};

fn app_with(tool: Tool) -> App<i32> {
    let mut app = App::new(0);
    app.clear_demo_if_active();
    app.choose_tool(tool);
    app
}

fn painted(app: &App<i32>) -> Vec<(usize, usize, char)> {
    let mut out = Vec::new();
    for r in 0..ROWS {
        for c in 0..COLS {
            let look = app.cell_look(c, r);
            if look.preview {
                out.push((c, r, look.ch));
            }
        }
    }
    out
}

fn stamp_mode(app: &mut App<i32>) {
    assert_eq!(app.cycle_blend_mode(), BlendMode::Stamp);
}

fn write(app: &mut App<i32>, col: usize, row: usize, text: &str) {
    app.start_text_session(col, row);
    app.type_text(text);
    app.commit_text_session();
}

#[test]
fn pencil_fills_the_gaps_between_moves() {
    let mut app = app_with(Tool::Pencil);
    app.choose_brush('#');
    app.mouse_down(Some((0, 0)), false);
    app.mouse_move(Some((3, 1)), false);
    assert_eq!(painted(&app), vec![(0, 0, '#'), (1, 0, '#'), (2, 1, '#'), (3, 1, '#')]);
    app.mouse_up();
    assert_eq!(painted(&app), vec![]);
    assert_eq!(app.cell_look(2, 1).ch, '#');
    assert_eq!(app.undo_depth(), 1);
}

#[test]
fn eraser_leaves_blanks() {
    let mut app = app_with(Tool::Eraser);
    write(&mut app, 5, 5, "abc");
    app.mouse_down(Some((5, 5)), false);
    app.mouse_move(Some((6, 5)), false);
    assert_eq!(painted(&app), vec![(5, 5, BLANK), (6, 5, BLANK)]);
    app.mouse_up();
    assert_eq!(app.cell_look(7, 5).ch, 'c');
    assert_eq!(app.cell_look(6, 5).ch, BLANK);
}

#[test]
fn stamp_mode_spares_occupied_cells() {
    let mut app = app_with(Tool::Pencil);
    write(&mut app, 1, 0, "x");
    stamp_mode(&mut app);
    app.mouse_down(Some((0, 0)), false);
    app.mouse_move(Some((2, 0)), false);
    assert_eq!(painted(&app), vec![(0, 0, '*'), (2, 0, '*')]);
    app.mouse_up();
    assert_eq!(app.cell_look(1, 0).ch, 'x');
    for tool in [Tool::Line, Tool::Rect, Tool::RectFill, Tool::Oval, Tool::OvalFill, Tool::Eraser] {
        app.choose_tool(tool);
        app.mouse_down(Some((0, 0)), false);
        app.mouse_move(Some((4, 3)), false);
        app.mouse_up();
        assert_eq!(app.cell_look(1, 0).ch, 'x');
    }
}

#[test]
fn stamp_mode_spares_occupied_cells_in_art_lines() {
    let mut app = app_with(Tool::Line);
    write(&mut app, 1, 0, "x");
    stamp_mode(&mut app);
    assert_eq!(app.line_tool_tap(), LineMode::Art);
    app.mouse_down(Some((0, 0)), false);
    app.mouse_move(Some((2, 0)), false);
    assert_eq!(painted(&app), vec![(0, 0, '-'), (2, 0, '-')]);
}

#[test]
fn art_pencil_follows_the_direction() {
    let mut app = app_with(Tool::Pencil);
    assert_eq!(app.pencil_tool_tap(), PencilMode::Art);
    app.mouse_down(Some((5, 5)), false);
    assert_eq!(painted(&app), vec![(5, 5, '-')]);
    app.mouse_move(Some((5, 5)), false);
    assert_eq!(painted(&app), vec![(5, 5, '-')]);
    // Moving down corrects the first cell.
    app.mouse_move(Some((5, 6)), false);
    assert_eq!(painted(&app), vec![(5, 5, '|'), (5, 6, '|')]);
    app.mouse_move(Some((6, 7)), false);
    assert_eq!(painted(&app), vec![(5, 5, '|'), (5, 6, '\\'), (6, 7, '\\')]);
    app.mouse_move(Some((7, 6)), false);
    assert_eq!(painted(&app), vec![(5, 5, '|'), (5, 6, '\\'), (7, 6, '/'), (6, 7, '/')]);
}

#[test]
fn art_pencil_spares_an_occupied_cell_in_stamp_mode() {
    let mut app = app_with(Tool::Pencil);
    write(&mut app, 5, 5, "x");
    stamp_mode(&mut app);
    app.pencil_tool_tap();
    app.mouse_down(Some((5, 5)), false);
    assert_eq!(painted(&app), vec![]);
    app.mouse_move(Some((6, 5)), false);
    assert_eq!(painted(&app), vec![(6, 5, '-')]);
    // What was painted is still corrected.
    app.mouse_move(Some((6, 6)), false);
    assert_eq!(painted(&app), vec![(6, 5, '|'), (6, 6, '|')]);
    app.mouse_up();
    assert_eq!(app.cell_look(5, 5).ch, 'x');
}

#[test]
fn shift_fixes_the_axis() {
    let mut app = app_with(Tool::Pencil);
    app.mouse_down(Some((10, 10)), true);
    // A tie fixes nothing.
    app.mouse_move(Some((11, 11)), true);
    assert_eq!(app.stroke().locked_axis, None);
    assert_eq!(painted(&app), vec![(10, 10, '*'), (11, 11, '*')]);
    // The freehand part is replaced by a straight line.
    app.mouse_move(Some((13, 11)), true);
    assert_eq!(app.stroke().locked_axis, Some(Axis::Horizontal));
    assert_eq!(painted(&app), vec![(10, 10, '*'), (11, 10, '*'), (12, 10, '*'), (13, 10, '*')]);
    // Releasing Shift does not free the stroke.
    app.mouse_move(Some((14, 20)), false);
    assert_eq!(app.stroke().last_painted_cell, Some((14, 10)));
    app.mouse_up();
    assert_eq!(app.stroke().locked_axis, None);
}

#[test]
fn shift_lock_counts_as_shift() {
    let mut app = app_with(Tool::Eraser);
    assert!(app.toggle_shift_lock());
    app.mouse_down(Some((10, 10)), false);
    app.mouse_move(Some((11, 14)), false);
    assert_eq!(app.stroke().locked_axis, Some(Axis::Vertical));
    assert_eq!(app.stroke().last_painted_cell, Some((10, 14)));
    assert!(!app.toggle_shift_lock());
}

#[test]
fn line_is_drawn_anew_on_every_move() {
    let mut app = app_with(Tool::Line);
    app.mouse_down(Some((0, 0)), false);
    app.mouse_move(Some((3, 3)), false);
    app.mouse_move(Some((2, 0)), false);
    assert_eq!(painted(&app), vec![(0, 0, '*'), (1, 0, '*'), (2, 0, '*')]);
}

#[test]
fn art_line_has_the_strokes_of_its_steps() {
    let mut app = app_with(Tool::Line);
    app.line_tool_tap();
    app.mouse_down(Some((0, 0)), false);
    assert_eq!(painted(&app), vec![(0, 0, '/')]);
    app.mouse_move(Some((3, 1)), false);
    assert_eq!(painted(&app), vec![(0, 0, '-'), (1, 0, '-'), (2, 1, '\\'), (3, 1, '-')]);
}

#[test]
fn rectangle_outline() {
    let mut app = app_with(Tool::Rect);
    app.mouse_down(Some((4, 3)), false);
    app.mouse_move(Some((2, 1)), false);
    let cells: Vec<(usize, usize)> = painted(&app).iter().map(|p| (p.0, p.1)).collect();
    assert_eq!(
        cells,
        vec![(2, 1), (3, 1), (4, 1), (2, 2), (4, 2), (2, 3), (3, 3), (4, 3)]
    );
}

#[test]
fn filled_rectangle_covers_its_outline() {
    let mut outline = app_with(Tool::Rect);
    outline.mouse_down(Some((9, 9)), true);
    outline.mouse_move(Some((15, 12)), true);
    let mut filled = app_with(Tool::RectFill);
    filled.mouse_down(Some((9, 9)), true);
    filled.mouse_move(Some((15, 12)), true);
    let all = painted(&filled);
    assert_eq!(all.len(), 13 * 7);
    for cell in painted(&outline) {
        assert!(all.contains(&cell));
    }
}

#[test]
fn rectangle_filled() {
    let mut app = app_with(Tool::RectFill);
    app.mouse_down(Some((2, 1)), false);
    app.mouse_move(Some((4, 2)), false);
    let cells: Vec<(usize, usize)> = painted(&app).iter().map(|p| (p.0, p.1)).collect();
    assert_eq!(cells, vec![(2, 1), (3, 1), (4, 1), (2, 2), (3, 2), (4, 2)]);
}

#[test]
fn shift_draws_around_the_start_and_clips() {
    let mut app = app_with(Tool::Rect);
    app.mouse_down(Some((1, 1)), true);
    app.mouse_move(Some((3, 2)), true);
    // The box reaches from (-1, 0) to (3, 2); its left side is off the canvas.
    let cells: Vec<(usize, usize)> = painted(&app).iter().map(|p| (p.0, p.1)).collect();
    assert_eq!(
        cells,
        vec![(0, 0), (1, 0), (2, 0), (3, 0), (3, 1), (0, 2), (1, 2), (2, 2), (3, 2)]
    );
    app.choose_tool(Tool::RectFill);
    app.mouse_move(Some((3, 2)), true);
    assert_eq!(painted(&app).len(), 12);
}

#[test]
fn ovals() {
    let mut app = app_with(Tool::Oval);
    app.mouse_down(Some((0, 0)), false);
    app.mouse_move(Some((9, 9)), false);
    app.mouse_move(Some((4, 4)), false);
    assert_eq!(painted(&app).len(), 12);
    assert!(!app.cell_look(2, 2).preview);
    app.choose_tool(Tool::OvalFill);
    app.mouse_move(Some((4, 4)), false);
    assert_eq!(painted(&app).len(), 21);
    assert!(app.cell_look(2, 2).preview);
}

#[test]
fn shapes_do_not_depend_on_the_way() {
    for tool in [Tool::Line, Tool::Rect, Tool::RectFill, Tool::Oval, Tool::OvalFill] {
        let mut direct = app_with(tool);
        direct.mouse_down(Some((10, 10)), false);
        direct.mouse_move(Some((20, 14)), false);
        let mut astray = app_with(tool);
        astray.mouse_down(Some((10, 10)), false);
        astray.mouse_move(Some((70, 23)), true);
        astray.mouse_move(Some((0, 0)), false);
        astray.mouse_move(Some((20, 14)), false);
        assert_eq!(painted(&direct), painted(&astray));
    }
}

#[test]
fn fill_covers_its_region() {
    let mut app = app_with(Tool::Rect);
    app.choose_brush('#');
    app.mouse_down(Some((10, 5)), false);
    app.mouse_move(Some((14, 8)), false);
    app.mouse_up();
    app.choose_tool(Tool::Fill);
    app.choose_brush('.');
    app.mouse_down(Some((12, 6)), false);
    let cells: Vec<(usize, usize)> = painted(&app).iter().map(|p| (p.0, p.1)).collect();
    assert_eq!(cells, vec![(11, 6), (12, 6), (13, 6), (11, 7), (12, 7), (13, 7)]);
    // Moving on with the button held fills nothing more.
    app.mouse_move(Some((0, 0)), false);
    assert_eq!(painted(&app).len(), 6);
    app.mouse_up();
    assert_eq!(app.cell_look(12, 7).ch, '.');
}

#[test]
fn fill_with_the_same_character_does_nothing() {
    let mut app = app_with(Tool::Fill);
    app.choose_brush(BLANK);
    app.mouse_down(Some((0, 0)), false);
    assert_eq!(painted(&app), vec![]);
    assert_eq!(app.stroke().last_painted_cell, Some((0, 0)));
}

#[test]
fn fill_in_stamp_mode_spares_occupied_regions() {
    let mut app = app_with(Tool::Fill);
    write(&mut app, 0, 0, "xx");
    stamp_mode(&mut app);
    app.mouse_down(Some((0, 0)), false);
    assert_eq!(painted(&app), vec![]);
}

#[test]
fn selecting_follows_the_drag() {
    let mut app = app_with(Tool::Select);
    app.mouse_down(Some((5, 5)), false);
    assert_eq!(app.undo_depth(), 0);
    app.mouse_move(Some((2, 7)), false);
    let sel = app.selection().unwrap();
    assert_eq!((sel.left, sel.top, sel.right, sel.bottom), (2, 5, 5, 7));
    app.mouse_up();
    assert_eq!(app.selection(), Some(sel));
    assert_eq!(painted(&app), vec![]);
}

#[test]
fn text_and_move_tools_do_not_paint() {
    for tool in [Tool::Text, Tool::BgMove] {
        let mut app = app_with(tool);
        app.paint_stroke_to(3, 3, false);
        assert_eq!(painted(&app), vec![]);
        assert_eq!(app.stroke().last_painted_cell, None);
    }
}

#[test]
fn painting_is_preview_until_the_release() {
    let mut app = app_with(Tool::Pencil);
    let before = app.canvas_text();
    app.mouse_down(Some((5, 5)), false);
    app.mouse_move(Some((9, 9)), false);
    assert_eq!(app.canvas_text(), before);
    app.mouse_up();
    assert_ne!(app.canvas_text(), before);
    app.undo();
    assert_eq!(app.canvas_text(), before);
}
