//! Mouse, fingers and keys.

use charpaint::app::App;
use charpaint::events::{KeyAction, Move, Pinch, Press, Release};
use charpaint::grid::BLANK;
use charpaint::modes::Tool;

fn app_with(tool: Tool) -> App<i32> {
    let mut app = App::new(0);
    app.clear_demo_if_active();
    app.choose_tool(tool);
    app
}

#[test]
fn press_beside_the_canvas_is_ignored() {
    let mut app: App<i32> = App::new(0);
    assert_eq!(app.mouse_down(None, false), Press::Ignored);
    assert!(app.demo_active());
    assert_eq!(app.touch_start_one(None), Press::Ignored);
    assert!(app.demo_active());
}

#[test]
fn mouse_stroke() {
    let mut app = app_with(Tool::Pencil);
    assert_eq!(app.mouse_move(Some((1, 1)), false), Move::Ignored);
    assert_eq!(app.mouse_up(), Release::Ignored);
    assert_eq!(app.mouse_down(Some((1, 1)), false), Press::Paint);
    assert_eq!(app.mouse_move(None, false), Move::Ignored);
    assert_eq!(app.mouse_move(Some((2, 1)), false), Move::Paint);
    assert_eq!(app.mouse_up(), Release::Paint);
    assert_eq!(app.cell_look(2, 1).ch, '*');
    assert!(!app.stroke().is_drawing);
}

#[test]
fn text_tool_types_where_pressed() {
    let mut app = app_with(Tool::Text);
    assert_eq!(app.mouse_down(Some((4, 4)), false), Press::Type);
    assert!(app.text_session().is_some());
    assert!(!app.stroke().is_drawing);
    assert_eq!(app.touch_start_one(Some((6, 6))), Press::Type);
    assert_eq!(app.text_session().unwrap().row, 6);
}

#[test]
fn moving_the_background_with_the_mouse() {
    let mut app: App<i32> = App::new(0);
    app.enter_bg_move();
    assert!(!app.wheel_zooms());
    // Without a picture there is nothing to drag, but the greeting goes.
    assert_eq!(app.mouse_down(Some((4, 4)), false), Press::Ignored);
    assert!(!app.demo_active());
    assert_eq!(app.apply_bg_image("data:1".to_string()), None);
    assert!(app.wheel_zooms());
    assert_eq!(app.mouse_down(Some((4, 4)), false), Press::Drag);
    assert_eq!(app.mouse_move(None, false), Move::Drag);
    assert_eq!(app.mouse_up(), Release::Drop);
    assert_eq!(app.undo_depth(), 0);
}

#[test]
fn moving_the_background_with_a_finger() {
    let mut app: App<i32> = App::new(0);
    app.enter_bg_move();
    app.apply_bg_image("data:1".to_string());
    // A finger on the image leaves the greeting alone.
    assert_eq!(app.touch_start_one(None), Press::Drag);
    assert!(app.demo_active());
    assert_eq!(app.touch_move_one(None), Move::Drag);
    app.touch_start_two();
    assert_eq!(app.touch_move_one(None), Move::Ignored);
    assert_eq!(app.touch_move_two(), Pinch::Image);
    assert_eq!(app.touch_end(1), Release::Ignored);
    assert_eq!(app.touch_start_one(Some((1, 1))), Press::Ignored);
    assert_eq!(app.touch_end(0), Release::Drop);
    assert!(!app.is_two_finger());
}

#[test]
fn finger_stroke() {
    let mut app = app_with(Tool::Pencil);
    assert_eq!(app.touch_start_one(Some((1, 1))), Press::Paint);
    assert_eq!(app.touch_move_one(Some((3, 1))), Move::Paint);
    assert_eq!(app.touch_end(0), Release::Paint);
    assert_eq!(app.cell_look(2, 1).ch, '*');
    assert_eq!(app.touch_end(0), Release::Ignored);
}

#[test]
fn second_finger_cancels_the_stroke() {
    let mut app = app_with(Tool::Pencil);
    app.touch_start_one(Some((1, 1)));
    app.touch_start_two();
    assert_eq!(app.cell_look(1, 1).ch, BLANK);
    assert_eq!(app.undo_depth(), 0);
    assert_eq!(app.touch_move_two(), Pinch::Canvas);
    assert_eq!(app.touch_end(1), Release::Ignored);
    assert!(app.is_two_finger());
    assert_eq!(app.touch_move_one(Some((5, 5))), Move::Ignored);
    assert_eq!(app.touch_start_one(Some((5, 5))), Press::Ignored);
    assert_eq!(app.cell_look(5, 5).ch, BLANK);
    app.touch_end(0);
    assert_eq!(app.touch_start_one(Some((5, 5))), Press::Paint);
    assert_eq!(app.touch_move_two(), Pinch::Ignored);
}

#[test]
fn interrupted_touch_cancels_the_stroke() {
    let mut app = app_with(Tool::Pencil);
    app.touch_start_one(Some((1, 1)));
    assert_eq!(app.touch_cancel(), Release::Paint);
    assert_eq!(app.cell_look(1, 1).ch, BLANK);
    assert_eq!(app.undo_depth(), 0);
    assert_eq!(app.touch_cancel(), Release::Ignored);
    app.enter_bg_move();
    app.touch_start_two();
    assert_eq!(app.touch_cancel(), Release::Drop);
    assert!(!app.is_two_finger());
}

#[test]
fn undo_keys() {
    let mut app = app_with(Tool::Pencil);
    app.mouse_down(Some((1, 1)), false);
    app.mouse_up();
    assert_eq!(app.key_down("z", true, false, false), KeyAction::Undone);
    assert_eq!(app.cell_look(1, 1).ch, BLANK);
    assert_eq!(app.key_down("Z", true, false, true), KeyAction::Redone);
    assert_eq!(app.cell_look(1, 1).ch, '*');
    assert_eq!(app.key_down("z", false, false, false), KeyAction::Ignored);
}

#[test]
fn escape_cancels_a_stroke() {
    let mut app = app_with(Tool::Pencil);
    assert_eq!(app.key_down("Escape", false, false, false), KeyAction::Ignored);
    app.mouse_down(Some((1, 1)), false);
    app.mouse_move(Some((9, 9)), false);
    assert_eq!(app.key_down("Escape", false, false, false), KeyAction::StrokeAborted);
    assert_eq!(app.undo_depth(), 0);
    assert_eq!(app.cell_look(5, 5).ch, BLANK);
    assert!(!app.stroke().is_drawing);
}

#[test]
fn escape_cancels_a_selection() {
    let mut app = app_with(Tool::Pencil);
    app.mouse_down(Some((1, 1)), false);
    app.mouse_up();
    app.choose_tool(Tool::Select);
    app.mouse_down(Some((1, 1)), false);
    app.mouse_move(Some((4, 4)), false);
    assert!(app.selection().is_some());
    assert_eq!(app.key_down("Escape", false, false, false), KeyAction::StrokeAborted);
    assert_eq!(app.selection(), None);
    assert_eq!(app.undo_depth(), 1);
}

#[test]
fn escape_drops_a_finished_selection() {
    let mut app = app_with(Tool::Select);
    app.mouse_down(Some((1, 1)), false);
    app.mouse_move(Some((4, 4)), false);
    app.mouse_up();
    assert!(app.selection().is_some());
    assert_eq!(app.key_down("Escape", false, false, false), KeyAction::Deselected);
    assert_eq!(app.selection(), None);
    assert_eq!(app.key_down("Escape", false, false, false), KeyAction::Ignored);
}

#[test]
fn keys_while_typing() {
    let mut app = app_with(Tool::Text);
    app.mouse_down(Some((0, 0)), false);
    assert_eq!(app.key_down("z", false, false, false), KeyAction::TextTyped);
    assert_eq!(app.key_down("é", false, false, false), KeyAction::TextTyped);
    assert_eq!(app.key_down("Backspace", false, false, false), KeyAction::TextErased);
    assert_eq!(app.key_down("Backspace", true, false, false), KeyAction::Ignored);
    assert_eq!(app.key_down("a", false, true, false), KeyAction::Ignored);
    assert_eq!(app.key_down("Shift", false, false, true), KeyAction::Ignored);
    assert_eq!(app.cell_look(0, 0).ch, 'z');
    assert_eq!(app.key_down("Escape", false, false, false), KeyAction::TextAborted);
    assert!(app.cell_look(0, 0).cursor);
    app.key_down("q", false, false, false);
    assert_eq!(app.key_down("Enter", false, false, false), KeyAction::TextCommitted);
    assert_eq!(app.text_session(), None);
    assert_eq!(app.cell_look(0, 0).ch, 'q');
    assert!(!app.cell_look(0, 0).preview);
}

#[test]
fn undo_key_while_typing() {
    let mut app = app_with(Tool::Text);
    app.mouse_down(Some((0, 0)), false);
    app.key_down("q", false, false, false);
    assert_eq!(app.key_down("z", true, false, false), KeyAction::Undone);
    assert_eq!(app.text_session(), None);
    assert_eq!(app.cell_look(0, 0).ch, BLANK);
}

#[test]
fn keys_while_moving_the_background() {
    let mut app = app_with(Tool::Line);
    app.enter_bg_move();
    app.set_layout(9);
    assert_eq!(app.key_down("Escape", false, false, false), KeyAction::MoveCancelled);
    assert_eq!((app.settings().tool, app.layout()), (Tool::Line, 0));
    app.enter_bg_move();
    app.set_layout(9);
    assert_eq!(app.key_down("Enter", false, false, false), KeyAction::MoveAccepted);
    assert_eq!((app.settings().tool, app.layout()), (Tool::Line, 9));
    assert_eq!(app.key_down("Enter", false, false, false), KeyAction::Ignored);
}
