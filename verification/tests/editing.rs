//! Undo, typing, selecting, clearing and copying.

use charpaint::app::{App, Selection, TextSession};
use charpaint::clipboard::{html_escape, html_wrap};
use charpaint::grid::{BLANK, COLS, CURSOR_CHAR, ROWS};
use charpaint::modes::{BlendMode, Tool};

fn blank_app() -> App<i32> {
    let mut app = App::new(0);
    app.clear_demo_if_active();
    app
}

fn row_text(app: &App<i32>, row: usize) -> String {
    (0..COLS).map(|c| app.cell_look(c, row).ch).collect()
}

fn canvas(app: &App<i32>) -> String {
    (0..ROWS).map(|r| row_text(app, r)).collect::<Vec<_>>().join("\n")
}

fn dot(app: &mut App<i32>, col: usize, row: usize) {
    app.mouse_down(Some((col, row)), false);
    app.mouse_up();
}

#[test]
fn program_starts_blank_with_a_pencil() {
    let app: App<i32> = App::new(7);
    assert_eq!(app.settings().tool, Tool::Pencil);
    assert_eq!(app.settings().brush_char, '*');
    assert_eq!(app.settings().blend_mode, BlendMode::Overwrite);
    assert!(app.settings().dark_mode);
    assert!(!app.settings().shift_locked && !app.settings().help_mode);
    assert!(app.demo_active() && app.is_new_project() && !app.is_two_finger());
    assert_eq!(app.selection(), None);
    assert_eq!(app.text_session(), None);
    assert!(!app.stroke().is_drawing);
    assert_eq!(app.layout(), 7);
    assert_eq!(app.saved_layout(), None);
    assert_eq!(app.image_size(), (0, 0));
    assert_eq!((app.undo_depth(), app.redo_depth()), (0, 0));
    assert!(canvas(&app).chars().all(|c| c == ' ' || c == '\n'));
}

#[test]
fn greeting_screen() {
    let mut app: App<i32> = App::new(0);
    app.draw_demo();
    assert_eq!(row_text(&app, 0), format!("┌{}┐", "─".repeat(78)));
    assert_eq!(row_text(&app, 23), format!("└{}┘", "─".repeat(78)));
    assert_eq!(row_text(&app, 5), format!("│{}│", " ".repeat(78)));
    assert_eq!(
        row_text(&app, 12),
        format!("│{}✦  charpaint  ✦{}│", " ".repeat(31), " ".repeat(32))
    );
    assert!(!app.cell_look(40, 12).preview);
}

#[test]
fn greeting_goes_with_the_first_press() {
    let mut app: App<i32> = App::new(0);
    app.draw_demo();
    dot(&mut app, 3, 3);
    assert!(!app.demo_active() && !app.is_new_project());
    assert_eq!(app.cell_look(0, 0).ch, BLANK);
    assert_eq!(app.cell_look(3, 3).ch, '*');
    // Undo leads back to the blank canvas, never to the greeting.
    app.undo();
    assert_eq!(app.undo_depth(), 0);
    assert!(canvas(&app).chars().all(|c| c == ' ' || c == '\n'));
    app.undo();
    assert!(canvas(&app).chars().all(|c| c == ' ' || c == '\n'));
    app.clear_demo_if_active();
    assert!(!app.demo_active());
}

#[test]
fn undo_and_redo() {
    let mut app = blank_app();
    dot(&mut app, 1, 1);
    let one = canvas(&app);
    dot(&mut app, 2, 2);
    let two = canvas(&app);
    app.undo();
    assert_eq!(canvas(&app), one);
    app.redo();
    assert_eq!(canvas(&app), two);
    assert_eq!((app.undo_depth(), app.redo_depth()), (2, 0));
    app.undo();
    app.undo();
    app.undo();
    assert_eq!((app.undo_depth(), app.redo_depth()), (0, 2));
    app.redo();
    app.redo();
    app.redo();
    assert_eq!(canvas(&app), two);
}

#[test]
fn new_step_ends_redo() {
    let mut app = blank_app();
    dot(&mut app, 1, 1);
    app.undo();
    assert_eq!(app.redo_depth(), 1);
    dot(&mut app, 5, 5);
    assert_eq!(app.redo_depth(), 0);
    app.redo();
    assert_eq!(app.cell_look(1, 1).ch, BLANK);
    assert_eq!(app.cell_look(5, 5).ch, '*');
}

#[test]
fn undo_stops_a_stroke() {
    let mut app = blank_app();
    app.mouse_down(Some((1, 1)), false);
    assert!(app.stroke().is_drawing && app.cell_look(1, 1).preview);
    app.undo();
    assert!(!app.stroke().is_drawing);
    assert!(!app.cell_look(1, 1).preview);
    assert_eq!(app.cell_look(1, 1).ch, BLANK);
}

#[test]
fn typing_shows_text_and_cursor() {
    let mut app = blank_app();
    app.start_text_session(10, 4);
    assert_eq!(app.text_session(), Some(TextSession { origin: 10, cursor: 10, row: 4 }));
    assert_eq!(app.cell_look(10, 4).ch, CURSOR_CHAR);
    assert!(app.cell_look(10, 4).cursor && app.cell_look(10, 4).preview);
    app.type_text("hi");
    assert_eq!(&row_text(&app, 4)[10..12], "hi");
    assert_eq!(app.cell_look(12, 4).ch, CURSOR_CHAR);
    assert!(!app.cell_look(10, 4).cursor);
    app.commit_text_session();
    assert_eq!(row_text(&app, 4), format!("{}hi{}", " ".repeat(10), " ".repeat(68)));
    assert!(!app.cell_look(10, 4).preview);
    assert_eq!(app.text_session(), None);
    assert_eq!(app.undo_depth(), 1);
    app.undo();
    assert_eq!(row_text(&app, 4), " ".repeat(80));
}

#[test]
fn committing_without_text_does_nothing() {
    let mut app = blank_app();
    app.mouse_down(Some((1, 1)), false);
    app.commit_text_session();
    assert!(app.cell_look(1, 1).preview);
    app.abort_text_session();
    app.type_char('x');
    app.text_backspace();
    assert!(app.cell_look(1, 1).preview && app.text_session().is_none());
}

#[test]
fn backspace_takes_back_characters() {
    let mut app = blank_app();
    app.start_text_session(10, 4);
    app.type_text("abc");
    app.text_backspace();
    assert_eq!(app.cell_look(12, 4).ch, CURSOR_CHAR);
    assert_eq!(app.cell_look(13, 4).ch, BLANK);
    app.text_backspace();
    app.text_backspace();
    app.text_backspace();
    assert_eq!(app.text_session(), Some(TextSession { origin: 10, cursor: 10, row: 4 }));
    app.type_char('Z');
    app.commit_text_session();
    assert_eq!(row_text(&app, 4).trim(), "Z");
}

#[test]
fn escape_restarts_typing_at_its_origin() {
    let mut app = blank_app();
    app.start_text_session(10, 4);
    let fresh = canvas(&app);
    app.type_text("mistake");
    app.abort_text_session();
    assert_eq!(canvas(&app), fresh);
    assert_eq!(app.text_session(), Some(TextSession { origin: 10, cursor: 10, row: 4 }));
    assert_eq!(app.undo_depth(), 1);
}

#[test]
fn typing_stops_at_the_right_edge() {
    let mut app = blank_app();
    app.start_text_session(77, 0);
    app.type_text("abcdef");
    assert_eq!(app.text_session(), Some(TextSession { origin: 77, cursor: 80, row: 0 }));
    assert_eq!(&row_text(&app, 0)[77..], "abc");
    app.text_backspace();
    assert_eq!(app.cell_look(79, 0).ch, CURSOR_CHAR);
    app.commit_text_session();
    assert_eq!(&row_text(&app, 0)[77..], "ab ");
}

#[test]
fn typing_elsewhere_commits_first() {
    let mut app = blank_app();
    app.start_text_session(0, 0);
    app.type_text("one");
    app.start_text_session(0, 1);
    assert_eq!(row_text(&app, 0).trim(), "one");
    assert!(!app.cell_look(0, 0).preview);
    assert_eq!(app.undo_depth(), 2);
}

#[test]
fn undo_commits_typing_first() {
    let mut app = blank_app();
    app.start_text_session(0, 0);
    app.type_text("gone");
    app.undo();
    assert_eq!(app.text_session(), None);
    assert_eq!(row_text(&app, 0).trim(), "");
    app.redo();
    assert_eq!(row_text(&app, 0).trim(), "gone");
}

#[test]
fn selection_is_normalised() {
    let mut app = blank_app();
    app.apply_selection(9, 7, 3, 2);
    let sel = Selection { left: 3, top: 2, right: 9, bottom: 7 };
    assert_eq!(app.selection(), Some(sel));
    assert!(app.cell_look(3, 2).selected && app.cell_look(9, 7).selected);
    assert!(!app.cell_look(2, 2).selected && !app.cell_look(9, 8).selected);
    app.clear_selection();
    assert_eq!(app.selection(), None);
}

#[test]
fn clearing_the_canvas() {
    let mut app = blank_app();
    dot(&mut app, 1, 1);
    dot(&mut app, 9, 9);
    let before = canvas(&app);
    app.clear_canvas();
    assert!(canvas(&app).chars().all(|c| c == ' ' || c == '\n'));
    app.undo();
    assert_eq!(canvas(&app), before);
}

#[test]
fn clearing_a_selection() {
    let mut app = blank_app();
    dot(&mut app, 1, 1);
    dot(&mut app, 9, 9);
    app.apply_selection(0, 0, 5, 5);
    app.clear_canvas();
    assert_eq!(app.cell_look(1, 1).ch, BLANK);
    assert_eq!(app.cell_look(9, 9).ch, '*');
    assert_eq!(app.selection(), None);
    app.undo();
    assert_eq!(app.cell_look(1, 1).ch, '*');
}

#[test]
fn copying_the_canvas() {
    let mut app = blank_app();
    dot(&mut app, 0, 0);
    let text = app.canvas_text();
    assert_eq!(text.chars().count(), 80 * 24 + 23);
    let lines: Vec<&str> = text.split('\n').collect();
    assert_eq!(lines.len(), 24);
    assert_eq!(lines[0], format!("*{}", " ".repeat(79)));
    assert_eq!(lines[23], " ".repeat(80));
    assert_eq!(app.selected_text(), None);
    assert_eq!(app.selected_html(), None);
    let (plain, html) = app.copy();
    assert_eq!(plain, text);
    assert_eq!(html, app.canvas_html());
}

#[test]
fn copying_a_selection() {
    let mut app = blank_app();
    app.start_text_session(2, 3);
    app.type_text("a<b");
    app.commit_text_session();
    app.apply_selection(2, 3, 5, 4);
    assert_eq!(app.selected_text(), Some("a<b \n    ".to_string()));
    let (plain, html) = app.copy();
    assert_eq!(plain, "a<b \n    ");
    assert_eq!(
        html,
        "<pre style=\"font-family:monospace;line-height:1.2;white-space:pre;padding:4px\">a&lt;b\n</pre>"
    );
}

#[test]
fn copying_ignores_the_preview() {
    let mut app = blank_app();
    let before = app.copy();
    app.mouse_down(Some((4, 4)), false);
    assert_eq!(app.copy(), before);
    app.mouse_up();
    assert_ne!(app.copy(), before);
}

#[test]
fn html_of_text() {
    let open = "<pre style=\"font-family:monospace;line-height:1.2;white-space:pre;padding:4px\">";
    assert_eq!(html_wrap(""), format!("{open}</pre>"));
    assert_eq!(html_wrap("a \u{a0}\t\n\n  b"), format!("{open}a\n\n  b</pre>"));
    assert_eq!(html_wrap("x\n"), format!("{open}x</pre>"));
    assert_eq!(html_wrap("x\n\n"), format!("{open}x\n</pre>"));
    assert_eq!(html_wrap("a\r\nb"), format!("{open}a\nb</pre>"));
    assert_eq!(html_wrap("1 < 2 & 3 > 2"), format!("{open}1 &lt; 2 &amp; 3 &gt; 2</pre>"));
}

#[test]
fn html_agrees_with_string_functions() {
    for text in ["", "\n", "a\n b \u{2003}\nc\n", "&&<<>>&amp;", "  \n  \n", "✦  charpaint  ✦  "] {
        let trimmed: String = text.lines().map(|line| line.trim_end()).collect::<Vec<_>>().join("\n");
        let escaped = trimmed.replace('&', "&amp;").replace('<', "&lt;").replace('>', "&gt;");
        assert_eq!(
            html_wrap(text),
            format!(
                "<pre style=\"font-family:monospace;line-height:1.2;white-space:pre;padding:4px\">{}</pre>",
                escaped
            )
        );
    }
}

#[test]
fn html_escapes_special_characters() {
    assert_eq!(html_escape("<a & b>"), "&lt;a &amp; b&gt;");
    assert_eq!(html_escape("plain ▄ text"), "plain ▄ text");
    assert_eq!(html_escape("&lt;"), "&amp;lt;");
}

#[test]
fn trimming_takes_all_white_space() {
    for code in 0..0x3100u32 {
        if let Some(ch) = char::from_u32(code) {
            if ch == '\n' || ch == '&' || ch == '<' || ch == '>' {
                continue;
            }
            let html = html_wrap(&format!("x{ch}"));
            let kept = html.ends_with(&format!("x{ch}</pre>"));
            assert_eq!(kept, !ch.is_whitespace(), "U+{code:04X}");
        }
    }
}
