//! Tools, modes and what the page says.

use charpaint::controls::is_plain_tool;
use charpaint::events::{is_copy_key, is_image_type};
use charpaint::modes::{
    art_char, same_text, AaCharset, BgOutlineMode, BlendMode, FillMode, LineMode, PencilMode, Tool,
};
use charpaint::page::{cell_of, parse_number, stamp_page, LongPress};
use charpaint::startup::palette;

const TOOLS: [(Tool, &str); 11] = [
    (Tool::Pencil, "pencil"),
    (Tool::Eraser, "eraser"),
    (Tool::Select, "select"),
    (Tool::Fill, "fill"),
    (Tool::Text, "text"),
    (Tool::Line, "line"),
    (Tool::Rect, "rect"),
    (Tool::RectFill, "rect-fill"),
    (Tool::Oval, "oval"),
    (Tool::OvalFill, "oval-fill"),
    (Tool::BgMove, "bg-move"),
];

#[test]
fn tools_and_their_attributes() {
    for (tool, attr) in TOOLS {
        assert_eq!(tool.data_attr(), attr);
        assert_eq!(Tool::from_data_attr(attr), Some(tool));
    }
    for wrong in ["", "Pencil", "rect_fill", "rect-fill ", "bg"] {
        assert_eq!(Tool::from_data_attr(wrong), None);
    }
}

#[test]
fn plain_tools() {
    for (tool, _) in TOOLS {
        let special = matches!(tool, Tool::Line | Tool::Pencil | Tool::Fill | Tool::BgMove);
        assert_eq!(is_plain_tool(tool), !special);
    }
}

#[test]
fn blend_modes_take_turns() {
    assert_eq!(BlendMode::Overwrite.cycle(), BlendMode::Stamp);
    assert_eq!(BlendMode::Stamp.cycle(), BlendMode::Overwrite);
    assert_eq!(BlendMode::Combine.cycle(), BlendMode::Overwrite);
    assert_eq!(BlendMode::Difference.cycle(), BlendMode::Overwrite);
    assert_eq!(BlendMode::Overwrite.icon(), "▊");
    assert_eq!(BlendMode::Stamp.icon(), "⬚");
    assert_eq!(BlendMode::Combine.icon(), "┼");
    assert_eq!(BlendMode::Difference.icon(), "∖");
    assert_eq!(BlendMode::Overwrite.name(), "Overwrite");
    assert_eq!(BlendMode::Stamp.name(), "Stamp");
    assert_eq!(BlendMode::Combine.name(), "Combine");
    assert_eq!(BlendMode::Difference.name(), "Difference");
}

#[test]
fn paired_modes_take_turns() {
    assert_eq!(LineMode::Character.cycle(), LineMode::Art);
    assert_eq!(LineMode::Art.cycle(), LineMode::Character);
    assert_eq!(LineMode::Character.icon(), "╲");
    assert_eq!(LineMode::Art.icon(), "📐");
    assert_eq!(PencilMode::Normal.cycle(), PencilMode::Art);
    assert_eq!(PencilMode::Art.cycle(), PencilMode::Normal);
    assert_eq!(PencilMode::Normal.icon(), "✎");
    assert_eq!(PencilMode::Art.icon(), "~");
    assert_eq!(FillMode::Flood4.cycle(), FillMode::Flood8);
    assert_eq!(FillMode::Flood8.cycle(), FillMode::Flood4);
    assert_eq!(FillMode::Flood4.icon(), "✣");
    assert_eq!(FillMode::Flood8.icon(), "❊");
    assert_eq!(FillMode::Flood4.name(), "Fill (4-adjacent)");
    assert_eq!(FillMode::Flood8.name(), "Fill (8-adjacent)");
}

#[test]
fn outline_modes_come_round() {
    let modes = [
        (BgOutlineMode::Original, "▒", "Original"),
        (BgOutlineMode::WhiteOnBlack, "┼", "White on black"),
        (BgOutlineMode::BlackOnWhite, "╬", "Black on white"),
    ];
    for k in 0..3 {
        let (mode, icon, name) = modes[k];
        assert_eq!(mode.icon(), icon);
        assert_eq!(mode.name(), name);
        assert_eq!(mode.cycle(), modes[(k + 1) % 3].0);
    }
}

#[test]
fn character_sets() {
    assert_eq!(AaCharset::Ascii7.cycle(), AaCharset::Braille);
    assert_eq!(AaCharset::Braille.cycle(), AaCharset::Ascii7);
    assert_eq!(AaCharset::Ascii7.icon(), "a");
    assert_eq!(AaCharset::Braille.icon(), "⠵");
    assert_eq!(AaCharset::Ascii7.char_from_idx(0), ' ');
    assert_eq!(AaCharset::Ascii7.char_from_idx(94), '~');
    assert_eq!(AaCharset::Ascii7.char_from_idx(256 + 33), 'A');
    assert_eq!(AaCharset::Braille.char_from_idx(0), '\u{2800}');
    assert_eq!(AaCharset::Braille.char_from_idx(255), '\u{28ff}');
    // Beyond the last code point and among the surrogates there is no character.
    assert_eq!(AaCharset::Braille.char_from_idx(0x10ffff), '\u{2800}');
    assert_eq!(AaCharset::Braille.char_from_idx(0xd800 - 0x2800), '\u{2800}');
    assert_eq!(AaCharset::Braille.char_from_idx(0xd7ff - 0x2800), '\u{d7ff}');
}

#[test]
fn catalogues_are_aligned_with_codes() {
    for charset in [AaCharset::Ascii7, AaCharset::Braille] {
        let (first, last) = charset.codes();
        for code in first..=last {
            assert_eq!(charset.char_from_idx((code - first) as usize) as u32, code);
        }
    }
    assert_eq!(AaCharset::Ascii7.codes(), (32, 126));
    assert_eq!(AaCharset::Braille.codes(), (0x2800, 0x28ff));
}

#[test]
fn strokes_by_direction() {
    assert_eq!(art_char(1, 0), '-');
    assert_eq!(art_char(-7, 0), '-');
    assert_eq!(art_char(0, 1), '|');
    assert_eq!(art_char(0, -2), '|');
    assert_eq!(art_char(1, 1), '\\');
    assert_eq!(art_char(-3, -1), '\\');
    assert_eq!(art_char(1, -1), '/');
    assert_eq!(art_char(-1, 5), '/');
    assert_eq!(art_char(0, 0), '/');
    assert_eq!(art_char(i32::MIN, i32::MIN), '\\');
}

#[test]
fn text_comparison() {
    assert!(same_text("", ""));
    assert!(same_text("Enter", "Enter"));
    assert!(!same_text("Enter", "enter"));
    assert!(!same_text("z", "zz"));
}

#[test]
fn copy_key() {
    assert!(is_copy_key("c", true, false));
    assert!(!is_copy_key("c", true, true));
    assert!(!is_copy_key("c", false, false));
    assert!(!is_copy_key("C", true, false));
}

#[test]
fn image_types() {
    assert!(is_image_type("image/png"));
    assert!(is_image_type("image/"));
    assert!(!is_image_type("image"));
    assert!(!is_image_type("text/plain"));
    assert!(!is_image_type(" image/png"));
    assert!(!is_image_type(""));
}

#[test]
fn numbers_on_cells() {
    for text in ["0", "7", "79", "007", "+12", "18446744073709551615"] {
        assert_eq!(parse_number(text), text.parse::<usize>().ok());
        assert!(parse_number(text).is_some());
    }
    for text in ["", "+", "-1", "1 ", " 1", "1.0", "٣", "++1", "18446744073709551616", "99999999999999999999999"] {
        assert_eq!(parse_number(text), None);
        assert!(text.parse::<usize>().is_err());
    }
    assert_eq!(cell_of("12", "3"), Some((12, 3)));
    assert_eq!(cell_of("12", "x"), None);
    assert_eq!(cell_of("", "3"), None);
}

#[test]
fn quick_release_is_a_click() {
    let mut button = LongPress::new();
    button.press(5);
    assert_eq!(button.release(), Some(5));
    assert_eq!(button.release(), None);
}

#[test]
fn long_press_is_no_click() {
    let mut button = LongPress::new();
    button.press(5);
    button.fire();
    assert_eq!(button.release(), None);
    assert_eq!(button.timer, None);
}

#[test]
fn leaving_cancels_the_press() {
    let mut button = LongPress::new();
    assert_eq!(button.leave(), None);
    button.press(9);
    assert_eq!(button.leave(), Some(9));
    assert_eq!(button.release(), None);
}

#[test]
fn build_comment_is_stamped() {
    let page = "<html>\n  <!-- build: 0101:0000 -->\n<p>x</p>\n";
    assert_eq!(
        stamp_page(page, "1116:0930"),
        "<html>\n<!-- build: 1116:0930 -->\n<p>x</p>\n"
    );
    assert_eq!(stamp_page("<!-- build:", "s"), "<!-- build: s -->");
    assert_eq!(stamp_page("<!-- build: a --> <p>\n\n", "s"), "<!-- build: s -->\n\n");
}

#[test]
fn page_without_build_comment_is_kept() {
    for page in ["", "\n", "a", "a\n", "a\n\nb", "x <!-- build: y -->\n", "<!--build: y -->"] {
        assert_eq!(stamp_page(page, "s"), page);
    }
    assert_eq!(stamp_page("a\r\nb\r", "s"), "a\nb\r");
}

#[test]
fn palette_entries() {
    let entries = palette();
    assert_eq!(entries.len(), 15);
    let painted: String = entries.iter().map(|e| e.map(|p| p.ch).unwrap_or('|')).collect();
    assert_eq!(painted, "█▓▒░|#*+.|─│┼| ");
    let shown: String = entries.iter().flatten().map(|p| p.label).collect();
    assert_eq!(shown, "█▓▒░#*+.─│┼⣠");
    let active: Vec<char> = entries
        .iter()
        .flatten()
        .filter(|p| p.initially_active)
        .map(|p| p.ch)
        .collect();
    assert_eq!(active, vec!['*']);
}
