//! The background image, character matching and the controls.

use charpaint::app::App;
use charpaint::asciiart::{
    enhance_edges, scale_blur, sobel_edges, stretch_luminance, to_luminance, SPRITE_H, SPRITE_W,
};
use charpaint::grid::{BLANK, COLS, ROWS};
use charpaint::modes::{
    AaCharset, BgOutlineMode, BlendMode, FillMode, LineMode, PencilMode, Tool,
};

type Layout = (i32, i32);

const W: usize = 160;
const H: usize = 48;

fn new_app() -> App<Layout> {
    let mut app = App::new((0, 0));
    app.clear_demo_if_active();
    app
}

/// Grey RGBA pixels of a level per pixel.
fn gray(levels: &[u8]) -> Vec<u8> {
    levels.iter().flat_map(|&v| [v, v, v, 255]).collect()
}

/// An image of two pixels per cell in each direction: bright on the left half,
/// dark on the right.
fn halves() -> Vec<u8> {
    (0..W * H).map(|i| if i % W < W / 2 { 255 } else { 0 }).collect()
}

fn one_to_one(app: &mut App<Layout>) {
    let columns = (0..COLS).map(|c| Some((2 * c, 2 * c + 2))).collect();
    let rows = (0..ROWS).map(|r| Some((2 * r, 2 * r + 2))).collect();
    app.set_cell_mapping(columns, rows, 1);
}

/// A catalogue of a blank and a full sprite.
fn two_sprites() -> Vec<Vec<u8>> {
    let size = (SPRITE_W * SPRITE_H) as usize;
    vec![vec![0; size], vec![255; size]]
}

fn loaded() -> App<Layout> {
    let mut app = new_app();
    app.process_bg_image(&gray(&halves()), W as u32, H as u32, (5, 6));
    one_to_one(&mut app);
    app.set_catalogs(two_sprites(), two_sprites());
    app
}

fn paint_at(app: &mut App<Layout>, col: usize, row: usize) -> char {
    app.mouse_down(Some((col, row)), false);
    let ch = app.cell_look(col, row).ch;
    app.abort_stroke();
    ch
}

#[test]
fn loading_an_image_invites_framing() {
    let mut app: App<Layout> = App::new((0, 0));
    app.choose_tool(Tool::Oval);
    app.toggle_bg_visibility();
    app.process_bg_image(&gray(&halves()), W as u32, H as u32, (5, 6));
    assert_eq!(app.settings().tool, Tool::BgMove);
    assert_eq!(app.layout(), (5, 6));
    assert_eq!(app.saved_layout(), Some((5, 6)));
    assert_eq!(app.image_size(), (W as u32, H as u32));
    assert!(!app.bg_hidden() && !app.is_new_project() && app.demo_active());
    app.accept_bg_move();
    assert_eq!(app.settings().tool, Tool::Oval);
}

#[test]
fn loading_another_image_keeps_the_tool_to_return_to() {
    let mut app = new_app();
    app.choose_tool(Tool::Oval);
    app.process_bg_image(&gray(&halves()), W as u32, H as u32, (5, 6));
    app.process_bg_image(&gray(&[7; 12]), 4, 3, (1, 1));
    assert_eq!(app.settings().tool, Tool::BgMove);
    assert_eq!(app.image_size(), (4, 3));
    app.cancel_bg_move();
    assert_eq!(app.settings().tool, Tool::Oval);
    assert_eq!(app.layout(), (1, 1));
}

#[test]
fn shown_pixels_of_each_outline_mode() {
    let levels: Vec<u8> = (0..24).map(|i| (i * 9) as u8).collect();
    let mut app = new_app();
    assert_eq!(app.rebuild_background(), None);
    app.process_bg_image(&gray(&levels), 6, 4, (0, 0));
    let mut luma = to_luminance(&gray(&levels));
    stretch_luminance(&mut luma);
    let mut edges = sobel_edges(&luma, 6, 4);
    enhance_edges(&mut edges);
    assert_eq!(app.outline_mode(), BgOutlineMode::Original);
    assert_eq!(app.rebuild_background(), Some(gray(&luma)));
    assert_eq!(app.outline_mode_tap(), BgOutlineMode::WhiteOnBlack);
    assert_eq!(app.rebuild_background(), Some(gray(&edges)));
    assert_eq!(app.outline_mode_tap(), BgOutlineMode::BlackOnWhite);
    let inverted: Vec<u8> = edges.iter().map(|e| 255 - e).collect();
    assert_eq!(app.rebuild_background(), Some(gray(&inverted)));
    assert_eq!(app.outline_mode_tap(), BgOutlineMode::Original);
}

#[test]
fn accepting_looks_for_edges_at_the_scale_of_a_cell() {
    let levels: Vec<u8> = (0..W * H).map(|i| (i * i % 251) as u8).collect();
    let mut app = new_app();
    app.process_bg_image(&gray(&levels), W as u32, H as u32, (0, 0));
    app.set_cell_mapping(vec![None; COLS], vec![None; ROWS], 3);
    assert!(app.accept_bg_move());
    app.outline_mode_tap();
    let mut luma = to_luminance(&gray(&levels));
    stretch_luminance(&mut luma);
    let blurred = scale_blur(&luma, W as u32, H as u32, 3);
    let mut edges = sobel_edges(&blurred, W as u32, H as u32);
    enhance_edges(&mut edges);
    assert_eq!(app.rebuild_background(), Some(gray(&edges)));
}

#[test]
fn looking_for_edges_again_finds_the_same() {
    let levels: Vec<u8> = (0..W * H).map(|i| (i * i % 251) as u8).collect();
    let mut app = new_app();
    app.process_bg_image(&gray(&levels), W as u32, H as u32, (0, 0));
    app.outline_mode_tap();
    app.accept_bg_move();
    let once = app.rebuild_background();
    app.enter_bg_move();
    app.accept_bg_move();
    assert_eq!(app.rebuild_background(), once);
}

#[test]
fn backdrop_follows_theme_and_visibility() {
    let mut app = new_app();
    assert_eq!(app.backdrop(), None);
    app.apply_bg_image("url".to_string());
    assert_eq!(app.backdrop(), Some((&"url".to_string(), "rgba(13,13,13,0.5)")));
    app.toggle_theme();
    assert_eq!(app.backdrop(), Some((&"url".to_string(), "rgba(255,255,255,0.5)")));
    app.toggle_bg_visibility();
    assert_eq!(app.backdrop(), None);
}

#[test]
fn blur_radius_is_at_least_one() {
    let levels: Vec<u8> = (0..W * H).map(|i| (i * i % 251) as u8).collect();
    let mut by_radius = Vec::new();
    for radius in [0, 1, 2] {
        let mut app = new_app();
        app.process_bg_image(&gray(&levels), W as u32, H as u32, (0, 0));
        app.set_cell_mapping(vec![None; COLS], vec![None; ROWS], radius);
        app.accept_bg_move();
        app.outline_mode_tap();
        by_radius.push(app.rebuild_background());
    }
    assert_eq!(by_radius[0], by_radius[1]);
    assert_ne!(by_radius[1], by_radius[2]);
}

#[test]
fn accepting_without_an_image() {
    let mut app = new_app();
    app.enter_bg_move();
    assert!(!app.accept_bg_move());
    assert_eq!(app.settings().tool, Tool::Pencil);
}

#[test]
fn matching_draws_where_the_image_is_dark() {
    let mut app = loaded();
    app.choose_tool(Tool::Pencil);
    assert_eq!(paint_at(&mut app, 10, 10), '*');
    assert!(app.aa_mode_tap());
    // While the luminance is shown, dark means ink: entry 1 is drawn.
    assert_eq!(paint_at(&mut app, 10, 10), ' ');
    assert_eq!(paint_at(&mut app, 70, 10), '!');
    assert_eq!(app.cycle_charset(), AaCharset::Braille);
    assert_eq!(paint_at(&mut app, 10, 10), '\u{2800}');
    assert_eq!(paint_at(&mut app, 70, 10), '\u{2801}');
    assert!(!app.aa_mode_tap());
    assert_eq!(paint_at(&mut app, 70, 10), '*');
}

#[test]
fn matching_follows_edges_in_the_edge_modes() {
    let mut app = loaded();
    app.choose_tool(Tool::Pencil);
    app.aa_mode_tap();
    for mode in [BgOutlineMode::WhiteOnBlack, BgOutlineMode::BlackOnWhite] {
        assert_eq!(app.outline_mode_tap(), mode);
        assert_eq!(paint_at(&mut app, 10, 10), ' ');
        assert_eq!(paint_at(&mut app, 70, 10), ' ');
        assert_eq!(paint_at(&mut app, 39, 10), '!');
        assert_eq!(paint_at(&mut app, 40, 10), '!');
    }
}

#[test]
fn matching_off_the_image_draws_spaces() {
    let mut app = loaded();
    app.choose_tool(Tool::Pencil);
    app.aa_mode_tap();
    let mut columns: Vec<Option<(usize, usize)>> = (0..COLS).map(|c| Some((2 * c, 2 * c + 2))).collect();
    columns[70] = None;
    columns[71] = Some((1000, 1002));
    columns[72] = Some((W, W + 5));
    columns[73] = Some((W - 1, W - 1));
    columns[74] = Some((W - 2, 9999));
    let rows = (0..ROWS).map(|r| Some((2 * r, 2 * r + 2))).collect();
    app.set_cell_mapping(columns, rows, 1);
    assert_eq!(paint_at(&mut app, 70, 10), BLANK);
    assert_eq!(paint_at(&mut app, 71, 10), BLANK);
    assert_eq!(paint_at(&mut app, 72, 10), BLANK);
    assert_eq!(paint_at(&mut app, 73, 10), '!');
    assert_eq!(paint_at(&mut app, 74, 10), '!');
}

#[test]
fn matching_needs_image_and_catalogue() {
    let mut app = new_app();
    app.aa_mode_tap();
    assert_eq!(paint_at(&mut app, 1, 1), '*');
    app.set_catalogs(two_sprites(), Vec::new());
    assert_eq!(paint_at(&mut app, 1, 1), '*');
    app.process_bg_image(&gray(&halves()), W as u32, H as u32, (0, 0));
    one_to_one(&mut app);
    app.accept_bg_move();
    assert_eq!(paint_at(&mut app, 79, 1), '!');
    app.cycle_charset();
    assert_eq!(paint_at(&mut app, 79, 1), '*');
}

#[test]
fn eraser_never_matches() {
    let mut app = loaded();
    app.choose_tool(Tool::Eraser);
    app.aa_mode_tap();
    assert_eq!(paint_at(&mut app, 70, 10), BLANK);
}

#[test]
fn lines_match_in_every_line_mode() {
    let mut app = loaded();
    app.aa_mode_tap();
    app.choose_tool(Tool::Line);
    assert_eq!(app.line_tool_tap(), LineMode::Art);
    app.mouse_down(Some((70, 10)), false);
    app.mouse_move(Some((72, 10)), false);
    assert_eq!(app.cell_look(71, 10).ch, '!');
}

#[test]
fn fill_matches_even_over_the_brush_character() {
    let mut app = loaded();
    app.aa_mode_tap();
    app.choose_tool(Tool::Fill);
    app.choose_brush(' ');
    app.mouse_down(Some((0, 0)), false);
    assert_eq!(app.cell_look(70, 10).ch, '!');
    assert!(app.cell_look(10, 10).preview && app.cell_look(10, 10).ch == ' ');
}

#[test]
fn a_strong_cell_is_not_left_blank() {
    // A faint patch is nearest to the blank sprite, but from the threshold on
    // the blank is left out.
    for (level, expected) in [(34u8, ' '), (35u8, '!')] {
        let mut levels = vec![0u8; W * H];
        levels[0] = 255;
        for y in 0..2 {
            for x in 20..22 {
                levels[y * W + x] = 255 - level;
            }
        }
        // Spread the tones so that the stretch changes nothing.
        for i in 0..W * H / 2 {
            levels[W * H / 2 + i] = if i % 2 == 0 { 0 } else { 255 };
        }
        let mut app = new_app();
        app.process_bg_image(&gray(&levels), W as u32, H as u32, (0, 0));
        one_to_one(&mut app);
        app.set_catalogs(two_sprites(), two_sprites());
        app.accept_bg_move();
        app.aa_mode_tap();
        assert_eq!(paint_at(&mut app, 10, 0), expected);
    }
}

#[test]
fn hiding_the_background_keeps_matching() {
    let mut app = loaded();
    app.choose_tool(Tool::Pencil);
    app.aa_mode_tap();
    assert!(app.toggle_bg_visibility());
    assert!(app.bg_hidden());
    assert_eq!(paint_at(&mut app, 70, 10), '!');
    assert!(!app.toggle_bg_visibility());
}

#[test]
fn disabling_the_matching() {
    let mut app = loaded();
    app.aa_mode_tap();
    assert!(app.aa_mode());
    app.disable_aa();
    assert!(!app.aa_mode());
}

#[test]
fn cancelling_a_move_restores_the_placement() {
    let mut app = new_app();
    app.choose_tool(Tool::Rect);
    app.set_layout((1, 2));
    app.enter_bg_move();
    app.set_layout((30, 40));
    app.cancel_bg_move();
    assert_eq!(app.layout(), (1, 2));
    assert_eq!(app.saved_layout(), None);
    assert_eq!(app.settings().tool, Tool::Rect);
    app.cancel_bg_move();
    assert_eq!(app.settings().tool, Tool::Pencil);
}

#[test]
fn the_placement_to_go_back_to_scales_along() {
    let mut app = new_app();
    app.set_saved_layout((9, 9));
    assert_eq!(app.saved_layout(), None);
    app.set_layout((1, 2));
    app.enter_bg_move();
    app.set_layout((2, 4));
    app.set_saved_layout((2, 4));
    app.cancel_bg_move();
    assert_eq!(app.layout(), (2, 4));
}

#[test]
fn move_button_enters_and_accepts() {
    let mut app = loaded();
    app.accept_bg_move();
    app.choose_tool(Tool::Select);
    app.apply_selection(1, 1, 3, 3);
    assert!(!app.bg_move_tool_tap());
    assert_eq!(app.settings().tool, Tool::BgMove);
    assert_eq!(app.selection(), None);
    app.set_layout((8, 8));
    assert!(app.bg_move_tool_tap());
    assert_eq!(app.settings().tool, Tool::Select);
    assert_eq!(app.layout(), (8, 8));
}

#[test]
fn stale_zoom_timers_do_nothing() {
    let mut app = loaded();
    let first = app.bump_zoom_debounce();
    let second = app.bump_zoom_debounce();
    assert_ne!(first, second);
    assert!(!app.zoom_timer(first));
    assert!(app.zoom_timer(second));
    // Looking for edges moves the generation on.
    assert!(!app.zoom_timer(second));
    let third = app.bump_zoom_debounce();
    app.accept_bg_move();
    assert!(!app.zoom_timer(third));
}

#[test]
fn picture_addresses_are_handed_back() {
    let mut app = new_app();
    assert_eq!(app.bg_url(), None);
    assert_eq!(app.apply_bg_image("one".to_string()), None);
    assert_eq!(app.apply_bg_image("two".to_string()), Some("one".to_string()));
    assert_eq!(app.bg_url(), Some(&"two".to_string()));
}

#[test]
fn sharpening_steps_stay_in_range() {
    let mut app = new_app();
    assert!(!app.adjust_texture(3));
    assert_eq!(app.sharpening(), (3, 0));
    app.adjust_texture(i32::MAX);
    app.adjust_pop(2);
    assert_eq!(app.sharpening(), (5, 2));
    app.adjust_pop(-7);
    assert_eq!(app.sharpening(), (5, 0));
    app.reset_texture();
    app.reset_pop();
    assert_eq!(app.sharpening(), (0, 0));
    let mut app = loaded();
    assert!(app.adjust_texture(1));
    assert!(app.adjust_pop(1));
    assert!(!app.adjust_pop(0));
    assert!(app.reset_texture());
    assert!(!app.reset_texture());
    assert!(app.reset_pop());
}

#[test]
fn taps_choose_a_tool_and_cycle_its_mode() {
    let mut app = new_app();
    app.choose_tool(Tool::Eraser);
    assert_eq!(app.pencil_tool_tap(), PencilMode::Normal);
    assert_eq!(app.settings().tool, Tool::Pencil);
    assert_eq!(app.pencil_tool_tap(), PencilMode::Art);
    assert_eq!(app.line_tool_tap(), LineMode::Character);
    assert_eq!(app.settings().tool, Tool::Line);
    assert_eq!(app.line_tool_tap(), LineMode::Art);
    assert_eq!(app.fill_tool_tap(), FillMode::Flood4);
    assert_eq!(app.settings().tool, Tool::Fill);
    assert_eq!(app.fill_tool_tap(), FillMode::Flood8);
    // The modes are kept while another tool is in use.
    assert_eq!(app.pencil_tool_tap(), PencilMode::Art);
}

#[test]
fn choosing_a_tool_settles_text_and_selection() {
    let mut app = new_app();
    app.apply_selection(0, 0, 4, 4);
    app.start_text_session(2, 2);
    app.type_text("ok");
    app.choose_tool(Tool::Oval);
    assert_eq!(app.selection(), None);
    assert_eq!(app.text_session(), None);
    assert_eq!(app.cell_look(2, 2).ch, 'o');
    assert!(!app.cell_look(2, 2).preview);
}

#[test]
fn toggles() {
    let mut app = new_app();
    assert!(!app.toggle_theme());
    assert!(app.toggle_theme());
    assert!(app.toggle_help_mode());
    assert!(!app.toggle_help_mode());
    assert_eq!(app.cycle_blend_mode(), BlendMode::Stamp);
    assert_eq!(app.cycle_blend_mode(), BlendMode::Overwrite);
    app.choose_brush('─');
    assert_eq!(app.settings().brush_char, '─');
}

#[test]
fn enabling_the_eye_shows_the_background() {
    let mut app = loaded();
    app.toggle_bg_visibility();
    app.enable_bg_eye();
    assert!(!app.bg_hidden());
    assert_eq!(app.settings().tool, Tool::Pencil);
}

#[test]
fn an_image_without_extent_changes_no_maps() {
    let mut app = new_app();
    app.process_bg_image(&[], 0, 5, (0, 0));
    assert_eq!(app.rebuild_background(), None);
    assert_eq!(app.settings().tool, Tool::BgMove);
    assert!(!app.accept_bg_move());
}

#[test]
fn loading_while_moving_returns_to_the_tool_from_before() {
    let mut app = new_app();
    app.choose_tool(Tool::Oval);
    app.enter_bg_move();
    let levels: Vec<u8> = (0..W * H).map(|i| (i % 256) as u8).collect();
    app.process_bg_image(&gray(&levels), W as u32, H as u32, (0, 0));
    assert_eq!(app.settings().tool, Tool::BgMove);
    app.cancel_bg_move();
    assert_eq!(app.settings().tool, Tool::Oval);
}
