//! Choosing tools and modes, and moving the background image.

use vstd::prelude::*;

use crate::app::{App, AppState, Settings};
use crate::asciiart::bitmaps;
use crate::background::{
    clamped_step, next_generation, BackgroundState, MAX_POP, MAX_TEXTURE,
};
use crate::grid::{COLS, ROWS};
use crate::modes::{AaCharset, BgOutlineMode, BlendMode, FillMode, LineMode, PencilMode, Tool};

verus! {

/// Whether a tool is chosen by a plain click. The others have buttons that do
/// more.
pub open spec fn is_plain(tool: Tool) -> bool {
    tool != Tool::Line && tool != Tool::Pencil && tool != Tool::Fill && tool != Tool::BgMove
}

/// Whether a tool is chosen by a plain click.
pub fn is_plain_tool(tool: Tool) -> (yes: bool)
    ensures
        yes == is_plain(tool),
{
    tool != Tool::Line && tool != Tool::Pencil && tool != Tool::Fill && tool != Tool::BgMove
}

/// The half-transparent veil over the picture: dark in the dark theme, bright in
/// the light one.
pub open spec fn veil_of(dark: bool) -> Seq<char> {
    if dark {
        "rgba(13,13,13,0.5)"@
    } else {
        "rgba(255,255,255,0.5)"@
    }
}

impl<L> AppState<L> {
    /// Another tool in use.
    pub open spec fn with_tool(self, tool: Tool) -> AppState<L> {
        AppState { settings: Settings { tool, ..self.settings }, ..self }
    }

    /// A tool chosen: text being typed is committed and the selection dropped.
    pub open spec fn tool_chosen(self, tool: Tool) -> AppState<L> {
        self.text_committed().deselected().with_tool(tool)
    }

    /// A tap on the pencil: chosen, or if it was in use already, its next mode.
    pub open spec fn pencil_tapped(self) -> AppState<L> {
        if self.settings.tool == Tool::Pencil {
            AppState {
                settings: Settings { pencil_mode: self.settings.pencil_mode.next(), ..self.settings },
                ..self
            }
        } else {
            self.tool_chosen(Tool::Pencil)
        }
    }

    /// A tap on the line tool: chosen, or if it was in use already, its next
    /// mode.
    pub open spec fn line_tapped(self) -> AppState<L> {
        if self.settings.tool == Tool::Line {
            AppState {
                settings: Settings { line_mode: self.settings.line_mode.next(), ..self.settings },
                ..self
            }
        } else {
            self.tool_chosen(Tool::Line)
        }
    }

    /// A tap on the fill tool: chosen, or if it was in use already, its next
    /// mode.
    pub open spec fn fill_tapped(self) -> AppState<L> {
        if self.settings.tool == Tool::Fill {
            AppState {
                settings: Settings { fill_mode: self.settings.fill_mode.next(), ..self.settings },
                ..self
            }
        } else {
            self.tool_chosen(Tool::Fill)
        }
    }

    /// Moving the background begun: the tool and the placement are remembered.
    pub open spec fn move_entered(self) -> AppState<L> {
        AppState {
            prev_tool: Some(self.settings.tool),
            bg: BackgroundState { saved_layout: Some(self.bg.layout), ..self.bg },
            ..self.with_tool(Tool::BgMove)
        }
    }

    /// The tool from before the background was moved, the pencil if there is
    /// none, in use again.
    pub open spec fn tool_restored(self) -> AppState<L> {
        AppState {
            prev_tool: None,
            ..self.with_tool(
                match self.prev_tool {
                    Some(tool) => tool,
                    None => Tool::Pencil,
                },
            )
        }
    }

    /// Moving the background ended with its new placement, for which edges are
    /// looked for anew.
    pub open spec fn move_accepted(self) -> AppState<L> {
        AppState {
            bg: BackgroundState { saved_layout: None, ..self.bg.reprocessed() },
            ..self.tool_restored()
        }
    }

    /// Moving the background ended with the placement from before.
    pub open spec fn move_cancelled(self) -> AppState<L> {
        AppState {
            bg: BackgroundState {
                layout: match self.bg.saved_layout {
                    Some(layout) => layout,
                    None => self.bg.layout,
                },
                saved_layout: None,
                ..self.bg
            },
            ..self.tool_restored()
        }
    }

    /// A tap on the button for moving the background.
    pub open spec fn move_tapped(self) -> AppState<L> {
        if self.settings.tool == Tool::BgMove {
            self.move_accepted()
        } else {
            self.text_committed().deselected().move_entered()
        }
    }

    /// The background shown. If it was being moved, that is over.
    pub open spec fn eye_enabled(self) -> AppState<L> {
        let s = if self.settings.tool == Tool::BgMove {
            self.move_accepted()
        } else {
            self
        };
        AppState { bg: BackgroundState { hidden: false, ..s.bg }, ..s }
    }

    /// A new image taken in and shown, and the user about to frame it.
    pub open spec fn image_loaded(self, rgba: Seq<u8>, width: u32, height: u32, layout: L) -> AppState<L> {
        AppState {
            bg: self.bg.loaded(rgba, width, height, layout),
            is_new_project: false,
            ..self
        }.eye_enabled().move_entered()
    }

    /// A pending zoom timer run out: edges are looked for anew, unless there was
    /// another zoom step since or the image is no longer being moved.
    pub open spec fn zoom_settled(self, generation: u32) -> AppState<L> {
        if self.settings.tool == Tool::BgMove && self.bg.zoom_generation == generation {
            AppState { bg: self.bg.reprocessed(), ..self }
        } else {
            self
        }
    }

    /// Whether there is an image to derive maps from.
    pub open spec fn has_pixels(self) -> bool {
        self.bg.raw is Some && self.bg.width > 0 && self.bg.height > 0
    }
}

impl<L: Copy> App<L> {
    /// Choose a tool. Text being typed is committed, the selection dropped.
    pub fn choose_tool(&mut self, tool: Tool)
        requires
            old(self)@.wf(),
        ensures
            final(self)@.wf(),
            final(self)@ == old(self)@.tool_chosen(tool),
    {
        self.commit_text_session();
        self.clear_selection();
        self.settings.tool = tool;
    }

    /// Choose the pencil, or its next mode. Returns the mode.
    pub fn pencil_tool_tap(&mut self) -> (mode: PencilMode)
        requires
            old(self)@.wf(),
        ensures
            final(self)@.wf(),
            final(self)@ == old(self)@.pencil_tapped(),
            mode == final(self)@.settings.pencil_mode,
    {
        if self.settings.tool == Tool::Pencil {
            self.settings.pencil_mode = self.settings.pencil_mode.cycle();
        } else {
            self.choose_tool(Tool::Pencil);
        }
        self.settings.pencil_mode
    }

    /// Choose the line tool, or its next mode. Returns the mode.
    pub fn line_tool_tap(&mut self) -> (mode: LineMode)
        requires
            old(self)@.wf(),
        ensures
            final(self)@.wf(),
            final(self)@ == old(self)@.line_tapped(),
            mode == final(self)@.settings.line_mode,
    {
        if self.settings.tool == Tool::Line {
            self.settings.line_mode = self.settings.line_mode.cycle();
        } else {
            self.choose_tool(Tool::Line);
        }
        self.settings.line_mode
    }

    /// Choose the fill tool, or its next mode. Returns the mode.
    pub fn fill_tool_tap(&mut self) -> (mode: FillMode)
        requires
            old(self)@.wf(),
        ensures
            final(self)@.wf(),
            final(self)@ == old(self)@.fill_tapped(),
            mode == final(self)@.settings.fill_mode,
    {
        if self.settings.tool == Tool::Fill {
            self.settings.fill_mode = self.settings.fill_mode.cycle();
        } else {
            self.choose_tool(Tool::Fill);
        }
        self.settings.fill_mode
    }

    /// Begin moving the background.
    pub fn enter_bg_move(&mut self)
        requires
            old(self)@.wf(),
            old(self)@.settings.tool != Tool::BgMove,
        ensures
            final(self)@.wf(),
            final(self)@ == old(self)@.move_entered(),
    {
        self.prev_tool = Some(self.settings.tool);
        self.bg.saved_layout = Some(self.bg.layout);
        self.settings.tool = Tool::BgMove;
    }

    /// Put the tool back that was in use before the background was moved.
    fn restore_tool(&mut self)
        ensures
            final(self)@ == old(self)@.tool_restored(),
    {
        self.settings.tool = match self.prev_tool {
            Some(tool) => tool,
            None => Tool::Pencil,
        };
        self.prev_tool = None;
    }

    /// End moving the background and keep its placement. Returns whether the
    /// image has to be shown anew.
    pub fn accept_bg_move(&mut self) -> (redraw: bool)
        requires
            old(self)@.wf(),
        ensures
            final(self)@.wf(),
            final(self)@ == old(self)@.move_accepted(),
            redraw == old(self)@.has_pixels(),
    {
        let redraw: bool = self.bg.reprocess_edges_for_scale();
        self.restore_tool();
        self.bg.saved_layout = None;
        assert(self@ =~= old(self)@.move_accepted());
        redraw
    }

    /// End moving the background and go back to the placement from before.
    pub fn cancel_bg_move(&mut self)
        requires
            old(self)@.wf(),
        ensures
            final(self)@.wf(),
            final(self)@ == old(self)@.move_cancelled(),
    {
        if let Some(layout) = self.bg.saved_layout {
            self.bg.layout = layout;
        }
        self.bg.saved_layout = None;
        self.restore_tool();
        assert(self@ =~= old(self)@.move_cancelled());
    }

    /// Begin moving the background, or end it and keep the placement. Returns
    /// whether the image has to be shown anew.
    pub fn bg_move_tool_tap(&mut self) -> (redraw: bool)
        requires
            old(self)@.wf(),
        ensures
            final(self)@.wf(),
            final(self)@ == old(self)@.move_tapped(),
            redraw == (old(self)@.settings.tool == Tool::BgMove && old(self)@.has_pixels()),
    {
        if self.settings.tool == Tool::BgMove {
            self.accept_bg_move()
        } else {
            self.commit_text_session();
            self.clear_selection();
            self.enter_bg_move();
            false
        }
    }

    /// Show the background. If it was being moved, that is over.
    pub fn enable_bg_eye(&mut self)
        requires
            old(self)@.wf(),
        ensures
            final(self)@.wf(),
            final(self)@ == old(self)@.eye_enabled(),
    {
        if self.settings.tool == Tool::BgMove {
            self.accept_bg_move();
        }
        self.bg.hidden = false;
    }

    /// Take in a new image from its RGBA pixels, placed as given, show it and
    /// let the user frame it.
    pub fn process_bg_image(&mut self, rgba: &[u8], width: u32, height: u32, layout: L)
        requires
            old(self)@.wf(),
            width <= i32::MAX,
            height <= i32::MAX,
            width * height <= rgba@.len() / 4,
        ensures
            final(self)@.wf(),
            final(self)@ == old(self)@.image_loaded(rgba@, width, height, layout),
    {
        self.bg.load_image(rgba, width, height, layout);
        self.is_new_project = false;
        assert(self@ =~= (AppState {
            bg: old(self)@.bg.loaded(rgba@, width, height, layout),
            is_new_project: false,
            ..old(self)@
        }));
        self.enable_bg_eye();
        self.enter_bg_move();
    }

    /// Note a zoom step and return its generation, for a timer to come back
    /// with.
    pub fn bump_zoom_debounce(&mut self) -> (generation: u32)
        requires
            old(self)@.wf(),
        ensures
            final(self)@.wf(),
            final(self)@ == (AppState {
                bg: BackgroundState {
                    zoom_generation: next_generation(old(self)@.bg.zoom_generation),
                    ..old(self)@.bg
                },
                ..old(self)@
            }),
            generation == final(self)@.bg.zoom_generation,
    {
        self.bg.bump_zoom_debounce()
    }

    /// A zoom timer has run out. Returns whether the image has to be shown anew.
    pub fn zoom_timer(&mut self, generation: u32) -> (redraw: bool)
        requires
            old(self)@.wf(),
        ensures
            final(self)@.wf(),
            final(self)@ == old(self)@.zoom_settled(generation),
            redraw == (old(self)@.settings.tool == Tool::BgMove && old(self)@.bg.zoom_generation == generation
                && old(self)@.has_pixels()),
    {
        if self.settings.tool == Tool::BgMove && self.bg.zoom_generation == generation {
            self.bg.reprocess_edges_for_scale()
        } else {
            false
        }
    }

    /// The pixels that show the background, if there is an image.
    pub fn rebuild_background(&self) -> (pixels: Option<Vec<u8>>)
        requires
            self@.wf(),
        ensures
            match pixels {
                Some(px) => self@.bg.pixels() == Some(px@),
                None => self@.bg.pixels() is None,
            },
    {
        self.bg.background_pixels()
    }

    /// Remember the address of the picture that is shown now and return the one
    /// it replaces.
    pub fn apply_bg_image(&mut self, url: String) -> (replaced: Option<String>)
        requires
            old(self)@.wf(),
        ensures
            final(self)@.wf(),
            final(self)@ == (AppState {
                bg: BackgroundState { url: Some(url@), ..old(self)@.bg },
                ..old(self)@
            }),
            match replaced {
                Some(old_url) => old(self)@.bg.url == Some(old_url@),
                None => old(self)@.bg.url is None,
            },
    {
        self.bg.apply_bg_image(url)
    }

    /// Place the image.
    pub fn set_layout(&mut self, layout: L)
        requires
            old(self)@.wf(),
        ensures
            final(self)@.wf(),
            final(self)@ == (AppState {
                bg: BackgroundState { layout, ..old(self)@.bg },
                ..old(self)@
            }),
    {
        self.bg.layout = layout;
    }

    /// Change the placement to go back to, if there is one.
    pub fn set_saved_layout(&mut self, layout: L)
        requires
            old(self)@.wf(),
        ensures
            final(self)@.wf(),
            final(self)@ == (AppState {
                bg: BackgroundState {
                    saved_layout: if old(self)@.bg.saved_layout is Some {
                        Some(layout)
                    } else {
                        None
                    },
                    ..old(self)@.bg
                },
                ..old(self)@
            }),
    {
        if self.bg.saved_layout.is_some() {
            self.bg.saved_layout = Some(layout);
        }
    }

    /// Set which image columns and rows lie under the canvas columns and rows,
    /// and the blur radius that suits the height of a cell.
    pub fn set_cell_mapping(
        &mut self,
        columns: Vec<Option<(usize, usize)>>,
        rows: Vec<Option<(usize, usize)>>,
        blur_radius: usize,
    )
        requires
            old(self)@.wf(),
            columns@.len() == COLS,
            rows@.len() == ROWS,
        ensures
            final(self)@.wf(),
            final(self)@ == (AppState {
                bg: BackgroundState {
                    columns: columns@,
                    rows: rows@,
                    blur_radius,
                    ..old(self)@.bg
                },
                ..old(self)@
            }),
    {
        self.bg.columns = columns;
        self.bg.rows = rows;
        self.bg.blur_radius = blur_radius;
    }

    /// Set the sprites that image patches are matched with.
    pub fn set_catalogs(&mut self, ascii7: Vec<Vec<u8>>, braille: Vec<Vec<u8>>)
        requires
            old(self)@.wf(),
            ascii7@.len() <= 224,
            braille@.len() <= u32::MAX - 0x2800,
        ensures
            final(self)@.wf(),
            final(self)@ == (AppState {
                bg: BackgroundState {
                    catalog_ascii7: bitmaps(ascii7@),
                    catalog_braille: bitmaps(braille@),
                    ..old(self)@.bg
                },
                ..old(self)@
            }),
    {
        self.bg.catalog_ascii7 = ascii7;
        self.bg.catalog_braille = braille;
    }

    /// Show or hide the background. Returns whether it is hidden now.
    pub fn toggle_bg_visibility(&mut self) -> (hidden: bool)
        requires
            old(self)@.wf(),
        ensures
            final(self)@.wf(),
            final(self)@ == (AppState {
                bg: BackgroundState { hidden: !old(self)@.bg.hidden, ..old(self)@.bg },
                ..old(self)@
            }),
            hidden == final(self)@.bg.hidden,
    {
        self.bg.hidden = !self.bg.hidden;
        self.bg.hidden
    }

    /// Go on to the next outline mode and return it.
    pub fn outline_mode_tap(&mut self) -> (mode: BgOutlineMode)
        requires
            old(self)@.wf(),
        ensures
            final(self)@.wf(),
            final(self)@ == (AppState {
                bg: BackgroundState { outline_mode: old(self)@.bg.outline_mode.next(), ..old(self)@.bg },
                ..old(self)@
            }),
            mode == final(self)@.bg.outline_mode,
    {
        self.bg.outline_mode = self.bg.outline_mode.cycle();
        self.bg.outline_mode
    }

    /// Turn the matching of characters on or off. Returns whether it is on.
    pub fn aa_mode_tap(&mut self) -> (on: bool)
        requires
            old(self)@.wf(),
        ensures
            final(self)@.wf(),
            final(self)@ == (AppState {
                bg: BackgroundState { aa_mode: !old(self)@.bg.aa_mode, ..old(self)@.bg },
                ..old(self)@
            }),
            on == final(self)@.bg.aa_mode,
    {
        self.bg.aa_mode = !self.bg.aa_mode;
        self.bg.aa_mode
    }

    /// Turn the matching of characters off.
    pub fn disable_aa(&mut self)
        requires
            old(self)@.wf(),
        ensures
            final(self)@.wf(),
            final(self)@ == (AppState {
                bg: BackgroundState { aa_mode: false, ..old(self)@.bg },
                ..old(self)@
            }),
    {
        self.bg.aa_mode = false;
    }

    /// Go on to the next character set and return it.
    pub fn cycle_charset(&mut self) -> (charset: AaCharset)
        requires
            old(self)@.wf(),
        ensures
            final(self)@.wf(),
            final(self)@ == (AppState {
                bg: BackgroundState { aa_charset: old(self)@.bg.aa_charset.next(), ..old(self)@.bg },
                ..old(self)@
            }),
            charset == final(self)@.bg.aa_charset,
    {
        self.bg.aa_charset = self.bg.aa_charset.cycle();
        self.bg.aa_charset
    }

    /// Change the texture step. Returns whether the image has to be shown anew.
    pub fn adjust_texture(&mut self, delta: i32) -> (redraw: bool)
        requires
            old(self)@.wf(),
        ensures
            final(self)@.wf(),
            ({
                let amount = clamped_step(old(self)@.bg.texture_amount, delta as int, MAX_TEXTURE);
                let bg = BackgroundState { texture_amount: amount, ..old(self)@.bg };
                let changed = amount != old(self)@.bg.texture_amount;
                &&& final(self)@ == (AppState {
                    bg: if changed { bg.rebuilt() } else { bg },
                    ..old(self)@
                })
                &&& redraw == (changed && old(self)@.has_pixels())
            }),
    {
        let amount: u32 = step(self.bg.texture_amount, delta, MAX_TEXTURE);
        if amount == self.bg.texture_amount {
            return false;
        }
        self.bg.texture_amount = amount;
        self.bg.rebuild_from_params()
    }

    /// Set the texture step to zero. Returns whether the image has to be shown
    /// anew.
    pub fn reset_texture(&mut self) -> (redraw: bool)
        requires
            old(self)@.wf(),
        ensures
            final(self)@.wf(),
            ({
                let bg = BackgroundState { texture_amount: 0, ..old(self)@.bg };
                let changed = old(self)@.bg.texture_amount != 0;
                &&& final(self)@ == (AppState {
                    bg: if changed { bg.rebuilt() } else { bg },
                    ..old(self)@
                })
                &&& redraw == (changed && old(self)@.has_pixels())
            }),
    {
        if self.bg.texture_amount == 0 {
            return false;
        }
        self.bg.texture_amount = 0;
        self.bg.rebuild_from_params()
    }

    /// Change the pop step. Returns whether the image has to be shown anew.
    pub fn adjust_pop(&mut self, delta: i32) -> (redraw: bool)
        requires
            old(self)@.wf(),
        ensures
            final(self)@.wf(),
            ({
                let amount = clamped_step(old(self)@.bg.pop_amount, delta as int, MAX_POP);
                let bg = BackgroundState { pop_amount: amount, ..old(self)@.bg };
                let changed = amount != old(self)@.bg.pop_amount;
                &&& final(self)@ == (AppState {
                    bg: if changed { bg.rebuilt() } else { bg },
                    ..old(self)@
                })
                &&& redraw == (changed && old(self)@.has_pixels())
            }),
    {
        let amount: u32 = step(self.bg.pop_amount, delta, MAX_POP);
        if amount == self.bg.pop_amount {
            return false;
        }
        self.bg.pop_amount = amount;
        self.bg.rebuild_from_params()
    }

    /// Set the pop step to zero. Returns whether the image has to be shown anew.
    pub fn reset_pop(&mut self) -> (redraw: bool)
        requires
            old(self)@.wf(),
        ensures
            final(self)@.wf(),
            ({
                let bg = BackgroundState { pop_amount: 0, ..old(self)@.bg };
                let changed = old(self)@.bg.pop_amount != 0;
                &&& final(self)@ == (AppState {
                    bg: if changed { bg.rebuilt() } else { bg },
                    ..old(self)@
                })
                &&& redraw == (changed && old(self)@.has_pixels())
            }),
    {
        if self.bg.pop_amount == 0 {
            return false;
        }
        self.bg.pop_amount = 0;
        self.bg.rebuild_from_params()
    }

    /// Choose the character to paint with.
    pub fn choose_brush(&mut self, ch: char)
        requires
            old(self)@.wf(),
        ensures
            final(self)@.wf(),
            final(self)@ == (AppState {
                settings: Settings { brush_char: ch, ..old(self)@.settings },
                ..old(self)@
            }),
    {
        self.settings.brush_char = ch;
    }

    /// Change between the dark and the light theme. Returns whether it is dark.
    pub fn toggle_theme(&mut self) -> (dark: bool)
        requires
            old(self)@.wf(),
        ensures
            final(self)@.wf(),
            final(self)@ == (AppState {
                settings: Settings { dark_mode: !old(self)@.settings.dark_mode, ..old(self)@.settings },
                ..old(self)@
            }),
            dark == final(self)@.settings.dark_mode,
    {
        self.settings.dark_mode = !self.settings.dark_mode;
        self.settings.dark_mode
    }

    /// Go on to the next blend mode and return it.
    pub fn cycle_blend_mode(&mut self) -> (mode: BlendMode)
        requires
            old(self)@.wf(),
        ensures
            final(self)@.wf(),
            final(self)@ == (AppState {
                settings: Settings {
                    blend_mode: old(self)@.settings.blend_mode.next(),
                    ..old(self)@.settings
                },
                ..old(self)@
            }),
            mode == final(self)@.settings.blend_mode,
    {
        self.settings.blend_mode = self.settings.blend_mode.cycle();
        self.settings.blend_mode
    }

    /// Let Shift count as held, or no longer. Returns whether it does.
    pub fn toggle_shift_lock(&mut self) -> (locked: bool)
        requires
            old(self)@.wf(),
        ensures
            final(self)@.wf(),
            final(self)@ == (AppState {
                settings: Settings {
                    shift_locked: !old(self)@.settings.shift_locked,
                    ..old(self)@.settings
                },
                ..old(self)@
            }),
            locked == final(self)@.settings.shift_locked,
    {
        self.settings.shift_locked = !self.settings.shift_locked;
        self.settings.shift_locked
    }

    /// Turn help on or off. Returns whether it is on.
    pub fn toggle_help_mode(&mut self) -> (on: bool)
        requires
            old(self)@.wf(),
        ensures
            final(self)@.wf(),
            final(self)@ == (AppState {
                settings: Settings { help_mode: !old(self)@.settings.help_mode, ..old(self)@.settings },
                ..old(self)@
            }),
            on == final(self)@.settings.help_mode,
    {
        self.settings.help_mode = !self.settings.help_mode;
        self.settings.help_mode
    }

    /// The placement of the image.
    pub fn layout(&self) -> (layout: L)
        ensures
            layout == self@.bg.layout,
    {
        self.bg.layout
    }

    /// The placement to go back to.
    pub fn saved_layout(&self) -> (layout: Option<L>)
        ensures
            layout == self@.bg.saved_layout,
    {
        self.bg.saved_layout
    }

    /// Width and height of the image in pixels; zero without an image.
    pub fn image_size(&self) -> (size: (u32, u32))
        ensures
            size == (self@.bg.width, self@.bg.height),
    {
        (self.bg.width, self.bg.height)
    }

    /// The address of the picture that is shown.
    pub fn bg_url(&self) -> (url: Option<&String>)
        ensures
            match url {
                Some(u) => self@.bg.url == Some(u@),
                None => self@.bg.url is None,
            },
    {
        self.bg.url.as_ref()
    }

    /// What is shown behind the canvas, if anything: the address of the picture
    /// and the veil over it, which suits the theme.
    pub fn backdrop(&self) -> (shown: Option<(&String, &'static str)>)
        ensures
            match shown {
                Some((url, veil)) => {
                    &&& !self@.bg.hidden
                    &&& self@.bg.url == Some(url@)
                    &&& veil@ == veil_of(self@.settings.dark_mode)
                },
                None => self@.bg.hidden || self@.bg.url is None,
            },
    {
        if self.bg.hidden {
            return None;
        }
        match self.bg.url.as_ref() {
            Some(url) => Some(
                (
                    url,
                    if self.settings.dark_mode {
                        "rgba(13,13,13,0.5)"
                    } else {
                        "rgba(255,255,255,0.5)"
                    },
                ),
            ),
            None => None,
        }
    }

    /// Whether the background is hidden.
    pub fn bg_hidden(&self) -> (hidden: bool)
        ensures
            hidden == self@.bg.hidden,
    {
        self.bg.hidden
    }

    /// The outline mode.
    pub fn outline_mode(&self) -> (mode: BgOutlineMode)
        ensures
            mode == self@.bg.outline_mode,
    {
        self.bg.outline_mode
    }

    /// Whether the matching of characters is on.
    pub fn aa_mode(&self) -> (on: bool)
        ensures
            on == self@.bg.aa_mode,
    {
        self.bg.aa_mode
    }

    /// The texture step and the pop step.
    pub fn sharpening(&self) -> (steps: (u32, u32))
        ensures
            steps == (self@.bg.texture_amount, self@.bg.pop_amount),
    {
        (self.bg.texture_amount, self.bg.pop_amount)
    }
}

/// `amount + delta`, brought into the range 0 to `max`.
fn step(amount: u32, delta: i32, max: u32) -> (stepped: u32)
    ensures
        stepped == clamped_step(amount, delta as int, max),
{
    let sum: i64 = amount as i64 + delta as i64;
    if sum < 0 {
        0
    } else if sum > max as i64 {
        max
    } else {
        sum as u32
    }
}

// ---------------------------------------------------------------------------
// Laws
// ---------------------------------------------------------------------------

/// Moving the image and cancelling brings back the tool and the placement,
/// whatever was done to the placement meanwhile; nothing else changes.
pub proof fn law_cancel_restores_placement<L>(s: AppState<L>, moved: L)
    requires
        s.wf(),
        s.prev_tool is None,
        s.bg.saved_layout is None,
    ensures
        ({
            let entered = s.move_entered();
            let dragged = AppState { bg: BackgroundState { layout: moved, ..entered.bg }, ..entered };
            dragged.move_cancelled() == s
        }),
{
}

/// Moving the image and accepting brings back the tool and keeps the new
/// placement.
pub proof fn law_accept_keeps_placement<L>(s: AppState<L>, moved: L)
    requires
        s.wf(),
    ensures
        ({
            let entered = s.move_entered();
            let dragged = AppState { bg: BackgroundState { layout: moved, ..entered.bg }, ..entered };
            &&& dragged.move_accepted().settings == s.settings
            &&& dragged.move_accepted().bg.layout == moved
            &&& dragged.move_accepted().bg.saved_layout is None
            &&& dragged.move_accepted().grid == s.grid
        }),
{
}

/// Moving the background is over once it is accepted or cancelled: the tool in
/// use is another one.
pub proof fn law_leaving_move_leaves_it<L>(s: AppState<L>)
    requires
        s.wf(),
    ensures
        s.move_accepted().settings.tool != Tool::BgMove,
        s.move_cancelled().settings.tool != Tool::BgMove,
        s.eye_enabled().settings.tool != Tool::BgMove,
{
}

/// After an image is loaded it is shown and being moved, its placement is the
/// one to go back to, and the tool to return to is the one in use before.
pub proof fn law_loading_enters_move<L>(s: AppState<L>, rgba: Seq<u8>, width: u32, height: u32, layout: L)
    requires
        s.wf(),
    ensures
        ({
            let t = s.image_loaded(rgba, width, height, layout);
            &&& t.settings.tool == Tool::BgMove
            &&& !t.bg.hidden
            &&& !t.is_new_project
            &&& t.bg.layout == layout
            &&& t.bg.saved_layout == Some(layout)
            &&& s.settings.tool != Tool::BgMove ==> t.prev_tool == Some(s.settings.tool)
            &&& s.settings.tool == Tool::BgMove && s.prev_tool is Some ==> t.prev_tool == s.prev_tool
            &&& t.grid == s.grid && t.undo == s.undo && t.redo == s.redo
        }),
{
}

/// Loading an image shows what is derived from it, remembers its placement to go
/// back to and ends a new project; the canvas and the settings but for the tool
/// stay.
pub proof fn law_loading_shows_image<L>(s: AppState<L>, rgba: Seq<u8>, width: u32, height: u32, layout: L)
    requires
        s.wf(),
        s.settings.tool != Tool::BgMove,
    ensures
        ({
            let t = s.image_loaded(rgba, width, height, layout);
            &&& t.bg == (BackgroundState {
                hidden: false,
                saved_layout: Some(layout),
                ..s.bg.loaded(rgba, width, height, layout)
            })
            &&& t == (AppState {
                bg: t.bg,
                is_new_project: false,
                prev_tool: Some(s.settings.tool),
                settings: Settings { tool: Tool::BgMove, ..s.settings },
                ..s
            })
        }),
{
}

/// Showing the background makes it visible and ends a move with the placement
/// that it has; it keeps the canvas.
pub proof fn law_eye_shows_background<L>(s: AppState<L>)
    requires
        s.wf(),
    ensures
        ({
            let t = s.eye_enabled();
            &&& !t.bg.hidden
            &&& t.bg.layout == s.bg.layout
            &&& t.grid == s.grid && t.undo == s.undo && t.redo == s.redo
            &&& s.settings.tool != Tool::BgMove ==> t == (AppState {
                bg: BackgroundState { hidden: false, ..s.bg },
                ..s
            })
            &&& s.settings.tool == Tool::BgMove ==> t.settings.tool == match s.prev_tool {
                Some(tool) => tool,
                None => Tool::Pencil,
            }
        }),
{
}

/// A zoom timer that nothing has overtaken looks for edges anew, as long as the
/// image is being moved; otherwise it does nothing.
pub proof fn law_zoom_timer<L>(s: AppState<L>, generation: u32)
    requires
        s.wf(),
    ensures
        s.settings.tool == Tool::BgMove && generation == s.bg.zoom_generation ==> s.zoom_settled(generation) == (
        AppState { bg: s.bg.reprocessed(), ..s }),
        s.settings.tool != Tool::BgMove || generation != s.bg.zoom_generation ==> s.zoom_settled(generation) == s,
{
}

/// A tap on the pencil, the line tool or the fill tool chooses it and keeps its
/// mode, or if it is in use already keeps it and changes its mode to the other
/// one. The modes of other tools stay.
pub proof fn law_taps_choose_or_cycle<L>(s: AppState<L>)
    requires
        s.wf(),
    ensures
        ({
            let t = s.pencil_tapped().settings;
            &&& t.tool == Tool::Pencil
            &&& (t.pencil_mode != s.settings.pencil_mode) == (s.settings.tool == Tool::Pencil)
            &&& t.line_mode == s.settings.line_mode && t.fill_mode == s.settings.fill_mode
        }),
        ({
            let t = s.line_tapped().settings;
            &&& t.tool == Tool::Line
            &&& (t.line_mode != s.settings.line_mode) == (s.settings.tool == Tool::Line)
            &&& t.pencil_mode == s.settings.pencil_mode && t.fill_mode == s.settings.fill_mode
        }),
        ({
            let t = s.fill_tapped().settings;
            &&& t.tool == Tool::Fill
            &&& (t.fill_mode != s.settings.fill_mode) == (s.settings.tool == Tool::Fill)
            &&& t.pencil_mode == s.settings.pencil_mode && t.line_mode == s.settings.line_mode
        }),
{
}

/// A tap on the move button begins to move the image, or if it is being moved
/// accepts its placement and goes back to the tool from before. Moving keeps the
/// canvas and its history, and remembers tool and placement.
pub proof fn law_move_button<L>(s: AppState<L>)
    requires
        s.wf(),
        s.text is None,
    ensures
        ({
            let t = s.move_tapped();
            &&& t.grid == s.grid && t.undo == s.undo && t.redo == s.redo
            &&& t.bg.layout == s.bg.layout
            &&& s.settings.tool != Tool::BgMove ==> {
                &&& t.settings.tool == Tool::BgMove
                &&& t.prev_tool == Some(s.settings.tool)
                &&& t.bg.saved_layout == Some(s.bg.layout)
                &&& t.selection is None
            }
            &&& s.settings.tool == Tool::BgMove ==> {
                &&& t.settings.tool == match s.prev_tool {
                    Some(tool) => tool,
                    None => Tool::Pencil,
                }
                &&& t.prev_tool is None
                &&& t.bg.saved_layout is None
            }
        }),
{
}

/// Accepting a move keeps the placement, forgets the one to go back to, looks for
/// edges anew at the size that a cell now has, and puts the tool from before back
/// in use.
pub proof fn law_accepting_a_move<L>(s: AppState<L>)
    requires
        s.wf(),
    ensures
        ({
            let t = s.move_accepted();
            &&& t.bg.layout == s.bg.layout
            &&& t.bg == (BackgroundState { saved_layout: None, ..s.bg.reprocessed() })
            &&& t.settings.tool == match s.prev_tool {
                Some(tool) => tool,
                None => Tool::Pencil,
            }
            &&& t.prev_tool is None
            &&& t.grid == s.grid && t.undo == s.undo && t.redo == s.redo
        }),
{
}

/// Cancelling a move puts the image back to the placement that is remembered, if
/// one is, and the tool from before back in use. Edges are not looked for anew.
pub proof fn law_cancelling_a_move<L>(s: AppState<L>)
    requires
        s.wf(),
    ensures
        ({
            let t = s.move_cancelled();
            &&& s.bg.saved_layout matches Some(layout) ==> t.bg.layout == layout
            &&& s.bg.saved_layout is None ==> t.bg.layout == s.bg.layout
            &&& t.bg.saved_layout is None
            &&& t.bg.maps == s.bg.maps
            &&& t.settings.tool == match s.prev_tool {
                Some(tool) => tool,
                None => Tool::Pencil,
            }
            &&& t.prev_tool is None
            &&& t.grid == s.grid && t.undo == s.undo && t.redo == s.redo
        }),
{
}

/// A zoom timer that another zoom step has overtaken does nothing.
pub proof fn law_stale_zoom_timer<L>(s: AppState<L>, generation: u32)
    requires
        s.wf(),
        generation == s.bg.zoom_generation,
    ensures
        ({
            let bumped = AppState {
                bg: BackgroundState { zoom_generation: next_generation(generation), ..s.bg },
                ..s
            };
            bumped.zoom_settled(generation) == bumped
        }),
{
}

/// Accepting the placement makes every pending zoom timer stale, as long as
/// there is an image.
pub proof fn law_accept_ends_zoom_timer<L>(s: AppState<L>)
    requires
        s.wf(),
        s.has_pixels(),
    ensures
        s.move_accepted().bg.zoom_generation != s.bg.zoom_generation,
{
}

/// Sharpening steps stay in their range, and a step in either direction is
/// undone by one in the other unless the end of the range was reached.
pub proof fn law_sharpening_range(amount: u32, delta: int, max: u32)
    requires
        amount <= max,
    ensures
        clamped_step(amount, delta, max) <= max,
        0 <= amount + delta <= max ==> clamped_step(clamped_step(amount, delta, max), -delta, max) == amount,
{
}

/// Choosing a tool leaves no text being typed and nothing selected, and does
/// not change what is shown of the text but for the cursor.
pub proof fn law_choosing_tool_settles<L>(s: AppState<L>, tool: Tool)
    requires
        s.wf(),
    ensures
        s.tool_chosen(tool).text is None,
        s.tool_chosen(tool).selection is None,
        s.tool_chosen(tool).settings.tool == tool,
        s.tool_chosen(tool).undo == s.undo,
        s.tool_chosen(tool).redo == s.redo,
        s.tool_chosen(tool).grid == s.text_committed().grid,
        s.tool_chosen(tool).bg == s.bg,
        s.tool_chosen(tool).settings == (Settings { tool, ..s.settings }),
{
}

} // verus!
