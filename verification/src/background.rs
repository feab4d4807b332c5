//! The background image: its tonal and edge maps, the way it is shown, and the
//! matching of characters to the parts of it that lie under the cells.

use vstd::prelude::*;

use crate::asciiart::{
    best_sprite_match, bitmaps, blurred_image, box_sum, column_sum, edge_image, enhance_edges, enhanced_image,
    is_nearest, law_score_of_itself, law_score_tells_apart, lemma_box_sum, lemma_nearest, lemma_nearest_unique,
    luminance_image, nearest, scale_blur, score, sobel_edges, stretch_luminance, stretched_image, texel,
    to_luminance, AA_EDGE_THRESHOLD, SPRITE_H, SPRITE_W,
};
use crate::grid::{on_canvas, BLANK, COLS, ROWS};
use crate::modes::{AaCharset, BgOutlineMode, Tool};

verus! {

/// Highest step of texture sharpening.
pub const MAX_TEXTURE: u32 = 5;

/// Highest step of pop sharpening.
pub const MAX_POP: u32 = 5;

// ---------------------------------------------------------------------------
// Model
// ---------------------------------------------------------------------------

/// What is derived from an image: its luminance, the negative of it, and its
/// enhanced edges.
#[verifier::ext_equal]
pub struct MapsState {
    pub luma: Seq<u8>,
    pub negative: Seq<u8>,
    pub edges: Seq<u8>,
}

/// The background. `L` is how the shell places the image; nothing here looks
/// inside it.
#[verifier::ext_equal]
pub struct BackgroundState<L> {
    /// Address of the picture that is shown.
    pub url: Option<Seq<char>>,
    /// Placement of the picture.
    pub layout: L,
    /// Placement to go back to when moving the picture is cancelled.
    pub saved_layout: Option<L>,
    /// Stretched luminance of the loaded image.
    pub raw: Option<Seq<u8>>,
    /// What was derived from it.
    pub maps: Option<MapsState>,
    pub width: u32,
    pub height: u32,
    /// Counts zoom steps; a pending timer is stale once it has moved on.
    pub zoom_generation: u32,
    pub texture_amount: u32,
    pub pop_amount: u32,
    pub hidden: bool,
    pub outline_mode: BgOutlineMode,
    /// Image columns under each canvas column, if any.
    pub columns: Seq<Option<(usize, usize)>>,
    /// Image rows under each canvas row, if any.
    pub rows: Seq<Option<(usize, usize)>>,
    /// Blur radius that suits the height of a cell in image pixels.
    pub blur_radius: usize,
    /// Whether painted characters are matched to the image.
    pub aa_mode: bool,
    pub aa_charset: AaCharset,
    pub catalog_ascii7: Seq<Seq<u8>>,
    pub catalog_braille: Seq<Seq<u8>>,
}

/// 255 minus every level.
pub open spec fn negated(levels: Seq<u8>) -> Seq<u8> {
    Seq::new(levels.len(), |i: int| (255 - levels[i]) as u8)
}

/// Levels as opaque grey RGBA pixels.
pub open spec fn gray_pixels(levels: Seq<u8>) -> Seq<u8> {
    Seq::new(
        4 * levels.len(),
        |i: int|
            if i % 4 == 3 {
                255u8
            } else {
                levels[i / 4]
            },
    )
}

/// The part of `span` on an image that is `limit` wide: never empty unless it
/// starts at the border, and `None` where it starts beyond it.
pub open spec fn cell_span(span: Option<(usize, usize)>, limit: int) -> Option<(int, int)> {
    match span {
        None => None,
        Some((lo, hi)) => if lo > limit {
            None
        } else if lo == limit {
            Some((lo as int, limit))
        } else if hi > limit {
            Some((lo as int, limit))
        } else if hi <= lo {
            Some((lo as int, lo + 1))
        } else {
            Some((lo as int, hi as int))
        },
    }
}

/// Where part `k` of `n` equal parts of lo to hi starts.
pub open spec fn part_start(lo: int, hi: int, k: int, n: int) -> int {
    lo + (k * (hi - lo)) / n
}

/// Where part `k` of `n` ends: after its start, but not beyond `limit`.
pub open spec fn part_end(lo: int, hi: int, k: int, n: int, limit: int) -> int {
    let end = part_start(lo, hi, k + 1, n);
    let start = part_start(lo, hi, k, n);
    if start >= limit {
        limit
    } else if end <= start {
        start + 1
    } else if end > limit {
        limit
    } else {
        end
    }
}

/// The mean of a box of pixels, rounded down; 0 of an empty box.
pub open spec fn box_mean(source: Seq<u8>, w: int, x0: int, x1: int, y0: int, y1: int) -> int {
    if x0 >= x1 || y0 >= y1 {
        0
    } else {
        box_sum(source, w, x0, x1, y0, y1) as int / ((x1 - x0) * (y1 - y0))
    }
}

/// The part of an image under a cell, reduced to the size of a sprite.
pub open spec fn patch_of(source: Seq<u8>, w: int, h: int, xs: (int, int), ys: (int, int)) -> Seq<u8> {
    Seq::new(
        (SPRITE_W * SPRITE_H) as nat,
        |i: int|
            {
                let sx = i % SPRITE_W as int;
                let sy = i / SPRITE_W as int;
                box_mean(
                    source,
                    w,
                    part_start(xs.0, xs.1, sx, SPRITE_W as int),
                    part_end(xs.0, xs.1, sx, SPRITE_W as int, w),
                    part_start(ys.0, ys.1, sy, SPRITE_H as int),
                    part_end(ys.0, ys.1, sy, SPRITE_H as int, h),
                ) as u8
            },
    )
}

/// Whether a patch has a pixel that rules out a space.
pub open spec fn has_strong_pixel(patch: Seq<u8>) -> bool {
    exists|i: int| 0 <= i < patch.len() && #[trigger] patch[i] >= AA_EDGE_THRESHOLD
}

/// The first catalogue entry that may be matched with a patch: the space, entry
/// 0, is left out where something strong is to be drawn.
pub open spec fn min_entry(patch: Seq<u8>) -> int {
    if has_strong_pixel(patch) {
        1
    } else {
        0
    }
}

/// The generation after this one.
pub open spec fn next_generation(generation: u32) -> u32 {
    if generation == u32::MAX {
        0
    } else {
        (generation + 1) as u32
    }
}

/// `amount + delta`, brought into the range 0 to `max`.
pub open spec fn clamped_step(amount: u32, delta: int, max: u32) -> u32 {
    if amount + delta < 0 {
        0
    } else if amount + delta > max {
        max
    } else {
        (amount + delta) as u32
    }
}

impl<L> BackgroundState<L> {
    /// The maps are as large as the image and can be shown as pixels, the
    /// negative is that of the luminance, the tables cover the canvas, and every
    /// catalogue entry has a character.
    pub open spec fn wf(self) -> bool {
        &&& self.width <= i32::MAX
        &&& self.height <= i32::MAX
        &&& match self.raw {
            Some(raw) => self.width * self.height <= raw.len() && 4 * raw.len() <= usize::MAX && (
            self.width > 0 && self.height > 0 ==> self.maps is Some),
            None => true,
        }
        &&& match self.maps {
            Some(maps) => {
                &&& self.raw is Some
                &&& self.width * self.height <= maps.luma.len()
                &&& maps.negative == negated(maps.luma)
                &&& self.width * self.height <= maps.edges.len()
                &&& 4 * maps.luma.len() <= usize::MAX
                &&& 4 * maps.edges.len() <= usize::MAX
            },
            None => true,
        }
        &&& self.texture_amount <= MAX_TEXTURE
        &&& self.pop_amount <= MAX_POP
        &&& self.columns.len() == COLS
        &&& self.rows.len() == ROWS
        &&& self.catalog_ascii7.len() <= 224
        &&& self.catalog_braille.len() <= u32::MAX - 0x2800
    }

    /// The catalogue of the character set in use.
    pub open spec fn catalog(self) -> Seq<Seq<u8>> {
        match self.aa_charset {
            AaCharset::Ascii7 => self.catalog_ascii7,
            AaCharset::Braille => self.catalog_braille,
        }
    }

    /// Whether there is something to match characters to, and the mode is on.
    pub open spec fn aa_active(self) -> bool {
        self.aa_mode && self.maps is Some && self.catalog().len() > 0
    }

    /// The map that characters are matched to, in which bright means drawn: the
    /// negative while the luminance is shown, the edges otherwise.
    pub open spec fn source(self) -> Seq<u8> {
        if self.outline_mode == BgOutlineMode::Original {
            self.maps->0.negative
        } else {
            self.maps->0.edges
        }
    }

    /// The character that fits the image under a cell best; a space off the
    /// image, the brush character without an image.
    pub open spec fn best_char(self, brush: char, col: int, row: int) -> char {
        if self.maps is None || self.catalog().len() == 0 {
            brush
        } else {
            match (
                cell_span(self.columns[col], self.width as int),
                cell_span(self.rows[row], self.height as int),
            ) {
                (Some(xs), Some(ys)) => {
                    let patch = patch_of(self.source(), self.width as int, self.height as int, xs, ys);
                    self.aa_charset.entry(nearest(patch, self.catalog(), min_entry(patch)))
                },
                _ => BLANK,
            }
        }
    }

    /// The character that a tool puts into a cell.
    pub open spec fn stamp(self, tool: Tool, brush: char, col: int, row: int) -> char {
        if tool == Tool::Eraser {
            BLANK
        } else if self.aa_active() {
            self.best_char(brush, col, row)
        } else {
            brush
        }
    }

    /// The background with its maps derived anew from the raw luminance.
    pub open spec fn rebuilt(self) -> BackgroundState<L> {
        if self.raw is None || self.width == 0 || self.height == 0 {
            self
        } else {
            let raw = self.raw->0;
            BackgroundState {
                maps: Some(
                    MapsState {
                        luma: raw,
                        negative: negated(raw),
                        edges: enhanced_image(edge_image(raw, self.width as int, self.height as int)),
                    },
                ),
                ..self
            }
        }
    }

    /// The radius that the image is blurred with before edges are looked for.
    pub open spec fn radius(self) -> int {
        if self.blur_radius == 0 {
            1
        } else {
            self.blur_radius as int
        }
    }

    /// The background with its edges looked for at the scale of a cell.
    pub open spec fn reprocessed(self) -> BackgroundState<L> {
        if self.raw is None || self.width == 0 || self.height == 0 {
            self
        } else {
            let (w, h) = (self.width as int, self.height as int);
            BackgroundState {
                zoom_generation: next_generation(self.zoom_generation),
                maps: Some(
                    MapsState {
                        edges: enhanced_image(
                            edge_image(blurred_image(self.raw->0, w, h, self.radius()), w, h),
                        ),
                        ..self.maps->0
                    },
                ),
                ..self
            }
        }
    }

    /// The background with a new image in place of the old one.
    pub open spec fn loaded(self, rgba: Seq<u8>, width: u32, height: u32, layout: L) -> BackgroundState<L> {
        BackgroundState {
            raw: Some(stretched_image(luminance_image(rgba))),
            width,
            height,
            layout,
            ..self
        }.rebuilt()
    }

    /// The pixels that show the image in the outline mode, if there is an image.
    pub open spec fn pixels(self) -> Option<Seq<u8>> {
        if self.maps is None || self.width == 0 || self.height == 0 {
            None
        } else {
            Some(
                gray_pixels(
                    match self.outline_mode {
                        BgOutlineMode::Original => self.maps->0.luma,
                        BgOutlineMode::WhiteOnBlack => self.maps->0.edges,
                        BgOutlineMode::BlackOnWhite => negated(self.maps->0.edges),
                    },
                ),
            )
        }
    }
}

// ---------------------------------------------------------------------------
// Implementation
// ---------------------------------------------------------------------------

/// What is derived from an image.
pub struct Maps {
    pub(crate) luma: Vec<u8>,
    pub(crate) negative: Vec<u8>,
    pub(crate) edges: Vec<u8>,
}

impl Maps {
    /// The maps as sequences.
    pub open(crate) spec fn view(&self) -> MapsState {
        MapsState { luma: self.luma@, negative: self.negative@, edges: self.edges@ }
    }
}

/// The background image and everything that depends on it.
pub struct Background<L> {
    pub(crate) url: Option<String>,
    pub(crate) layout: L,
    pub(crate) saved_layout: Option<L>,
    pub(crate) raw: Option<Vec<u8>>,
    pub(crate) maps: Option<Maps>,
    pub(crate) width: u32,
    pub(crate) height: u32,
    pub(crate) zoom_generation: u32,
    pub(crate) texture_amount: u32,
    pub(crate) pop_amount: u32,
    pub(crate) hidden: bool,
    pub(crate) outline_mode: BgOutlineMode,
    pub(crate) columns: Vec<Option<(usize, usize)>>,
    pub(crate) rows: Vec<Option<(usize, usize)>>,
    pub(crate) blur_radius: usize,
    pub(crate) aa_mode: bool,
    pub(crate) aa_charset: AaCharset,
    pub(crate) catalog_ascii7: Vec<Vec<u8>>,
    pub(crate) catalog_braille: Vec<Vec<u8>>,
}

/// 255 minus every level.
fn negate(levels: &Vec<u8>) -> (out: Vec<u8>)
    ensures
        out@ == negated(levels@),
{
    let mut out: Vec<u8> = Vec::with_capacity(levels.len());
    let mut i: usize = 0;
    while i < levels.len()
        invariant
            0 <= i <= levels@.len(),
            out@ == negated(levels@).take(i as int),
        decreases levels@.len() - i,
    {
        out.push(255 - levels[i]);
        i = i + 1;
        assert(out@ =~= negated(levels@).take(i as int));
    }
    assert(out@ =~= negated(levels@));
    out
}

/// Levels as opaque grey RGBA pixels.
fn to_gray_pixels(levels: &Vec<u8>) -> (out: Vec<u8>)
    requires
        4 * levels@.len() <= usize::MAX,
    ensures
        out@ == gray_pixels(levels@),
{
    let mut out: Vec<u8> = Vec::with_capacity(4 * levels.len());
    let mut i: usize = 0;
    while i < levels.len()
        invariant
            0 <= i <= levels@.len(),
            4 * levels@.len() <= usize::MAX,
            out@ == gray_pixels(levels@).take(4 * i),
        decreases levels@.len() - i,
    {
        let v: u8 = levels[i];
        out.push(v);
        out.push(v);
        out.push(v);
        out.push(255);
        i = i + 1;
        assert(out@ =~= gray_pixels(levels@).take(4 * i));
    }
    assert(out@ =~= gray_pixels(levels@));
    out
}

/// The part of `span` on an image that is `limit` wide.
fn span_on_image(span: Option<(usize, usize)>, limit: usize) -> (part: Option<(usize, usize)>)
    ensures
        match part {
            Some((lo, hi)) => cell_span(span, limit as int) == Some((lo as int, hi as int)) && lo <= hi <= limit,
            None => cell_span(span, limit as int) is None,
        },
{
    match span {
        None => None,
        Some((lo, hi)) => if lo > limit {
            None
        } else if lo == limit || hi > limit {
            Some((lo, limit))
        } else if hi <= lo {
            Some((lo, lo + 1))
        } else {
            Some((lo, hi))
        },
    }
}

/// Where part `k` of `n` starts.
fn start_of_part(lo: usize, hi: usize, k: usize, n: usize) -> (start: usize)
    requires
        lo <= hi <= i32::MAX,
        k <= n,
        0 < n <= 12,
    ensures
        start == part_start(lo as int, hi as int, k as int, n as int),
        lo <= start <= hi,
{
    let span: u64 = (hi - lo) as u64;
    assert(k * span <= n * span && 0 <= k * span && n * span <= 12 * 0x7fff_ffff) by (nonlinear_arith)
        requires
            0 <= k <= n <= 12,
            0 <= span <= 0x7fff_ffff,
    ;
    let t: u64 = k as u64 * span;
    assert(0 <= t / (n as u64) <= span) by {
        vstd::arithmetic::div_mod::lemma_fundamental_div_mod(t as int, n as int);
        assert(t / (n as u64) <= span) by (nonlinear_arith)
            requires
                t == n * (t / (n as u64)) + t % (n as u64),
                t % (n as u64) >= 0,
                t <= n * span,
                n > 0,
        ;
    }
    lo + (t / n as u64) as usize
}

/// Where part `k` of `n` ends.
fn end_of_part(lo: usize, hi: usize, k: usize, n: usize, limit: usize) -> (end: usize)
    requires
        lo <= hi <= limit <= i32::MAX,
        k < n,
        0 < n <= 12,
    ensures
        end == part_end(lo as int, hi as int, k as int, n as int, limit as int),
        end <= limit,
{
    let start: usize = start_of_part(lo, hi, k, n);
    let end: usize = start_of_part(lo, hi, k + 1, n);
    if start >= limit {
        limit
    } else if end <= start {
        start + 1
    } else {
        end
    }
}

/// The mean of a box of pixels, rounded down; 0 of an empty box.
fn mean_of_box(source: &Vec<u8>, w: usize, h: usize, x0: usize, x1: usize, y0: usize, y1: usize) -> (mean: u8)
    requires
        w <= i32::MAX,
        h <= i32::MAX,
        w * h <= source@.len(),
        x1 <= w,
        y1 <= h,
    ensures
        mean == box_mean(source@, w as int, x0 as int, x1 as int, y0 as int, y1 as int),
{
    if x0 >= x1 || y0 >= y1 {
        return 0;
    }
    let mut sum: u128 = 0;
    let mut x: usize = x0;
    while x < x1
        invariant
            x0 <= x <= x1 <= w <= i32::MAX,
            y0 < y1 <= h <= i32::MAX,
            w * h <= source@.len(),
            sum == box_sum(source@, w as int, x0 as int, x as int, y0 as int, y1 as int),
        decreases x1 - x,
    {
        proof {
            lemma_box_sum(source@, w as int, x0 as int, x as int, y0 as int, y1 as int);
            assert((x - x0) * (y1 - y0) <= 0x7fff_ffff * 0x7fff_ffff) by (nonlinear_arith)
                requires
                    0 <= x - x0 <= 0x7fff_ffff,
                    0 <= y1 - y0 <= 0x7fff_ffff,
            ;
        }
        let column: u64 = sum_of_column(source, w, h, x, y0, y1);
        sum = sum + column as u128;
        x = x + 1;
    }
    assert(0 < (x1 - x0) * (y1 - y0) <= 0x7fff_ffff * 0x7fff_ffff) by (nonlinear_arith)
        requires
            0 < x1 - x0 <= 0x7fff_ffff,
            0 < y1 - y0 <= 0x7fff_ffff,
    ;
    let count: u128 = (x1 - x0) as u128 * (y1 - y0) as u128;
    proof {
        lemma_box_sum(source@, w as int, x0 as int, x1 as int, y0 as int, y1 as int);
        vstd::arithmetic::div_mod::lemma_fundamental_div_mod(sum as int, count as int);
        assert(0 <= sum / count <= 255) by (nonlinear_arith)
            requires
                sum == count * (sum / count) + sum % count,
                sum % count >= 0,
                sum <= 255 * count,
                count > 0,
        ;
    }
    (sum / count) as u8
}

/// The sum of part of a column.
fn sum_of_column(source: &Vec<u8>, w: usize, h: usize, x: usize, y0: usize, y1: usize) -> (sum: u64)
    requires
        w <= i32::MAX,
        x < w,
        y0 <= y1 <= h <= i32::MAX,
        w * h <= source@.len(),
    ensures
        sum == column_sum(source@, w as int, x as int, y0 as int, y1 as int),
        sum <= 255 * (y1 - y0),
{
    let len: usize = source.len();
    let mut sum: u64 = 0;
    let mut y: usize = y0;
    while y < y1
        invariant
            w <= i32::MAX,
            x < w,
            y0 <= y <= y1 <= h <= i32::MAX,
            w * h <= source@.len(),
            len == source@.len(),
            sum == column_sum(source@, w as int, x as int, y0 as int, y as int),
            sum <= 255 * (y - y0),
        decreases y1 - y,
    {
        assert(0 <= y * w && y * w + x < w * h) by (nonlinear_arith)
            requires
                0 <= y < h,
                0 <= x < w,
        ;
        sum = sum + source[y * w + x] as u64;
        y = y + 1;
    }
    sum
}

/// The part of an image under a cell, reduced to the size of a sprite.
fn sample_patch(
    source: &Vec<u8>,
    w: usize,
    h: usize,
    xs: (usize, usize),
    ys: (usize, usize),
) -> (patch: Vec<u8>)
    requires
        w <= i32::MAX,
        h <= i32::MAX,
        w * h <= source@.len(),
        xs.0 <= xs.1 <= w,
        ys.0 <= ys.1 <= h,
    ensures
        patch@ == patch_of(
            source@,
            w as int,
            h as int,
            (xs.0 as int, xs.1 as int),
            (ys.0 as int, ys.1 as int),
        ),
{
    let ghost goal = patch_of(
        source@,
        w as int,
        h as int,
        (xs.0 as int, xs.1 as int),
        (ys.0 as int, ys.1 as int),
    );
    let mut patch: Vec<u8> = Vec::with_capacity(84);
    let mut i: usize = 0;
    while i < 84
        invariant
            0 <= i <= 84,
            w <= i32::MAX,
            h <= i32::MAX,
            w * h <= source@.len(),
            xs.0 <= xs.1 <= w,
            ys.0 <= ys.1 <= h,
            goal == patch_of(
                source@,
                w as int,
                h as int,
                (xs.0 as int, xs.1 as int),
                (ys.0 as int, ys.1 as int),
            ),
            patch@ == goal.take(i as int),
        decreases 84 - i,
    {
        let sx: usize = i % 7;
        let sy: usize = i / 7;
        let x0: usize = start_of_part(xs.0, xs.1, sx, 7);
        let x1: usize = end_of_part(xs.0, xs.1, sx, 7, w);
        let y0: usize = start_of_part(ys.0, ys.1, sy, 12);
        let y1: usize = end_of_part(ys.0, ys.1, sy, 12, h);
        let mean: u8 = mean_of_box(source, w, h, x0, x1, y0, y1);
        assert(goal[i as int] == mean);
        patch.push(mean);
        i = i + 1;
        assert(patch@ =~= goal.take(i as int));
    }
    assert(patch@ =~= goal);
    patch
}

/// Whether a patch has a pixel that rules out a space.
fn strong_pixel(patch: &Vec<u8>) -> (yes: bool)
    ensures
        yes == has_strong_pixel(patch@),
{
    let mut i: usize = 0;
    while i < patch.len()
        invariant
            0 <= i <= patch@.len(),
            forall|k: int| 0 <= k < i ==> #[trigger] patch@[k] < AA_EDGE_THRESHOLD,
        decreases patch@.len() - i,
    {
        if patch[i] >= AA_EDGE_THRESHOLD {
            return true;
        }
        i = i + 1;
    }
    false
}

impl<L: Copy> Background<L> {
    /// The background as plain mathematical values.
    pub open(crate) spec fn view(&self) -> BackgroundState<L> {
        BackgroundState {
            url: match self.url {
                Some(url) => Some(url@),
                None => None,
            },
            layout: self.layout,
            saved_layout: self.saved_layout,
            raw: match self.raw {
                Some(raw) => Some(raw@),
                None => None,
            },
            maps: match self.maps {
                Some(maps) => Some(maps@),
                None => None,
            },
            width: self.width,
            height: self.height,
            zoom_generation: self.zoom_generation,
            texture_amount: self.texture_amount,
            pop_amount: self.pop_amount,
            hidden: self.hidden,
            outline_mode: self.outline_mode,
            columns: self.columns@,
            rows: self.rows@,
            blur_radius: self.blur_radius,
            aa_mode: self.aa_mode,
            aa_charset: self.aa_charset,
            catalog_ascii7: bitmaps(self.catalog_ascii7@),
            catalog_braille: bitmaps(self.catalog_braille@),
        }
    }

    /// No image, placed as given.
    pub fn new(layout: L) -> (bg: Background<L>)
        ensures
            bg@.wf(),
            bg@ == (BackgroundState {
                url: None,
                layout,
                saved_layout: None,
                raw: None,
                maps: None,
                width: 0,
                height: 0,
                zoom_generation: 0,
                texture_amount: 0,
                pop_amount: 0,
                hidden: false,
                outline_mode: BgOutlineMode::Original,
                columns: Seq::new(COLS as nat, |i: int| None),
                rows: Seq::new(ROWS as nat, |i: int| None),
                blur_radius: 0,
                aa_mode: false,
                aa_charset: AaCharset::Ascii7,
                catalog_ascii7: Seq::empty(),
                catalog_braille: Seq::empty(),
            }),
    {
        let bg = Background {
            url: None,
            layout,
            saved_layout: None,
            raw: None,
            maps: None,
            width: 0,
            height: 0,
            zoom_generation: 0,
            texture_amount: 0,
            pop_amount: 0,
            hidden: false,
            outline_mode: BgOutlineMode::Original,
            columns: vec![None; COLS],
            rows: vec![None; ROWS],
            blur_radius: 0,
            aa_mode: false,
            aa_charset: AaCharset::Ascii7,
            catalog_ascii7: Vec::new(),
            catalog_braille: Vec::new(),
        };
        assert(bg@.columns =~= Seq::new(COLS as nat, |i: int| None));
        assert(bg@.rows =~= Seq::new(ROWS as nat, |i: int| None));
        assert(bg@.catalog_ascii7 =~= Seq::empty());
        assert(bg@.catalog_braille =~= Seq::empty());
        bg
    }

    /// The catalogue of the character set in use.
    pub fn active_catalog(&self) -> (catalog: &Vec<Vec<u8>>)
        ensures
            bitmaps(catalog@) == self@.catalog(),
    {
        match self.aa_charset {
            AaCharset::Ascii7 => &self.catalog_ascii7,
            AaCharset::Braille => &self.catalog_braille,
        }
    }

    /// The character that fits the image under a cell best.
    pub fn compute_best_char(&self, brush: char, col: usize, row: usize) -> (ch: char)
        requires
            self@.wf(),
            on_canvas(col as int, row as int),
        ensures
            ch == self@.best_char(brush, col as int, row as int),
    {
        let catalog: &Vec<Vec<u8>> = self.active_catalog();
        let maps: &Maps = match self.maps.as_ref() {
            Some(maps) => maps,
            None => return brush,
        };
        if catalog.len() == 0 {
            return brush;
        }
        let w: usize = self.width as usize;
        let h: usize = self.height as usize;
        match (span_on_image(self.columns[col], w), span_on_image(self.rows[row], h)) {
            (Some(xs), Some(ys)) => {
                let source: &Vec<u8> = if self.outline_mode == BgOutlineMode::Original {
                    &maps.negative
                } else {
                    &maps.edges
                };
                let patch: Vec<u8> = sample_patch(source, w, h, xs, ys);
                let min_idx: usize = if strong_pixel(&patch) { 1 } else { 0 };
                let idx: usize = best_sprite_match(patch.as_slice(), catalog.as_slice(), min_idx);
                assert(self@.source() == source@);
                assert(idx < catalog@.len());
                assert(self.aa_charset.has_entry(idx as int));
                self.aa_charset.char_from_idx(idx)
            },
            _ => BLANK,
        }
    }

    /// Whether painted characters are matched to the image.
    pub fn aa_active(&self) -> (yes: bool)
        ensures
            yes == self@.aa_active(),
    {
        self.aa_mode && self.maps.is_some() && self.active_catalog().len() > 0
    }

    /// The character that a tool puts into a cell.
    pub fn stamp_char(&self, tool: Tool, brush: char, col: usize, row: usize) -> (ch: char)
        requires
            self@.wf(),
            on_canvas(col as int, row as int),
        ensures
            ch == self@.stamp(tool, brush, col as int, row as int),
    {
        if tool == Tool::Eraser {
            BLANK
        } else if self.aa_active() {
            self.compute_best_char(brush, col, row)
        } else {
            brush
        }
    }

    /// Derive the maps anew from the raw luminance. Returns whether there was an
    /// image to do so with.
    pub fn rebuild_from_params(&mut self) -> (done: bool)
        requires
            old(self)@.wf(),
        ensures
            final(self)@.wf(),
            final(self)@ == old(self)@.rebuilt(),
            done == (old(self)@.raw is Some && old(self)@.width > 0 && old(self)@.height > 0),
    {
        let w: u32 = self.width;
        let h: u32 = self.height;
        if w == 0 || h == 0 {
            return false;
        }
        if self.raw.is_none() {
            return false;
        }
        self.rebuild_maps();
        true
    }

    /// Derive the maps from the raw luminance.
    fn rebuild_maps(&mut self)
        requires
            old(self)@.raw is Some,
            0 < old(self)@.width <= i32::MAX,
            0 < old(self)@.height <= i32::MAX,
            old(self)@.width * old(self)@.height <= old(self)@.raw->0.len(),
        ensures
            final(self)@ == old(self)@.rebuilt(),
    {
        let w: u32 = self.width;
        let h: u32 = self.height;
        if let Some(raw) = self.raw.as_ref() {
            assert(0 < w * h) by (nonlinear_arith)
                requires
                    0 < w,
                    0 < h,
            ;
            let luma: Vec<u8> = raw.clone();
            assert(luma@ =~= raw@);
            let negative: Vec<u8> = negate(raw);
            let mut edges: Vec<u8> = sobel_edges(raw.as_slice(), w, h);
            enhance_edges(edges.as_mut_slice());
            self.maps = Some(Maps { luma, negative, edges });
        }
        assert(self@ =~= old(self)@.rebuilt());
    }

    /// Look for edges anew, after a blur that suits the size of a cell. Returns
    /// whether there was an image to do so with.
    pub fn reprocess_edges_for_scale(&mut self) -> (done: bool)
        requires
            old(self)@.wf(),
        ensures
            final(self)@.wf(),
            final(self)@ == old(self)@.reprocessed(),
            done == (old(self)@.raw is Some && old(self)@.width > 0 && old(self)@.height > 0),
    {
        let w: u32 = self.width;
        let h: u32 = self.height;
        if w == 0 || h == 0 {
            return false;
        }
        let raw: &Vec<u8> = match self.raw.as_ref() {
            Some(raw) => raw,
            None => return false,
        };
        assert(0 < w * h) by (nonlinear_arith)
            requires
                0 < w,
                0 < h,
        ;
        let radius: usize = if self.blur_radius == 0 { 1 } else { self.blur_radius };
        let blurred: Vec<u8> = scale_blur(raw.as_slice(), w, h, radius);
        let mut edges: Vec<u8> = sobel_edges(blurred.as_slice(), w, h);
        enhance_edges(edges.as_mut_slice());
        self.bump_zoom_debounce();
        if let Some(maps) = self.maps.take() {
            self.maps = Some(Maps { luma: maps.luma, negative: maps.negative, edges });
        }
        assert(self@ =~= old(self)@.reprocessed());
        true
    }

    /// Move on to the next zoom generation and return it.
    pub fn bump_zoom_debounce(&mut self) -> (generation: u32)
        ensures
            final(self)@ == (BackgroundState {
                zoom_generation: next_generation(old(self)@.zoom_generation),
                ..old(self)@
            }),
            generation == final(self)@.zoom_generation,
    {
        self.zoom_generation = if self.zoom_generation == u32::MAX { 0 } else { self.zoom_generation + 1 };
        self.zoom_generation
    }

    /// Take in a new image from its RGBA pixels: convert it to luminance, stretch
    /// it and derive the maps.
    pub fn load_image(&mut self, rgba: &[u8], width: u32, height: u32, layout: L)
        requires
            old(self)@.wf(),
            width <= i32::MAX,
            height <= i32::MAX,
            width * height <= rgba@.len() / 4,
        ensures
            final(self)@.wf(),
            final(self)@ == old(self)@.loaded(rgba@, width, height, layout),
    {
        let len: usize = rgba.len();
        let mut luma: Vec<u8> = to_luminance(rgba);
        stretch_luminance(luma.as_mut_slice());
        self.raw = Some(luma);
        self.width = width;
        self.height = height;
        self.layout = layout;
        let ghost half = BackgroundState {
            raw: Some(stretched_image(luminance_image(rgba@))),
            width,
            height,
            layout,
            ..old(self)@
        };
        assert(self@ =~= half);
        if width == 0 || height == 0 {
            assert(width * height == 0) by (nonlinear_arith)
                requires
                    width == 0 || height == 0,
            ;
            return;
        }
        self.rebuild_maps();
        assert(self@ =~= half.rebuilt());
    }

    /// Remember the address of the picture and return the one it replaces.
    pub fn apply_bg_image(&mut self, url: String) -> (replaced: Option<String>)
        ensures
            final(self)@ == (BackgroundState { url: Some(url@), ..old(self)@ }),
            match replaced {
                Some(old_url) => old(self)@.url == Some(old_url@),
                None => old(self)@.url is None,
            },
    {
        let replaced: Option<String> = self.url.take();
        self.url = Some(url);
        replaced
    }

    /// The pixels that show the image in the outline mode, if there is an image.
    pub fn background_pixels(&self) -> (pixels: Option<Vec<u8>>)
        requires
            self@.wf(),
        ensures
            match pixels {
                Some(px) => self@.pixels() == Some(px@),
                None => self@.pixels() is None,
            },
    {
        if self.width == 0 || self.height == 0 {
            return None;
        }
        match self.maps.as_ref() {
            None => None,
            Some(maps) => match self.outline_mode {
                BgOutlineMode::Original => Some(to_gray_pixels(&maps.luma)),
                BgOutlineMode::WhiteOnBlack => Some(to_gray_pixels(&maps.edges)),
                BgOutlineMode::BlackOnWhite => {
                    let inverted: Vec<u8> = negate(&maps.edges);
                    Some(to_gray_pixels(&inverted))
                },
            },
        }
    }
}

// ---------------------------------------------------------------------------
// Laws
// ---------------------------------------------------------------------------

/// With the standard catalogue of the 95 printable ASCII characters, matching
/// draws printable ASCII.
pub proof fn law_matched_ascii<L>(bg: BackgroundState<L>, brush: char, col: int, row: int)
    requires
        bg.wf(),
        bg.maps is Some,
        bg.aa_charset == AaCharset::Ascii7,
        bg.catalog_ascii7.len() == 95,
        on_canvas(col, row),
    ensures
        ' ' <= bg.best_char(brush, col, row) <= '~',
{
    lemma_matched(bg, brush, col, row);
}

/// With the standard catalogue of the 256 braille patterns, matching draws
/// braille patterns, and a space off the image.
pub proof fn law_matched_braille<L>(bg: BackgroundState<L>, brush: char, col: int, row: int)
    requires
        bg.wf(),
        bg.maps is Some,
        bg.aa_charset == AaCharset::Braille,
        bg.catalog_braille.len() == 256,
        on_canvas(col, row),
    ensures
        '\u{2800}' <= bg.best_char(brush, col, row) <= '\u{28ff}' || bg.best_char(brush, col, row) == BLANK,
{
    lemma_matched(bg, brush, col, row);
}

/// A match is an entry of the catalogue, or a blank off the image.
proof fn lemma_matched<L>(bg: BackgroundState<L>, brush: char, col: int, row: int)
    requires
        bg.wf(),
        bg.maps is Some,
        bg.catalog().len() > 0,
        on_canvas(col, row),
    ensures
        bg.best_char(brush, col, row) == BLANK || exists|i: int|
            0 <= i < bg.catalog().len() && bg.best_char(brush, col, row) == #[trigger] bg.aa_charset.entry(i),
{
    match (
        cell_span(bg.columns[col], bg.width as int),
        cell_span(bg.rows[row], bg.height as int),
    ) {
        (Some(xs), Some(ys)) => {
            let patch = patch_of(bg.source(), bg.width as int, bg.height as int, xs, ys);
            lemma_nearest(patch, bg.catalog(), min_entry(patch));
            let i = nearest(patch, bg.catalog(), min_entry(patch));
            assert(bg.best_char(brush, col, row) == bg.aa_charset.entry(i));
        },
        _ => {},
    }
}

/// Where the image has something strong under a cell, the space is not drawn,
/// as long as there is something else to draw.
pub proof fn law_strong_cell_is_drawn(patch: Seq<u8>, sprites: Seq<Seq<u8>>)
    requires
        has_strong_pixel(patch),
        sprites.len() > 1,
    ensures
        nearest(patch, sprites, min_entry(patch)) >= 1,
{
    lemma_nearest(patch, sprites, min_entry(patch));
}

/// While the luminance is shown, characters are matched to its negative, the
/// box means of 255 minus the luminance under the cell.
pub proof fn law_original_matches_negative<L>(
    bg: BackgroundState<L>,
    brush: char,
    col: int,
    row: int,
    xs: (int, int),
    ys: (int, int),
)
    requires
        bg.wf(),
        bg.maps is Some,
        bg.catalog().len() > 0,
        bg.outline_mode == BgOutlineMode::Original,
        on_canvas(col, row),
        cell_span(bg.columns[col], bg.width as int) == Some(xs),
        cell_span(bg.rows[row], bg.height as int) == Some(ys),
    ensures
        ({
            let patch = patch_of(negated(bg.maps->0.luma), bg.width as int, bg.height as int, xs, ys);
            bg.best_char(brush, col, row) == bg.aa_charset.entry(
                nearest(patch, bg.catalog(), min_entry(patch)),
            )
        }),
{
}

/// While the luminance is shown, the edges make no difference to the matching.
pub proof fn law_original_ignores_edges<L>(
    bg: BackgroundState<L>,
    edges: Seq<u8>,
    brush: char,
    col: int,
    row: int,
)
    requires
        bg.maps is Some,
        bg.outline_mode == BgOutlineMode::Original,
    ensures
        (BackgroundState { maps: Some(MapsState { edges, ..bg.maps->0 }), ..bg }).best_char(brush, col, row)
            == bg.best_char(brush, col, row),
{
}

/// Sums and means of a box lie between the bounds of its pixels.
proof fn lemma_box_bounds(source: Seq<u8>, w: int, x0: int, x1: int, y0: int, y1: int, lo: int, hi: int)
    requires
        x0 <= x1,
        y0 <= y1,
        forall|x: int, y: int| x0 <= x < x1 && y0 <= y < y1 ==> lo <= #[trigger] texel(source, w, x, y) <= hi,
    ensures
        lo * ((x1 - x0) * (y1 - y0)) <= box_sum(source, w, x0, x1, y0, y1) <= hi * ((x1 - x0) * (y1 - y0)),
    decreases x1 - x0,
{
    if x0 < x1 {
        lemma_box_bounds(source, w, x0, x1 - 1, y0, y1, lo, hi);
        lemma_column_bounds(source, w, x1 - 1, y0, y1, lo, hi);
        let (n, m) = (x1 - x0, y1 - y0);
        assert(lo * (n * m) == lo * ((n - 1) * m) + lo * m) by (nonlinear_arith);
        assert(hi * (n * m) == hi * ((n - 1) * m) + hi * m) by (nonlinear_arith);
    } else {
        assert((x1 - x0) * (y1 - y0) == 0) by (nonlinear_arith)
            requires
                x1 == x0,
        ;
    }
}

proof fn lemma_column_bounds(source: Seq<u8>, w: int, x: int, y0: int, y1: int, lo: int, hi: int)
    requires
        y0 <= y1,
        forall|y: int| y0 <= y < y1 ==> lo <= #[trigger] texel(source, w, x, y) <= hi,
    ensures
        lo * (y1 - y0) <= column_sum(source, w, x, y0, y1) <= hi * (y1 - y0),
    decreases y1 - y0,
{
    if y0 < y1 {
        lemma_column_bounds(source, w, x, y0, y1 - 1, lo, hi);
        assert(lo <= texel(source, w, x, y1 - 1) <= hi);
        let m = y1 - y0;
        assert(lo * m == lo * (m - 1) + lo && hi * m == hi * (m - 1) + hi) by (nonlinear_arith);
    } else {
        assert(lo * (y1 - y0) == 0 && hi * (y1 - y0) == 0) by (nonlinear_arith)
            requires
                y1 == y0,
        ;
    }
}

/// Where part `k` of `n` of a stretch of pixels lies.
proof fn lemma_part(lo: int, hi: int, k: int, n: int, limit: int)
    requires
        0 <= lo < hi <= limit,
        0 <= k < n,
    ensures
        ({
            let (start, end) = (part_start(lo, hi, k, n), part_end(lo, hi, k, n, limit));
            &&& lo <= start < end <= hi
            &&& forall|x: int|
                #![trigger n * (x - lo)]
                start <= x < end ==> n * (x - lo) + n > k * (hi - lo) && n * (x - lo) < (k + 1) * (hi - lo)
        }),
{
    let span = hi - lo;
    let (t, u) = (k * span, (k + 1) * span);
    let (p, q) = (t / n, u / n);
    vstd::arithmetic::div_mod::lemma_fundamental_div_mod(t, n);
    vstd::arithmetic::div_mod::lemma_fundamental_div_mod(u, n);
    assert(u == t + span) by (nonlinear_arith)
        requires
            t == k * span,
            u == (k + 1) * span,
    ;
    assert(0 <= t && u <= n * span) by (nonlinear_arith)
        requires
            0 <= k < n,
            span > 0,
            t == k * span,
            u == (k + 1) * span,
    ;
    assert(0 <= p < span && p <= q <= span) by (nonlinear_arith)
        requires
            t == n * p + t % n,
            u == n * q + u % n,
            0 <= t % n < n,
            0 <= u % n < n,
            0 <= t < u <= n * span,
            n > 0,
    ;
    let (start, end) = (part_start(lo, hi, k, n), part_end(lo, hi, k, n, limit));
    assert forall|x: int|
        #![trigger n * (x - lo)]
        start <= x < end implies n * (x - lo) + n > k * (hi - lo) && n * (x - lo) < (k + 1) * (hi - lo) by {
        let d = x - lo;
        assert(n * d + n > t && n * d < u) by (nonlinear_arith)
            requires
                p <= d,
                d < q || d == p,
                t == n * p + t % n,
                u == n * q + u % n,
                0 <= t % n < n,
                0 <= u % n < n,
                t < u,
                n > 0,
        ;
    }
}

/// A patch has the orientation of the image and the extent of the region under
/// the cell. Its pixel in column `sx` of 7 and row `sy` of 12 is a mean of source
/// pixels from that share of the region alone: of those `x` columns and `y` rows
/// into the region for which `x` or `x + 1` sevenths and `y` or `y + 1` twelfths
/// reach into the share. So where these are no darker than `lo` and no brighter
/// than `hi`, neither is the pixel.
pub proof fn law_patch_keeps_orientation(
    source: Seq<u8>,
    w: int,
    h: int,
    xs: (int, int),
    ys: (int, int),
    sx: int,
    sy: int,
    lo: int,
    hi: int,
)
    requires
        source.len() >= w * h,
        0 <= xs.0 < xs.1 <= w,
        0 <= ys.0 < ys.1 <= h,
        0 <= sx < 7,
        0 <= sy < 12,
        0 <= lo <= hi <= 255,
        forall|x: int, y: int|
            ({
                let (width, height) = (xs.1 - xs.0, ys.1 - ys.0);
                &&& xs.0 <= x < xs.1 && ys.0 <= y < ys.1
                &&& 7 * (x - xs.0) + 7 > sx * width && 7 * (x - xs.0) < (sx + 1) * width
                &&& 12 * (y - ys.0) + 12 > sy * height && 12 * (y - ys.0) < (sy + 1) * height
            }) ==> lo <= #[trigger] texel(source, w, x, y) <= hi,
    ensures
        lo <= patch_of(source, w, h, xs, ys)[7 * sy + sx] <= hi,
        patch_of(source, w, h, xs, ys).len() == 84,
{
    lemma_part(xs.0, xs.1, sx, 7, w);
    lemma_part(ys.0, ys.1, sy, 12, h);
    let (x0, x1) = (part_start(xs.0, xs.1, sx, 7), part_end(xs.0, xs.1, sx, 7, w));
    let (y0, y1) = (part_start(ys.0, ys.1, sy, 12), part_end(ys.0, ys.1, sy, 12, h));
    assert forall|x: int, y: int| x0 <= x < x1 && y0 <= y < y1 implies lo <= #[trigger] texel(source, w, x, y)
        <= hi by {
        assert(7 * (x - xs.0) + 7 > sx * (xs.1 - xs.0));
        assert(12 * (y - ys.0) + 12 > sy * (ys.1 - ys.0));
    }
    lemma_box_bounds(source, w, x0, x1, y0, y1, lo, hi);
    let count = (x1 - x0) * (y1 - y0);
    let sum = box_sum(source, w, x0, x1, y0, y1) as int;
    assert(count > 0) by (nonlinear_arith)
        requires
            x1 > x0,
            y1 > y0,
            count == (x1 - x0) * (y1 - y0),
    ;
    vstd::arithmetic::div_mod::lemma_fundamental_div_mod(sum, count);
    let q = sum / count;
    assert(lo <= q <= hi) by (nonlinear_arith)
        requires
            sum == count * q + sum % count,
            0 <= sum % count < count,
            lo * count <= sum <= hi * count,
            count > 0,
    ;
    let i = 7 * sy + sx;
    assert(i % 7 == sx && i / 7 == sy);
}

/// Where the region under a cell is a multiple of the size of a patch, each pixel
/// of the patch is the mean of its block of the region, rounded down.
pub proof fn law_patch_of_blocks(
    source: Seq<u8>,
    w: int,
    h: int,
    x0: int,
    y0: int,
    m: int,
    n: int,
    sx: int,
    sy: int,
)
    requires
        source.len() >= w * h,
        0 < m,
        0 < n,
        0 <= x0 && x0 + 7 * m <= w,
        0 <= y0 && y0 + 12 * n <= h,
        0 <= sx < 7,
        0 <= sy < 12,
    ensures
        ({
            let out = patch_of(source, w, h, (x0, x0 + 7 * m), (y0, y0 + 12 * n))[7 * sy + sx] as int;
            let sum = box_sum(
                source,
                w,
                x0 + m * sx,
                x0 + m * sx + m,
                y0 + n * sy,
                y0 + n * sy + n,
            );
            (m * n) * out <= sum < (m * n) * out + m * n
        }),
{
    let i = 7 * sy + sx;
    assert(i % 7 == sx && i / 7 == sy);
    assert(sx * (7 * m) == 7 * (m * sx) && (sx + 1) * (7 * m) == 7 * (m * sx + m)) by (nonlinear_arith);
    assert(sy * (12 * n) == 12 * (n * sy) && (sy + 1) * (12 * n) == 12 * (n * sy + n)) by (nonlinear_arith);
    assert(0 <= m * sx && m * sx + m <= 7 * m) by (nonlinear_arith)
        requires
            0 <= sx < 7,
            m > 0,
    ;
    assert(0 <= n * sy && n * sy + n <= 12 * n) by (nonlinear_arith)
        requires
            0 <= sy < 12,
            n > 0,
    ;
    let (xa, ya) = (x0 + m * sx, y0 + n * sy);
    assert(part_start(x0, x0 + 7 * m, sx, 7) == xa);
    assert(part_end(x0, x0 + 7 * m, sx, 7, w) == xa + m);
    assert(part_start(y0, y0 + 12 * n, sy, 12) == ya);
    assert(part_end(y0, y0 + 12 * n, sy, 12, h) == ya + n);
    let count = (xa + m - xa) * (ya + n - ya);
    assert(count == m * n && count > 0) by (nonlinear_arith)
        requires
            m > 0,
            n > 0,
            count == (xa + m - xa) * (ya + n - ya),
    ;
    let sum = box_sum(source, w, xa, xa + m, ya, ya + n) as int;
    lemma_box_sum(source, w, xa, xa + m, ya, ya + n);
    vstd::arithmetic::div_mod::lemma_fundamental_div_mod(sum, count);
    let q = sum / count;
    assert(0 <= q <= 255) by (nonlinear_arith)
        requires
            sum == count * q + sum % count,
            0 <= sum % count < count,
            0 <= sum <= 255 * count,
            count > 0,
    ;
}

/// Where the region under a cell has exactly the size of a patch, the patch is
/// that region, pixel for pixel.
pub proof fn law_patch_of_exact_region(
    source: Seq<u8>,
    w: int,
    h: int,
    x0: int,
    y0: int,
    sx: int,
    sy: int,
)
    requires
        source.len() >= w * h,
        0 <= x0 && x0 + 7 <= w,
        0 <= y0 && y0 + 12 <= h,
        0 <= sx < 7,
        0 <= sy < 12,
    ensures
        patch_of(source, w, h, (x0, x0 + 7), (y0, y0 + 12))[7 * sy + sx] == source[(y0 + sy) * w + (x0 + sx)],
{
    let v = source[(y0 + sy) * w + (x0 + sx)] as int;
    assert forall|x: int, y: int|
        ({
            let (width, height) = (7int, 12int);
            &&& x0 <= x < x0 + 7 && y0 <= y < y0 + 12
            &&& 7 * (x - x0) + 7 > sx * width && 7 * (x - x0) < (sx + 1) * width
            &&& 12 * (y - y0) + 12 > sy * height && 12 * (y - y0) < (sy + 1) * height
        }) implies v <= #[trigger] texel(source, w, x, y) <= v by {
        assert(x == x0 + sx && y == y0 + sy);
    }
    law_patch_keeps_orientation(source, w, h, (x0, x0 + 7), (y0, y0 + 12), sx, sy, v, v);
}

/// Matching draws what is there: where the image under a cell is exactly one of
/// the sprites, and none before it in the catalogue, the character of that
/// sprite is drawn. While the luminance is shown it is 255 minus the luminance
/// that counts, otherwise the edges. The space, entry 0, is not drawn where a
/// pixel reaches 35.
pub proof fn law_matching_draws_what_is_there<L>(
    bg: BackgroundState<L>,
    catalog: Seq<Seq<u8>>,
    brush: char,
    col: int,
    row: int,
    x0: usize,
    y0: usize,
    k: int,
)
    requires
        bg.wf(),
        bg.maps is Some,
        bg.aa_charset == AaCharset::Ascii7 ==> catalog == bg.catalog_ascii7,
        bg.aa_charset == AaCharset::Braille ==> catalog == bg.catalog_braille,
        on_canvas(col, row),
        x0 + 7 <= bg.width,
        y0 + 12 <= bg.height,
        bg.columns[col] == Some((x0, (x0 + 7) as usize)),
        bg.rows[row] == Some((y0, (y0 + 12) as usize)),
        0 <= k < catalog.len(),
        catalog[k].len() == 84,
        forall|sx: int, sy: int|
            0 <= sx < 7 && 0 <= sy < 12 ==> {
                let i = (y0 + sy) * bg.width + (x0 + sx);
                #[trigger] texel(catalog[k], 7, sx, sy) == if bg.outline_mode == BgOutlineMode::Original {
                    255 - bg.maps->0.luma[i]
                } else {
                    bg.maps->0.edges[i] as int
                }
            },
        forall|j: int| 0 <= j < k ==> (#[trigger] catalog[j]).len() == 84 && catalog[j] != catalog[k],
        k >= 1 || forall|i: int| 0 <= i < 84 ==> #[trigger] catalog[k][i] < 35,
    ensures
        bg.aa_charset == AaCharset::Ascii7 ==> bg.best_char(brush, col, row) as int == 32 + k,
        bg.aa_charset == AaCharset::Braille && k < 256 ==> bg.best_char(brush, col, row) as int == 0x2800 + k,
{
    assert(bg.catalog() == catalog);
    let (w, h) = (bg.width as int, bg.height as int);
    let source = bg.source();
    let patch = patch_of(source, w, h, (x0 as int, x0 + 7), (y0 as int, y0 + 12));
    let sprite = bg.catalog()[k];
    assert(bg.maps->0.negative.len() == bg.maps->0.luma.len());
    assert forall|i: int| 0 <= i < 84 implies patch[i] == sprite[i] by {
        let (sx, sy) = (i % 7, i / 7);
        law_patch_of_exact_region(source, w, h, x0 as int, y0 as int, sx, sy);
        assert(i == 7 * sy + sx);
        let at = (y0 + sy) * w + (x0 + sx);
        assert(0 <= at < w * h) by (nonlinear_arith)
            requires
                at == (y0 + sy) * w + (x0 + sx),
                0 <= x0 + sx < w,
                0 <= y0 + sy < h,
        ;
        assert(texel(sprite, 7, sx, sy) == sprite[i]);
    }
    assert(patch =~= sprite);
    let m = min_entry(patch);
    if k == 0 {
        assert(!has_strong_pixel(patch));
    }
    law_score_of_itself(patch);
    let start = if m < bg.catalog().len() {
        m
    } else {
        bg.catalog().len() - 1
    };
    assert(start <= k);
    assert forall|j: int| start <= j < k implies score(patch, sprite) < score(patch, #[trigger] bg.catalog()[j]) by {
        if score(patch, bg.catalog()[j]) == 0 {
            law_score_tells_apart(patch, bg.catalog()[j]);
        }
    }
    assert(is_nearest(patch, bg.catalog(), start, k));
    lemma_nearest(patch, bg.catalog(), m);
    lemma_nearest_unique(patch, bg.catalog(), start, k, nearest(patch, bg.catalog(), m));
}

/// Matching draws the character of an entry of the catalogue that is at least as
/// near to the patch under the cell as every other one; an entry before it is
/// farther. Where a pixel of the patch reaches 35, the space is left out, as long
/// as there is another entry.
pub proof fn law_matching_draws_the_nearest<L>(
    bg: BackgroundState<L>,
    catalog: Seq<Seq<u8>>,
    brush: char,
    col: int,
    row: int,
    xs: (usize, usize),
    ys: (usize, usize),
    source: Seq<u8>,
    patch: Seq<u8>,
) -> (k: int)
    requires
        bg.wf(),
        bg.maps is Some,
        bg.aa_charset == AaCharset::Ascii7 ==> catalog == bg.catalog_ascii7,
        bg.aa_charset == AaCharset::Braille ==> catalog == bg.catalog_braille,
        on_canvas(col, row),
        catalog.len() > 0,
        xs.0 < xs.1 <= bg.width,
        ys.0 < ys.1 <= bg.height,
        bg.columns[col] == Some(xs),
        bg.rows[row] == Some(ys),
        bg.outline_mode == BgOutlineMode::Original ==> source == bg.maps->0.negative,
        bg.outline_mode != BgOutlineMode::Original ==> source == bg.maps->0.edges,
        patch == patch_of(
            source,
            bg.width as int,
            bg.height as int,
            (xs.0 as int, xs.1 as int),
            (ys.0 as int, ys.1 as int),
        ),
    ensures
        0 <= k < catalog.len(),
        catalog.len() > 1 && (exists|i: int| 0 <= i < 84 && #[trigger] patch[i] >= 35) ==> k >= 1,
        bg.aa_charset == AaCharset::Ascii7 ==> bg.best_char(brush, col, row) as int == 32 + k,
        bg.aa_charset == AaCharset::Braille && k < 256 ==> bg.best_char(brush, col, row) as int == 0x2800 + k,
        forall|j: int|
            1 <= j < catalog.len() ==> score(patch, catalog[k]) <= score(
                patch,
                #[trigger] catalog[j],
            ),
        forall|j: int| 1 <= j < k ==> score(patch, catalog[k]) < score(patch, #[trigger] catalog[j]),
        k > 0 && (forall|i: int| 0 <= i < 84 ==> #[trigger] patch[i] < 35) ==> score(patch, catalog[k])
            < score(patch, catalog[0]),
{
    assert(bg.catalog() == catalog);
    assert(patch.len() == 84);
    assert(bg.source() == source);
    assert(patch == patch_of(
        bg.source(),
        bg.width as int,
        bg.height as int,
        (xs.0 as int, xs.1 as int),
        (ys.0 as int, ys.1 as int),
    ));
    if exists|i: int| 0 <= i < 84 && #[trigger] patch[i] >= 35 {
        let i = choose|i: int| 0 <= i < 84 && #[trigger] patch[i] >= 35;
        assert(patch[i] >= AA_EDGE_THRESHOLD);
        assert(has_strong_pixel(patch));
    }
    if forall|i: int| 0 <= i < 84 ==> #[trigger] patch[i] < 35 {
        assert(!has_strong_pixel(patch));
    }
    lemma_nearest(patch, bg.catalog(), min_entry(patch));
    let k = nearest(patch, bg.catalog(), min_entry(patch));
    assert(bg.best_char(brush, col, row) == bg.aa_charset.entry(k));
    k
}

/// What lies under a cell is cut at the border of the image, and where less than
/// a pixel lies under it, it is that pixel.
pub proof fn law_region_is_cut_to_image<L>(
    bg: BackgroundState<L>,
    brush: char,
    col: int,
    row: int,
    from: usize,
    to: usize,
    cut: usize,
)
    requires
        bg.wf(),
        on_canvas(col, row),
        from < bg.width,
        cut == if to > bg.width {
            bg.width as int
        } else if to <= from {
            from + 1
        } else {
            to as int
        },
    ensures
        (BackgroundState { columns: bg.columns.update(col, Some((from, to))), ..bg }).best_char(brush, col, row) == (
        BackgroundState { columns: bg.columns.update(col, Some((from, cut))), ..bg }).best_char(brush, col, row),
{
}

/// The same from top to bottom.
pub proof fn law_region_is_cut_to_image_rows<L>(
    bg: BackgroundState<L>,
    brush: char,
    col: int,
    row: int,
    from: usize,
    to: usize,
    cut: usize,
)
    requires
        bg.wf(),
        on_canvas(col, row),
        from < bg.height,
        cut == if to > bg.height {
            bg.height as int
        } else if to <= from {
            from + 1
        } else {
            to as int
        },
    ensures
        (BackgroundState { rows: bg.rows.update(row, Some((from, to))), ..bg }).best_char(brush, col, row) == (
        BackgroundState { rows: bg.rows.update(row, Some((from, cut))), ..bg }).best_char(brush, col, row),
{
}

/// A cell that begins right at the right or the lower border of the image has
/// nothing of it under it and is matched like black: with the blank sprite, where
/// that is the first.
pub proof fn law_border_is_matched_like_black<L>(
    bg: BackgroundState<L>,
    catalog: Seq<Seq<u8>>,
    brush: char,
    col: int,
    row: int,
    xs: (usize, usize),
    ys: (usize, usize),
)
    requires
        bg.wf(),
        bg.maps is Some,
        bg.aa_charset == AaCharset::Ascii7 ==> catalog == bg.catalog_ascii7,
        bg.aa_charset == AaCharset::Braille ==> catalog == bg.catalog_braille,
        on_canvas(col, row),
        catalog.len() > 0,
        catalog[0].len() == 84,
        forall|i: int| 0 <= i < 84 ==> #[trigger] catalog[0][i] == 0,
        bg.columns[col] == Some(xs),
        bg.rows[row] == Some(ys),
        xs.0 <= bg.width,
        ys.0 <= bg.height,
        xs.0 == bg.width || ys.0 == bg.height,
    ensures
        bg.aa_charset == AaCharset::Ascii7 ==> bg.best_char(brush, col, row) == ' ',
        bg.aa_charset == AaCharset::Braille ==> bg.best_char(brush, col, row) == '\u{2800}',
{
    assert(bg.catalog() == catalog);
    let (w, h) = (bg.width as int, bg.height as int);
    let (us, vs) = (cell_span(bg.columns[col], w)->0, cell_span(bg.rows[row], h)->0);
    let patch = patch_of(bg.source(), w, h, us, vs);
    assert forall|i: int| 0 <= i < 84 implies patch[i] == 0 by {
        let (sx, sy) = (i % 7, i / 7);
        if xs.0 == bg.width {
            assert(us.1 - us.0 == 0);
            assert(sx * (us.1 - us.0) == 0) by (nonlinear_arith)
                requires
                    us.1 - us.0 == 0,
            ;
            assert(part_start(us.0, us.1, sx, 7) == w);
        } else {
            assert(vs.1 - vs.0 == 0);
            assert(sy * (vs.1 - vs.0) == 0) by (nonlinear_arith)
                requires
                    vs.1 - vs.0 == 0,
            ;
            assert(part_start(vs.0, vs.1, sy, 12) == h);
        }
    }
    assert(patch =~= catalog[0]);
    assert(!has_strong_pixel(patch));
    law_score_of_itself(patch);
    assert(is_nearest(patch, catalog, 0, 0));
    lemma_nearest(patch, catalog, 0);
    lemma_nearest_unique(patch, catalog, 0, 0, nearest(patch, catalog, 0));
}

/// Only what lies under a cell counts for its character: the columns and rows of
/// other cells make no difference.
pub proof fn law_cells_are_matched_apart<L>(
    bg: BackgroundState<L>,
    other: BackgroundState<L>,
    brush: char,
    col: int,
    row: int,
)
    requires
        other == (BackgroundState { columns: other.columns, rows: other.rows, ..bg }),
        other.columns[col] == bg.columns[col],
        other.rows[row] == bg.rows[row],
    ensures
        other.best_char(brush, col, row) == bg.best_char(brush, col, row),
{
}

/// Off the image matching draws a space: where no columns or no rows of it lie
/// under the cell, or they begin beyond its border. Without an image or without
/// sprites it draws the brush character.
pub proof fn law_matching_off_the_image<L>(bg: BackgroundState<L>, brush: char, col: int, row: int)
    requires
        bg.wf(),
        on_canvas(col, row),
    ensures
        bg.maps is None || bg.catalog().len() == 0 ==> bg.best_char(brush, col, row) == brush,
        bg.maps is Some && bg.catalog().len() > 0 && (match bg.columns[col] {
            None => true,
            Some(span) => span.0 > bg.width,
        } || match bg.rows[row] {
            None => true,
            Some(span) => span.0 > bg.height,
        }) ==> bg.best_char(brush, col, row) == ' ',
{
}

/// What a tool puts into a cell: the eraser a space, every other tool the brush
/// character, or while matching is on, and there are an image and sprites of the
/// chosen set to match with, the matched one.
pub proof fn law_character_of_tool<L>(bg: BackgroundState<L>, tool: Tool, brush: char, col: int, row: int)
    ensures
        ({
            let sprites = match bg.aa_charset {
                AaCharset::Ascii7 => bg.catalog_ascii7.len(),
                AaCharset::Braille => bg.catalog_braille.len(),
            };
            bg.stamp(tool, brush, col, row) == if tool == Tool::Eraser {
                ' '
            } else if bg.aa_mode && bg.maps is Some && sprites > 0 {
                bg.best_char(brush, col, row)
            } else {
                brush
            }
        }),
{
}

/// The picture that is shown: opaque grey pixels, as bright as the luminance, as
/// the edges, or as 255 minus the edges.
pub proof fn law_shown_pixels<L>(bg: BackgroundState<L>, i: int)
    requires
        bg.wf(),
        bg.maps is Some,
        bg.width > 0,
        bg.height > 0,
    ensures
        ({
            let maps = bg.maps->0;
            let n = if bg.outline_mode == BgOutlineMode::Original {
                maps.luma.len()
            } else {
                maps.edges.len()
            };
            let px = bg.pixels()->0;
            &&& bg.pixels() is Some
            &&& px.len() == 4 * n
            &&& 0 <= i < n ==> {
                let level = match bg.outline_mode {
                    BgOutlineMode::Original => maps.luma[i] as int,
                    BgOutlineMode::WhiteOnBlack => maps.edges[i] as int,
                    BgOutlineMode::BlackOnWhite => 255 - maps.edges[i],
                };
                &&& px[4 * i] == level && px[4 * i + 1] == level && px[4 * i + 2] == level
                &&& px[4 * i + 3] == 255
            }
        }),
{
}

/// Loading an image replaces its size, its placement and all that is derived
/// from it: the stretched luminance, 255 minus that, and the enhanced edges of
/// it. Nothing else changes.
pub proof fn law_loading_derives_maps<L>(bg: BackgroundState<L>, rgba: Seq<u8>, width: u32, height: u32, layout: L, i: int)
    requires
        width > 0,
        height > 0,
    ensures
        ({
            let t = bg.loaded(rgba, width, height, layout);
            let luma = stretched_image(luminance_image(rgba));
            let maps = t.maps->0;
            &&& t.maps is Some
            &&& maps.luma == luma
            &&& maps.negative.len() == luma.len()
            &&& 0 <= i < luma.len() ==> maps.negative[i] == 255 - luma[i]
            &&& maps.edges == enhanced_image(edge_image(luma, width as int, height as int))
            &&& t == (BackgroundState { raw: Some(luma), maps: Some(maps), width, height, layout, ..bg })
        }),
{
}

/// Looking for edges anew replaces the edges alone, by those of the loaded image
/// blurred with the radius that suits a cell, which is at least 1, and makes
/// pending zoom timers stale.
pub proof fn law_reprocessing_replaces_edges<L>(bg: BackgroundState<L>, radius: int)
    requires
        bg.wf(),
        bg.raw is Some,
        bg.width > 0,
        bg.height > 0,
        radius >= 1 && radius >= bg.blur_radius && (radius == 1 || radius == bg.blur_radius),
    ensures
        ({
            let (w, h) = (bg.width as int, bg.height as int);
            let t = bg.reprocessed();
            &&& t.zoom_generation != bg.zoom_generation
            &&& t == (BackgroundState {
                zoom_generation: t.zoom_generation,
                maps: Some(
                    MapsState {
                        edges: enhanced_image(edge_image(blurred_image(bg.raw->0, w, h, radius), w, h)),
                        ..bg.maps->0
                    },
                ),
                ..bg
            })
        }),
{
}

/// Showing the edges dark on bright instead of bright on dark makes no
/// difference to the matching.
pub proof fn law_inversion_is_cosmetic<L>(bg: BackgroundState<L>, brush: char, col: int, row: int)
    ensures
        (BackgroundState { outline_mode: BgOutlineMode::BlackOnWhite, ..bg }).best_char(brush, col, row) == (
        BackgroundState { outline_mode: BgOutlineMode::WhiteOnBlack, ..bg }).best_char(brush, col, row),
{
}

/// Hiding the background makes no difference to the matching.
pub proof fn law_hiding_keeps_matching<L>(bg: BackgroundState<L>, tool: Tool, brush: char, col: int, row: int)
    ensures
        (BackgroundState { hidden: !bg.hidden, ..bg }).stamp(tool, brush, col, row) == bg.stamp(
            tool,
            brush,
            col,
            row,
        ),
{
}

/// Edges are looked for in the loaded image, not in what was found before:
/// doing so twice gives the same edges.
pub proof fn law_reprocessing_repeats<L>(bg: BackgroundState<L>)
    requires
        bg.wf(),
    ensures
        bg.reprocessed().reprocessed().maps == bg.reprocessed().maps,
{
}

/// The negative of the negative is the image.
pub proof fn law_negated_twice(levels: Seq<u8>)
    ensures
        negated(negated(levels)) == levels,
{
    assert(negated(negated(levels)) =~= levels);
}

} // verus!
