//! The image side of ASCII art: luminance, edges and the matching of image
//! patches against character sprites. Pure pixel data in, pure data out.

use vstd::prelude::*;

use crate::single::{
    div_single, lemma_root_of_zero, lemma_rounding, lemma_running_sum, lemma_single,
    lemma_single_sqrt, round_single, single, single_quotient, single_sqrt, sqrt_single,
};

verus! {

/// Height in pixels that every image is scaled to before it is processed.
pub const PROCESSING_HEIGHT: u32 = 1024;

/// Assumed height of a character cell, in font points.
pub const NOTIONAL_CELL_PX: u32 = 12;

/// Width of a character sprite in pixels.
pub const SPRITE_W: u32 = 7;

/// Height of a character sprite in pixels.
pub const SPRITE_H: u32 = 12;

/// A patch with a pixel this bright must not be matched with a space.
pub const AA_EDGE_THRESHOLD: u8 = 35;

/// The single-precision weights 0.2126, 0.7152 and 0.0722 of red, green and
/// blue, as counts of 2^-26, 2^-24 and 2^-27.
pub const RED_WEIGHT: u32 = 14267344;

pub const GREEN_WEIGHT: u32 = 11999065;

pub const BLUE_WEIGHT: u32 = 9690520;

/// The single-precision fraction 1 / 100, as a count of 2^-30: the part of the
/// pixels that is clipped at each end of the luminance range.
pub const CLIP_FRACTION: u32 = 10737418;

/// The single-precision fraction 5 / 100, as a count of 2^-28: the part of the
/// pixels that count as full-strength edges.
pub const EDGE_CLIP_FRACTION: u32 = 13421773;

// ---------------------------------------------------------------------------
// Luminance
// ---------------------------------------------------------------------------

/// The perceptual luminance 0.2126 R + 0.7152 G + 0.0722 B in single
/// precision, as a count of 2^-27.
pub open spec fn weighted_sum(r: u8, g: u8, b: u8) -> nat {
    let red = single((2 * RED_WEIGHT * r) as nat);
    let green = single((8 * GREEN_WEIGHT * g) as nat);
    let blue = single((BLUE_WEIGHT * b) as nat);
    single(single(red + green) + blue)
}

/// The luminance of a pixel: the weighted sum, rounded to an integer.
pub open spec fn luminance(r: u8, g: u8, b: u8) -> nat {
    (weighted_sum(r, g, b) + 0x400_0000) as nat / 0x800_0000
}

/// Luminance is a byte.
pub proof fn lemma_luminance(r: u8, g: u8, b: u8)
    ensures
        luminance(r, g, b) <= 255,
{
    let red = single((2 * RED_WEIGHT * r) as nat);
    let green = single((8 * GREEN_WEIGHT * g) as nat);
    let blue = single((BLUE_WEIGHT * b) as nat);
    lemma_single((2 * RED_WEIGHT * r) as nat);
    lemma_single((8 * GREEN_WEIGHT * g) as nat);
    lemma_single((BLUE_WEIGHT * b) as nat);
    lemma_single(red + green);
    lemma_single(single(red + green) + blue);
    assert(2 * RED_WEIGHT * r <= 7276345440) by (nonlinear_arith)
        requires
            r <= 255,
    ;
    assert(8 * GREEN_WEIGHT * g <= 24478092600) by (nonlinear_arith)
        requires
            g <= 255,
    ;
    assert(BLUE_WEIGHT * b <= 2471082600) by (nonlinear_arith)
        requires
            b <= 255,
    ;
    assert(red <= 7276345874 && green <= 24478094060 && blue <= 2471082748);
    assert(single(red + green) <= 31754441828);
    assert(weighted_sum(r, g, b) <= 34225526618);
}

/// The luminance of every whole RGBA pixel.
pub open spec fn luminance_image(rgba: Seq<u8>) -> Seq<u8> {
    Seq::new(
        rgba.len() / 4,
        |i: int| luminance(rgba[4 * i], rgba[4 * i + 1], rgba[4 * i + 2]) as u8,
    )
}

/// Convert RGBA bytes to luminance bytes, four to one. Alpha is ignored.
pub fn to_luminance(rgba: &[u8]) -> (luma: Vec<u8>)
    ensures
        luma@ == luminance_image(rgba@),
{
    let count: usize = rgba.len() / 4;
    let mut luma: Vec<u8> = Vec::with_capacity(count);
    let mut i: usize = 0;
    while i < count
        invariant
            0 <= i <= count,
            count == rgba@.len() / 4,
            rgba@.len() <= usize::MAX,
            luma@.len() == i,
            forall|k: int| 0 <= k < i ==> #[trigger] luma@[k] == luminance_image(rgba@)[k],
        decreases count - i,
    {
        let r: u8 = rgba[4 * i];
        let g: u8 = rgba[4 * i + 1];
        let b: u8 = rgba[4 * i + 2];
        let red: u128 = round_single(2 * RED_WEIGHT as u128 * r as u128);
        let green: u128 = round_single(8 * GREEN_WEIGHT as u128 * g as u128);
        let blue: u128 = round_single(BLUE_WEIGHT as u128 * b as u128);
        proof {
            lemma_single((2 * RED_WEIGHT * r) as nat);
            lemma_single((8 * GREEN_WEIGHT * g) as nat);
            lemma_single((BLUE_WEIGHT * b) as nat);
            lemma_single((red + green) as nat);
            lemma_single((single((red + green) as nat) + blue) as nat);
            lemma_luminance(r, g, b);
        }
        let sum: u128 = round_single(round_single(red + green) + blue);
        luma.push(((sum + 0x400_0000) / 0x800_0000) as u8);
        i = i + 1;
    }
    assert(luma@ =~= luminance_image(rgba@));
    luma
}

// ---------------------------------------------------------------------------
// Histograms
// ---------------------------------------------------------------------------

/// Number of bytes of `s` between `lo` and `hi`.
pub open spec fn tally(s: Seq<u8>, lo: int, hi: int) -> nat
    decreases s.len(),
{
    if s.len() == 0 {
        0
    } else {
        tally(s.drop_last(), lo, hi) + if lo <= s.last() <= hi {
            1nat
        } else {
            0
        }
    }
}

proof fn lemma_tally_split(s: Seq<u8>, lo: int, mid: int, hi: int)
    requires
        lo <= mid + 1,
        mid <= hi,
    ensures
        tally(s, lo, hi) == tally(s, lo, mid) + tally(s, mid + 1, hi),
        tally(s, lo, hi) <= s.len(),
    decreases s.len(),
{
    if s.len() > 0 {
        lemma_tally_split(s.drop_last(), lo, mid, hi);
    }
}

proof fn lemma_tally_empty(s: Seq<u8>, lo: int, hi: int)
    requires
        lo > hi,
    ensures
        tally(s, lo, hi) == 0,
    decreases s.len(),
{
    if s.len() > 0 {
        lemma_tally_empty(s.drop_last(), lo, hi);
    }
}

/// The 256-bin histogram of the bytes.
fn histogram(s: &[u8]) -> (hist: Vec<u64>)
    ensures
        hist@.len() == 256,
        forall|v: int| 0 <= v < 256 ==> #[trigger] hist@[v] == tally(s@, v, v),
{
    let mut hist: Vec<u64> = vec![0u64; 256];
    let mut i: usize = 0;
    let len: usize = s.len();
    while i < len
        invariant
            0 <= i <= len,
            len == s@.len(),
            hist@.len() == 256,
            forall|v: int| 0 <= v < 256 ==> #[trigger] hist@[v] == tally(s@.take(i as int), v, v),
        decreases s@.len() - i,
    {
        let v: usize = s[i] as usize;
        assert(s@.take(i + 1).drop_last() =~= s@.take(i as int));
        assert(s@.take(i + 1).last() == s@[i as int]);
        proof {
            lemma_tally_split(s@.take(i as int), v as int, v as int, v as int);
        }
        assert(hist@[v as int] <= i);
        let count: u64 = hist[v];
        hist.set(v, count + 1);
        i = i + 1;
    }
    assert(s@.take(s@.len() as int) =~= s@);
    hist
}

/// The first value from `v` on at which more than `clip` bytes are no
/// brighter, or 0 if there is none.
pub open spec fn low_cut_from(s: Seq<u8>, clip: nat, v: int) -> int
    decreases 256 - v,
{
    if v > 255 {
        0
    } else if tally(s, 0, v) > clip {
        v
    } else {
        low_cut_from(s, clip, v + 1)
    }
}

/// The last value from `v` down at which more than `clip` bytes are no
/// darker, or 255 if there is none.
pub open spec fn high_cut_from(s: Seq<u8>, clip: nat, v: int) -> int
    decreases v + 1,
{
    if v < 0 {
        255
    } else if tally(s, v, 255) > clip {
        v
    } else {
        high_cut_from(s, clip, v - 1)
    }
}

fn low_cut(s: &[u8], hist: &Vec<u64>, clip: u64) -> (lo: u8)
    requires
        hist@.len() == 256,
        forall|v: int| 0 <= v < 256 ==> #[trigger] hist@[v] == tally(s@, v, v),
    ensures
        lo == low_cut_from(s@, clip as nat, 0),
{
    let len: usize = s.len();
    let mut total: u64 = 0;
    let mut i: usize = 0;
    proof {
        lemma_tally_empty(s@, 0, -1);
    }
    while i < 256
        invariant
            0 <= i <= 256,
            hist@.len() == 256,
            len == s@.len(),
            forall|v: int| 0 <= v < 256 ==> #[trigger] hist@[v] == tally(s@, v, v),
            total == tally(s@, 0, i - 1),
            low_cut_from(s@, clip as nat, 0) == low_cut_from(s@, clip as nat, i as int),
        decreases 256 - i,
    {
        proof {
            lemma_tally_split(s@, 0, i - 1, i as int);
        }
        total = total + hist[i];
        if total > clip {
            return i as u8;
        }
        i = i + 1;
    }
    0
}

fn high_cut(s: &[u8], hist: &Vec<u64>, clip: u64) -> (hi: u8)
    requires
        hist@.len() == 256,
        forall|v: int| 0 <= v < 256 ==> #[trigger] hist@[v] == tally(s@, v, v),
    ensures
        hi == high_cut_from(s@, clip as nat, 255),
{
    let len: usize = s.len();
    let mut total: u64 = 0;
    let mut i: usize = 256;
    proof {
        lemma_tally_empty(s@, 256, 255);
    }
    while i > 0
        invariant
            0 <= i <= 256,
            hist@.len() == 256,
            len == s@.len(),
            forall|v: int| 0 <= v < 256 ==> #[trigger] hist@[v] == tally(s@, v, v),
            total == tally(s@, i as int, 255),
            high_cut_from(s@, clip as nat, 255) == high_cut_from(s@, clip as nat, i - 1),
        decreases i,
    {
        proof {
            lemma_tally_split(s@, i - 1, i - 1, 255);
        }
        total = total + hist[i - 1];
        i = i - 1;
        if total > clip {
            return i as u8;
        }
    }
    255
}

/// One percent of `total` pixels, in single precision and rounded.
pub open spec fn clip_count(total: nat) -> nat {
    (single(CLIP_FRACTION as nat * single(total)) + 0x2000_0000) as nat / 0x4000_0000
}

/// Five percent of `total` pixels, in single precision and rounded.
pub open spec fn edge_clip_count(total: nat) -> nat {
    (single(EDGE_CLIP_FRACTION as nat * single(total)) + 0x800_0000) as nat / 0x1000_0000
}

// ---------------------------------------------------------------------------
// Contrast stretch
// ---------------------------------------------------------------------------

/// A value rescaled so that `lo` becomes 0 and `hi` becomes 255, rounded, and
/// clamped beyond them.
pub open spec fn stretched(v: int, lo: int, hi: int) -> int {
    if v <= lo {
        0
    } else if v >= hi {
        255
    } else {
        (510 * (v - lo) + (hi - lo)) / (2 * (hi - lo))
    }
}

/// The darkest value that is not clipped.
pub open spec fn stretch_low(s: Seq<u8>) -> int {
    low_cut_from(s, clip_count(s.len()), 0)
}

/// The brightest value that is not clipped.
pub open spec fn stretch_high(s: Seq<u8>) -> int {
    high_cut_from(s, clip_count(s.len()), 255)
}

proof fn lemma_stretched(v: int, lo: int, hi: int)
    requires
        lo < v < hi,
    ensures
        0 <= stretched(v, lo, hi) <= 255,
{
    let d = v - lo;
    let m = hi - lo;
    let t = 510 * d + m;
    assert(t < 256 * (2 * m)) by (nonlinear_arith)
        requires
            0 < d < m,
            t == 510 * d + m,
    ;
    vstd::arithmetic::div_mod::lemma_fundamental_div_mod(t, 2 * m);
    assert(0 <= t / (2 * m) < 256) by (nonlinear_arith)
        requires
            t == (2 * m) * (t / (2 * m)) + t % (2 * m),
            0 <= t % (2 * m) < 2 * m,
            0 <= t < 256 * (2 * m),
            m > 0,
    ;
}

/// The image with its luminance stretched to the full range.
pub open spec fn stretched_image(luma: Seq<u8>) -> Seq<u8> {
    if stretch_low(luma) < stretch_high(luma) {
        Seq::new(
            luma.len(),
            |i: int| stretched(luma[i] as int, stretch_low(luma), stretch_high(luma)) as u8,
        )
    } else {
        luma
    }
}

/// Stretch luminance to the full range: the darkest and the brightest percent
/// become 0 and 255, and what lies between is rescaled linearly. A flat image
/// is left as it is.
pub fn stretch_luminance(luma: &mut [u8])
    ensures
        final(luma)@ == stretched_image(old(luma)@),
{
    if luma.len() == 0 {
        assert(luma@ =~= stretched_image(luma@));
        return;
    }
    let hist: Vec<u64> = histogram(luma);
    let total: u128 = luma.len() as u128;
    let clip: u64 = clip_pixels(total);
    let lo: u8 = low_cut(luma, &hist, clip);
    let hi: u8 = high_cut(luma, &hist, clip);
    if lo >= hi {
        return;
    }
    let ghost before = luma@;
    let mut i: usize = 0;
    while i < luma.len()
        invariant
            0 <= i <= luma@.len(),
            luma@.len() == before.len(),
            lo < hi,
            forall|k: int|
                0 <= k < i ==> #[trigger] luma@[k] == stretched(before[k] as int, lo as int, hi as int),
            forall|k: int| i <= k < before.len() ==> #[trigger] luma@[k] == before[k],
        decreases luma@.len() - i,
    {
        let v: u8 = luma[i];
        let new_v: u8 = if v <= lo {
            0
        } else if v >= hi {
            255
        } else {
            let range: u32 = hi as u32 - lo as u32;
            proof {
                lemma_stretched(v as int, lo as int, hi as int);
            }
            ((510 * (v as u32 - lo as u32) + range) / (2 * range)) as u8
        };
        luma[i] = new_v;
        i = i + 1;
    }
    assert(luma@ =~= stretched_image(before));
}

fn clip_pixels(total: u128) -> (clip: u64)
    requires
        total <= u64::MAX,
    ensures
        clip == clip_count(total as nat),
{
    proof {
        lemma_single(total as nat);
        lemma_single((CLIP_FRACTION as nat * single(total as nat)) as nat);
    }
    let t: u128 = round_single(total);
    ((round_single(CLIP_FRACTION as u128 * t) + 0x2000_0000) / 0x4000_0000) as u64
}

fn edge_clip_pixels(total: u128) -> (clip: u64)
    requires
        total <= u64::MAX,
    ensures
        clip == edge_clip_count(total as nat),
{
    proof {
        lemma_single(total as nat);
        lemma_single((EDGE_CLIP_FRACTION as nat * single(total as nat)) as nat);
    }
    let t: u128 = round_single(total);
    ((round_single(EDGE_CLIP_FRACTION as u128 * t) + 0x800_0000) / 0x1000_0000) as u64
}

// ---------------------------------------------------------------------------
// Sprite matching
// ---------------------------------------------------------------------------

/// Square of the difference of two bytes.
pub open spec fn squared_gap(a: u8, b: u8) -> nat {
    ((a - b) * (a - b)) as nat
}

/// The sum of squared differences of the first `n` pixels, added up in single
/// precision.
pub open spec fn score_upto(patch: Seq<u8>, sprite: Seq<u8>, n: int) -> nat
    decreases n,
{
    if n <= 0 {
        0
    } else {
        single(score_upto(patch, sprite, n - 1) + squared_gap(patch[n - 1], sprite[n - 1]))
    }
}

/// How far a sprite is from a patch, over the pixels that both have.
pub open spec fn score(patch: Seq<u8>, sprite: Seq<u8>) -> nat {
    score_upto(patch, sprite, if patch.len() <= sprite.len() {
        patch.len() as int
    } else {
        sprite.len() as int
    })
}

/// The exact sum of squared differences of the first `n` pixels.
pub open spec fn exact_score_upto(patch: Seq<u8>, sprite: Seq<u8>, n: int) -> nat
    decreases n,
{
    if n <= 0 {
        0
    } else {
        exact_score_upto(patch, sprite, n - 1) + squared_gap(patch[n - 1], sprite[n - 1])
    }
}

proof fn lemma_squared_gap(a: u8, b: u8)
    ensures
        squared_gap(a, b) <= 65025,
        squared_gap(a, b) == (a - b) * (a - b),
{
    let d = a - b;
    assert(0 <= d * d <= 65025) by (nonlinear_arith)
        requires
            -255 <= d <= 255,
    ;
}

proof fn lemma_exact_score(patch: Seq<u8>, sprite: Seq<u8>, n: int)
    requires
        0 <= n <= 258,
    ensures
        score_upto(patch, sprite, n) == exact_score_upto(patch, sprite, n),
        exact_score_upto(patch, sprite, n) <= 65025 * n,
    decreases n,
{
    if n > 0 {
        lemma_exact_score(patch, sprite, n - 1);
        lemma_squared_gap(patch[n - 1], sprite[n - 1]);
        lemma_single(exact_score_upto(patch, sprite, n));
    }
}

/// On sprites of the standard size the score is the exact sum of squared
/// differences.
pub proof fn law_score_exact(patch: Seq<u8>, sprite: Seq<u8>)
    requires
        patch.len() == SPRITE_W * SPRITE_H,
        sprite.len() == SPRITE_W * SPRITE_H,
    ensures
        score(patch, sprite) == exact_score_upto(patch, sprite, patch.len() as int),
{
    lemma_exact_score(patch, sprite, patch.len() as int);
}

proof fn lemma_exact_zero(patch: Seq<u8>, n: int)
    ensures
        exact_score_upto(patch, patch, n) == 0,
    decreases n,
{
    if n > 0 {
        lemma_exact_zero(patch, n - 1);
    }
}

/// A patch that is itself a sprite is a perfect match for it.
pub proof fn law_score_of_itself(patch: Seq<u8>)
    requires
        patch.len() == SPRITE_W * SPRITE_H,
    ensures
        score(patch, patch) == 0,
{
    law_score_exact(patch, patch);
    lemma_exact_zero(patch, patch.len() as int);
}

/// The score of one sprite.
fn sprite_score(patch: &[u8], sprite: &[u8]) -> (total: u64)
    ensures
        total == score(patch@, sprite@),
{
    let len: usize = if patch.len() <= sprite.len() { patch.len() } else { sprite.len() };
    let mut total: u64 = 0;
    let mut i: usize = 0;
    while i < len
        invariant
            0 <= i <= len,
            len <= patch@.len(),
            len <= sprite@.len(),
            total == score_upto(patch@, sprite@, i as int),
            total < 0x400_0000_0000,
            total >= 0x200_0000_0000 ==> total % 0x4_0000 == 0,
        decreases len - i,
    {
        let a: i64 = patch[i] as i64;
        let b: i64 = sprite[i] as i64;
        proof {
            lemma_squared_gap(patch@[i as int], sprite@[i as int]);
            lemma_running_sum(total as nat, squared_gap(patch@[i as int], sprite@[i as int]));
        }
        let d: u64 = ((a - b) * (a - b)) as u64;
        total = round_single((total + d) as u128) as u64;
        i = i + 1;
    }
    total
}

/// The first byte of every RGBA pixel, a partial one at the end included.
pub open spec fn first_channel(rgba: Seq<u8>) -> Seq<u8> {
    Seq::new((rgba.len() + 3) as nat / 4, |i: int| rgba[4 * i])
}

/// The grey levels of pixels that are grey: their first channel.
pub fn gray_channel(rgba: &[u8]) -> (gray: Vec<u8>)
    ensures
        gray@ == first_channel(rgba@),
{
    let len: usize = rgba.len();
    let mut gray: Vec<u8> = Vec::new();
    let mut i: usize = 0;
    while i < len
        invariant
            len == rgba@.len(),
            i == 4 * gray@.len() || i == len,
            i >= len ==> gray@.len() == (len + 3) / 4,
            4 * gray@.len() >= i,
            gray@.len() <= (len + 3) / 4,
            forall|k: int| 0 <= k < gray@.len() ==> #[trigger] gray@[k] == rgba@[4 * k],
        decreases len - i,
    {
        gray.push(rgba[i]);
        i = if len - i > 4 { i + 4 } else { len };
    }
    assert(gray@ =~= first_channel(rgba@));
    gray
}

/// The bitmaps of a catalogue of sprites.
pub open spec fn bitmaps(sprites: Seq<Vec<u8>>) -> Seq<Seq<u8>> {
    Seq::new(sprites.len(), |i: int| sprites[i]@)
}

/// The first index that a match may have.
pub open spec fn first_candidate(count: nat, min_idx: int) -> int {
    if min_idx < count {
        min_idx
    } else if count == 0 {
        0
    } else {
        count - 1
    }
}

/// Whether `best` is the index of the sprite nearest to `patch` among those
/// from `start` on, and of equally near ones the first.
pub open spec fn is_nearest(patch: Seq<u8>, sprites: Seq<Seq<u8>>, start: int, best: int) -> bool {
    &&& start <= best < sprites.len()
    &&& forall|i: int|
        start <= i < sprites.len() ==> score(patch, sprites[best]) <= score(patch, #[trigger] sprites[i])
    &&& forall|i: int|
        start <= i < best ==> score(patch, sprites[best]) < score(patch, #[trigger] sprites[i])
}

/// The index of the nearest sprite from `min_idx` on, 0 without sprites.
pub open spec fn nearest(patch: Seq<u8>, sprites: Seq<Seq<u8>>, min_idx: int) -> int {
    if sprites.len() == 0 {
        0
    } else {
        choose|best: int|
            is_nearest(patch, sprites, first_candidate(sprites.len(), min_idx), best)
    }
}

/// There is only one nearest sprite.
pub proof fn lemma_nearest_unique(patch: Seq<u8>, sprites: Seq<Seq<u8>>, start: int, a: int, b: int)
    requires
        is_nearest(patch, sprites, start, a),
        is_nearest(patch, sprites, start, b),
    ensures
        a == b,
{
    assert(score(patch, sprites[a]) == score(patch, sprites[b]));
}

/// Among sprites there is always a nearest one.
pub proof fn lemma_nearest(patch: Seq<u8>, sprites: Seq<Seq<u8>>, min_idx: int)
    requires
        sprites.len() > 0,
        min_idx >= 0,
    ensures
        is_nearest(
            patch,
            sprites,
            first_candidate(sprites.len(), min_idx),
            nearest(patch, sprites, min_idx),
        ),
{
    let start = first_candidate(sprites.len(), min_idx);
    let best = lemma_nearest_among(patch, sprites, start, sprites.len() as int);
    assert(sprites.take(sprites.len() as int) =~= sprites);
    assert(is_nearest(patch, sprites, start, best));
}

proof fn lemma_nearest_among(patch: Seq<u8>, sprites: Seq<Seq<u8>>, start: int, n: int) -> (best: int)
    requires
        0 <= start < n <= sprites.len(),
    ensures
        is_nearest(patch, sprites.take(n), start, best),
    decreases n,
{
    let some = sprites.take(n);
    if n == start + 1 {
        start
    } else {
        let before = lemma_nearest_among(patch, sprites, start, n - 1);
        let fewer = sprites.take(n - 1);
        assert forall|i: int| 0 <= i < n - 1 implies fewer[i] == some[i] by {}
        if score(patch, some[n - 1]) < score(patch, some[before]) {
            assert forall|i: int| start <= i < n - 1 implies score(patch, some[n - 1]) < score(
                patch,
                #[trigger] some[i],
            ) by {
                assert(score(patch, fewer[before]) <= score(patch, fewer[i]));
            }
            n - 1
        } else {
            assert forall|i: int| start <= i < n implies score(patch, some[before]) <= score(
                patch,
                #[trigger] some[i],
            ) by {
                if i < n - 1 {
                    assert(score(patch, fewer[before]) <= score(patch, fewer[i]));
                }
            }
            assert forall|i: int| start <= i < before implies score(patch, some[before]) < score(
                patch,
                #[trigger] some[i],
            ) by {
                assert(score(patch, fewer[before]) < score(patch, fewer[i]));
            }
            before
        }
    }
}

/// The index of the sprite nearest to `patch`, from `min_idx` on; of equally
/// near ones the first. A `min_idx` past the end stands for the last sprite.
pub fn best_sprite_match(patch: &[u8], sprites: &[Vec<u8>], min_idx: usize) -> (best: usize)
    ensures
        best == nearest(patch@, bitmaps(sprites@), min_idx as int),
        sprites@.len() > 0 ==> is_nearest(
            patch@,
            bitmaps(sprites@),
            first_candidate(sprites@.len(), min_idx as int),
            best as int,
        ),
{
    let count: usize = sprites.len();
    if count == 0 {
        return 0;
    }
    let ghost maps = bitmaps(sprites@);
    let start: usize = if min_idx < count { min_idx } else { count - 1 };
    let mut best: usize = start;
    let mut best_score: u64 = sprite_score(patch, sprites[start].as_slice());
    let mut i: usize = start + 1;
    while i < count
        invariant
            count == sprites@.len(),
            maps == bitmaps(sprites@),
            start <= best < i <= count,
            best_score == score(patch@, maps[best as int]),
            forall|k: int| start <= k < i ==> best_score <= score(patch@, #[trigger] maps[k]),
            forall|k: int| start <= k < best ==> best_score < score(patch@, #[trigger] maps[k]),
        decreases count - i,
    {
        let s: u64 = sprite_score(patch, sprites[i].as_slice());
        assert(s == score(patch@, maps[i as int]));
        if s < best_score {
            best_score = s;
            best = i;
        }
        i = i + 1;
    }
    proof {
        assert(is_nearest(patch@, maps, start as int, best as int));
        lemma_nearest_unique(
            patch@,
            maps,
            start as int,
            best as int,
            nearest(patch@, maps, min_idx as int),
        );
    }
    best
}

/// A patch that is exactly one of the sprites is matched with a sprite at
/// distance 0, and with that very sprite if no earlier one is as near.
pub proof fn law_match_finds_sprite(patch: Seq<u8>, sprites: Seq<Seq<u8>>, at: int, best: int)
    requires
        patch.len() == SPRITE_W * SPRITE_H,
        0 <= at < sprites.len(),
        sprites[at] == patch,
        is_nearest(patch, sprites, 0, best),
    ensures
        score(patch, sprites[best]) == 0,
        best <= at,
{
    law_score_of_itself(patch);
    assert(score(patch, sprites[best]) <= score(patch, sprites[at]));
}

/// A match is the first of the sprites with the least score, among those from
/// the first candidate on. A candidate past the end stands for the last sprite.
pub proof fn law_match_has_least_score(patch: Seq<u8>, sprites: Seq<Seq<u8>>, min_idx: int, i: int)
    requires
        0 <= min_idx,
        0 <= i < sprites.len(),
        i >= min_idx || i == sprites.len() - 1,
    ensures
        ({
            let best = nearest(patch, sprites, min_idx);
            &&& 0 <= best < sprites.len()
            &&& best >= min_idx || best == sprites.len() - 1
            &&& score(patch, sprites[best]) <= score(patch, sprites[i])
            &&& i < best ==> score(patch, sprites[best]) < score(patch, sprites[i])
        }),
{
    lemma_nearest(patch, sprites, min_idx);
    let best = nearest(patch, sprites, min_idx);
    assert(score(patch, sprites[best]) <= score(patch, sprites[i]));
}

// ---------------------------------------------------------------------------
// Edges
// ---------------------------------------------------------------------------

/// `v` brought into the range 0 to n - 1.
pub open spec fn clamp_to(v: int, n: int) -> int {
    if v < 0 {
        0
    } else if v >= n {
        n - 1
    } else {
        v
    }
}

/// The pixel at (x, y); beyond the border, the nearest one on it.
pub open spec fn pixel(luma: Seq<u8>, w: int, h: int, x: int, y: int) -> int {
    luma[clamp_to(y, h) * w + clamp_to(x, w)] as int
}

/// Horizontal Sobel gradient at (x, y).
pub open spec fn gradient_x(luma: Seq<u8>, w: int, h: int, x: int, y: int) -> int {
    (pixel(luma, w, h, x + 1, y - 1) + 2 * pixel(luma, w, h, x + 1, y) + pixel(luma, w, h, x + 1, y + 1))
        - (pixel(luma, w, h, x - 1, y - 1) + 2 * pixel(luma, w, h, x - 1, y) + pixel(
        luma,
        w,
        h,
        x - 1,
        y + 1,
    ))
}

/// Vertical Sobel gradient at (x, y).
pub open spec fn gradient_y(luma: Seq<u8>, w: int, h: int, x: int, y: int) -> int {
    (pixel(luma, w, h, x - 1, y + 1) + 2 * pixel(luma, w, h, x, y + 1) + pixel(luma, w, h, x + 1, y + 1))
        - (pixel(luma, w, h, x - 1, y - 1) + 2 * pixel(luma, w, h, x, y - 1) + pixel(
        luma,
        w,
        h,
        x + 1,
        y - 1,
    ))
}

/// Squared length of the gradient at (x, y).
pub open spec fn steepness(luma: Seq<u8>, w: int, h: int, x: int, y: int) -> nat {
    (gradient_x(luma, w, h, x, y) * gradient_x(luma, w, h, x, y) + gradient_y(luma, w, h, x, y)
        * gradient_y(luma, w, h, x, y)) as nat
}

/// The length of the gradient at every pixel, row by row.
pub open spec fn edge_strengths(luma: Seq<u8>, w: int, h: int) -> Seq<nat> {
    Seq::new((w * h) as nat, |i: int| single_sqrt(steepness(luma, w, h, i % w, i / w)))
}

/// The greatest number of a sequence, 0 of an empty one.
pub open spec fn greatest(s: Seq<nat>) -> nat
    decreases s.len(),
{
    if s.len() == 0 {
        0
    } else if greatest(s.drop_last()) >= s.last() {
        greatest(s.drop_last())
    } else {
        s.last()
    }
}

/// An edge strength on the scale on which the greatest is 255, in single
/// precision and rounded.
pub open spec fn edge_level(strength: nat, most: nat) -> nat {
    (single(255 * single_quotient(strength, most)) + 0x100_0000_0000) as nat / 0x200_0000_0000
}

proof fn lemma_greatest(s: Seq<nat>, i: int)
    requires
        0 <= i < s.len(),
    ensures
        s[i] <= greatest(s),
    decreases s.len(),
{
    if i < s.len() - 1 {
        lemma_greatest(s.drop_last(), i);
        assert(s.drop_last()[i] == s[i]);
    }
}

proof fn lemma_steepness(gx: int, gy: int)
    requires
        -1020 <= gx <= 1020,
        -1020 <= gy <= 1020,
    ensures
        0 <= gx * gx <= 1040400,
        0 <= gy * gy <= 1040400,
{
    assert(0 <= gx * gx <= 1040400) by (nonlinear_arith)
        requires
            -1020 <= gx <= 1020,
    ;
    assert(0 <= gy * gy <= 1040400) by (nonlinear_arith)
        requires
            -1020 <= gy <= 1020,
    ;
}

/// The pixel at (x, y), clamped to the image.
fn sample(luma: &[u8], w: i64, h: i64, x: i64, y: i64) -> (v: i64)
    requires
        0 < w <= i32::MAX,
        0 < h <= i32::MAX,
        w * h <= luma@.len(),
        luma@.len() <= usize::MAX,
        -1 <= x <= w,
        -1 <= y <= h,
    ensures
        v == pixel(luma@, w as int, h as int, x as int, y as int),
        0 <= v <= 255,
{
    let nx: i64 = if x < 0 { 0 } else if x >= w { w - 1 } else { x };
    let ny: i64 = if y < 0 { 0 } else if y >= h { h - 1 } else { y };
    assert(0 <= ny * w + nx < w * h && 0 <= ny * w <= w * h) by (nonlinear_arith)
        requires
            0 <= nx < w,
            0 <= ny < h,
    ;
    assert(w * h <= i64::MAX) by (nonlinear_arith)
        requires
            0 < w <= i32::MAX,
            0 < h <= i32::MAX,
    ;
    luma[(ny * w + nx) as usize] as i64
}

/// The edge map of an image: edge strengths on a scale of 255, or zeros if there
/// is no edge or no image.
pub open spec fn edge_image(luma: Seq<u8>, w: int, h: int) -> Seq<u8> {
    if luma.len() == 0 || w == 0 || h == 0 {
        Seq::new(luma.len(), |i: int| 0u8)
    } else {
        let strengths = edge_strengths(luma, w, h);
        let most = greatest(strengths);
        Seq::new(
            (w * h) as nat,
            |i: int|
                if most > 0 {
                    edge_level(strengths[i], most) as u8
                } else {
                    0u8
                },
        )
    }
}

/// The Sobel edge map of a luminance image: the length of the gradient at each
/// pixel, scaled so that the strongest edge is 255. Beyond the border the
/// nearest pixel counts. Without pixels or without an extent, a map of zeros.
pub fn sobel_edges(luma: &[u8], width: u32, height: u32) -> (edges: Vec<u8>)
    requires
        luma@.len() > 0 && width > 0 && height > 0 ==> width <= i32::MAX && height <= i32::MAX && width * height
            <= luma@.len(),
    ensures
        edges@ == edge_image(luma@, width as int, height as int),
{
    let len: usize = luma.len();
    if len == 0 || width == 0 || height == 0 {
        let edges: Vec<u8> = vec![0u8; len];
        assert(edges@ =~= edge_image(luma@, width as int, height as int));
        return edges;
    }
    let w: i64 = width as i64;
    let h: i64 = height as i64;
    let ghost strengths = edge_strengths(luma@, w as int, h as int);
    assert(0 < w * h <= i64::MAX) by (nonlinear_arith)
        requires
            0 < w <= i32::MAX,
            0 < h <= i32::MAX,
    ;
    let count: usize = (w * h) as usize;
    let mut roots: Vec<u64> = Vec::with_capacity(count);
    let mut most: u64 = 0;
    let mut i: usize = 0;
    while i < count
        invariant
            0 <= i <= count,
            count == w * h,
            count <= luma@.len(),
            luma@.len() <= usize::MAX,
            0 < w <= i32::MAX,
            0 < h <= i32::MAX,
            strengths == edge_strengths(luma@, w as int, h as int),
            roots@.len() == i,
            forall|k: int| 0 <= k < i ==> #[trigger] roots@[k] == strengths[k],
            forall|k: int| 0 <= k < i ==> #[trigger] roots@[k] <= most,
            most <= 0x1001_0000_0000,
            most == greatest(strengths.take(i as int)),
        decreases count - i,
    {
        assert(count <= i64::MAX) by (nonlinear_arith)
            requires
                count == w * h,
                0 < w <= i32::MAX,
                0 < h <= i32::MAX,
        ;
        let x: i64 = (i as i64) % w;
        let y: i64 = (i as i64) / w;
        assert(0 <= x < w && 0 <= y < h) by (nonlinear_arith)
            requires
                0 <= i < w * h,
                w > 0,
                x == (i as int) % (w as int),
                y == (i as int) / (w as int),
        ;
        let nw: i64 = sample(luma, w, h, x - 1, y - 1);
        let n: i64 = sample(luma, w, h, x, y - 1);
        let ne: i64 = sample(luma, w, h, x + 1, y - 1);
        let west: i64 = sample(luma, w, h, x - 1, y);
        let east: i64 = sample(luma, w, h, x + 1, y);
        let sw: i64 = sample(luma, w, h, x - 1, y + 1);
        let s: i64 = sample(luma, w, h, x, y + 1);
        let se: i64 = sample(luma, w, h, x + 1, y + 1);
        let gx: i64 = (ne + 2 * east + se) - (nw + 2 * west + sw);
        let gy: i64 = (sw + 2 * s + se) - (nw + 2 * n + ne);
        proof {
            lemma_steepness(gx as int, gy as int);
        }
        let root: u64 = sqrt_single((gx * gx + gy * gy) as u64);
        roots.push(root);
        assert(strengths[i as int] == root);
        assert(strengths.take(i + 1).drop_last() =~= strengths.take(i as int));
        if root > most {
            most = root;
        }
        i = i + 1;
    }
    assert(strengths.take(count as int) =~= strengths);
    let mut edges: Vec<u8> = vec![0u8; count];
    if most > 0 {
        let mut k: usize = 0;
        while k < count
            invariant
                0 <= k <= count,
                0 < most <= 0x1001_0000_0000,
                most == greatest(strengths),
                roots@.len() == count,
                strengths.len() == count,
                edges@.len() == count,
                forall|m: int| 0 <= m < count ==> #[trigger] roots@[m] == strengths[m],
                forall|m: int| 0 <= m < count ==> #[trigger] roots@[m] <= most,
                forall|m: int|
                    0 <= m < k ==> #[trigger] edges@[m] == edge_level(strengths[m], most as nat) as u8,
            decreases count - k,
        {
            assert(roots@[k as int] <= most);
            let q: u64 = div_single(roots[k], most);
            proof {
                lemma_single((255 * q) as nat);
            }
            let p: u128 = round_single(255 * q as u128);
            let v: u8 = ((p + 0x100_0000_0000) / 0x200_0000_0000) as u8;
            edges.set(k, v);
            k = k + 1;
        }
    }
    assert(edges@ =~= edge_image(luma@, width as int, height as int));
    edges
}

// ---------------------------------------------------------------------------
// Edge enhancement
// ---------------------------------------------------------------------------

/// Fifth power.
pub open spec fn fifth(v: int) -> int {
    v * v * v * v * v
}

/// Whether 255 (v / hi)^2.5 is at least k - 1/2.
pub open spec fn gamma_reaches(v: int, hi: int, k: int) -> bool {
    (2 * k - 1) * (2 * k - 1) * fifth(hi) <= 260100 * fifth(v)
}

/// The largest level up to `k` that 255 (v / hi)^2.5 rounds to or exceeds.
pub open spec fn gamma_level(v: int, hi: int, k: int) -> int
    decreases k,
{
    if k <= 0 {
        0
    } else if gamma_reaches(v, hi, k) {
        k
    } else {
        gamma_level(v, hi, k - 1)
    }
}

/// The enhanced level of `v` when `hi` is the level that counts as full
/// strength: 255 (v / hi)^2.5 rounded to an integer, at most 255.
pub open spec fn enhanced(v: int, hi: int) -> int {
    if v >= hi {
        255
    } else {
        gamma_level(v, hi, 255)
    }
}

/// The least level from `v` on that occurs, or 0 if there is none.
pub open spec fn least_level_from(s: Seq<u8>, v: int) -> int
    decreases 256 - v,
{
    if v > 255 {
        0
    } else if tally(s, v, v) > 0 {
        v
    } else {
        least_level_from(s, v + 1)
    }
}

/// The level from which on an edge counts as full strength: the one at which
/// the strongest five percent of the pixels begin or, where fewer pixels than
/// that are edges at all, that of the weakest edge. It is 0 without edges.
pub open spec fn edge_high(s: Seq<u8>) -> int {
    let cut = high_cut_from(s, edge_clip_count(s.len()), 255);
    if cut > 0 {
        cut
    } else {
        least_level_from(s, 1)
    }
}

proof fn lemma_fifth(v: int)
    requires
        0 <= v <= 255,
    ensures
        0 <= v * v <= 65025,
        0 <= v * v * v <= 16581375,
        0 <= v * v * v * v <= 4228250625,
        0 <= fifth(v) <= 1078203909375,
{
    assert(0 <= v * v <= 65025) by (nonlinear_arith) requires 0 <= v <= 255;
    let v2 = v * v;
    assert(0 <= v2 * v <= 16581375) by (nonlinear_arith) requires 0 <= v <= 255, 0 <= v2 <= 65025;
    let v3 = v2 * v;
    assert(0 <= v3 * v <= 4228250625) by (nonlinear_arith) requires 0 <= v <= 255, 0 <= v3 <= 16581375;
    let v4 = v3 * v;
    assert(0 <= v4 * v <= 1078203909375) by (nonlinear_arith) requires 0 <= v <= 255, 0 <= v4 <= 4228250625;
}

/// The least level above 0 that occurs, or 0 if there is none.
fn least_edge(s: &[u8], hist: &Vec<u64>) -> (least: u8)
    requires
        hist@.len() == 256,
        forall|v: int| 0 <= v < 256 ==> #[trigger] hist@[v] == tally(s@, v, v),
    ensures
        least == least_level_from(s@, 1),
{
    let mut v: usize = 1;
    while v < 256
        invariant
            1 <= v <= 256,
            hist@.len() == 256,
            forall|k: int| 0 <= k < 256 ==> #[trigger] hist@[k] == tally(s@, k, k),
            least_level_from(s@, 1) == least_level_from(s@, v as int),
        decreases 256 - v,
    {
        if hist[v] > 0 {
            return v as u8;
        }
        v = v + 1;
    }
    0
}

/// The enhanced level of one value.
fn enhanced_level(v: u8, hi: u8) -> (level: u8)
    ensures
        level == enhanced(v as int, hi as int),
{
    if v >= hi {
        return 255;
    }
    let a: u64 = v as u64;
    let b: u64 = hi as u64;
    proof {
        lemma_fifth(a as int);
        lemma_fifth(b as int);
    }
    let a5: u64 = a * a * a * a * a;
    let b5: u64 = b * b * b * b * b;
    let mut k: u64 = 255;
    while k > 0
        invariant
            0 <= k <= 255,
            a5 == fifth(v as int),
            b5 == fifth(hi as int),
            a5 <= 1078203909375,
            b5 <= 1078203909375,
            gamma_level(v as int, hi as int, 255) == gamma_level(v as int, hi as int, k as int),
        ensures
            gamma_level(v as int, hi as int, 255) == k,
        decreases k,
    {
        assert((2 * k - 1) * (2 * k - 1) <= 261121) by (nonlinear_arith)
            requires
                0 < k <= 255,
        ;
        let t: u64 = (2 * k - 1) * (2 * k - 1);
        assert(t * b5 <= 261121 * 1078203909375) by (nonlinear_arith)
            requires
                0 <= t <= 261121,
                0 <= b5 <= 1078203909375,
        ;
        if t * b5 <= 260100 * a5 {
            break;
        }
        k = k - 1;
    }
    k as u8
}

/// The edge map sharpened towards black and white.
pub open spec fn enhanced_image(edges: Seq<u8>) -> Seq<u8> {
    if edge_high(edges) > 0 {
        Seq::new(edges.len(), |i: int| enhanced(edges[i] as int, edge_high(edges)) as u8)
    } else {
        edges
    }
}

/// Sharpen an edge map towards black and white: the strongest five percent of
/// the pixels become 255 as far as they are edges, and a gamma curve of exponent
/// 2.5 pushes the rest towards black. A map without edges is left as it is.
pub fn enhance_edges(edges: &mut [u8])
    ensures
        final(edges)@ == enhanced_image(old(edges)@),
{
    if edges.len() == 0 {
        assert(edges@ =~= enhanced_image(edges@));
        return;
    }
    let hist: Vec<u64> = histogram(edges);
    let clip: u64 = edge_clip_pixels(edges.len() as u128);
    let cut: u8 = high_cut(edges, &hist, clip);
    let hi: u8 = if cut > 0 { cut } else { least_edge(edges, &hist) };
    if hi == 0 {
        return;
    }
    let mut levels: Vec<u8> = Vec::with_capacity(256);
    let mut v: usize = 0;
    while v < 256
        invariant
            0 <= v <= 256,
            hi > 0,
            levels@.len() == v,
            forall|k: int| 0 <= k < v ==> #[trigger] levels@[k] == enhanced(k, hi as int),
        decreases 256 - v,
    {
        levels.push(enhanced_level(v as u8, hi));
        v = v + 1;
    }
    let ghost before = edges@;
    let mut i: usize = 0;
    while i < edges.len()
        invariant
            0 <= i <= edges@.len(),
            edges@.len() == before.len(),
            levels@.len() == 256,
            forall|k: int| 0 <= k < 256 ==> #[trigger] levels@[k] == enhanced(k, hi as int),
            forall|k: int| 0 <= k < i ==> #[trigger] edges@[k] == enhanced(before[k] as int, hi as int),
            forall|k: int| i <= k < before.len() ==> #[trigger] edges@[k] == before[k],
        decreases edges@.len() - i,
    {
        let level: u8 = levels[edges[i] as usize];
        edges[i] = level;
        i = i + 1;
    }
    assert(edges@ =~= enhanced_image(before));
}

// ---------------------------------------------------------------------------
// Blur
// ---------------------------------------------------------------------------

/// The sum of the pixels of column x in rows y0 to y1 - 1.
pub open spec fn column_sum(luma: Seq<u8>, w: int, x: int, y0: int, y1: int) -> nat
    decreases y1 - y0,
{
    if y1 <= y0 {
        0
    } else {
        column_sum(luma, w, x, y0, y1 - 1) + luma[(y1 - 1) * w + x] as nat
    }
}

/// The sum of the pixels in columns x0 to x1 - 1 and rows y0 to y1 - 1.
pub open spec fn box_sum(luma: Seq<u8>, w: int, x0: int, x1: int, y0: int, y1: int) -> nat
    decreases x1 - x0,
{
    if x1 <= x0 {
        0
    } else {
        box_sum(luma, w, x0, x1 - 1, y0, y1) + column_sum(luma, w, x1 - 1, y0, y1)
    }
}

/// The start of the window of `radius` around `v`.
pub open spec fn window_start(v: int, radius: int) -> int {
    if v < radius {
        0
    } else {
        v - radius
    }
}

/// The end of the window of `radius` around `v` in a range of `n`.
pub open spec fn window_end(v: int, radius: int, n: int) -> int {
    if v + radius >= n {
        n
    } else {
        v + radius + 1
    }
}

/// The mean of the pixels around (x, y), as far as the window lies on the
/// image, rounded to an integer.
pub open spec fn window_mean(luma: Seq<u8>, w: int, h: int, radius: int, x: int, y: int) -> int {
    let (x0, x1) = (window_start(x, radius), window_end(x, radius, w));
    let (y0, y1) = (window_start(y, radius), window_end(y, radius, h));
    let count = (x1 - x0) * (y1 - y0);
    (2 * box_sum(luma, w, x0, x1, y0, y1) + count) / (2 * count)
}

/// The image with every pixel replaced by the mean of the window around it.
pub open spec fn blurred_image(luma: Seq<u8>, w: int, h: int, radius: int) -> Seq<u8> {
    Seq::new((w * h) as nat, |i: int| window_mean(luma, w, h, radius, i % w, i / w) as u8)
}

proof fn lemma_column_sum(luma: Seq<u8>, w: int, x: int, y0: int, y1: int)
    requires
        y0 <= y1,
    ensures
        column_sum(luma, w, x, y0, y1) <= 255 * (y1 - y0),
        y0 < y1 ==> column_sum(luma, w, x, y0, y1) == luma[y0 * w + x] + column_sum(luma, w, x, y0 + 1, y1),
    decreases y1 - y0,
{
    if y0 < y1 {
        lemma_column_sum(luma, w, x, y0, y1 - 1);
    }
}

/// A box of pixels sums to at most 255 each.
pub proof fn lemma_box_sum(luma: Seq<u8>, w: int, x0: int, x1: int, y0: int, y1: int)
    requires
        x0 <= x1,
        y0 <= y1,
    ensures
        box_sum(luma, w, x0, x1, y0, y1) <= 255 * ((x1 - x0) * (y1 - y0)),
    decreases x1 - x0,
{
    if x0 < x1 {
        lemma_box_sum(luma, w, x0, x1 - 1, y0, y1);
        lemma_column_sum(luma, w, x1 - 1, y0, y1);
        assert((x1 - x0) * (y1 - y0) == (x1 - 1 - x0) * (y1 - y0) + (y1 - y0)) by (nonlinear_arith);
    } else {
        assert((x1 - x0) * (y1 - y0) == 0) by (nonlinear_arith)
            requires
                x1 == x0,
        ;
    }
}

proof fn lemma_box_split(luma: Seq<u8>, w: int, x0: int, x1: int, x2: int, y0: int, y1: int)
    requires
        x0 <= x1 <= x2,
    ensures
        box_sum(luma, w, x0, x2, y0, y1) == box_sum(luma, w, x0, x1, y0, y1) + box_sum(luma, w, x1, x2, y0, y1),
    decreases x2 - x1,
{
    if x1 < x2 {
        lemma_box_split(luma, w, x0, x1, x2 - 1, y0, y1);
    }
}

/// Whether `sums` holds the sum of rows y0 to y1 - 1 of every column.
spec fn are_column_sums(luma: Seq<u8>, w: int, y0: int, y1: int, sums: Seq<u64>) -> bool {
    &&& sums.len() == w
    &&& forall|x: int| 0 <= x < w ==> #[trigger] sums[x] == column_sum(luma, w, x, y0, y1)
}

/// Extend the column sums by one row at the bottom.
fn take_row(luma: &[u8], w: usize, h: usize, y0: usize, y1: usize, sums: &mut Vec<u64>)
    requires
        y0 <= y1 < h <= i32::MAX,
        w * h <= luma@.len(),
        are_column_sums(luma@, w as int, y0 as int, y1 as int, old(sums)@),
    ensures
        are_column_sums(luma@, w as int, y0 as int, y1 + 1, final(sums)@),
{
    let len: usize = luma.len();
    assert(0 <= y1 * w && y1 * w + w <= w * h) by (nonlinear_arith)
        requires
            0 <= y1 < h,
            0 <= w,
    ;
    let ghost before = sums@;
    let mut x: usize = 0;
    while x < w
        invariant
            0 <= x <= w,
            y0 <= y1 < i32::MAX,
            0 <= y1 * w,
            y1 * w + w <= luma@.len(),
            luma@.len() == len,
            sums@.len() == w,
            are_column_sums(luma@, w as int, y0 as int, y1 as int, before),
            forall|k: int| 0 <= k < x ==> #[trigger] sums@[k] == column_sum(luma@, w as int, k, y0 as int, y1 + 1),
            forall|k: int| x <= k < w ==> #[trigger] sums@[k] == before[k],
        decreases w - x,
    {
        proof {
            lemma_column_sum(luma@, w as int, x as int, y0 as int, y1 as int);
        }
        let sum: u64 = sums[x] + luma[y1 * w + x] as u64;
        sums.set(x, sum);
        x = x + 1;
    }
}

/// Take the top row out of the column sums.
fn drop_row(luma: &[u8], w: usize, h: usize, y0: usize, y1: usize, sums: &mut Vec<u64>)
    requires
        y0 < y1 <= h <= i32::MAX,
        w * h <= luma@.len(),
        are_column_sums(luma@, w as int, y0 as int, y1 as int, old(sums)@),
    ensures
        are_column_sums(luma@, w as int, y0 + 1, y1 as int, final(sums)@),
{
    let len: usize = luma.len();
    assert(0 <= y0 * w && y0 * w + w <= w * h) by (nonlinear_arith)
        requires
            0 <= y0 < h,
            0 <= w,
    ;
    let ghost before = sums@;
    let mut x: usize = 0;
    while x < w
        invariant
            0 <= x <= w,
            y0 < y1 <= i32::MAX,
            0 <= y0 * w,
            y0 * w + w <= luma@.len(),
            luma@.len() == len,
            sums@.len() == w,
            are_column_sums(luma@, w as int, y0 as int, y1 as int, before),
            forall|k: int| 0 <= k < x ==> #[trigger] sums@[k] == column_sum(luma@, w as int, k, y0 + 1, y1 as int),
            forall|k: int| x <= k < w ==> #[trigger] sums@[k] == before[k],
        decreases w - x,
    {
        proof {
            lemma_column_sum(luma@, w as int, x as int, y0 as int, y1 as int);
        }
        let sum: u64 = sums[x] - luma[y0 * w + x] as u64;
        sums.set(x, sum);
        x = x + 1;
    }
}

/// The sums of the first 0 to w columns, out of the column sums.
fn running_sums(luma: &[u8], w: usize, y0: usize, y1: usize, sums: &Vec<u64>) -> (run: Vec<u128>)
    requires
        w <= i32::MAX,
        y0 <= y1 <= i32::MAX,
        are_column_sums(luma@, w as int, y0 as int, y1 as int, sums@),
    ensures
        run@.len() == w + 1,
        forall|x: int|
            0 <= x <= w ==> #[trigger] run@[x] == box_sum(luma@, w as int, 0, x, y0 as int, y1 as int),
{
    let mut run: Vec<u128> = vec![0u128];
    let mut x: usize = 0;
    while x < w
        invariant
            0 <= x <= w <= i32::MAX,
            y0 <= y1 <= i32::MAX,
            are_column_sums(luma@, w as int, y0 as int, y1 as int, sums@),
            run@.len() == x + 1,
            forall|k: int|
                0 <= k <= x ==> #[trigger] run@[k] == box_sum(luma@, w as int, 0, k, y0 as int, y1 as int),
        decreases w - x,
    {
        proof {
            lemma_box_sum(luma@, w as int, 0, x as int, y0 as int, y1 as int);
            assert(x * (y1 - y0) <= 0x7fff_ffff * 0x7fff_ffff) by (nonlinear_arith)
                requires
                    0 <= x <= 0x7fff_ffff,
                    0 <= y1 - y0 <= 0x7fff_ffff,
            ;
        }
        let next: u128 = run[x] + sums[x] as u128;
        run.push(next);
        x = x + 1;
    }
    run
}

/// The mean of a box of `count` pixels with the sum `total`, rounded.
fn rounded_mean(total: u128, count: u128) -> (v: u8)
    requires
        0 < count <= 0x7fff_ffff * 0x7fff_ffff,
        total <= 255 * count,
    ensures
        v == (2 * total + count) / (2 * count),
{
    let t: u128 = 2 * total + count;
    let d: u128 = 2 * count;
    proof {
        vstd::arithmetic::div_mod::lemma_fundamental_div_mod(t as int, d as int);
        assert(0 <= t / d < 256) by (nonlinear_arith)
            requires
                t == d * (t / d) + t % d,
                0 <= t % d < d,
                0 <= t < 256 * d,
                d > 0,
        ;
    }
    (t / d) as u8
}

/// Blur an image: every pixel becomes the mean of the pixels up to `radius`
/// columns and rows away, as far as they lie on the image.
pub fn scale_blur(luma: &[u8], width: u32, height: u32, radius: usize) -> (blurred: Vec<u8>)
    requires
        width > 0 && height > 0 ==> width <= i32::MAX && height <= i32::MAX && width * height <= luma@.len(),
    ensures
        blurred@ == blurred_image(luma@, width as int, height as int, radius as int),
{
    if width == 0 || height == 0 {
        assert(width * height == 0) by (nonlinear_arith)
            requires
                width == 0 || height == 0,
        ;
        let blurred: Vec<u8> = Vec::new();
        assert(blurred@ =~= blurred_image(luma@, width as int, height as int, radius as int));
        return blurred;
    }
    let w: usize = width as usize;
    let h: usize = height as usize;
    let mut blurred: Vec<u8> = Vec::new();
    let ghost goal = blurred_image(luma@, w as int, h as int, radius as int);
    let mut sums: Vec<u64> = vec![0u64; w];
    let mut y0: usize = 0;
    let mut y1: usize = 0;
    let mut y: usize = 0;
    assert(0 * w == 0) by (nonlinear_arith);
    while y < h
        invariant
            0 <= y <= h <= i32::MAX,
            w <= i32::MAX,
            w * h <= luma@.len(),
            y0 <= y1 <= h,
            y0 <= y,
            y0 <= window_start(y as int, radius as int),
            y > 0 ==> y1 == window_end(y - 1, radius as int, h as int),
            y == 0 ==> y1 == 0,
            are_column_sums(luma@, w as int, y0 as int, y1 as int, sums@),
            goal == blurred_image(luma@, w as int, h as int, radius as int),
            blurred@.len() == y * w,
            forall|k: int| 0 <= k < y * w ==> #[trigger] blurred@[k] == goal[k],
        decreases h - y,
    {
        let end: usize = if radius >= h - y { h } else { y + radius + 1 };
        while y1 < end
            invariant
                y0 <= y1 <= end <= h <= i32::MAX,
                w * h <= luma@.len(),
                are_column_sums(luma@, w as int, y0 as int, y1 as int, sums@),
            decreases end - y1,
        {
            take_row(luma, w, h, y0, y1, &mut sums);
            y1 = y1 + 1;
        }
        let start: usize = if y < radius { 0 } else { y - radius };
        while y0 < start
            invariant
                y0 <= start < y1 <= h <= i32::MAX,
                w * h <= luma@.len(),
                are_column_sums(luma@, w as int, y0 as int, y1 as int, sums@),
            decreases start - y0,
        {
            drop_row(luma, w, h, y0, y1, &mut sums);
            y0 = y0 + 1;
        }
        let run: Vec<u128> = running_sums(luma, w, y0, y1, &sums);
        let mut x: usize = 0;
        while x < w
            invariant
                0 <= x <= w <= i32::MAX,
                0 <= y < h <= i32::MAX,
                y0 == window_start(y as int, radius as int),
                y1 == window_end(y as int, radius as int, h as int),
                run@.len() == w + 1,
                forall|k: int|
                    0 <= k <= w ==> #[trigger] run@[k] == box_sum(luma@, w as int, 0, k, y0 as int, y1 as int),
                goal == blurred_image(luma@, w as int, h as int, radius as int),
                blurred@.len() == y * w + x,
                forall|k: int| 0 <= k < y * w + x ==> #[trigger] blurred@[k] == goal[k],
            decreases w - x,
        {
            let x0: usize = if x < radius { 0 } else { x - radius };
            let x1: usize = if radius >= w - x { w } else { x + radius + 1 };
            proof {
                lemma_box_split(luma@, w as int, 0, x0 as int, x1 as int, y0 as int, y1 as int);
                lemma_box_sum(luma@, w as int, x0 as int, x1 as int, y0 as int, y1 as int);
                assert(0 < (x1 - x0) * (y1 - y0) <= 0x7fff_ffff * 0x7fff_ffff) by (nonlinear_arith)
                    requires
                        0 < x1 - x0 <= 0x7fff_ffff,
                        0 < y1 - y0 <= 0x7fff_ffff,
                ;
            }
            let total: u128 = run[x1] - run[x0];
            let count: u128 = (x1 - x0) as u128 * (y1 - y0) as u128;
            let v: u8 = rounded_mean(total, count);
            proof {
                let i = y * w + x;
                assert(0 <= i < w * h && i % (w as int) == x && i / (w as int) == y) by {
                    vstd::arithmetic::div_mod::lemma_fundamental_div_mod_converse(
                        i,
                        w as int,
                        y as int,
                        x as int,
                    );
                    assert(0 <= y * w + x < w * h) by (nonlinear_arith)
                        requires
                            0 <= x < w,
                            0 <= y < h,
                    ;
                }
                assert(goal[i] == v);
            }
            blurred.push(v);
            x = x + 1;
        }
        assert((y + 1) * w == y * w + w) by (nonlinear_arith);
        y = y + 1;
    }
    assert(h * w == w * h) by (nonlinear_arith);
    assert(blurred@ =~= goal);
    blurred
}

// ---------------------------------------------------------------------------
// Laws
// ---------------------------------------------------------------------------

/// Stretching keeps the order of tones: a brighter pixel never becomes darker
/// than a darker one.
pub proof fn law_stretch_keeps_order(lo: int, hi: int, u: int, v: int)
    requires
        lo < hi,
        u <= v,
    ensures
        stretched(u, lo, hi) <= stretched(v, lo, hi),
{
    if lo < u && v < hi {
        let m = hi - lo;
        vstd::arithmetic::div_mod::lemma_div_is_ordered(510 * (u - lo) + m, 510 * (v - lo) + m, 2 * m);
    } else if lo < u < hi {
        lemma_stretched(u, lo, hi);
    } else if lo < v < hi {
        lemma_stretched(v, lo, hi);
    }
}

proof fn lemma_tally_flat(s: Seq<u8>, v: u8, lo: int, hi: int)
    requires
        forall|i: int| 0 <= i < s.len() ==> s[i] == v,
    ensures
        tally(s, lo, hi) == if lo <= v <= hi {
            s.len()
        } else {
            0
        },
    decreases s.len(),
{
    if s.len() > 0 {
        assert forall|i: int| 0 <= i < s.drop_last().len() implies s.drop_last()[i] == v by {
            assert(s.drop_last()[i] == s[i]);
        }
        lemma_tally_flat(s.drop_last(), v, lo, hi);
        assert(s.last() == v);
    }
}

proof fn lemma_low_cut_flat(s: Seq<u8>, clip: nat, v: u8, from: int)
    requires
        forall|i: int| 0 <= i < s.len() ==> s[i] == v,
        clip < s.len(),
        0 <= from <= v,
    ensures
        low_cut_from(s, clip, from) == v,
    decreases v - from,
{
    lemma_tally_flat(s, v, 0, from);
    if from < v {
        lemma_low_cut_flat(s, clip, v, from + 1);
    }
}

proof fn lemma_high_cut_flat(s: Seq<u8>, clip: nat, v: u8, from: int)
    requires
        forall|i: int| 0 <= i < s.len() ==> s[i] == v,
        clip < s.len(),
        v <= from <= 255,
    ensures
        high_cut_from(s, clip, from) == v,
    decreases from - v,
{
    lemma_tally_flat(s, v, from, 255);
    if from > v {
        lemma_high_cut_flat(s, clip, v, from - 1);
    }
}

/// A flat image is left unchanged by the stretch.
pub proof fn law_stretch_leaves_flat_image(luma: Seq<u8>, v: u8)
    requires
        forall|i: int| 0 <= i < luma.len() ==> luma[i] == v,
    ensures
        stretched_image(luma) == luma,
{
    if luma.len() > 0 {
        let n = luma.len();
        lemma_single(n);
        lemma_single(CLIP_FRACTION as nat * single(n));
        assert(clip_count(n) < n);
        lemma_low_cut_flat(luma, clip_count(n), v, 0);
        lemma_high_cut_flat(luma, clip_count(n), v, 255);
    } else {
        assert(stretched_image(luma) =~= luma);
    }
}

/// Below 2^24 pixels the clipped part is one percent of them and the part of
/// full-strength edges five percent, each rounded to an integer and halves up.
pub proof fn law_clip_counts(n: nat)
    requires
        n < 0x100_0000,
    ensures
        clip_count(n) == (n + 50) / 100,
        edge_clip_count(n) == (n + 10) / 20,
{
    lemma_single(n);
    lemma_one_percent(n);
    lemma_five_percent(n);
}

proof fn lemma_one_percent(n: nat)
    requires
        n < 0x100_0000,
    ensures
        (single(CLIP_FRACTION as nat * n) + 0x2000_0000) as nat / 0x4000_0000 == (n + 50) / 100,
{
    let m = (n + 50) / 100;
    let p = CLIP_FRACTION as nat * n;
    assert(p == 10737418 * n);
    lemma_rounding(p, 0);
    if m > 0 {
        // The half below m, in counts of 2^24.
        lemma_rounding(p, 32 * (2 * m - 1));
    }
}

proof fn lemma_five_percent(n: nat)
    requires
        n < 0x100_0000,
    ensures
        (single(EDGE_CLIP_FRACTION as nat * n) + 0x800_0000) as nat / 0x1000_0000 == (n + 10) / 20,
{
    let m = (n + 10) / 20;
    let p = EDGE_CLIP_FRACTION as nat * n;
    assert(p == 13421773 * n);
    lemma_rounding(p, 0);
    if m > 0 {
        // The half below m, in counts of 2^24.
        lemma_rounding(p, 8 * (2 * m - 1));
    }
}

proof fn lemma_tally_counts(s: Seq<u8>, lo: int, hi: int, p: spec_fn(u8) -> bool)
    requires
        forall|v: u8| #[trigger] p(v) <==> lo <= v <= hi,
    ensures
        tally(s, lo, hi) == s.filter(p).len(),
    decreases s.len(),
{
    reveal(Seq::filter);
    if s.len() > 0 {
        lemma_tally_counts(s.drop_last(), lo, hi, p);
    }
}

proof fn lemma_tally_grows(s: Seq<u8>, lo: int, mid: int, hi: int)
    requires
        lo <= mid + 1,
        mid <= hi,
    ensures
        tally(s, lo, mid) <= tally(s, lo, hi),
        tally(s, mid + 1, hi) <= tally(s, lo, hi),
{
    lemma_tally_split(s, lo, mid, hi);
}

proof fn lemma_low_cut_is(s: Seq<u8>, clip: nat, from: int, lo: int)
    requires
        0 <= from <= lo <= 255,
        tally(s, 0, lo - 1) <= clip < tally(s, 0, lo),
    ensures
        low_cut_from(s, clip, from) == lo,
    decreases lo - from,
{
    if from < lo {
        lemma_tally_grows(s, 0, from, lo - 1);
        lemma_low_cut_is(s, clip, from + 1, lo);
    }
}

proof fn lemma_high_cut_is(s: Seq<u8>, clip: nat, from: int, hi: int)
    requires
        0 <= hi <= from <= 255,
        tally(s, hi + 1, 255) <= clip < tally(s, hi, 255),
    ensures
        high_cut_from(s, clip, from) == hi,
    decreases from - hi,
{
    if from > hi {
        lemma_tally_grows(s, hi + 1, from - 1, 255);
        lemma_high_cut_is(s, clip, from - 1, hi);
    }
}

/// The stretch clips one percent of the pixels at each end and no more. Let `lo`
/// be the level that at most one percent of them are darker than and more than
/// that no brighter than, and `hi` likewise at the bright end. Up to `lo` pixels
/// become 0, from `hi` on 255, and between the two they are rescaled linearly
/// and rounded. Where the two meet or cross, nothing changes.
pub proof fn law_stretch_clips_one_percent(luma: Seq<u8>, lo: u8, hi: u8, i: int)
    requires
        luma.len() < 0x100_0000,
        0 <= i < luma.len(),
        luma.filter(|v: u8| v < lo).len() <= (luma.len() + 50) / 100 < luma.filter(|v: u8| v <= lo).len(),
        luma.filter(|v: u8| v > hi).len() <= (luma.len() + 50) / 100 < luma.filter(|v: u8| v >= hi).len(),
    ensures
        ({
            let v = luma[i];
            let out = stretched_image(luma)[i];
            let range = hi - lo;
            &&& lo >= hi ==> out == v
            &&& lo < hi && v <= lo ==> out == 0
            &&& lo < hi && v >= hi ==> out == 255
            &&& lo < v < hi ==> -range < 2 * range * out - 510 * (v - lo) <= range
        }),
{
    let clip = ((luma.len() + 50) / 100) as nat;
    law_clip_counts(luma.len());
    lemma_tally_counts(luma, 0, lo - 1, |v: u8| v < lo);
    lemma_tally_counts(luma, 0, lo as int, |v: u8| v <= lo);
    lemma_tally_counts(luma, hi + 1, 255, |v: u8| v > hi);
    lemma_tally_counts(luma, hi as int, 255, |v: u8| v >= hi);
    lemma_low_cut_is(luma, clip, 0, lo as int);
    lemma_high_cut_is(luma, clip, 255, hi as int);
    let v = luma[i];
    if lo < v < hi {
        let (d, m) = (v - lo, hi - lo);
        let t = 510 * d + m;
        lemma_stretched(v as int, lo as int, hi as int);
        vstd::arithmetic::div_mod::lemma_fundamental_div_mod(t, 2 * m);
        let q = t / (2 * m);
        assert(2 * m * q == (2 * m) * q) by (nonlinear_arith);
    }
}

/// The levels that an enhanced map has below full strength. Let `hi` be the
/// level that at most five percent of the pixels exceed and more than that
/// reach. From `hi` on pixels become 255; a weaker one becomes 255 times the
/// power 2.5 of its share of `hi`, rounded, which is stated here in squares.
pub proof fn law_enhanced_levels(edges: Seq<u8>, hi: u8, i: int)
    requires
        edges.len() < 0x100_0000,
        0 <= i < edges.len(),
        hi > 0,
        edges.filter(|v: u8| v > hi).len() <= (edges.len() + 10) / 20 < edges.filter(|v: u8| v >= hi).len(),
    ensures
        ({
            let v = edges[i] as int;
            let out = enhanced_image(edges)[i] as int;
            let full = hi as int;
            let v5 = v * v * v * v * v;
            let h5 = full * full * full * full * full;
            &&& v >= hi ==> out == 255
            &&& v < hi && out > 0 ==> (2 * out - 1) * (2 * out - 1) * h5 <= 510 * 510 * v5
            &&& v < hi && out < 255 ==> 510 * 510 * v5 < (2 * out + 1) * (2 * out + 1) * h5
        }),
{
    let clip = ((edges.len() + 10) / 20) as nat;
    law_clip_counts(edges.len());
    lemma_tally_counts(edges, hi + 1, 255, |v: u8| v > hi);
    lemma_tally_counts(edges, hi as int, 255, |v: u8| v >= hi);
    lemma_high_cut_is(edges, clip, 255, hi as int);
    lemma_gamma_exact(edges[i] as int, hi as int, 255);
    lemma_gamma_order(edges[i] as int, edges[i] as int, hi as int, 255);
}

proof fn lemma_gamma_exact(v: int, hi: int, k: int)
    requires
        k >= 0,
    ensures
        0 <= gamma_level(v, hi, k) <= k,
        gamma_level(v, hi, k) > 0 ==> gamma_reaches(v, hi, gamma_level(v, hi, k)),
        gamma_level(v, hi, k) < k ==> !gamma_reaches(v, hi, gamma_level(v, hi, k) + 1),
    decreases k,
{
    if k > 0 {
        lemma_gamma_exact(v, hi, k - 1);
    }
}

/// The luminance of a pixel is 0.2126 R + 0.7152 G + 0.0722 B to the nearest
/// integer, give or take a ten thousandth. Alpha makes no difference.
pub proof fn law_luminance_is_weighted(rgba: Seq<u8>, i: int)
    requires
        0 <= i < rgba.len() / 4,
    ensures
        ({
            let sum = 2126 * rgba[4 * i] + 7152 * rgba[4 * i + 1] + 722 * rgba[4 * i + 2];
            -5001 <= 10000 * luminance_image(rgba)[i] - sum <= 5001
        }),
        luminance_image(rgba).len() == rgba.len() / 4,
{
    let (r, g, b) = (rgba[4 * i], rgba[4 * i + 1], rgba[4 * i + 2]);
    lemma_luminance(r, g, b);
    let red = single((2 * RED_WEIGHT * r) as nat);
    let green = single((8 * GREEN_WEIGHT * g) as nat);
    let blue = single((BLUE_WEIGHT * b) as nat);
    lemma_single((2 * RED_WEIGHT * r) as nat);
    lemma_single((8 * GREEN_WEIGHT * g) as nat);
    lemma_single((BLUE_WEIGHT * b) as nat);
    lemma_single(red + green);
    lemma_single(single(red + green) + blue);
    assert(2 * RED_WEIGHT * r == 28534688 * r) by (nonlinear_arith);
    assert(8 * GREEN_WEIGHT * g == 95992520 * g) by (nonlinear_arith);
    assert(BLUE_WEIGHT * b == 9690520 * b) by (nonlinear_arith);
    let w = weighted_sum(r, g, b);
    assert(-13000 <= w - (28534688 * r + 95992520 * g + 9690520 * b) <= 13000);
}

/// A grey pixel has its own level as luminance.
pub proof fn law_luminance_of_grey(rgba: Seq<u8>, i: int)
    requires
        0 <= i < rgba.len() / 4,
        rgba[4 * i] == rgba[4 * i + 1],
        rgba[4 * i] == rgba[4 * i + 2],
    ensures
        luminance_image(rgba)[i] == rgba[4 * i],
{
    law_luminance_is_weighted(rgba, i);
}

/// How a score depends on a pixel: changing one pixel of a patch changes its
/// score by the squared distances of the new and the old level from that of the
/// sprite there. Together with the score of a patch that is the sprite, which is
/// 0, this fixes the score of every patch of the standard size.
pub proof fn law_score_by_pixel(patch: Seq<u8>, sprite: Seq<u8>, i: int, v: u8)
    requires
        patch.len() == 84,
        sprite.len() == 84,
        0 <= i < 84,
    ensures
        score(patch.update(i, v), sprite) - score(patch, sprite) == (v - sprite[i]) * (v - sprite[i]) - (patch[i]
            - sprite[i]) * (patch[i] - sprite[i]),
        score(sprite, sprite) == 0,
{
    law_score_exact(patch, sprite);
    law_score_exact(patch.update(i, v), sprite);
    law_score_of_itself(sprite);
    lemma_score_update(patch, sprite, i, v, 84);
}

proof fn lemma_score_update(patch: Seq<u8>, sprite: Seq<u8>, i: int, v: u8, n: int)
    requires
        patch.len() == 84,
        0 <= i < 84,
        0 <= n <= 84,
    ensures
        exact_score_upto(patch.update(i, v), sprite, n) - exact_score_upto(patch, sprite, n) == if i < n {
            (v - sprite[i]) * (v - sprite[i]) - (patch[i] - sprite[i]) * (patch[i] - sprite[i])
        } else {
            0
        },
    decreases n,
{
    if n > 0 {
        lemma_score_update(patch, sprite, i, v, n - 1);
        lemma_squared_gap(patch[n - 1], sprite[n - 1]);
        lemma_squared_gap(patch.update(i, v)[n - 1], sprite[n - 1]);
    }
}

/// Of patch and sprite of the standard size the score is 0 only if they are the
/// same.
pub proof fn law_score_tells_apart(patch: Seq<u8>, sprite: Seq<u8>)
    requires
        patch.len() == 84,
        sprite.len() == 84,
        score(patch, sprite) == 0,
    ensures
        patch == sprite,
{
    law_score_exact(patch, sprite);
    assert forall|i: int| 0 <= i < 84 implies patch[i] == sprite[i] by {
        lemma_score_at_least(patch, sprite, i, 84);
        lemma_squared_gap(patch[i], sprite[i]);
        let d = patch[i] - sprite[i];
        assert(d == 0) by (nonlinear_arith)
            requires
                d * d == 0,
        ;
    }
    assert(patch =~= sprite);
}

proof fn lemma_score_at_least(patch: Seq<u8>, sprite: Seq<u8>, i: int, n: int)
    requires
        0 <= i < n,
    ensures
        exact_score_upto(patch, sprite, n) >= squared_gap(patch[i], sprite[i]),
    decreases n,
{
    if i < n - 1 {
        lemma_score_at_least(patch, sprite, i, n - 1);
    }
}

/// A box of pixels counts each of its pixels once: changing a pixel changes the
/// sum by as much if it is in the box, and not otherwise. A box of black pixels
/// sums to 0.
pub proof fn law_box_sum_by_pixel(
    image: Seq<u8>,
    w: int,
    h: int,
    x0: int,
    x1: int,
    y0: int,
    y1: int,
    x: int,
    y: int,
    v: u8,
)
    requires
        image.len() >= w * h,
        0 <= x0 <= x1 <= w,
        0 <= y0 <= y1 <= h,
        0 <= x < w,
        0 <= y < h,
    ensures
        box_sum(image.update(y * w + x, v), w, x0, x1, y0, y1) - box_sum(image, w, x0, x1, y0, y1) == if x0 <= x
            < x1 && y0 <= y < y1 {
            v - image[y * w + x]
        } else {
            0
        },
        (forall|i: int| 0 <= i < image.len() ==> image[i] == 0) ==> box_sum(image, w, x0, x1, y0, y1) == 0,
    decreases x1 - x0,
{
    lemma_position(w, h, x, y);
    if x0 < x1 {
        law_box_sum_by_pixel(image, w, h, x0, x1 - 1, y0, y1, x, y, v);
        lemma_column_by_pixel(image, w, h, x1 - 1, y0, y1, x, y, v);
    }
}

proof fn lemma_column_by_pixel(
    image: Seq<u8>,
    w: int,
    h: int,
    c: int,
    y0: int,
    y1: int,
    x: int,
    y: int,
    v: u8,
)
    requires
        image.len() >= w * h,
        0 <= c < w,
        0 <= y0 <= y1 <= h,
        0 <= x < w,
        0 <= y < h,
    ensures
        column_sum(image.update(y * w + x, v), w, c, y0, y1) - column_sum(image, w, c, y0, y1) == if x == c && y0
            <= y < y1 {
            v - image[y * w + x]
        } else {
            0
        },
        (forall|i: int| 0 <= i < image.len() ==> image[i] == 0) ==> column_sum(image, w, c, y0, y1) == 0,
    decreases y1 - y0,
{
    lemma_position(w, h, x, y);
    if y0 < y1 {
        lemma_column_by_pixel(image, w, h, c, y0, y1 - 1, x, y, v);
        lemma_position(w, h, c, y1 - 1);
    }
}

/// A blur takes the mean of the pixels up to `radius` columns and rows away, as
/// far as they are on the image, rounded to the nearest integer.
pub proof fn law_blur_is_mean(image: Seq<u8>, w: int, h: int, radius: int, x: int, y: int, x0: int, x1: int, y0: int, y1: int)
    requires
        image.len() >= w * h,
        0 <= x < w,
        0 <= y < h,
        0 <= radius,
        x0 >= 0 && x0 >= x - radius && (x0 == 0 || x0 == x - radius),
        y0 >= 0 && y0 >= y - radius && (y0 == 0 || y0 == y - radius),
        x1 <= w && x1 <= x + radius + 1 && (x1 == w || x1 == x + radius + 1),
        y1 <= h && y1 <= y + radius + 1 && (y1 == h || y1 == y + radius + 1),
    ensures
        ({
            let count = (x1 - x0) * (y1 - y0);
            let out = blurred_image(image, w, h, radius)[y * w + x];
            -count < 2 * (count * out - box_sum(image, w, x0, x1, y0, y1)) <= count
        }),
{
    lemma_position(w, h, x, y);
    lemma_box_sum(image, w, x0, x1, y0, y1);
    let count = (x1 - x0) * (y1 - y0);
    let total = box_sum(image, w, x0, x1, y0, y1);
    assert(count > 0) by (nonlinear_arith)
        requires
            x0 < x1,
            y0 < y1,
            count == (x1 - x0) * (y1 - y0),
    ;
    let (t, d) = (2 * total + count, 2 * count);
    let q = t / d;
    vstd::arithmetic::div_mod::lemma_fundamental_div_mod(t, d);
    assert(d * q == 2 * (count * q)) by (nonlinear_arith)
        requires
            d == 2 * count,
    ;
    assert(0 <= q < 256) by (nonlinear_arith)
        requires
            t == d * q + t % d,
            0 <= t % d < d,
            0 <= t < 256 * d,
            d > 0,
    ;
}

/// The strongest edge of a map has the level 255.
pub proof fn law_strongest_edge(most: nat)
    requires
        most > 0,
    ensures
        edge_level(most, most) == 255,
{
    let t = most * 0x100_0000_0000;
    vstd::arithmetic::div_mod::lemma_div_multiples_vanish(0x100_0000_0000, most as int);
    vstd::arithmetic::div_mod::lemma_mod_multiples_basic(0x100_0000_0000, most as int);
    assert(most * 0x100_0000_0000 == 0x100_0000_0000 * most) by (nonlinear_arith);
    assert(t / most == 0x100_0000_0000 && t % most == 0);
    lemma_single(0x200_0000_0000);
    let q = single_quotient(most, most);
    lemma_single(255 * q);
}

/// No edge of a map has a level above 255, so that every level is a byte.
pub proof fn law_edges_are_bytes(strengths: Seq<nat>, i: int)
    requires
        0 <= i < strengths.len(),
        greatest(strengths) > 0,
    ensures
        edge_level(strengths[i], greatest(strengths)) <= 255,
{
    lemma_greatest(strengths, i);
    let (r, m) = (strengths[i], greatest(strengths));
    let t = r * 0x100_0000_0000;
    vstd::arithmetic::div_mod::lemma_fundamental_div_mod(t as int, m as int);
    assert(t / m <= 0x100_0000_0000) by (nonlinear_arith)
        requires
            t == m * (t / m) + t % m,
            t % m >= 0,
            t <= m * 0x100_0000_0000,
            m > 0,
    ;
    let n = (2 * (t / m) + if t % m == 0 {
        0nat
    } else {
        1
    }) as nat;
    lemma_single(n);
    lemma_single(255 * single_quotient(r, m));
}

/// An edge level differs from 255 times the strength over the greatest by at
/// most 1/2 + 2^-15: it is the nearest integer, unless that quotient is within
/// 2^-15 of the middle between two.
pub proof fn law_edge_level_is_close(strength: nat, most: nat)
    requires
        strength <= most,
        most > 0,
    ensures
        0x8000 * (edge_level(strength, most) * most - 255 * strength) <= 0x4001 * most,
        0x8000 * (255 * strength - edge_level(strength, most) * most) <= 0x4001 * most,
{
    let t = strength * 0x100_0000_0000;
    vstd::arithmetic::div_mod::lemma_fundamental_div_mod(t as int, most as int);
    let f = t / most;
    let rest = t % most;
    assert(f <= 0x100_0000_0000) by (nonlinear_arith)
        requires
            t == most * f + rest,
            rest >= 0,
            t <= most * 0x100_0000_0000,
            most > 0,
    ;
    let n = (2 * f + if rest == 0 {
        0nat
    } else {
        1
    }) as nat;
    lemma_single(n);
    let q = single_quotient(strength, most);
    assert(q == single(n));
    lemma_single(255 * q);
    let p = single(255 * q);
    let level = edge_level(strength, most);
    let off = level * 0x200_0000_0000 - 255 * n;
    assert(-0x100_03ff_ff01 <= off <= 0x100_03ff_ff01);
    assert(-most <= n * most - 2 * t <= most) by (nonlinear_arith)
        requires
            t == most * f + rest,
            0 <= rest < most,
            n == 2 * f && rest == 0 || n == 2 * f + 1,
    ;
    let scaled = level * most;
    let a = off * most;
    let b = n * most;
    assert(0x200_0000_0000 * scaled == a + 255 * b) by (nonlinear_arith)
        requires
            off == level * 0x200_0000_0000 - 255 * n,
            scaled == level * most,
            a == off * most,
            b == n * most,
    ;
    assert(-(0x100_03ff_ff01 * most) <= a <= 0x100_03ff_ff01 * most) by (nonlinear_arith)
        requires
            -0x100_03ff_ff01 <= off <= 0x100_03ff_ff01,
            a == off * most,
            most > 0,
    ;
    assert(2 * t == 0x200_0000_0000 * strength);
}

/// The square of a number.
pub open spec fn squared(v: int) -> int {
    v * v
}

proof fn lemma_level_from_below(level: int, s: nat, most: nat)
    requires
        0 < level <= 255,
        (0x8000 * level - 0x4001) * single_sqrt(most) <= 8355840 * single_sqrt(s),
    ensures
        squared(4096 * level - 2049) * most <= squared(4096int * 255) * s,
{
    lemma_single_sqrt(s);
    lemma_single_sqrt(most);
    let (r, m) = (single_sqrt(s), single_sqrt(most));
    let a = 4096 * level - 2049;
    let (rr, mm) = (r * r, m * m);
    let aa = a * a;
    let c = (8 * a + 7) * (8 * a + 7);
    assert(c * mm <= 69820062105600 * rr) by (nonlinear_arith)
        requires
            (8 * a + 7) * m <= 8355840 * r,
            a > 0,
            m >= 0,
            r >= 0,
            c == (8 * a + 7) * (8 * a + 7),
            rr == r * r,
            mm == m * m,
    ;
    assert(c >= 0 && 64 * aa * 0x40_0001 <= c * 0x3f_ffff) by (nonlinear_arith)
        requires
            0 < a <= 1042431,
            aa == a * a,
            c == (8 * a + 7) * (8 * a + 7),
    ;
    let (x, y) = (c * mm, c * most);
    assert(y * 0x4_0000_0000_0000_0000 * 0x3f_ffff <= x * 0x40_0000) by (nonlinear_arith)
        requires
            mm * 0x40_0000 >= most * 0x4_0000_0000_0000_0000 * 0x3f_ffff,
            c >= 0,
            x == c * mm,
            y == c * most,
    ;
    assert(y * 0x3f_ffff <= 69820062105600 * s * 0x40_0001);
    assert(64 * (aa * most) * 0x40_0001 <= y * 0x3f_ffff) by (nonlinear_arith)
        requires
            64 * aa * 0x40_0001 <= c * 0x3f_ffff,
            y == c * most,
            most >= 0,
    ;
    let (z, full) = (aa * most, squared(4096int * 255));
    assert(full == 1090938470400) by {
        assert(1044480int * 1044480int == 1090938470400) by (nonlinear_arith);
    }
    assert(z <= 1090938470400 * s);
    assert(full * s == 1090938470400 * s);
}

proof fn lemma_level_from_above(level: int, s: nat, most: nat)
    requires
        0 <= level <= 255,
        8355840 * single_sqrt(s) <= (0x8000 * level + 0x4001) * single_sqrt(most),
    ensures
        squared(4096int * 255) * s <= squared(4096 * level + 2049) * most,
{
    lemma_single_sqrt(s);
    lemma_single_sqrt(most);
    let (r, m) = (single_sqrt(s), single_sqrt(most));
    let a = 4096 * level + 2049;
    let (rr, mm) = (r * r, m * m);
    let aa = a * a;
    let c = (8 * a - 7) * (8 * a - 7);
    assert(69820062105600 * rr <= c * mm) by (nonlinear_arith)
        requires
            8355840 * r <= (8 * a - 7) * m,
            a >= 2049,
            m >= 0,
            r >= 0,
            c == (8 * a - 7) * (8 * a - 7),
            rr == r * r,
            mm == m * m,
    ;
    assert(c >= 0 && c * 0x40_0001 <= 64 * aa * 0x3f_ffff) by (nonlinear_arith)
        requires
            2049 <= a <= 1046529,
            aa == a * a,
            c == (8 * a - 7) * (8 * a - 7),
    ;
    let (x, y) = (c * mm, c * most);
    assert(x * 0x40_0000 <= y * 0x4_0000_0000_0000_0000 * 0x40_0001) by (nonlinear_arith)
        requires
            mm * 0x40_0000 <= most * 0x4_0000_0000_0000_0000 * 0x40_0001,
            c >= 0,
            x == c * mm,
            y == c * most,
    ;
    assert(69820062105600 * s * 0x3f_ffff <= y * 0x40_0001);
    assert(y * 0x40_0001 <= 64 * (aa * most) * 0x3f_ffff) by (nonlinear_arith)
        requires
            c * 0x40_0001 <= 64 * aa * 0x3f_ffff,
            y == c * most,
            most >= 0,
    ;
    let (z, full) = (aa * most, squared(4096int * 255));
    assert(full == 1090938470400) by {
        assert(1044480int * 1044480int == 1090938470400) by (nonlinear_arith);
    }
    assert(z >= 1090938470400 * s);
    assert(full * s == 1090938470400 * s);
}

/// Every level of an edge map differs by at most 1/2 + 2^-12 from 255 times the
/// length of its gradient over that of the strongest one, the lengths being the
/// real square roots. Pixel `at` has the level, pixel `top` the strongest edge.
pub proof fn law_edge_map_is_close(luma: Seq<u8>, w: int, h: int, at: int, top: int)
    requires
        0 < w,
        0 < h,
        w * h <= luma.len(),
        0 <= at < w * h,
        0 <= top < w * h,
        edge_strengths(luma, w, h)[top] == greatest(edge_strengths(luma, w, h)),
        greatest(edge_strengths(luma, w, h)) > 0,
    ensures
        ({
            let level = edge_image(luma, w, h)[at] as int;
            let s = steepness(luma, w, h, at % w, at / w);
            let most = steepness(luma, w, h, top % w, top / w);
            &&& level > 0 ==> squared(4096 * level - 2049) * most <= squared(4096int * 255) * s
            &&& squared(4096int * 255) * s <= squared(4096 * level + 2049) * most
        }),
{
    let strengths = edge_strengths(luma, w, h);
    let s = steepness(luma, w, h, at % w, at / w);
    let most = steepness(luma, w, h, top % w, top / w);
    lemma_greatest(strengths, at);
    law_edges_are_bytes(strengths, at);
    let (r, m) = (strengths[at], strengths[top]);
    let level = edge_level(r, m);
    law_edge_level_is_close(r, m);
    assert(r == single_sqrt(s) && m == single_sqrt(most));
    let x = level * m;
    assert(0x8000 * x - 0x4001 * m <= 8355840 * r <= 0x8000 * x + 0x4001 * m);
    assert((0x8000 * level - 0x4001) * m == 0x8000 * (level * m) - 0x4001 * m) by (nonlinear_arith);
    assert((0x8000 * level + 0x4001) * m == 0x8000 * (level * m) + 0x4001 * m) by (nonlinear_arith);
    if level > 0 {
        lemma_level_from_below(level as int, s, most);
    }
    lemma_level_from_above(level as int, s, most);
}

proof fn lemma_greatest_zero(s: Seq<nat>)
    requires
        forall|i: int| 0 <= i < s.len() ==> s[i] == 0,
    ensures
        greatest(s) == 0,
    decreases s.len(),
{
    if s.len() > 0 {
        assert forall|i: int| 0 <= i < s.drop_last().len() implies s.drop_last()[i] == 0 by {
            assert(s.drop_last()[i] == s[i]);
        }
        lemma_greatest_zero(s.drop_last());
    }
}

/// An image of one tone has no edges.
pub proof fn law_flat_image_has_no_edges(luma: Seq<u8>, w: int, h: int, v: u8)
    requires
        0 < w,
        0 < h,
        w * h <= luma.len(),
        forall|i: int| 0 <= i < luma.len() ==> luma[i] == v,
    ensures
        edge_image(luma, w, h) == Seq::new((w * h) as nat, |i: int| 0u8),
{
    let strengths = edge_strengths(luma, w, h);
    assert(w * h > 0) by (nonlinear_arith)
        requires
            0 < w,
            0 < h,
    ;
    assert forall|i: int| 0 <= i < strengths.len() implies strengths[i] == 0 by {
        let (x, y) = (i % w, i / w);
        assert forall|p: int, q: int| #[trigger] pixel(luma, w, h, p, q) == v by {
            let (cx, cy) = (clamp_to(p, w), clamp_to(q, h));
            assert(0 <= cy * w + cx < w * h) by (nonlinear_arith)
                requires
                    0 <= cx < w,
                    0 <= cy < h,
            ;
        }
        assert(gradient_x(luma, w, h, x, y) == 0);
        assert(gradient_y(luma, w, h, x, y) == 0);
        assert(0int * 0int == 0);
        assert(steepness(luma, w, h, x, y) == 0);
        lemma_root_of_zero();
    }
    lemma_greatest_zero(strengths);
    assert(edge_image(luma, w, h) =~= Seq::new((w * h) as nat, |i: int| 0u8));
}

/// The pixel at column x and row y of an image that is `w` wide.
pub open spec fn texel(image: Seq<u8>, w: int, x: int, y: int) -> u8 {
    image[y * w + x]
}

/// Whether `t` is the image `a` of w by h pixels with rows and columns swapped.
pub open spec fn is_transposed(t: Seq<u8>, a: Seq<u8>, w: int, h: int) -> bool {
    &&& a.len() == w * h
    &&& t.len() == w * h
    &&& forall|x: int, y: int|
        0 <= x < w && 0 <= y < h ==> #[trigger] texel(t, h, y, x) == texel(a, w, x, y)
}

/// Whether `f` is the image `a` of w by h pixels with left and right swapped.
pub open spec fn is_mirrored(f: Seq<u8>, a: Seq<u8>, w: int, h: int) -> bool {
    &&& a.len() == w * h
    &&& f.len() == w * h
    &&& forall|x: int, y: int|
        0 <= x < w && 0 <= y < h ==> texel(f, w, w - 1 - x, y) == #[trigger] texel(a, w, x, y)
}

/// Whether `f` is the image `a` of w by h pixels with top and bottom swapped.
pub open spec fn is_flipped(f: Seq<u8>, a: Seq<u8>, w: int, h: int) -> bool {
    &&& a.len() == w * h
    &&& f.len() == w * h
    &&& forall|x: int, y: int|
        0 <= x < w && 0 <= y < h ==> texel(f, w, x, h - 1 - y) == #[trigger] texel(a, w, x, y)
}

/// Images whose gradients are as steep everywhere have the same edge map.
proof fn lemma_same_steepness(a: Seq<u8>, b: Seq<u8>, w: int, h: int)
    requires
        0 < w,
        0 < h,
        0 < w * h <= a.len(),
        a.len() == b.len(),
        forall|x: int, y: int| #[trigger] steepness(b, w, h, x, y) == steepness(a, w, h, x, y),
    ensures
        edge_image(b, w, h) == edge_image(a, w, h),
{
    assert(edge_strengths(b, w, h) =~= edge_strengths(a, w, h));
    assert(edge_image(b, w, h) =~= edge_image(a, w, h));
}

proof fn lemma_clamped_in_image(w: int, h: int, x: int, y: int)
    requires
        0 < w,
        0 < h,
    ensures
        0 <= clamp_to(x, w) < w,
        0 <= clamp_to(y, h) < h,
        0 <= clamp_to(y, h) * w + clamp_to(x, w) < w * h,
{
    let (cx, cy) = (clamp_to(x, w), clamp_to(y, h));
    assert(0 <= cy * w + cx < w * h) by (nonlinear_arith)
        requires
            0 <= cx < w,
            0 <= cy < h,
    ;
}

proof fn lemma_square_of_negative(g: int)
    ensures
        (-g) * (-g) == g * g,
{
    assert((-g) * (-g) == g * g) by (nonlinear_arith);
}

/// Edges do not depend on polarity: the negative of an image has the same edge
/// map.
pub proof fn law_edges_ignore_polarity(a: Seq<u8>, b: Seq<u8>, w: int, h: int)
    requires
        0 < w,
        0 < h,
        w * h <= a.len(),
        a.len() == b.len(),
        forall|i: int| 0 <= i < a.len() ==> #[trigger] b[i] == 255 - a[i],
    ensures
        edge_image(b, w, h) == edge_image(a, w, h),
{
    assert forall|x: int, y: int| #[trigger] pixel(b, w, h, x, y) == 255 - pixel(a, w, h, x, y) by {
        lemma_clamped_in_image(w, h, x, y);
    }
    assert forall|x: int, y: int| #[trigger] steepness(b, w, h, x, y) == steepness(a, w, h, x, y) by {
        assert(gradient_x(b, w, h, x, y) == -gradient_x(a, w, h, x, y));
        assert(gradient_y(b, w, h, x, y) == -gradient_y(a, w, h, x, y));
        lemma_square_of_negative(gradient_x(a, w, h, x, y));
        lemma_square_of_negative(gradient_y(a, w, h, x, y));
    }
    lemma_clamped_in_image(w, h, 0, 0);
    lemma_same_steepness(a, b, w, h);
}

/// Edges do not depend on brightness: an image with the same amount added to
/// every pixel has the same edge map.
pub proof fn law_edges_ignore_brightness(a: Seq<u8>, b: Seq<u8>, d: int, w: int, h: int)
    requires
        0 < w,
        0 < h,
        w * h <= a.len(),
        a.len() == b.len(),
        forall|i: int| 0 <= i < a.len() ==> #[trigger] b[i] == a[i] + d,
    ensures
        edge_image(b, w, h) == edge_image(a, w, h),
{
    assert forall|x: int, y: int| #[trigger] pixel(b, w, h, x, y) == pixel(a, w, h, x, y) + d by {
        lemma_clamped_in_image(w, h, x, y);
    }
    assert forall|x: int, y: int| #[trigger] steepness(b, w, h, x, y) == steepness(a, w, h, x, y) by {
        assert(gradient_x(b, w, h, x, y) == gradient_x(a, w, h, x, y));
        assert(gradient_y(b, w, h, x, y) == gradient_y(a, w, h, x, y));
    }
    lemma_clamped_in_image(w, h, 0, 0);
    lemma_same_steepness(a, b, w, h);
}

/// The greatest number occurs, unless it is 0.
proof fn lemma_greatest_occurs(s: Seq<nat>) -> (i: int)
    ensures
        greatest(s) > 0 ==> 0 <= i < s.len() && s[i] == greatest(s),
    decreases s.len(),
{
    if s.len() == 0 {
        0
    } else if greatest(s.drop_last()) >= s.last() {
        let i = lemma_greatest_occurs(s.drop_last());
        if greatest(s) > 0 {
            assert(s.drop_last()[i] == s[i]);
        }
        i
    } else {
        s.len() - 1
    }
}

/// A sequence that holds all numbers of another has a greatest one no smaller.
proof fn lemma_greatest_covers(s: Seq<nat>, t: Seq<nat>)
    requires
        forall|i: int| 0 <= i < s.len() ==> t.contains(#[trigger] s[i]),
    ensures
        greatest(s) <= greatest(t),
{
    let i = lemma_greatest_occurs(s);
    if greatest(s) > 0 {
        assert(t.contains(s[i]));
        let j = choose|j: int| 0 <= j < t.len() && t[j] == s[i];
        lemma_greatest(t, j);
    }
}

/// Column and row of a position, and the other way round.
proof fn lemma_position(w: int, h: int, x: int, y: int)
    requires
        0 <= x < w,
        0 <= y < h,
    ensures
        0 <= y * w + x < w * h,
        (y * w + x) % w == x,
        (y * w + x) / w == y,
{
    vstd::arithmetic::div_mod::lemma_fundamental_div_mod_converse(y * w + x, w, y, x);
    assert(0 <= y * w + x < w * h) by (nonlinear_arith)
        requires
            0 <= x < w,
            0 <= y < h,
    ;
}

proof fn lemma_place(w: int, h: int, i: int)
    requires
        0 < w,
        0 <= i < w * h,
    ensures
        0 <= i % w < w,
        0 <= i / w < h,
        (i / w) * w + i % w == i,
{
    let (x, y) = (i % w, i / w);
    vstd::arithmetic::div_mod::lemma_fundamental_div_mod(i, w);
    assert(w * y == y * w) by (nonlinear_arith);
    assert(0 <= x < w && 0 <= y < h) by (nonlinear_arith)
        requires
            0 <= i < w * h,
            w > 0,
            x == i % w,
            y == i / w,
    ;
}

/// The strength and the level of the edge at a pixel.
proof fn lemma_edge_at(a: Seq<u8>, w: int, h: int, x: int, y: int)
    requires
        a.len() == w * h,
        0 <= x < w,
        0 <= y < h,
    ensures
        edge_strengths(a, w, h)[y * w + x] == single_sqrt(steepness(a, w, h, x, y)),
        edge_image(a, w, h).len() == w * h,
        texel(edge_image(a, w, h), w, x, y) == if greatest(edge_strengths(a, w, h)) > 0 {
            edge_level(single_sqrt(steepness(a, w, h, x, y)), greatest(edge_strengths(a, w, h))) as u8
        } else {
            0u8
        },
{
    lemma_position(w, h, x, y);
}

proof fn lemma_transposed_steepness(t: Seq<u8>, a: Seq<u8>, w: int, h: int)
    requires
        0 < w,
        0 < h,
        is_transposed(t, a, w, h),
    ensures
        forall|x: int, y: int| #[trigger] steepness(t, h, w, y, x) == steepness(a, w, h, x, y),
{
    assert forall|x: int, y: int| #[trigger] pixel(t, h, w, y, x) == pixel(a, w, h, x, y) by {
        lemma_clamped_in_image(w, h, x, y);
        assert(texel(t, h, clamp_to(y, h), clamp_to(x, w)) == texel(a, w, clamp_to(x, w), clamp_to(y, h)));
    }
    assert forall|x: int, y: int| #[trigger] steepness(t, h, w, y, x) == steepness(a, w, h, x, y) by {
        assert(gradient_x(t, h, w, y, x) == gradient_y(a, w, h, x, y));
        assert(gradient_y(t, h, w, y, x) == gradient_x(a, w, h, x, y));
    }
}

proof fn lemma_transposed_greatest(t: Seq<u8>, a: Seq<u8>, w: int, h: int)
    requires
        0 < w,
        0 < h,
        is_transposed(t, a, w, h),
    ensures
        greatest(edge_strengths(t, h, w)) == greatest(edge_strengths(a, w, h)),
{
    assert(w * h == h * w) by (nonlinear_arith);
    lemma_transposed_steepness(t, a, w, h);
    let (s, r) = (edge_strengths(a, w, h), edge_strengths(t, h, w));
    assert forall|i: int| 0 <= i < s.len() implies r.contains(#[trigger] s[i]) by {
        lemma_place(w, h, i);
        lemma_position(h, w, i / w, i % w);
        assert(r[(i % w) * h + i / w] == s[i]);
    }
    assert forall|i: int| 0 <= i < r.len() implies s.contains(#[trigger] r[i]) by {
        lemma_place(h, w, i);
        lemma_position(w, h, i / h, i % h);
        assert(s[(i % h) * w + i / h] == r[i]);
    }
    lemma_greatest_covers(s, r);
    lemma_greatest_covers(r, s);
}

/// Transposing an image transposes its edge map, borders included.
pub proof fn law_edges_of_transposed_image(t: Seq<u8>, a: Seq<u8>, w: int, h: int)
    requires
        0 < w,
        0 < h,
        is_transposed(t, a, w, h),
    ensures
        is_transposed(edge_image(t, h, w), edge_image(a, w, h), w, h),
{
    assert(w * h == h * w) by (nonlinear_arith);
    lemma_clamped_in_image(w, h, 0, 0);
    lemma_transposed_steepness(t, a, w, h);
    lemma_transposed_greatest(t, a, w, h);
    assert forall|x: int, y: int| 0 <= x < w && 0 <= y < h implies #[trigger] texel(
        edge_image(t, h, w),
        h,
        y,
        x,
    ) == texel(edge_image(a, w, h), w, x, y) by {
        lemma_edge_at(a, w, h, x, y);
        lemma_edge_at(t, h, w, y, x);
    }
}

proof fn lemma_mirrored_steepness(f: Seq<u8>, a: Seq<u8>, w: int, h: int)
    requires
        0 < w,
        0 < h,
        is_mirrored(f, a, w, h),
    ensures
        forall|x: int, y: int| #[trigger] steepness(f, w, h, x, y) == steepness(a, w, h, w - 1 - x, y),
{
    assert forall|x: int, y: int| #[trigger] pixel(f, w, h, x, y) == pixel(a, w, h, w - 1 - x, y) by {
        lemma_clamped_in_image(w, h, x, y);
        let (cx, cy) = (clamp_to(w - 1 - x, w), clamp_to(y, h));
        assert(clamp_to(x, w) == w - 1 - cx);
        assert(texel(f, w, w - 1 - cx, cy) == texel(a, w, cx, cy));
    }
    assert forall|x: int, y: int| #[trigger] steepness(f, w, h, x, y) == steepness(a, w, h, w - 1 - x, y) by {
        assert(gradient_x(f, w, h, x, y) == -gradient_x(a, w, h, w - 1 - x, y));
        assert(gradient_y(f, w, h, x, y) == gradient_y(a, w, h, w - 1 - x, y));
        lemma_square_of_negative(gradient_x(a, w, h, w - 1 - x, y));
    }
}

proof fn lemma_mirrored_greatest(f: Seq<u8>, a: Seq<u8>, w: int, h: int)
    requires
        0 < w,
        0 < h,
        is_mirrored(f, a, w, h),
    ensures
        greatest(edge_strengths(f, w, h)) == greatest(edge_strengths(a, w, h)),
{
    lemma_mirrored_steepness(f, a, w, h);
    let (s, r) = (edge_strengths(a, w, h), edge_strengths(f, w, h));
    assert forall|i: int| 0 <= i < s.len() implies r.contains(#[trigger] s[i]) by {
        lemma_place(w, h, i);
        lemma_position(w, h, w - 1 - i % w, i / w);
        assert(r[(i / w) * w + (w - 1 - i % w)] == s[i]);
    }
    assert forall|i: int| 0 <= i < r.len() implies s.contains(#[trigger] r[i]) by {
        lemma_place(w, h, i);
        lemma_position(w, h, w - 1 - i % w, i / w);
        assert(s[(i / w) * w + (w - 1 - i % w)] == r[i]);
    }
    lemma_greatest_covers(s, r);
    lemma_greatest_covers(r, s);
}

/// Mirroring an image mirrors its edge map, borders included.
pub proof fn law_edges_of_mirrored_image(f: Seq<u8>, a: Seq<u8>, w: int, h: int)
    requires
        0 < w,
        0 < h,
        is_mirrored(f, a, w, h),
    ensures
        is_mirrored(edge_image(f, w, h), edge_image(a, w, h), w, h),
{
    lemma_clamped_in_image(w, h, 0, 0);
    lemma_mirrored_steepness(f, a, w, h);
    lemma_mirrored_greatest(f, a, w, h);
    assert forall|x: int, y: int| 0 <= x < w && 0 <= y < h implies texel(
        edge_image(f, w, h),
        w,
        w - 1 - x,
        y,
    ) == #[trigger] texel(edge_image(a, w, h), w, x, y) by {
        lemma_edge_at(a, w, h, x, y);
        lemma_edge_at(f, w, h, w - 1 - x, y);
    }
}

proof fn lemma_flipped_steepness(f: Seq<u8>, a: Seq<u8>, w: int, h: int)
    requires
        0 < w,
        0 < h,
        is_flipped(f, a, w, h),
    ensures
        forall|x: int, y: int| #[trigger] steepness(f, w, h, x, y) == steepness(a, w, h, x, h - 1 - y),
{
    assert forall|x: int, y: int| #[trigger] pixel(f, w, h, x, y) == pixel(a, w, h, x, h - 1 - y) by {
        lemma_clamped_in_image(w, h, x, y);
        let (cx, cy) = (clamp_to(x, w), clamp_to(h - 1 - y, h));
        assert(clamp_to(y, h) == h - 1 - cy);
        assert(texel(f, w, cx, h - 1 - cy) == texel(a, w, cx, cy));
    }
    assert forall|x: int, y: int| #[trigger] steepness(f, w, h, x, y) == steepness(a, w, h, x, h - 1 - y) by {
        assert(gradient_x(f, w, h, x, y) == gradient_x(a, w, h, x, h - 1 - y));
        assert(gradient_y(f, w, h, x, y) == -gradient_y(a, w, h, x, h - 1 - y));
        lemma_square_of_negative(gradient_y(a, w, h, x, h - 1 - y));
    }
}

proof fn lemma_flipped_greatest(f: Seq<u8>, a: Seq<u8>, w: int, h: int)
    requires
        0 < w,
        0 < h,
        is_flipped(f, a, w, h),
    ensures
        greatest(edge_strengths(f, w, h)) == greatest(edge_strengths(a, w, h)),
{
    lemma_flipped_steepness(f, a, w, h);
    let (s, r) = (edge_strengths(a, w, h), edge_strengths(f, w, h));
    assert forall|i: int| 0 <= i < s.len() implies r.contains(#[trigger] s[i]) by {
        lemma_place(w, h, i);
        lemma_position(w, h, i % w, h - 1 - i / w);
        assert(r[(h - 1 - i / w) * w + i % w] == s[i]);
    }
    assert forall|i: int| 0 <= i < r.len() implies s.contains(#[trigger] r[i]) by {
        lemma_place(w, h, i);
        lemma_position(w, h, i % w, h - 1 - i / w);
        assert(s[(h - 1 - i / w) * w + i % w] == r[i]);
    }
    lemma_greatest_covers(s, r);
    lemma_greatest_covers(r, s);
}

/// Turning an image upside down does the same to its edge map, borders
/// included.
pub proof fn law_edges_of_flipped_image(f: Seq<u8>, a: Seq<u8>, w: int, h: int)
    requires
        0 < w,
        0 < h,
        is_flipped(f, a, w, h),
    ensures
        is_flipped(edge_image(f, w, h), edge_image(a, w, h), w, h),
{
    lemma_clamped_in_image(w, h, 0, 0);
    lemma_flipped_steepness(f, a, w, h);
    lemma_flipped_greatest(f, a, w, h);
    assert forall|x: int, y: int| 0 <= x < w && 0 <= y < h implies texel(
        edge_image(f, w, h),
        w,
        x,
        h - 1 - y,
    ) == #[trigger] texel(edge_image(a, w, h), w, x, y) by {
        lemma_edge_at(a, w, h, x, y);
        lemma_edge_at(f, w, h, x, h - 1 - y);
    }
}

proof fn lemma_gamma_order(u: int, v: int, hi: int, k: int)
    requires
        0 <= u <= v,
        0 <= hi,
    ensures
        gamma_level(u, hi, k) <= gamma_level(v, hi, k),
        0 <= gamma_level(v, hi, k),
        k >= 0 ==> gamma_level(v, hi, k) <= k,
    decreases k,
{
    if k > 0 {
        lemma_gamma_order(u, v, hi, k - 1);
        lemma_fifth_order(u, v);
    }
}

proof fn lemma_fifth_order(u: int, v: int)
    requires
        0 <= u <= v,
    ensures
        fifth(u) <= fifth(v),
{
    assert(0 <= u * u <= v * v) by (nonlinear_arith)
        requires
            0 <= u <= v,
    ;
    let (u2, v2) = (u * u, v * v);
    assert(0 <= u2 * u <= v2 * v) by (nonlinear_arith)
        requires
            0 <= u <= v,
            0 <= u2 <= v2,
    ;
    let (u3, v3) = (u2 * u, v2 * v);
    assert(0 <= u3 * u <= v3 * v) by (nonlinear_arith)
        requires
            0 <= u <= v,
            0 <= u3 <= v3,
    ;
    let (u4, v4) = (u3 * u, v3 * v);
    assert(0 <= u4 * u <= v4 * v) by (nonlinear_arith)
        requires
            0 <= u <= v,
            0 <= u4 <= v4,
    ;
}

/// Enhancing keeps the order of edges: a stronger edge never becomes weaker
/// than a weaker one.
pub proof fn law_enhance_keeps_order(hi: int, u: int, v: int)
    requires
        0 < hi,
        0 <= u <= v,
    ensures
        0 <= enhanced(u, hi) <= enhanced(v, hi) <= 255,
{
    lemma_gamma_order(u, v, hi, 255);
    lemma_gamma_order(u, u, hi, 255);
}

proof fn lemma_gamma_zero(hi: int, k: int)
    requires
        hi > 0,
    ensures
        gamma_level(0, hi, k) == 0,
    decreases k,
{
    if k > 0 {
        lemma_gamma_zero(hi, k - 1);
        lemma_fifth_order(1, hi);
        assert((2 * k - 1) * (2 * k - 1) > 0) by (nonlinear_arith)
            requires
                k > 0,
        ;
        let t = (2 * k - 1) * (2 * k - 1);
        assert(t * fifth(hi) > 0) by (nonlinear_arith)
            requires
                t > 0,
                fifth(hi) >= 1,
        ;
    }
}

/// Enhancing leaves black where there is no edge and makes the strongest edges
/// white.
pub proof fn law_enhance_ends(hi: int, v: int)
    requires
        0 < hi <= v,
    ensures
        enhanced(0, hi) == 0,
        enhanced(v, hi) == 255,
{
    lemma_gamma_zero(hi, 255);
}

proof fn lemma_tally_of(s: Seq<u8>, i: int, lo: int, hi: int)
    requires
        0 <= i < s.len(),
        lo <= s[i] <= hi,
    ensures
        tally(s, lo, hi) > 0,
    decreases s.len(),
{
    if i < s.len() - 1 {
        assert(s.drop_last()[i] == s[i]);
        lemma_tally_of(s.drop_last(), i, lo, hi);
    }
}

/// The high cut is no higher than a level that `clip` pixels or fewer exceed.
proof fn lemma_high_cut_bound(s: Seq<u8>, clip: nat, v: int, level: int)
    requires
        0 <= level,
        v <= 255,
        tally(s, level + 1, 255) <= clip,
        exists|k: int| 0 <= k <= v && #[trigger] tally(s, k, 255) > clip,
    ensures
        0 <= high_cut_from(s, clip, v) <= level,
    decreases v,
{
    if tally(s, v, 255) > clip {
        if level < v {
            lemma_tally_split(s, level + 1, v - 1, 255);
        }
    } else {
        let k = choose|k: int| 0 <= k <= v && #[trigger] tally(s, k, 255) > clip;
        assert(k <= v - 1);
        lemma_high_cut_bound(s, clip, v - 1, level);
    }
}

proof fn lemma_least_level(s: Seq<u8>, from: int, level: int)
    requires
        0 < from <= level <= 255,
        tally(s, level, level) > 0,
    ensures
        from <= least_level_from(s, from) <= level,
    decreases level - from,
{
    if tally(s, from, from) == 0 {
        lemma_least_level(s, from + 1, level);
    }
}

/// The strongest five percent of the pixels become white as far as they are
/// edges: so does every edge that no more than that many pixels exceed. In
/// particular the strongest edge does.
pub proof fn law_strongest_edges_become_white(edges: Seq<u8>, i: int)
    requires
        0 <= i < edges.len(),
        edges[i] > 0,
        tally(edges, edges[i] + 1, 255) <= edge_clip_count(edges.len()),
    ensures
        enhanced_image(edges)[i] == 255,
{
    let n = edges.len();
    let clip = edge_clip_count(n);
    lemma_single(n);
    lemma_single(EDGE_CLIP_FRACTION as nat * single(n));
    assert(clip < n);
    lemma_tally_all(edges);
    assert(tally(edges, 0, 255) > clip);
    lemma_high_cut_bound(edges, clip, 255, edges[i] as int);
    lemma_tally_of(edges, i, edges[i] as int, edges[i] as int);
    lemma_least_level(edges, 1, edges[i] as int);
}

proof fn lemma_tally_all(s: Seq<u8>)
    ensures
        tally(s, 0, 255) == s.len(),
    decreases s.len(),
{
    if s.len() > 0 {
        lemma_tally_all(s.drop_last());
    }
}

/// Of an enhanced map, an edge that at most five percent of the pixels exceed is
/// white.
pub proof fn law_enhancing_makes_white(edges: Seq<u8>, i: int, level: u8)
    requires
        edges.len() < 0x100_0000,
        0 <= i < edges.len(),
        edges[i] == level,
        level >= 1,
        edges.filter(|v: u8| v > level).len() <= (edges.len() + 10) / 20,
    ensures
        enhanced_image(edges)[i] == 255,
{
    law_clip_counts(edges.len());
    lemma_tally_counts(edges, level + 1, 255, |v: u8| v > level);
    law_strongest_edges_become_white(edges, i);
}

/// Of an enhanced map, a pixel without an edge is black.
pub proof fn law_enhancing_keeps_black(edges: Seq<u8>, i: int)
    requires
        0 <= i < edges.len(),
        edges[i] == 0,
    ensures
        enhanced_image(edges)[i] == 0,
{
    if edge_high(edges) > 0 {
        lemma_gamma_zero(edge_high(edges), 255);
    }
}

/// A map without edges is left as it is.
pub proof fn law_enhance_leaves_blank_map(edges: Seq<u8>)
    requires
        forall|i: int| 0 <= i < edges.len() ==> edges[i] == 0,
    ensures
        enhanced_image(edges) == edges,
{
    if edges.len() > 0 {
        let n = edges.len();
        lemma_single(n);
        lemma_single(EDGE_CLIP_FRACTION as nat * single(n));
        assert(edge_clip_count(n) < n);
        lemma_high_cut_flat(edges, edge_clip_count(n), 0, 255);
        lemma_least_level_flat(edges, 1);
    } else {
        assert(enhanced_image(edges) =~= edges);
    }
}

proof fn lemma_least_level_flat(s: Seq<u8>, from: int)
    requires
        from > 0,
        forall|i: int| 0 <= i < s.len() ==> s[i] == 0,
    ensures
        least_level_from(s, from) == 0,
    decreases 256 - from,
{
    if from <= 255 {
        lemma_tally_flat(s, 0, from, from);
        lemma_least_level_flat(s, from + 1);
    }
}

/// A blur of an image of one tone leaves that tone.
pub proof fn law_blur_keeps_flat_image(luma: Seq<u8>, w: int, h: int, radius: int, v: u8)
    requires
        0 < w,
        0 < h,
        0 <= radius,
        w * h <= luma.len(),
        forall|i: int| 0 <= i < luma.len() ==> luma[i] == v,
    ensures
        blurred_image(luma, w, h, radius) == Seq::new((w * h) as nat, |i: int| v),
{
    assert forall|i: int| 0 <= i < w * h implies #[trigger] blurred_image(luma, w, h, radius)[i] == v by {
        let (x, y) = (i % w, i / w);
        assert(0 <= x < w && 0 <= y < h) by (nonlinear_arith)
            requires
                0 <= i < w * h,
                w > 0,
                x == i % w,
                y == i / w,
        ;
        let (x0, x1) = (window_start(x, radius), window_end(x, radius, w));
        let (y0, y1) = (window_start(y, radius), window_end(y, radius, h));
        let count = (x1 - x0) * (y1 - y0);
        lemma_box_flat(luma, w, h, x0, x1, y0, y1, v);
        assert(count > 0) by (nonlinear_arith)
            requires
                x1 > x0,
                y1 > y0,
                count == (x1 - x0) * (y1 - y0),
        ;
        assert(2 * (v * count) + count == v * (2 * count) + count) by (nonlinear_arith);
        vstd::arithmetic::div_mod::lemma_fundamental_div_mod_converse(
            2 * (v * count) + count,
            2 * count,
            v as int,
            count,
        );
    }
    assert(blurred_image(luma, w, h, radius) =~= Seq::new((w * h) as nat, |i: int| v));
}

proof fn lemma_box_flat(luma: Seq<u8>, w: int, h: int, x0: int, x1: int, y0: int, y1: int, v: u8)
    requires
        0 <= x0 <= x1 <= w,
        0 <= y0 <= y1 <= h,
        w * h <= luma.len(),
        forall|i: int| 0 <= i < luma.len() ==> luma[i] == v,
    ensures
        box_sum(luma, w, x0, x1, y0, y1) == v * ((x1 - x0) * (y1 - y0)),
    decreases x1 - x0,
{
    if x0 < x1 {
        lemma_box_flat(luma, w, h, x0, x1 - 1, y0, y1, v);
        lemma_column_flat(luma, w, h, x1 - 1, y0, y1, v);
        assert(v * ((x1 - x0) * (y1 - y0)) == v * ((x1 - 1 - x0) * (y1 - y0)) + v * (y1 - y0))
            by (nonlinear_arith);
    } else {
        assert(v * ((x1 - x0) * (y1 - y0)) == 0) by (nonlinear_arith)
            requires
                x1 == x0,
        ;
    }
}

proof fn lemma_column_flat(luma: Seq<u8>, w: int, h: int, x: int, y0: int, y1: int, v: u8)
    requires
        0 <= x < w,
        0 <= y0 <= y1 <= h,
        w * h <= luma.len(),
        forall|i: int| 0 <= i < luma.len() ==> luma[i] == v,
    ensures
        column_sum(luma, w, x, y0, y1) == v * (y1 - y0),
    decreases y1 - y0,
{
    if y0 < y1 {
        lemma_column_flat(luma, w, h, x, y0, y1 - 1, v);
        assert(0 <= (y1 - 1) * w + x < w * h) by (nonlinear_arith)
            requires
                0 <= x < w,
                1 <= y1 <= h,
        ;
        assert(v * (y1 - y0) == v * (y1 - 1 - y0) + v) by (nonlinear_arith);
    } else {
        assert(v * (y1 - y0) == 0) by (nonlinear_arith)
            requires
                y1 == y0,
        ;
    }
}

} // verus!
