//! Luminance, edges, blur and sprite matching.

use charpaint::asciiart::{
    best_sprite_match, enhance_edges, gray_channel, scale_blur, sobel_edges, stretch_luminance,
    to_luminance, AA_EDGE_THRESHOLD, NOTIONAL_CELL_PX, PROCESSING_HEIGHT, SPRITE_H, SPRITE_W,
};

/// A small generator of pseudo-random bytes.
fn noise(len: usize, seed: u32) -> Vec<u8> {
    let mut state = seed;
    (0..len)
        .map(|_| {
            state = state.wrapping_mul(1664525).wrapping_add(1013904223);
            (state >> 24) as u8
        })
        .collect()
}

#[test]
fn luminance_of_pure_colours() {
    let rgba = [
        255, 0, 0, 255, 0, 255, 0, 255, 0, 0, 255, 255, 255, 255, 255, 0, 0, 0, 0, 9,
    ];
    assert_eq!(to_luminance(&rgba), vec![54, 182, 18, 255, 0]);
}

#[test]
fn luminance_ignores_partial_pixel() {
    assert_eq!(to_luminance(&[1, 2, 3]), vec![]);
    assert_eq!(to_luminance(&[255, 255, 255, 255, 7, 7]), vec![255]);
}

#[test]
fn luminance_is_single_precision() {
    let mut rgba = Vec::new();
    let mut expected = Vec::new();
    for r in (0..256).step_by(5) {
        for g in (0..256).step_by(3) {
            for b in (0..256).step_by(7) {
                rgba.extend_from_slice(&[r as u8, g as u8, b as u8, 255]);
                let l = 0.2126f32 * r as f32 + 0.7152f32 * g as f32 + 0.0722f32 * b as f32;
                expected.push(l.round() as u8);
            }
        }
    }
    assert_eq!(to_luminance(&rgba), expected);
}

#[test]
fn stretch_spans_full_range() {
    let mut luma = vec![10, 20, 30];
    stretch_luminance(&mut luma);
    assert_eq!(luma, vec![0, 128, 255]);
}

#[test]
fn stretch_clips_outliers() {
    // One dark and one bright outlier in 200 pixels are within one percent.
    let mut luma = vec![100u8; 99];
    luma.extend(vec![150u8; 99]);
    luma.push(0);
    luma.push(255);
    stretch_luminance(&mut luma);
    assert_eq!(luma[0], 0);
    assert_eq!(luma[100], 255);
    assert_eq!(luma[198], 0);
    assert_eq!(luma[199], 255);
}

#[test]
fn stretch_leaves_flat_and_empty_images() {
    let mut flat = vec![77u8; 50];
    stretch_luminance(&mut flat);
    assert_eq!(flat, vec![77u8; 50]);
    let mut empty: Vec<u8> = Vec::new();
    stretch_luminance(&mut empty);
    assert!(empty.is_empty());
}

#[test]
fn stretch_is_single_precision() {
    for (lo, hi) in [(0u8, 255u8), (13, 200), (100, 103), (7, 8), (254, 255)] {
        let mut luma: Vec<u8> = (lo..=hi).collect();
        // Few enough pixels that nothing is clipped.
        luma.truncate(40);
        let top = *luma.last().unwrap();
        let expected: Vec<u8> = luma
            .iter()
            .map(|&v| {
                ((v as f32 - lo as f32) / (top - lo) as f32 * 255.0)
                    .max(0.0)
                    .min(255.0)
                    .round() as u8
            })
            .collect();
        stretch_luminance(&mut luma);
        assert_eq!(luma, expected);
    }
}

#[test]
fn stretch_keeps_order() {
    let before = noise(300, 5);
    let mut after = before.clone();
    stretch_luminance(&mut after);
    for i in 0..before.len() {
        for j in 0..before.len() {
            if before[i] <= before[j] {
                assert!(after[i] <= after[j]);
            }
        }
    }
}

fn float_sobel(luma: &[u8], w: usize, h: usize) -> Vec<u8> {
    let at = |x: i64, y: i64| -> f32 {
        let cx = x.clamp(0, w as i64 - 1) as usize;
        let cy = y.clamp(0, h as i64 - 1) as usize;
        luma[cy * w + cx] as f32
    };
    let mut lengths = Vec::new();
    for y in 0..h as i64 {
        for x in 0..w as i64 {
            let gx = at(x + 1, y - 1) + 2.0 * at(x + 1, y) + at(x + 1, y + 1)
                - at(x - 1, y - 1)
                - 2.0 * at(x - 1, y)
                - at(x - 1, y + 1);
            let gy = at(x - 1, y + 1) + 2.0 * at(x, y + 1) + at(x + 1, y + 1)
                - at(x - 1, y - 1)
                - 2.0 * at(x, y - 1)
                - at(x + 1, y - 1);
            lengths.push((gx * gx + gy * gy).sqrt());
        }
    }
    let most = lengths.iter().cloned().fold(0.0f32, f32::max);
    lengths
        .iter()
        .map(|&v| if most > 0.0 { (v / most * 255.0).min(255.0).round() as u8 } else { 0 })
        .collect()
}

#[test]
fn sobel_of_a_step() {
    let luma = [0, 0, 200, 200, 0, 0, 200, 200, 0, 0, 200, 200];
    assert_eq!(
        sobel_edges(&luma, 4, 3),
        vec![0, 255, 255, 0, 0, 255, 255, 0, 0, 255, 255, 0]
    );
}

#[test]
fn sobel_without_edges_or_pixels() {
    assert_eq!(sobel_edges(&[9; 12], 4, 3), vec![0; 12]);
    assert_eq!(sobel_edges(&[], 4, 3), Vec::<u8>::new());
    assert_eq!(sobel_edges(&[1, 2, 3], 0, 3), vec![0, 0, 0]);
    assert_eq!(sobel_edges(&[1, 2, 3], 0, u32::MAX), vec![0, 0, 0]);
    assert_eq!(sobel_edges(&[1, 2, 3], u32::MAX, 0), vec![0, 0, 0]);
    assert_eq!(sobel_edges(&[], u32::MAX, u32::MAX), Vec::<u8>::new());
}

#[test]
fn sobel_is_single_precision() {
    for (seed, w, h) in [(1u32, 17usize, 11usize), (2, 1, 9), (3, 9, 1), (4, 40, 30)] {
        let luma = noise(w * h, seed);
        let edges = sobel_edges(&luma, w as u32, h as u32);
        assert_eq!(edges, float_sobel(&luma, w, h));
        assert_eq!(*edges.iter().max().unwrap(), 255);
    }
}

fn float_enhance(edges: &[u8]) -> Vec<u8> {
    let mut counts = [0u64; 256];
    for &v in edges {
        counts[v as usize] += 1;
    }
    let clip = (5.0f32 / 100.0 * edges.len() as f32).round() as u64;
    let mut hi = 255u8;
    let mut seen = 0;
    for v in (0..256).rev() {
        seen += counts[v];
        if seen > clip {
            hi = v as u8;
            break;
        }
    }
    if hi == 0 {
        // Fewer edges than five percent: all of them count as full strength.
        match edges.iter().filter(|&&v| v > 0).min() {
            Some(&least) => hi = least,
            None => return edges.to_vec(),
        }
    }
    let scale = 255.0 / hi as f32;
    edges
        .iter()
        .map(|&v| (((v as f32 * scale).min(255.0) / 255.0).powf(2.5) * 255.0).round() as u8)
        .collect()
}

#[test]
fn enhance_crushes_midtones() {
    let mut edges = vec![0, 64, 128, 255];
    enhance_edges(&mut edges);
    assert_eq!(edges, vec![0, 8, 46, 255]);
}

#[test]
fn enhance_leaves_blank_and_empty_maps() {
    let mut blank = vec![0u8; 30];
    enhance_edges(&mut blank);
    assert_eq!(blank, vec![0u8; 30]);
    let mut empty: Vec<u8> = Vec::new();
    enhance_edges(&mut empty);
    assert!(empty.is_empty());
}

#[test]
fn enhance_makes_sparse_edges_white() {
    let mut edges = vec![0u8; 95];
    edges.extend([100u8; 5]);
    enhance_edges(&mut edges);
    assert_eq!(edges[..95], [0u8; 95]);
    assert_eq!(edges[95..], [255u8; 5]);
    // Weak and strong ones alike, as long as they are few.
    let mut edges = vec![0u8; 100];
    edges[3] = 1;
    edges[50] = 200;
    enhance_edges(&mut edges);
    assert_eq!((edges[3], edges[50]), (255, 255));
    assert_eq!(edges.iter().filter(|&&v| v == 0).count(), 98);
    // One more than five percent and the weaker ones are pushed down.
    let mut edges = vec![0u8; 94];
    edges.extend([200, 200, 200, 200, 200, 100]);
    let expected = float_enhance(&edges);
    enhance_edges(&mut edges);
    assert_eq!(edges, expected);
    assert_eq!(edges[94..], [255u8; 6]);
    let mut edges = vec![0u8; 93];
    edges.extend([200, 200, 200, 200, 200, 200, 100]);
    enhance_edges(&mut edges);
    assert_eq!(edges[93..], [255, 255, 255, 255, 255, 255, 45]);
}

#[test]
fn enhance_is_single_precision() {
    for hi in 1..=255u32 {
        // Every level up to hi once; the top five percent are clipped.
        let mut edges: Vec<u8> = (0..=hi).map(|v| v as u8).collect();
        let expected = float_enhance(&edges);
        enhance_edges(&mut edges);
        assert_eq!(edges, expected);
    }
}

#[test]
fn match_finds_nearest_sprite() {
    let sprites = vec![vec![0, 0, 0], vec![255, 0, 0], vec![0, 255, 255]];
    assert_eq!(best_sprite_match(&[10, 5, 5], &sprites, 0), 0);
    assert_eq!(best_sprite_match(&[200, 5, 5], &sprites, 0), 1);
    assert_eq!(best_sprite_match(&[10, 200, 250], &sprites, 0), 2);
}

#[test]
fn match_respects_first_candidate() {
    let sprites = vec![vec![0, 0], vec![255, 255], vec![9, 9]];
    assert_eq!(best_sprite_match(&[0, 0], &sprites, 0), 0);
    assert_eq!(best_sprite_match(&[0, 0], &sprites, 1), 2);
    assert_eq!(best_sprite_match(&[255, 255], &sprites, 2), 2);
    assert_eq!(best_sprite_match(&[255, 255], &sprites, 99), 2);
}

#[test]
fn match_prefers_first_of_equals() {
    let sprites = vec![vec![7], vec![3], vec![3], vec![7]];
    assert_eq!(best_sprite_match(&[3], &sprites, 0), 1);
    assert_eq!(best_sprite_match(&[5], &sprites, 0), 0);
    assert_eq!(best_sprite_match(&[5], &sprites, 1), 1);
}

#[test]
fn match_without_sprites() {
    assert_eq!(best_sprite_match(&[1, 2], &[], 0), 0);
    assert_eq!(best_sprite_match(&[1, 2], &[], 5), 0);
}

#[test]
fn match_finds_a_sprite_that_is_the_patch() {
    let size = (SPRITE_W * SPRITE_H) as usize;
    let sprites: Vec<Vec<u8>> = (0..20).map(|k| noise(size, k)).collect();
    for k in 0..20 {
        assert_eq!(best_sprite_match(&sprites[k], &sprites, 0), k);
    }
}

#[test]
fn blur_takes_the_mean_of_the_window() {
    assert_eq!(scale_blur(&[0, 30, 90], 3, 1, 1), vec![15, 40, 60]);
    assert_eq!(scale_blur(&[0, 30, 90], 3, 1, 0), vec![0, 30, 90]);
    assert_eq!(scale_blur(&[0, 30, 90], 3, 1, 50), vec![40, 40, 40]);
    assert_eq!(scale_blur(&[0, 30, 90], 1, 3, 1), vec![15, 40, 60]);
}

#[test]
fn blur_rounds_to_nearest() {
    assert_eq!(scale_blur(&[0, 1], 2, 1, 1), vec![1, 1]);
    assert_eq!(scale_blur(&[0, 0, 1], 3, 1, 5), vec![0, 0, 0]);
}

#[test]
fn blur_in_both_directions() {
    let (w, h, r) = (13usize, 9usize, 2usize);
    let luma = noise(w * h, 77);
    let blurred = scale_blur(&luma, w as u32, h as u32, r);
    for y in 0..h {
        for x in 0..w {
            let (mut sum, mut count) = (0u32, 0u32);
            for v in y.saturating_sub(r)..=(y + r).min(h - 1) {
                for u in x.saturating_sub(r)..=(x + r).min(w - 1) {
                    sum += luma[v * w + u] as u32;
                    count += 1;
                }
            }
            assert_eq!(blurred[y * w + x] as u32, (2 * sum + count) / (2 * count));
        }
    }
}

#[test]
fn blur_keeps_flat_and_empty_images() {
    assert_eq!(scale_blur(&[42; 20], 5, 4, 3), vec![42; 20]);
    assert_eq!(scale_blur(&[], 0, 4, 3), Vec::<u8>::new());
}

#[test]
fn first_channel_of_pixels() {
    assert_eq!(gray_channel(&[1, 2, 3, 4, 5, 6, 7, 8]), vec![1, 5]);
    assert_eq!(gray_channel(&[1, 2, 3, 4, 9]), vec![1, 9]);
    assert_eq!(gray_channel(&[]), Vec::<u8>::new());
}

#[test]
fn constants_of_the_pipeline() {
    assert_eq!(PROCESSING_HEIGHT, 1024);
    assert_eq!((SPRITE_W, SPRITE_H), (7, NOTIONAL_CELL_PX));
    assert_eq!(AA_EDGE_THRESHOLD, 35);
}

#[test]
fn edges_ignore_polarity_and_brightness() {
    for (seed, w, h) in [(5u32, 13usize, 9usize), (6, 1, 7), (7, 8, 1), (8, 1, 1)] {
        // Levels from 0 to 127, so that there is room to brighten.
        let luma: Vec<u8> = noise(w * h, seed).iter().map(|v| v / 2).collect();
        let edges = sobel_edges(&luma, w as u32, h as u32);
        let negative: Vec<u8> = luma.iter().map(|v| 255 - v).collect();
        assert_eq!(sobel_edges(&negative, w as u32, h as u32), edges);
        for d in [1, 50, 128] {
            let brighter: Vec<u8> = luma.iter().map(|v| v + d).collect();
            assert_eq!(sobel_edges(&brighter, w as u32, h as u32), edges);
        }
    }
}

#[test]
fn edges_turn_with_the_image() {
    for (seed, w, h) in [(9u32, 13usize, 9usize), (10, 1, 7), (11, 8, 1), (12, 20, 20)] {
        let luma = noise(w * h, seed);
        let edges = sobel_edges(&luma, w as u32, h as u32);
        let mut transposed = vec![0; w * h];
        let mut mirrored = vec![0; w * h];
        let mut flipped = vec![0; w * h];
        for y in 0..h {
            for x in 0..w {
                transposed[x * h + y] = luma[y * w + x];
                mirrored[y * w + (w - 1 - x)] = luma[y * w + x];
                flipped[(h - 1 - y) * w + x] = luma[y * w + x];
            }
        }
        let of_transposed = sobel_edges(&transposed, h as u32, w as u32);
        let of_mirrored = sobel_edges(&mirrored, w as u32, h as u32);
        let of_flipped = sobel_edges(&flipped, w as u32, h as u32);
        for y in 0..h {
            for x in 0..w {
                let level = edges[y * w + x];
                assert_eq!(of_transposed[x * h + y], level);
                assert_eq!(of_mirrored[y * w + (w - 1 - x)], level);
                assert_eq!(of_flipped[(h - 1 - y) * w + x], level);
            }
        }
    }
}

#[test]
fn edge_levels_are_close_to_the_real_ones() {
    let (w, h) = (30usize, 20usize);
    let luma = noise(w * h, 21);
    let edges = sobel_edges(&luma, w as u32, h as u32);
    let at = |x: i64, y: i64| {
        let (x, y) = (x.clamp(0, w as i64 - 1), y.clamp(0, h as i64 - 1));
        luma[y as usize * w + x as usize] as f64
    };
    let mut lengths = Vec::new();
    for y in 0..h as i64 {
        for x in 0..w as i64 {
            let gx = at(x + 1, y - 1) + 2.0 * at(x + 1, y) + at(x + 1, y + 1)
                - at(x - 1, y - 1) - 2.0 * at(x - 1, y) - at(x - 1, y + 1);
            let gy = at(x - 1, y + 1) + 2.0 * at(x, y + 1) + at(x + 1, y + 1)
                - at(x - 1, y - 1) - 2.0 * at(x, y - 1) - at(x + 1, y - 1);
            lengths.push((gx * gx + gy * gy).sqrt());
        }
    }
    let most = lengths.iter().cloned().fold(0.0f64, f64::max);
    for (level, length) in edges.iter().zip(&lengths) {
        assert!((*level as f64 - 255.0 * length / most).abs() <= 0.5 + 1.0 / 4096.0);
    }
}
