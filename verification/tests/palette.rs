use dominant_colors::color::Color;
use dominant_colors::error::QuantizeError;
use dominant_colors::palette::{quantize, quantize_with};
use dominant_colors::sampler::{ChannelLayout, FilterPolicy};

fn rgb(pixels: &[(u8, u8, u8)]) -> Vec<u8> {
    let mut out = Vec::new();
    for &(r, g, b) in pixels {
        out.push(r);
        out.push(g);
        out.push(b);
    }
    out
}

fn color(r: u8, g: u8, b: u8) -> Color {
    Color { r, g, b }
}

fn gradient() -> Vec<u8> {
    let mut out = Vec::new();
    for x in 0..256u32 {
        out.push(x as u8);
        out.push(0);
        out.push(0);
    }
    out
}

fn mixed_image() -> Vec<u8> {
    let mut out = Vec::new();
    for y in 0..16u32 {
        for x in 0..16u32 {
            out.push((x * 16) as u8);
            out.push((y * 16) as u8);
            out.push(((x * y) % 256) as u8);
        }
    }
    out
}

#[test]
fn four_primaries_give_four_colors() {
    let buf = rgb(&[(255, 0, 0), (0, 255, 0), (0, 0, 255), (255, 255, 255)]);
    let palette = quantize(&buf, ChannelLayout::Rgb8, 2, 2, 1, 4).unwrap();
    assert_eq!(palette.len(), 4);
    for wanted in [color(255, 0, 0), color(0, 255, 0), color(0, 0, 255), color(255, 255, 255)] {
        assert_eq!(palette.iter().filter(|c| **c == wanted).count(), 1);
    }
}

#[test]
fn four_primaries_come_in_the_order_they_became_final() {
    let buf = rgb(&[(255, 0, 0), (0, 255, 0), (0, 0, 255), (255, 255, 255)]);
    let palette = quantize(&buf, ChannelLayout::Rgb8, 2, 2, 1, 4).unwrap();
    assert_eq!(
        palette,
        vec![color(0, 0, 255), color(0, 255, 0), color(255, 0, 0), color(255, 255, 255)]
    );
}

#[test]
fn uniform_image_gives_its_one_color() {
    let buf = rgb(&[(128, 64, 32); 100]);
    let palette = quantize(&buf, ChannelLayout::Rgb8, 10, 10, 1, 5).unwrap();
    assert_eq!(palette, vec![color(128, 64, 32)]);
}

#[test]
fn uniform_image_at_a_coarser_stride() {
    let buf = rgb(&[(128, 64, 32); 100]);
    let palette = quantize(&buf, ChannelLayout::Rgb8, 10, 10, 10, 5).unwrap();
    assert_eq!(palette, vec![color(128, 64, 32)]);
}

#[test]
fn gradient_splits_into_eight_rising_boxes() {
    let palette = quantize(&gradient(), ChannelLayout::Rgb8, 256, 1, 1, 8).unwrap();
    assert_eq!(palette.len(), 8);
    for pair in palette.windows(2) {
        assert!(pair[0].r < pair[1].r);
    }
    for c in &palette {
        assert_eq!((c.g, c.b), (0, 0));
    }
}

#[test]
fn gradient_box_means_are_exact() {
    let palette = quantize(&gradient(), ChannelLayout::Rgb8, 256, 1, 1, 8).unwrap();
    let reds: Vec<u8> = palette.iter().map(|c| c.r).collect();
    assert_eq!(reds, vec![16, 48, 80, 112, 144, 176, 208, 240]);
}

#[test]
fn gradient_halves() {
    let palette = quantize(&gradient(), ChannelLayout::Rgb8, 256, 1, 1, 2).unwrap();
    assert_eq!(palette, vec![color(64, 0, 0), color(192, 0, 0)]);
}

#[test]
fn palette_never_exceeds_the_limit() {
    let buf = mixed_image();
    for k in (0..=255u8).step_by(5) {
        let palette = quantize(&buf, ChannelLayout::Rgb8, 16, 16, 1, k).unwrap();
        assert!(palette.len() <= k as usize);
    }
    let plain = rgb(&[(9, 9, 9); 7]);
    for k in 0..=20u8 {
        let palette = quantize(&plain, ChannelLayout::Rgb8, 7, 1, 1, k).unwrap();
        assert!(palette.len() <= k as usize);
    }
}

#[test]
fn palette_length_is_limit_or_occupied_cells() {
    // 16 x 16 pixels whose red and green step by 16: 256 different cells.
    let buf = mixed_image();
    for k in [0u8, 1, 2, 3, 7, 64, 200, 255] {
        let palette = quantize(&buf, ChannelLayout::Rgb8, 16, 16, 1, k).unwrap();
        assert_eq!(palette.len(), k as usize);
    }
    let few = rgb(&[(0, 0, 0), (8, 0, 0), (0, 8, 0), (1, 1, 1), (9, 1, 1)]);
    assert_eq!(quantize(&few, ChannelLayout::Rgb8, 5, 1, 1, 200).unwrap().len(), 3);
}

#[test]
fn fewer_colors_asked_never_more_given() {
    let buf = mixed_image();
    let mut previous = 0;
    for k in (0..=255u8).step_by(3) {
        let len = quantize(&buf, ChannelLayout::Rgb8, 16, 16, 2, k).unwrap().len();
        assert!(previous <= len);
        previous = len;
    }
    // Stride 2 visits 128 pixels, each in a cell of its own.
    assert_eq!(previous, 128);
}

#[test]
fn zero_colors_is_an_empty_palette() {
    let buf = rgb(&[(1, 2, 3), (200, 100, 50)]);
    assert_eq!(quantize(&buf, ChannelLayout::Rgb8, 2, 1, 1, 0), Ok(vec![]));
}

#[test]
fn one_color_is_the_overall_mean() {
    let buf = rgb(&[(0, 0, 0), (255, 255, 255), (10, 20, 30)]);
    // Sums 265, 275, 285 over 3 samples: 88.33, 91.67, 95.
    assert_eq!(quantize(&buf, ChannelLayout::Rgb8, 3, 1, 1, 1), Ok(vec![color(88, 92, 95)]));
}

#[test]
fn transparent_pixel_is_insufficient_data() {
    let buf = vec![10u8, 20, 30, 0];
    assert_eq!(
        quantize(&buf, ChannelLayout::Rgba8, 1, 1, 1, 5),
        Err(QuantizeError::InsufficientData)
    );
}

#[test]
fn transparent_pixel_is_insufficient_data_even_for_zero_colors() {
    let buf = vec![10u8, 20, 30, 0];
    assert_eq!(
        quantize(&buf, ChannelLayout::Rgba8, 1, 1, 1, 0),
        Err(QuantizeError::InsufficientData)
    );
}

#[test]
fn empty_image_is_insufficient_data() {
    assert_eq!(
        quantize(&[], ChannelLayout::Rgb8, 0, 0, 1, 5),
        Err(QuantizeError::InsufficientData)
    );
    assert_eq!(
        quantize(&[], ChannelLayout::Rgb8, 0, 7, 1, 5),
        Err(QuantizeError::InsufficientData)
    );
}

#[test]
fn alpha_threshold_is_125() {
    let buf = vec![10u8, 20, 30, 124, 200, 100, 50, 125];
    assert_eq!(quantize(&buf, ChannelLayout::Rgba8, 2, 1, 1, 5), Ok(vec![color(200, 100, 50)]));
}

#[test]
fn wrong_length_is_a_mismatch() {
    let buf = vec![0u8; 11];
    assert_eq!(
        quantize(&buf, ChannelLayout::Rgb8, 2, 2, 1, 5),
        Err(QuantizeError::BufferLengthMismatch)
    );
    assert_eq!(
        quantize(&buf, ChannelLayout::Rgba8, 2, 2, 1, 5),
        Err(QuantizeError::BufferLengthMismatch)
    );
    let twelve = vec![0u8; 12];
    assert_eq!(
        quantize(&twelve, ChannelLayout::Rgba8, 2, 2, 1, 5),
        Err(QuantizeError::BufferLengthMismatch)
    );
    assert!(quantize(&twelve, ChannelLayout::Rgb8, 2, 2, 1, 5).is_ok());
}

#[test]
fn huge_dimensions_are_a_mismatch() {
    let buf = vec![0u8; 12];
    assert_eq!(
        quantize(&buf, ChannelLayout::Rgb8, u32::MAX, u32::MAX, 1, 5),
        Err(QuantizeError::BufferLengthMismatch)
    );
}

#[test]
fn other_layouts_are_unsupported() {
    let buf = vec![0u8; 12];
    for layout in [
        ChannelLayout::Luma8,
        ChannelLayout::LumaA8,
        ChannelLayout::Rgb16,
        ChannelLayout::Rgba16,
        ChannelLayout::Luma16,
        ChannelLayout::LumaA16,
        ChannelLayout::Rgb32F,
        ChannelLayout::Rgba32F,
        ChannelLayout::Other,
    ] {
        assert_eq!(
            quantize(&buf, layout, 2, 2, 1, 5),
            Err(QuantizeError::UnsupportedChannelLayout)
        );
    }
}

#[test]
fn unsupported_layout_is_reported_before_the_length() {
    let buf = vec![0u8; 5];
    assert_eq!(
        quantize(&buf, ChannelLayout::Luma8, 2, 2, 1, 5),
        Err(QuantizeError::UnsupportedChannelLayout)
    );
}

#[test]
fn two_runs_agree() {
    let buf = mixed_image();
    for k in [1u8, 5, 17, 255] {
        let first = quantize(&buf, ChannelLayout::Rgb8, 16, 16, 3, k);
        let second = quantize(&buf, ChannelLayout::Rgb8, 16, 16, 3, k);
        assert_eq!(first, second);
    }
}

#[test]
fn few_colors_in_different_cells_are_all_kept() {
    let colors = [(3, 250, 77), (100, 100, 100), (108, 100, 100), (0, 0, 0), (255, 255, 255)];
    let mut pixels = Vec::new();
    for (i, &c) in colors.iter().enumerate() {
        for _ in 0..(i + 1) * 3 {
            pixels.push(c);
        }
    }
    let buf = rgb(&pixels);
    for k in [5u8, 6, 100, 255] {
        let palette = quantize(&buf, ChannelLayout::Rgb8, pixels.len() as u32, 1, 1, k).unwrap();
        assert_eq!(palette.len(), 5);
        for &(r, g, b) in &colors {
            assert!(palette.contains(&color(r, g, b)));
        }
    }
}

#[test]
fn two_colors_in_one_cell_are_averaged() {
    let buf = rgb(&[(128, 64, 32), (129, 64, 32)]);
    // Red sums to 257 over 2 samples: 128.5 rounds up.
    assert_eq!(quantize(&buf, ChannelLayout::Rgb8, 2, 1, 1, 2), Ok(vec![color(129, 64, 32)]));
}

#[test]
fn white_is_kept_by_default_and_dropped_on_request() {
    let buf = rgb(&[(255, 255, 255), (251, 251, 251), (10, 10, 10)]);
    let kept = quantize(&buf, ChannelLayout::Rgb8, 3, 1, 1, 4).unwrap();
    assert_eq!(kept.len(), 2);
    let policy = FilterPolicy::visible_without_white();
    let dropped = quantize_with(&buf, ChannelLayout::Rgb8, 3, 1, 1, 4, &policy).unwrap();
    assert_eq!(dropped, vec![color(10, 10, 10)]);
}

#[test]
fn quantize_is_quantize_with_the_visible_policy() {
    let buf = mixed_image();
    let policy = FilterPolicy::visible();
    assert_eq!(
        quantize(&buf, ChannelLayout::Rgb8, 16, 16, 1, 9),
        quantize_with(&buf, ChannelLayout::Rgb8, 16, 16, 1, 9, &policy)
    );
}

#[test]
fn stride_skips_pixels() {
    // Pixels 0, 3 and 6 are visited: black, black, red.
    let buf = rgb(&[
        (0, 0, 0),
        (0, 255, 0),
        (0, 255, 0),
        (0, 0, 0),
        (0, 255, 0),
        (0, 255, 0),
        (255, 0, 0),
        (0, 255, 0),
    ]);
    let palette = quantize(&buf, ChannelLayout::Rgb8, 8, 1, 3, 8).unwrap();
    assert_eq!(palette, vec![color(0, 0, 0), color(255, 0, 0)]);
}

#[test]
fn stride_beyond_the_image_visits_the_first_pixel() {
    let buf = rgb(&[(7, 8, 9), (200, 200, 200)]);
    assert_eq!(
        quantize(&buf, ChannelLayout::Rgb8, 2, 1, u32::MAX, 8),
        Ok(vec![color(7, 8, 9)])
    );
}
