use dominant_colors::color::{format_hex, Color};
use dominant_colors::color_box::ColorBox;
use dominant_colors::decimal::parse_u8;
use dominant_colors::error::QuantizeError;
use dominant_colors::histogram::{Bucket, Histogram};
use dominant_colors::palette::build_palette;
use dominant_colors::quantizer::quantize_boxes;
use dominant_colors::region::{Axis, Bounds};
use dominant_colors::sampler::{sample_pixels, ChannelLayout, FilterPolicy, Sample};

fn opaque(r: u8, g: u8, b: u8) -> Sample {
    Sample { r, g, b, a: 255 }
}

fn bounds(r: (u8, u8), g: (u8, u8), b: (u8, u8)) -> Bounds {
    Bounds { r_min: r.0, r_max: r.1, g_min: g.0, g_max: g.1, b_min: b.0, b_max: b.1 }
}

#[test]
fn hex_is_upper_case_and_padded() {
    assert_eq!(format_hex(255, 0, 0), "FF0000");
    assert_eq!(format_hex(10, 11, 12), "0A0B0C");
    assert_eq!(format_hex(0, 0, 0), "000000");
    assert_eq!(format_hex(171, 205, 239), "ABCDEF");
    assert_eq!(Color { r: 18, g: 52, b: 86 }.to_hex(), "123456");
}

#[test]
fn hex_agrees_with_the_standard_formatter() {
    for v in 0..=255u8 {
        let w = v.wrapping_mul(7).wrapping_add(3);
        assert_eq!(format_hex(v, w, 255 - v), format!("{:02X}{:02X}{:02X}", v, w, 255 - v));
    }
}

#[test]
fn numbers_below_256_are_read() {
    for v in 0..=255u32 {
        assert_eq!(parse_u8(&format!("{}", v)), Some(v as u8));
        assert_eq!(parse_u8(&format!("+{}", v)), Some(v as u8));
        assert_eq!(parse_u8(&format!("000{}", v)), Some(v as u8));
    }
}

#[test]
fn reading_agrees_with_the_standard_parser() {
    for text in [
        "", "+", "-", "0", "255", "256", "300", "+5", "-5", "-0", "007", "+007", " 5", "5 ", "1e2",
        "1_0", "0x10", "++5", "5+", "२", "1२", "é", "99999999999999999999999999", "0000000000255",
        "00000000000256", "2 5", "25\n", "12a",
    ] {
        assert_eq!(parse_u8(text), text.parse::<u8>().ok(), "{:?}", text);
    }
    for v in 256..2000u32 {
        assert_eq!(parse_u8(&format!("{}", v)), None);
    }
}

#[test]
fn sampling_reads_rgb_and_rgba() {
    let keep_all = FilterPolicy { min_alpha: 0, white_cutoff: 255 };
    let buf = [1u8, 2, 3, 4, 5, 6, 7, 8, 9, 10, 11, 12];
    assert_eq!(
        sample_pixels(&buf, ChannelLayout::Rgb8, 4, 1, 1, &keep_all),
        Ok(vec![opaque(1, 2, 3), opaque(4, 5, 6), opaque(7, 8, 9), opaque(10, 11, 12)])
    );
    assert_eq!(
        sample_pixels(&buf, ChannelLayout::Rgba8, 3, 1, 1, &keep_all),
        Ok(vec![
            Sample { r: 1, g: 2, b: 3, a: 4 },
            Sample { r: 5, g: 6, b: 7, a: 8 },
            Sample { r: 9, g: 10, b: 11, a: 12 }
        ])
    );
}

#[test]
fn sampling_strides_in_pixels() {
    let keep_all = FilterPolicy { min_alpha: 0, white_cutoff: 255 };
    let mut buf = Vec::new();
    for i in 0..10u8 {
        buf.extend_from_slice(&[i, i, i]);
    }
    let taken = sample_pixels(&buf, ChannelLayout::Rgb8, 5, 2, 3, &keep_all).unwrap();
    assert_eq!(taken, vec![opaque(0, 0, 0), opaque(3, 3, 3), opaque(6, 6, 6), opaque(9, 9, 9)]);
    let taken = sample_pixels(&buf, ChannelLayout::Rgb8, 5, 2, 10, &keep_all).unwrap();
    assert_eq!(taken, vec![opaque(0, 0, 0)]);
    let taken = sample_pixels(&buf, ChannelLayout::Rgb8, 5, 2, 5, &keep_all).unwrap();
    assert_eq!(taken, vec![opaque(0, 0, 0), opaque(5, 5, 5)]);
}

#[test]
fn sampling_filters_by_alpha_and_white() {
    let policy = FilterPolicy { min_alpha: 100, white_cutoff: 240 };
    let buf = [
        241u8, 241, 241, 255, // near white
        241, 241, 240, 255, // blue not above the cutoff
        1, 2, 3, 99, // too transparent
        1, 2, 3, 100,
    ];
    assert_eq!(
        sample_pixels(&buf, ChannelLayout::Rgba8, 2, 2, 1, &policy),
        Ok(vec![Sample { r: 241, g: 241, b: 240, a: 255 }, Sample { r: 1, g: 2, b: 3, a: 100 }])
    );
    assert!(policy.admits(&Sample { r: 1, g: 2, b: 3, a: 100 }));
    assert!(!policy.admits(&Sample { r: 1, g: 2, b: 3, a: 99 }));
}

#[test]
fn sampling_errors() {
    let policy = FilterPolicy::visible();
    assert_eq!(
        sample_pixels(&[0u8; 7], ChannelLayout::Rgb8, 1, 2, 1, &policy),
        Err(QuantizeError::BufferLengthMismatch)
    );
    assert_eq!(
        sample_pixels(&[0u8; 6], ChannelLayout::Luma16, 1, 2, 1, &policy),
        Err(QuantizeError::UnsupportedChannelLayout)
    );
    assert_eq!(ChannelLayout::Rgb8.channel_count(), Some(3));
    assert_eq!(ChannelLayout::Rgba8.channel_count(), Some(4));
    assert_eq!(ChannelLayout::Luma8.channel_count(), None);
}

#[test]
fn policies() {
    assert_eq!(FilterPolicy::visible(), FilterPolicy { min_alpha: 125, white_cutoff: 255 });
    assert_eq!(
        FilterPolicy::visible_without_white(),
        FilterPolicy { min_alpha: 125, white_cutoff: 250 }
    );
}

#[test]
fn histogram_tallies_by_upper_five_bits() {
    let samples = [opaque(8, 16, 24), opaque(15, 23, 31), opaque(16, 16, 24), opaque(255, 0, 7)];
    let hist = Histogram::build(&samples);
    assert_eq!(hist.bucket(1, 2, 3), Bucket { count: 2, r_sum: 23, g_sum: 39, b_sum: 55 });
    assert_eq!(hist.bucket(2, 2, 3), Bucket { count: 1, r_sum: 16, g_sum: 16, b_sum: 24 });
    assert_eq!(hist.bucket(31, 0, 0), Bucket { count: 1, r_sum: 255, g_sum: 0, b_sum: 7 });
    assert_eq!(hist.bucket(0, 0, 0), Bucket { count: 0, r_sum: 0, g_sum: 0, b_sum: 0 });
    assert_eq!(hist.cell(1 * 1024 + 2 * 32 + 3), hist.bucket(1, 2, 3));
    let total: u64 = (0..32768).map(|i| hist.cell(i).count).sum();
    assert_eq!(total, 4);
}

#[test]
fn root_box_is_the_populated_range() {
    let samples = [opaque(8, 16, 24), opaque(15, 23, 31), opaque(16, 16, 24), opaque(255, 0, 7)];
    let hist = Histogram::build(&samples);
    let root = ColorBox::survey(&hist, Bounds::everything()).unwrap();
    assert_eq!(root.bounds, bounds((1, 31), (0, 2), (0, 3)));
    assert_eq!(root.population, 4);
    assert_eq!((root.r_sum, root.g_sum, root.b_sum), (294, 55, 86));
    assert_eq!(ColorBox::root(&hist), Some(root));
    assert_eq!(ColorBox::root(&Histogram::build(&[])), None);
    assert_eq!(ColorBox::survey(&Histogram::build(&[]), Bounds::everything()), None);
    assert_eq!(ColorBox::survey(&hist, bounds((3, 30), (0, 31), (0, 31))), None);
    let part = ColorBox::survey(&hist, bounds((0, 2), (0, 31), (0, 31))).unwrap();
    assert_eq!(part.bounds, bounds((1, 2), (2, 2), (3, 3)));
    assert_eq!(part.population, 3);
}

#[test]
fn longest_axis_prefers_red_then_green() {
    let make = |b: Bounds| ColorBox { bounds: b, population: 1, r_sum: 0, g_sum: 0, b_sum: 0 };
    assert_eq!(make(bounds((0, 5), (0, 5), (0, 5))).longest_axis(), Axis::Red);
    assert_eq!(make(bounds((0, 4), (0, 5), (0, 5))).longest_axis(), Axis::Green);
    assert_eq!(make(bounds((0, 4), (0, 4), (0, 5))).longest_axis(), Axis::Blue);
    assert_eq!(make(bounds((0, 5), (0, 4), (0, 5))).longest_axis(), Axis::Red);
    assert_eq!(make(bounds((7, 7), (7, 7), (7, 7))).longest_axis(), Axis::Red);
    assert_eq!(make(bounds((0, 9), (10, 30), (0, 3))).longest_axis(), Axis::Green);
}

#[test]
fn split_cuts_at_the_median() {
    // Red cells 0, 1, 2, 3 hold 1, 1, 5 and 1 samples.
    let mut samples = vec![opaque(0, 0, 0), opaque(8, 0, 0), opaque(24, 0, 0)];
    for _ in 0..5 {
        samples.push(opaque(16, 0, 0));
    }
    let hist = Histogram::build(&samples);
    let root = ColorBox::survey(&hist, Bounds::everything()).unwrap();
    assert_eq!(root.bounds, bounds((0, 3), (0, 0), (0, 0)));
    // Up to cell 2 there are 7 of 8 samples: the first to reach half.
    let (low, high) = root.split(&hist, Axis::Red).unwrap();
    assert_eq!(low.bounds, bounds((0, 2), (0, 0), (0, 0)));
    assert_eq!(high.bounds, bounds((3, 3), (0, 0), (0, 0)));
    assert_eq!((low.population, high.population), (7, 1));
    assert_eq!((low.r_sum, high.r_sum), (88, 24));
    // Of the low half, cell 2 holds 5 of 7: the cut comes before it.
    let (first, second) = low.split(&hist, Axis::Red).unwrap();
    assert_eq!(first.bounds, bounds((0, 1), (0, 0), (0, 0)));
    assert_eq!(second.bounds, bounds((2, 2), (0, 0), (0, 0)));
    assert_eq!((first.population, second.population), (2, 5));
}

#[test]
fn split_at_exactly_half() {
    let samples = [opaque(0, 0, 0), opaque(8, 0, 0), opaque(16, 0, 0), opaque(24, 0, 0)];
    let hist = Histogram::build(&samples);
    let root = ColorBox::survey(&hist, Bounds::everything()).unwrap();
    let (low, high) = root.split(&hist, Axis::Red).unwrap();
    assert_eq!(low.bounds, bounds((0, 1), (0, 0), (0, 0)));
    assert_eq!(high.bounds, bounds((2, 3), (0, 0), (0, 0)));
}

#[test]
fn split_tightens_both_halves() {
    let samples = [opaque(0, 0, 80), opaque(0, 0, 88), opaque(248, 200, 0), opaque(240, 8, 0)];
    let hist = Histogram::build(&samples);
    let root = ColorBox::survey(&hist, Bounds::everything()).unwrap();
    assert_eq!(root.bounds, bounds((0, 31), (0, 25), (0, 11)));
    let (low, high) = root.split(&hist, Axis::Red).unwrap();
    assert_eq!(low.bounds, bounds((0, 0), (0, 0), (10, 11)));
    assert_eq!(high.bounds, bounds((30, 31), (1, 25), (0, 0)));
}

#[test]
fn single_cell_along_the_axis_is_unsplittable() {
    let samples = [opaque(0, 0, 0), opaque(1, 2, 3), opaque(0, 100, 0)];
    let hist = Histogram::build(&samples);
    let root = ColorBox::survey(&hist, Bounds::everything()).unwrap();
    assert_eq!(root.split(&hist, Axis::Red), Err(QuantizeError::Unsplittable));
    assert_eq!(root.split(&hist, Axis::Blue), Err(QuantizeError::Unsplittable));
    let (low, high) = root.split(&hist, Axis::Green).unwrap();
    assert_eq!((low.population, high.population), (2, 1));
    assert_eq!(low.split(&hist, Axis::Green), Err(QuantizeError::Unsplittable));
}

#[test]
fn mean_rounds_to_nearest_half_up() {
    let make = |population: u128, r_sum: u128| ColorBox {
        bounds: bounds((0, 0), (0, 0), (0, 0)),
        population,
        r_sum,
        g_sum: 0,
        b_sum: 0,
    };
    assert_eq!(make(2, 1).average_color().r, 1); // 0.5
    assert_eq!(make(3, 31).average_color().r, 10); // 10.33
    assert_eq!(make(3, 32).average_color().r, 11); // 10.67
    assert_eq!(make(4, 1018).average_color().r, 255); // 254.5
    assert_eq!(make(4, 1017).average_color().r, 254); // 254.25
    assert_eq!(make(7, 1785).average_color().r, 255);
    assert_eq!(make(1, 0).average_color(), Color { r: 0, g: 0, b: 0 });
}

#[test]
fn quantizer_turns_to_the_most_populated_box_first() {
    // Reds 0 and 8 once each, reds 240 and 248 three times each.
    let mut samples = vec![opaque(0, 0, 0), opaque(8, 0, 0)];
    for _ in 0..3 {
        samples.push(opaque(240, 0, 0));
        samples.push(opaque(248, 0, 0));
    }
    let hist = Histogram::build(&samples);
    let root = ColorBox::survey(&hist, Bounds::everything()).unwrap();
    let two = quantize_boxes(&hist, root, 2);
    let ranges: Vec<(u8, u8)> = two.iter().map(|b| (b.bounds.r_min, b.bounds.r_max)).collect();
    assert_eq!(ranges, vec![(0, 30), (31, 31)]);
    let three = quantize_boxes(&hist, root, 3);
    let ranges: Vec<(u8, u8)> = three.iter().map(|b| (b.bounds.r_min, b.bounds.r_max)).collect();
    assert_eq!(ranges, vec![(31, 31), (0, 1), (30, 30)]);
    let all = quantize_boxes(&hist, root, 9);
    let ranges: Vec<(u8, u8)> = all.iter().map(|b| (b.bounds.r_min, b.bounds.r_max)).collect();
    assert_eq!(ranges, vec![(31, 31), (30, 30), (0, 0), (1, 1)]);
    assert_eq!(quantize_boxes(&hist, root, 0), vec![]);
    assert_eq!(quantize_boxes(&hist, root, 1), vec![root]);
}

#[test]
fn quantizer_boxes_share_out_the_samples() {
    let mut samples = Vec::new();
    for i in 0..500u32 {
        samples.push(opaque((i * 7 % 256) as u8, (i * 13 % 256) as u8, (i * 29 % 256) as u8));
    }
    let hist = Histogram::build(&samples);
    let root = ColorBox::survey(&hist, Bounds::everything()).unwrap();
    for k in [1u8, 2, 10, 100, 255] {
        let boxes = quantize_boxes(&hist, root, k);
        assert_eq!(boxes.iter().map(|b| b.population).sum::<u128>(), 500);
        assert_eq!(boxes.iter().map(|b| b.r_sum).sum::<u128>(), root.r_sum);
        assert!(boxes.iter().all(|b| b.population > 0));
    }
}

#[test]
fn quantizer_boxes_do_not_overlap_and_hold_every_sample() {
    let mut samples = Vec::new();
    for i in 0..700u32 {
        samples.push(opaque((i * 11 % 256) as u8, (i * i % 256) as u8, (i * 41 % 256) as u8));
    }
    let hist = Histogram::build(&samples);
    let root = ColorBox::root(&hist).unwrap();
    let inside = |b: &Bounds, s: &Sample| {
        let (r, g, bl) = (s.r >> 3, s.g >> 3, s.b >> 3);
        b.r_min <= r && r <= b.r_max && b.g_min <= g && g <= b.g_max && b.b_min <= bl
            && bl <= b.b_max
    };
    for k in [1u8, 2, 3, 16, 77, 255] {
        let boxes = quantize_boxes(&hist, root, k);
        for s in &samples {
            assert_eq!(boxes.iter().filter(|b| inside(&b.bounds, s)).count(), 1);
        }
        for (i, a) in boxes.iter().enumerate() {
            for b in boxes.iter().skip(i + 1) {
                let (a, b) = (a.bounds, b.bounds);
                let shared = a.r_min <= b.r_max
                    && b.r_min <= a.r_max
                    && a.g_min <= b.g_max
                    && b.g_min <= a.g_max
                    && a.b_min <= b.b_max
                    && b.b_min <= a.b_max;
                assert!(!shared);
            }
        }
    }
}

#[test]
fn quantizer_breaks_ties_by_age() {
    // Four cells along red with two samples each.
    let mut samples = Vec::new();
    for r in [0u8, 8, 16, 24] {
        samples.push(opaque(r, 0, 0));
        samples.push(opaque(r, 0, 0));
    }
    let hist = Histogram::build(&samples);
    let root = ColorBox::root(&hist).unwrap();
    let ranges = |k: u8| -> Vec<(u8, u8)> {
        quantize_boxes(&hist, root, k).iter().map(|b| (b.bounds.r_min, b.bounds.r_max)).collect()
    };
    assert_eq!(ranges(2), vec![(0, 1), (2, 3)]);
    // Both halves hold four samples: the lower one was found first.
    assert_eq!(ranges(3), vec![(2, 3), (0, 0), (1, 1)]);
    assert_eq!(ranges(4), vec![(0, 0), (1, 1), (2, 2), (3, 3)]);
    assert_eq!(ranges(5), vec![(0, 0), (1, 1), (2, 2), (3, 3)]);
}

#[test]
fn bounds_helpers() {
    let b = bounds((1, 2), (3, 4), (5, 6));
    assert_eq!((b.lower(Axis::Red), b.upper(Axis::Red)), (1, 2));
    assert_eq!((b.lower(Axis::Green), b.upper(Axis::Green)), (3, 4));
    assert_eq!((b.lower(Axis::Blue), b.upper(Axis::Blue)), (5, 6));
    assert_eq!(b.narrowed(Axis::Green, 9, 10), bounds((1, 2), (9, 10), (5, 6)));
    assert_eq!(Bounds::everything(), bounds((0, 31), (0, 31), (0, 31)));
    assert!(b.contains_cell(1 * 1024 + 3 * 32 + 6));
    assert!(b.contains_cell(2 * 1024 + 4 * 32 + 5));
    assert!(!b.contains_cell(3 * 1024 + 4 * 32 + 5));
    assert!(!b.contains_cell(2 * 1024 + 2 * 32 + 5));
    assert!(!b.contains_cell(2 * 1024 + 4 * 32 + 7));
}

#[test]
fn palette_of_boxes() {
    let first = ColorBox {
        bounds: bounds((0, 0), (0, 0), (0, 0)),
        population: 2,
        r_sum: 6,
        g_sum: 7,
        b_sum: 0,
    };
    let second = ColorBox {
        bounds: bounds((31, 31), (0, 0), (0, 0)),
        population: 1,
        r_sum: 255,
        g_sum: 1,
        b_sum: 2,
    };
    assert_eq!(
        build_palette(&[second, first], 3),
        Ok(vec![Color { r: 255, g: 1, b: 2 }, Color { r: 3, g: 4, b: 0 }])
    );
    assert_eq!(build_palette(&[], 3), Ok(vec![]));
    assert_eq!(build_palette(&[], 0), Err(QuantizeError::InsufficientData));
    assert_eq!(build_palette(&[first], 0), Err(QuantizeError::InsufficientData));
}

#[test]
fn error_messages() {
    assert_eq!(
        QuantizeError::BufferLengthMismatch.message(),
        "buffer length does not match the image dimensions"
    );
    assert_eq!(
        QuantizeError::UnsupportedChannelLayout.message(),
        "pixel data is neither 8-bit RGB nor 8-bit RGBA"
    );
    assert_eq!(QuantizeError::InsufficientData.message(), "no usable pixels left after sampling");
    assert_eq!(QuantizeError::Unsplittable.message(), "box cannot be split");
}
