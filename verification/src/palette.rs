//! From boxes to colours, and the whole way from a pixel buffer to a palette.

use vstd::prelude::*;
use crate::color::Color;
use crate::color_box::{mean_color, ColorBox};
use crate::error::QuantizeError;
use crate::histogram::{histogram_of, Histogram, Tally};
use crate::quantizer::{bounds_of, quantize_boxes, quantized_boxes};
use crate::region::{lemma_histogram_count, tighten, Bounds};
use crate::sampler::{sample_pixels, sampling_outcome, ChannelLayout, FilterPolicy, Sample};

verus! {

/// The averages of the boxes, in order.
pub open spec fn averages(boxes: Seq<ColorBox>) -> Seq<Color> {
    Seq::new(boxes.len(), |i: int| boxes[i].average())
}

/// The mean colours of the regions of a histogram, in order.
pub open spec fn mean_colors(h: Seq<Tally>, regions: Seq<Bounds>) -> Seq<Color> {
    Seq::new(regions.len(), |i: int| mean_color(h, regions[i]))
}

/// Every box holds a sample and no channel sum above 255 per sample.
pub open spec fn all_consistent(boxes: Seq<ColorBox>) -> bool {
    forall|i: int| 0 <= i < boxes.len() ==> (#[trigger] boxes[i]).is_consistent()
}

/// The palette of the final boxes: the average colour of each, in the order
/// of the boxes.
///
/// Nothing was sampled where `sample_count` is 0; that is reported, whatever
/// the boxes.
pub fn build_palette(boxes: &[ColorBox], sample_count: usize) -> (res: Result<
    Vec<Color>,
    QuantizeError,
>)
    requires
        all_consistent(boxes@),
    ensures
        sample_count == 0 <==> res is Err,
        res matches Err(e) ==> e == QuantizeError::InsufficientData,
        res matches Ok(palette) ==> palette@ == averages(boxes@),
{
    if sample_count == 0 {
        return Err(QuantizeError::InsufficientData);
    }
    let mut palette: Vec<Color> = Vec::new();
    let mut i: usize = 0;
    while i < boxes.len()
        invariant
            i <= boxes@.len(),
            all_consistent(boxes@),
            palette@ == averages(boxes@.take(i as int)),
        decreases boxes@.len() - i,
    {
        palette.push(boxes[i].average_color());
        assert(palette@ =~= averages(boxes@.take(i + 1)));
        i = i + 1;
    }
    assert(boxes@.take(boxes@.len() as int) =~= boxes@);
    Ok(palette)
}

/// The palette of a non-empty run of samples: the mean colours of the boxes
/// that the median cut makes of the root box of their histogram.
pub open spec fn palette_of_samples(samples: Seq<Sample>, max_colors: nat) -> Seq<Color> {
    let hist = histogram_of(samples);
    let root = tighten(hist, Bounds::whole());
    mean_colors(hist, quantized_boxes(hist, root, max_colors))
}

/// The palette of a pixel buffer, or the reason why it has none.
///
/// The errors of sampling come first. A buffer of which no pixel was
/// sampled has no palette, whatever `max_colors`. Otherwise the palette
/// holds the mean colours of the boxes that the median cut makes of the
/// histogram of the samples.
pub open spec fn palette_outcome(
    buf: Seq<u8>,
    layout: ChannelLayout,
    width: u32,
    height: u32,
    quality: u32,
    max_colors: u8,
    policy: FilterPolicy,
) -> Result<Seq<Color>, QuantizeError> {
    match sampling_outcome(buf, layout, width, height, quality, policy) {
        Err(e) => Err(e),
        Ok(samples) => if samples.len() == 0 {
            Err(QuantizeError::InsufficientData)
        } else {
            Ok(palette_of_samples(samples, max_colors as nat))
        },
    }
}

/// Whether `res` is the outcome `expected`, the palette taken by its view.
pub open spec fn is_outcome(
    res: Result<Vec<Color>, QuantizeError>,
    expected: Result<Seq<Color>, QuantizeError>,
) -> bool {
    match res {
        Ok(palette) => expected == Ok::<Seq<Color>, QuantizeError>(palette@),
        Err(e) => expected == Err::<Seq<Color>, QuantizeError>(e),
    }
}

/// Extracts a palette of at most `max_colors` colours from a pixel buffer,
/// under the given filter policy.
pub fn quantize_with(
    buffer: &[u8],
    layout: ChannelLayout,
    width: u32,
    height: u32,
    quality: u32,
    max_colors: u8,
    policy: &FilterPolicy,
) -> (res: Result<Vec<Color>, QuantizeError>)
    requires
        quality >= 1,
    ensures
        is_outcome(
            res,
            palette_outcome(buffer@, layout, width, height, quality, max_colors, *policy),
        ),
        res matches Ok(palette) ==> palette@.len() <= max_colors,
{
    let samples = match sample_pixels(buffer, layout, width, height, quality, policy) {
        Ok(samples) => samples,
        Err(e) => {
            return Err(e);
        },
    };
    let hist = Histogram::build(samples.as_slice());
    proof {
        lemma_histogram_count(samples@);
    }
    let boxes = match ColorBox::root(&hist) {
        Some(root) => quantize_boxes(&hist, root, max_colors),
        None => Vec::new(),
    };
    proof {
        assert forall|i: int| 0 <= i < boxes@.len() implies (#[trigger] boxes@[i]).is_consistent()
            && boxes@[i].average() == mean_color(hist@, boxes@[i].bounds) by {
            boxes@[i].lemma_wf_consistent(hist@);
        }
        if samples@.len() > 0 {
            assert(averages(boxes@) =~= mean_colors(hist@, bounds_of(boxes@)));
        }
    }
    build_palette(boxes.as_slice(), samples.len())
}

/// Extracts a palette of at most `max_colors` colours from a pixel buffer.
///
/// Pixels are visited at stride `quality`. Pixels with an alpha below 125
/// are left out; every colour is kept, white included.
pub fn quantize(
    buffer: &[u8],
    layout: ChannelLayout,
    width: u32,
    height: u32,
    quality: u32,
    max_colors: u8,
) -> (res: Result<Vec<Color>, QuantizeError>)
    requires
        quality >= 1,
    ensures
        is_outcome(
            res,
            palette_outcome(
                buffer@,
                layout,
                width,
                height,
                quality,
                max_colors,
                FilterPolicy::standard(),
            ),
        ),
        res matches Ok(palette) ==> palette@.len() <= max_colors,
{
    let policy = FilterPolicy::visible();
    quantize_with(buffer, layout, width, height, quality, max_colors, &policy)
}

} // verus!
