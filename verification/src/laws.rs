//! What holds of every palette.

use vstd::prelude::*;
use crate::color::Color;
use crate::cut_laws::{lemma_quantized_boxes, occupied_cells, smaller, total_over};
use crate::error::QuantizeError;
use crate::few_colors::{cells_are_pure, distinct_colors, lemma_few_colors_palette};
use crate::histogram::{histogram_of, is_histogram, lemma_histogram_of_is_histogram, Measure, CELLS};
use crate::palette::{is_outcome, palette_outcome};
use crate::quantizer::quantized_boxes;
use crate::region::{
    is_box, is_occupied, lemma_cell_of_coordinates, lemma_histogram_count,
    lemma_populated_witness, lemma_tighten, lemma_tighten_total, region_total, tighten, Bounds,
};
use crate::sampler::{sampling_outcome, ChannelLayout, FilterPolicy, Sample};

verus! {

/// The root box of a histogram that holds a sample.
pub proof fn lemma_root_box(samples: Seq<Sample>)
    requires
        samples.len() > 0,
    ensures
        is_histogram(histogram_of(samples)),
        is_box(histogram_of(samples), tighten(histogram_of(samples), Bounds::whole())),
        forall|m: Measure|
            #[trigger] region_total(
                histogram_of(samples),
                tighten(histogram_of(samples), Bounds::whole()),
                m,
            ) == region_total(histogram_of(samples), Bounds::whole(), m),
        forall|idx: int|
            0 <= idx < CELLS && histogram_of(samples)[idx].count > 0 ==> #[trigger] is_occupied(
                histogram_of(samples),
                tighten(histogram_of(samples), Bounds::whole()),
                idx,
            ),
{
    let h = histogram_of(samples);
    lemma_histogram_of_is_histogram(samples);
    lemma_histogram_count(samples);
    let at = lemma_populated_witness(h, Bounds::whole());
    lemma_tighten(h, Bounds::whole(), at);
    assert forall|m: Measure|
        #[trigger] region_total(h, tighten(h, Bounds::whole()), m) == region_total(
            h,
            Bounds::whole(),
            m,
        ) by {
        lemma_tighten_total(h, Bounds::whole(), m);
    }
    assert forall|idx: int| 0 <= idx < CELLS && h[idx].count > 0 implies #[trigger] is_occupied(
        h,
        tighten(h, Bounds::whole()),
        idx,
    ) by {
        lemma_cell_of_coordinates(idx);
        assert(is_occupied(h, Bounds::whole(), idx));
    }
}

/// A palette has as many colours as were asked for, or as the histogram of
/// the samples has occupied cells, whichever is less.
pub proof fn lemma_palette_len(
    buf: Seq<u8>,
    layout: ChannelLayout,
    width: u32,
    height: u32,
    quality: u32,
    max_colors: u8,
    policy: FilterPolicy,
)
    ensures
        palette_outcome(buf, layout, width, height, quality, max_colors, policy) matches Ok(
            palette,
        ) ==> {
            &&& sampling_outcome(buf, layout, width, height, quality, policy) matches Ok(samples)
            &&& palette.len() == smaller(
                max_colors as nat,
                occupied_cells(histogram_of(samples)),
            )
        },
{
    if let Ok(samples) = sampling_outcome(buf, layout, width, height, quality, policy) {
        if samples.len() > 0 {
            let h = histogram_of(samples);
            lemma_root_box(samples);
            lemma_quantized_boxes(h, tighten(h, Bounds::whole()), max_colors as nat, Measure::Count);
        }
    }
}

/// A palette never holds more colours than were asked for.
pub proof fn lemma_palette_within_limit(
    buf: Seq<u8>,
    layout: ChannelLayout,
    width: u32,
    height: u32,
    quality: u32,
    max_colors: u8,
    policy: FilterPolicy,
)
    ensures
        palette_outcome(buf, layout, width, height, quality, max_colors, policy) matches Ok(
            palette,
        ) ==> palette.len() <= max_colors,
{
    lemma_palette_len(buf, layout, width, height, quality, max_colors, policy);
}

/// Asking for fewer colours of the same image at the same stride never
/// yields more colours, and fails where asking for more fails.
pub proof fn lemma_fewer_asked_fewer_given(
    buf: Seq<u8>,
    layout: ChannelLayout,
    width: u32,
    height: u32,
    quality: u32,
    fewer: u8,
    more: u8,
    policy: FilterPolicy,
)
    requires
        fewer <= more,
    ensures
        match (
            palette_outcome(buf, layout, width, height, quality, fewer, policy),
            palette_outcome(buf, layout, width, height, quality, more, policy),
        ) {
            (Ok(small), Ok(large)) => small.len() <= large.len(),
            (Err(e1), Err(e2)) => e1 == e2,
            _ => false,
        },
{
    lemma_palette_len(buf, layout, width, height, quality, fewer, policy);
    lemma_palette_len(buf, layout, width, height, quality, more, policy);
}

/// Asking for no colours of an image that has samples yields an empty
/// palette, not an error.
pub proof fn lemma_no_colors_asked(
    buf: Seq<u8>,
    layout: ChannelLayout,
    width: u32,
    height: u32,
    quality: u32,
    policy: FilterPolicy,
)
    requires
        sampling_outcome(buf, layout, width, height, quality, policy) matches Ok(samples)
            && samples.len() > 0,
    ensures
        palette_outcome(buf, layout, width, height, quality, 0, policy) == Ok::<
            Seq<Color>,
            QuantizeError,
        >(Seq::empty()),
{
    lemma_palette_len(buf, layout, width, height, quality, 0, policy);
    let palette = palette_outcome(buf, layout, width, height, quality, 0, policy)->Ok_0;
    assert(palette =~= Seq::<Color>::empty());
}

/// An image of which every visited pixel is filtered out has no palette.
pub proof fn lemma_nothing_sampled(
    buf: Seq<u8>,
    layout: ChannelLayout,
    width: u32,
    height: u32,
    quality: u32,
    max_colors: u8,
    policy: FilterPolicy,
)
    requires
        sampling_outcome(buf, layout, width, height, quality, policy) matches Ok(samples)
            && samples.len() == 0,
    ensures
        palette_outcome(buf, layout, width, height, quality, max_colors, policy) == Err::<
            Seq<Color>,
            QuantizeError,
        >(QuantizeError::InsufficientData),
{
}

/// Whether two results are the same: the same colours in the same order, or
/// the same error.
pub open spec fn same_result(
    first: Result<Vec<Color>, QuantizeError>,
    second: Result<Vec<Color>, QuantizeError>,
) -> bool {
    match (first, second) {
        (Ok(one), Ok(other)) => one@ == other@,
        (Err(e1), Err(e2)) => e1 == e2,
        _ => false,
    }
}

/// Two runs on the same input give the same result.
pub proof fn lemma_quantize_deterministic(
    first: Result<Vec<Color>, QuantizeError>,
    second: Result<Vec<Color>, QuantizeError>,
    buf: Seq<u8>,
    layout: ChannelLayout,
    width: u32,
    height: u32,
    quality: u32,
    max_colors: u8,
    policy: FilterPolicy,
)
    requires
        is_outcome(first, palette_outcome(buf, layout, width, height, quality, max_colors, policy)),
        is_outcome(
            second,
            palette_outcome(buf, layout, width, height, quality, max_colors, policy),
        ),
    ensures
        same_result(first, second),
{
}

/// The boxes of a palette hold, between them, every sample once.
pub proof fn lemma_boxes_hold_every_sample(samples: Seq<Sample>, k: nat)
    requires
        samples.len() > 0,
        k > 0,
    ensures
        total_over(
            histogram_of(samples),
            quantized_boxes(
                histogram_of(samples),
                tighten(histogram_of(samples), Bounds::whole()),
                k,
            ),
            Measure::Count,
        ) == samples.len(),
{
    let h = histogram_of(samples);
    lemma_root_box(samples);
    lemma_histogram_count(samples);
    lemma_quantized_boxes(h, tighten(h, Bounds::whole()), k, Measure::Count);
}

/// Where the sampled pixels have no more colours than were asked for, and
/// no cell of the histogram receives two of them, the palette holds each of
/// these colours once and nothing else.
pub proof fn lemma_few_colors_kept(
    buf: Seq<u8>,
    layout: ChannelLayout,
    width: u32,
    height: u32,
    quality: u32,
    max_colors: u8,
    policy: FilterPolicy,
)
    requires
        sampling_outcome(buf, layout, width, height, quality, policy) matches Ok(samples) && {
            &&& samples.len() > 0
            &&& cells_are_pure(samples)
            &&& distinct_colors(samples).len() <= max_colors
        },
    ensures
        sampling_outcome(buf, layout, width, height, quality, policy) matches Ok(samples)
            && palette_outcome(buf, layout, width, height, quality, max_colors, policy) matches Ok(
            palette,
        ) && {
            &&& palette.len() == distinct_colors(samples).len()
            &&& palette.no_duplicates()
            &&& forall|i: int|
                0 <= i < palette.len() ==> distinct_colors(samples).contains(#[trigger] palette[i])
            &&& forall|c: Color| #[trigger]
                distinct_colors(samples).contains(c) ==> palette.contains(c)
        },
{
    let samples = sampling_outcome(buf, layout, width, height, quality, policy)->Ok_0;
    lemma_few_colors_palette(samples, max_colors as nat);
}

} // verus!
