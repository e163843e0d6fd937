//! Images of few colours: where each colour has a histogram cell of its
//! own, the median cut tells the colours apart and the palette holds them
//! unchanged.

use vstd::prelude::*;
use vstd::relations::injective_on;
use vstd::set_lib::lemma_map_size;
use crate::color::Color;
use crate::color_box::{lemma_rounded_mean_exact, mean_color};
use crate::cut_laws::{
    all_boxes, all_single, is_single_cell, lemma_apart_share_no_cell, lemma_box_occupied,
    lemma_quantized_boxes, lemma_quantized_boxes_cover, lemma_singles_of_occupied, mutually_apart,
    occupied_cells, overlap,
};
use crate::histogram::{
    cell_index, cell_of, histogram_of, is_histogram, sample_index, tally, Measure, Tally, CELLS,
};
use crate::laws::lemma_root_box;
use crate::palette::palette_of_samples;
use crate::quantizer::quantized_boxes;
use crate::region::{
    is_box, is_occupied, lemma_cell_of_coordinates, lemma_coordinates_of_cell,
    lemma_single_cell_total, region_sum, region_total, tighten, Bounds,
};
use crate::sampler::Sample;

verus! {

/// The colour of a sample.
pub open spec fn color_of(s: Sample) -> Color {
    Color { r: s.r, g: s.g, b: s.b }
}

/// The colours that occur among the samples.
pub open spec fn distinct_colors(samples: Seq<Sample>) -> Set<Color> {
    samples.map_values(|s: Sample| color_of(s)).to_set()
}

/// No cell of the histogram receives two different colours.
#[verifier::opaque]
pub open spec fn cells_are_pure(samples: Seq<Sample>) -> bool {
    forall|i: int, j: int|
        0 <= i < samples.len() && 0 <= j < samples.len() && sample_index(#[trigger] samples[i])
            == sample_index(#[trigger] samples[j]) ==> color_of(samples[i]) == color_of(
            samples[j],
        )
}

/// The position of the cell that a colour falls into.
pub open spec fn color_index(c: Color) -> int {
    cell_index(cell_of(c.r), cell_of(c.g), cell_of(c.b))
}

/// The positions below `n` of the cells that hold a sample.
pub open spec fn occupied_below(h: Seq<Tally>, n: int) -> Set<int> {
    Set::new(|idx: int| 0 <= idx < n && h[idx].count > 0)
}

/// A cell that holds a sample holds one of the samples.
pub proof fn lemma_tally_witness(samples: Seq<Sample>, idx: int) -> (at: int)
    requires
        tally(samples, idx).count > 0,
    ensures
        0 <= at < samples.len(),
        sample_index(samples[at]) == idx,
    decreases samples.len(),
{
    if sample_index(samples.last()) == idx {
        samples.len() - 1
    } else {
        lemma_tally_witness(samples.drop_last(), idx)
    }
}

/// The cell that a sample falls into holds a sample.
pub proof fn lemma_tally_of_member(samples: Seq<Sample>, at: int)
    requires
        0 <= at < samples.len(),
    ensures
        tally(samples, sample_index(samples[at])).count > 0,
    decreases samples.len(),
{
    if at < samples.len() - 1 {
        lemma_tally_of_member(samples.drop_last(), at);
    }
}

/// A cell that receives one colour only sums that colour once per sample.
pub proof fn lemma_tally_pure(samples: Seq<Sample>, idx: int, c: Color)
    requires
        forall|j: int|
            0 <= j < samples.len() && sample_index(#[trigger] samples[j]) == idx ==> color_of(
                samples[j],
            ) == c,
    ensures
        tally(samples, idx).r_sum == c.r * tally(samples, idx).count,
        tally(samples, idx).g_sum == c.g * tally(samples, idx).count,
        tally(samples, idx).b_sum == c.b * tally(samples, idx).count,
    decreases samples.len(),
{
    if samples.len() > 0 {
        let earlier = samples.drop_last();
        assert forall|j: int|
            0 <= j < earlier.len() && sample_index(#[trigger] earlier[j]) == idx implies color_of(
            earlier[j],
        ) == c by {
            assert(earlier[j] == samples[j]);
        }
        lemma_tally_pure(earlier, idx, c);
        let n = tally(earlier, idx).count;
        if sample_index(samples.last()) == idx {
            assert(color_of(samples[samples.len() - 1]) == c);
            assert(c.r * (n + 1) == c.r * n + c.r) by (nonlinear_arith);
            assert(c.g * (n + 1) == c.g * n + c.g) by (nonlinear_arith);
            assert(c.b * (n + 1) == c.b * n + c.b) by (nonlinear_arith);
        }
    }
}

/// The occupied cells are counted by the sum of [`Measure::Occupied`].
pub proof fn lemma_occupied_count(h: Seq<Tally>, n: nat)
    requires
        n <= CELLS,
    ensures
        occupied_below(h, n as int).finite(),
        occupied_below(h, n as int).len() == region_sum(
            h,
            Bounds::whole(),
            Measure::Occupied,
            n,
        ),
    decreases n,
{
    if n == 0 {
        assert(occupied_below(h, 0) =~= Set::<int>::empty());
    } else {
        lemma_occupied_count(h, (n - 1) as nat);
        lemma_cell_of_coordinates(n - 1);
        assert(Bounds::whole().holds(n - 1));
        if h[n - 1].count > 0 {
            assert(occupied_below(h, n as int) =~= occupied_below(h, n - 1).insert(n - 1));
        } else {
            assert(occupied_below(h, n as int) =~= occupied_below(h, n - 1));
        }
    }
}

/// Where no cell receives two different colours, the histogram has as many
/// occupied cells as the samples have colours.
pub proof fn lemma_pure_cells_count(samples: Seq<Sample>)
    requires
        cells_are_pure(samples),
    ensures
        distinct_colors(samples).finite(),
        occupied_cells(histogram_of(samples)) == distinct_colors(samples).len(),
{
    reveal(cells_are_pure);
    let h = histogram_of(samples);
    let colors = distinct_colors(samples);
    let listed = samples.map_values(|s: Sample| color_of(s));
    let cells = occupied_below(h, CELLS as int);
    let f = |c: Color| color_index(c);
    vstd::seq_lib::seq_to_set_is_finite(listed);
    lemma_occupied_count(h, CELLS as nat);
    assert(injective_on(f, colors)) by {
        assert forall|c1: Color, c2: Color|
            colors.contains(c1) && colors.contains(c2) && #[trigger] f(c1) == #[trigger] f(
                c2,
            ) implies c1 == c2 by {
            let i = choose|i: int| 0 <= i < listed.len() && listed[i] == c1;
            let j = choose|j: int| 0 <= j < listed.len() && listed[j] == c2;
            assert(sample_index(samples[i]) == f(c1));
            assert(sample_index(samples[j]) == f(c2));
        }
    }
    assert(colors.map(f) =~= cells) by {
        assert forall|idx: int| cells.contains(idx) implies #[trigger] colors.map(f).contains(
            idx,
        ) by {
            let at = lemma_tally_witness(samples, idx);
            assert(listed[at] == color_of(samples[at]));
            assert(colors.contains(color_of(samples[at])));
            assert(f(color_of(samples[at])) == idx);
        }
        assert forall|idx: int| #[trigger] colors.map(f).contains(idx) implies cells.contains(
            idx,
        ) by {
            let c = choose|c: Color| colors.contains(c) && idx == f(c);
            let i = choose|i: int| 0 <= i < listed.len() && listed[i] == c;
            lemma_tally_of_member(samples, i);
            assert(sample_index(samples[i]) == idx);
        }
    }
    lemma_map_size(colors, cells, f);
}

/// A region of one cell holds the cell with its own coordinates only.
pub proof fn lemma_single_cell_index(b: Bounds, idx: int)
    requires
        is_single_cell(b),
        0 <= idx < CELLS,
        b.holds(idx),
    ensures
        idx == cell_index(b.r_min as int, b.g_min as int, b.b_min as int),
{
    lemma_cell_of_coordinates(idx);
}

/// A region of one cell holds the cell with its own coordinates.
pub proof fn lemma_single_cell_holds(b: Bounds)
    requires
        b.is_valid(),
        is_single_cell(b),
    ensures
        0 <= cell_index(b.r_min as int, b.g_min as int, b.b_min as int) < CELLS,
        b.holds(cell_index(b.r_min as int, b.g_min as int, b.b_min as int)),
{
    lemma_coordinates_of_cell(b.r_min as int, b.g_min as int, b.b_min as int);
}

/// The colour of a sample is one of the colours of the samples.
pub proof fn lemma_color_listed(samples: Seq<Sample>, at: int)
    requires
        0 <= at < samples.len(),
    ensures
        distinct_colors(samples).contains(color_of(samples[at])),
{
    let listed = samples.map_values(|s: Sample| color_of(s));
    assert(listed[at] == color_of(samples[at]));
}

/// The cell of a sample, where it receives one colour only, holds a sample
/// and sums that colour once per sample.
pub proof fn lemma_pure_cell_sums(samples: Seq<Sample>, at: int)
    requires
        cells_are_pure(samples),
        0 <= at < samples.len(),
    ensures
        ({
            let cell = tally(samples, sample_index(samples[at]));
            &&& cell.count > 0
            &&& cell.r_sum == samples[at].r * cell.count
            &&& cell.g_sum == samples[at].g * cell.count
            &&& cell.b_sum == samples[at].b * cell.count
        }),
{
    reveal(cells_are_pure);
    lemma_tally_of_member(samples, at);
    lemma_tally_pure(samples, sample_index(samples[at]), color_of(samples[at]));
}

/// The mean colour of a region of one cell where each channel sums one
/// value once per sample.
pub proof fn lemma_single_cell_mean(h: Seq<Tally>, b: Bounds, c: Color)
    requires
        b.is_valid(),
        is_single_cell(b),
        ({
            let cell = h[cell_index(b.r_min as int, b.g_min as int, b.b_min as int)];
            &&& cell.count > 0
            &&& cell.r_sum == c.r * cell.count
            &&& cell.g_sum == c.g * cell.count
            &&& cell.b_sum == c.b * cell.count
        }),
    ensures
        mean_color(h, b) == c,
{
    let cell = h[cell_index(b.r_min as int, b.g_min as int, b.b_min as int)];
    lemma_single_cell_total(h, b, Measure::Count);
    lemma_single_cell_total(h, b, Measure::Red);
    lemma_single_cell_total(h, b, Measure::Green);
    lemma_single_cell_total(h, b, Measure::Blue);
    lemma_rounded_mean_exact(c.r as nat, cell.count);
    lemma_rounded_mean_exact(c.g as nat, cell.count);
    lemma_rounded_mean_exact(c.b as nat, cell.count);
}

/// Where no cell receives two different colours, the mean colour of a box
/// of one cell is the colour of any sample that falls into it.
pub proof fn lemma_pure_cell_color(samples: Seq<Sample>, b: Bounds, at: int)
    requires
        cells_are_pure(samples),
        0 <= at < samples.len(),
        b.is_valid(),
        is_single_cell(b),
        b.holds(sample_index(samples[at])),
    ensures
        mean_color(histogram_of(samples), b) == color_of(samples[at]),
{
    let h = histogram_of(samples);
    let idx = sample_index(samples[at]);
    lemma_single_cell_index(b, idx);
    lemma_pure_cell_sums(samples, at);
    assert(h[idx] == tally(samples, idx));
    lemma_single_cell_mean(h, b, color_of(samples[at]));
}

/// Where the samples have no more colours than were asked for, and no cell
/// of the histogram receives two of them, the median cut ends with one box
/// of one cell for each colour.
pub proof fn lemma_few_colors_boxes(samples: Seq<Sample>, k: nat)
    requires
        samples.len() > 0,
        cells_are_pure(samples),
        distinct_colors(samples).len() <= k,
    ensures
        k > 0,
        is_histogram(histogram_of(samples)),
        is_box(histogram_of(samples), tighten(histogram_of(samples), Bounds::whole())),
        ({
            let h = histogram_of(samples);
            let regions = quantized_boxes(h, tighten(h, Bounds::whole()), k);
            &&& regions.len() == distinct_colors(samples).len()
            &&& all_boxes(h, regions)
            &&& all_single(regions)
            &&& mutually_apart(regions)
        }),
{
    let h = histogram_of(samples);
    let root = tighten(h, Bounds::whole());
    lemma_pure_cells_count(samples);
    lemma_root_box(samples);
    lemma_quantized_boxes(h, root, k, Measure::Occupied);
    assert(region_total(h, root, Measure::Occupied) == occupied_cells(h));
    lemma_box_occupied(h, root);
    lemma_singles_of_occupied(h, quantized_boxes(h, root, k));
}

/// Where no cell receives two different colours, the mean colour of a box
/// of one cell is the colour of a sample, which falls into that cell.
pub proof fn lemma_single_box_color(samples: Seq<Sample>, b: Bounds) -> (at: int)
    requires
        cells_are_pure(samples),
        is_box(histogram_of(samples), b),
        is_single_cell(b),
    ensures
        0 <= at < samples.len(),
        b.holds(sample_index(samples[at])),
        mean_color(histogram_of(samples), b) == color_of(samples[at]),
        distinct_colors(samples).contains(color_of(samples[at])),
{
    let h = histogram_of(samples);
    let idx = cell_index(b.r_min as int, b.g_min as int, b.b_min as int);
    lemma_single_cell_holds(b);
    lemma_single_cell_total(h, b, Measure::Count);
    assert(h[idx] == tally(samples, idx));
    let at = lemma_tally_witness(samples, idx);
    lemma_pure_cell_color(samples, b, at);
    lemma_color_listed(samples, at);
    at
}

/// Where no cell receives two different colours, boxes of one cell each
/// that do not overlap have different mean colours.
pub proof fn lemma_apart_boxes_differ(samples: Seq<Sample>, first: Bounds, second: Bounds)
    requires
        cells_are_pure(samples),
        is_box(histogram_of(samples), first),
        is_box(histogram_of(samples), second),
        is_single_cell(first),
        is_single_cell(second),
        !overlap(first, second),
    ensures
        mean_color(histogram_of(samples), first) != mean_color(histogram_of(samples), second),
{
    let i = lemma_single_box_color(samples, first);
    let j = lemma_single_box_color(samples, second);
    if color_of(samples[i]) == color_of(samples[j]) {
        assert(sample_index(samples[i]) == sample_index(samples[j]));
        lemma_apart_share_no_cell(first, second, sample_index(samples[i]));
    }
}

/// Where the samples have no more colours than were asked for, and no cell
/// of the histogram receives two of them, each colour of the samples is in
/// the palette.
pub proof fn lemma_few_colors_each_kept(samples: Seq<Sample>, k: nat, at: int)
    requires
        samples.len() > 0,
        cells_are_pure(samples),
        distinct_colors(samples).len() <= k,
        0 <= at < samples.len(),
    ensures
        palette_of_samples(samples, k).contains(color_of(samples[at])),
{
    let h = histogram_of(samples);
    let root = tighten(h, Bounds::whole());
    let regions = quantized_boxes(h, root, k);
    let idx = sample_index(samples[at]);
    lemma_few_colors_boxes(samples, k);
    lemma_root_box(samples);
    lemma_tally_of_member(samples, at);
    assert(h[idx] == tally(samples, idx));
    assert(is_occupied(h, root, idx));
    lemma_quantized_boxes_cover(h, root, k, idx);
    let i = choose|i: int| 0 <= i < regions.len() && (#[trigger] regions[i]).holds(idx);
    assert(is_box(h, regions[i]) && is_single_cell(regions[i]));
    lemma_pure_cell_color(samples, regions[i], at);
    assert(palette_of_samples(samples, k)[i] == color_of(samples[at]));
}

/// Where the samples have no more colours than were asked for, and no cell
/// of the histogram receives two of them, the palette holds each colour of
/// the samples once and nothing else.
pub proof fn lemma_few_colors_palette(samples: Seq<Sample>, k: nat)
    requires
        samples.len() > 0,
        cells_are_pure(samples),
        distinct_colors(samples).len() <= k,
    ensures
        palette_of_samples(samples, k).len() == distinct_colors(samples).len(),
        palette_of_samples(samples, k).no_duplicates(),
        forall|i: int|
            0 <= i < palette_of_samples(samples, k).len() ==> distinct_colors(samples).contains(
                #[trigger] palette_of_samples(samples, k)[i],
            ),
        forall|c: Color| #[trigger]
            distinct_colors(samples).contains(c) ==> palette_of_samples(samples, k).contains(c),
{
    let h = histogram_of(samples);
    let regions = quantized_boxes(h, tighten(h, Bounds::whole()), k);
    let palette = palette_of_samples(samples, k);
    let listed = samples.map_values(|s: Sample| color_of(s));
    lemma_few_colors_boxes(samples, k);
    assert forall|i: int| 0 <= i < palette.len() implies distinct_colors(samples).contains(
        #[trigger] palette[i],
    ) by {
        assert(is_box(h, regions[i]) && is_single_cell(regions[i]));
        let at = lemma_single_box_color(samples, regions[i]);
    }
    assert forall|i: int, j: int|
        0 <= i < palette.len() && 0 <= j < palette.len() && i != j implies palette[i]
        != palette[j] by {
        assert(is_box(h, regions[i]) && is_single_cell(regions[i]));
        assert(is_box(h, regions[j]) && is_single_cell(regions[j]));
        assert(!overlap(regions[i], regions[j]));
        lemma_apart_boxes_differ(samples, regions[i], regions[j]);
    }
    assert forall|c: Color| #[trigger] distinct_colors(samples).contains(c) implies palette.contains(
        c,
    ) by {
        let at = choose|at: int| 0 <= at < listed.len() && listed[at] == c;
        assert(color_of(samples[at]) == c);
        lemma_few_colors_each_kept(samples, k, at);
    }
}

} // verus!
