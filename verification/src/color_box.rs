//! Boxes of colour space: a tight region of the histogram together with
//! what its cells hold.

use vstd::prelude::*;
use crate::color::Color;
use crate::error::QuantizeError;
use crate::histogram::{Histogram, Measure, Tally, CELLS};
use crate::region::{
    coordinate, cut_from, cut_point, is_box, lemma_populated_witness, lemma_slab_bounded, lemma_slab_extend, lemma_split,
    lemma_sum_consistent, lemma_tighten, lemma_tighten_total, longest_axis, lowest, highest,
    region_sum, region_total, slab_total, split_bounds, tighten, Axis, Bounds,
};

verus! {

/// A box of the median cut, with the population and the channel sums of the
/// samples in it.
#[derive(Clone, Copy, Debug, PartialEq, Eq)]
pub struct ColorBox {
    pub bounds: Bounds,
    pub population: u128,
    pub r_sum: u128,
    pub g_sum: u128,
    pub b_sum: u128,
}

/// `sum / count`, rounded to the nearest integer, a half rounding up.
#[verifier::opaque]
pub open spec fn rounded_mean(sum: nat, count: nat) -> int {
    sum as int / count as int + if 2 * (sum as int % count as int) >= count {
        1int
    } else {
        0int
    }
}

/// The mean colour of the samples in the region `b` of a histogram.
pub open spec fn mean_color(h: Seq<Tally>, b: Bounds) -> Color {
    Color {
        r: rounded_mean(
            region_total(h, b, Measure::Red),
            region_total(h, b, Measure::Count),
        ) as u8,
        g: rounded_mean(
            region_total(h, b, Measure::Green),
            region_total(h, b, Measure::Count),
        ) as u8,
        b: rounded_mean(
            region_total(h, b, Measure::Blue),
            region_total(h, b, Measure::Count),
        ) as u8,
    }
}

/// A mean of values up to 255 is itself at most 255.
pub proof fn lemma_rounded_mean_range(sum: nat, count: nat)
    requires
        count > 0,
        sum <= 255 * count,
    ensures
        0 <= rounded_mean(sum, count) <= 255,
{
    reveal(rounded_mean);
    let q = sum as int / count as int;
    let r = sum as int % count as int;
    assert(sum == q * count + r && 0 <= r < count) by (nonlinear_arith)
        requires
            q == sum as int / count as int,
            r == sum as int % count as int,
            count > 0,
    ;
    assert(q <= 255 && (q == 255 ==> r == 0) && q >= 0) by (nonlinear_arith)
        requires
            sum == q * count + r,
            0 <= r < count,
            0 <= sum <= 255 * count,
    ;
}

/// The mean of equal values is that value.
pub proof fn lemma_rounded_mean_exact(value: nat, count: nat)
    requires
        count > 0,
    ensures
        rounded_mean(value * count, count) == value,
{
    reveal(rounded_mean);
    let sum = (value * count) as int;
    let q = sum / count as int;
    let r = sum % count as int;
    assert(q == value && r == 0) by (nonlinear_arith)
        requires
            sum == value * count,
            q == sum / count as int,
            r == sum % count as int,
            count > 0,
    ;
}

impl ColorBox {
    /// The box is a box of the histogram `h`, and what it records is what
    /// the cells of `h` inside its bounds hold.
    pub open spec fn wf(self, h: Seq<Tally>) -> bool {
        &&& is_box(h, self.bounds)
        &&& self.population == region_total(h, self.bounds, Measure::Count)
        &&& self.r_sum == region_total(h, self.bounds, Measure::Red)
        &&& self.g_sum == region_total(h, self.bounds, Measure::Green)
        &&& self.b_sum == region_total(h, self.bounds, Measure::Blue)
    }

    /// The box holds a sample, and no channel sum exceeds 255 per sample.
    pub open spec fn is_consistent(self) -> bool {
        &&& self.population > 0
        &&& self.r_sum <= 255 * self.population
        &&& self.g_sum <= 255 * self.population
        &&& self.b_sum <= 255 * self.population
    }

    /// The population-weighted mean colour of the box.
    pub open spec fn average(self) -> Color {
        Color {
            r: rounded_mean(self.r_sum as nat, self.population as nat) as u8,
            g: rounded_mean(self.g_sum as nat, self.population as nat) as u8,
            b: rounded_mean(self.b_sum as nat, self.population as nat) as u8,
        }
    }

    /// A box of a histogram is consistent, and its average is the mean
    /// colour of its region.
    pub proof fn lemma_wf_consistent(self, h: Seq<Tally>)
        requires
            crate::histogram::is_histogram(h),
            self.wf(h),
        ensures
            self.is_consistent(),
            self.average() == mean_color(h, self.bounds),
    {
        lemma_sum_consistent(h, self.bounds, CELLS as nat);
    }

    /// The box of what lies inside `region`: `None` where no sample does,
    /// else the tightened region with its population and channel sums.
    ///
    /// Visits every cell of the histogram once.
    pub fn survey(hist: &Histogram, region: Bounds) -> (res: Option<ColorBox>)
        requires
            hist.wf(),
        ensures
            match res {
                None => region_total(hist@, region, Measure::Count) == 0,
                Some(found) => {
                    &&& region_total(hist@, region, Measure::Count) > 0
                    &&& found.bounds == tighten(hist@, region)
                    &&& found.wf(hist@)
                },
            },
    {
        let mut population: u128 = 0;
        let mut r_sum: u128 = 0;
        let mut g_sum: u128 = 0;
        let mut b_sum: u128 = 0;
        let mut r_lo: u8 = 31;
        let mut r_hi: u8 = 0;
        let mut g_lo: u8 = 31;
        let mut g_hi: u8 = 0;
        let mut b_lo: u8 = 31;
        let mut b_hi: u8 = 0;
        let mut idx: usize = 0;
        while idx < CELLS
            invariant
                idx <= CELLS,
                hist.wf(),
                population == region_sum(hist@, region, Measure::Count, idx as nat),
                r_sum == region_sum(hist@, region, Measure::Red, idx as nat),
                g_sum == region_sum(hist@, region, Measure::Green, idx as nat),
                b_sum == region_sum(hist@, region, Measure::Blue, idx as nat),
                population <= idx * 0xFFFF_FFFF_FFFF_FFFFint,
                r_sum <= idx * 0x100_0000_0000_0000_0000int,
                g_sum <= idx * 0x100_0000_0000_0000_0000int,
                b_sum <= idx * 0x100_0000_0000_0000_0000int,
                r_lo == lowest(hist@, region, Axis::Red, idx as nat),
                r_hi == highest(hist@, region, Axis::Red, idx as nat),
                g_lo == lowest(hist@, region, Axis::Green, idx as nat),
                g_hi == highest(hist@, region, Axis::Green, idx as nat),
                b_lo == lowest(hist@, region, Axis::Blue, idx as nat),
                b_hi == highest(hist@, region, Axis::Blue, idx as nat),
            decreases CELLS - idx,
        {
            if region.contains_cell(idx) {
                let cell = hist.cell(idx);
                assert(hist@[idx as int].is_consistent());
                population = population + cell.count as u128;
                r_sum = r_sum + cell.r_sum;
                g_sum = g_sum + cell.g_sum;
                b_sum = b_sum + cell.b_sum;
                if cell.count > 0 {
                    let r: u8 = (idx / 1024) as u8;
                    let g: u8 = ((idx / 32) % 32) as u8;
                    let b: u8 = (idx % 32) as u8;
                    if r < r_lo {
                        r_lo = r;
                    }
                    if r > r_hi {
                        r_hi = r;
                    }
                    if g < g_lo {
                        g_lo = g;
                    }
                    if g > g_hi {
                        g_hi = g;
                    }
                    if b < b_lo {
                        b_lo = b;
                    }
                    if b > b_hi {
                        b_hi = b;
                    }
                }
            }
            idx = idx + 1;
        }
        if population == 0 {
            None
        } else {
            let bounds = Bounds {
                r_min: r_lo,
                r_max: r_hi,
                g_min: g_lo,
                g_max: g_hi,
                b_min: b_lo,
                b_max: b_hi,
            };
            proof {
                let some = lemma_populated_witness(hist@, region);
                lemma_tighten(hist@, region, some);
                lemma_tighten_total(hist@, region, Measure::Count);
                lemma_tighten_total(hist@, region, Measure::Red);
                lemma_tighten_total(hist@, region, Measure::Green);
                lemma_tighten_total(hist@, region, Measure::Blue);
                assert(bounds == tighten(hist@, region));
            }
            Some(ColorBox { bounds, population, r_sum, g_sum, b_sum })
        }
    }

    /// The root box of a histogram: the bounds of all that is occupied, or
    /// `None` for a histogram without samples.
    pub fn root(hist: &Histogram) -> (res: Option<ColorBox>)
        requires
            hist.wf(),
        ensures
            match res {
                None => region_total(hist@, Bounds::whole(), Measure::Count) == 0,
                Some(found) => {
                    &&& region_total(hist@, Bounds::whole(), Measure::Count) > 0
                    &&& found.bounds == tighten(hist@, Bounds::whole())
                    &&& found.wf(hist@)
                },
            },
    {
        ColorBox::survey(hist, Bounds::everything())
    }

    /// The axis along which the box is longest; among equals, red comes
    /// before green and green before blue.
    pub fn longest_axis(&self) -> (axis: Axis)
        ensures
            axis == longest_axis(self.bounds),
    {
        let r: i16 = self.bounds.r_max as i16 - self.bounds.r_min as i16;
        let g: i16 = self.bounds.g_max as i16 - self.bounds.g_min as i16;
        let b: i16 = self.bounds.b_max as i16 - self.bounds.b_min as i16;
        if r >= g && r >= b {
            Axis::Red
        } else if g >= b {
            Axis::Green
        } else {
            Axis::Blue
        }
    }

    /// Cuts the box in two along `axis`, at the [`cut_point`]: the halves
    /// are the boxes of what lies up to the cut and of what lies after it.
    ///
    /// A box that is one cell long along `axis` cannot be cut, and is
    /// reported as [`QuantizeError::Unsplittable`].
    pub fn split(&self, hist: &Histogram, axis: Axis) -> (res: Result<
        (ColorBox, ColorBox),
        QuantizeError,
    >)
        requires
            hist.wf(),
            self.wf(hist@),
        ensures
            match res {
                Err(e) => e == QuantizeError::Unsplittable && self.bounds.span(axis) == 0,
                Ok(halves) => {
                    &&& self.bounds.span(axis) > 0
                    &&& halves.0.bounds == split_bounds(hist@, self.bounds, axis).0
                    &&& halves.1.bounds == split_bounds(hist@, self.bounds, axis).1
                    &&& halves.0.wf(hist@)
                    &&& halves.1.wf(hist@)
                    &&& halves.0.population + halves.1.population == self.population
                    &&& halves.0.r_sum + halves.1.r_sum == self.r_sum
                    &&& halves.0.g_sum + halves.1.g_sum == self.g_sum
                    &&& halves.0.b_sum + halves.1.b_sum == self.b_sum
                },
            },
    {
        let lo: u8 = self.bounds.lower(axis);
        let hi: u8 = self.bounds.upper(axis);
        if lo >= hi {
            return Err(QuantizeError::Unsplittable);
        }
        let slabs = slab_counts(hist, self.bounds, axis);
        let total: u128 = self.population;
        let mut m: u8 = lo;
        let mut below: u128 = slabs[lo as usize];
        proof {
            lemma_slab_bounded(hist@, self.bounds, axis, lo);
        }
        while m + 1 < hi && below < total - below
            invariant
                lo == self.bounds.lo(axis),
                hi == self.bounds.hi(axis),
                hi < 32,
                lo <= m < hi,
                total == region_total(hist@, self.bounds, Measure::Count),
                below == slab_total(hist@, self.bounds, axis, lo, m),
                below <= total,
                cut_from(hist@, self.bounds, axis, m) == cut_point(hist@, self.bounds, axis),
                slabs@.len() == 32,
                forall|c: int|
                    0 <= c < 32 ==> #[trigger] slabs@[c] == slab_total(
                        hist@,
                        self.bounds,
                        axis,
                        c as u8,
                        c as u8,
                    ),
            decreases hi - m,
        {
            m = m + 1;
            proof {
                lemma_slab_extend(hist@, self.bounds, axis, m);
                lemma_slab_bounded(hist@, self.bounds, axis, m);
            }
            below = below + slabs[m as usize];
        }
        proof {
            lemma_split(hist@, self.bounds, axis);
            let parts = split_bounds(hist@, self.bounds, axis);
            assert(region_total(hist@, self.bounds, Measure::Count) == region_total(
                hist@,
                parts.0,
                Measure::Count,
            ) + region_total(hist@, parts.1, Measure::Count));
            assert(region_total(hist@, self.bounds, Measure::Red) == region_total(
                hist@,
                parts.0,
                Measure::Red,
            ) + region_total(hist@, parts.1, Measure::Red));
            assert(region_total(hist@, self.bounds, Measure::Green) == region_total(
                hist@,
                parts.0,
                Measure::Green,
            ) + region_total(hist@, parts.1, Measure::Green));
            assert(region_total(hist@, self.bounds, Measure::Blue) == region_total(
                hist@,
                parts.0,
                Measure::Blue,
            ) + region_total(hist@, parts.1, Measure::Blue));
            lemma_tighten_total(hist@, self.bounds.with_range(axis, lo, m), Measure::Count);
            lemma_tighten_total(
                hist@,
                self.bounds.with_range(axis, (m + 1) as u8, hi),
                Measure::Count,
            );
        }
        let left = ColorBox::survey(hist, self.bounds.narrowed(axis, lo, m));
        let right = ColorBox::survey(hist, self.bounds.narrowed(axis, m + 1, hi));
        Ok((left.unwrap(), right.unwrap()))
    }

    /// The population-weighted mean colour of the box.
    pub fn average_color(&self) -> (c: Color)
        requires
            self.is_consistent(),
        ensures
            c == self.average(),
    {
        Color {
            r: nearest_mean(self.r_sum, self.population),
            g: nearest_mean(self.g_sum, self.population),
            b: nearest_mean(self.b_sum, self.population),
        }
    }
}

fn nearest_mean(sum: u128, count: u128) -> (mean: u8)
    requires
        count > 0,
        sum <= 255 * count,
    ensures
        mean == rounded_mean(sum as nat, count as nat),
{
    proof {
        reveal(rounded_mean);
        lemma_rounded_mean_range(sum as nat, count as nat);
    }
    let whole: u128 = sum / count;
    let rest: u128 = sum % count;
    if rest >= count - rest {
        (whole + 1) as u8
    } else {
        whole as u8
    }
}

/// For each coordinate along `axis`, the samples in the cells of `bounds`
/// that have this coordinate.
fn slab_counts(hist: &Histogram, bounds: Bounds, axis: Axis) -> (slabs: Vec<u128>)
    requires
        hist.wf(),
    ensures
        slabs@.len() == 32,
        forall|c: int|
            0 <= c < 32 ==> #[trigger] slabs@[c] == slab_total(
                hist@,
                bounds,
                axis,
                c as u8,
                c as u8,
            ),
{
    let mut slabs: Vec<u128> = Vec::new();
    let mut n: usize = 0;
    while n < 32
        invariant
            n <= 32,
            slabs@.len() == n,
            forall|c: int| 0 <= c < n ==> #[trigger] slabs@[c] == 0,
        decreases 32 - n,
    {
        slabs.push(0);
        n = n + 1;
    }
    let mut idx: usize = 0;
    while idx < CELLS
        invariant
            idx <= CELLS,
            hist.wf(),
            slabs@.len() == 32,
            forall|c: int|
                0 <= c < 32 ==> #[trigger] slabs@[c] == region_sum(
                    hist@,
                    bounds.with_range(axis, c as u8, c as u8),
                    Measure::Count,
                    idx as nat,
                ),
            forall|c: int| 0 <= c < 32 ==> #[trigger] slabs@[c] <= idx * 0xFFFF_FFFF_FFFF_FFFFint,
        decreases CELLS - idx,
    {
        let along: u8 = match axis {
            Axis::Red => (idx / 1024) as u8,
            Axis::Green => ((idx / 32) % 32) as u8,
            Axis::Blue => (idx % 32) as u8,
        };
        assert(along == coordinate(idx as int, axis));
        if bounds.narrowed(axis, along, along).contains_cell(idx) {
            let cell = hist.cell(idx);
            let before: u128 = slabs[along as usize];
            slabs.set(along as usize, before + cell.count as u128);
        }
        proof {
            assert forall|c: int| 0 <= c < 32 implies #[trigger] slabs@[c] == region_sum(
                hist@,
                bounds.with_range(axis, c as u8, c as u8),
                Measure::Count,
                (idx + 1) as nat,
            ) by {
                if c != along {
                    assert(!bounds.with_range(axis, c as u8, c as u8).holds(idx as int));
                }
            }
        }
        idx = idx + 1;
    }
    slabs
}

} // verus!
