//! Axis-aligned regions of the histogram and the sums taken over them.

use vstd::prelude::*;
use crate::histogram::{
    cell_index, cell_of, histogram_of, is_histogram, sample_index, Measure, Tally, CELLS,
    CHANNEL_CELLS,
};
use crate::sampler::Sample;

verus! {

/// A colour channel, as a direction in the histogram.
#[derive(Clone, Copy, Debug, PartialEq, Eq)]
pub enum Axis {
    Red,
    Green,
    Blue,
}

/// The coordinate along `axis` of the cell at position `idx`.
pub open spec fn coordinate(idx: int, axis: Axis) -> int {
    match axis {
        Axis::Red => idx / 1024,
        Axis::Green => (idx / 32) % 32,
        Axis::Blue => idx % 32,
    }
}

proof fn lemma_pack(r: u32, g: u32, b: u32)
    by (bit_vector)
    requires
        r < 32,
        g < 32,
        b < 32,
    ensures
        r * 1024 + g * 32 + b < 32768,
        (r * 1024 + g * 32 + b) / 1024 == r,
        ((r * 1024 + g * 32 + b) / 32) % 32 == g,
        (r * 1024 + g * 32 + b) % 32 == b,
{
}

proof fn lemma_unpack(idx: u32)
    by (bit_vector)
    requires
        idx < 32768,
    ensures
        idx / 1024 < 32,
        (idx / 32) % 32 < 32,
        idx % 32 < 32,
        (idx / 1024) * 1024 + ((idx / 32) % 32) * 32 + idx % 32 == idx,
{
}

/// The cell with the coordinates `r`, `g` and `b` has these coordinates.
pub proof fn lemma_coordinates_of_cell(r: int, g: int, b: int)
    requires
        0 <= r < 32,
        0 <= g < 32,
        0 <= b < 32,
    ensures
        0 <= cell_index(r, g, b) < CELLS,
        coordinate(cell_index(r, g, b), Axis::Red) == r,
        coordinate(cell_index(r, g, b), Axis::Green) == g,
        coordinate(cell_index(r, g, b), Axis::Blue) == b,
{
    lemma_pack(r as u32, g as u32, b as u32);
}

/// The coordinates of a cell lie below 32 and determine its position.
pub proof fn lemma_cell_of_coordinates(idx: int)
    requires
        0 <= idx < CELLS,
    ensures
        0 <= coordinate(idx, Axis::Red) < 32,
        0 <= coordinate(idx, Axis::Green) < 32,
        0 <= coordinate(idx, Axis::Blue) < 32,
        cell_index(
            coordinate(idx, Axis::Red),
            coordinate(idx, Axis::Green),
            coordinate(idx, Axis::Blue),
        ) == idx,
{
    lemma_unpack(idx as u32);
}

/// Inclusive cell ranges on the three axes.
#[derive(Clone, Copy, Debug, PartialEq, Eq)]
pub struct Bounds {
    pub r_min: u8,
    pub r_max: u8,
    pub g_min: u8,
    pub g_max: u8,
    pub b_min: u8,
    pub b_max: u8,
}

impl Bounds {
    /// The lower end of the range on `axis`.
    pub open spec fn lo(self, axis: Axis) -> u8 {
        match axis {
            Axis::Red => self.r_min,
            Axis::Green => self.g_min,
            Axis::Blue => self.b_min,
        }
    }

    /// The upper end of the range on `axis`.
    pub open spec fn hi(self, axis: Axis) -> u8 {
        match axis {
            Axis::Red => self.r_max,
            Axis::Green => self.g_max,
            Axis::Blue => self.b_max,
        }
    }

    /// Cells along `axis`, less one.
    pub open spec fn span(self, axis: Axis) -> int {
        self.hi(axis) - self.lo(axis)
    }

    /// Each range is non-empty and lies inside the histogram.
    pub open spec fn is_valid(self) -> bool {
        &&& self.r_min <= self.r_max < CHANNEL_CELLS
        &&& self.g_min <= self.g_max < CHANNEL_CELLS
        &&& self.b_min <= self.b_max < CHANNEL_CELLS
    }

    /// The same bounds with the range on `axis` replaced.
    pub open spec fn with_range(self, axis: Axis, lo: u8, hi: u8) -> Bounds {
        match axis {
            Axis::Red => Bounds { r_min: lo, r_max: hi, ..self },
            Axis::Green => Bounds { g_min: lo, g_max: hi, ..self },
            Axis::Blue => Bounds { b_min: lo, b_max: hi, ..self },
        }
    }

    /// Whether the cell at position `idx` lies inside.
    pub open spec fn holds(self, idx: int) -> bool {
        &&& self.r_min <= coordinate(idx, Axis::Red) <= self.r_max
        &&& self.g_min <= coordinate(idx, Axis::Green) <= self.g_max
        &&& self.b_min <= coordinate(idx, Axis::Blue) <= self.b_max
    }

    /// The whole histogram.
    pub open spec fn whole() -> Bounds {
        Bounds { r_min: 0, r_max: 31, g_min: 0, g_max: 31, b_min: 0, b_max: 31 }
    }

    /// The lower end of the range on `axis`.
    pub fn lower(&self, axis: Axis) -> (v: u8)
        ensures
            v == self.lo(axis),
    {
        match axis {
            Axis::Red => self.r_min,
            Axis::Green => self.g_min,
            Axis::Blue => self.b_min,
        }
    }

    /// The upper end of the range on `axis`.
    pub fn upper(&self, axis: Axis) -> (v: u8)
        ensures
            v == self.hi(axis),
    {
        match axis {
            Axis::Red => self.r_max,
            Axis::Green => self.g_max,
            Axis::Blue => self.b_max,
        }
    }

    /// The same bounds with the range on `axis` replaced.
    pub fn narrowed(&self, axis: Axis, lo: u8, hi: u8) -> (out: Bounds)
        ensures
            out == self.with_range(axis, lo, hi),
    {
        match axis {
            Axis::Red => Bounds {
                r_min: lo,
                r_max: hi,
                g_min: self.g_min,
                g_max: self.g_max,
                b_min: self.b_min,
                b_max: self.b_max,
            },
            Axis::Green => Bounds {
                r_min: self.r_min,
                r_max: self.r_max,
                g_min: lo,
                g_max: hi,
                b_min: self.b_min,
                b_max: self.b_max,
            },
            Axis::Blue => Bounds {
                r_min: self.r_min,
                r_max: self.r_max,
                g_min: self.g_min,
                g_max: self.g_max,
                b_min: lo,
                b_max: hi,
            },
        }
    }

    /// Whether the cell at position `idx` lies inside.
    pub fn contains_cell(&self, idx: usize) -> (inside: bool)
        requires
            idx < CELLS,
        ensures
            inside == self.holds(idx as int),
    {
        let r: u8 = (idx / 1024) as u8;
        let g: u8 = ((idx / 32) % 32) as u8;
        let b: u8 = (idx % 32) as u8;
        self.r_min <= r && r <= self.r_max && self.g_min <= g && g <= self.g_max && self.b_min
            <= b && b <= self.b_max
    }

    /// The whole histogram.
    pub fn everything() -> (out: Bounds)
        ensures
            out == Bounds::whole(),
    {
        Bounds { r_min: 0, r_max: 31, g_min: 0, g_max: 31, b_min: 0, b_max: 31 }
    }

    /// Whether `self` lies inside `outer` on every axis.
    pub open spec fn within(self, outer: Bounds) -> bool {
        &&& outer.r_min <= self.r_min && self.r_max <= outer.r_max
        &&& outer.g_min <= self.g_min && self.g_max <= outer.g_max
        &&& outer.b_min <= self.b_min && self.b_max <= outer.b_max
    }
}

/// What the cell at `idx` adds to a sum over `b`.
pub open spec fn contribution(h: Seq<Tally>, b: Bounds, m: Measure, idx: int) -> nat {
    if b.holds(idx) {
        h[idx].measure(m)
    } else {
        0
    }
}

/// The sum of `m` over the cells of `b` at positions below `n`.
pub open spec fn region_sum(h: Seq<Tally>, b: Bounds, m: Measure, n: nat) -> nat
    decreases n,
{
    if n == 0 {
        0
    } else {
        region_sum(h, b, m, (n - 1) as nat) + contribution(h, b, m, n - 1)
    }
}

/// The sum of `m` over all cells of `b`.
pub open spec fn region_total(h: Seq<Tally>, b: Bounds, m: Measure) -> nat {
    region_sum(h, b, m, CELLS as nat)
}

/// Whether the cell at `idx` lies in `b` and holds a sample.
pub open spec fn is_occupied(h: Seq<Tally>, b: Bounds, idx: int) -> bool {
    b.holds(idx) && h[idx].count > 0
}

/// Sums over regions whose cells contribute alike are equal.
pub proof fn lemma_sum_congruent(h: Seq<Tally>, a: Bounds, b: Bounds, m: Measure, n: nat)
    requires
        forall|idx: int|
            0 <= idx < n ==> #[trigger] contribution(h, a, m, idx) == contribution(h, b, m, idx),
    ensures
        region_sum(h, a, m, n) == region_sum(h, b, m, n),
    decreases n,
{
    if n > 0 {
        lemma_sum_congruent(h, a, b, m, (n - 1) as nat);
    }
}

/// Where each cell contributes to `whole` what it contributes to `left` and
/// `right` together, the sums add up.
pub proof fn lemma_sum_additive(
    h: Seq<Tally>,
    whole: Bounds,
    left: Bounds,
    right: Bounds,
    m: Measure,
    n: nat,
)
    requires
        forall|idx: int|
            0 <= idx < n ==> #[trigger] contribution(h, whole, m, idx) == contribution(
                h,
                left,
                m,
                idx,
            ) + contribution(h, right, m, idx),
    ensures
        region_sum(h, whole, m, n) == region_sum(h, left, m, n) + region_sum(h, right, m, n),
    decreases n,
{
    if n > 0 {
        lemma_sum_additive(h, whole, left, right, m, (n - 1) as nat);
    }
}

/// A sum is at least what one of its cells contributes.
pub proof fn lemma_sum_member(h: Seq<Tally>, b: Bounds, m: Measure, n: nat, idx: int)
    requires
        0 <= idx < n,
    ensures
        region_sum(h, b, m, n) >= contribution(h, b, m, idx),
    decreases n,
{
    if idx < n - 1 {
        lemma_sum_member(h, b, m, (n - 1) as nat, idx);
    }
}

/// A sum is at least what two different cells contribute together.
pub proof fn lemma_sum_two_members(
    h: Seq<Tally>,
    b: Bounds,
    m: Measure,
    n: nat,
    first: int,
    second: int,
)
    requires
        0 <= first < second < n,
    ensures
        region_sum(h, b, m, n) >= contribution(h, b, m, first) + contribution(h, b, m, second),
    decreases n,
{
    if second < n - 1 {
        lemma_sum_two_members(h, b, m, (n - 1) as nat, first, second);
    } else {
        lemma_sum_member(h, b, m, (n - 1) as nat, first);
    }
}

/// Where at most the cell at `at` contributes, the sum is its contribution.
pub proof fn lemma_sum_single(h: Seq<Tally>, b: Bounds, m: Measure, n: nat, at: int)
    requires
        forall|idx: int| 0 <= idx < n && idx != at ==> #[trigger] contribution(h, b, m, idx) == 0,
    ensures
        region_sum(h, b, m, n) == if 0 <= at < n {
            contribution(h, b, m, at)
        } else {
            0
        },
    decreases n,
{
    if n > 0 {
        lemma_sum_single(h, b, m, (n - 1) as nat, at);
    }
}

/// A positive sum has a cell that contributes.
pub proof fn lemma_sum_witness(h: Seq<Tally>, b: Bounds, m: Measure, n: nat) -> (at: int)
    requires
        region_sum(h, b, m, n) > 0,
    ensures
        0 <= at < n,
        contribution(h, b, m, at) > 0,
    decreases n,
{
    if contribution(h, b, m, n - 1) > 0 {
        n - 1
    } else {
        lemma_sum_witness(h, b, m, (n - 1) as nat)
    }
}

/// Cutting a region in two along an axis splits every sum over it.
pub proof fn lemma_split_total(h: Seq<Tally>, b: Bounds, axis: Axis, mid: u8, m: Measure)
    requires
        b.lo(axis) <= mid < b.hi(axis),
    ensures
        region_total(h, b, m) == region_total(h, b.with_range(axis, b.lo(axis), mid), m)
            + region_total(h, b.with_range(axis, (mid + 1) as u8, b.hi(axis)), m),
{
    let left = b.with_range(axis, b.lo(axis), mid);
    let right = b.with_range(axis, (mid + 1) as u8, b.hi(axis));
    assert forall|idx: int| 0 <= idx < CELLS implies #[trigger] contribution(h, b, m, idx)
        == contribution(h, left, m, idx) + contribution(h, right, m, idx) by {
        assert(b.holds(idx) <==> (left.holds(idx) || right.holds(idx)));
        assert(!(left.holds(idx) && right.holds(idx)));
    }
    lemma_sum_additive(h, b, left, right, m, CELLS as nat);
}

/// A region of one cell sums to that cell's measure.
pub proof fn lemma_single_cell_total(h: Seq<Tally>, b: Bounds, m: Measure)
    requires
        b.is_valid(),
        b.r_min == b.r_max,
        b.g_min == b.g_max,
        b.b_min == b.b_max,
    ensures
        region_total(h, b, m) == h[cell_index(b.r_min as int, b.g_min as int, b.b_min as int)].measure(
            m,
        ),
{
    let at = cell_index(b.r_min as int, b.g_min as int, b.b_min as int);
    lemma_coordinates_of_cell(b.r_min as int, b.g_min as int, b.b_min as int);
    assert(b.holds(at));
    assert forall|idx: int| 0 <= idx < CELLS && idx != at implies #[trigger] contribution(
        h,
        b,
        m,
        idx,
    ) == 0 by {
        if b.holds(idx) {
            lemma_cell_of_coordinates(idx);
        }
    }
    lemma_sum_single(h, b, m, CELLS as nat, at);
}

/// The least coordinate along `axis` among the occupied cells of `b` at
/// positions below `n`, and 31 where there is none.
pub open spec fn lowest(h: Seq<Tally>, b: Bounds, axis: Axis, n: nat) -> int
    decreases n,
{
    if n == 0 {
        31
    } else {
        let rest = lowest(h, b, axis, (n - 1) as nat);
        if is_occupied(h, b, n - 1) && coordinate(n - 1, axis) < rest {
            coordinate(n - 1, axis)
        } else {
            rest
        }
    }
}

/// The greatest coordinate along `axis` among the occupied cells of `b` at
/// positions below `n`, and 0 where there is none.
pub open spec fn highest(h: Seq<Tally>, b: Bounds, axis: Axis, n: nat) -> int
    decreases n,
{
    if n == 0 {
        0
    } else {
        let rest = highest(h, b, axis, (n - 1) as nat);
        if is_occupied(h, b, n - 1) && coordinate(n - 1, axis) > rest {
            coordinate(n - 1, axis)
        } else {
            rest
        }
    }
}

/// The bounds of what is occupied inside `b`.
pub open spec fn tighten(h: Seq<Tally>, b: Bounds) -> Bounds {
    Bounds {
        r_min: lowest(h, b, Axis::Red, CELLS as nat) as u8,
        r_max: highest(h, b, Axis::Red, CELLS as nat) as u8,
        g_min: lowest(h, b, Axis::Green, CELLS as nat) as u8,
        g_max: highest(h, b, Axis::Green, CELLS as nat) as u8,
        b_min: lowest(h, b, Axis::Blue, CELLS as nat) as u8,
        b_max: highest(h, b, Axis::Blue, CELLS as nat) as u8,
    }
}

/// A region is tight when each of its six faces touches an occupied cell.
pub open spec fn is_tight(h: Seq<Tally>, b: Bounds) -> bool {
    tighten(h, b) == b
}

/// Both extents are coordinates.
pub proof fn lemma_extent_range(h: Seq<Tally>, b: Bounds, axis: Axis, n: nat)
    requires
        n <= CELLS,
    ensures
        0 <= lowest(h, b, axis, n) <= 31,
        0 <= highest(h, b, axis, n) <= 31,
    decreases n,
{
    if n > 0 {
        lemma_extent_range(h, b, axis, (n - 1) as nat);
        lemma_cell_of_coordinates(n - 1);
    }
}

/// Every occupied cell lies between the two extents.
pub proof fn lemma_extent_covers(h: Seq<Tally>, b: Bounds, axis: Axis, n: nat, idx: int)
    requires
        0 <= idx < n,
        is_occupied(h, b, idx),
    ensures
        lowest(h, b, axis, n) <= coordinate(idx, axis) <= highest(h, b, axis, n),
    decreases n,
{
    if idx < n - 1 {
        lemma_extent_covers(h, b, axis, (n - 1) as nat, idx);
    }
}

/// Where a cell is occupied, some occupied cell has the least coordinate.
pub proof fn lemma_lowest_attained(h: Seq<Tally>, b: Bounds, axis: Axis, n: nat, some: int) -> (at:
    int)
    requires
        0 <= some < n,
        n <= CELLS,
        is_occupied(h, b, some),
    ensures
        0 <= at < n,
        is_occupied(h, b, at),
        coordinate(at, axis) == lowest(h, b, axis, n),
    decreases n,
{
    let rest = lowest(h, b, axis, (n - 1) as nat);
    lemma_cell_of_coordinates(n - 1);
    if is_occupied(h, b, n - 1) && coordinate(n - 1, axis) < rest {
        n - 1
    } else if some < n - 1 {
        lemma_lowest_attained(h, b, axis, (n - 1) as nat, some)
    } else {
        // The last cell is the occupied one, and it does not lie below the
        // earlier ones: either there are earlier ones, or it sets the extent.
        if exists|j: int| 0 <= j < n - 1 && is_occupied(h, b, j) {
            let j = choose|j: int| 0 <= j < n - 1 && is_occupied(h, b, j);
            let w = lemma_lowest_attained(h, b, axis, (n - 1) as nat, j);
            if coordinate(n - 1, axis) == rest {
                n - 1
            } else {
                w
            }
        } else {
            lemma_extent_unoccupied(h, b, axis, (n - 1) as nat);
            lemma_extent_covers(h, b, axis, n, n - 1);
            n - 1
        }
    }
}

/// Where a cell is occupied, some occupied cell has the greatest coordinate.
pub proof fn lemma_highest_attained(h: Seq<Tally>, b: Bounds, axis: Axis, n: nat, some: int) -> (at:
    int)
    requires
        0 <= some < n,
        n <= CELLS,
        is_occupied(h, b, some),
    ensures
        0 <= at < n,
        is_occupied(h, b, at),
        coordinate(at, axis) == highest(h, b, axis, n),
    decreases n,
{
    let rest = highest(h, b, axis, (n - 1) as nat);
    lemma_cell_of_coordinates(n - 1);
    if is_occupied(h, b, n - 1) && coordinate(n - 1, axis) > rest {
        n - 1
    } else if some < n - 1 {
        lemma_highest_attained(h, b, axis, (n - 1) as nat, some)
    } else {
        if exists|j: int| 0 <= j < n - 1 && is_occupied(h, b, j) {
            let j = choose|j: int| 0 <= j < n - 1 && is_occupied(h, b, j);
            let w = lemma_highest_attained(h, b, axis, (n - 1) as nat, j);
            if coordinate(n - 1, axis) == rest {
                n - 1
            } else {
                w
            }
        } else {
            lemma_extent_unoccupied(h, b, axis, (n - 1) as nat);
            lemma_extent_covers(h, b, axis, n, n - 1);
            n - 1
        }
    }
}

/// With no occupied cell the extents keep their starting values.
pub proof fn lemma_extent_unoccupied(h: Seq<Tally>, b: Bounds, axis: Axis, n: nat)
    requires
        forall|j: int| 0 <= j < n ==> !is_occupied(h, b, j),
    ensures
        lowest(h, b, axis, n) == 31,
        highest(h, b, axis, n) == 0,
    decreases n,
{
    if n > 0 {
        lemma_extent_unoccupied(h, b, axis, (n - 1) as nat);
    }
}

/// Regions with the same occupied cells have the same extents.
pub proof fn lemma_extent_congruent(h: Seq<Tally>, a: Bounds, b: Bounds, axis: Axis, n: nat)
    requires
        forall|idx: int|
            0 <= idx < n ==> #[trigger] is_occupied(h, a, idx) == is_occupied(h, b, idx),
    ensures
        lowest(h, a, axis, n) == lowest(h, b, axis, n),
        highest(h, a, axis, n) == highest(h, b, axis, n),
    decreases n,
{
    if n > 0 {
        lemma_extent_congruent(h, a, b, axis, (n - 1) as nat);
    }
}

/// What tightening achieves where `b` has an occupied cell, here `some`:
/// the result is a valid region inside `b` with the same occupied cells,
/// and tightening it again changes nothing.
pub proof fn lemma_tighten(h: Seq<Tally>, b: Bounds, some: int)
    requires
        0 <= some < CELLS,
        is_occupied(h, b, some),
    ensures
        tighten(h, b).is_valid(),
        tighten(h, b).within(b),
        forall|idx: int|
            0 <= idx < CELLS ==> #[trigger] is_occupied(h, tighten(h, b), idx) == is_occupied(
                h,
                b,
                idx,
            ),
        is_tight(h, tighten(h, b)),
{
    let t = tighten(h, b);
    let n = CELLS as nat;
    lemma_extent_range(h, b, Axis::Red, n);
    lemma_extent_range(h, b, Axis::Green, n);
    lemma_extent_range(h, b, Axis::Blue, n);
    lemma_extent_covers(h, b, Axis::Red, n, some);
    lemma_extent_covers(h, b, Axis::Green, n, some);
    lemma_extent_covers(h, b, Axis::Blue, n, some);
    let r_lo = lemma_lowest_attained(h, b, Axis::Red, n, some);
    let r_hi = lemma_highest_attained(h, b, Axis::Red, n, some);
    let g_lo = lemma_lowest_attained(h, b, Axis::Green, n, some);
    let g_hi = lemma_highest_attained(h, b, Axis::Green, n, some);
    let b_lo = lemma_lowest_attained(h, b, Axis::Blue, n, some);
    let b_hi = lemma_highest_attained(h, b, Axis::Blue, n, some);
    assert(t.within(b));
    assert forall|idx: int| 0 <= idx < CELLS implies #[trigger] is_occupied(h, t, idx)
        == is_occupied(h, b, idx) by {
        if is_occupied(h, b, idx) {
            lemma_extent_covers(h, b, Axis::Red, n, idx);
            lemma_extent_covers(h, b, Axis::Green, n, idx);
            lemma_extent_covers(h, b, Axis::Blue, n, idx);
        }
    }
    lemma_extent_congruent(h, t, b, Axis::Red, n);
    lemma_extent_congruent(h, t, b, Axis::Green, n);
    lemma_extent_congruent(h, t, b, Axis::Blue, n);
}

/// Tightening a region leaves every sum over it unchanged.
pub proof fn lemma_tighten_total(h: Seq<Tally>, b: Bounds, m: Measure)
    requires
        is_histogram(h),
    ensures
        region_total(h, tighten(h, b), m) == region_total(h, b, m),
{
    let t = tighten(h, b);
    let n = CELLS as nat;
    if exists|j: int| 0 <= j < CELLS && is_occupied(h, b, j) {
        let j = choose|j: int| 0 <= j < CELLS && is_occupied(h, b, j);
        lemma_tighten(h, b, j);
        assert forall|idx: int| 0 <= idx < n implies #[trigger] contribution(h, t, m, idx)
            == contribution(h, b, m, idx) by {
            assert(is_occupied(h, t, idx) == is_occupied(h, b, idx));
            assert(h[idx].is_consistent());
        }
    } else {
        lemma_extent_unoccupied(h, b, Axis::Red, n);
        assert forall|idx: int| 0 <= idx < n implies #[trigger] contribution(h, t, m, idx)
            == contribution(h, b, m, idx) by {
            assert(!is_occupied(h, b, idx));
            assert(h[idx].is_consistent());
        }
    }
    lemma_sum_congruent(h, t, b, m, n);
}

/// A tight region with an occupied cell, here `some`, has an occupied cell
/// on its lower and on its upper face along each axis.
pub proof fn lemma_tight_faces(h: Seq<Tally>, b: Bounds, axis: Axis, some: int) -> (ends: (
    int,
    int,
))
    requires
        is_tight(h, b),
        0 <= some < CELLS,
        is_occupied(h, b, some),
    ensures
        0 <= ends.0 < CELLS,
        0 <= ends.1 < CELLS,
        is_occupied(h, b, ends.0),
        is_occupied(h, b, ends.1),
        coordinate(ends.0, axis) == b.lo(axis),
        coordinate(ends.1, axis) == b.hi(axis),
{
    let n = CELLS as nat;
    lemma_extent_range(h, b, axis, n);
    let first = lemma_lowest_attained(h, b, axis, n, some);
    let last = lemma_highest_attained(h, b, axis, n, some);
    (first, last)
}

/// A region with a positive count holds an occupied cell.
pub proof fn lemma_populated_witness(h: Seq<Tally>, b: Bounds) -> (at: int)
    requires
        region_total(h, b, Measure::Count) > 0,
    ensures
        0 <= at < CELLS,
        is_occupied(h, b, at),
{
    lemma_sum_witness(h, b, Measure::Count, CELLS as nat)
}

/// A region with an occupied cell has a positive count.
pub proof fn lemma_occupied_populated(h: Seq<Tally>, b: Bounds, at: int)
    requires
        0 <= at < CELLS,
        is_occupied(h, b, at),
    ensures
        region_total(h, b, Measure::Count) > 0,
        region_total(h, b, Measure::Occupied) > 0,
{
    lemma_sum_member(h, b, Measure::Count, CELLS as nat, at);
    lemma_sum_member(h, b, Measure::Occupied, CELLS as nat, at);
}

/// The axis along which a region is longest; among equals, red comes before
/// green and green before blue.
pub open spec fn longest_axis(b: Bounds) -> Axis {
    if b.span(Axis::Red) >= b.span(Axis::Green) && b.span(Axis::Red) >= b.span(Axis::Blue) {
        Axis::Red
    } else if b.span(Axis::Green) >= b.span(Axis::Blue) {
        Axis::Green
    } else {
        Axis::Blue
    }
}

/// A box of the median cut: a valid, tight region that holds a sample.
pub open spec fn is_box(h: Seq<Tally>, b: Bounds) -> bool {
    &&& b.is_valid()
    &&& is_tight(h, b)
    &&& region_total(h, b, Measure::Count) > 0
}

/// The samples in the cells of `b` whose coordinate along `axis` lies
/// between `lo` and `hi`.
pub open spec fn slab_total(h: Seq<Tally>, b: Bounds, axis: Axis, lo: u8, hi: u8) -> nat {
    region_total(h, b.with_range(axis, lo, hi), Measure::Count)
}

/// The part of a region up to a coordinate holds no more than the region.
pub proof fn lemma_slab_bounded(h: Seq<Tally>, b: Bounds, axis: Axis, upto: u8)
    requires
        b.lo(axis) <= upto <= b.hi(axis),
    ensures
        slab_total(h, b, axis, b.lo(axis), upto) <= region_total(h, b, Measure::Count),
{
    if upto < b.hi(axis) {
        lemma_split_total(h, b, axis, upto, Measure::Count);
    } else {
        assert(b.with_range(axis, b.lo(axis), upto) == b);
    }
}

/// The part of a region up to a coordinate is the part up to the one before
/// and the slab at the coordinate.
pub proof fn lemma_slab_extend(h: Seq<Tally>, b: Bounds, axis: Axis, upto: u8)
    requires
        b.lo(axis) < upto,
    ensures
        slab_total(h, b, axis, b.lo(axis), upto) == slab_total(
            h,
            b,
            axis,
            b.lo(axis),
            (upto - 1) as u8,
        ) + slab_total(h, b, axis, upto, upto),
{
    let part = b.with_range(axis, b.lo(axis), upto);
    lemma_split_total(h, part, axis, (upto - 1) as u8, Measure::Count);
    assert(part.with_range(axis, part.lo(axis), (upto - 1) as u8) == b.with_range(
        axis,
        b.lo(axis),
        (upto - 1) as u8,
    ));
    assert(part.with_range(axis, upto, part.hi(axis)) == b.with_range(axis, upto, upto));
}

/// The search for the cut, from coordinate `m` on.
pub open spec fn cut_from(h: Seq<Tally>, b: Bounds, axis: Axis, m: u8) -> u8
    decreases b.hi(axis) - m,
{
    if m + 1 >= b.hi(axis) {
        m
    } else if 2 * slab_total(h, b, axis, b.lo(axis), m) >= region_total(h, b, Measure::Count) {
        m
    } else {
        cut_from(h, b, axis, (m + 1) as u8)
    }
}

/// Where a region is cut along `axis`: after the first coordinate up to
/// which the cells hold at least half of the samples, and at the latest
/// before the last coordinate. The cells up to the cut go to one side, the
/// cells after it to the other.
pub open spec fn cut_point(h: Seq<Tally>, b: Bounds, axis: Axis) -> u8 {
    cut_from(h, b, axis, b.lo(axis))
}

/// The two boxes that a cut along `axis` leaves: each side of the cut,
/// tightened to what it holds.
pub open spec fn split_bounds(h: Seq<Tally>, b: Bounds, axis: Axis) -> (Bounds, Bounds) {
    let m = cut_point(h, b, axis);
    (
        tighten(h, b.with_range(axis, b.lo(axis), m)),
        tighten(h, b.with_range(axis, (m + 1) as u8, b.hi(axis))),
    )
}

/// The search for the cut ends at or after its start, before the last
/// coordinate.
pub proof fn lemma_cut_from_range(h: Seq<Tally>, b: Bounds, axis: Axis, m: u8)
    requires
        b.lo(axis) <= m < b.hi(axis),
    ensures
        m <= cut_from(h, b, axis, m) < b.hi(axis),
    decreases b.hi(axis) - m,
{
    if m + 1 < b.hi(axis) && 2 * slab_total(h, b, axis, b.lo(axis), m) < region_total(
        h,
        b,
        Measure::Count,
    ) {
        lemma_cut_from_range(h, b, axis, (m + 1) as u8);
    }
}

/// The cut leaves at least one coordinate on either side.
pub proof fn lemma_cut_point_range(h: Seq<Tally>, b: Bounds, axis: Axis)
    requires
        b.lo(axis) < b.hi(axis),
    ensures
        b.lo(axis) <= cut_point(h, b, axis) < b.hi(axis),
{
    lemma_cut_from_range(h, b, axis, b.lo(axis));
}

/// Cutting a box that is longer than one cell along `axis` leaves two boxes
/// inside it, each shorter along `axis`, which share out every sum over it.
pub proof fn lemma_split(h: Seq<Tally>, b: Bounds, axis: Axis)
    requires
        is_histogram(h),
        is_box(h, b),
        b.span(axis) > 0,
    ensures
        is_box(h, split_bounds(h, b, axis).0),
        is_box(h, split_bounds(h, b, axis).1),
        split_bounds(h, b, axis).0.within(b),
        split_bounds(h, b, axis).1.within(b),
        split_bounds(h, b, axis).0.hi(axis) <= cut_point(h, b, axis),
        split_bounds(h, b, axis).1.lo(axis) > cut_point(h, b, axis),
        forall|m: Measure|
            region_total(h, b, m) == #[trigger] region_total(h, split_bounds(h, b, axis).0, m)
                + region_total(h, split_bounds(h, b, axis).1, m),
        forall|idx: int|
            0 <= idx < CELLS && #[trigger] is_occupied(h, b, idx) ==> is_occupied(
                h,
                split_bounds(h, b, axis).0,
                idx,
            ) || is_occupied(h, split_bounds(h, b, axis).1, idx),
{
    lemma_cut_point_range(h, b, axis);
    let cut = cut_point(h, b, axis);
    let left = b.with_range(axis, b.lo(axis), cut);
    let right = b.with_range(axis, (cut + 1) as u8, b.hi(axis));
    let some = lemma_populated_witness(h, b);
    let ends = lemma_tight_faces(h, b, axis, some);
    assert(is_occupied(h, left, ends.0));
    assert(is_occupied(h, right, ends.1));
    lemma_tighten(h, left, ends.0);
    lemma_tighten(h, right, ends.1);
    lemma_tighten_total(h, left, Measure::Count);
    lemma_tighten_total(h, right, Measure::Count);
    lemma_occupied_populated(h, left, ends.0);
    lemma_occupied_populated(h, right, ends.1);
    assert forall|m: Measure|
        region_total(h, b, m) == #[trigger] region_total(h, split_bounds(h, b, axis).0, m)
            + region_total(h, split_bounds(h, b, axis).1, m) by {
        lemma_split_total(h, b, axis, cut, m);
        lemma_tighten_total(h, left, m);
        lemma_tighten_total(h, right, m);
    }
    assert forall|idx: int| 0 <= idx < CELLS && #[trigger] is_occupied(h, b, idx) implies is_occupied(
        h,
        split_bounds(h, b, axis).0,
        idx,
    ) || is_occupied(h, split_bounds(h, b, axis).1, idx) by {
        if is_occupied(h, left, idx) {
            assert(is_occupied(h, tighten(h, left), idx));
        } else {
            assert(is_occupied(h, right, idx));
            assert(is_occupied(h, tighten(h, right), idx));
        }
    }
}

/// The first coordinate up to which a region holds half of its samples
/// decides the cut: no earlier coordinate reaches half, and the cut reaches
/// it unless it falls before the last coordinate.
pub proof fn lemma_cut_point_median(h: Seq<Tally>, b: Bounds, axis: Axis)
    requires
        b.lo(axis) < b.hi(axis),
    ensures
        b.lo(axis) <= cut_point(h, b, axis) < b.hi(axis),
        forall|m: u8|
            b.lo(axis) <= m < cut_point(h, b, axis) ==> 2 * #[trigger] slab_total(
                h,
                b,
                axis,
                b.lo(axis),
                m,
            ) < region_total(h, b, Measure::Count),
        cut_point(h, b, axis) + 1 == b.hi(axis) || 2 * slab_total(
            h,
            b,
            axis,
            b.lo(axis),
            cut_point(h, b, axis),
        ) >= region_total(h, b, Measure::Count),
{
    lemma_cut_from_median(h, b, axis, b.lo(axis));
}

proof fn lemma_cut_from_median(h: Seq<Tally>, b: Bounds, axis: Axis, from: u8)
    requires
        b.lo(axis) <= from < b.hi(axis),
    ensures
        from <= cut_from(h, b, axis, from) < b.hi(axis),
        forall|m: u8|
            from <= m < cut_from(h, b, axis, from) ==> 2 * #[trigger] slab_total(
                h,
                b,
                axis,
                b.lo(axis),
                m,
            ) < region_total(h, b, Measure::Count),
        cut_from(h, b, axis, from) + 1 == b.hi(axis) || 2 * slab_total(
            h,
            b,
            axis,
            b.lo(axis),
            cut_from(h, b, axis, from),
        ) >= region_total(h, b, Measure::Count),
    decreases b.hi(axis) - from,
{
    if from + 1 < b.hi(axis) && 2 * slab_total(h, b, axis, b.lo(axis), from) < region_total(
        h,
        b,
        Measure::Count,
    ) {
        lemma_cut_from_median(h, b, axis, (from + 1) as u8);
    }
}

/// In a histogram no channel sum over a region exceeds 255 per sample.
pub proof fn lemma_sum_consistent(h: Seq<Tally>, b: Bounds, n: nat)
    requires
        is_histogram(h),
        n <= CELLS,
    ensures
        region_sum(h, b, Measure::Red, n) <= 255 * region_sum(h, b, Measure::Count, n),
        region_sum(h, b, Measure::Green, n) <= 255 * region_sum(h, b, Measure::Count, n),
        region_sum(h, b, Measure::Blue, n) <= 255 * region_sum(h, b, Measure::Count, n),
    decreases n,
{
    if n > 0 {
        lemma_sum_consistent(h, b, (n - 1) as nat);
        assert(h[n - 1].is_consistent());
    }
}

/// Where two histograms differ in one cell only, sums over them differ by
/// what that cell contributes more.
pub proof fn lemma_sum_update(
    h: Seq<Tally>,
    grown: Seq<Tally>,
    b: Bounds,
    m: Measure,
    n: nat,
    at: int,
    more: nat,
)
    requires
        forall|idx: int|
            0 <= idx < n && idx != at ==> #[trigger] contribution(grown, b, m, idx)
                == contribution(h, b, m, idx),
        0 <= at < n ==> contribution(grown, b, m, at) == contribution(h, b, m, at) + more,
    ensures
        region_sum(grown, b, m, n) == region_sum(h, b, m, n) + if 0 <= at < n {
            more
        } else {
            0
        },
    decreases n,
{
    if n > 0 {
        lemma_sum_update(h, grown, b, m, (n - 1) as nat, at, more);
    }
}

/// The cells of a histogram hold, between them, every sample once.
pub proof fn lemma_histogram_count(samples: Seq<Sample>)
    ensures
        region_total(histogram_of(samples), Bounds::whole(), Measure::Count) == samples.len(),
    decreases samples.len(),
{
    let grown = histogram_of(samples);
    let b = Bounds::whole();
    let n = CELLS as nat;
    if samples.len() == 0 {
        assert forall|idx: int| 0 <= idx < n && idx != -1 implies #[trigger] contribution(
            grown,
            b,
            Measure::Count,
            idx,
        ) == 0 by {}
        lemma_sum_single(grown, b, Measure::Count, n, -1);
    } else {
        let h = histogram_of(samples.drop_last());
        let last = samples.last();
        let at = sample_index(last);
        lemma_histogram_count(samples.drop_last());
        lemma_coordinates_of_cell(cell_of(last.r), cell_of(last.g), cell_of(last.b));
        assert(b.holds(at));
        assert forall|idx: int| 0 <= idx < n && idx != at implies #[trigger] contribution(
            grown,
            b,
            Measure::Count,
            idx,
        ) == contribution(h, b, Measure::Count, idx) by {}
        lemma_sum_update(h, grown, b, Measure::Count, n, at, 1);
    }
}

} // verus!
