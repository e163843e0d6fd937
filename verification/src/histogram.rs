//! The coarse colour histogram.
//!
//! Each channel keeps its upper five bits, so colour space falls into
//! 32 x 32 x 32 cells. A cell records how many samples fell into it and the
//! sums of their channel values.

use vstd::prelude::*;
use crate::sampler::Sample;

verus! {

/// Cells along one channel.
pub const CHANNEL_CELLS: u8 = 32;

/// Cells in the whole histogram.
pub const CELLS: usize = 32768;

/// What one cell has gathered, as unbounded numbers.
pub struct Tally {
    pub count: nat,
    pub r_sum: nat,
    pub g_sum: nat,
    pub b_sum: nat,
}

/// A quantity that is summed over cells.
pub enum Measure {
    /// Samples in the cell.
    Count,
    /// Sum of the red values of the samples in the cell.
    Red,
    /// Sum of the green values of the samples in the cell.
    Green,
    /// Sum of the blue values of the samples in the cell.
    Blue,
    /// 1 for a cell that holds a sample, 0 for an empty one.
    Occupied,
}

impl Tally {
    /// The tally of an empty cell.
    pub open spec fn zero() -> Tally {
        Tally { count: 0, r_sum: 0, g_sum: 0, b_sum: 0 }
    }

    /// The tally after one more sample.
    pub open spec fn plus(self, s: Sample) -> Tally {
        Tally {
            count: self.count + 1,
            r_sum: self.r_sum + s.r as nat,
            g_sum: self.g_sum + s.g as nat,
            b_sum: self.b_sum + s.b as nat,
        }
    }

    /// What the cell adds to a sum of `m`.
    pub open spec fn measure(self, m: Measure) -> nat {
        match m {
            Measure::Count => self.count,
            Measure::Red => self.r_sum,
            Measure::Green => self.g_sum,
            Measure::Blue => self.b_sum,
            Measure::Occupied => if self.count > 0 {
                1
            } else {
                0
            },
        }
    }

    /// No channel sum exceeds what `count` samples of value 255 give.
    pub open spec fn is_consistent(self) -> bool {
        &&& self.r_sum <= 255 * self.count
        &&& self.g_sum <= 255 * self.count
        &&& self.b_sum <= 255 * self.count
    }
}

/// One histogram cell.
#[derive(Clone, Copy, Debug, PartialEq, Eq)]
pub struct Bucket {
    pub count: u64,
    pub r_sum: u128,
    pub g_sum: u128,
    pub b_sum: u128,
}

impl View for Bucket {
    type V = Tally;

    open spec fn view(&self) -> Tally {
        Tally {
            count: self.count as nat,
            r_sum: self.r_sum as nat,
            g_sum: self.g_sum as nat,
            b_sum: self.b_sum as nat,
        }
    }
}

/// The cell coordinate of a channel value: its upper five bits.
pub open spec fn cell_of(v: u8) -> int {
    v as int / 8
}

/// The position of the cell with the given coordinates.
pub open spec fn cell_index(r: int, g: int, b: int) -> int {
    r * 1024 + g * 32 + b
}

/// The position of the cell that a sample falls into.
pub open spec fn sample_index(s: Sample) -> int {
    cell_index(cell_of(s.r), cell_of(s.g), cell_of(s.b))
}

/// What the cell at `idx` gathers from `samples`.
pub open spec fn tally(samples: Seq<Sample>, idx: int) -> Tally
    decreases samples.len(),
{
    if samples.len() == 0 {
        Tally::zero()
    } else {
        let rest = tally(samples.drop_last(), idx);
        if sample_index(samples.last()) == idx {
            rest.plus(samples.last())
        } else {
            rest
        }
    }
}

/// The histogram of `samples`: one tally per cell.
pub open spec fn histogram_of(samples: Seq<Sample>) -> Seq<Tally> {
    Seq::new(CELLS as nat, |idx: int| tally(samples, idx))
}

/// A histogram has one consistent tally per cell.
pub open spec fn is_histogram(h: Seq<Tally>) -> bool {
    &&& h.len() == CELLS
    &&& forall|idx: int| 0 <= idx < CELLS ==> (#[trigger] h[idx]).is_consistent()
}

/// A cell never holds more than was sampled.
pub proof fn lemma_tally_bounds(samples: Seq<Sample>, idx: int)
    ensures
        tally(samples, idx).count <= samples.len(),
        tally(samples, idx).is_consistent(),
    decreases samples.len(),
{
    if samples.len() > 0 {
        lemma_tally_bounds(samples.drop_last(), idx);
    }
}

/// The tallies of any samples form a histogram.
pub proof fn lemma_histogram_of_is_histogram(samples: Seq<Sample>)
    ensures
        is_histogram(histogram_of(samples)),
{
    assert forall|idx: int| 0 <= idx < CELLS implies (#[trigger] histogram_of(
        samples,
    )[idx]).is_consistent() by {
        lemma_tally_bounds(samples, idx);
    }
}

/// The histogram: 32768 cells, indexed by [`cell_index`].
pub struct Histogram {
    buckets: Vec<Bucket>,
}

impl View for Histogram {
    type V = Seq<Tally>;

    closed spec fn view(&self) -> Seq<Tally> {
        Seq::new(self.buckets@.len(), |idx: int| self.buckets@[idx]@)
    }
}

fn coarse(v: u8) -> (c: u8)
    ensures
        c == cell_of(v),
        c < CHANNEL_CELLS,
{
    assert(v >> 3 == v / 8) by (bit_vector);
    v >> 3
}

impl Histogram {
    /// The value holds one consistent tally per cell.
    pub open spec fn wf(&self) -> bool {
        is_histogram(self@)
    }

    /// Tallies the samples.
    pub fn build(samples: &[Sample]) -> (h: Histogram)
        ensures
            h.wf(),
            h@ == histogram_of(samples@),
    {
        let mut buckets: Vec<Bucket> = Vec::new();
        let mut n: usize = 0;
        while n < CELLS
            invariant
                n <= CELLS,
                buckets@.len() == n,
                forall|idx: int| 0 <= idx < n ==> (#[trigger] buckets@[idx])@ == Tally::zero(),
            decreases CELLS - n,
        {
            buckets.push(Bucket { count: 0, r_sum: 0, g_sum: 0, b_sum: 0 });
            n = n + 1;
        }
        let mut i: usize = 0;
        while i < samples.len()
            invariant
                i <= samples@.len(),
                buckets@.len() == CELLS,
                forall|idx: int|
                    0 <= idx < CELLS ==> (#[trigger] buckets@[idx])@ == tally(
                        samples@.take(i as int),
                        idx,
                    ),
            decreases samples@.len() - i,
        {
            let s = samples[i];
            let at: usize = (coarse(s.r) as usize) * 1024 + (coarse(s.g) as usize) * 32 + (coarse(
                s.b,
            ) as usize);
            let old_bucket = buckets[at];
            proof {
                lemma_tally_bounds(samples@.take(i as int), at as int);
                assert(samples@.take(i + 1).drop_last() =~= samples@.take(i as int));
            }
            buckets.set(
                at,
                Bucket {
                    count: old_bucket.count + 1,
                    r_sum: old_bucket.r_sum + s.r as u128,
                    g_sum: old_bucket.g_sum + s.g as u128,
                    b_sum: old_bucket.b_sum + s.b as u128,
                },
            );
            i = i + 1;
        }
        let h = Histogram { buckets };
        proof {
            assert(samples@.take(samples@.len() as int) =~= samples@);
            assert(h@ =~= histogram_of(samples@));
            lemma_histogram_of_is_histogram(samples@);
        }
        h
    }

    /// The cell with the given coordinates.
    pub fn bucket(&self, r: u8, g: u8, b: u8) -> (cell: Bucket)
        requires
            self.wf(),
            r < CHANNEL_CELLS,
            g < CHANNEL_CELLS,
            b < CHANNEL_CELLS,
        ensures
            cell@ == self@[cell_index(r as int, g as int, b as int)],
    {
        self.buckets[(r as usize) * 1024 + (g as usize) * 32 + (b as usize)]
    }

    /// The cell at position `idx`.
    pub fn cell(&self, idx: usize) -> (cell: Bucket)
        requires
            self.wf(),
            idx < CELLS,
        ensures
            cell@ == self@[idx as int],
    {
        self.buckets[idx]
    }
}

} // verus!
