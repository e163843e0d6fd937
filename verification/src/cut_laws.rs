//! What holds of the boxes that the median cut makes.

use vstd::prelude::*;
use crate::histogram::{is_histogram, Measure, Tally, CELLS};
use crate::quantizer::{
    is_final, lemma_pick, median_cut, pick, quantized_boxes, step_active, step_done,
};
use crate::region::{
    is_box, is_occupied, lemma_occupied_populated, lemma_populated_witness,
    lemma_single_cell_total, lemma_split, lemma_sum_two_members, lemma_tight_faces, longest_axis,
    region_total, split_bounds, Axis, Bounds,
};

verus! {

/// Every region of the sequence is a box of the histogram.
pub open spec fn all_boxes(h: Seq<Tally>, regions: Seq<Bounds>) -> bool {
    forall|i: int| 0 <= i < regions.len() ==> is_box(h, #[trigger] regions[i])
}

/// The region is one cell.
pub open spec fn is_single_cell(b: Bounds) -> bool {
    b.r_min == b.r_max && b.g_min == b.g_max && b.b_min == b.b_max
}

/// Every region of the sequence is one cell.
pub open spec fn all_single(regions: Seq<Bounds>) -> bool {
    forall|i: int| 0 <= i < regions.len() ==> is_single_cell(#[trigger] regions[i])
}

/// The sum of `m` over all regions of the sequence.
pub open spec fn total_over(h: Seq<Tally>, regions: Seq<Bounds>, m: Measure) -> nat
    decreases regions.len(),
{
    if regions.len() == 0 {
        0
    } else {
        total_over(h, regions.drop_last(), m) + region_total(h, regions.last(), m)
    }
}

/// The cells of the histogram that hold a sample.
pub open spec fn occupied_cells(h: Seq<Tally>) -> nat {
    region_total(h, Bounds::whole(), Measure::Occupied)
}

/// The smaller of two numbers.
pub open spec fn smaller(a: nat, b: nat) -> nat {
    if a <= b {
        a
    } else {
        b
    }
}

/// A region added at the end adds its sum.
pub proof fn lemma_total_push(h: Seq<Tally>, regions: Seq<Bounds>, last: Bounds, m: Measure)
    ensures
        total_over(h, regions.push(last), m) == total_over(h, regions, m) + region_total(
            h,
            last,
            m,
        ),
{
    assert(regions.push(last).drop_last() =~= regions);
}

/// A region taken out takes its sum along.
pub proof fn lemma_total_remove(h: Seq<Tally>, regions: Seq<Bounds>, at: int, m: Measure)
    requires
        0 <= at < regions.len(),
    ensures
        total_over(h, regions.remove(at), m) + region_total(h, regions[at], m) == total_over(
            h,
            regions,
            m,
        ),
    decreases regions.len(),
{
    if at == regions.len() - 1 {
        assert(regions.remove(at) =~= regions.drop_last());
    } else {
        lemma_total_remove(h, regions.drop_last(), at, m);
        assert(regions.remove(at).drop_last() =~= regions.drop_last().remove(at));
        assert(regions.remove(at).last() == regions.last());
    }
}

/// The sum over two runs of regions is the sum of their sums.
pub proof fn lemma_total_concat(h: Seq<Tally>, first: Seq<Bounds>, second: Seq<Bounds>, m: Measure)
    ensures
        total_over(h, first + second, m) == total_over(h, first, m) + total_over(h, second, m),
    decreases second.len(),
{
    if second.len() == 0 {
        assert(first + second =~= first);
    } else {
        lemma_total_concat(h, first, second.drop_last(), m);
        assert((first + second).drop_last() =~= first + second.drop_last());
        assert((first + second).last() == second.last());
    }
}

/// Whether two regions share a range of cells on every axis.
pub open spec fn overlap(a: Bounds, b: Bounds) -> bool {
    &&& a.r_min <= b.r_max && b.r_min <= a.r_max
    &&& a.g_min <= b.g_max && b.g_min <= a.g_max
    &&& a.b_min <= b.b_max && b.b_min <= a.b_max
}

/// No two regions of the sequence overlap.
pub open spec fn mutually_apart(regions: Seq<Bounds>) -> bool {
    forall|i: int, j: int|
        0 <= i < regions.len() && 0 <= j < regions.len() && i != j ==> !overlap(
            #[trigger] regions[i],
            #[trigger] regions[j],
        )
}

/// No region of the first sequence overlaps one of the second.
pub open spec fn apart_across(first: Seq<Bounds>, second: Seq<Bounds>) -> bool {
    forall|i: int, j: int|
        0 <= i < first.len() && 0 <= j < second.len() ==> !overlap(
            #[trigger] first[i],
            #[trigger] second[j],
        )
}

/// Some region of the sequence holds the cell at `idx`.
pub open spec fn covered(regions: Seq<Bounds>, idx: int) -> bool {
    exists|i: int| 0 <= i < regions.len() && (#[trigger] regions[i]).holds(idx)
}

/// Regions that do not overlap share no cell.
pub proof fn lemma_apart_share_no_cell(a: Bounds, b: Bounds, idx: int)
    requires
        !overlap(a, b),
    ensures
        !(a.holds(idx) && b.holds(idx)),
{
}

/// One step of the median cut keeps boxes boxes and final boxes single
/// cells, brings the end one step nearer, and shares out every sum as
/// before.
pub proof fn lemma_step(h: Seq<Tally>, done: Seq<Bounds>, active: Seq<Bounds>, m: Measure)
    requires
        is_histogram(h),
        all_boxes(h, done),
        all_boxes(h, active),
        all_single(done),
        active.len() > 0,
    ensures
        all_boxes(h, step_done(h, done, active)),
        all_boxes(h, step_active(h, active)),
        all_single(step_done(h, done, active)),
        step_done(h, done, active).len() + step_active(h, active).len() <= done.len()
            + active.len() + 1,
        2 * step_done(h, done, active).len() + step_active(h, active).len() == 2 * done.len()
            + active.len() + 1,
        total_over(h, step_done(h, done, active), m) + total_over(h, step_active(h, active), m)
            == total_over(h, done, m) + total_over(h, active, m),
{
    lemma_pick(h, active);
    let at = pick(h, active);
    let chosen = active[at];
    let axis = longest_axis(chosen);
    let rest = active.remove(at);
    lemma_total_remove(h, active, at, m);
    assert(is_box(h, chosen));
    assert(all_boxes(h, rest)) by {
        assert forall|i: int| 0 <= i < rest.len() implies is_box(h, #[trigger] rest[i]) by {
            if i < at {
                assert(rest[i] == active[i]);
            } else {
                assert(rest[i] == active[i + 1]);
            }
        }
    }
    if is_final(chosen) {
        let finished = done.push(chosen);
        lemma_total_push(h, done, chosen, m);
        assert forall|i: int| 0 <= i < finished.len() implies is_box(h, #[trigger] finished[i])
            && is_single_cell(finished[i]) by {
            if i < done.len() {
                assert(finished[i] == done[i]);
            }
        }
    } else {
        let halves = split_bounds(h, chosen, axis);
        lemma_split(h, chosen, axis);
        let line = rest.push(halves.0).push(halves.1);
        lemma_total_push(h, rest, halves.0, m);
        lemma_total_push(h, rest.push(halves.0), halves.1, m);
        assert(region_total(h, chosen, m) == region_total(h, halves.0, m) + region_total(
            h,
            halves.1,
            m,
        ));
        assert forall|i: int| 0 <= i < line.len() implies is_box(h, #[trigger] line[i]) by {
            if i < rest.len() {
                assert(line[i] == rest[i]);
            }
        }
    }
}

/// One step of the median cut leaves the boxes without overlap.
pub proof fn lemma_step_apart(h: Seq<Tally>, done: Seq<Bounds>, active: Seq<Bounds>)
    requires
        is_histogram(h),
        all_boxes(h, active),
        active.len() > 0,
        mutually_apart(done),
        mutually_apart(active),
        apart_across(done, active),
    ensures
        mutually_apart(step_done(h, done, active)),
        mutually_apart(step_active(h, active)),
        apart_across(step_done(h, done, active), step_active(h, active)),
{
    lemma_pick(h, active);
    let at = pick(h, active);
    let chosen = active[at];
    let axis = longest_axis(chosen);
    let rest = active.remove(at);
    let next_done = step_done(h, done, active);
    let next_active = step_active(h, active);
    assert(is_box(h, chosen));
    // What stays in line came from the line, each from a place of its own
    // other than that of the picked box.
    assert forall|i: int| 0 <= i < rest.len() implies #[trigger] rest[i] == active[if i < at {
        i
    } else {
        i + 1
    }] by {}
    assert forall|i: int| 0 <= i < rest.len() implies !overlap(chosen, #[trigger] rest[i]) by {
        let from = if i < at {
            i
        } else {
            i + 1
        };
        assert(rest[i] == active[from]);
        assert(!overlap(active[at], active[from]));
    }
    assert(mutually_apart(rest)) by {
        assert forall|i: int, j: int|
            0 <= i < rest.len() && 0 <= j < rest.len() && i != j implies !overlap(
            #[trigger] rest[i],
            #[trigger] rest[j],
        ) by {
            let from_i = if i < at {
                i
            } else {
                i + 1
            };
            let from_j = if j < at {
                j
            } else {
                j + 1
            };
            assert(rest[i] == active[from_i]);
            assert(rest[j] == active[from_j]);
            assert(!overlap(active[from_i], active[from_j]));
        }
    }
    assert(apart_across(done, rest)) by {
        assert forall|i: int, j: int| 0 <= i < done.len() && 0 <= j < rest.len() implies !overlap(
            #[trigger] done[i],
            #[trigger] rest[j],
        ) by {
            let from = if j < at {
                j
            } else {
                j + 1
            };
            assert(rest[j] == active[from]);
            assert(!overlap(done[i], active[from]));
        }
    }
    assert forall|i: int| 0 <= i < done.len() implies !overlap(#[trigger] done[i], chosen) by {
        assert(!overlap(done[i], active[at]));
    }
    if is_final(chosen) {
        assert(mutually_apart(next_done)) by {
            assert forall|i: int, j: int|
                0 <= i < next_done.len() && 0 <= j < next_done.len() && i != j implies !overlap(
                #[trigger] next_done[i],
                #[trigger] next_done[j],
            ) by {
                if i < done.len() && j < done.len() {
                    assert(!overlap(done[i], done[j]));
                } else if i < done.len() {
                    assert(!overlap(done[i], chosen));
                } else {
                    assert(!overlap(done[j], chosen));
                }
            }
        }
        assert(apart_across(next_done, next_active)) by {
            assert forall|i: int, j: int|
                0 <= i < next_done.len() && 0 <= j < next_active.len() implies !overlap(
                #[trigger] next_done[i],
                #[trigger] next_active[j],
            ) by {
                if i < done.len() {
                    assert(!overlap(done[i], rest[j]));
                } else {
                    assert(!overlap(chosen, rest[j]));
                }
            }
        }
    } else {
        let halves = split_bounds(h, chosen, axis);
        lemma_split(h, chosen, axis);
        assert(!overlap(halves.0, halves.1));
        assert(mutually_apart(next_active)) by {
            assert forall|i: int, j: int|
                0 <= i < next_active.len() && 0 <= j < next_active.len() && i != j implies !overlap(
                #[trigger] next_active[i],
                #[trigger] next_active[j],
            ) by {
                if i < rest.len() && j < rest.len() {
                    assert(!overlap(rest[i], rest[j]));
                } else if i < rest.len() {
                    assert(!overlap(chosen, rest[i]));
                } else if j < rest.len() {
                    assert(!overlap(chosen, rest[j]));
                }
            }
        }
        assert(apart_across(next_done, next_active)) by {
            assert forall|i: int, j: int|
                0 <= i < next_done.len() && 0 <= j < next_active.len() implies !overlap(
                #[trigger] next_done[i],
                #[trigger] next_active[j],
            ) by {
                if j < rest.len() {
                    assert(!overlap(done[i], rest[j]));
                } else {
                    assert(!overlap(done[i], chosen));
                }
            }
        }
    }
}

/// One step of the median cut leaves every occupied cell that a box held in
/// a box.
pub proof fn lemma_step_covers(h: Seq<Tally>, done: Seq<Bounds>, active: Seq<Bounds>, idx: int)
    requires
        is_histogram(h),
        all_boxes(h, active),
        active.len() > 0,
        0 <= idx < CELLS,
        h[idx].count > 0,
        covered(done, idx) || covered(active, idx),
    ensures
        covered(step_done(h, done, active), idx) || covered(step_active(h, active), idx),
{
    lemma_pick(h, active);
    let at = pick(h, active);
    let chosen = active[at];
    let axis = longest_axis(chosen);
    let rest = active.remove(at);
    let next_done = step_done(h, done, active);
    let next_active = step_active(h, active);
    assert(is_box(h, chosen));
    if covered(done, idx) {
        let i = choose|i: int| 0 <= i < done.len() && (#[trigger] done[i]).holds(idx);
        assert(next_done[i].holds(idx));
    } else {
        let i = choose|i: int| 0 <= i < active.len() && (#[trigger] active[i]).holds(idx);
        if i != at {
            let to = if i < at {
                i
            } else {
                i - 1
            };
            assert(rest[to] == active[i]);
            assert(next_active[to].holds(idx));
        } else if is_final(chosen) {
            assert(next_done[done.len() as int].holds(idx));
        } else {
            lemma_split(h, chosen, axis);
            let halves = split_bounds(h, chosen, axis);
            assert(is_occupied(h, chosen, idx));
            if is_occupied(h, halves.0, idx) {
                assert(next_active[rest.len() as int].holds(idx));
            } else {
                assert(next_active[rest.len() as int + 1].holds(idx));
            }
        }
    }
}

/// The median cut keeps boxes boxes, shares out every sum over the boxes it
/// started from, never exceeds its target, and stops short of it only with
/// boxes of one cell.
pub proof fn lemma_median_cut(
    h: Seq<Tally>,
    done: Seq<Bounds>,
    active: Seq<Bounds>,
    k: nat,
    m: Measure,
)
    requires
        is_histogram(h),
        all_boxes(h, done),
        all_boxes(h, active),
        all_single(done),
        done.len() + active.len() <= k,
    ensures
        all_boxes(h, median_cut(h, done, active, k)),
        median_cut(h, done, active, k).len() <= k,
        median_cut(h, done, active, k).len() >= done.len() + active.len(),
        median_cut(h, done, active, k).len() == k || all_single(median_cut(h, done, active, k)),
        total_over(h, median_cut(h, done, active, k), m) == total_over(h, done, m) + total_over(
            h,
            active,
            m,
        ),
    decreases 2 * k - active.len() - 2 * done.len(),
{
    if active.len() == 0 || done.len() + active.len() >= k {
        lemma_total_concat(h, done, active, m);
        if active.len() == 0 {
            assert(done + active =~= done);
        }
    } else {
        lemma_step(h, done, active, m);
        lemma_median_cut(h, step_done(h, done, active), step_active(h, active), k, m);
    }
}

/// The median cut makes no boxes that overlap.
pub proof fn lemma_median_cut_apart(h: Seq<Tally>, done: Seq<Bounds>, active: Seq<Bounds>, k: nat)
    requires
        is_histogram(h),
        all_boxes(h, done),
        all_boxes(h, active),
        all_single(done),
        mutually_apart(done),
        mutually_apart(active),
        apart_across(done, active),
    ensures
        mutually_apart(median_cut(h, done, active, k)),
    decreases 2 * k - active.len() - 2 * done.len(),
{
    if active.len() == 0 || done.len() + active.len() >= k {
        let all = done + active;
        assert forall|i: int, j: int|
            0 <= i < all.len() && 0 <= j < all.len() && i != j implies !overlap(
            #[trigger] all[i],
            #[trigger] all[j],
        ) by {
            let d = done.len() as int;
            if i < d && j < d {
                assert(!overlap(done[i], done[j]));
            } else if i < d {
                assert(!overlap(done[i], active[j - d]));
            } else if j < d {
                assert(!overlap(done[j], active[i - d]));
            } else {
                assert(!overlap(active[i - d], active[j - d]));
            }
        }
    } else {
        lemma_step(h, done, active, Measure::Count);
        lemma_step_apart(h, done, active);
        lemma_median_cut_apart(h, step_done(h, done, active), step_active(h, active), k);
    }
}

/// The median cut leaves every occupied cell that a box held in a box.
pub proof fn lemma_median_cut_covers(
    h: Seq<Tally>,
    done: Seq<Bounds>,
    active: Seq<Bounds>,
    k: nat,
    idx: int,
)
    requires
        is_histogram(h),
        all_boxes(h, done),
        all_boxes(h, active),
        all_single(done),
        0 <= idx < CELLS,
        h[idx].count > 0,
        covered(done, idx) || covered(active, idx),
    ensures
        covered(median_cut(h, done, active, k), idx),
    decreases 2 * k - active.len() - 2 * done.len(),
{
    if active.len() == 0 || done.len() + active.len() >= k {
        let all = done + active;
        if covered(done, idx) {
            let i = choose|i: int| 0 <= i < done.len() && (#[trigger] done[i]).holds(idx);
            assert(all[i].holds(idx));
        } else {
            let i = choose|i: int| 0 <= i < active.len() && (#[trigger] active[i]).holds(idx);
            assert(all[done.len() + i].holds(idx));
        }
    } else {
        lemma_step(h, done, active, Measure::Count);
        lemma_step_covers(h, done, active, idx);
        lemma_median_cut_covers(h, step_done(h, done, active), step_active(h, active), k, idx);
    }
}

/// A box holds at least one occupied cell.
pub proof fn lemma_box_occupied(h: Seq<Tally>, b: Bounds)
    requires
        is_box(h, b),
    ensures
        region_total(h, b, Measure::Occupied) >= 1,
{
    let at = lemma_populated_witness(h, b);
    lemma_occupied_populated(h, b, at);
}

/// A box of one cell holds exactly one occupied cell.
pub proof fn lemma_single_cell_occupied(h: Seq<Tally>, b: Bounds)
    requires
        is_box(h, b),
        is_single_cell(b),
    ensures
        region_total(h, b, Measure::Occupied) == 1,
{
    lemma_single_cell_total(h, b, Measure::Occupied);
    lemma_single_cell_total(h, b, Measure::Count);
}

/// A box that holds exactly one occupied cell is that cell.
pub proof fn lemma_one_occupied_is_single(h: Seq<Tally>, b: Bounds)
    requires
        is_box(h, b),
        region_total(h, b, Measure::Occupied) == 1,
    ensures
        is_single_cell(b),
{
    let some = lemma_populated_witness(h, b);
    lemma_one_occupied_axis(h, b, Axis::Red, some);
    lemma_one_occupied_axis(h, b, Axis::Green, some);
    lemma_one_occupied_axis(h, b, Axis::Blue, some);
}

proof fn lemma_one_occupied_axis(h: Seq<Tally>, b: Bounds, axis: Axis, some: int)
    requires
        is_box(h, b),
        region_total(h, b, Measure::Occupied) == 1,
        0 <= some < CELLS,
        is_occupied(h, b, some),
    ensures
        b.lo(axis) == b.hi(axis),
{
    let ends = lemma_tight_faces(h, b, axis, some);
    if b.lo(axis) != b.hi(axis) {
        if ends.0 < ends.1 {
            lemma_sum_two_members(h, b, Measure::Occupied, CELLS as nat, ends.0, ends.1);
        } else {
            lemma_sum_two_members(h, b, Measure::Occupied, CELLS as nat, ends.1, ends.0);
        }
    }
}

/// Boxes hold at least as many occupied cells as there are boxes.
pub proof fn lemma_occupied_at_least_len(h: Seq<Tally>, regions: Seq<Bounds>)
    requires
        all_boxes(h, regions),
    ensures
        total_over(h, regions, Measure::Occupied) >= regions.len(),
    decreases regions.len(),
{
    if regions.len() > 0 {
        assert(all_boxes(h, regions.drop_last())) by {
            assert forall|i: int| 0 <= i < regions.drop_last().len() implies is_box(
                h,
                #[trigger] regions.drop_last()[i],
            ) by {
                assert(regions.drop_last()[i] == regions[i]);
            }
        }
        lemma_occupied_at_least_len(h, regions.drop_last());
        lemma_box_occupied(h, regions.last());
    }
}

/// Boxes of one cell each hold as many occupied cells as there are boxes.
pub proof fn lemma_occupied_of_singles(h: Seq<Tally>, regions: Seq<Bounds>)
    requires
        all_boxes(h, regions),
        all_single(regions),
    ensures
        total_over(h, regions, Measure::Occupied) == regions.len(),
    decreases regions.len(),
{
    if regions.len() > 0 {
        let earlier = regions.drop_last();
        assert(all_boxes(h, earlier) && all_single(earlier)) by {
            assert forall|i: int| 0 <= i < earlier.len() implies is_box(h, #[trigger] earlier[i])
                && is_single_cell(earlier[i]) by {
                assert(earlier[i] == regions[i]);
            }
        }
        lemma_occupied_of_singles(h, earlier);
        lemma_single_cell_occupied(h, regions.last());
    }
}

/// Boxes that hold no more occupied cells than there are boxes are boxes of
/// one cell each.
pub proof fn lemma_singles_of_occupied(h: Seq<Tally>, regions: Seq<Bounds>)
    requires
        all_boxes(h, regions),
        total_over(h, regions, Measure::Occupied) <= regions.len(),
    ensures
        all_single(regions),
    decreases regions.len(),
{
    if regions.len() > 0 {
        let earlier = regions.drop_last();
        assert(all_boxes(h, earlier)) by {
            assert forall|i: int| 0 <= i < earlier.len() implies is_box(h, #[trigger] earlier[i]) by {
                assert(earlier[i] == regions[i]);
            }
        }
        lemma_occupied_at_least_len(h, earlier);
        lemma_box_occupied(h, regions.last());
        lemma_singles_of_occupied(h, earlier);
        lemma_one_occupied_is_single(h, regions.last());
        assert forall|i: int| 0 <= i < regions.len() implies is_single_cell(
            #[trigger] regions[i],
        ) by {
            if i < earlier.len() {
                assert(earlier[i] == regions[i]);
            }
        }
    }
}

/// What the median cut makes of a box: boxes that share out every sum over
/// it, as many as are wanted or as the box has occupied cells, whichever is
/// less.
pub proof fn lemma_quantized_boxes(h: Seq<Tally>, root: Bounds, k: nat, m: Measure)
    requires
        is_histogram(h),
        is_box(h, root),
    ensures
        all_boxes(h, quantized_boxes(h, root, k)),
        quantized_boxes(h, root, k).len() == smaller(
            k,
            region_total(h, root, Measure::Occupied),
        ),
        k > 0 ==> total_over(h, quantized_boxes(h, root, k), m) == region_total(h, root, m),
        mutually_apart(quantized_boxes(h, root, k)),
{
    let res = quantized_boxes(h, root, k);
    if k > 0 {
        let none = Seq::<Bounds>::empty();
        let line = seq![root];
        lemma_median_cut_apart(h, none, line, k);
        assert(none.push(root) =~= line);
        lemma_total_push(h, none, root, m);
        lemma_total_push(h, none, root, Measure::Occupied);
        lemma_median_cut(h, none, line, k, m);
        lemma_median_cut(h, none, line, k, Measure::Occupied);
        lemma_occupied_at_least_len(h, res);
        if all_single(res) {
            lemma_occupied_of_singles(h, res);
        }
    } else {
        lemma_box_occupied(h, root);
    }
}

/// The boxes that the median cut makes of a box hold, between them, every
/// occupied cell of the box.
pub proof fn lemma_quantized_boxes_cover(h: Seq<Tally>, root: Bounds, k: nat, idx: int)
    requires
        is_histogram(h),
        is_box(h, root),
        k > 0,
        0 <= idx < CELLS,
        is_occupied(h, root, idx),
    ensures
        covered(quantized_boxes(h, root, k), idx),
{
    let line = seq![root];
    assert(line[0].holds(idx));
    lemma_median_cut_covers(h, Seq::<Bounds>::empty(), line, k, idx);
}

} // verus!
