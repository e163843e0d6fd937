//! The median cut.
//!
//! The quantizer keeps the boxes that may still be cut, in the order in
//! which they were found, and the boxes that are final. It always turns to
//! the box with the greatest population, and among equals to the one found
//! first. A box of a single cell becomes final; any other box is cut along
//! its longest axis and replaced by its two halves, which go to the end of
//! the line. The work ends when the wanted number of boxes is there or no
//! box is left to cut; the boxes still in line then become final in their
//! order.

use vstd::prelude::*;
use crate::color_box::ColorBox;
use crate::histogram::{Histogram, Measure, Tally};
use crate::region::{longest_axis, region_total, split_bounds, Bounds};

verus! {

/// The bounds of the boxes, in order.
pub open spec fn bounds_of(boxes: Seq<ColorBox>) -> Seq<Bounds> {
    Seq::new(boxes.len(), |i: int| boxes[i].bounds)
}

/// The samples in the region `b`.
pub open spec fn population(h: Seq<Tally>, b: Bounds) -> nat {
    region_total(h, b, Measure::Count)
}

/// The position of the box to turn to next: the first among those with the
/// greatest population. (0 for an empty line.)
pub open spec fn pick(h: Seq<Tally>, active: Seq<Bounds>) -> int
    decreases active.len(),
{
    if active.len() <= 1 {
        0
    } else {
        let earlier = pick(h, active.drop_last());
        if population(h, active.last()) > population(h, active[earlier]) {
            active.len() - 1
        } else {
            earlier
        }
    }
}

/// What [`pick`] picks: a box that none exceeds and none before it equals.
pub proof fn lemma_pick(h: Seq<Tally>, active: Seq<Bounds>)
    requires
        active.len() > 0,
    ensures
        0 <= pick(h, active) < active.len(),
        forall|j: int|
            0 <= j < active.len() ==> population(h, #[trigger] active[j]) <= population(
                h,
                active[pick(h, active)],
            ),
        forall|j: int|
            0 <= j < pick(h, active) ==> population(h, #[trigger] active[j]) < population(
                h,
                active[pick(h, active)],
            ),
    decreases active.len(),
{
    if active.len() > 1 {
        lemma_pick(h, active.drop_last());
        let earlier = pick(h, active.drop_last());
        assert forall|j: int| 0 <= j < active.len() implies population(h, #[trigger] active[j])
            <= population(h, active[pick(h, active)]) by {
            if j < active.len() - 1 {
                assert(active.drop_last()[j] == active[j]);
            }
        }
        assert forall|j: int| 0 <= j < pick(h, active) implies population(
            h,
            #[trigger] active[j],
        ) < population(h, active[pick(h, active)]) by {
            if j < active.len() - 1 {
                assert(active.drop_last()[j] == active[j]);
            }
        }
    }
}

/// A box that is one cell long along its longest axis is one cell, and is
/// final.
pub open spec fn is_final(b: Bounds) -> bool {
    b.span(longest_axis(b)) == 0
}

/// The final boxes after one step: the picked box joins them if it is final.
pub open spec fn step_done(h: Seq<Tally>, done: Seq<Bounds>, active: Seq<Bounds>) -> Seq<Bounds> {
    let chosen = active[pick(h, active)];
    if is_final(chosen) {
        done.push(chosen)
    } else {
        done
    }
}

/// The line after one step: the picked box leaves it, and where it is not
/// final, its two halves join the end of the line.
pub open spec fn step_active(h: Seq<Tally>, active: Seq<Bounds>) -> Seq<Bounds> {
    let at = pick(h, active);
    let chosen = active[at];
    if is_final(chosen) {
        active.remove(at)
    } else {
        let halves = split_bounds(h, chosen, longest_axis(chosen));
        active.remove(at).push(halves.0).push(halves.1)
    }
}

/// The boxes that the median cut ends with, from the final boxes `done` and
/// the line `active`, for a target of `k` boxes: steps are taken until the
/// line is empty or `k` boxes are there; the boxes still in line then
/// follow the final ones.
pub open spec fn median_cut(h: Seq<Tally>, done: Seq<Bounds>, active: Seq<Bounds>, k: nat) -> Seq<
    Bounds,
>
    decreases 2 * k - active.len() - 2 * done.len(),
{
    if active.len() == 0 || done.len() + active.len() >= k {
        done + active
    } else {
        proof {
            lemma_pick(h, active);
        }
        median_cut(h, step_done(h, done, active), step_active(h, active), k)
    }
}

/// The boxes that the median cut makes of the box `root` for a target of
/// `k` boxes: none for a target of 0.
pub open spec fn quantized_boxes(h: Seq<Tally>, root: Bounds, k: nat) -> Seq<Bounds> {
    if k == 0 {
        Seq::empty()
    } else {
        median_cut(h, Seq::empty(), seq![root], k)
    }
}

/// Every box is a box of the histogram `h`.
pub open spec fn all_wf(h: Seq<Tally>, boxes: Seq<ColorBox>) -> bool {
    forall|i: int| 0 <= i < boxes.len() ==> (#[trigger] boxes[i]).wf(h)
}

fn pick_box(hist: &Histogram, active: &Vec<ColorBox>) -> (at: usize)
    requires
        active@.len() > 0,
        all_wf(hist@, active@),
    ensures
        at == pick(hist@, bounds_of(active@)),
        at < active@.len(),
{
    let ghost line = bounds_of(active@);
    let mut best: usize = 0;
    let mut j: usize = 1;
    assert(line.take(1).len() == 1);
    while j < active.len()
        invariant
            1 <= j <= active@.len(),
            best < j,
            line == bounds_of(active@),
            all_wf(hist@, active@),
            best == pick(hist@, line.take(j as int)),
        decreases active@.len() - j,
    {
        proof {
            assert(line.take(j + 1).drop_last() =~= line.take(j as int));
            assert(line.take(j + 1).last() == active@[j as int].bounds);
            assert(line.take(j as int)[best as int] == active@[best as int].bounds);
            assert(active@[j as int].wf(hist@));
            assert(active@[best as int].wf(hist@));
        }
        if active[j].population > active[best].population {
            best = j;
        }
        j = j + 1;
    }
    assert(line.take(active@.len() as int) =~= line);
    best
}

/// Cuts the box `root` into at most `max_colors` boxes.
///
/// The boxes come in the order in which they became final.
pub fn quantize_boxes(hist: &Histogram, root: ColorBox, max_colors: u8) -> (boxes: Vec<ColorBox>)
    requires
        hist.wf(),
        root.wf(hist@),
    ensures
        bounds_of(boxes@) == quantized_boxes(hist@, root.bounds, max_colors as nat),
        all_wf(hist@, boxes@),
        boxes@.len() <= max_colors,
{
    proof {
        crate::cut_laws::lemma_quantized_boxes(
            hist@,
            root.bounds,
            max_colors as nat,
            Measure::Count,
        );
    }
    let mut done: Vec<ColorBox> = Vec::new();
    let mut active: Vec<ColorBox> = Vec::new();
    if max_colors == 0 {
        assert(bounds_of(done@) =~= Seq::<Bounds>::empty());
        return done;
    }
    active.push(root);
    let target: usize = max_colors as usize;
    assert(bounds_of(done@) =~= Seq::<Bounds>::empty());
    assert(bounds_of(active@) =~= seq![root.bounds]);
    while active.len() > 0 && done.len() + active.len() < target
        invariant
            hist.wf(),
            target == max_colors,
            done@.len() + active@.len() <= target,
            all_wf(hist@, done@),
            all_wf(hist@, active@),
            median_cut(hist@, bounds_of(done@), bounds_of(active@), target as nat)
                == quantized_boxes(hist@, root.bounds, max_colors as nat),
        decreases 2 * target - active@.len() - 2 * done@.len(),
    {
        let ghost done_before = done@;
        let ghost active_before = active@;
        let at = pick_box(hist, &active);
        let chosen = active.remove(at);
        assert(chosen.wf(hist@));
        assert(bounds_of(active@) =~= bounds_of(active_before).remove(at as int));
        let axis = chosen.longest_axis();
        match chosen.split(hist, axis) {
            Err(_) => {
                done.push(chosen);
                assert(bounds_of(done@) =~= bounds_of(done_before).push(chosen.bounds));
            },
            Ok(halves) => {
                let ghost line = active@;
                active.push(halves.0);
                active.push(halves.1);
                assert(bounds_of(active@) =~= bounds_of(line).push(halves.0.bounds).push(
                    halves.1.bounds,
                ));
            },
        }
    }
    let ghost done_last = done@;
    let ghost active_last = active@;
    done.append(&mut active);
    assert(bounds_of(done@) =~= bounds_of(done_last) + bounds_of(active_last));
    done
}

} // verus!
