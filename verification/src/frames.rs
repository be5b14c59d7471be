//! How the arrays of a list are split into frames: where each frame starts, and which arrays it
//! holds.

use crate::arrays::{PositionedItem, SortedArraysFile};
use vstd::prelude::*;

verus! {

/// The positions of the frames, in order.
pub open spec fn frame_starts(items: Seq<PositionedItem>) -> Seq<nat>
    decreases items.len(),
{
    if items.len() == 0 {
        Seq::empty()
    } else {
        let before = frame_starts(items.drop_last());
        match items.last().0 {
            Some(p) => before.push(p),
            None => before,
        }
    }
}

/// The number of the frame that holds the array at index `i`.
pub open spec fn frame_id(items: Seq<PositionedItem>, i: int) -> int {
    frame_starts(items.take(i + 1)).len() - 1
}

/// The position of the frame that holds the array at index `i` (zero for the index before the
/// first array).
pub open spec fn frame_pos(items: Seq<PositionedItem>, i: int) -> nat
    decreases i + 1,
{
    if i < 0 {
        0
    } else {
        match items[i].0 {
            Some(p) => p,
            None => frame_pos(items, i - 1),
        }
    }
}

/// The index of the first array of frame `f`.
pub open spec fn frame_first(items: Seq<PositionedItem>, f: int) -> int
    decreases items.len(),
{
    if items.len() == 0 {
        0
    } else if items.last().0 is Some && f == frame_starts(items.drop_last()).len() {
        items.len() - 1
    } else {
        frame_first(items.drop_last(), f)
    }
}

/// Whether the first array starts a frame at position zero, and each frame comes after those
/// before it.
pub open spec fn well_framed(items: Seq<PositionedItem>) -> bool {
    &&& items.len() > 0 ==> items[0].0 == Some(0nat)
    &&& forall|i: int, j: int|
        0 <= i < j < items.len() && (#[trigger] items[i]).0 is Some && (#[trigger] items[j]).0
            is Some ==> items[i].0->Some_0 < items[j].0->Some_0
}

/// What is read of a file is well framed.
pub proof fn lemma_listing_well_framed<const N: usize>(file: SortedArraysFile<N>)
    ensures
        well_framed(file.listing()),
{
    crate::arrays::lemma_positions_increase(file);
}

/// The frames of the first `i` arrays are the first frames.
pub proof fn lemma_frame_starts_prefix(items: Seq<PositionedItem>, i: int)
    requires
        0 <= i <= items.len(),
    ensures
        frame_starts(items.take(i)).len() <= frame_starts(items).len(),
        frame_starts(items.take(i)) == frame_starts(items).take(
            frame_starts(items.take(i)).len() as int,
        ),
    decreases items.len() - i,
{
    if i == items.len() {
        assert(items.take(i) =~= items);
        assert(frame_starts(items) =~= frame_starts(items).take(frame_starts(items).len() as int));
    } else {
        lemma_frame_starts_prefix(items, i + 1);
        assert(items.take(i + 1).drop_last() =~= items.take(i));
        let all = frame_starts(items);
        let next = frame_starts(items.take(i + 1));
        let this = frame_starts(items.take(i));
        assert(this =~= all.take(this.len() as int));
    }
}

/// The frame that an array is in: its number is in range, and its start is its position.
pub proof fn lemma_frame_of(items: Seq<PositionedItem>, i: int)
    requires
        well_framed(items),
        0 <= i < items.len(),
    ensures
        0 <= frame_id(items, i) < frame_starts(items).len(),
        frame_starts(items)[frame_id(items, i)] == frame_pos(items, i),
        items[i].0 matches Some(p) ==> frame_starts(items)[frame_id(items, i)] == p,
    decreases i,
{
    lemma_frame_starts_prefix(items, i + 1);
    let upto = items.take(i + 1);
    assert(upto.drop_last() =~= items.take(i));
    assert(upto.last() == items[i]);
    let n = frame_starts(upto).len() as int;
    assert(frame_starts(upto) == frame_starts(items).take(n));
    assert(n > 0 ==> frame_starts(upto)[n - 1] == frame_starts(items)[n - 1]);
    if items[i].0 is None {
        assert(i > 0);
        lemma_frame_of(items, i - 1);
        assert(frame_id(items, i) == frame_id(items, i - 1));
    }
}

/// The number of the frame grows with the index of the array.
pub proof fn lemma_frame_id_monotone(items: Seq<PositionedItem>, i: int, j: int)
    requires
        0 <= i <= j < items.len(),
    ensures
        frame_id(items, i) <= frame_id(items, j),
{
    lemma_frame_starts_prefix(items.take(j + 1), i + 1);
    assert(items.take(j + 1).take(i + 1) =~= items.take(i + 1));
}

/// Each frame comes after those before it.
pub proof fn lemma_frame_starts_increase(items: Seq<PositionedItem>)
    requires
        well_framed(items),
    ensures
        forall|f: int, g: int|
            0 <= f < g < frame_starts(items).len() ==> frame_starts(items)[f] < frame_starts(
                items,
            )[g],
        forall|f: int|
            0 <= f < frame_starts(items).len() ==> {
                &&& 0 <= (#[trigger] frame_first(items, f)) < items.len()
                &&& items[frame_first(items, f)].0 == Some(frame_starts(items)[f])
            },
    decreases items.len(),
{
    if items.len() > 0 {
        let before = items.drop_last();
        lemma_frame_starts_increase(before);
        let starts = frame_starts(items);
        assert forall|f: int| 0 <= f < starts.len() implies {
            &&& 0 <= (#[trigger] frame_first(items, f)) < items.len()
            &&& items[frame_first(items, f)].0 == Some(starts[f])
        } by {
            if f < frame_starts(before).len() {
                assert(frame_first(items, f) == frame_first(before, f));
                assert(before[frame_first(before, f)] == items[frame_first(before, f)]);
            }
        }
        assert forall|f: int, g: int| 0 <= f < g < starts.len() implies starts[f] < starts[g] by {
            if g == frame_starts(before).len() {
                assert(items.last().0 is Some);
                assert(items[frame_first(items, f)].0 == Some(starts[f]));
                assert(frame_first(items, f) == frame_first(before, f));
                assert(frame_first(before, f) < before.len());
                assert(items[items.len() - 1] == items.last());
            }
        }
    }
}

/// Frame `f` starts at the array `frame_first(f)`: that array is in it, and no earlier one is.
pub proof fn lemma_frame_first(items: Seq<PositionedItem>, f: int, i: int)
    requires
        well_framed(items),
        0 <= f < frame_starts(items).len(),
        0 <= i < items.len(),
    ensures
        0 <= frame_first(items, f) < items.len(),
        items[frame_first(items, f)].0 == Some(frame_starts(items)[f]),
        frame_id(items, frame_first(items, f)) == f,
        frame_first(items, f) <= i <==> f <= frame_id(items, i),
{
    lemma_frame_starts_increase(items);
    let first = frame_first(items, f);
    let starts = frame_starts(items);
    lemma_frame_of(items, first);
    assert(starts[frame_id(items, first)] == starts[f]);
    if frame_id(items, first) < f {
        assert(starts[frame_id(items, first)] < starts[f]);
    } else if frame_id(items, first) > f {
        assert(starts[f] < starts[frame_id(items, first)]);
    }
    if first <= i {
        lemma_frame_id_monotone(items, first, i);
    } else {
        lemma_frame_id_monotone(items, i, first - 1);
        assert(items.take(first + 1).drop_last() =~= items.take(first));
        assert(items.take(first + 1).last() == items[first]);
        assert(frame_id(items, first) == frame_id(items, first - 1) + 1);
    }
}

/// There are no more frames than bits.
pub proof fn lemma_frame_count<const N: usize>(file: SortedArraysFile<N>)
    ensures
        frame_starts(file.listing()).len() <= file.bits().len(),
        forall|f: int|
            0 <= f < frame_starts(file.listing()).len() ==> frame_starts(file.listing())[f]
                < file.bits().len(),
{
    let items = file.listing();
    let starts = frame_starts(items);
    lemma_listing_well_framed(file);
    lemma_frame_starts_increase(items);
    crate::arrays::lemma_positions_increase(file);
    assert forall|f: int| 0 <= f < starts.len() implies starts[f] < file.bits().len() by {
        assert(items[frame_first(items, f)].0 == Some(starts[f]));
    }
    lemma_increasing_bound(starts, starts.len() as int - 1);
}

proof fn lemma_increasing_bound(starts: Seq<nat>, f: int)
    requires
        f < starts.len(),
        forall|f: int, g: int| 0 <= f < g < starts.len() ==> starts[f] < starts[g],
    ensures
        f >= 0 ==> starts[f] >= f,
    decreases f,
{
    if f > 0 {
        lemma_increasing_bound(starts, f - 1);
    }
}

} // verus!
