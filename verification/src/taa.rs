//! Temporal anti-aliasing jitter: the Halton(2,3) sequence of sub-pixel
//! offsets in [-0.5, 0.5], held exactly in millionths of a pixel.
use vstd::prelude::*;

verus! {

/// Number of Halton(2,3) jitter samples before the sequence wraps.
pub const TAA_JITTER_SAMPLES: usize = 16;

/// One millionth of a pixel per unit of the jitter table.
pub const JITTER_UNITS_PER_PIXEL: i32 = 1000000;

/// The Halton(2,3) jitter offsets, in millionths of a pixel, rounded to six
/// decimals.
pub open spec fn halton_table() -> Seq<(i32, i32)> {
    seq![
        (0i32, -333333i32),
        (-500000i32, 333333i32),
        (250000i32, -111111i32),
        (-250000i32, -444444i32),
        (375000i32, 222222i32),
        (-125000i32, -222222i32),
        (187500i32, 444444i32),
        (-312500i32, -37037i32),
        (62500i32, -370370i32),
        (-437500i32, 296296i32),
        (312500i32, -148148i32),
        (-187500i32, -481481i32),
        (437500i32, 185185i32),
        (-62500i32, -259259i32),
        (156250i32, 407407i32),
        (-343750i32, -74074i32),
    ]
}

/// The `index`-th jitter offset of the table, in millionths of a pixel.
pub fn halton_jitter(index: usize) -> (r: (i32, i32))
    requires
        index < TAA_JITTER_SAMPLES,
    ensures
        r == halton_table()[index as int],
{
    let table: [(i32, i32); 16] = [
        (0, -333333),
        (-500000, 333333),
        (250000, -111111),
        (-250000, -444444),
        (375000, 222222),
        (-125000, -222222),
        (187500, 444444),
        (-312500, -37037),
        (62500, -370370),
        (-437500, 296296),
        (312500, -148148),
        (-187500, -481481),
        (437500, 185185),
        (-62500, -259259),
        (156250, 407407),
        (-343750, -74074),
    ];
    assert(table@ =~= halton_table());
    table[index]
}

/// The jitter offset of frame `frame_index`: the table entry at the frame
/// index modulo the table length.
pub fn jitter_for_frame(frame_index: usize) -> (r: (i32, i32))
    ensures
        r == halton_table()[(frame_index % TAA_JITTER_SAMPLES) as int],
{
    halton_jitter(frame_index % TAA_JITTER_SAMPLES)
}

/// Every jitter offset lies within half a pixel on each axis.
pub proof fn lemma_jitter_bounded(i: int)
    requires
        0 <= i < TAA_JITTER_SAMPLES,
    ensures
        -500000 <= halton_table()[i].0 <= 500000,
        -500000 <= halton_table()[i].1 <= 500000,
{
}

/// No two jitter offsets of the table coincide.
pub proof fn lemma_jitter_distinct(i: int, j: int)
    requires
        0 <= i < j < TAA_JITTER_SAMPLES,
    ensures
        halton_table()[i] != halton_table()[j],
{
}

} // verus!
