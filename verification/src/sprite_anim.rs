//! Frame stepping of sprite animation sequences.
use vstd::prelude::*;

verus! {

/// The frame that follows `current` once its time has run out, and
/// whether the animation keeps playing: the next frame; past the last one,
/// the first frame of a looping sequence, or the last frame of a
/// one-shot sequence, which then stops.
pub fn next_frame(current: usize, frame_count: usize, looped: bool) -> (r: (usize, bool))
    requires
        current < frame_count,
    ensures
        r == if current + 1 < frame_count {
            ((current + 1) as usize, true)
        } else if looped {
            (0usize, true)
        } else {
            ((frame_count - 1) as usize, false)
        },
        r.0 < frame_count,
{
    if current + 1 < frame_count {
        (current + 1, true)
    } else if looped {
        (0, true)
    } else {
        (frame_count - 1, false)
    }
}

/// What asking an animator to play a named sequence does.
#[derive(Debug, Clone, Copy, PartialEq, Eq, Structural)]
pub enum PlayStep {
    /// No sequence has that name: nothing changes.
    Ignore,
    /// It is the current sequence: playback goes on from where it is.
    Resume,
    /// Another sequence: it becomes current, from its first frame.
    Restart,
}

/// The step `play` takes, given whether a sequence of that name exists and
/// whether it is the one already selected.  Any step but `Ignore` leaves the
/// animator playing.
pub fn play_step(known: bool, already_current: bool) -> (s: PlayStep)
    ensures
        s == if !known {
            PlayStep::Ignore
        } else if already_current {
            PlayStep::Resume
        } else {
            PlayStep::Restart
        },
{
    if !known {
        PlayStep::Ignore
    } else if already_current {
        PlayStep::Resume
    } else {
        PlayStep::Restart
    }
}

} // verus!
