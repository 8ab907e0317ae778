//! Playback decisions: where stepping backward lands, and what a failed
//! frame read does to the player state.

use vstd::prelude::*;

verus! {

/// Where stepping `step` frames back from `pos` seeks to.
///
/// After a frame is read the decoder sits one past it, so stepping back goes
/// `step + 1` positions, clamped at the first frame.
pub fn seek_back_target(pos: u32, step: u32) -> (r: u32)
    ensures
        r == if pos > step {
            (pos - step - 1) as u32
        } else {
            0u32
        },
{
    if pos > step {
        pos - step - 1
    } else {
        0
    }
}

} // verus!
