//! Runtime state of a group node during playback.
use vstd::prelude::*;
use std::collections::VecDeque;

verus! {

/// The children of a group still waiting for their turn, in order.
pub struct GroupPlaybackState {
    pub pending_children: VecDeque<usize>,
}

impl GroupPlaybackState {
    /// No child is pending.
    pub fn default() -> (r: GroupPlaybackState)
        ensures
            r.pending_children@ == Seq::<usize>::empty(),
    {
        GroupPlaybackState { pending_children: VecDeque::new() }
    }
}

} // verus!
