//! The stereo block: spreads one source across two channels.
use vstd::prelude::*;

verus! {

use crate::blocks::SignalSource;

/// A block combining a left source, a right source and a pan-shift
/// source (conceptually in `[-1, 1]`, 0 centered). Both stereo channels
/// derive from the *left* source's accessors: the left channel is
/// `left * (1 - shift01)` and the right channel `left * shift01`, with
/// `shift01 = (shift + 1) / 2` — a single-source pseudo-stereo spread.
/// The mono output is `left + right / 2`.
#[derive(Clone, Copy, PartialEq, Eq, Structural, Debug)]
pub struct StereoBlock {
    /// The left input.
    pub left: SignalSource,
    /// The right input (used by the mono mix only).
    pub right: SignalSource,
    /// The pan-shift input.
    pub shift: SignalSource,
}

impl StereoBlock {
    /// Replaces the left input.
    pub fn update_left(&mut self, left: SignalSource)
        ensures
            *final(self) == (StereoBlock { left, ..*old(self) }),
    {
        self.left = left;
    }

    /// Replaces the right input.
    pub fn update_right(&mut self, right: SignalSource)
        ensures
            *final(self) == (StereoBlock { right, ..*old(self) }),
    {
        self.right = right;
    }

    /// Replaces the pan-shift input.
    pub fn update_shift(&mut self, shift: SignalSource)
        ensures
            *final(self) == (StereoBlock { shift, ..*old(self) }),
    {
        self.shift = shift;
    }
}

} // verus!
