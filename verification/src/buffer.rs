//! The two channels of a stereo signal.

use vstd::prelude::*;

verus! {

/// One channel of a stereo signal.
#[derive(Copy, Clone, PartialEq, Eq, Structural, Debug)]
pub enum StereoChannel {
    Left,
    Right,
}

impl StereoChannel {
    /// Both channels, left first.
    pub fn both() -> (channels: [StereoChannel; 2])
        ensures
            channels@ == seq![StereoChannel::Left, StereoChannel::Right],
    {
        let channels = [StereoChannel::Left, StereoChannel::Right];
        assert(channels@ =~= seq![StereoChannel::Left, StereoChannel::Right]);
        channels
    }

    /// The position of the channel in a list of channels: 0 for the left
    /// one, 1 for the right one.
    pub fn index(&self) -> (index: usize)
        ensures
            index == (if *self == StereoChannel::Left {
                0usize
            } else {
                1usize
            }),
    {
        match self {
            StereoChannel::Left => 0,
            StereoChannel::Right => 1,
        }
    }
}

} // verus!
