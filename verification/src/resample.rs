//! The part of resampling that moves samples without changing them.
//!
//! A resampler reads its input at a position that moves on by a ratio for
//! every sample it makes. Where the position is a whole number and the
//! ratio is one, the samples made are samples of the input, and making
//! them is copying.

use vstd::prelude::*;

verus! {

/// Makes `samples_out` from `samples_in` at the speed of the input: the
/// samples made are those of the input from `position` on. Returns the
/// number of input samples that are done with: those before the window of
/// `window` samples that the next call looks back on.
pub fn resample_unity<T: Copy>(
    samples_in: &[T],
    samples_out: &mut [T],
    position: usize,
    window: usize,
) -> (offset: usize)
    requires
        position + old(samples_out)@.len() <= samples_in@.len(),
        window <= position + old(samples_out)@.len(),
    ensures
        final(samples_out)@ == samples_in@.subrange(
            position as int,
            position + old(samples_out)@.len(),
        ),
        offset == old(samples_out)@.len() + position - window,
{
    let count = samples_out.len();
    let total = samples_in.len();
    let mut i: usize = 0;
    while i < count
        invariant
            i <= count,
            count == samples_out@.len(),
            position + count <= samples_in@.len(),
            samples_in@.len() == total,
            forall|j: int| 0 <= j < i ==> samples_out@[j] == samples_in@[position + j],
        decreases count - i,
    {
        samples_out[i] = samples_in[position + i];
        i += 1;
    }
    assert(samples_out@ =~= samples_in@.subrange(position as int, position + count));
    count + position - window
}

} // verus!
