//! Between separate channels and interleaved frames.

use vstd::prelude::*;

verus! {

/// The frames of a stereo signal, left sample first.
pub open spec fn interleaved<T>(left: Seq<T>, right: Seq<T>) -> Seq<T> {
    Seq::new(
        2 * left.len(),
        |i: int|
            if i % 2 == 0 {
                left[i / 2]
            } else {
                right[i / 2]
            },
    )
}

/// Interleaves the two channels of a stereo signal into the start of
/// `output`, as many frames as both channels hold. The rest of `output`
/// stays as it is.
pub fn interleave_stereo<T: Copy>(left: &[T], right: &[T], output: &mut [T])
    requires
        left@.len() <= right@.len() ==> 2 * left@.len() <= old(output)@.len(),
        right@.len() <= left@.len() ==> 2 * right@.len() <= old(output)@.len(),
    ensures
        final(output)@.len() == old(output)@.len(),
        left@.len() <= right@.len() ==> final(output)@ == interleaved(
            left@,
            right@.take(left@.len() as int),
        ) + old(output)@.skip(2 * left@.len() as int),
        right@.len() <= left@.len() ==> final(output)@ == interleaved(
            left@.take(right@.len() as int),
            right@,
        ) + old(output)@.skip(2 * right@.len() as int),
{
    let frames = if left.len() <= right.len() {
        left.len()
    } else {
        right.len()
    };
    let room = output.len();
    let mut i: usize = 0;
    while i < frames
        invariant
            i <= frames,
            frames <= left@.len(),
            frames <= right@.len(),
            2 * frames <= output@.len() <= usize::MAX,
            output@.len() == old(output)@.len(),
            forall|j: int| 0 <= j < i ==> output@[2 * j] == left@[j] && output@[2 * j + 1] == right@[j],
            forall|j: int| 2 * i <= j < output@.len() ==> output@[j] == old(output)@[j],
        decreases frames - i,
    {
        output[2 * i] = left[i];
        output[2 * i + 1] = right[i];
        i += 1;
    }
    proof {
        let frames = frames as int;
        let expected = interleaved(left@.take(frames), right@.take(frames)) + old(output)@.skip(
            2 * frames,
        );
        assert forall|j: int| 0 <= j < output@.len() implies output@[j] == expected[j] by {
            if j < 2 * frames {
                let frame = j / 2;
                assert(j == 2 * frame || j == 2 * frame + 1);
            }
        }
        assert(output@ =~= expected);
        assert(left@.len() <= right@.len() ==> left@.take(frames) =~= left@);
        assert(right@.len() <= left@.len() ==> right@.take(frames) =~= right@);
    }
}

/// Takes the frames of `input` apart into the start of `left` and `right`.
/// A sample left over at the end of `input` belongs to no frame.
pub fn uninterleave_stereo<T: Copy>(input: &[T], left: &mut [T], right: &mut [T])
    requires
        input@.len() / 2 <= old(left)@.len(),
        input@.len() / 2 <= old(right)@.len(),
    ensures
        final(left)@.len() == old(left)@.len(),
        final(right)@.len() == old(right)@.len(),
        forall|i: int| 0 <= i < input@.len() / 2 ==> final(left)@[i] == input@[2 * i],
        forall|i: int| 0 <= i < input@.len() / 2 ==> final(right)@[i] == input@[2 * i + 1],
        forall|i: int| input@.len() / 2 <= i < old(left)@.len() ==> final(left)@[i] == old(left)@[i],
        forall|i: int|
            input@.len() / 2 <= i < old(right)@.len() ==> final(right)@[i] == old(right)@[i],
{
    let frames = input.len() / 2;
    let mut i: usize = 0;
    while i < frames
        invariant
            i <= frames,
            frames == input@.len() / 2,
            input@.len() <= usize::MAX,
            frames <= left@.len(),
            frames <= right@.len(),
            left@.len() == old(left)@.len(),
            right@.len() == old(right)@.len(),
            forall|j: int| 0 <= j < i ==> left@[j] == input@[2 * j],
            forall|j: int| 0 <= j < i ==> right@[j] == input@[2 * j + 1],
            forall|j: int| i <= j < left@.len() ==> left@[j] == old(left)@[j],
            forall|j: int| i <= j < right@.len() ==> right@[j] == old(right)@[j],
        decreases frames - i,
    {
        left[i] = input[2 * i];
        right[i] = input[2 * i + 1];
        i += 1;
    }
}

/// Brings `samples` to the length `len`: samples beyond it are dropped, and
/// samples missing are made up by `fill`.
pub fn resize_samples<T: Copy>(samples: &mut Vec<T>, len: usize, fill: T)
    ensures
        final(samples)@ == Seq::new(
            len as nat,
            |i: int|
                if i < old(samples)@.len() {
                    old(samples)@[i]
                } else {
                    fill
                },
        ),
{
    samples.truncate(len);
    while samples.len() < len
        invariant
            samples@.len() <= len,
            old(samples)@.len() <= len ==> old(samples)@.len() <= samples@.len(),
            old(samples)@.len() > len ==> samples@.len() == len,
            forall|i: int|
                0 <= i < samples@.len() ==> samples@[i] == (if i < old(samples)@.len() {
                    old(samples)@[i]
                } else {
                    fill
                }),
        decreases len - samples@.len(),
    {
        samples.push(fill);
    }
    assert(samples@ =~= Seq::new(
        len as nat,
        |i: int|
            if i < old(samples)@.len() {
                old(samples)@[i]
            } else {
                fill
            },
    ));
}

/// Copies the samples of `other` into `buffer`.
pub fn copy_samples<T: Copy>(buffer: &mut [T], other: &[T])
    requires
        old(buffer)@.len() == other@.len(),
    ensures
        final(buffer)@ == other@,
{
    let mut i: usize = 0;
    while i < other.len()
        invariant
            i <= other@.len(),
            buffer@.len() == other@.len(),
            forall|j: int| 0 <= j < i ==> buffer@[j] == other@[j],
        decreases other@.len() - i,
    {
        buffer[i] = other[i];
        i += 1;
    }
    assert(buffer@ =~= other@);
}

/// Copies a mono signal to both channels of a stereo signal.
pub fn mono_to_leftright<T: Copy>(mono: &[T], left: &mut [T], right: &mut [T])
    requires
        mono@.len() == old(left)@.len(),
        mono@.len() == old(right)@.len(),
    ensures
        final(left)@ == mono@,
        final(right)@ == mono@,
{
    copy_samples(left, mono);
    copy_samples(right, mono);
}

} // verus!
