//! Recorded audio: a clip of one or two channels, kept in memory.

use crate::convert::uninterleave_stereo;
use vstd::prelude::*;
use vstd::slice::slice_subrange;

verus! {

/// The number of channels that a clip has.
#[derive(Copy, Clone, PartialEq, Eq, Structural, Debug, Hash)]
pub enum ChannelFormat {
    Mono,
    Stereo,
}

/// Why decoded audio could not be made into a clip.
#[derive(Copy, Clone, Debug)]
pub enum ReadAudioClipError {
    /// The audio is in a form that clips do not come in.
    BadFormat(&'static str),
    /// The audio contradicts itself.
    UnexpectedError,
}

/// A clip as the contracts see it.
pub struct SampleView<T> {
    /// The sample rate, in samples per second.
    pub sample_rate: u32,
    /// The samples of each channel: one channel, or left and right.
    pub channels: Seq<Seq<T>>,
}

/// A clip of audio.
pub struct AudioSample<T> {
    channel_format: ChannelFormat,
    sample_rate: u32,
    length: usize,
    data: Vec<T>,
}

impl<T> AudioSample<T> {
    #[verifier::type_invariant]
    spec fn inv(self) -> bool {
        self.data@.len() == (match self.channel_format {
            ChannelFormat::Mono => 1int,
            ChannelFormat::Stereo => 2int,
        }) * self.length
    }
}

impl<T> View for AudioSample<T> {
    type V = SampleView<T>;

    closed spec fn view(&self) -> SampleView<T> {
        SampleView {
            sample_rate: self.sample_rate,
            channels: match self.channel_format {
                ChannelFormat::Mono => seq![self.data@],
                ChannelFormat::Stereo => seq![
                    self.data@.subrange(0, self.length as int),
                    self.data@.subrange(self.length as int, 2 * self.length),
                ],
            },
        }
    }
}

/// The largest sample value of integer audio of `bits_per_sample` bits, or
/// nothing for a width that audio does not come in.
pub open spec fn full_scale(bits_per_sample: u16) -> Option<i32> {
    if bits_per_sample == 8 {
        Some(0x7fi32)
    } else if bits_per_sample == 16 {
        Some(0x7fffi32)
    } else if bits_per_sample == 24 {
        Some(0x7f_ffffi32)
    } else if bits_per_sample == 32 {
        Some(0x7fff_ffffi32)
    } else {
        None
    }
}

/// The largest sample value of integer audio of `bits_per_sample` bits, by
/// which samples are divided to bring them between -1 and 1.
pub fn max_sample_value(bits_per_sample: u16) -> (r: Result<i32, ReadAudioClipError>)
    ensures
        match full_scale(bits_per_sample) {
            Some(value) => r == Ok::<i32, ReadAudioClipError>(value),
            None => r == Err::<i32, ReadAudioClipError>(ReadAudioClipError::UnexpectedError),
        },
{
    match bits_per_sample {
        8 => Ok(0x7f),
        16 => Ok(0x7fff),
        24 => Ok(0x7f_ffff),
        32 => Ok(0x7fff_ffff),
        _ => Err(ReadAudioClipError::UnexpectedError),
    }
}

/// The sample of a clip of `len` samples that is played at position `at`
/// behind `start`: a clip that plays once is followed by silence, any other
/// clip by itself.
pub open spec fn played_sample<T>(channel: Seq<T>, start: int, at: int, one_hit: bool, silence: T) -> T {
    if one_hit {
        if start + at < channel.len() {
            channel[start + at]
        } else {
            silence
        }
    } else {
        channel[(start + at) % (channel.len() as int)]
    }
}

impl<T: Copy> AudioSample<T> {
    /// Makes a clip of one channel.
    pub fn new_mono(sample_rate: u32, audio: &[T]) -> (sample: Self)
        ensures
            sample@ == (SampleView { sample_rate, channels: seq![audio@] }),
    {
        let mut data: Vec<T> = Vec::new();
        let mut i: usize = 0;
        while i < audio.len()
            invariant
                i <= audio@.len(),
                data@ == audio@.take(i as int),
            decreases audio@.len() - i,
        {
            data.push(audio[i]);
            assert(data@ =~= audio@.take(i + 1));
            i += 1;
        }
        assert(data@ =~= audio@);
        AudioSample { channel_format: ChannelFormat::Mono, sample_rate, length: audio.len(), data }
    }

    /// Makes a clip of two channels of the same length.
    pub fn new_stereo(sample_rate: u32, left: &[T], right: &[T]) -> (sample: Self)
        requires
            left@.len() == right@.len(),
            2 * left@.len() <= usize::MAX,
        ensures
            sample@ == (SampleView { sample_rate, channels: seq![left@, right@] }),
    {
        let length = left.len();
        let mut data: Vec<T> = Vec::new();
        let mut i: usize = 0;
        while i < length
            invariant
                i <= length,
                length == left@.len(),
                data@ == left@.take(i as int),
            decreases length - i,
        {
            data.push(left[i]);
            assert(data@ =~= left@.take(i + 1));
            i += 1;
        }
        i = 0;
        while i < length
            invariant
                i <= length,
                length == left@.len(),
                length == right@.len(),
                data@ == left@ + right@.take(i as int),
            decreases length - i,
        {
            data.push(right[i]);
            assert(data@ =~= left@ + right@.take(i + 1));
            i += 1;
        }
        let sample = AudioSample {
            channel_format: ChannelFormat::Stereo,
            sample_rate,
            length,
            data,
        };
        assert(sample@.channels[0] =~= left@);
        assert(sample@.channels[1] =~= right@);
        assert(sample@.channels =~= seq![left@, right@]);
        sample
    }

    /// Makes a clip from decoded audio: `samples` holds `length` frames of
    /// `channels` samples each.
    ///
    /// Audio whose number of samples is not that of its frames is refused
    /// as contradicting itself; audio of more than two channels, or none,
    /// is refused as of a bad format.
    pub fn from_interleaved(sample_rate: u32, channels: u16, length: usize, samples: Vec<T>) -> (r:
        Result<Self, ReadAudioClipError>)
        ensures
            samples@.len() != channels * length ==> r is Err && r->Err_0
                == ReadAudioClipError::UnexpectedError,
            samples@.len() == channels * length && channels == 1 ==> r is Ok && r->Ok_0@ == (
            SampleView { sample_rate, channels: seq![samples@] }),
            samples@.len() == channels * length && channels == 2 ==> {
                &&& r is Ok
                &&& r->Ok_0@.sample_rate == sample_rate
                &&& r->Ok_0@.channels.len() == 2
                &&& r->Ok_0@.channels[0] == Seq::new(length as nat, |i: int| samples@[2 * i])
                &&& r->Ok_0@.channels[1] == Seq::new(length as nat, |i: int| samples@[2 * i + 1])
            },
            samples@.len() == channels * length && channels != 1 && channels != 2 ==> (r matches Err(
                ReadAudioClipError::BadFormat(reason),
            ) && reason@ == "Unsupported number of channels"@),
    {
        let count = samples.len();
        let fits = match (channels as usize).checked_mul(length) {
            Some(expected) => count == expected,
            None => false,
        };
        if !fits {
            return Err(ReadAudioClipError::UnexpectedError);
        }
        if channels == 1 {
            Ok(AudioSample { channel_format: ChannelFormat::Mono, sample_rate, length, data: samples })
        } else if channels == 2 {
            let mut left: Vec<T> = Vec::new();
            let mut right: Vec<T> = Vec::new();
            let mut i: usize = 0;
            while i < length
                invariant
                    i <= length,
                    samples@.len() == 2 * length,
                    2 * length <= usize::MAX,
                    left@ == Seq::new(i as nat, |j: int| samples@[2 * j]),
                    right@ == Seq::new(i as nat, |j: int| samples@[2 * j + 1]),
                decreases length - i,
            {
                left.push(samples[2 * i]);
                right.push(samples[2 * i + 1]);
                assert(left@ =~= Seq::new((i + 1) as nat, |j: int| samples@[2 * j]));
                assert(right@ =~= Seq::new((i + 1) as nat, |j: int| samples@[2 * j + 1]));
                i += 1;
            }
            Ok(Self::new_stereo(sample_rate, left.as_slice(), right.as_slice()))
        } else {
            Err(ReadAudioClipError::BadFormat("Unsupported number of channels"))
        }
    }

    /// The sample rate of the clip, in samples per second.
    pub fn sample_rate(&self) -> (rate: u32)
        ensures
            rate == self@.sample_rate,
    {
        self.sample_rate
    }

    /// The number of channels.
    pub fn channels(&self) -> (count: usize)
        ensures
            count == self@.channels.len(),
            count == 1 || count == 2,
    {
        match self.channel_format {
            ChannelFormat::Mono => 1,
            ChannelFormat::Stereo => 2,
        }
    }

    /// The number of samples in each channel.
    pub fn length(&self) -> (length: usize)
        ensures
            forall|c: int| 0 <= c < self@.channels.len() ==> (#[trigger] self@.channels[c]).len()
                == length,
    {
        proof {
            use_type_invariant(self);
        }
        self.length
    }

    /// The samples of channel `channel`.
    pub fn data(&self, channel: usize) -> (samples: &[T])
        requires
            channel < self@.channels.len(),
        ensures
            samples@ == self@.channels[channel as int],
    {
        proof {
            use_type_invariant(self);
        }
        match self.channel_format {
            ChannelFormat::Mono => {
                assert(self.data@.subrange(0, self.data@.len() as int) =~= self.data@);
                slice_subrange(self.data.as_slice(), 0, self.data.len())
            },
            ChannelFormat::Stereo => {
                let total = self.data.len();
                if channel == 0 {
                    slice_subrange(self.data.as_slice(), 0, self.length)
                } else {
                    slice_subrange(self.data.as_slice(), self.length, total)
                }
            },
        }
    }

    /// The samples of the left and of the right channel. A clip of one
    /// channel has the same on both sides.
    pub fn stereo_data(&self) -> (sides: (&[T], &[T]))
        ensures
            sides.0@ == self@.channels[0],
            sides.1@ == self@.channels[self@.channels.len() - 1],
    {
        let right = self.channels() - 1;
        (self.data(0), self.data(right))
    }

    /// The part of the clip from sample `start` up to sample `end`. A
    /// `start` behind the end of the clip is taken for its end, and an
    /// `end` outside `start` and the end of the clip for the nearer of the
    /// two.
    pub fn trim(&self, start: usize, end: usize) -> (part: Self)
        ensures
            part@.sample_rate == self@.sample_rate,
            part@.channels.len() == self@.channels.len(),
            forall|c: int|
                0 <= c < self@.channels.len() ==> #[trigger] part@.channels[c]
                    == self@.channels[c].subrange(
                    trim_start(start, self@.channels[c].len()),
                    trim_end(start, end, self@.channels[c].len()),
                ),
    {
        let length = self.length();
        let start = if start < length {
            start
        } else {
            length
        };
        let end = if end < start {
            start
        } else if end > length {
            length
        } else {
            end
        };
        match self.channel_format {
            ChannelFormat::Mono => {
                let part = Self::new_mono(
                    self.sample_rate,
                    slice_subrange(self.data(0), start, end),
                );
                assert(part@.channels[0] == self@.channels[0].subrange(start as int, end as int));
                part
            },
            ChannelFormat::Stereo => {
                proof {
                    use_type_invariant(self);
                }
                let total = self.data.len();
                let part = Self::new_stereo(
                    self.sample_rate,
                    slice_subrange(self.data(0), start, end),
                    slice_subrange(self.data(1), start, end),
                );
                assert(part@.channels[0] == self@.channels[0].subrange(start as int, end as int));
                assert(part@.channels[1] == self@.channels[1].subrange(start as int, end as int));
                part
            },
        }
    }

    /// Fills `left` and `right` with the samples of the clip from position
    /// `read_idx` on. A clip that plays once is followed by `silence`, any
    /// other clip by itself, as often as it takes.
    pub fn fill_buffers(&self, read_idx: usize, left: &mut [T], right: &mut [T], one_hit: bool, silence: T)
        requires
            old(left)@.len() == old(right)@.len(),
            read_idx <= self@.channels[0].len(),
            one_hit || old(left)@.len() == 0 || self@.channels[0].len() > 0,
        ensures
            final(left)@ == Seq::new(
                old(left)@.len(),
                |i: int| played_sample(self@.channels[0], read_idx as int, i, one_hit, silence),
            ),
            final(right)@ == Seq::new(
                old(right)@.len(),
                |i: int|
                    played_sample(
                        self@.channels[self@.channels.len() - 1],
                        read_idx as int,
                        i,
                        one_hit,
                        silence,
                    ),
            ),
    {
        let length = self.length();
        let (from_left, from_right) = self.stereo_data();
        let count = left.len();
        let mut idx = read_idx;
        let mut ended = false;
        let mut i: usize = 0;
        while i < count
            invariant
                i <= count,
                count == left@.len(),
                count == right@.len(),
                length == from_left@.len(),
                length == from_right@.len(),
                idx <= length,
                one_hit || length > 0 || count == 0,
                !ended ==> i == 0 || !one_hit || read_idx + i <= length,
                !ended ==> (if one_hit {
                    idx == read_idx + i
                } else {
                    length > 0 ==> idx % length == (read_idx + i) % (length as int)
                }),
                ended ==> one_hit && read_idx + i >= length,
                forall|j: int|
                    0 <= j < i ==> left@[j] == played_sample(
                        from_left@,
                        read_idx as int,
                        j,
                        one_hit,
                        silence,
                    ),
                forall|j: int|
                    0 <= j < i ==> right@[j] == played_sample(
                        from_right@,
                        read_idx as int,
                        j,
                        one_hit,
                        silence,
                    ),
            decreases count - i,
        {
            if !ended && idx == length {
                if one_hit {
                    ended = true;
                } else {
                    idx = 0;
                    proof {
                        vstd::arithmetic::div_mod::lemma_mod_self_0(length as int);
                        vstd::arithmetic::div_mod::lemma_small_mod(0, length as nat);
                    }
                }
            }
            if ended {
                left[i] = silence;
                right[i] = silence;
            } else {
                proof {
                    if !one_hit {
                        vstd::arithmetic::div_mod::lemma_small_mod(idx as nat, length as nat);
                        vstd::arithmetic::div_mod::lemma_add_mod_noop(
                            idx as int,
                            1,
                            length as int,
                        );
                        vstd::arithmetic::div_mod::lemma_add_mod_noop(
                            read_idx + i,
                            1,
                            length as int,
                        );
                        if idx + 1 < length {
                            vstd::arithmetic::div_mod::lemma_small_mod(
                                (idx + 1) as nat,
                                length as nat,
                            );
                        }
                    }
                }
                left[i] = from_left[idx];
                right[i] = from_right[idx];
                idx += 1;
            }
            i += 1;
        }
        proof {
            assert(left@ =~= Seq::new(
                count as nat,
                |i: int| played_sample(from_left@, read_idx as int, i, one_hit, silence),
            ));
            assert(right@ =~= Seq::new(
                count as nat,
                |i: int| played_sample(from_right@, read_idx as int, i, one_hit, silence),
            ));
        }
    }
}

/// Where a part of a clip of `len` samples starts that is asked for from
/// `start`.
pub open spec fn trim_start(start: usize, len: nat) -> int {
    if start < len {
        start as int
    } else {
        len as int
    }
}

/// Where a part of a clip of `len` samples ends that is asked for from
/// `start` up to `end`.
pub open spec fn trim_end(start: usize, end: usize, len: nat) -> int {
    if end < trim_start(start, len) {
        trim_start(start, len)
    } else if end > len {
        len as int
    } else {
        end as int
    }
}

} // verus!
