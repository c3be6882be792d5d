//! A delay line whose delay can glide.
//!
//! The line remembers what was written to it in a ring buffer and plays it
//! back later. To change the delay without a click, the line is not made to
//! jump: it plays a little faster or slower until the delay is the one
//! aimed at. How fast it plays, and how the samples in between the stored
//! ones are made up, is decided by a [`Glide`]. The line itself keeps the
//! history, fetches from it what the glide asks for, and plays silence
//! where the history does not reach.

use crate::account::Account;
use crate::adapter::{batches_needed, BatchSource, FixedOutputAdapter};
use crate::convert::resize_samples;
use crate::ring::{RingBuffer, RingView};
use vstd::prelude::*;

verus! {

/// The number of samples that the line plays back in one go.
pub const OUTPUT_SIZE: usize = 32;

/// What a glide wants done for the next batch.
#[derive(Copy, Clone, Debug)]
pub struct BatchPlan {
    /// Where to put the read cursor first, in samples behind the write
    /// cursor, if the line is to jump.
    pub seek: Option<usize>,
    /// The number of samples of history that the batch is made from.
    pub input_size: usize,
}

/// One call of a glide: what it was handed and what it gave back.
pub enum GlideCall<T> {
    /// The glide was told the sample rate.
    SetSampleRate { sample_rate: u32 },
    /// The glide was made to start afresh, and asked for `window` samples
    /// before the place jumped to.
    Reset { window: usize },
    /// The glide was asked to plan a batch of `batch` samples, for a line
    /// that holds `delay` samples of history and aims at a delay of
    /// `target`, and answered with `plan`.
    Plan { delay: usize, target: usize, batch: usize, plan: BatchPlan },
    /// The glide was handed the stretch of history `input`, made the batch
    /// `output` from it, and was done with `used` samples of it.
    Render { input: Seq<T>, output: Seq<T>, used: usize },
}

/// The part of a delay line that works on rates: it decides how fast the
/// history is played back, and makes each batch from a stretch of history.
///
/// A glide keeps account of its calls: every call is added to the account
/// with what it was handed and what it gave back, and nothing else is.
pub trait Glide<T> {
    /// Every call of the glide so far, oldest first.
    spec fn calls(&self) -> Account<GlideCall<T>>;

    /// Tells the glide the sample rate, in samples per second.
    fn set_sample_rate(&mut self, sample_rate: u32)
        ensures
            final(self).calls() == old(self).calls().push(GlideCall::SetSampleRate { sample_rate }),
    ;

    /// Starts afresh after a jump, and returns the number of samples that
    /// it wants to see before the place jumped to.
    fn reset(&mut self) -> (window: usize)
        ensures
            final(self).calls() == old(self).calls().push(GlideCall::Reset { window }),
    ;

    /// Plans the next batch of `batch` samples, for a line that holds
    /// `delay` samples of history and aims at a delay of `target`.
    fn plan(&mut self, delay: usize, target: usize, batch: usize) -> (plan: BatchPlan)
        ensures
            final(self).calls() == old(self).calls().push(
                GlideCall::Plan { delay, target, batch, plan },
            ),
    ;

    /// Makes one batch from `input`, and returns the number of samples of
    /// `input` that are done with. `silence` is the sample that stands for
    /// silence: a glide makes silence of silence, which is to say that
    /// from a stretch of history that is all silent it makes a batch that
    /// is all silent.
    fn render(&mut self, input: &[T], output: &mut [T; OUTPUT_SIZE], silence: T) -> (used: usize)
        ensures
            final(self).calls() == old(self).calls().push(
                GlideCall::Render { input: input@, output: final(output)@, used },
            ),
            (forall|i: int| 0 <= i < input@.len() ==> input@[i] == silence) ==> final(output)@
                == silent_batch(silence),
    ;
}

/// A delay line as the contracts see it.
pub struct DelayView<T> {
    /// The history.
    pub ring: RingView<T>,
    /// The delay aimed at, in samples.
    pub target_delay: usize,
    /// The sample that stands for silence.
    pub silence: T,
    /// The samples that were played back and not handed out yet.
    pub pending: Seq<T>,
    /// The account of the line's glide: every call of it, oldest first.
    pub glide_calls: Seq<GlideCall<T>>,
    /// Every batch that the line has played back, put together, oldest
    /// first.
    pub played: Seq<T>,
}

impl<T> DelayView<T> {
    /// The number of samples that the read cursor is behind the write
    /// cursor, or 0 for a line without history.
    pub open spec fn delay(self) -> int {
        if self.ring.size() > 0 {
            self.ring.delay()
        } else {
            0
        }
    }

    /// The line after one more call of the glide.
    pub open spec fn called(self, call: GlideCall<T>) -> Self {
        DelayView { glide_calls: self.glide_calls.push(call), ..self }
    }
}

/// The history with the read cursor `delay` samples behind the write
/// cursor. Where there is no history there is nothing to move.
pub open spec fn jumped<T>(ring: RingView<T>, delay: usize) -> RingView<T> {
    if ring.size() > 0 {
        ring.seek(delay as nat)
    } else {
        ring
    }
}

/// The history after a plan's jump, if it asks for one.
pub open spec fn after_seek<T>(ring: RingView<T>, plan: BatchPlan) -> RingView<T> {
    match plan.seek {
        Some(delay) => jumped(ring, delay),
        None => ring,
    }
}

/// Whether the history holds too little for a plan, once its jump is made.
pub open spec fn underrun<T>(ring: RingView<T>, plan: BatchPlan) -> bool {
    ring.size() == 0 || plan.input_size > after_seek(ring, plan).delay()
}

/// Whether every sample of the history is silent, as it is until the first
/// write.
pub open spec fn quiet<T>(ring: RingView<T>, silence: T) -> bool {
    forall|i: int| 0 <= i < ring.buffer.len() ==> ring.buffer[i] == silence
}

/// A batch of silence.
pub open spec fn silent_batch<T>(silence: T) -> Seq<T> {
    Seq::new(OUTPUT_SIZE as nat, |i: int| silence)
}

/// The stretch of history that a plan has the glide make a batch from: the
/// oldest samples held once the plan's jump is made, as many as it asks
/// for.
pub open spec fn batch_input<T>(ring: RingView<T>, plan: BatchPlan) -> Seq<T> {
    after_seek(ring, plan).peek(plan.input_size as nat)
}

/// The batch that comes of carrying out `plan`: silence where the history
/// holds too little, and else `output`, which the glide has made.
pub open spec fn batch_made<T>(before: DelayView<T>, plan: BatchPlan, output: Seq<T>) -> Seq<T> {
    if underrun(before.ring, plan) {
        silent_batch(before.silence)
    } else {
        output
    }
}

/// The line after `plan` was carried out.
///
/// The plan's jump is made first. Where the history then holds too little,
/// the batch is silence and nothing else happens. Otherwise the glide is
/// handed the stretch of history that the plan asks for, makes `output`
/// from it and is done with `used` samples; the read cursor moves on by as
/// many, though never past what the glide was handed.
pub open spec fn carried_out<T>(
    before: DelayView<T>,
    plan: BatchPlan,
    output: Seq<T>,
    used: usize,
) -> DelayView<T> {
    if underrun(before.ring, plan) {
        DelayView {
            ring: after_seek(before.ring, plan),
            played: before.played + silent_batch(before.silence),
            ..before
        }
    } else {
        DelayView {
            ring: after_seek(before.ring, plan).skip(
                if used <= plan.input_size {
                    used as nat
                } else {
                    plan.input_size as nat
                },
            ),
            played: before.played + output,
            ..before.called(
                GlideCall::Render { input: batch_input(before.ring, plan), output, used },
            )
        }
    }
}

/// The plan that the call at position `at` of an account gave back.
pub open spec fn plan_at<T>(calls: Seq<GlideCall<T>>, at: int) -> BatchPlan {
    match calls[at] {
        GlideCall::Plan { plan, .. } => plan,
        _ => BatchPlan { seek: None, input_size: 0 },
    }
}

/// The batch that the call at position `at` of an account made.
pub open spec fn output_at<T>(calls: Seq<GlideCall<T>>, at: int) -> Seq<T> {
    match calls[at] {
        GlideCall::Render { output, .. } => output,
        _ => Seq::empty(),
    }
}

/// The number of samples that the call at position `at` of an account was
/// done with.
pub open spec fn used_at<T>(calls: Seq<GlideCall<T>>, at: int) -> usize {
    match calls[at] {
        GlideCall::Render { used, .. } => used,
        _ => 0,
    }
}

/// The line after it has played back one batch, where `calls` is the
/// account of its glide afterwards.
///
/// The glide is asked for a plan, for the delay that the line has and the
/// delay it aims at; the plan that the glide gave back is carried out, with
/// the batch that the glide then made.
pub open spec fn batch_played<T>(before: DelayView<T>, calls: Seq<GlideCall<T>>) -> DelayView<T> {
    let at = before.glide_calls.len() as int;
    let plan = plan_at(calls, at);
    carried_out(
        before.called(
            GlideCall::Plan {
                delay: before.delay() as usize,
                target: before.target_delay,
                batch: OUTPUT_SIZE,
                plan,
            },
        ),
        plan,
        output_at(calls, at + 1),
        used_at(calls, at + 1),
    )
}

/// The batch that the line `before` plays back, where `calls` is the
/// account of its glide afterwards.
pub open spec fn batch_out<T>(before: DelayView<T>, calls: Seq<GlideCall<T>>) -> Seq<T> {
    let at = before.glide_calls.len() as int;
    batch_made(before, plan_at(calls, at), output_at(calls, at + 1))
}

/// The line after it has played back `count` batches, one after the other,
/// each from the line that the one before it left.
pub open spec fn batches_played<T>(
    before: DelayView<T>,
    calls: Seq<GlideCall<T>>,
    count: nat,
) -> DelayView<T>
    decreases count,
{
    if count == 0 {
        before
    } else {
        batch_played(batches_played(before, calls, (count - 1) as nat), calls)
    }
}

/// Playing back a batch adds to the account of the glide, and what it adds
/// is in the account afterwards only if the account holds it.
proof fn lemma_batch_grows<T>(before: DelayView<T>, calls: Seq<GlideCall<T>>)
    ensures
        before.glide_calls.len() < batch_played(before, calls).glide_calls.len()
            <= before.glide_calls.len() + 2,
        !underrun(before.ring, plan_at(calls, before.glide_calls.len() as int)) ==> batch_played(
            before,
            calls,
        ).glide_calls.len() == before.glide_calls.len() + 2,
{
}

/// Batches played back read the account only as far as they add to it:
/// a longer account that begins with this one gives the same line.
proof fn lemma_batches_stable<T>(
    before: DelayView<T>,
    calls: Seq<GlideCall<T>>,
    longer: Seq<GlideCall<T>>,
    count: nat,
)
    requires
        calls.len() <= longer.len(),
        forall|i: int| 0 <= i < calls.len() ==> calls[i] == longer[i],
        batches_played(before, calls, count).glide_calls.len() <= calls.len(),
    ensures
        batches_played(before, longer, count) == batches_played(before, calls, count),
    decreases count,
{
    if count > 0 {
        let reached = batches_played(before, calls, (count - 1) as nat);
        lemma_batch_grows(reached, calls);
        lemma_batches_stable(before, calls, longer, (count - 1) as nat);
    }
}

/// Before anything is written, a glide is handed nothing but silence: where
/// every sample of the history is silent, so is every sample of the stretch
/// that a plan has a batch made from. Playing back does not change the
/// history, so this holds until the first write.
pub proof fn lemma_silent_history_gives_silent_input<T>(
    ring: RingView<T>,
    plan: BatchPlan,
    silence: T,
)
    requires
        ring.size() > 0,
        forall|i: int| 0 <= i < ring.buffer.len() ==> ring.buffer[i] == silence,
    ensures
        batch_input(ring, plan).len() == plan.input_size,
        forall|j: int| 0 <= j < plan.input_size ==> batch_input(ring, plan)[j] == silence,
{
    let start = after_seek(ring, plan);
    assert(start.buffer == ring.buffer);
    assert forall|j: int| 0 <= j < plan.input_size implies batch_input(ring, plan)[j]
        == silence by {
        vstd::arithmetic::div_mod::lemma_mod_bound(start.read + j, start.size());
    }
}

/// Whether the account `calls` begins with the account `start`.
pub open spec fn begins_with<T>(calls: Seq<GlideCall<T>>, start: Seq<GlideCall<T>>) -> bool {
    &&& start.len() <= calls.len()
    &&& forall|i: int| 0 <= i < start.len() ==> start[i] == calls[i]
}

/// Played back at the speed of recording, a line delays by its delay. Where
/// the glide has planned the batch without a jump and from as many samples
/// as the batch holds, and has made the batch of these samples as they are,
/// and the history holds that many, the batch is the oldest samples of the
/// history, and the read cursor has moved on behind them: the delay is what
/// it was, less the length of the batch.
pub proof fn lemma_steady_batch_is_history<T>(before: DelayView<T>, calls: Seq<GlideCall<T>>)
    requires
        before.ring.wf(),
        before.ring.size() > 0,
        OUTPUT_SIZE <= before.ring.delay(),
        begins_with(calls, batch_played(before, calls).glide_calls),
        plan_at(calls, before.glide_calls.len() as int) == (BatchPlan {
            seek: None,
            input_size: OUTPUT_SIZE,
        }),
        calls[before.glide_calls.len() as int + 1] matches GlideCall::Render { input, output, used }
            ==> output == input && used == OUTPUT_SIZE,
    ensures
        batch_out(before, calls) == before.ring.peek(OUTPUT_SIZE as nat),
        batch_played(before, calls).ring == before.ring.skip(OUTPUT_SIZE as nat),
        batch_played(before, calls).played == before.played + before.ring.peek(OUTPUT_SIZE as nat),
{
    let at = before.glide_calls.len() as int;
    let plan = plan_at(calls, at);
    let next = batch_played(before, calls);
    assert(!underrun(before.ring, plan));
    assert(next.glide_calls[at + 1] == calls[at + 1]);
}

/// A delay line over samples of type `T`, steered by a glide `G`.
pub struct DelayLine<T, G> {
    ring: RingBuffer<T>,
    target_delay: usize,
    silence: T,
    glide: G,
    scratch: Vec<T>,
    output_adapter: FixedOutputAdapter<T, OUTPUT_SIZE>,
    played: Ghost<Seq<T>>,
}

impl<T: Copy, G: Glide<T>> View for DelayLine<T, G> {
    type V = DelayView<T>;

    closed spec fn view(&self) -> DelayView<T> {
        DelayView {
            ring: self.ring@,
            target_delay: self.target_delay,
            silence: self.silence,
            pending: self.output_adapter.pending(),
            glide_calls: self.glide.calls(),
            played: self.played@,
        }
    }
}

impl<T: Copy, G: Glide<T>> DelayLine<T, G> {
    /// Makes a delay line without history. It plays silence until it is
    /// given room with [`DelayLine::set_sample_rate`].
    pub fn new(silence: T, glide: G) -> (line: Self)
        ensures
            line@.ring.wf(),
            line@.ring.size() == 0,
            line@.target_delay == 0,
            line@.silence == silence,
            line@.pending == Seq::<T>::empty(),
            line@.glide_calls == glide.calls(),
            line@.played == Seq::<T>::empty(),
    {
        DelayLine {
            ring: RingBuffer::new(0, silence),
            target_delay: 0,
            silence,
            glide,
            scratch: Vec::new(),
            output_adapter: FixedOutputAdapter::new(silence),
            played: Ghost(Seq::empty()),
        }
    }

    /// Sets the sample rate, and gives the line a history of `size`
    /// samples, all silent, in place of the one it had, with the read
    /// cursor behind the write cursor by the delay aimed at. The size is
    /// the longest delay that the line is to reach, in samples at the new
    /// rate.
    pub fn set_sample_rate(&mut self, sample_rate: u32, size: usize)
        ensures
            final(self)@.ring.wf(),
            final(self)@.ring.buffer == Seq::new(size as nat, |i: int| old(self)@.silence),
            final(self)@.ring.write == 0,
            size > 0 ==> final(self)@.ring.delay() == old(self)@.target_delay % size,
            final(self)@ == (DelayView {
                ring: final(self)@.ring,
                ..old(self)@.called(GlideCall::SetSampleRate { sample_rate })
            }),
    {
        self.glide.set_sample_rate(sample_rate);
        let mut ring = RingBuffer::new(size, self.silence);
        if size > 0 {
            ring.seek(self.target_delay);
            proof {
                let n = size as int;
                let t = self.target_delay as int;
                vstd::arithmetic::div_mod::lemma_sub_mod_noop(0, t, n);
                vstd::arithmetic::div_mod::lemma_sub_mod_noop(0, (0 - t) % n, n);
                vstd::arithmetic::div_mod::lemma_mod_twice(0 - t, n);
                vstd::arithmetic::div_mod::lemma_sub_mod_noop(0, 0 - t, n);
                vstd::arithmetic::div_mod::lemma_small_mod(0, n as nat);
            }
        }
        self.ring = ring;
    }

    /// The number of samples of history that the line has room for.
    pub fn size(&self) -> (size: usize)
        ensures
            size == self@.ring.size(),
            self@.ring.wf(),
    {
        self.ring.size()
    }

    /// The number of samples that the read cursor is behind the write
    /// cursor, or 0 for a line without history.
    pub fn delay(&self) -> (delay: usize)
        ensures
            delay == self@.delay(),
    {
        if self.ring.size() > 0 {
            self.ring.delay()
        } else {
            0
        }
    }

    /// The delay aimed at, in samples.
    pub fn target_delay(&self) -> (target: usize)
        ensures
            target == self@.target_delay,
    {
        self.target_delay
    }

    /// Sets the delay that the line glides to.
    pub fn set_target_delay(&mut self, target_delay: usize)
        ensures
            final(self)@ == (DelayView { target_delay, ..old(self)@ }),
    {
        self.target_delay = target_delay;
    }

    /// Jumps to a delay of `delay` samples, with `window` samples more in
    /// front for the glide to start from, and aims at that delay from now
    /// on. The glide is not told.
    pub fn seek_with_window(&mut self, delay: usize, window: usize)
        requires
            delay + window <= usize::MAX,
        ensures
            final(self)@ == (DelayView {
                target_delay: delay,
                ring: jumped(old(self)@.ring, (delay + window) as usize),
                ..old(self)@
            }),
    {
        self.target_delay = delay;
        if self.ring.size() > 0 {
            self.ring.seek(delay + window);
        }
    }

    /// Jumps to a delay of `delay` samples and aims at that delay from now
    /// on: the read cursor stands `delay` samples behind the write cursor
    /// at once. The glide starts afresh.
    pub fn seek(&mut self, delay: usize)
        ensures
            final(self)@.glide_calls.len() == old(self)@.glide_calls.len() + 1,
            final(self)@.glide_calls.last() is Reset,
            final(self)@ == (DelayView {
                target_delay: delay,
                ring: jumped(old(self)@.ring, delay),
                ..old(self)@.called(final(self)@.glide_calls.last())
            }),
    {
        self.glide.reset();
        self.target_delay = delay;
        if self.ring.size() > 0 {
            self.ring.seek(delay);
        }
    }

    /// Adds `samples` to the history. A line without history forgets them.
    pub fn write(&mut self, samples: &[T])
        ensures
            final(self)@ == (DelayView {
                ring: if old(self)@.ring.size() > 0 {
                    old(self)@.ring.write(samples@)
                } else {
                    old(self)@.ring
                },
                ..old(self)@
            }),
    {
        if self.ring.size() > 0 {
            self.ring.write(samples);
        }
    }

    /// Plays back one batch as `plan` says: see [`carried_out`].
    ///
    /// Returns whether the batch was made from history.
    pub fn read_planned(&mut self, plan: BatchPlan, batch: &mut [T; OUTPUT_SIZE]) -> (played: bool)
        ensures
            played == !underrun(old(self)@.ring, plan),
            final(self)@ == carried_out(
                old(self)@,
                plan,
                final(batch)@,
                used_at(final(self)@.glide_calls, old(self)@.glide_calls.len() as int),
            ),
            final(batch)@ == batch_made(old(self)@, plan, final(batch)@),
            final(self)@.ring.wf(),
            quiet(old(self)@.ring, old(self)@.silence) ==> final(batch)@ == silent_batch(
                old(self)@.silence,
            ),
    {
        match plan.seek {
            Some(delay) => {
                if self.ring.size() > 0 {
                    self.ring.seek(delay);
                }
            },
            None => {},
        }
        if self.ring.size() == 0 || plan.input_size > self.ring.delay() {
            let mut k: usize = 0;
            while k < OUTPUT_SIZE
                invariant
                    k <= OUTPUT_SIZE,
                    forall|j: int| 0 <= j < k ==> batch@[j] == self.silence,
                decreases OUTPUT_SIZE - k,
            {
                batch[k] = self.silence;
                k += 1;
            }
            assert(batch@ =~= silent_batch(self.silence));
            self.played = Ghost(self.played@ + batch@);
            return false;
        }
        resize_samples(&mut self.scratch, plan.input_size, self.silence);
        self.ring.peek(self.scratch.as_mut_slice());
        proof {
            if quiet(old(self)@.ring, self.silence) {
                lemma_silent_history_gives_silent_input(old(self)@.ring, plan, self.silence);
            }
        }
        let done = self.glide.render(self.scratch.as_slice(), batch, self.silence);
        let used = if done <= plan.input_size {
            done
        } else {
            plan.input_size
        };
        self.ring.skip(used);
        self.played = Ghost(self.played@ + batch@);
        true
    }

    /// Plays back the next batch: asks the glide for a plan and carries
    /// out the plan that the glide gives back; see [`batch_played`]. The
    /// history itself, and the place where it is written next, stay as they
    /// are.
    pub fn read_inner(&mut self, batch: &mut [T; OUTPUT_SIZE])
        ensures
            final(self)@ == batch_played(old(self)@, final(self)@.glide_calls),
            final(batch)@ == batch_out(old(self)@, final(self)@.glide_calls),
            final(self)@.played == old(self)@.played + final(batch)@,
            final(self)@.ring.wf(),
            final(self)@.ring.buffer == old(self)@.ring.buffer,
            final(self)@.ring.write == old(self)@.ring.write,
            final(self)@.target_delay == old(self)@.target_delay,
            final(self)@.silence == old(self)@.silence,
            final(self)@.pending == old(self)@.pending,
            quiet(old(self)@.ring, old(self)@.silence) ==> final(batch)@ == silent_batch(
                old(self)@.silence,
            ),
    {
        let delay = self.delay();
        let target = self.target_delay;
        let plan = self.glide.plan(delay, target, OUTPUT_SIZE);
        self.read_planned(plan, batch);
    }

    /// Plays back into `samples`, as many samples as it holds: first what
    /// was played back before and not handed out, then batch after batch,
    /// as many batches as it takes, each from the line that the batch
    /// before it left. What is left of the last batch stays at hand. The
    /// history itself, and the place where it is written next, stay as they
    /// are.
    pub fn read(&mut self, samples: &mut [T])
        ensures
            final(samples)@.len() == old(samples)@.len(),
            (DelayView { pending: old(self)@.pending, ..final(self)@ }) == batches_played(
                old(self)@,
                final(self)@.glide_calls,
                batches_needed(
                    old(self)@.pending.len(),
                    old(samples)@.len(),
                    OUTPUT_SIZE as nat,
                ),
            ),
            final(samples)@ + final(self)@.pending == old(self)@.pending + final(self)@.played.skip(
                old(self)@.played.len() as int,
            ),
            final(self)@.played.take(old(self)@.played.len() as int) == old(self)@.played,
            final(self)@.played.len() == old(self)@.played.len() + batches_needed(
                old(self)@.pending.len(),
                old(samples)@.len(),
                OUTPUT_SIZE as nat,
            ) * OUTPUT_SIZE,
            final(self)@.ring.buffer == old(self)@.ring.buffer,
            final(self)@.ring.write == old(self)@.ring.write,
            final(self)@.target_delay == old(self)@.target_delay,
            final(self)@.silence == old(self)@.silence,
            quiet(old(self)@.ring, old(self)@.silence) && old(self)@.pending.len() <= old(
                samples,
            )@.len() ==> final(samples)@.skip(old(self)@.pending.len() as int) == Seq::new(
                (old(samples)@.len() - old(self)@.pending.len()) as nat,
                |i: int| old(self)@.silence,
            ),
            quiet(old(self)@.ring, old(self)@.silence) && (forall|i: int|
                0 <= i < old(self)@.pending.len() ==> old(self)@.pending[i] == old(self)@.silence)
                ==> (forall|i: int|
                0 <= i < final(samples)@.len() ==> final(samples)@[i] == old(self)@.silence) && (
            forall|i: int|
                0 <= i < final(self)@.pending.len() ==> final(self)@.pending[i] == old(
                    self,
                )@.silence),
    {
        let mut adapter = FixedOutputAdapter::new(self.silence);
        std::mem::swap(&mut self.output_adapter, &mut adapter);
        let ghost first = old(self)@.pending;
        let ghost had = old(self)@.played;
        let mut at: usize = adapter.read_at(samples, 0);
        assert(samples@.take(at as int) =~= first.take(at as int));
        assert(had.skip(had.len() as int) =~= Seq::<T>::empty());
        assert(had.take(had.len() as int) =~= had);
        let wanted = samples.len();
        if at == wanted {
            assert(samples@ =~= first.take(wanted as int));
            assert(samples@ + adapter.pending() =~= first + had.skip(had.len() as int));
            assert(first.len() <= wanted ==> samples@.skip(first.len() as int) =~= Seq::new(
                (wanted - first.len()) as nat,
                |i: int| old(self)@.silence,
            ));
            std::mem::swap(&mut self.output_adapter, &mut adapter);
            return ;
        }
        let ghost mut fetched: nat = 0;
        while at < wanted
            invariant
                wanted == samples@.len(),
                wanted == old(samples)@.len(),
                first == old(self)@.pending,
                had == old(self)@.played,
                first.len() <= at <= wanted,
                first.len() < wanted,
                samples@.take(first.len() as int) == first,
                self@.ring.buffer == old(self)@.ring.buffer,
                self@.ring.write == old(self)@.ring.write,
                self@.target_delay == old(self)@.target_delay,
                self@.silence == old(self)@.silence,
                at < wanted ==> adapter.pending().len() == 0,
                at == first.len() + fetched * OUTPUT_SIZE - adapter.pending().len(),
                at < wanted ==> fetched * OUTPUT_SIZE < wanted - first.len(),
                at == wanted ==> (fetched - 1) * OUTPUT_SIZE < wanted - first.len() <= fetched
                    * OUTPUT_SIZE,
                (DelayView { pending: first, ..self@ }) == batches_played(
                    old(self)@,
                    self@.glide_calls,
                    fetched,
                ),
                self@.played.len() == had.len() + fetched * OUTPUT_SIZE,
                self@.played.take(had.len() as int) == had,
                samples@.take(at as int) + adapter.pending() == first + self@.played.skip(
                    had.len() as int,
                ),
                quiet(old(self)@.ring, old(self)@.silence) ==> forall|j: int|
                    first.len() <= j < at ==> samples@[j] == self@.silence,
                quiet(old(self)@.ring, old(self)@.silence) ==> forall|j: int|
                    0 <= j < adapter.pending().len() ==> adapter.pending()[j] == self@.silence,
            decreases wanted - at,
        {
            let mut batch = [self.silence;OUTPUT_SIZE];
            let ghost reached = self@;
            self.read_inner(&mut batch);
            adapter.load(batch);
            let ghost before = samples@;
            let written = adapter.read_at(samples, at);
            proof {
                assert(samples@.take(first.len() as int) =~= before.take(first.len() as int));
                let line = DelayView { pending: first, ..reached };
                assert(batch_played(line, self@.glide_calls) == (DelayView {
                    pending: first,
                    ..self@
                }));
                lemma_batch_grows(line, self@.glide_calls);
                lemma_batches_stable(old(self)@, reached.glide_calls, self@.glide_calls, fetched);
                fetched = fetched + 1;
                assert(self@.played.take(had.len() as int) =~= reached.played.take(
                    had.len() as int,
                ));
                assert(self@.played.skip(had.len() as int) =~= reached.played.skip(had.len() as int)
                    + batch@);
                assert(samples@.take(at + written) =~= before.take(at as int) + batch@.take(
                    written as int,
                ));
                assert(batch@ =~= batch@.take(written as int) + batch@.skip(written as int));
                assert(samples@.take(at + written) + adapter.pending() =~= before.take(at as int)
                    + batch@);
            }
            at = at + written;
        }
        proof {
            assert(samples@.take(wanted as int) =~= samples@);
            let missing = wanted - first.len();
            assert(fetched == (missing + OUTPUT_SIZE - 1) / (OUTPUT_SIZE as int)) by {
                vstd::arithmetic::div_mod::lemma_fundamental_div_mod_converse_div(
                    missing + OUTPUT_SIZE - 1,
                    OUTPUT_SIZE as int,
                    fetched as int,
                    missing + OUTPUT_SIZE - 1 - fetched * OUTPUT_SIZE,
                );
            }
            if quiet(old(self)@.ring, old(self)@.silence) {
                assert(samples@.skip(first.len() as int) =~= Seq::new(
                    (wanted - first.len()) as nat,
                    |i: int| old(self)@.silence,
                ));
            }
        }
        std::mem::swap(&mut self.output_adapter, &mut adapter);
    }
}

impl<T: Copy, G: Glide<T>> BatchSource<T, OUTPUT_SIZE> for DelayLine<T, G> {
    /// Every batch that the line has played back.
    closed spec fn produced(&self) -> Seq<T> {
        self.played@
    }

    /// The next batch that the line plays back: see
    /// [`DelayLine::read_inner`].
    fn next_batch(&mut self, batch: &mut [T; OUTPUT_SIZE])
        ensures
            final(self)@ == batch_played(old(self)@, final(self)@.glide_calls),
            final(batch)@ == batch_out(old(self)@, final(self)@.glide_calls),
            final(self)@.ring.wf(),
    {
        self.read_inner(batch);
    }
}

/// A glide that does not glide: it plays the history back at the speed at
/// which it was recorded, sample for sample.
pub struct Steady<T> {
    calls: Ghost<Seq<GlideCall<T>>>,
}

impl<T: Copy> Steady<T> {
    /// Makes a steady glide that was not called yet.
    pub fn new() -> (glide: Self)
        ensures
            glide.calls() == Seq::<GlideCall<T>>::empty(),
    {
        Steady { calls: Ghost(Seq::empty()) }
    }
}

impl<T: Copy> Glide<T> for Steady<T> {
    closed spec fn calls(&self) -> Seq<GlideCall<T>> {
        self.calls@
    }

    fn set_sample_rate(&mut self, sample_rate: u32) {
        self.calls = Ghost(self.calls@.push(GlideCall::SetSampleRate { sample_rate }));
    }

    /// A steady glide looks at no sample before the place jumped to.
    fn reset(&mut self) -> (window: usize)
        ensures
            window == 0,
    {
        self.calls = Ghost(self.calls@.push(GlideCall::Reset { window: 0 }));
        0
    }

    /// A steady glide never jumps, and makes a batch from as many samples
    /// as the batch holds.
    fn plan(&mut self, delay: usize, target: usize, batch: usize) -> (plan: BatchPlan)
        ensures
            plan.seek == None::<usize>,
            plan.input_size == batch,
    {
        let plan = BatchPlan { seek: None, input_size: batch };
        self.calls = Ghost(self.calls@.push(GlideCall::Plan { delay, target, batch, plan }));
        plan
    }

    /// The batch is the start of the input, as far as the input reaches,
    /// and silence behind it; the glide is done with the samples it has
    /// taken over.
    fn render(&mut self, input: &[T], output: &mut [T; OUTPUT_SIZE], silence: T) -> (used: usize)
        ensures
            used == (if input@.len() < OUTPUT_SIZE {
                input@.len()
            } else {
                OUTPUT_SIZE as nat
            }),
            forall|i: int| 0 <= i < used ==> final(output)@[i] == input@[i],
            forall|i: int| used <= i < OUTPUT_SIZE ==> final(output)@[i] == silence,
    {
        let count = if input.len() < OUTPUT_SIZE {
            input.len()
        } else {
            OUTPUT_SIZE
        };
        let mut i: usize = 0;
        while i < OUTPUT_SIZE
            invariant
                i <= OUTPUT_SIZE,
                count <= OUTPUT_SIZE,
                count <= input@.len(),
                forall|j: int| 0 <= j < i && j < count ==> output@[j] == input@[j],
                forall|j: int| count <= j < i ==> output@[j] == silence,
            decreases OUTPUT_SIZE - i,
        {
            output[i] = if i < count {
                input[i]
            } else {
                silence
            };
            i += 1;
        }
        proof {
            if forall|i: int| 0 <= i < input@.len() ==> input@[i] == silence {
                assert forall|j: int| 0 <= j < OUTPUT_SIZE implies output@[j] == silence by {
                    if j < count {
                        assert(output@[j] == input@[j]);
                    }
                }
                assert(output@ =~= silent_batch(silence));
            }
        }
        self.calls = Ghost(
            self.calls@.push(GlideCall::Render { input: input@, output: output@, used: count }),
        );
        count
    }
}

} // verus!
