//! A row of nodes that acts as one node: the audio and the events that the
//! first node gets are those of the row, what each node makes goes to the
//! next, and what the last node makes is what the row makes.

use crate::borrow::{borrow_buffers, same_but_slots, slot_samples, slots_valid, AudioBlock};
use crate::convert::resize_samples;
use crate::midi::TimedMidiEvent;
use crate::processor::{
    left_of, sent_of, NodeCall, Processor, ProcessorData, ProcessorDescription,
};
use vstd::prelude::*;

verus! {

/// A row of nodes of two channels each.
pub struct Pipeline<T, P> {
    components: Vec<P>,
    buffer: Vec<T>,
    silence: T,
    midi_current: Vec<TimedMidiEvent>,
    midi_next: Vec<TimedMidiEvent>,
    calls: Ghost<Seq<NodeCall<T>>>,
}

/// Copies `src` to `dst`, or fills `dst` with `silence` where there is no
/// `src`.
pub fn copy_or_clear<T: Copy>(src: Option<&[T]>, dst: &mut [T], silence: T)
    requires
        src matches Some(samples) ==> samples@.len() == old(dst)@.len(),
    ensures
        final(dst)@ == (match src {
            Some(samples) => samples@,
            None => Seq::new(old(dst)@.len(), |i: int| silence),
        }),
{
    let count = dst.len();
    let mut i: usize = 0;
    while i < count
        invariant
            i <= count,
            count == dst@.len(),
            src matches Some(samples) ==> samples@.len() == count,
            forall|j: int|
                0 <= j < i ==> dst@[j] == (match src {
                    Some(samples) => samples@[j],
                    None => silence,
                }),
        decreases count - i,
    {
        dst[i] = match src {
            Some(samples) => samples[i],
            None => silence,
        };
        i += 1;
    }
    assert(dst@ =~= (match src {
        Some(samples) => samples@,
        None => Seq::new(count as nat, |i: int| silence),
    }));
}

/// The slots that the node at position `i` of a row reads: slots 0 and 1
/// and slots 2 and 3 in turn. It writes the slots that the node behind it
/// reads.
pub open spec fn row_slots(i: int) -> Seq<usize> {
    if i % 2 == 0 {
        seq![0usize, 1usize]
    } else {
        seq![2usize, 3usize]
    }
}

/// What a row hears on its input `ch`: that input of the block, or silence
/// where the block has no such input.
pub open spec fn heard<'a, T: Copy>(audio: AudioBlock<'a, T>, ch: int, silence: T) -> Seq<T> {
    if ch < audio.in_slots().len() {
        audio.input(ch)
    } else {
        Seq::new(audio.block_len() as nat, |i: int| silence)
    }
}

impl<T: Copy, P: Processor<T>> Pipeline<T, P> {
    /// The account of the node at position `i` of the row.
    pub closed spec fn component_calls(&self, i: int) -> Seq<NodeCall<T>> {
        self.components@[i].calls()
    }

    /// The last call of the node at position `i` of the row.
    pub open spec fn last_call(&self, i: int) -> NodeCall<T> {
        self.component_calls(i).last()
    }

    /// Whether the node at position `i` of the row `before` has processed
    /// one block of `len` samples behind the nodes before it, and that has
    /// brought it here.
    ///
    /// Its account has grown by that call. The first node was handed the
    /// events `midi_in`, and `left` and `right` in slots 0 and 1; each
    /// other node was handed the events that the node before it sent, and
    /// the store as that node left it. The node read and wrote the slots
    /// of its position, and left every other slot as it was.
    pub open spec fn node_ran(
        &self,
        before: &Self,
        midi_in: Seq<TimedMidiEvent>,
        len: usize,
        left: Seq<T>,
        right: Seq<T>,
        i: int,
    ) -> bool {
        let call = self.last_call(i);
        &&& self.component_calls(i) == before.component_calls(i).push(call)
        &&& call is Process
        &&& call->samples == len
        &&& call->in_slots == row_slots(i)
        &&& call->out_slots == row_slots(i + 1)
        &&& call->store.len() == 4 * len
        &&& call->left.len() == 4 * len
        &&& same_but_slots(call->store, call->left, len as nat, row_slots(i + 1))
        &&& if i == 0 {
            &&& call->midi_in == midi_in
            &&& slot_samples(call->store, 0, len as nat) == left
            &&& slot_samples(call->store, 1, len as nat) == right
        } else {
            &&& call->midi_in == sent_of(self.last_call(i - 1))
            &&& call->store == left_of(self.last_call(i - 1))
        }
    }

    /// Whether the first `upto` nodes of the row `before` have processed
    /// one block of `len` samples each, one after the other: see
    /// [`Pipeline::node_ran`].
    pub open spec fn row_ran(
        &self,
        before: &Self,
        midi_in: Seq<TimedMidiEvent>,
        len: usize,
        left: Seq<T>,
        right: Seq<T>,
        upto: int,
    ) -> bool {
        forall|i: int|
            0 <= i < upto ==> #[trigger] self.node_ran(before, midi_in, len, left, right, i)
    }

    /// What is said of a run of the row is said of its nodes and its
    /// silence alone.
    proof fn lemma_ran_same(
        &self,
        prev: &Self,
        before: &Self,
        midi_in: Seq<TimedMidiEvent>,
        held: Seq<TimedMidiEvent>,
        sent: Seq<TimedMidiEvent>,
        audio: AudioBlock<'_, T>,
        after: AudioBlock<'_, T>,
    )
        requires
            prev.ran(before, midi_in, held, sent, audio, after),
            self.components == prev.components,
        ensures
            self.ran(before, midi_in, held, sent, audio, after),
    {
        let len = audio.block_len();
        let left = heard(audio, 0, before.silence());
        let right = heard(audio, 1, before.silence());
        assert forall|i: int| self.component_calls(i) == prev.component_calls(i) by {}
        assert forall|i: int| self.last_call(i) == prev.last_call(i) by {}
        if 0 < len <= usize::MAX / 4 {
            assert forall|i: int| 0 <= i < self.len() implies #[trigger] self.node_ran(
                before,
                midi_in,
                len,
                left,
                right,
                i,
            ) by {
                assert(prev.node_ran(before, midi_in, len, left, right, i));
            }
        }
    }

    /// One more node of a row has run.
    proof fn lemma_row_grows(
        &self,
        prev: &Self,
        before: &Self,
        midi_in: Seq<TimedMidiEvent>,
        len: usize,
        left: Seq<T>,
        right: Seq<T>,
        at: int,
    )
        requires
            0 <= at < prev.components@.len(),
            self.components@.len() == prev.components@.len(),
            prev.row_ran(before, midi_in, len, left, right, at),
            prev.component_calls(at) == before.component_calls(at),
            forall|j: int|
                0 <= j < prev.components@.len() && j != at ==> #[trigger] self.components@[j]
                    == prev.components@[j],
            self.component_calls(at) == prev.component_calls(at).push(
                NodeCall::Process {
                    midi_in: prev.midi_current@,
                    samples: len,
                    in_slots: row_slots(at),
                    out_slots: row_slots(at + 1),
                    store: prev.buffer@,
                    left: self.buffer@,
                    sent: self.midi_current@,
                },
            ),
            prev.buffer@.len() == 4 * len,
            self.buffer@.len() == 4 * len,
            same_but_slots(prev.buffer@, self.buffer@, len as nat, row_slots(at + 1)),
            at == 0 ==> prev.midi_current@ == midi_in && slot_samples(prev.buffer@, 0, len as nat)
                == left && slot_samples(prev.buffer@, 1, len as nat) == right,
            at > 0 ==> prev.buffer@ == left_of(prev.last_call(at - 1)) && prev.midi_current@
                == sent_of(prev.last_call(at - 1)),
        ensures
            self.row_ran(before, midi_in, len, left, right, at + 1),
            self.buffer@ == left_of(self.last_call(at)),
            self.midi_current@ == sent_of(self.last_call(at)),
    {
        assert forall|i: int| 0 <= i < at + 1 implies #[trigger] self.node_ran(
            before,
            midi_in,
            len,
            left,
            right,
            i,
        ) by {
            if i < at {
                assert(prev.node_ran(before, midi_in, len, left, right, i));
                assert(self.components@[i] == prev.components@[i]);
                if i > 0 {
                    assert(self.components@[i - 1] == prev.components@[i - 1]);
                }
            } else if at > 0 {
                assert(self.components@[at - 1] == prev.components@[at - 1]);
            }
        }
    }

    /// Whether running the row `before` on one block has brought it here,
    /// where the block was `audio` and is `after` now, the events handed in
    /// were `midi_in`, and the events sent on were `held` and are `sent`
    /// now.
    ///
    /// A block of no samples, or of more than a quarter of what can be
    /// counted, is not processed: no node is called, and the events are
    /// sent on as they are. Otherwise every node processes the block in
    /// turn, see [`Pipeline::row_ran`]; the events that the last node sent
    /// are sent on, and the first two outputs of the block hold what the
    /// last node wrote. An empty row hands its first two inputs on to its
    /// first two outputs, with silence in place of an input that it does
    /// not have, and sends the events on as they are.
    pub open spec fn ran(
        &self,
        before: &Self,
        midi_in: Seq<TimedMidiEvent>,
        held: Seq<TimedMidiEvent>,
        sent: Seq<TimedMidiEvent>,
        audio: AudioBlock<'_, T>,
        after: AudioBlock<'_, T>,
    ) -> bool {
        let len = audio.block_len();
        let n = self.len() as int;
        &&& audio.same_inputs(&after)
        &&& if 0 < len <= usize::MAX / 4 {
            &&& self.row_ran(
                before,
                midi_in,
                len,
                heard(audio, 0, before.silence()),
                heard(audio, 1, before.silence()),
                n,
            )
            &&& sent == held + (if n == 0 {
                midi_in
            } else {
                sent_of(self.last_call(n - 1))
            })
            &&& forall|ch: int|
                0 <= ch < 2 && ch < audio.out_slots().len() ==> #[trigger] after.output(ch) == (if n
                    == 0 {
                    heard(audio, ch, before.silence())
                } else {
                    slot_samples(left_of(self.last_call(n - 1)), row_slots(n)[ch], len as nat)
                })
        } else {
            &&& sent == held + midi_in
            &&& after.store() == audio.store()
            &&& forall|i: int|
                0 <= i < n ==> #[trigger] self.component_calls(i) == before.component_calls(i)
        }
    }

    /// Makes a row of the nodes `components`, in their order. `silence` is
    /// what an input of the row holds that nothing feeds.
    pub fn new(components: Vec<P>, silence: T) -> (pipeline: Self)
        ensures
            pipeline.len() == components@.len(),
            pipeline.silence() == silence,
            forall|i: int|
                0 <= i < components@.len() ==> #[trigger] pipeline.component_calls(i)
                    == components@[i].calls(),
            pipeline.calls() == Seq::<NodeCall<T>>::empty(),
    {
        Pipeline {
            components,
            buffer: Vec::new(),
            silence,
            midi_current: Vec::new(),
            midi_next: Vec::new(),
            calls: Ghost(Seq::empty()),
        }
    }

    /// The number of nodes in the row.
    pub closed spec fn len(&self) -> nat {
        self.components@.len()
    }

    /// The sample that stands for silence.
    pub closed spec fn silence(&self) -> T {
        self.silence
    }

    /// Copies input `ch` of `audio` to the buffer from position `to` on, or
    /// silence where `audio` has no such input.
    fn load(&mut self, audio: &AudioBlock<'_, T>, ch: usize, to: usize)
        requires
            to + audio.block_len() <= old(self).buffer@.len(),
        ensures
            final(self).buffer@.len() == old(self).buffer@.len(),
            final(self).components == old(self).components,
            final(self).silence == old(self).silence,
            final(self).midi_current == old(self).midi_current,
            final(self).calls == old(self).calls,
            final(self).buffer@.subrange(to as int, to + audio.block_len()) == (if ch
                < audio.in_slots().len() {
                audio.input(ch as int)
            } else {
                Seq::new(audio.block_len() as nat, |i: int| old(self).silence)
            }),
            forall|j: int|
                0 <= j < to || to + audio.block_len() <= j < old(self).buffer@.len()
                    ==> final(self).buffer@[j] == old(self).buffer@[j],
    {
        let len = audio.samples();
        let total = self.buffer.len();
        proof {
            audio.lemma_channel_len();
        }
        let wired = ch < audio.num_inputs();
        let mut i: usize = 0;
        while i < len
            invariant
                i <= len,
                len == audio.block_len(),
                wired == (ch < audio.in_slots().len()),
                wired ==> audio.input(ch as int).len() == len,
                to + len <= self.buffer@.len(),
                self.buffer@.len() == old(self).buffer@.len(),
                self.buffer@.len() == total,
                self.components == old(self).components,
                self.silence == old(self).silence,
                self.calls == old(self).calls,
                self.midi_current == old(self).midi_current,
                forall|p: int|
                    to <= p < to + i ==> #[trigger] self.buffer@[p] == (if wired {
                        audio.input(ch as int)[p - to]
                    } else {
                        self.silence
                    }),
                forall|j: int|
                    0 <= j < to || to + len <= j < self.buffer@.len() ==> self.buffer@[j] == old(
                        self,
                    ).buffer@[j],
            decreases len - i,
        {
            let sample = if wired {
                audio.input_sample(ch, i)
            } else {
                self.silence
            };
            self.buffer[to + i] = sample;
            i += 1;
        }
        assert(self.buffer@.subrange(to as int, to + len) =~= (if wired {
            audio.input(ch as int)
        } else {
            Seq::new(len as nat, |i: int| self.silence)
        }));
    }

    /// Copies the buffer from position `from` on to output `ch` of `audio`,
    /// if it has such an output.
    fn unload(&self, audio: &mut AudioBlock<'_, T>, ch: usize, from: usize)
        requires
            from + old(audio).block_len() <= self.buffer@.len(),
        ensures
            final(audio).wf(),
            old(audio).same_inputs(final(audio)),
            ch < old(audio).out_slots().len() ==> final(audio).output(ch as int)
                == self.buffer@.subrange(from as int, from + old(audio).block_len()),
            forall|d: int|
                0 <= d < old(audio).out_slots().len() && d != ch ==> final(audio).output(d) == old(
                    audio,
                ).output(d),
    {
        let len = audio.samples();
        let total = self.buffer.len();
        proof {
            audio.lemma_channel_len();
        }
        if ch >= audio.num_outputs() {
            return ;
        }
        let mut i: usize = 0;
        while i < len
            invariant
                i <= len,
                len == audio.block_len(),
                ch < audio.out_slots().len(),
                from + len <= self.buffer@.len(),
                self.buffer@.len() == total,
                audio.wf(),
                old(audio).same_inputs(audio),
                audio.output(ch as int).len() == len,
                forall|j: int|
                    0 <= j < i ==> #[trigger] audio.output(ch as int)[j] == self.buffer@[from + j],
                forall|d: int|
                    0 <= d < old(audio).out_slots().len() && d != ch ==> audio.output(d) == old(
                        audio,
                    ).output(d),
            decreases len - i,
        {
            let ghost before = *audio;
            audio.set_output_sample(ch, i, self.buffer[from + i]);
            proof {
                audio.lemma_channel_len();
                assert forall|c: int| 0 <= c < audio.in_slots().len() implies audio.input(c) == old(
                    audio,
                ).input(c) by {
                    assert(before.input(c) == old(audio).input(c));
                }
            }
            i += 1;
        }
        assert(audio.output(ch as int) =~= self.buffer@.subrange(from as int, from + len));
    }

    /// Has the node at position `at` process one block of `len` samples:
    /// it is handed the events at hand and the buffer, with the slots of
    /// its position, and what it sends and leaves is at hand afterwards.
    fn run_node(&mut self, at: usize, len: usize)
        requires
            at < old(self).components@.len(),
            0 < len <= usize::MAX / 4,
            old(self).buffer@.len() == 4 * len,
        ensures
            final(self).components@.len() == old(self).components@.len(),
            final(self).silence == old(self).silence,
            final(self).calls == old(self).calls,
            forall|j: int|
                0 <= j < old(self).components@.len() && j != at ==> #[trigger] final(self).components@[j] == old(self).components@[j],
            final(self).component_calls(at as int) == old(self).component_calls(at as int).push(
                NodeCall::Process {
                    midi_in: old(self).midi_current@,
                    samples: len,
                    in_slots: row_slots(at as int),
                    out_slots: row_slots(at + 1),
                    store: old(self).buffer@,
                    left: final(self).buffer@,
                    sent: final(self).midi_current@,
                },
            ),
            final(self).buffer@.len() == 4 * len,
            same_but_slots(
                old(self).buffer@,
                final(self).buffer@,
                len as nat,
                row_slots(at + 1),
            ),
    {
        let ins_a: [usize; 2] = [0, 1];
        let ins_b: [usize; 2] = [2, 3];
        let mut store: Vec<T> = Vec::new();
        std::mem::swap(&mut self.buffer, &mut store);
        let (ins, outs) = if at % 2 == 0 {
            (ins_a.as_slice(), ins_b.as_slice())
        } else {
            (ins_b.as_slice(), ins_a.as_slice())
        };
        proof {
            assert(ins@ =~= row_slots(at as int));
            assert(outs@ =~= row_slots(at + 1));
            assert((4 * len) as nat / (len as nat) == 4) by (nonlinear_arith)
                requires
                    len > 0,
            ;
            assert(slots_valid(store@.len(), len, ins@, outs@));
        }
        let mut block = borrow_buffers(store, len, ins, outs);
        self.midi_next.clear();
        self.components[at].process(
            ProcessorData {
                midi_in: self.midi_current.as_slice(),
                midi_out: &mut self.midi_next,
                samples: len,
                audio: &mut block,
            },
        );
        self.buffer = block.into_store();
        std::mem::swap(&mut self.midi_current, &mut self.midi_next);
    }

    /// Runs the row on one block: see [`Pipeline::ran`].
    pub fn run(
        &mut self,
        midi_in: &[TimedMidiEvent],
        midi_out: &mut Vec<TimedMidiEvent>,
        audio: &mut AudioBlock<'_, T>,
    )
        ensures
            final(self).len() == old(self).len(),
            final(self).silence() == old(self).silence(),
            final(self).calls() == old(self).calls(),
            final(self).ran(
                old(self),
                midi_in@,
                old(midi_out)@,
                final(midi_out)@,
                *old(audio),
                *final(audio),
            ),
    {
        let len = audio.samples();
        let ghost left = heard(*audio, 0, self.silence);
        let ghost right = heard(*audio, 1, self.silence);
        self.midi_current.clear();
        let mut k: usize = 0;
        while k < midi_in.len()
            invariant
                k <= midi_in@.len(),
                self.components == old(self).components,
                self.silence == old(self).silence,
                self.calls == old(self).calls,
                self.midi_current@ == midi_in@.take(k as int),
            decreases midi_in@.len() - k,
        {
            self.midi_current.push(midi_in[k]);
            assert(self.midi_current@ =~= midi_in@.take(k + 1));
            k += 1;
        }
        assert(self.midi_current@ =~= midi_in@);
        if len > 0 && len <= usize::MAX / 4 {
            resize_samples(&mut self.buffer, 4 * len, self.silence);
            self.load(audio, 0, 0);
            self.load(audio, 1, len);
            let ghost loaded = self.buffer@;
            proof {
                assert(slot_samples(loaded, 0, len as nat) =~= left);
                assert(slot_samples(loaded, 1, len as nat) =~= right);
            }
            let mut at: usize = 0;
            while at < self.components.len()
                invariant
                    at <= self.components@.len(),
                    self.components@.len() == old(self).components@.len(),
                    self.silence == old(self).silence,
                    self.calls == old(self).calls,
                    0 < len <= usize::MAX / 4,
                    self.buffer@.len() == 4 * len,
                    slot_samples(loaded, 0, len as nat) == left,
                    slot_samples(loaded, 1, len as nat) == right,
                    at == 0 ==> self.buffer@ == loaded && self.midi_current@ == midi_in@,
                    at > 0 ==> self.buffer@ == left_of(self.last_call(at - 1))
                        && self.midi_current@ == sent_of(self.last_call(at - 1)),
                    forall|j: int|
                        at <= j < self.components@.len() ==> #[trigger] self.components@[j] == old(
                            self,
                        ).components@[j],
                    self.row_ran(old(self), midi_in@, len, left, right, at as int),
                decreases self.components@.len() - at,
            {
                let ghost reached = *self;
                self.run_node(at, len);
                proof {
                    self.lemma_row_grows(&reached, old(self), midi_in@, len, left, right, at as int);
                }
                at += 1;
            }
            let first = at % 2 == 0;
            let base = if first {
                0
            } else {
                len + len
            };
            let ghost before = *audio;
            self.unload(audio, 0, base);
            let ghost between = *audio;
            self.unload(audio, 1, base + len);
            proof {
                let n = self.components@.len() as int;
                assert forall|c: int| 0 <= c < before.in_slots().len() implies audio.input(c)
                    == before.input(c) by {
                    assert(between.input(c) == before.input(c));
                }
                assert(same_but_slots(
                    before.store(),
                    audio.store(),
                    before.block_len() as nat,
                    before.out_slots(),
                )) by {
                    assert(same_but_slots(
                        before.store(),
                        between.store(),
                        before.block_len() as nat,
                        before.out_slots(),
                    ));
                    assert(same_but_slots(
                        between.store(),
                        audio.store(),
                        before.block_len() as nat,
                        before.out_slots(),
                    ));
                }
                let held = self.buffer@;
                assert(row_slots(n)[0] == (if n % 2 == 0 {
                    0usize
                } else {
                    2usize
                }));
                assert(row_slots(n)[1] == (if n % 2 == 0 {
                    1usize
                } else {
                    3usize
                }));
                assert(slot_samples(held, row_slots(n)[0], len as nat) == held.subrange(
                    base as int,
                    base + len,
                ));
                assert(slot_samples(held, row_slots(n)[1], len as nat) == held.subrange(
                    base + len,
                    base + len + len,
                ));
                if 0 < before.out_slots().len() {
                    assert(between.output(0) == held.subrange(base as int, base + len));
                    assert(audio.output(0) == between.output(0));
                }
                if 1 < before.out_slots().len() {
                    assert(audio.output(1) == held.subrange(base + len, base + len + len));
                }
                if n == 0 {
                    assert(held == loaded);
                    assert(heard(before, 0, self.silence) == left);
                    assert(heard(before, 1, self.silence) == right);
                } else {
                    assert(held == left_of(self.last_call(n - 1)));
                }
                assert forall|ch: int|
                    0 <= ch < 2 && ch < before.out_slots().len() implies #[trigger] audio.output(ch)
                    == (if n == 0 {
                    heard(before, ch, self.silence)
                } else {
                    slot_samples(left_of(self.last_call(n - 1)), row_slots(n)[ch], len as nat)
                }) by {
                    if ch == 0 {
                    } else {
                        assert(ch == 1);
                    }
                }
            }
        }
        let mut k: usize = 0;
        let ghost sent = self.midi_current@;
        let ghost done = *self;
        while k < self.midi_current.len()
            invariant
                k <= self.midi_current@.len(),
                self.components == done.components,
                self.silence == old(self).silence,
                self.calls == old(self).calls,
                self.midi_current@ == sent,
                midi_out@ == old(midi_out)@ + sent.take(k as int),
            decreases self.midi_current@.len() - k,
        {
            midi_out.push(self.midi_current[k]);
            assert(midi_out@ =~= old(midi_out)@ + sent.take(k + 1));
            k += 1;
        }
        assert(sent.take(sent.len() as int) =~= sent);
    }
}

impl<T: Copy, P: Processor<T>> Processor<T> for Pipeline<T, P> {
    /// Every call of the row as a node.
    closed spec fn calls(&self) -> Seq<NodeCall<T>> {
        self.calls@
    }

    /// A row takes up to two channels and makes two.
    fn description(&self) -> (description: ProcessorDescription)
        ensures
            description == (ProcessorDescription {
                min_audio_ins: 0,
                max_audio_ins: 2,
                num_audio_outs: 2,
            }),
    {
        ProcessorDescription { min_audio_ins: 0, max_audio_ins: 2, num_audio_outs: 2 }
    }

    /// Tells every node of the row the sample rate.
    fn set_sample_rate(&mut self, sample_rate: u32)
        ensures
            final(self).len() == old(self).len(),
            final(self).silence() == old(self).silence(),
            forall|i: int|
                0 <= i < old(self).len() ==> #[trigger] final(self).component_calls(i) == old(
                    self,
                ).component_calls(i).push(NodeCall::SetSampleRate { sample_rate }),
    {
        let mut at: usize = 0;
        while at < self.components.len()
            invariant
                at <= self.components@.len(),
                self.components@.len() == old(self).components@.len(),
                self.silence() == old(self).silence(),
                self.calls == old(self).calls,
                forall|i: int|
                    0 <= i < at ==> #[trigger] self.components@[i].calls() == old(
                        self,
                    ).components@[i].calls().push(NodeCall::SetSampleRate { sample_rate }),
                forall|i: int|
                    at <= i < self.components@.len() ==> #[trigger] self.components@[i] == old(
                        self,
                    ).components@[i],
            decreases self.components@.len() - at,
        {
            self.components[at].set_sample_rate(sample_rate);
            at += 1;
        }
        self.calls = Ghost(self.calls@.push(NodeCall::SetSampleRate { sample_rate }));
    }

    /// A row has no parameters of its own.
    fn set_parameter(&mut self, param_id: usize, value: T)
        ensures
            final(self).len() == old(self).len(),
            final(self).silence() == old(self).silence(),
            forall|i: int|
                0 <= i < old(self).len() ==> #[trigger] final(self).component_calls(i) == old(
                    self,
                ).component_calls(i),
    {
        self.calls = Ghost(self.calls@.push(NodeCall::SetParameter { param_id, value }));
    }

    /// Runs the row on one block: see [`Pipeline::ran`].
    fn process(&mut self, data: ProcessorData<'_, '_, T>)
        ensures
            final(self).len() == old(self).len(),
            final(self).silence() == old(self).silence(),
            final(self).ran(
                old(self),
                data.midi_in@,
                old(data.midi_out)@,
                final(data.midi_out)@,
                *old(data.audio),
                *final(data.audio),
            ),
    {
        let ghost handed = data.audio.store();
        let ghost in_slots = data.audio.in_slots();
        let ghost out_slots = data.audio.out_slots();
        let ghost audio = *data.audio;
        let ghost held = data.midi_out@;
        self.run(data.midi_in, data.midi_out, data.audio);
        let ghost ran = *self;
        self.calls = Ghost(
            self.calls@.push(
                NodeCall::Process {
                    midi_in: data.midi_in@,
                    samples: data.samples,
                    in_slots,
                    out_slots,
                    store: handed,
                    left: data.audio.store(),
                    sent: data.midi_out@,
                },
            ),
        );
        proof {
            self.lemma_ran_same(
                &ran,
                old(self),
                data.midi_in@,
                held,
                data.midi_out@,
                audio,
                *data.audio,
            );
        }
    }
}

} // verus!
