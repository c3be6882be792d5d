//! What the engine asks of a processing node.

use crate::account::Account;
use crate::borrow::AudioBlock;
use crate::midi::TimedMidiEvent;
use vstd::prelude::*;

verus! {

/// How many audio channels a node accepts and produces.
#[derive(Copy, Clone, Debug)]
pub struct ProcessorDescription {
    pub min_audio_ins: usize,
    pub max_audio_ins: usize,
    pub num_audio_outs: usize,
}

/// Everything a node is handed for one block.
pub struct ProcessorData<'a, 'b, T> {
    /// The events that arrive in this block.
    pub midi_in: &'a [TimedMidiEvent],
    /// Where the node appends the events it sends.
    pub midi_out: &'a mut Vec<TimedMidiEvent>,
    /// The number of samples in each audio channel.
    pub samples: usize,
    /// The audio channels of the node.
    pub audio: &'a mut AudioBlock<'b, T>,
}

/// One call of a node: what it was handed and what it left.
pub enum NodeCall<T> {
    /// The node was told the sample rate.
    SetSampleRate { sample_rate: u32 },
    /// One of the node's parameters was set.
    SetParameter { param_id: usize, value: T },
    /// The node processed one block of `samples` samples. It was handed
    /// the events `midi_in`, and the store `store`, with the slots
    /// `in_slots` to read and the slots `out_slots` to write. It left the
    /// store as `left`, and `sent` where it sends its events.
    Process {
        midi_in: Seq<TimedMidiEvent>,
        samples: usize,
        in_slots: Seq<usize>,
        out_slots: Seq<usize>,
        store: Seq<T>,
        left: Seq<T>,
        sent: Seq<TimedMidiEvent>,
    },
}

/// The store as a call left it.
pub open spec fn left_of<T>(call: NodeCall<T>) -> Seq<T> {
    match call {
        NodeCall::Process { left, .. } => left,
        _ => Seq::empty(),
    }
}

/// The events that a node sent in a call.
pub open spec fn sent_of<T>(call: NodeCall<T>) -> Seq<TimedMidiEvent> {
    match call {
        NodeCall::Process { sent, .. } => sent,
        _ => Seq::empty(),
    }
}

/// A node of the processing graph.
///
/// A node keeps account of its calls: every call is added to the account
/// with what it was handed and what it left, and nothing else is. Whatever
/// a node writes, it writes into its own output channels.
pub trait Processor<T: Copy> {
    /// Every call of the node so far, oldest first. The account is that of
    /// the calls below that change the node; asking for the description
    /// does not.
    spec fn calls(&self) -> Account<NodeCall<T>>;

    /// Tells how many audio channels the node accepts and produces.
    fn description(&self) -> ProcessorDescription;

    /// Tells the node the sample rate, in samples per second.
    fn set_sample_rate(&mut self, sample_rate: u32)
        ensures
            final(self).calls() == old(self).calls().push(NodeCall::SetSampleRate { sample_rate }),
    ;

    /// Sets one of the node's parameters.
    fn set_parameter(&mut self, param_id: usize, value: T)
        ensures
            final(self).calls() == old(self).calls().push(
                NodeCall::SetParameter { param_id, value },
            ),
    ;

    /// Processes one block. The block keeps its shape, and every slot of
    /// the store that is none of the node's output channels stays as it
    /// is.
    fn process(&mut self, data: ProcessorData<'_, '_, T>)
        requires
            data.samples == data.audio.block_len(),
        ensures
            final(self).calls() == old(self).calls().push(
                NodeCall::Process {
                    midi_in: data.midi_in@,
                    samples: data.samples,
                    in_slots: old(data.audio).in_slots(),
                    out_slots: old(data.audio).out_slots(),
                    store: old(data.audio).store(),
                    left: final(data.audio).store(),
                    sent: final(data.midi_out)@,
                },
            ),
            old(data.audio).same_inputs(final(data.audio)),
    ;
}

} // verus!
