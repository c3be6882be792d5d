//! The processing graph as the contracts see it: the nodes and their wiring,
//! the slots that the wiring gives each node, and what a cycle comes to.

use crate::borrow::{guard, BorrowError};
use crate::handle::DeviceId;
use crate::processor::ProcessorDescription;
use vstd::prelude::*;

verus! {

/// The number of slots that the sample store is cut into.
pub const NUM_BUFFERS: usize = 16;

/// Why a cycle was given up.
#[derive(Copy, Clone, PartialEq, Eq, Structural, Debug)]
pub enum EngineError {
    /// A node asks for more inputs at least than it accepts at most.
    InvalidDescription,
    /// There is no room for the slots of a node.
    OutOfMemory,
    /// The guard refused the slots of a node.
    Borrow(BorrowError),
}

/// What the engine knows of one node, apart from the node itself.
pub struct DeviceView {
    /// The channels that the node declared when it was added.
    pub description: ProcessorDescription,
    /// For each input channel, the node and the output channel that feed it.
    pub audio_inputs: Seq<(DeviceId, usize)>,
    /// The node whose events this node receives, or the null handle.
    pub midi_input: DeviceId,
    /// For each output channel, the slot it is written to. Slot 0 stands
    /// for no slot, and so does the lack of an entry.
    pub audio_slots: Seq<usize>,
}

/// The graph as the contracts see it.
pub struct EngineView {
    /// The sample rate, or 0 while none is set.
    pub sample_rate: u32,
    /// The registered nodes by their handles.
    pub devices: Map<DeviceId, DeviceView>,
    /// The order in which a cycle runs the nodes.
    pub device_order: Seq<DeviceId>,
}

/// One call of a node, as a cycle makes it.
pub struct Run {
    /// The node that is called.
    pub device: DeviceId,
    /// The number of samples in each channel that it is handed.
    pub samples: usize,
    /// The slots of the input channels that it is handed.
    pub in_slots: Seq<usize>,
    /// The slots of the output channels that it is handed.
    pub out_slots: Seq<usize>,
    /// The node whose events it is handed: those that this node sent when
    /// it last ran. Without such a node it is handed no events.
    pub midi_source: Option<DeviceId>,
}

/// The wiring entry of an input channel that nothing feeds.
pub open spec fn unwired() -> (DeviceId, usize) {
    (DeviceId::null_spec(), 0usize)
}

/// The wiring of a node after input channel `channel` is fed from `source`:
/// the list grows as far as needed, by channels that nothing feeds.
pub open spec fn wire(inputs: Seq<(DeviceId, usize)>, channel: usize, source: (DeviceId, usize)) -> Seq<
    (DeviceId, usize),
> {
    Seq::new(
        if channel < inputs.len() {
            inputs.len()
        } else {
            (channel + 1) as nat
        },
        |c: int|
            if c == channel {
                source
            } else if c < inputs.len() {
                inputs[c]
            } else {
                unwired()
            },
    )
}

/// The slots of a node after output channel `channel` was given `slot`: the
/// list grows as far as needed, by channels that have slot 0.
pub open spec fn assign(slots: Seq<usize>, channel: usize, slot: usize) -> Seq<usize> {
    Seq::new(
        if channel < slots.len() {
            slots.len()
        } else {
            (channel + 1) as nat
        },
        |c: int|
            if c == channel {
                slot
            } else if c < slots.len() {
                slots[c]
            } else {
                0
            },
    )
}

/// The wiring of a node after input channel `channel` is cut off. A channel
/// that the list does not reach is left alone.
pub open spec fn unwire(inputs: Seq<(DeviceId, usize)>, channel: usize) -> Seq<(DeviceId, usize)> {
    if channel < inputs.len() {
        inputs.update(channel as int, unwired())
    } else {
        inputs
    }
}

/// The slot that an input channel reads when it is fed from `source`: the
/// slot of that output channel, or slot 0 where the source names no node or
/// the node has no slot for the channel.
pub open spec fn source_slot(view: EngineView, source: (DeviceId, usize)) -> usize {
    if view.devices.contains_key(source.0) && source.1 < view.devices[source.0].audio_slots.len() {
        view.devices[source.0].audio_slots[source.1 as int]
    } else {
        0
    }
}

/// The number of input channels that a node is run with: the number of
/// channels wired, held within what the node accepts.
pub open spec fn input_count(wired: nat, description: ProcessorDescription) -> nat {
    if wired < description.min_audio_ins {
        description.min_audio_ins as nat
    } else if wired > description.max_audio_ins {
        description.max_audio_ins as nat
    } else {
        wired
    }
}

/// The slots that the node `device_id` reads, one for each input channel.
pub open spec fn input_slots(view: EngineView, device_id: DeviceId) -> Seq<usize> {
    let device = view.devices[device_id];
    Seq::new(
        input_count(device.audio_inputs.len(), device.description),
        |ch: int|
            if ch < device.audio_inputs.len() {
                source_slot(view, device.audio_inputs[ch])
            } else {
                0
            },
    )
}

/// The slots that the node `device_id` writes, one for each output channel.
/// A channel without a slot falls on slot 0; a cycle does not run a node
/// with such a channel, see [`device_check`].
pub open spec fn output_slots(view: EngineView, device_id: DeviceId) -> Seq<usize> {
    let device = view.devices[device_id];
    Seq::new(
        device.description.num_audio_outs as nat,
        |ch: int|
            if ch < device.audio_slots.len() {
                device.audio_slots[ch]
            } else {
                0
            },
    )
}

/// Whether a cycle of blocks of `len` samples can run the node that
/// `device_id` names. A handle that names no node is passed over.
///
/// Slot 0 is lent to every node as silence, so no node may write it: a
/// node with an output channel in slot 0, which is where a channel without
/// a slot falls, is refused as one that writes a slot handed out already.
pub open spec fn device_check(view: EngineView, device_id: DeviceId, len: usize) -> Result<
    (),
    EngineError,
> {
    if !view.devices.contains_key(device_id) {
        Ok(())
    } else if view.devices[device_id].description.min_audio_ins
        > view.devices[device_id].description.max_audio_ins {
        Err(EngineError::InvalidDescription)
    } else if output_slots(view, device_id).contains(0) {
        Err(EngineError::Borrow(BorrowError::AlreadyBorrowed { index: 0 }))
    } else {
        match guard(
            (NUM_BUFFERS * len) as nat,
            len,
            input_slots(view, device_id),
            output_slots(view, device_id),
        ) {
            Ok(_) => Ok(()),
            Err(e) => Err(EngineError::Borrow(e)),
        }
    }
}

/// The call that a cycle of blocks of `len` samples makes of the node
/// `device_id`.
pub open spec fn planned_run(view: EngineView, device_id: DeviceId, len: usize) -> Run {
    Run {
        device: device_id,
        samples: len,
        in_slots: input_slots(view, device_id),
        out_slots: output_slots(view, device_id),
        midi_source: if view.devices.contains_key(view.devices[device_id].midi_input) {
            Some(view.devices[device_id].midi_input)
        } else {
            None
        },
    }
}

/// The calls that a cycle makes of the nodes `device_order[from..]` with
/// room for `room` slots, in the order in which it makes them: one of every
/// registered node, up to the first node that cannot be run.
pub open spec fn cycle_runs_within(view: EngineView, len: usize, room: nat, from: int) -> Seq<Run>
    decreases view.device_order.len() - from,
{
    if from < 0 || from >= view.device_order.len() {
        Seq::empty()
    } else {
        let device_id = view.device_order[from];
        match device_check_within(view, device_id, len, room) {
            Ok(_) => if view.devices.contains_key(device_id) {
                seq![planned_run(view, device_id, len)] + cycle_runs_within(
                    view,
                    len,
                    room,
                    from + 1,
                )
            } else {
                cycle_runs_within(view, len, room, from + 1)
            },
            Err(_) => Seq::empty(),
        }
    }
}

/// The calls that a cycle makes of the nodes `device_order[from..]`.
pub open spec fn cycle_runs_from(view: EngineView, len: usize, from: int) -> Seq<Run>
    decreases view.device_order.len() - from,
{
    if from < 0 || from >= view.device_order.len() {
        Seq::empty()
    } else {
        let device_id = view.device_order[from];
        match device_check(view, device_id, len) {
            Ok(_) => if view.devices.contains_key(device_id) {
                seq![planned_run(view, device_id, len)] + cycle_runs_from(view, len, from + 1)
            } else {
                cycle_runs_from(view, len, from + 1)
            },
            Err(_) => Seq::empty(),
        }
    }
}

/// The calls that one cycle makes.
pub open spec fn cycle_runs(view: EngineView, len: usize) -> Seq<Run> {
    cycle_runs_from(view, len, 0)
}

/// Every call of a cycle is of a registered node, on the slots that the
/// wiring gives the node.
pub proof fn lemma_runs_are_planned(view: EngineView, len: usize, room: nat, from: int)
    requires
        0 <= from,
    ensures
        forall|k: int|
            0 <= k < cycle_runs_within(view, len, room, from).len() ==> {
                let run = #[trigger] cycle_runs_within(view, len, room, from)[k];
                view.devices.contains_key(run.device) && run == planned_run(view, run.device, len)
            },
    decreases view.device_order.len() - from,
{
    if from < view.device_order.len() {
        lemma_runs_are_planned(view, len, room, from + 1);
        let device_id = view.device_order[from];
        let rest = cycle_runs_within(view, len, room, from + 1);
        let all = cycle_runs_within(view, len, room, from);
        if device_check_within(view, device_id, len, room) is Ok && view.devices.contains_key(
            device_id,
        ) {
            let run = planned_run(view, device_id, len);
            assert(all == seq![run] + rest);
            assert forall|k: int| 0 <= k < all.len() implies {
                let r = #[trigger] all[k];
                view.devices.contains_key(r.device) && r == planned_run(view, r.device, len)
            } by {
                if k > 0 {
                    assert(all[k] == rest[k - 1]);
                }
            }
        }
    }
}

/// No call of a cycle writes slot 0, and every call is of a block that is
/// not empty.
pub proof fn lemma_runs_spare_first_slot(view: EngineView, len: usize, room: nat, from: int)
    requires
        0 <= from,
    ensures
        forall|k: int|
            0 <= k < cycle_runs_within(view, len, room, from).len() ==> {
                let run = #[trigger] cycle_runs_within(view, len, room, from)[k];
                run.samples == len && len > 0 && !run.out_slots.contains(0)
            },
    decreases view.device_order.len() - from,
{
    if from < view.device_order.len() {
        lemma_runs_spare_first_slot(view, len, room, from + 1);
        let device_id = view.device_order[from];
        let rest = cycle_runs_within(view, len, room, from + 1);
        let all = cycle_runs_within(view, len, room, from);
        if device_check_within(view, device_id, len, room) is Ok && view.devices.contains_key(
            device_id,
        ) {
            let run = planned_run(view, device_id, len);
            assert(all == seq![run] + rest);
            assert forall|k: int| 0 <= k < all.len() implies {
                let r = #[trigger] all[k];
                r.samples == len && len > 0 && !r.out_slots.contains(0)
            } by {
                if k > 0 {
                    assert(all[k] == rest[k - 1]);
                }
            }
        }
    }
}

/// Audio flows along the wiring: an input channel reads the very slot that
/// the output channel feeding it is written to. So a node that runs behind
/// its source in a cycle reads what the source has made in that cycle.
pub proof fn lemma_input_reads_source_output(view: EngineView, device_id: DeviceId, channel: int)
    requires
        view.devices.contains_key(device_id),
        0 <= channel < input_slots(view, device_id).len(),
        channel < view.devices[device_id].audio_inputs.len(),
        view.devices.contains_key(view.devices[device_id].audio_inputs[channel].0),
        view.devices[device_id].audio_inputs[channel].1 < output_slots(
            view,
            view.devices[device_id].audio_inputs[channel].0,
        ).len(),
    ensures
        input_slots(view, device_id)[channel] == output_slots(
            view,
            view.devices[device_id].audio_inputs[channel].0,
        )[view.devices[device_id].audio_inputs[channel].1 as int],
{
}

/// An input channel that nothing feeds reads slot 0, the slot that every
/// cycle silences before its first call: a channel that is not wired, one
/// whose source names no node, as after the source was removed, and one
/// whose source has no slot for the channel that feeds it.
pub proof fn lemma_unfed_input_reads_first_slot(
    view: EngineView,
    device_id: DeviceId,
    channel: int,
)
    requires
        0 <= channel < input_slots(view, device_id).len(),
        channel >= view.devices[device_id].audio_inputs.len() || !view.devices.contains_key(
            view.devices[device_id].audio_inputs[channel].0,
        ) || view.devices[device_id].audio_inputs[channel].1
            >= view.devices[view.devices[device_id].audio_inputs[channel].0].audio_slots.len(),
    ensures
        input_slots(view, device_id)[channel] == 0,
{
}

/// The number of slots that the node `device_id` reads and writes
/// together.
pub open spec fn slots_needed(view: EngineView, device_id: DeviceId) -> nat {
    input_slots(view, device_id).len() + output_slots(view, device_id).len()
}

/// Whether a cycle can run the node that `device_id` names when it has room
/// for `room` slots: a node that needs more cannot be run.
pub open spec fn device_check_within(
    view: EngineView,
    device_id: DeviceId,
    len: usize,
    room: nat,
) -> Result<(), EngineError> {
    if view.devices.contains_key(device_id) && view.devices[device_id].description.min_audio_ins
        <= view.devices[device_id].description.max_audio_ins && slots_needed(view, device_id)
        > room {
        Err(EngineError::OutOfMemory)
    } else {
        device_check(view, device_id, len)
    }
}

/// The outcome of running the nodes `device_order[from..]` with room for
/// `room` slots.
pub open spec fn cycle_outcome_within(view: EngineView, len: usize, room: nat, from: int) -> Result<
    (),
    EngineError,
>
    decreases view.device_order.len() - from,
{
    if from < 0 || from >= view.device_order.len() {
        Ok(())
    } else {
        match device_check_within(view, view.device_order[from], len, room) {
            Ok(_) => cycle_outcome_within(view, len, room, from + 1),
            Err(e) => Err(e),
        }
    }
}

/// The most slots that a node of `device_order[from..]` needs.
pub open spec fn most_slots_needed(view: EngineView, from: int) -> nat
    decreases view.device_order.len() - from,
{
    if from < 0 || from >= view.device_order.len() {
        0
    } else {
        let rest = most_slots_needed(view, from + 1);
        let device_id = view.device_order[from];
        if view.devices.contains_key(device_id) && view.devices[device_id].description.min_audio_ins
            <= view.devices[device_id].description.max_audio_ins && slots_needed(view, device_id)
            > rest {
            slots_needed(view, device_id)
        } else {
            rest
        }
    }
}

/// The most slots needed grows as more of the execution order is taken in.
pub proof fn lemma_most_slots_grows(view: EngineView, from: int, upto: int)
    requires
        0 <= from <= upto,
    ensures
        most_slots_needed(view, from) >= most_slots_needed(view, upto),
    decreases upto - from,
{
    if from < upto {
        lemma_most_slots_grows(view, from + 1, upto);
    }
}

/// With room for the most slots that a node needs, a cycle goes as it goes
/// with any room.
pub proof fn lemma_enough_room(view: EngineView, len: usize, room: nat, from: int)
    requires
        0 <= from,
        room >= most_slots_needed(view, from),
    ensures
        cycle_outcome_within(view, len, room, from) == cycle_outcome_from(view, len, from),
        cycle_runs_within(view, len, room, from) == cycle_runs_from(view, len, from),
    decreases view.device_order.len() - from,
{
    if from < view.device_order.len() {
        lemma_enough_room(view, len, room, from + 1);
    }
}

/// The outcome of running the nodes `device_order[from..]`: the first
/// error that one of them meets, if any does.
pub open spec fn cycle_outcome_from(view: EngineView, len: usize, from: int) -> Result<
    (),
    EngineError,
>
    decreases view.device_order.len() - from,
{
    if from < 0 || from >= view.device_order.len() {
        Ok(())
    } else {
        match device_check(view, view.device_order[from], len) {
            Ok(_) => cycle_outcome_from(view, len, from + 1),
            Err(e) => Err(e),
        }
    }
}

/// The outcome of one cycle.
pub open spec fn cycle_outcome(view: EngineView, len: usize) -> Result<(), EngineError> {
    cycle_outcome_from(view, len, 0)
}

/// The first of the two slots that the node at position `k` of a chain
/// writes: the nodes take the pair of slots 1 and 2 and the pair of slots 3
/// and 4 in turn. Slot 0 is left alone: it is what an input reads that
/// nothing feeds.
pub open spec fn chain_slot(k: int) -> usize {
    if k % 2 == 0 {
        1
    } else {
        3
    }
}

/// The nodes with every assignment of slots taken away.
pub open spec fn without_slots(devices: Map<DeviceId, DeviceView>) -> Map<DeviceId, DeviceView> {
    Map::new(
        |id: DeviceId| devices.contains_key(id),
        |id: DeviceId| DeviceView { audio_slots: Seq::empty(), ..devices[id] },
    )
}

/// The nodes after the first `upto` nodes of `chain` were given their pairs
/// of slots, one after the other. A handle that names no node is passed
/// over.
pub open spec fn with_chain_slots(
    devices: Map<DeviceId, DeviceView>,
    chain: Seq<DeviceId>,
    upto: int,
) -> Map<DeviceId, DeviceView>
    decreases upto,
{
    if upto <= 0 {
        devices
    } else {
        let before = with_chain_slots(devices, chain, upto - 1);
        let id = chain[upto - 1];
        if before.contains_key(id) {
            before.insert(
                id,
                DeviceView {
                    audio_slots: seq![chain_slot(upto - 1), (chain_slot(upto - 1) + 1) as usize],
                    ..before[id]
                },
            )
        } else {
            before
        }
    }
}

/// The nodes after each of the first `upto` nodes of `chain` was wired to
/// the node behind it, channel 0 to channel 0 and channel 1 to channel 1.
pub open spec fn with_chain_wiring(
    devices: Map<DeviceId, DeviceView>,
    chain: Seq<DeviceId>,
    upto: int,
) -> Map<DeviceId, DeviceView>
    decreases upto,
{
    if upto <= 0 {
        devices
    } else {
        let before = with_chain_wiring(devices, chain, upto - 1);
        let src = chain[upto - 1];
        let dst = chain[upto];
        if before.contains_key(dst) {
            before.insert(
                dst,
                DeviceView {
                    audio_inputs: wire(
                        wire(before[dst].audio_inputs, 0, (src, 0usize)),
                        1,
                        (src, 1usize),
                    ),
                    ..before[dst]
                },
            )
        } else {
            before
        }
    }
}

/// The graph after `chain` was connected into a chain: it is the execution
/// order, all its nodes have fresh slots, and each is wired to the next.
pub open spec fn connected(view: EngineView, chain: Seq<DeviceId>) -> EngineView {
    EngineView {
        device_order: chain,
        devices: with_chain_wiring(
            with_chain_slots(without_slots(view.devices), chain, chain.len() as int),
            chain,
            chain.len() - 1,
        ),
        ..view
    }
}

} // verus!
