//! The processing graph: its nodes, its wiring, and the cycle that runs
//! every node once per block.

use crate::arena::{arena_new, arena_reset, arena_slots};
use crate::borrow::{
    borrow_buffers, check_borrows, guard, same_but_slots, slot_count, slot_samples, BorrowError,
};
use crate::convert::resize_samples;
use crate::graph::{
    assign, chain_slot, connected, cycle_outcome, cycle_outcome_within, cycle_runs,
    cycle_runs_within, input_slots, lemma_enough_room, lemma_most_slots_grows,
    lemma_runs_are_planned, lemma_runs_spare_first_slot, lemma_unfed_input_reads_first_slot,
    most_slots_needed,
    output_slots,
    planned_run, source_slot, unwire, unwired, wire, with_chain_slots, with_chain_wiring,
    without_slots, DeviceView, EngineError, EngineView, Run, NUM_BUFFERS,
};
use crate::handle::{
    canonical, lemma_handles_by_number, null_index, table_entries, table_get, table_insert,
    table_new, table_remove, table_retired, DeviceId, HandleTable, MAX_DEVICES, MAX_RETIRED,
};
use crate::midi::TimedMidiEvent;
use crate::processor::{
    left_of, sent_of, NodeCall, Processor, ProcessorData, ProcessorDescription,
};
use bumpalo::Bump;
use vstd::prelude::*;
use vstd::slice::slice_subrange;

verus! {

/// The store made ready for a cycle: `total` samples, the first `len` of
/// them silent, the others as they were, or silent where there were none.
pub open spec fn prepared_store<T>(store: Seq<T>, total: nat, len: nat, silence: T) -> Seq<T> {
    Seq::new(
        total,
        |i: int|
            if i < len || i >= store.len() {
                silence
            } else {
                store[i]
            },
    )
}

/// Brings the store to `total` samples and silences the first `len`.
fn prepare_store<T: Copy>(store: &mut Vec<T>, total: usize, len: usize, silence: T)
    ensures
        final(store)@ == prepared_store(old(store)@, total as nat, len as nat, silence),
{
    resize_samples(store, total, silence);
    let mut i: usize = 0;
    while i < len && i < total
        invariant
            store@.len() == total,
            i <= len,
            forall|j: int|
                0 <= j < total ==> store@[j] == (if j < i || j >= old(store)@.len() {
                    silence
                } else {
                    old(store)@[j]
                }),
        decreases total - i,
    {
        store[i] = silence;
        i += 1;
    }
    assert(store@ =~= prepared_store(old(store)@, total as nat, len as nat, silence));
}

/// Feeds input channel `channel` from `source`.
fn wire_input(inputs: &mut Vec<(DeviceId, usize)>, channel: usize, source: (DeviceId, usize))
    requires
        channel < usize::MAX,
    ensures
        final(inputs)@ == wire(old(inputs)@, channel, source),
{
    let unwired_entry = (DeviceId::null(), 0usize);
    while inputs.len() <= channel
        invariant
            channel < usize::MAX,
            unwired_entry == unwired(),
            old(inputs)@.len() <= inputs@.len(),
            inputs@.len() <= channel + 1 || inputs@.len() == old(inputs)@.len(),
            forall|c: int| 0 <= c < old(inputs)@.len() ==> inputs@[c] == old(inputs)@[c],
            forall|c: int| old(inputs)@.len() <= c < inputs@.len() ==> inputs@[c] == unwired(),
        decreases channel + 1 - inputs@.len(),
    {
        inputs.push(unwired_entry);
    }
    inputs[channel] = source;
    assert(inputs@ =~= wire(old(inputs)@, channel, source));
}

/// Gives output channel `channel` the slot `slot`.
fn assign_slot(slots: &mut Vec<usize>, channel: usize, slot: usize)
    requires
        channel < usize::MAX,
    ensures
        final(slots)@ == assign(old(slots)@, channel, slot),
{
    while slots.len() <= channel
        invariant
            channel < usize::MAX,
            old(slots)@.len() <= slots@.len(),
            slots@.len() <= channel + 1 || slots@.len() == old(slots)@.len(),
            forall|c: int| 0 <= c < old(slots)@.len() ==> slots@[c] == old(slots)@[c],
            forall|c: int| old(slots)@.len() <= c < slots@.len() ==> slots@[c] == 0,
        decreases channel + 1 - slots@.len(),
    {
        slots.push(0);
    }
    slots[channel] = slot;
    assert(slots@ =~= assign(old(slots)@, channel, slot));
}

/// Cuts input channel `channel` off.
fn unwire_input(inputs: &mut Vec<(DeviceId, usize)>, channel: usize)
    ensures
        final(inputs)@ == unwire(old(inputs)@, channel),
{
    if channel < inputs.len() {
        inputs[channel] = (DeviceId::null(), 0usize);
    }
}

/// How many of the first `upto` calls of `runs` are calls of `device`.
pub open spec fn runs_of(runs: Seq<Run>, device: DeviceId, upto: int) -> nat
    decreases upto,
{
    if upto <= 0 {
        0
    } else {
        runs_of(runs, device, upto - 1) + (if runs[upto - 1].device == device {
            1nat
        } else {
            0nat
        })
    }
}

/// The store that call `k` of a cycle is handed: the store `first` that
/// the cycle begins with, or the store as the call before left it.
pub open spec fn store_before<T>(first: Seq<T>, steps: Seq<NodeCall<T>>, k: int) -> Seq<T> {
    if k <= 0 {
        first
    } else {
        left_of(steps[k - 1])
    }
}

/// The events that `device` has sent last, once the first `k` calls of a
/// cycle are made: those of its last call among them, or `held`, which it
/// sent before the cycle, where it has not been called yet.
pub open spec fn sent_before<T>(
    held: Seq<TimedMidiEvent>,
    runs: Seq<Run>,
    steps: Seq<NodeCall<T>>,
    device: DeviceId,
    k: int,
) -> Seq<TimedMidiEvent>
    decreases k,
{
    if k <= 0 {
        held
    } else if runs[k - 1].device == device {
        sent_of(steps[k - 1])
    } else {
        sent_before(held, runs, steps, device, k - 1)
    }
}

/// A node that is called again has been called once more.
proof fn lemma_runs_of_grows(runs: Seq<Run>, device: DeviceId, k: int, upto: int)
    requires
        0 <= k < upto,
        runs[k].device == device,
    ensures
        runs_of(runs, device, k) < runs_of(runs, device, upto),
    decreases upto,
{
    if k < upto - 1 {
        lemma_runs_of_grows(runs, device, k, upto - 1);
    }
}

/// What a node has sent last depends on the calls made so far alone.
proof fn lemma_sent_agrees<T>(
    held: Seq<TimedMidiEvent>,
    runs: Seq<Run>,
    steps: Seq<NodeCall<T>>,
    others: Seq<NodeCall<T>>,
    device: DeviceId,
    k: int,
)
    requires
        forall|j: int| 0 <= j < k ==> steps[j] == others[j],
    ensures
        sent_before(held, runs, steps, device, k) == sent_before(held, runs, others, device, k),
    decreases k,
{
    if k > 0 {
        lemma_sent_agrees(held, runs, steps, others, device, k - 1);
    }
}

struct Device {
    id: DeviceId,
    description: ProcessorDescription,
    audio_inputs: Vec<(DeviceId, usize)>,
    midi_input: DeviceId,
    audio_slots: Vec<usize>,
}

impl Device {
    spec fn view(&self) -> DeviceView {
        DeviceView {
            description: self.description,
            audio_inputs: self.audio_inputs@,
            midi_input: self.midi_input,
            audio_slots: self.audio_slots@,
        }
    }
}

/// The engine: a set of nodes, the wiring between them, and the store that
/// their audio passes through.
pub struct AudioEngine<T, P> {
    sample_rate: u32,
    silence: T,
    table: HandleTable,
    devices: Vec<Option<Device>>,
    nodes: Vec<Option<P>>,
    count: usize,
    audio_buffers: Vec<T>,
    midi_buffers: Vec<Vec<TimedMidiEvent>>,
    midi_scratch: Vec<TimedMidiEvent>,
    arena: Bump<1>,
    device_order: Vec<DeviceId>,
}

impl<T: Copy, P: Processor<T>> AudioEngine<T, P> {
    /// The table and the places agree: every handle given out leads to a
    /// place that holds the node of that handle, and every node in a place
    /// is found under its handle.
    pub closed spec fn wf(&self) -> bool {
        let entries = table_entries(self.table);
        &&& entries.dom().finite()
        &&& entries.dom().len() == self.count
        &&& self.midi_buffers@.len() == self.devices@.len()
        &&& self.nodes@.len() == self.devices@.len()
        &&& forall|i: int|
            0 <= i < self.devices@.len() ==> ((#[trigger] self.nodes@[i]) is Some
                <==> self.devices@[i] is Some)
        &&& forall|id: u64| #[trigger]
            entries.contains_key(id) ==> {
                &&& id == canonical(id)
                &&& !null_index(id)
                &&& entries[id] < self.devices@.len()
                &&& self.devices@[entries[id] as int] is Some
                &&& self.devices@[entries[id] as int]->Some_0.id.id() == id
            }
        &&& forall|i: int|
            0 <= i < self.devices@.len() && (#[trigger] self.devices@[i]) is Some ==> {
                &&& entries.contains_key(self.devices@[i]->Some_0.id.id())
                &&& entries[self.devices@[i]->Some_0.id.id()] == i
            }
    }

    /// The graph, without the nodes themselves and without the samples.
    pub closed spec fn view(&self) -> EngineView {
        let entries = table_entries(self.table);
        EngineView {
            sample_rate: self.sample_rate,
            devices: Map::new(
                |id: DeviceId| entries.contains_key(id.id()),
                |id: DeviceId| self.devices@[entries[id.id()] as int]->Some_0.view(),
            ),
            device_order: self.device_order@,
        }
    }

    /// The number of registered nodes.
    pub closed spec fn device_count_spec(&self) -> nat {
        table_entries(self.table).dom().len()
    }

    /// The value that stands for silence.
    pub closed spec fn silence(&self) -> T {
        self.silence
    }

    /// The sample store, as the last cycle left it.
    pub closed spec fn store(&self) -> Seq<T> {
        self.audio_buffers@
    }

    /// The node that `id` names, if it names one.
    pub closed spec fn node(&self, id: DeviceId) -> Option<P> {
        let entries = table_entries(self.table);
        if entries.contains_key(id.id()) {
            self.nodes@[entries[id.id()] as int]
        } else {
            None
        }
    }

    /// The account of a node is the account that the engine holds of it.
    pub proof fn lemma_node_calls(&self, id: DeviceId)
        ensures
            self.node_calls(id) == (match self.node(id) {
                Some(node) => node.calls(),
                None => Seq::empty(),
            }),
    {
    }

    /// The account of the node that `id` names: every call that the node
    /// has had, oldest first. Where `id` names no node, the account is
    /// empty.
    pub closed spec fn node_calls(&self, id: DeviceId) -> Seq<NodeCall<T>> {
        let entries = table_entries(self.table);
        if entries.contains_key(id.id()) && self.nodes@[entries[id.id()] as int] is Some {
            self.nodes@[entries[id.id()] as int]->Some_0.calls()
        } else {
            Seq::empty()
        }
    }

    /// The events that the node `id` sent when it last ran, which is what a
    /// node fed by it is handed. Where `id` names no node, there are none.
    pub closed spec fn midi_left(&self, id: DeviceId) -> Seq<TimedMidiEvent> {
        let entries = table_entries(self.table);
        if entries.contains_key(id.id()) {
            self.midi_buffers@[entries[id.id()] as int]@
        } else {
            Seq::empty()
        }
    }

    /// The numbers of the handles of the nodes that were removed, in the
    /// order in which they were removed.
    pub closed spec fn removed(&self) -> Seq<u64> {
        table_retired(self.table)
    }

    /// Whether this engine counts as many nodes as `before`, the same
    /// nodes were removed, and its silence and its store are the same.
    pub open spec fn keeps_store(&self, before: &Self) -> bool {
        &&& self.device_count_spec() == before.device_count_spec()
        &&& self.removed() == before.removed()
        &&& self.silence() == before.silence()
        &&& self.store() == before.store()
    }

    /// Whether no node of this engine has been called since `before`, and
    /// the events that the nodes sent last are the same.
    pub open spec fn same_nodes(&self, before: &Self) -> bool {
        &&& forall|id: DeviceId| #[trigger] self.node_calls(id) == before.node_calls(id)
        &&& forall|id: DeviceId| #[trigger] self.midi_left(id) == before.midi_left(id)
    }

    /// Whether this engine differs from `before` in nothing but its graph:
    /// it counts as many nodes, its silence and its store are the same,
    /// and so is every node.
    pub open spec fn keeps_rest(&self, before: &Self) -> bool {
        &&& self.keeps_store(before)
        &&& self.same_nodes(before)
    }

    /// The events that a cycle hands `device_id`: those that the node
    /// which feeds it has sent last, or none where no registered node
    /// feeds it.
    pub open spec fn events_for(&self, device_id: DeviceId) -> Seq<TimedMidiEvent> {
        if self@.devices.contains_key(self@.devices[device_id].midi_input) {
            self.midi_left(self@.devices[device_id].midi_input)
        } else {
            Seq::empty()
        }
    }

    /// Call `k` of the cycle that has brought the engine `before` here by
    /// the calls `runs`, as the account of the node called holds it.
    pub open spec fn step(&self, before: &Self, runs: Seq<Run>, k: int) -> NodeCall<T> {
        self.node_calls(runs[k].device)[(before.node_calls(runs[k].device).len() + runs_of(
            runs,
            runs[k].device,
            k,
        )) as int]
    }

    /// The calls of the cycle that has brought the engine `before` here by
    /// the calls `runs`, as the accounts of the nodes hold them.
    pub open spec fn steps(&self, before: &Self, runs: Seq<Run>) -> Seq<NodeCall<T>> {
        Seq::new(runs.len(), |k: int| self.step(before, runs, k))
    }

    /// Whether the first `upto` calls of `runs`, and no others, have
    /// brought the engine `before` here, where the first of them was handed
    /// the store `first`.
    ///
    /// The account of every node has grown by the calls of that node, and
    /// by nothing else. Every call is as `runs` says; it was handed the
    /// store as the call before it left it, and the events that the node
    /// which feeds it had sent last; it has left the store as long as it
    /// was, and every slot that is none of its outputs as it was. The
    /// store of the engine is the one that the last call left, and the
    /// events that a node has sent last are those of its last call.
    pub open spec fn cycle_made(
        &self,
        before: &Self,
        first: Seq<T>,
        runs: Seq<Run>,
        upto: int,
    ) -> bool {
        let steps = self.steps(before, runs);
        &&& 0 <= upto <= runs.len()
        &&& forall|id: DeviceId|
            #![trigger self.node_calls(id)]
            self.node_calls(id).len() == before.node_calls(id).len() + runs_of(runs, id, upto)
                && self.node_calls(id).take(before.node_calls(id).len() as int)
                == before.node_calls(id)
        &&& forall|k: int|
            0 <= k < upto ==> #[trigger] steps[k] == (NodeCall::Process {
                midi_in: match runs[k].midi_source {
                    Some(source) => sent_before(before.midi_left(source), runs, steps, source, k),
                    None => Seq::empty(),
                },
                samples: runs[k].samples,
                in_slots: runs[k].in_slots,
                out_slots: runs[k].out_slots,
                store: store_before(first, steps, k),
                left: left_of(steps[k]),
                sent: sent_of(steps[k]),
            }) && left_of(steps[k]).len() == first.len() && same_but_slots(
                store_before(first, steps, k),
                left_of(steps[k]),
                runs[k].samples as nat,
                runs[k].out_slots,
            )
        &&& self.store() == store_before(first, steps, upto)
        &&& forall|id: DeviceId| #[trigger]
            self.midi_left(id) == sent_before(before.midi_left(id), runs, steps, id, upto)
    }

    /// Every call of a cycle is handed a store as long as the first.
    pub proof fn lemma_store_len(
        &self,
        before: &Self,
        first: Seq<T>,
        runs: Seq<Run>,
        upto: int,
        k: int,
    )
        requires
            self.cycle_made(before, first, runs, upto),
            0 <= k <= upto,
        ensures
            store_before(first, self.steps(before, runs), k).len() == first.len(),
    {
        if k > 0 {
            assert(left_of(self.steps(before, runs)[k - 1]).len() == first.len());
        }
    }

    /// A slot that no call writes stays as it is: where none of the calls
    /// `from..to` of a cycle has `slot` among its outputs, call `to` is
    /// handed in that slot the samples that call `from` was handed there.
    pub proof fn lemma_slot_kept(
        &self,
        before: &Self,
        first: Seq<T>,
        runs: Seq<Run>,
        upto: int,
        len: usize,
        slot: usize,
        from: int,
        to: int,
    )
        requires
            self.cycle_made(before, first, runs, upto),
            0 <= from <= to <= upto,
            slot < slot_count(first.len(), len as nat),
            forall|k: int|
                from <= k < to ==> (#[trigger] runs[k]).samples == len && !runs[k].out_slots.contains(
                    slot,
                ),
        ensures
            slot_samples(store_before(first, self.steps(before, runs), to), slot, len as nat)
                == slot_samples(
                store_before(first, self.steps(before, runs), from),
                slot,
                len as nat,
            ),
        decreases to - from,
    {
        if from < to {
            let steps = self.steps(before, runs);
            self.lemma_slot_kept(before, first, runs, upto, len, slot, from, to - 1);
            self.lemma_store_len(before, first, runs, upto, to - 1);
            assert(runs[to - 1].samples == len);
            assert(same_but_slots(
                store_before(first, steps, to - 1),
                left_of(steps[to - 1]),
                len as nat,
                runs[to - 1].out_slots,
            ));
        }
    }

    /// A node that runs behind its source reads what the source has made
    /// in the same cycle. Where call `source` of a cycle writes `slot`, call
    /// `reader` behind it reads `slot`, and no call between them writes it,
    /// the reader is handed in that slot the samples that the source left
    /// there.
    pub proof fn lemma_reader_gets_what_source_left(
        &self,
        before: &Self,
        first: Seq<T>,
        runs: Seq<Run>,
        upto: int,
        len: usize,
        slot: usize,
        source: int,
        reader: int,
    )
        requires
            self.cycle_made(before, first, runs, upto),
            0 <= source < reader < upto,
            slot < slot_count(first.len(), len as nat),
            runs[source].out_slots.contains(slot),
            runs[reader].in_slots.contains(slot),
            forall|k: int|
                source < k < reader ==> (#[trigger] runs[k]).samples == len
                    && !runs[k].out_slots.contains(slot),
        ensures
            self.steps(before, runs)[reader] is Process,
            slot_samples(self.steps(before, runs)[reader]->store, slot, len as nat) == slot_samples(
                left_of(self.steps(before, runs)[source]),
                slot,
                len as nat,
            ),
    {
        self.lemma_slot_kept(before, first, runs, upto, len, slot, source + 1, reader);
    }

    /// Whether one cycle of blocks of `len` samples, with the calls `runs`
    /// and no others, has brought the engine `before` here.
    ///
    /// The first call was handed the store made ready for the cycle, and
    /// the calls went as [`AudioEngine::cycle_made`] says. Slot 0 is silent
    /// in the store that any of the calls was handed, and in the store as
    /// the cycle left it: it is what an input hears that nothing feeds.
    pub open spec fn cycled(&self, before: &Self, len: usize, runs: Seq<Run>) -> bool {
        let first = prepared_store(
            before.store(),
            (NUM_BUFFERS * len) as nat,
            len as nat,
            before.silence(),
        );
        &&& self.cycle_made(before, first, runs, runs.len() as int)
        &&& forall|k: int|
            0 <= k <= runs.len() ==> slot_samples(
                #[trigger] store_before(first, self.steps(before, runs), k),
                0,
                len as nat,
            ) == Seq::new(len as nat, |i: int| before.silence())
    }

    /// An input that nothing feeds hears silence, whatever the other nodes
    /// have written: in a cycle, a call with an input channel in slot 0,
    /// which is where a channel falls that is not wired, or whose source
    /// was removed or has no slot, is handed silence in that channel.
    pub proof fn lemma_unfed_input_is_silent(
        &self,
        before: &Self,
        len: usize,
        runs: Seq<Run>,
        reader: int,
        channel: int,
    )
        requires
            self.cycled(before, len, runs),
            0 <= reader < runs.len(),
            0 <= channel < runs[reader].in_slots.len(),
            runs[reader].in_slots[channel] == 0,
        ensures
            self.steps(before, runs)[reader] is Process,
            self.steps(before, runs)[reader]->in_slots[channel] == 0,
            slot_samples(self.steps(before, runs)[reader]->store, 0, len as nat) == Seq::new(
                len as nat,
                |i: int| before.silence(),
            ),
    {
        let first = prepared_store(
            before.store(),
            (NUM_BUFFERS * len) as nat,
            len as nat,
            before.silence(),
        );
        let handed = store_before(first, self.steps(before, runs), reader);
        assert(slot_samples(handed, 0, len as nat) == Seq::new(
            len as nat,
            |i: int| before.silence(),
        ));
    }

    /// A missing source is silence. In a cycle, a node with an input
    /// channel that is not wired, or whose source names no node, as after
    /// the source was removed, or whose source has no slot for the channel
    /// that feeds it, is handed silence in that channel, whatever the
    /// other nodes have written.
    pub proof fn lemma_missing_source_is_silence(
        &self,
        before: &Self,
        len: usize,
        reader: int,
        channel: int,
    )
        requires
            self.cycled(before, len, cycle_runs(before@, len)),
            0 <= reader < cycle_runs(before@, len).len(),
            0 <= channel < input_slots(before@, cycle_runs(before@, len)[reader].device).len(),
            ({
                let node = before@.devices[cycle_runs(before@, len)[reader].device];
                channel >= node.audio_inputs.len() || !before@.devices.contains_key(
                    node.audio_inputs[channel].0,
                ) || node.audio_inputs[channel].1
                    >= before@.devices[node.audio_inputs[channel].0].audio_slots.len()
            }),
        ensures
            self.steps(before, cycle_runs(before@, len))[reader] is Process,
            self.steps(before, cycle_runs(before@, len))[reader]->in_slots == input_slots(
                before@,
                cycle_runs(before@, len)[reader].device,
            ),
            slot_samples(
                self.steps(before, cycle_runs(before@, len))[reader]->store,
                self.steps(before, cycle_runs(before@, len))[reader]->in_slots[channel],
                len as nat,
            ) == Seq::new(len as nat, |i: int| before.silence()),
    {
        let runs = cycle_runs(before@, len);
        let id = runs[reader].device;
        lemma_enough_room(before@, len, most_slots_needed(before@, 0), 0);
        lemma_runs_are_planned(before@, len, most_slots_needed(before@, 0), 0);
        assert(runs[reader] == planned_run(before@, id, len));
        lemma_unfed_input_reads_first_slot(before@, id, channel);
        self.lemma_unfed_input_is_silent(before, len, runs, reader, channel);
    }

    /// A cycle keeps slot 0 silent: no call of a cycle writes it.
    proof fn lemma_cycled(&self, before: &Self, len: usize, room: nat)
        requires
            NUM_BUFFERS * len <= usize::MAX,
            self.cycle_made(
                before,
                prepared_store(
                    before.store(),
                    (NUM_BUFFERS * len) as nat,
                    len as nat,
                    before.silence(),
                ),
                cycle_runs_within(before@, len, room, 0),
                cycle_runs_within(before@, len, room, 0).len() as int,
            ),
        ensures
            self.cycled(before, len, cycle_runs_within(before@, len, room, 0)),
    {
        let runs = cycle_runs_within(before@, len, room, 0);
        let first = prepared_store(
            before.store(),
            (NUM_BUFFERS * len) as nat,
            len as nat,
            before.silence(),
        );
        let silent = Seq::new(len as nat, |i: int| before.silence());
        lemma_runs_spare_first_slot(before@, len, room, 0);
        assert(slot_samples(first, 0, len as nat) =~= silent);
        assert forall|k: int| 0 <= k <= runs.len() implies slot_samples(
            #[trigger] store_before(first, self.steps(before, runs), k),
            0,
            len as nat,
        ) == silent by {
            if k > 0 {
                assert(runs[0].samples == len && len > 0);
                assert(first.len() / (len as nat) == NUM_BUFFERS) by (nonlinear_arith)
                    requires
                        first.len() == NUM_BUFFERS * len,
                        len > 0,
                ;
                self.lemma_slot_kept(before, first, runs, runs.len() as int, len, 0, 0, k);
            }
        }
    }

    /// What is said of a cycle is said of the nodes, the store and the
    /// silence alone.
    proof fn lemma_cycled_same(
        &self,
        prev: &Self,
        start: &Self,
        before: &Self,
        len: usize,
        runs: Seq<Run>,
    )
        requires
            prev.cycled(start, len, runs),
            start.same_nodes(before),
            start.store() == before.store(),
            start.silence() == before.silence(),
            self.same_nodes(prev),
            self.store() == prev.store(),
        ensures
            self.cycled(before, len, runs),
    {
        let first = prepared_store(
            before.store(),
            (NUM_BUFFERS * len) as nat,
            len as nat,
            before.silence(),
        );
        prev.lemma_cycle_begun(start, before, first, runs, runs.len() as int);
        self.lemma_cycle_same(prev, before, first, runs, runs.len() as int);
        assert(self.steps(before, runs) =~= prev.steps(start, runs));
    }

    /// What is said of a cycle is said of the engine that it began with by
    /// its nodes alone.
    proof fn lemma_cycle_begun(
        &self,
        start: &Self,
        before: &Self,
        first: Seq<T>,
        runs: Seq<Run>,
        n: int,
    )
        requires
            self.cycle_made(start, first, runs, n),
            start.same_nodes(before),
        ensures
            self.cycle_made(before, first, runs, n),
    {
        assert(self.steps(before, runs) =~= self.steps(start, runs));
    }

    /// What is said of a cycle is said of the nodes and the store alone.
    proof fn lemma_cycle_same(
        &self,
        prev: &Self,
        before: &Self,
        first: Seq<T>,
        runs: Seq<Run>,
        n: int,
    )
        requires
            prev.cycle_made(before, first, runs, n),
            self.same_nodes(prev),
            self.store() == prev.store(),
        ensures
            self.cycle_made(before, first, runs, n),
    {
        assert(self.steps(before, runs) =~= prev.steps(before, runs));
    }

    /// One more call of a cycle: where the first `n` calls have brought
    /// the engine `before` to `prev`, and call `n` has brought `prev` here,
    /// the first `n + 1` calls have brought `before` here.
    proof fn lemma_cycle_grows(
        &self,
        prev: &Self,
        before: &Self,
        first: Seq<T>,
        runs: Seq<Run>,
        n: int,
    )
        requires
            prev.cycle_made(before, first, runs, n),
            n < runs.len(),
            self.node_calls(runs[n].device) == prev.node_calls(runs[n].device).push(
                NodeCall::Process {
                    midi_in: match runs[n].midi_source {
                        Some(source) => prev.midi_left(source),
                        None => Seq::empty(),
                    },
                    samples: runs[n].samples,
                    in_slots: runs[n].in_slots,
                    out_slots: runs[n].out_slots,
                    store: prev.store(),
                    left: self.store(),
                    sent: self.midi_left(runs[n].device),
                },
            ),
            self.store().len() == first.len(),
            same_but_slots(prev.store(), self.store(), runs[n].samples as nat, runs[n].out_slots),
            forall|other: DeviceId|
                other != runs[n].device ==> #[trigger] self.node_calls(other) == prev.node_calls(
                    other,
                ),
            forall|other: DeviceId|
                other != runs[n].device ==> #[trigger] self.midi_left(other) == prev.midi_left(
                    other,
                ),
        ensures
            self.cycle_made(before, first, runs, n + 1),
    {
        let device = runs[n].device;
        let steps = self.steps(before, runs);
        let earlier = prev.steps(before, runs);
        assert forall|k: int| 0 <= k < n implies steps[k] == earlier[k] by {
            lemma_runs_of_grows(runs, runs[k].device, k, n);
            assert(prev.node_calls(runs[k].device).len() == before.node_calls(runs[k].device).len()
                + runs_of(runs, runs[k].device, n));
        }
        assert(prev.node_calls(device).len() == before.node_calls(device).len() + runs_of(
            runs,
            device,
            n,
        ));
        assert(steps[n] == self.node_calls(device)[prev.node_calls(device).len() as int]);
        assert forall|id: DeviceId|
            #![trigger self.node_calls(id)]
            self.node_calls(id).len() == before.node_calls(id).len() + runs_of(runs, id, n + 1)
                && self.node_calls(id).take(before.node_calls(id).len() as int)
                == before.node_calls(id) by {
            assert(prev.node_calls(id).len() == before.node_calls(id).len() + runs_of(
                runs,
                id,
                n,
            ));
            assert(self.node_calls(id).take(before.node_calls(id).len() as int)
                =~= prev.node_calls(id).take(before.node_calls(id).len() as int));
        }
        assert forall|id: DeviceId| #[trigger]
            self.midi_left(id) == sent_before(before.midi_left(id), runs, steps, id, n + 1) by {
            lemma_sent_agrees(before.midi_left(id), runs, steps, earlier, id, n);
            assert(prev.midi_left(id) == sent_before(before.midi_left(id), runs, earlier, id, n));
        }
        assert forall|k: int| 0 <= k < n + 1 implies #[trigger] steps[k] == (NodeCall::Process {
            midi_in: match runs[k].midi_source {
                Some(source) => sent_before(before.midi_left(source), runs, steps, source, k),
                None => Seq::empty(),
            },
            samples: runs[k].samples,
            in_slots: runs[k].in_slots,
            out_slots: runs[k].out_slots,
            store: store_before(first, steps, k),
            left: left_of(steps[k]),
            sent: sent_of(steps[k]),
        }) && left_of(steps[k]).len() == first.len() && same_but_slots(
            store_before(first, steps, k),
            left_of(steps[k]),
            runs[k].samples as nat,
            runs[k].out_slots,
        ) by {
            match runs[k].midi_source {
                Some(source) => {
                    lemma_sent_agrees(before.midi_left(source), runs, steps, earlier, source, k);
                    if k == n {
                        assert(prev.midi_left(source) == sent_before(
                            before.midi_left(source),
                            runs,
                            earlier,
                            source,
                            n,
                        ));
                    }
                },
                None => {},
            }
            if k < n {
                assert(steps[k] == earlier[k]);
                assert(store_before(first, steps, k) == store_before(first, earlier, k));
            } else {
                assert(store_before(first, steps, n) == store_before(first, earlier, n));
                assert(prev.store() == store_before(first, earlier, n));
            }
        }
    }

    /// Makes an engine without nodes and without a sample rate. `silence`
    /// is the sample that unwritten channels hold.
    pub fn new(silence: T) -> (engine: Self)
        ensures
            engine.wf(),
            engine@.sample_rate == 0,
            engine@.devices == Map::<DeviceId, DeviceView>::empty(),
            engine@.device_order == Seq::<DeviceId>::empty(),
            engine.device_count_spec() == 0,
            engine.silence() == silence,
            engine.store() == Seq::<T>::empty(),
            engine.removed().len() == 0,
            forall|id: DeviceId| #[trigger] engine.node_calls(id) == Seq::<NodeCall<T>>::empty(),
            forall|id: DeviceId| #[trigger] engine.midi_left(id) == Seq::<TimedMidiEvent>::empty(),
    {
        let engine = AudioEngine {
            sample_rate: 0,
            silence,
            table: table_new(),
            devices: Vec::new(),
            nodes: Vec::new(),
            count: 0,
            audio_buffers: Vec::new(),
            midi_buffers: Vec::new(),
            midi_scratch: Vec::new(),
            arena: arena_new(),
            device_order: Vec::new(),
        };
        assert(engine@.devices =~= Map::<DeviceId, DeviceView>::empty());
        engine
    }

    /// The number of registered nodes.
    pub fn device_count(&self) -> (count: usize)
        requires
            self.wf(),
        ensures
            count == self.device_count_spec(),
    {
        self.count
    }

    /// Whether `device_id` names a registered node.
    pub fn contains(&self, device_id: DeviceId) -> (found: bool)
        requires
            self.wf(),
        ensures
            found == self@.devices.contains_key(device_id),
    {
        let bits = device_id.to_bits();
        table_get(&self.table, bits).is_some()
    }
    /// The place of a registered node.
    fn place_of(&self, device_id: DeviceId) -> (place: Option<usize>)
        requires
            self.wf(),
        ensures
            place is Some <==> self@.devices.contains_key(device_id),
            place is Some ==> {
                &&& place->Some_0 < self.devices@.len()
                &&& self.devices@[place->Some_0 as int] is Some
                &&& self.devices@[place->Some_0 as int]->Some_0.id == device_id
                &&& self.devices@[place->Some_0 as int]->Some_0.view() == self@.devices[device_id]
                &&& table_entries(self.table).contains_key(device_id.id())
                &&& table_entries(self.table)[device_id.id()] == place->Some_0
            },
    {
        let bits = device_id.to_bits();
        proof {
            lemma_handles_by_number();
        }
        table_get(&self.table, bits)
    }

    /// Registers a node under a description given by the caller, and
    /// returns its handle. The node starts without wiring and without
    /// slots. It is not told the sample rate.
    pub fn add_described_device(&mut self, device: P, description: ProcessorDescription) -> (id:
        DeviceId)
        requires
            old(self).wf(),
            old(self).device_count_spec() <= MAX_DEVICES,
        ensures
            final(self).wf(),
            !id.is_null(),
            !old(self)@.devices.contains_key(id),
            final(self)@ == (EngineView {
                devices: old(self)@.devices.insert(
                    id,
                    DeviceView {
                        description,
                        audio_inputs: Seq::empty(),
                        midi_input: DeviceId::null_spec(),
                        audio_slots: Seq::empty(),
                    },
                ),
                ..old(self)@
            }),
            final(self).device_count_spec() == old(self).device_count_spec() + 1,
            final(self).silence() == old(self).silence(),
            final(self).store() == old(self).store(),
            final(self).removed() == old(self).removed(),
            old(self).removed().len() < MAX_RETIRED ==> !old(self).removed().contains(id.id()),
            final(self).node(id) == Some(device),
            final(self).node_calls(id) == device.calls(),
            final(self).midi_left(id) == Seq::<TimedMidiEvent>::empty(),
            forall|other: DeviceId|
                other != id ==> #[trigger] final(self).node_calls(other) == old(self).node_calls(
                    other,
                ),
            forall|other: DeviceId|
                other != id ==> #[trigger] final(self).midi_left(other) == old(self).midi_left(
                    other,
                ),
    {
        let mut place: usize = 0;
        while place < self.devices.len() && self.devices[place].is_some()
            invariant
                place <= self.devices@.len(),
                *self == *old(self),
            decreases self.devices@.len() - place,
        {
            place += 1;
        }
        if place == self.devices.len() {
            self.devices.push(None);
            self.nodes.push(None);
            self.midi_buffers.push(Vec::new());
        }
        let bits = table_insert(&mut self.table, place);
        let id = DeviceId::from_table(bits);
        self.devices[place] = Some(
            Device {
                id,
                description,
                audio_inputs: Vec::new(),
                midi_input: DeviceId::null(),
                audio_slots: Vec::new(),
            },
        );
        self.nodes[place] = Some(device);
        self.midi_buffers[place] = Vec::new();
        self.count = self.count + 1;
        proof {
            lemma_handles_by_number();
            let before = table_entries(old(self).table);
            let after = table_entries(self.table);
            assert(after.dom() =~= before.dom().insert(bits));
            assert forall|i: int|
                0 <= i < self.devices@.len() && (#[trigger] self.devices@[i]) is Some implies {
                &&& after.contains_key(self.devices@[i]->Some_0.id.id())
                &&& after[self.devices@[i]->Some_0.id.id()] == i
            } by {
                if i != place {
                    assert(old(self).devices@[i] is Some);
                }
            }
            assert forall|other: u64| #[trigger] after.contains_key(other) implies {
                &&& other == canonical(other)
                &&& !null_index(other)
                &&& after[other] < self.devices@.len()
                &&& self.devices@[after[other] as int] is Some
                &&& self.devices@[after[other] as int]->Some_0.id.id() == other
            } by {
                if other != bits {
                    assert(before.contains_key(other));
                }
            }
            assert(self@.devices =~= old(self)@.devices.insert(
                id,
                DeviceView {
                    description,
                    audio_inputs: Seq::empty(),
                    midi_input: DeviceId::null_spec(),
                    audio_slots: Seq::empty(),
                },
            )) by {
                assert forall|other: DeviceId| #[trigger]
                    old(self)@.devices.contains_key(other) implies self@.devices[other] == old(
                    self,
                )@.devices[other] by {
                    assert(before.contains_key(other.id()));
                }
            }
            assert forall|other: DeviceId| other != id implies #[trigger] self.node_calls(other)
                == old(self).node_calls(other) && #[trigger] self.midi_left(other) == old(
                self,
            ).midi_left(other) by {
                if before.contains_key(other.id()) {
                    assert(old(self).devices@[before[other.id()] as int] is Some);
                }
            }
        }
        id
    }

    /// Registers a node and returns its handle. The node is asked for its
    /// description, and is told the sample rate if one is set.
    pub fn add_device(&mut self, device: P) -> (id: DeviceId)
        requires
            old(self).wf(),
            old(self).device_count_spec() <= MAX_DEVICES,
        ensures
            final(self).wf(),
            !id.is_null(),
            !old(self)@.devices.contains_key(id),
            final(self)@.devices.dom() == old(self)@.devices.dom().insert(id),
            forall|other: DeviceId|
                old(self)@.devices.contains_key(other) ==> final(self)@.devices[other] == old(
                    self,
                )@.devices[other],
            final(self)@.devices[id].audio_inputs == Seq::<(DeviceId, usize)>::empty(),
            final(self)@.devices[id].midi_input == DeviceId::null_spec(),
            final(self)@.devices[id].audio_slots == Seq::<usize>::empty(),
            final(self)@.sample_rate == old(self)@.sample_rate,
            final(self)@.device_order == old(self)@.device_order,
            final(self).device_count_spec() == old(self).device_count_spec() + 1,
            final(self).silence() == old(self).silence(),
            final(self).store() == old(self).store(),
            final(self).removed() == old(self).removed(),
            old(self).removed().len() < MAX_RETIRED ==> !old(self).removed().contains(id.id()),
            final(self).node_calls(id) == (if old(self)@.sample_rate > 0 {
                device.calls().push(NodeCall::SetSampleRate { sample_rate: old(self)@.sample_rate })
            } else {
                device.calls()
            }),
            final(self).midi_left(id) == Seq::<TimedMidiEvent>::empty(),
            forall|other: DeviceId|
                other != id ==> #[trigger] final(self).node_calls(other) == old(self).node_calls(
                    other,
                ),
            forall|other: DeviceId|
                other != id ==> #[trigger] final(self).midi_left(other) == old(self).midi_left(
                    other,
                ),
    {
        let mut device = device;
        let description = device.description();
        if self.sample_rate > 0 {
            device.set_sample_rate(self.sample_rate);
        }
        self.add_described_device(device, description)
    }

    /// Registers a node as [`AudioEngine::add_device`] does, unless the
    /// engine holds as many nodes as it can: then the node is dropped and
    /// nothing comes back.
    pub fn try_add_device(&mut self, device: P) -> (id: Option<DeviceId>)
        requires
            old(self).wf(),
        ensures
            final(self).wf(),
            id is Some <==> old(self).device_count_spec() <= MAX_DEVICES,
            id is None ==> final(self)@ == old(self)@ && final(self).device_count_spec() == old(
                self,
            ).device_count_spec(),
            id matches Some(handle) ==> {
                &&& !handle.is_null()
                &&& !old(self)@.devices.contains_key(handle)
                &&& final(self)@.devices.dom() == old(self)@.devices.dom().insert(handle)
                &&& forall|other: DeviceId|
                    old(self)@.devices.contains_key(other) ==> final(self)@.devices[other] == old(
                        self,
                    )@.devices[other]
                &&& final(self)@.devices[handle].audio_inputs == Seq::<(DeviceId, usize)>::empty()
                &&& final(self)@.devices[handle].midi_input == DeviceId::null_spec()
                &&& final(self)@.devices[handle].audio_slots == Seq::<usize>::empty()
                &&& final(self)@.sample_rate == old(self)@.sample_rate
                &&& final(self)@.device_order == old(self)@.device_order
                &&& final(self).device_count_spec() == old(self).device_count_spec() + 1
                &&& final(self).node_calls(handle) == (if old(self)@.sample_rate > 0 {
                    device.calls().push(
                        NodeCall::SetSampleRate { sample_rate: old(self)@.sample_rate },
                    )
                } else {
                    device.calls()
                })
                &&& forall|other: DeviceId|
                    other != handle ==> #[trigger] final(self).node_calls(other) == old(
                        self,
                    ).node_calls(other)
                &&& forall|other: DeviceId|
                    other != handle ==> #[trigger] final(self).midi_left(other) == old(
                        self,
                    ).midi_left(other)
            },
            id is None ==> final(self).same_nodes(old(self)),
            id matches Some(handle) ==> (old(self).removed().len() < MAX_RETIRED ==> !old(
                self,
            ).removed().contains(handle.id())),
            final(self).removed() == old(self).removed(),
            final(self).silence() == old(self).silence(),
            final(self).store() == old(self).store(),
    {
        if self.count <= MAX_DEVICES {
            Some(self.add_device(device))
        } else {
            None
        }
    }

    /// Takes a node out of the graph. Its handle names nothing from now on;
    /// wiring that leads to it stays and reads silence.
    pub fn remove_device(&mut self, device_id: DeviceId)
        requires
            old(self).wf(),
        ensures
            final(self).wf(),
            final(self)@ == (EngineView {
                devices: old(self)@.devices.remove(device_id),
                ..old(self)@
            }),
            final(self).device_count_spec() == (if old(self)@.devices.contains_key(device_id) {
                old(self).device_count_spec() - 1
            } else {
                old(self).device_count_spec() as int
            }),
            final(self).silence() == old(self).silence(),
            final(self).store() == old(self).store(),
            final(self).removed() == (if old(self)@.devices.contains_key(device_id) {
                old(self).removed().push(device_id.id())
            } else {
                old(self).removed()
            }),
            final(self).node_calls(device_id) == Seq::<NodeCall<T>>::empty(),
            final(self).midi_left(device_id) == Seq::<TimedMidiEvent>::empty(),
            forall|other: DeviceId|
                other != device_id ==> #[trigger] final(self).node_calls(other) == old(
                    self,
                ).node_calls(other),
            forall|other: DeviceId|
                other != device_id ==> #[trigger] final(self).midi_left(other) == old(
                    self,
                ).midi_left(other),
    {
        let bits = device_id.to_bits();
        match table_remove(&mut self.table, bits) {
            Some(place) => {
                self.devices[place] = None;
                self.nodes[place] = None;
                self.midi_buffers[place] = Vec::new();
                self.count = self.count - 1;
                proof {
                    lemma_handles_by_number();
                    let before = table_entries(old(self).table);
                    let after = table_entries(self.table);
                    assert(after.dom() =~= before.dom().remove(bits));
                    assert(before.contains_key(bits));
                    assert forall|i: int|
                        0 <= i < self.devices@.len() && (#[trigger] self.devices@[i]) is Some implies {
                        &&& after.contains_key(self.devices@[i]->Some_0.id.id())
                        &&& after[self.devices@[i]->Some_0.id.id()] == i
                    } by {
                        assert(old(self).devices@[i] is Some);
                    }
                    assert forall|other: u64| #[trigger] after.contains_key(other) implies {
                        &&& other == canonical(other)
                        &&& !null_index(other)
                        &&& after[other] < self.devices@.len()
                        &&& self.devices@[after[other] as int] is Some
                        &&& self.devices@[after[other] as int]->Some_0.id.id() == other
                    } by {
                        assert(before.contains_key(other));
                    }
                    assert(self@.devices =~= old(self)@.devices.remove(device_id)) by {
                        assert forall|other: DeviceId| #[trigger]
                            self@.devices.contains_key(other) implies self@.devices[other] == old(
                            self,
                        )@.devices[other] by {
                            assert(before.contains_key(other.id()));
                        }
                    }
                    assert forall|other: DeviceId| other != device_id implies #[trigger]
                        self.node_calls(other) == old(self).node_calls(other)
                        && #[trigger] self.midi_left(other) == old(self).midi_left(other) by {
                        if before.contains_key(other.id()) {
                            assert(old(self).devices@[before[other.id()] as int] is Some);
                        }
                    }
                }
            },
            None => {
                proof {
                    assert(table_entries(self.table) =~= table_entries(old(self).table));
                    assert(self@.devices =~= old(self)@.devices.remove(device_id));
                }
            },
        }
    }
    /// What changing the record of one node, and nothing else, does to the
    /// graph.
    proof fn lemma_device_replaced(before: Self, after: Self, place: int, device_id: DeviceId)
        requires
            before.wf(),
            table_entries(before.table).contains_key(device_id.id()),
            table_entries(before.table)[device_id.id()] == place,
            after.table == before.table,
            after.count == before.count,
            after.nodes == before.nodes,
            after.midi_buffers@.len() == before.midi_buffers@.len(),
            after.devices@.len() == before.devices@.len(),
            after.devices@[place] is Some,
            after.devices@[place]->Some_0.id == device_id,
            forall|i: int|
                0 <= i < before.devices@.len() && i != place ==> after.devices@[i]
                    == before.devices@[i],
        ensures
            after.wf(),
            after@.devices == before@.devices.insert(
                device_id,
                after.devices@[place]->Some_0.view(),
            ),
    {
        lemma_handles_by_number();
        let entries = table_entries(before.table);
        assert forall|i: int|
            0 <= i < after.devices@.len() && (#[trigger] after.devices@[i]) is Some implies {
            &&& entries.contains_key(after.devices@[i]->Some_0.id.id())
            &&& entries[after.devices@[i]->Some_0.id.id()] == i
        } by {
            if i != place {
                assert(before.devices@[i] is Some);
            }
        }
        assert(after@.devices =~= before@.devices.insert(
            device_id,
            after.devices@[place]->Some_0.view(),
        ));
    }

    /// Feeds input channel `dst_channel` of `dst_device` from output channel
    /// `src_channel` of `src_device`. The wiring of the node grows as far as
    /// the channel, by channels that nothing feeds. Where `dst_device` names
    /// no node, nothing changes.
    pub fn set_audio_input(
        &mut self,
        src_device: DeviceId,
        src_channel: usize,
        dst_device: DeviceId,
        dst_channel: usize,
    )
        requires
            old(self).wf(),
            dst_channel < usize::MAX,
        ensures
            final(self).wf(),
            final(self)@ == (if old(self)@.devices.contains_key(dst_device) {
                EngineView {
                    devices: old(self)@.devices.insert(
                        dst_device,
                        DeviceView {
                            audio_inputs: wire(
                                old(self)@.devices[dst_device].audio_inputs,
                                dst_channel,
                                (src_device, src_channel),
                            ),
                            ..old(self)@.devices[dst_device]
                        },
                    ),
                    ..old(self)@
                }
            } else {
                old(self)@
            }),
            final(self).keeps_rest(old(self)),
    {
        match self.place_of(dst_device) {
            Some(place) => {
                match &mut self.devices[place] {
                    Some(device) => {
                        wire_input(&mut device.audio_inputs, dst_channel, (src_device, src_channel));
                    },
                    None => {},
                }
                proof {
                    Self::lemma_device_replaced(*old(self), *self, place as int, dst_device);
                }
            },
            None => {},
        }
    }

    /// Cuts input channel `dst_channel` of `dst_device` off. Where the
    /// wiring of the node does not reach the channel, or `dst_device` names
    /// no node, nothing changes.
    pub fn remove_audio_input(&mut self, dst_device: DeviceId, dst_channel: usize)
        requires
            old(self).wf(),
        ensures
            final(self).wf(),
            final(self)@ == (if old(self)@.devices.contains_key(dst_device) {
                EngineView {
                    devices: old(self)@.devices.insert(
                        dst_device,
                        DeviceView {
                            audio_inputs: unwire(
                                old(self)@.devices[dst_device].audio_inputs,
                                dst_channel,
                            ),
                            ..old(self)@.devices[dst_device]
                        },
                    ),
                    ..old(self)@
                }
            } else {
                old(self)@
            }),
            final(self).keeps_rest(old(self)),
    {
        match self.place_of(dst_device) {
            Some(place) => {
                match &mut self.devices[place] {
                    Some(device) => {
                        unwire_input(&mut device.audio_inputs, dst_channel);
                    },
                    None => {},
                }
                proof {
                    Self::lemma_device_replaced(*old(self), *self, place as int, dst_device);
                }
            },
            None => {},
        }
    }

    /// Lets `dst_device` receive the events that `src_device` sends. A node
    /// has one source of events at most. Where `dst_device` names no node,
    /// nothing changes.
    pub fn set_midi_input(&mut self, src_device: DeviceId, dst_device: DeviceId)
        requires
            old(self).wf(),
        ensures
            final(self).wf(),
            final(self)@ == (if old(self)@.devices.contains_key(dst_device) {
                EngineView {
                    devices: old(self)@.devices.insert(
                        dst_device,
                        DeviceView { midi_input: src_device, ..old(self)@.devices[dst_device] },
                    ),
                    ..old(self)@
                }
            } else {
                old(self)@
            }),
            final(self).keeps_rest(old(self)),
    {
        match self.place_of(dst_device) {
            Some(place) => {
                match &mut self.devices[place] {
                    Some(device) => {
                        device.midi_input = src_device;
                    },
                    None => {},
                }
                proof {
                    Self::lemma_device_replaced(*old(self), *self, place as int, dst_device);
                }
            },
            None => {},
        }
    }

    /// Leaves `dst_device` without a source of events.
    pub fn remove_midi_input(&mut self, dst_device: DeviceId)
        requires
            old(self).wf(),
        ensures
            final(self).wf(),
            final(self)@ == (if old(self)@.devices.contains_key(dst_device) {
                EngineView {
                    devices: old(self)@.devices.insert(
                        dst_device,
                        DeviceView {
                            midi_input: DeviceId::null_spec(),
                            ..old(self)@.devices[dst_device]
                        },
                    ),
                    ..old(self)@
                }
            } else {
                old(self)@
            }),
            final(self).keeps_rest(old(self)),
    {
        self.set_midi_input(DeviceId::null(), dst_device)
    }

    /// Gives output channel `channel` of `device_id` the slot `slot` of the
    /// store to write to. The list of the node's slots grows as far as the
    /// channel, by channels without a slot. Slot 0 stands for no slot: it
    /// is kept silent, and a cycle stops at a node with an output channel
    /// there. Where `device_id` names no node, nothing changes.
    pub fn set_audio_slot(&mut self, device_id: DeviceId, channel: usize, slot: usize)
        requires
            old(self).wf(),
            channel < usize::MAX,
        ensures
            final(self).wf(),
            final(self)@ == (if old(self)@.devices.contains_key(device_id) {
                EngineView {
                    devices: old(self)@.devices.insert(
                        device_id,
                        DeviceView {
                            audio_slots: assign(
                                old(self)@.devices[device_id].audio_slots,
                                channel,
                                slot,
                            ),
                            ..old(self)@.devices[device_id]
                        },
                    ),
                    ..old(self)@
                }
            } else {
                old(self)@
            }),
            final(self).keeps_rest(old(self)),
    {
        match self.place_of(device_id) {
            Some(place) => {
                match &mut self.devices[place] {
                    Some(device) => {
                        assign_slot(&mut device.audio_slots, channel, slot);
                    },
                    None => {},
                }
                proof {
                    Self::lemma_device_replaced(*old(self), *self, place as int, device_id);
                }
            },
            None => {},
        }
    }

    /// Sets the order in which a cycle runs the nodes.
    pub fn set_device_order(&mut self, order: &[DeviceId])
        requires
            old(self).wf(),
        ensures
            final(self).wf(),
            final(self)@ == (EngineView { device_order: order@, ..old(self)@ }),
            final(self).keeps_rest(old(self)),
    {
        self.device_order.clear();
        let mut k: usize = 0;
        while k < order.len()
            invariant
                k <= order@.len(),
                self.device_order@ == order@.take(k as int),
                *self == (AudioEngine { device_order: self.device_order, ..*old(self) }),
            decreases order@.len() - k,
        {
            self.device_order.push(order[k]);
            assert(self.device_order@ =~= order@.take(k + 1));
            k += 1;
        }
        assert(self.device_order@ =~= order@);
    }

    /// The node that `device_id` names, to change it in place.
    pub fn get_device_mut(&mut self, device_id: DeviceId) -> (device: Option<&mut P>)
        requires
            old(self).wf(),
        ensures
            device is Some <==> old(self)@.devices.contains_key(device_id),
            device matches Some(node) ==> old(self).node(device_id) == Some(*node),
            device matches Some(node) ==> final(self).node(device_id) == Some(*final(node)),
            device matches Some(node) ==> node.calls() == old(self).node_calls(device_id),
            device matches Some(node) ==> final(self).node_calls(device_id) == final(node).calls(),
            forall|other: DeviceId|
                other != device_id ==> #[trigger] final(self).node_calls(other) == old(
                    self,
                ).node_calls(other),
            forall|other: DeviceId| #[trigger] final(self).midi_left(other) == old(self).midi_left(other),
            final(self).wf(),
            final(self)@ == old(self)@,
            final(self).keeps_store(old(self)),
    {
        proof {
            lemma_handles_by_number();
        }
        match self.place_of(device_id) {
            Some(place) => {
                match &mut self.nodes[place] {
                    Some(node) => Some(node),
                    None => None,
                }
            },
            None => None,
        }
    }

    /// Sets one parameter of a node, and tells whether the node exists.
    pub fn set_parameter(&mut self, device_id: DeviceId, param_id: usize, value: T) -> (found: bool)
        requires
            old(self).wf(),
        ensures
            final(self).wf(),
            final(self)@ == old(self)@,
            found == old(self)@.devices.contains_key(device_id),
            final(self).keeps_store(old(self)),
            found ==> final(self).node_calls(device_id) == old(self).node_calls(device_id).push(
                NodeCall::SetParameter { param_id, value },
            ),
            forall|other: DeviceId|
                other != device_id || !found ==> #[trigger] final(self).node_calls(other) == old(
                    self,
                ).node_calls(other),
            forall|other: DeviceId| #[trigger] final(self).midi_left(other) == old(self).midi_left(other),
    {
        proof {
            lemma_handles_by_number();
        }
        match self.place_of(device_id) {
            Some(place) => {
                match &mut self.nodes[place] {
                    Some(node) => {
                        node.set_parameter(param_id, value);
                    },
                    None => {},
                }
                true
            },
            None => false,
        }
    }

    /// Sets the sample rate and tells it to every registered node.
    pub fn set_sample_rate(&mut self, sample_rate: u32)
        requires
            old(self).wf(),
        ensures
            final(self).wf(),
            final(self)@ == (EngineView { sample_rate, ..old(self)@ }),
            final(self).keeps_store(old(self)),
            forall|id: DeviceId|
                old(self)@.devices.contains_key(id) ==> #[trigger] final(self).node_calls(id) == old(
                    self,
                ).node_calls(id).push(NodeCall::SetSampleRate { sample_rate }),
            forall|id: DeviceId| #[trigger] final(self).midi_left(id) == old(self).midi_left(id),
    {
        self.sample_rate = sample_rate;
        let mut place: usize = 0;
        while place < self.nodes.len()
            invariant
                self.wf(),
                self@ == (EngineView { sample_rate, ..old(self)@ }),
                self.keeps_store(old(self)),
                self.table == old(self).table,
                self.midi_buffers == old(self).midi_buffers,
                self.nodes@.len() == old(self).nodes@.len(),
                place <= self.nodes@.len(),
                forall|i: int|
                    0 <= i < place && old(self).nodes@[i] is Some ==> (#[trigger] self.nodes@[i])
                        is Some && self.nodes@[i]->Some_0.calls() == old(
                        self,
                    ).nodes@[i]->Some_0.calls().push(NodeCall::SetSampleRate { sample_rate }),
                forall|i: int|
                    place <= i < self.nodes@.len() ==> #[trigger] self.nodes@[i] == old(
                        self,
                    ).nodes@[i],
            decreases self.nodes@.len() - place,
        {
            match &mut self.nodes[place] {
                Some(node) => {
                    node.set_sample_rate(sample_rate);
                },
                None => {},
            }
            place += 1;
        }
    }
    /// The slot that an input channel fed from `source` reads.
    fn slot_of_source(&self, source: (DeviceId, usize)) -> (slot: usize)
        requires
            self.wf(),
        ensures
            slot == source_slot(self@, source),
    {
        match self.place_of(source.0) {
            Some(place) => {
                match &self.devices[place] {
                    Some(device) => {
                        if source.1 < device.audio_slots.len() {
                            device.audio_slots[source.1]
                        } else {
                            0
                        }
                    },
                    None => 0,
                }
            },
            None => 0,
        }
    }

    /// The number of slots that the node at `place` reads, and the number
    /// that it writes.
    fn slot_counts(&self, place: usize, device_id: DeviceId) -> (counts: (usize, usize))
        requires
            self.wf(),
            self@.devices.contains_key(device_id),
            place < self.devices@.len(),
            self.devices@[place as int] is Some,
            self.devices@[place as int]->Some_0.view() == self@.devices[device_id],
            self@.devices[device_id].description.min_audio_ins
                <= self@.devices[device_id].description.max_audio_ins,
        ensures
            counts.0 == input_slots(self@, device_id).len(),
            counts.1 == output_slots(self@, device_id).len(),
    {
        match &self.devices[place] {
            Some(device) => {
                let wired = device.audio_inputs.len();
                let description = device.description;
                let inputs = if wired < description.min_audio_ins {
                    description.min_audio_ins
                } else if wired > description.max_audio_ins {
                    description.max_audio_ins
                } else {
                    wired
                };
                (inputs, description.num_audio_outs)
            },
            None => (0, 0),
        }
    }

    /// Lists the slots that the node at `place` reads, and behind them the
    /// slots that it writes, at the start of `slots`.
    fn fill_slots(
        &self,
        place: usize,
        device_id: DeviceId,
        slots: &mut [usize],
        inputs: usize,
        outputs: usize,
    )
        requires
            self.wf(),
            self@.devices.contains_key(device_id),
            place < self.devices@.len(),
            self.devices@[place as int] is Some,
            self.devices@[place as int]->Some_0.view() == self@.devices[device_id],
            inputs == input_slots(self@, device_id).len(),
            outputs == output_slots(self@, device_id).len(),
            inputs + outputs <= old(slots)@.len(),
        ensures
            final(slots)@.len() == old(slots)@.len(),
            final(slots)@.subrange(0, inputs as int) == input_slots(self@, device_id),
            final(slots)@.subrange(inputs as int, inputs + outputs) == output_slots(
                self@,
                device_id,
            ),
    {
        let room = slots.len();
        match &self.devices[place] {
            Some(device) => {
                let wired = device.audio_inputs.len();
                let assigned = device.audio_slots.len();
                let mut ch: usize = 0;
                while ch < inputs
                    invariant
                        self.wf(),
                        self@.devices.contains_key(device_id),
                        device.view() == self@.devices[device_id],
                        wired == device.audio_inputs@.len(),
                        inputs == input_slots(self@, device_id).len(),
                        ch <= inputs,
                        inputs + outputs <= slots@.len(),
                        slots@.len() == room,
                        forall|c: int|
                            0 <= c < ch ==> #[trigger] slots@[c] == input_slots(self@, device_id)[c],
                    decreases inputs - ch,
                {
                    let slot = if ch < wired {
                        self.slot_of_source(device.audio_inputs[ch])
                    } else {
                        0
                    };
                    slots[ch] = slot;
                    ch += 1;
                }
                ch = 0;
                while ch < outputs
                    invariant
                        device.view() == self@.devices[device_id],
                        assigned == device.audio_slots@.len(),
                        outputs == output_slots(self@, device_id).len(),
                        ch <= outputs,
                        inputs + outputs <= slots@.len(),
                        slots@.len() == room,
                        forall|c: int|
                            0 <= c < inputs ==> #[trigger] slots@[c] == input_slots(
                                self@,
                                device_id,
                            )[c],
                        forall|p: int|
                            inputs <= p < inputs + ch ==> #[trigger] slots@[p] == output_slots(
                                self@,
                                device_id,
                            )[p - inputs],
                    decreases outputs - ch,
                {
                    let slot = if ch < assigned {
                        device.audio_slots[ch]
                    } else {
                        0
                    };
                    slots[inputs + ch] = slot;
                    ch += 1;
                }
                assert(slots@.subrange(0, inputs as int) =~= input_slots(self@, device_id));
                assert(slots@.subrange(inputs as int, inputs + outputs) =~= output_slots(
                    self@,
                    device_id,
                ));
            },
            None => {},
        }
    }

    /// Whether `slot` is among `slots`.
    fn holds_slot(slots: &[usize], slot: usize) -> (held: bool)
        ensures
            held == slots@.contains(slot),
    {
        let mut at: usize = 0;
        while at < slots.len()
            invariant
                at <= slots@.len(),
                forall|c: int| 0 <= c < at ==> slots@[c] != slot,
            decreases slots@.len() - at,
        {
            if slots[at] == slot {
                return true;
            }
            at += 1;
        }
        false
    }

    /// Runs the node at `place` on the slots given, if the guard accepts
    /// them. The events that the node sends replace those it sent in the
    /// cycle before.
    fn run_device(
        &mut self,
        place: usize,
        device_id: DeviceId,
        len: usize,
        in_slots: &[usize],
        out_slots: &[usize],
    ) -> (r: Result<(), BorrowError>)
        requires
            old(self).wf(),
            old(self)@.devices.contains_key(device_id),
            table_entries(old(self).table)[device_id.id()] == place,
            NUM_BUFFERS * len <= usize::MAX,
            old(self).audio_buffers@.len() == NUM_BUFFERS * len,
        ensures
            final(self).wf(),
            final(self)@ == old(self)@,
            final(self).device_count_spec() == old(self).device_count_spec(),
            final(self).removed() == old(self).removed(),
            final(self).silence() == old(self).silence(),
            final(self).audio_buffers@.len() == NUM_BUFFERS * len,
            match guard((NUM_BUFFERS * len) as nat, len, in_slots@, out_slots@) {
                Ok(_) => {
                    &&& r == Ok::<(), BorrowError>(())
                    &&& final(self).node_calls(device_id) == old(self).node_calls(device_id).push(
                        NodeCall::Process {
                            midi_in: old(self).events_for(device_id),
                            samples: len,
                            in_slots: in_slots@,
                            out_slots: out_slots@,
                            store: old(self).store(),
                            left: final(self).store(),
                            sent: final(self).midi_left(device_id),
                        },
                    )
                    &&& same_but_slots(
                        old(self).store(),
                        final(self).store(),
                        len as nat,
                        out_slots@,
                    )
                    &&& forall|other: DeviceId|
                        other != device_id ==> #[trigger] final(self).node_calls(other) == old(
                            self,
                        ).node_calls(other)
                    &&& forall|other: DeviceId|
                        other != device_id ==> #[trigger] final(self).midi_left(other) == old(
                            self,
                        ).midi_left(other)
                },
                Err(e) => r == Err::<(), BorrowError>(e) && final(self).store() == old(self).store()
                    && final(self).same_nodes(old(self)),
            },
    {
        proof {
            lemma_handles_by_number();
            assert(table_entries(self.table).contains_key(device_id.id()));
            assert(self.devices@[place as int]->Some_0.id == device_id);
        }
        let source = match &self.devices[place] {
            Some(device) => self.place_of(device.midi_input),
            None => None,
        };
        match check_borrows(self.audio_buffers.len(), len, in_slots, out_slots) {
            Ok(()) => {
                let mut store: Vec<T> = Vec::new();
                std::mem::swap(&mut self.audio_buffers, &mut store);
                let mut block = borrow_buffers(store, len, in_slots, out_slots);
                self.midi_scratch.clear();
                let no_events: Vec<TimedMidiEvent> = Vec::new();
                match &mut self.nodes[place] {
                    Some(node) => {
                        let midi_in = match source {
                            Some(from) => self.midi_buffers[from].as_slice(),
                            None => no_events.as_slice(),
                        };
                        node.process(
                            ProcessorData {
                                midi_in,
                                midi_out: &mut self.midi_scratch,
                                samples: len,
                                audio: &mut block,
                            },
                        );
                    },
                    None => {},
                }
                std::mem::swap(&mut self.midi_buffers[place], &mut self.midi_scratch);
                self.audio_buffers = block.into_store();
                Ok(())
            },
            Err(e) => Err(e),
        }
    }

    /// The most slots that a node of the execution order needs, or nothing
    /// where that is more than can be counted.
    fn scratch_size(&self) -> (size: Option<usize>)
        requires
            self.wf(),
        ensures
            size == (if most_slots_needed(self@, 0) <= usize::MAX {
                Some(most_slots_needed(self@, 0) as usize)
            } else {
                None::<usize>
            }),
    {
        let mut most: usize = 0;
        let mut at: usize = self.device_order.len();
        while at > 0
            invariant
                self.wf(),
                at <= self.device_order@.len(),
                most == most_slots_needed(self@, at as int),
            decreases at,
        {
            at -= 1;
            let device_id = self.device_order[at];
            match self.place_of(device_id) {
                Some(place) => {
                    let valid = match &self.devices[place] {
                        Some(device) => device.description.min_audio_ins
                            <= device.description.max_audio_ins,
                        None => false,
                    };
                    if valid {
                        let (inputs, outputs) = self.slot_counts(place, device_id);
                        match inputs.checked_add(outputs) {
                            Some(needed) => {
                                if needed > most {
                                    most = needed;
                                }
                            },
                            None => {
                                proof {
                                    lemma_most_slots_grows(self@, 0, at as int);
                                }
                                return None;
                            },
                        }
                    }
                },
                None => {},
            }
        }
        Some(most)
    }

    /// Runs one cycle on blocks of `len` samples, with `scratch` for the
    /// lists of slots.
    ///
    /// A sample rate must have been set; [`AudioEngine::sample_rate`]
    /// tells.
    ///
    /// The store is brought to `NUM_BUFFERS` slots of `len` samples and its
    /// first slot is silenced. Then every node of the execution order that
    /// is still registered is run, in that order, on the slots that the
    /// wiring gives it. The cycle stops at the first node that `scratch`
    /// has no room for, that has an output channel in slot 0, or whose
    /// slots the guard refuses; the nodes before it have run by then.
    /// Slot 0 stays silent throughout, so that an input that nothing feeds
    /// hears silence.
    ///
    /// A cycle changes nothing of the graph: not the nodes registered, not
    /// their wiring or slots, not the execution order.
    pub fn process_with(&mut self, len: usize, scratch: &mut [usize]) -> (r: Result<(), EngineError>)
        requires
            old(self).wf(),
            old(self)@.sample_rate != 0,
            NUM_BUFFERS * len <= usize::MAX,
        ensures
            final(self).wf(),
            final(self)@ == old(self)@,
            r == cycle_outcome_within(old(self)@, len, old(scratch)@.len(), 0),
            final(scratch)@.len() == old(scratch)@.len(),
            final(self).device_count_spec() == old(self).device_count_spec(),
            final(self).removed() == old(self).removed(),
            final(self).silence() == old(self).silence(),
            final(self).store().len() == NUM_BUFFERS * len,
            final(self).cycled(
                old(self),
                len,
                cycle_runs_within(old(self)@, len, old(scratch)@.len(), 0),
            ),
    {
        prepare_store(&mut self.audio_buffers, NUM_BUFFERS * len, len, self.silence);
        let room = scratch.len();
        let mut outcome: Result<(), EngineError> = Ok(());
        let mut at: usize = 0;
        let ghost first = self.store();
        let ghost all = cycle_runs_within(old(self)@, len, room as nat, 0);
        let ghost mut n: int = 0;
        let ghost mut made: Seq<Run> = Seq::empty();
        proof {
            assert forall|id: DeviceId|
                #![trigger self.node_calls(id)]
                self.node_calls(id).take(old(self).node_calls(id).len() as int) == old(
                    self,
                ).node_calls(id) by {
                assert(self.node_calls(id).take(self.node_calls(id).len() as int)
                    =~= self.node_calls(id));
            }
        }
        while at < self.device_order.len() && outcome.is_ok()
            invariant
                first == prepared_store(
                    old(self).store(),
                    (NUM_BUFFERS * len) as nat,
                    len as nat,
                    old(self).silence(),
                ),
                all == cycle_runs_within(old(self)@, len, room as nat, 0),
                made.len() == n,
                self.cycle_made(old(self), first, all, n),
                self.wf(),
                self@ == old(self)@,
                self.device_count_spec() == old(self).device_count_spec(),
                self.removed() == old(self).removed(),
                self.silence() == old(self).silence(),
                NUM_BUFFERS * len <= usize::MAX,
                self.audio_buffers@.len() == NUM_BUFFERS * len,
                scratch@.len() == room,
                room == old(scratch)@.len(),
                at <= self.device_order@.len(),
                outcome is Ok ==> cycle_outcome_within(old(self)@, len, room as nat, at as int)
                    == cycle_outcome_within(old(self)@, len, room as nat, 0),
                outcome is Err ==> outcome == cycle_outcome_within(old(self)@, len, room as nat, 0),
                outcome is Ok ==> outcome == Ok::<(), EngineError>(()),
                outcome is Ok ==> made + cycle_runs_within(old(self)@, len, room as nat, at as int)
                    == all,
                outcome is Err ==> made == all,
            decreases
                    self.device_order@.len() - at,
                    (if outcome is Ok {
                        1int
                    } else {
                        0int
                    }),
        {
            let device_id = self.device_order[at];
            let ghost rest = cycle_runs_within(old(self)@, len, room as nat, at as int);
            let ghost after = cycle_runs_within(old(self)@, len, room as nat, at + 1);
            match self.place_of(device_id) {
                Some(place) => {
                    let valid = match &self.devices[place] {
                        Some(device) => device.description.min_audio_ins
                            <= device.description.max_audio_ins,
                        None => false,
                    };
                    if !valid {
                        outcome = Err(EngineError::InvalidDescription);
                        assert(made + rest =~= made);
                    } else {
                        let (inputs, outputs) = self.slot_counts(place, device_id);
                        let fits = match inputs.checked_add(outputs) {
                            Some(needed) => needed <= room,
                            None => false,
                        };
                        if !fits {
                            outcome = Err(EngineError::OutOfMemory);
                            assert(made + rest =~= made);
                        } else {
                            self.fill_slots(place, device_id, scratch, inputs, outputs);
                            let in_slots = slice_subrange(scratch, 0, inputs);
                            let out_slots = slice_subrange(scratch, inputs, inputs + outputs);
                            let ghost prev = *self;
                            let answer = if Self::holds_slot(out_slots, 0) {
                                Err(BorrowError::AlreadyBorrowed { index: 0 })
                            } else {
                                self.run_device(place, device_id, len, in_slots, out_slots)
                            };
                            match answer {
                                Ok(()) => {
                                    at += 1;
                                    proof {
                                        let run = planned_run(old(self)@, device_id, len);
                                        assert(rest == seq![run] + after);
                                        assert(made.push(run) + after =~= made + rest);
                                        assert((made + rest)[made.len() as int] == run);
                                        self.lemma_cycle_grows(&prev, old(self), first, all, n);
                                        made = made.push(run);
                                        n = n + 1;
                                    }
                                },
                                Err(e) => {
                                    outcome = Err(EngineError::Borrow(e));
                                    assert(made + rest =~= made);
                                    proof {
                                        self.lemma_cycle_same(&prev, old(self), first, all, n);
                                    }
                                },
                            }
                        }
                    }
                },
                None => {
                    at += 1;
                },
            }
        }
        proof {
            if outcome is Ok {
                assert(at == old(self)@.device_order.len());
                assert(cycle_outcome_within(old(self)@, len, room as nat, at as int) == Ok::<
                    (),
                    EngineError,
                >(()));
                assert(made + Seq::<Run>::empty() =~= made);
            }
            self.lemma_cycled(old(self), len, room as nat);
        }
        outcome
    }

    /// Runs one cycle on blocks of `len` samples: see
    /// [`AudioEngine::process_with`]. A sample rate must have been set;
    /// [`AudioEngine::sample_rate`] tells.
    ///
    /// The room for the lists of slots is taken from the engine's arena, as
    /// much as the node with the most slots needs; where that is more than
    /// can be counted, or the arena cannot give it, the cycle is given up
    /// before it has begun. Where no node needs a slot, the arena is not
    /// asked, and the cycle is run.
    pub fn process(&mut self, len: usize) -> (r: Result<(), EngineError>)
        requires
            old(self).wf(),
            old(self)@.sample_rate != 0,
            NUM_BUFFERS * len <= usize::MAX,
        ensures
            final(self).wf(),
            final(self)@ == old(self)@,
            (r == cycle_outcome(old(self)@, len) && final(self).cycled(
                old(self),
                len,
                cycle_runs(old(self)@, len),
            )) || (r == Err::<(), EngineError>(EngineError::OutOfMemory) && final(self).keeps_rest(
                old(self),
            )),
            most_slots_needed(old(self)@, 0) == 0 ==> r == cycle_outcome(old(self)@, len) && final(self).cycled(old(self), len, cycle_runs(old(self)@, len)),
            most_slots_needed(old(self)@, 0) > usize::MAX ==> r == Err::<(), EngineError>(
                EngineError::OutOfMemory,
            ) && final(self).keeps_rest(old(self)),
            final(self).device_count_spec() == old(self).device_count_spec(),
            final(self).removed() == old(self).removed(),
            final(self).silence() == old(self).silence(),
    {
        let size = match self.scratch_size() {
            Some(size) => size,
            None => {
                return Err(EngineError::OutOfMemory);
            },
        };
        proof {
            lemma_enough_room(self@, len, size as nat, 0);
        }
        if size == 0 {
            let mut none: Vec<usize> = Vec::new();
            return self.process_with(len, none.as_mut_slice());
        }
        let mut arena = arena_new();
        std::mem::swap(&mut self.arena, &mut arena);
        arena_reset(&mut arena);
        let ghost all = cycle_runs(self@, len);
        let ghost mut ran = false;
        let ghost start = *self;
        let outcome = match arena_slots(&arena, size) {
            Some(scratch) => {
                proof {
                    ran = true;
                }
                self.process_with(len, scratch)
            },
            None => Err(EngineError::OutOfMemory),
        };
        let ghost made = *self;
        std::mem::swap(&mut self.arena, &mut arena);
        proof {
            if ran {
                self.lemma_cycled_same(&made, &start, old(self), len, all);
            }
        }
        outcome
    }

    /// Gives the node `device_id` the slots `first` and `first + 1` for its
    /// output channels 0 and 1.
    fn set_audio_slots(&mut self, device_id: DeviceId, first: usize)
        requires
            old(self).wf(),
            first < usize::MAX,
        ensures
            final(self).wf(),
            final(self)@ == (if old(self)@.devices.contains_key(device_id) {
                EngineView {
                    devices: old(self)@.devices.insert(
                        device_id,
                        DeviceView {
                            audio_slots: seq![first, (first + 1) as usize],
                            ..old(self)@.devices[device_id]
                        },
                    ),
                    ..old(self)@
                }
            } else {
                old(self)@
            }),
            final(self).keeps_rest(old(self)),
    {
        match self.place_of(device_id) {
            Some(place) => {
                match &mut self.devices[place] {
                    Some(device) => {
                        device.audio_slots.clear();
                        device.audio_slots.push(first);
                        device.audio_slots.push(first + 1);
                        assert(device.audio_slots@ =~= seq![first, (first + 1) as usize]);
                    },
                    None => {},
                }
                proof {
                    Self::lemma_device_replaced(*old(self), *self, place as int, device_id);
                }
            },
            None => {},
        }
    }

    /// Takes every assignment of slots away.
    fn clear_audio_slots(&mut self)
        requires
            old(self).wf(),
        ensures
            final(self).wf(),
            final(self)@ == (EngineView {
                devices: without_slots(old(self)@.devices),
                ..old(self)@
            }),
            final(self).keeps_rest(old(self)),
    {
        let mut place: usize = 0;
        while place < self.devices.len()
            invariant
                self.wf(),
                self.table == old(self).table,
                self.nodes == old(self).nodes,
                self.midi_buffers == old(self).midi_buffers,
                self.devices@.len() == old(self).devices@.len(),
                self@.sample_rate == old(self)@.sample_rate,
                self@.device_order == old(self)@.device_order,
                self@.devices.dom() == old(self)@.devices.dom(),
                forall|id: DeviceId| #[trigger]
                    old(self)@.devices.contains_key(id) ==> self@.devices[id] == (if table_entries(
                        self.table,
                    )[id.id()] < place {
                        DeviceView { audio_slots: Seq::empty(), ..old(self)@.devices[id] }
                    } else {
                        old(self)@.devices[id]
                    }),
                self.keeps_rest(old(self)),
            decreases self.devices@.len() - place,
        {
            let ghost before = *self;
            let mut cleared: bool = false;
            match &mut self.devices[place] {
                Some(device) => {
                    device.audio_slots.clear();
                    cleared = true;
                },
                None => {},
            }
            proof {
                if cleared {
                    let device_id = before.devices@[place as int]->Some_0.id;
                    Self::lemma_device_replaced(before, *self, place as int, device_id);
                    assert(self@.devices.dom() =~= before@.devices.dom());
                    lemma_handles_by_number();
                } else {
                    assert(self.devices@ =~= before.devices@);
                }
            }
            place += 1;
        }
        assert(self@.devices =~= without_slots(old(self)@.devices));
    }

    /// Connects the nodes `chain` into a chain, in place of the execution
    /// order, the slots and part of the wiring there were.
    ///
    /// The chain becomes the execution order. Every assignment of slots is
    /// taken away; then the nodes of the chain get two slots each, slots 1
    /// and 2 or slots 3 and 4 in turn, so that slot 0 stays silent. Then
    /// each node but the last is wired to the node behind it, channel 0 to
    /// channel 0 and channel 1 to channel 1. Handles that name no node are
    /// passed over.
    pub fn test_connect(&mut self, chain: &[DeviceId])
        requires
            old(self).wf(),
            chain@.len() > 0,
        ensures
            final(self).wf(),
            final(self)@ == connected(old(self)@, chain@),
            final(self).keeps_rest(old(self)),
    {
        self.set_device_order(chain);
        self.clear_audio_slots();
        let mut k: usize = 0;
        let ghost cleared = without_slots(old(self)@.devices);
        let last = chain.len() - 1;
        let mut first: usize = 1;
        k = 0;
        while k < chain.len()
            invariant
                k <= chain@.len(),
                last == chain@.len() - 1,
                first == chain_slot(k as int),
                self.wf(),
                self@ == (EngineView {
                    device_order: chain@,
                    devices: with_chain_slots(cleared, chain@, k as int),
                    ..old(self)@
                }),
                self.keeps_rest(old(self)),
            decreases chain@.len() - k,
        {
            self.set_audio_slots(chain[k], first);
            first = 4 - first;
            k += 1;
        }
        let ghost slotted = with_chain_slots(cleared, chain@, chain@.len() as int);
        k = 0;
        while k < last
            invariant
                k <= last,
                last == chain@.len() - 1,
                self.wf(),
                self@ == (EngineView {
                    device_order: chain@,
                    devices: with_chain_wiring(slotted, chain@, k as int),
                    ..old(self)@
                }),
                self.keeps_rest(old(self)),
            decreases last - k,
        {
            let ghost before = self@.devices;
            self.set_audio_input(chain[k], 0, chain[k + 1], 0);
            self.set_audio_input(chain[k], 1, chain[k + 1], 1);
            proof {
                let dst = chain@[k + 1];
                if before.contains_key(dst) {
                    assert(self@.devices =~= before.insert(
                        dst,
                        DeviceView {
                            audio_inputs: wire(
                                wire(before[dst].audio_inputs, 0, (chain@[k as int], 0usize)),
                                1,
                                (chain@[k as int], 1usize),
                            ),
                            ..before[dst]
                        },
                    ));
                }
            }
            k += 1;
        }
    }

    /// The execution order.
    pub fn device_order(&self) -> (order: &[DeviceId])
        ensures
            order@ == self@.device_order,
    {
        self.device_order.as_slice()
    }

    /// The sample rate, or 0 while none is set.
    pub fn sample_rate(&self) -> (rate: u32)
        ensures
            rate == self@.sample_rate,
    {
        self.sample_rate
    }

    /// The samples that slot `slot` holds since the last cycle of blocks of
    /// `len` samples, or nothing where the store holds no such slot.
    pub fn audio_slot(&self, slot: usize, len: usize) -> (samples: Option<&[T]>)
        ensures
            match samples {
                Some(block) => slot * len + len <= self.store().len() && block@
                    == self.store().subrange(slot * len, slot * len + len),
                None => slot * len + len > self.store().len(),
            },
    {
        let total = self.audio_buffers.len();
        if len == 0 {
            assert(slot * len + len == 0) by (nonlinear_arith)
                requires
                    len == 0,
            ;
            return Some(vstd::slice::slice_subrange(self.audio_buffers.as_slice(), 0, 0));
        }
        if slot >= total / len {
            proof {
                vstd::arithmetic::div_mod::lemma_fundamental_div_mod(total as int, len as int);
                assert(slot * len + len > total) by (nonlinear_arith)
                    requires
                        slot >= total / len,
                        total == len * (total / len) + total % len,
                        0 <= total % len < len,
                ;
            }
            return None;
        }
        proof {
            vstd::arithmetic::div_mod::lemma_fundamental_div_mod(total as int, len as int);
            assert(slot * len + len <= total) by (nonlinear_arith)
                requires
                    slot < total / len,
                    total == len * (total / len) + total % len,
                    0 <= total % len < len,
            ;
        }
        let at = slot * len;
        Some(vstd::slice::slice_subrange(self.audio_buffers.as_slice(), at, at + len))
    }
}

} // verus!
