//! Views into the shared sample store, and the guard that hands them out.
//!
//! All audio of one block lives in one contiguous store, cut into slots of
//! one block length each. A node reads some slots and writes others. Before
//! a node runs, the guard checks that every slot lies inside the store and
//! that no slot it writes is handed out twice; the view it returns can then
//! change one output channel without touching any other channel.

use vstd::prelude::*;
use vstd::slice::slice_subrange;

verus! {

/// The largest number of slots that the guard can keep track of.
pub const MAX_SLOTS: usize = 64;

/// Why the guard refused a list of slots.
#[derive(Copy, Clone, PartialEq, Eq, Structural, Debug)]
pub enum BorrowError {
    /// The block length is zero, so the store cannot be cut into slots.
    EmptyBlock,
    /// A slot lies outside the store, or beyond what the guard can track.
    OutOfBounds { index: usize, max: usize },
    /// A slot to write was already handed out for reading or writing.
    AlreadyBorrowed { index: usize },
}

/// Whether bit `slot` of `mask` is set.
pub open spec fn mask_bit(mask: u64, slot: u64) -> bool {
    (mask >> slot) & 1 == 1
}

/// The slots that a borrow mask marks as handed out.
pub open spec fn claimed(mask: u64) -> Set<int> {
    Set::new(|slot: int| 0 <= slot < 64 && mask_bit(mask, slot as u64))
}

/// What claiming one slot does to the set of slots handed out so far: the
/// slot joins the set, unless it is out of range, or is to be written and
/// was handed out before.
pub open spec fn claim(taken: Set<int>, idx: usize, max_buffers: usize, mutable: bool) -> Result<
    Set<int>,
    BorrowError,
> {
    if idx >= max_buffers || idx >= MAX_SLOTS {
        Err(BorrowError::OutOfBounds { index: idx, max: max_buffers })
    } else if mutable && taken.contains(idx as int) {
        Err(BorrowError::AlreadyBorrowed { index: idx })
    } else {
        Ok(taken.insert(idx as int))
    }
}

/// Claims the slots `slots[from..]` one after the other, stopping at the
/// first that is refused.
pub open spec fn claim_all(
    taken: Set<int>,
    slots: Seq<usize>,
    from: int,
    max_buffers: usize,
    mutable: bool,
) -> Result<Set<int>, BorrowError>
    decreases slots.len() - from,
{
    if from < 0 || from >= slots.len() {
        Ok(taken)
    } else {
        match claim(taken, slots[from], max_buffers, mutable) {
            Ok(next) => claim_all(next, slots, from + 1, max_buffers, mutable),
            Err(e) => Err(e),
        }
    }
}

/// How many slots of `len` samples a store of `store_len` samples offers to
/// the guard.
pub open spec fn slot_count(store_len: nat, len: nat) -> nat {
    if len == 0 {
        0
    } else if store_len / len < MAX_SLOTS {
        store_len / len
    } else {
        MAX_SLOTS as nat
    }
}

/// The outcome of the guard: first the slots to read are claimed, then the
/// slots to write.
pub open spec fn guard(store_len: nat, len: usize, ins: Seq<usize>, outs: Seq<usize>) -> Result<
    Set<int>,
    BorrowError,
> {
    if len == 0 {
        Err(BorrowError::EmptyBlock)
    } else {
        let max = slot_count(store_len, len as nat) as usize;
        match claim_all(Set::empty(), ins, 0, max, false) {
            Ok(taken) => claim_all(taken, outs, 0, max, true),
            Err(e) => Err(e),
        }
    }
}

/// The condition under which the guard lets a node run: the block is not
/// empty, every slot exists, no slot is written twice, and no slot is both
/// read and written.
pub open spec fn slots_valid(store_len: nat, len: usize, ins: Seq<usize>, outs: Seq<usize>) -> bool {
    &&& len > 0
    &&& forall|c: int| 0 <= c < ins.len() ==> #[trigger] ins[c] < slot_count(store_len, len as nat)
    &&& forall|c: int| 0 <= c < outs.len() ==> #[trigger] outs[c] < slot_count(store_len, len as nat)
    &&& forall|c: int, d: int| 0 <= c < d < outs.len() ==> #[trigger] outs[c] != #[trigger] outs[d]
    &&& forall|c: int, d: int|
        0 <= c < ins.len() && 0 <= d < outs.len() ==> #[trigger] ins[c] != #[trigger] outs[d]
}

proof fn lemma_mask_set(mask: u64, idx: u64)
    requires
        idx < 64,
    ensures
        claimed(mask | (1u64 << idx)) == claimed(mask).insert(idx as int),
        claimed(mask).contains(idx as int) == (mask & (1u64 << idx) != 0),
{
    assert forall|slot: int| #![auto]
        claimed(mask | (1u64 << idx)).contains(slot) == claimed(mask).insert(idx as int).contains(
            slot,
        ) by {
        if 0 <= slot < 64 {
            let s = slot as u64;
            assert(((mask | (1u64 << idx)) >> s) & 1 == 1 <==> ((mask >> s) & 1 == 1 || s == idx))
                by (bit_vector)
                requires
                    idx < 64,
                    s < 64,
            ;
        }
    }
    assert(claimed(mask | (1u64 << idx)) =~= claimed(mask).insert(idx as int));
    assert(((mask >> idx) & 1 == 1) == (mask & (1u64 << idx) != 0)) by (bit_vector)
        requires
            idx < 64,
    ;
}

/// Whether the borrow mask marks the slot `idx` as handed out.
pub fn slot_claimed(idx: usize, borrow_mask: u64) -> (held: bool)
    requires
        idx < MAX_SLOTS,
    ensures
        held == claimed(borrow_mask).contains(idx as int),
{
    let bit: u64 = 1u64 << (idx as u64);
    proof {
        lemma_mask_set(borrow_mask, idx as u64);
    }
    borrow_mask & bit != 0
}

/// Marks one slot in the borrow mask as handed out.
///
/// The slot must be one that can be handed out: it lies within the slots
/// there are, and where it is to be written it was not handed out before.
/// [`check_borrows`] tells whether a list of slots is such.
pub fn assert_index_valid(idx: usize, max_buffers: usize, borrow_mask: &mut u64, mutable: bool)
    requires
        idx < max_buffers,
        idx < MAX_SLOTS,
        !(mutable && claimed(*old(borrow_mask)).contains(idx as int)),
    ensures
        claimed(*final(borrow_mask)) == claimed(*old(borrow_mask)).insert(idx as int),
        claim(claimed(*old(borrow_mask)), idx, max_buffers, mutable) == Ok::<
            Set<int>,
            BorrowError,
        >(claimed(*final(borrow_mask))),
{
    let bit: u64 = 1u64 << (idx as u64);
    proof {
        lemma_mask_set(*borrow_mask, idx as u64);
    }
    *borrow_mask = *borrow_mask | bit;
}

/// Whether `slot` is among `slots[from..]`.
spec fn occurs_from(slots: Seq<usize>, from: int, slot: int) -> bool {
    exists|c: int| from <= c < slots.len() && #[trigger] slots[c] == slot
}

proof fn lemma_occurs_step(slots: Seq<usize>, from: int, slot: int)
    requires
        0 <= from < slots.len(),
    ensures
        occurs_from(slots, from, slot) <==> (slots[from] == slot || occurs_from(
            slots,
            from + 1,
            slot,
        )),
{
    if occurs_from(slots, from, slot) {
        let c = choose|c: int| from <= c < slots.len() && #[trigger] slots[c] == slot;
        if c != from {
            assert(from + 1 <= c < slots.len() && slots[c] == slot);
        }
    }
    if occurs_from(slots, from + 1, slot) {
        let c = choose|c: int| from + 1 <= c < slots.len() && #[trigger] slots[c] == slot;
        assert(from <= c < slots.len() && slots[c] == slot);
    }
    if slots[from] == slot {
        assert(from <= from < slots.len() && slots[from] == slot);
    }
}

/// What claiming `slots[from..]` for reading comes to: it succeeds when all
/// of them are in range, and then adds them to the set.
proof fn lemma_claim_shared(taken: Set<int>, slots: Seq<usize>, from: int, max: usize)
    requires
        0 <= from <= slots.len(),
        max <= MAX_SLOTS,
    ensures
        claim_all(taken, slots, from, max, false) is Ok <==> (forall|c: int|
            from <= c < slots.len() ==> #[trigger] slots[c] < max),
        claim_all(taken, slots, from, max, false) is Ok ==> (forall|s: int|
            #[trigger] claim_all(taken, slots, from, max, false)->Ok_0.contains(s) <==> (
            taken.contains(s) || occurs_from(slots, from, s))),
    decreases slots.len() - from,
{
    if from < slots.len() {
        if slots[from] < max {
            let next = taken.insert(slots[from] as int);
            lemma_claim_shared(next, slots, from + 1, max);
            assert(claim_all(taken, slots, from, max, false) == claim_all(
                next,
                slots,
                from + 1,
                max,
                false,
            ));
            if claim_all(taken, slots, from, max, false) is Ok {
                let all = claim_all(next, slots, from + 1, max, false)->Ok_0;
                assert forall|s: int|
                    #[trigger] all.contains(s) <==> (taken.contains(s) || occurs_from(
                        slots,
                        from,
                        s,
                    )) by {
                    lemma_occurs_step(slots, from, s);
                }
            }
        }
    } else {
        assert forall|s: int| !occurs_from(slots, from, s) by {}
    }
}

/// What claiming `slots[from..]` for writing comes to: it succeeds when all
/// of them are in range, differ from each other, and were not handed out.
proof fn lemma_claim_exclusive(taken: Set<int>, slots: Seq<usize>, from: int, max: usize)
    requires
        0 <= from <= slots.len(),
        max <= MAX_SLOTS,
    ensures
        claim_all(taken, slots, from, max, true) is Ok <==> {
            &&& forall|c: int| from <= c < slots.len() ==> #[trigger] slots[c] < max
            &&& forall|c: int| from <= c < slots.len() ==> !taken.contains(#[trigger] slots[c] as int)
            &&& forall|c: int, d: int|
                from <= c < d < slots.len() ==> #[trigger] slots[c] != #[trigger] slots[d]
        },
    decreases slots.len() - from,
{
    if from < slots.len() {
        if slots[from] < max && !taken.contains(slots[from] as int) {
            let next = taken.insert(slots[from] as int);
            lemma_claim_exclusive(next, slots, from + 1, max);
            if claim_all(next, slots, from + 1, max, true) is Ok {
                assert forall|c: int, d: int| from <= c < d < slots.len() implies #[trigger] slots[c]
                    != #[trigger] slots[d] by {
                    if c == from {
                        assert(!next.contains(slots[d] as int));
                    }
                }
            } else {
                if (forall|c: int| from <= c < slots.len() ==> #[trigger] slots[c] < max) && (
                forall|c: int| from <= c < slots.len() ==> !taken.contains(#[trigger] slots[c] as int))
                    && (forall|c: int, d: int|
                    from <= c < d < slots.len() ==> #[trigger] slots[c] != #[trigger] slots[d]) {
                    assert forall|c: int| from + 1 <= c < slots.len() implies !next.contains(
                        #[trigger] slots[c] as int,
                    ) by {
                        assert(slots[from] != slots[c]);
                    }
                    assert(false);
                }
            }
        }
    }
}

/// The guard lets a node run exactly when its slots are valid.
pub proof fn lemma_guard_accepts_valid(store_len: nat, len: usize, ins: Seq<usize>, outs: Seq<usize>)
    ensures
        guard(store_len, len, ins, outs) is Ok <==> slots_valid(store_len, len, ins, outs),
{
    if len > 0 {
        let max = slot_count(store_len, len as nat) as usize;
        lemma_claim_shared(Set::empty(), ins, 0, max);
        match claim_all(Set::empty(), ins, 0, max, false) {
            Ok(taken) => {
                lemma_claim_exclusive(taken, outs, 0, max);
                if slots_valid(store_len, len, ins, outs) {
                    assert forall|d: int| 0 <= d < outs.len() implies !taken.contains(
                        #[trigger] outs[d] as int,
                    ) by {
                        if occurs_from(ins, 0, outs[d] as int) {
                            let c = choose|c: int|
                                0 <= c < ins.len() && #[trigger] ins[c] == outs[d] as int;
                            assert(ins[c] != outs[d]);
                        }
                    }
                }
                if guard(store_len, len, ins, outs) is Ok {
                    assert forall|c: int, d: int|
                        0 <= c < ins.len() && 0 <= d < outs.len() implies #[trigger] ins[c]
                        != #[trigger] outs[d] by {
                        if ins[c] == outs[d] {
                            assert(occurs_from(ins, 0, ins[c] as int));
                            assert(taken.contains(ins[c] as int));
                        }
                    }
                }
            },
            Err(_) => {},
        }
    }
}

/// A list of slots to write that names one slot twice is always refused.
pub proof fn lemma_guard_rejects_duplicate(
    store_len: nat,
    len: usize,
    ins: Seq<usize>,
    outs: Seq<usize>,
    c: int,
    d: int,
)
    requires
        0 <= c < d < outs.len(),
        outs[c] == outs[d],
    ensures
        guard(store_len, len, ins, outs) is Err,
{
    lemma_guard_accepts_valid(store_len, len, ins, outs);
}

/// A slot below the slot count lies wholly inside the store.
pub proof fn lemma_slot_fits(store_len: nat, len: nat, slot: nat)
    requires
        len > 0,
        slot < slot_count(store_len, len),
    ensures
        slot * len + len <= store_len,
{
    assert(slot + 1 <= store_len / len);
    vstd::arithmetic::div_mod::lemma_fundamental_div_mod(store_len as int, len as int);
    assert((slot + 1) * len <= (store_len / len) * len) by (nonlinear_arith)
        requires
            slot + 1 <= store_len / len,
            len > 0,
    ;
    assert((slot + 1) * len == slot * len + len) by (nonlinear_arith);
    assert((store_len / len) * len == len * (store_len / len)) by (nonlinear_arith);
}

/// Claims the slots of `slots` in order against the borrow mask.
fn claim_slots(slots: &[usize], max_buffers: usize, borrow_mask: &mut u64, mutable: bool) -> (r: Result<
    (),
    BorrowError,
>)
    ensures
        match claim_all(claimed(*old(borrow_mask)), slots@, 0, max_buffers, mutable) {
            Ok(taken) => r == Ok::<(), BorrowError>(()) && claimed(*final(borrow_mask)) == taken,
            Err(e) => r == Err::<(), BorrowError>(e),
        },
{
    let mut c: usize = 0;
    while c < slots.len()
        invariant
            0 <= c <= slots.len(),
            claim_all(claimed(*old(borrow_mask)), slots@, 0, max_buffers, mutable) == claim_all(
                claimed(*borrow_mask),
                slots@,
                c as int,
                max_buffers,
                mutable,
            ),
        decreases slots.len() - c,
    {
        let idx = slots[c];
        if idx >= max_buffers || idx >= MAX_SLOTS {
            return Err(BorrowError::OutOfBounds { index: idx, max: max_buffers });
        }
        if mutable && slot_claimed(idx, *borrow_mask) {
            return Err(BorrowError::AlreadyBorrowed { index: idx });
        }
        assert_index_valid(idx, max_buffers, borrow_mask, mutable);
        c += 1;
    }
    Ok(())
}

/// Runs the guard over the slots that a node reads and writes, for a store
/// of `store_len` samples and blocks of `len` samples.
pub fn check_borrows(store_len: usize, len: usize, audio_in: &[usize], audio_out: &[usize]) -> (r:
    Result<(), BorrowError>)
    ensures
        match guard(store_len as nat, len, audio_in@, audio_out@) {
            Ok(_) => r == Ok::<(), BorrowError>(()),
            Err(e) => r == Err::<(), BorrowError>(e),
        },
        r is Ok <==> slots_valid(store_len as nat, len, audio_in@, audio_out@),
{
    proof {
        lemma_guard_accepts_valid(store_len as nat, len, audio_in@, audio_out@);
    }
    if len == 0 {
        return Err(BorrowError::EmptyBlock);
    }
    let fit: usize = store_len / len;
    let max_buffers: usize = if fit < MAX_SLOTS {
        fit
    } else {
        MAX_SLOTS
    };
    let mut borrow_mask: u64 = 0;
    assert(claimed(0u64) =~= Set::<int>::empty()) by {
        assert forall|slot: u64| slot < 64 implies !mask_bit(0u64, slot) by {
            assert((0u64 >> slot) & 1 != 1) by (bit_vector);
        }
    }
    claim_slots(audio_in, max_buffers, &mut borrow_mask, false)?;
    claim_slots(audio_out, max_buffers, &mut borrow_mask, true)
}

/// The samples of one slot of a store.
pub open spec fn slot_samples<T>(store: Seq<T>, slot: usize, len: nat) -> Seq<T> {
    store.subrange(slot * len, slot * len + len)
}

/// Whether two stores of blocks of `len` samples hold the same samples in
/// every slot but those of `slots`.
pub open spec fn same_but_slots<T>(
    store: Seq<T>,
    other: Seq<T>,
    len: nat,
    slots: Seq<usize>,
) -> bool {
    forall|slot: usize|
        slot < slot_count(store.len(), len) && !slots.contains(slot) ==> #[trigger] slot_samples(
            other,
            slot,
            len,
        ) == slot_samples(store, slot, len)
}

/// The audio that one node works on during one block: the channels it
/// reads and the channels it writes, all inside one store.
///
/// A block is obtained from [`borrow_buffers`], which has checked the
/// slots. Its input channels may share a slot; its output channels never
/// share one, neither with each other nor with an input.
pub struct AudioBlock<'a, T> {
    store: Vec<T>,
    len: usize,
    ins: &'a [usize],
    outs: &'a [usize],
}

impl<'a, T> AudioBlock<'a, T> {
    #[verifier::type_invariant]
    spec fn inv(self) -> bool {
        slots_valid(self.store@.len(), self.len, self.ins@, self.outs@)
    }
}

impl<'a, T: Copy> AudioBlock<'a, T> {
    /// Every sample of the store.
    pub closed spec fn store(&self) -> Seq<T> {
        self.store@
    }

    /// The number of samples in each channel.
    pub closed spec fn block_len(&self) -> usize {
        self.len
    }

    /// The slot of each input channel.
    pub closed spec fn in_slots(&self) -> Seq<usize> {
        self.ins@
    }

    /// The slot of each output channel.
    pub closed spec fn out_slots(&self) -> Seq<usize> {
        self.outs@
    }

    /// The block went through the guard. This holds of every block that a
    /// program can get hold of.
    pub open spec fn wf(&self) -> bool {
        slots_valid(self.store().len(), self.block_len(), self.in_slots(), self.out_slots())
    }

    /// The samples of input channel `ch`.
    pub open spec fn input(&self, ch: int) -> Seq<T> {
        slot_samples(self.store(), self.in_slots()[ch], self.block_len() as nat)
    }

    /// The samples of output channel `ch`.
    pub open spec fn output(&self, ch: int) -> Seq<T> {
        slot_samples(self.store(), self.out_slots()[ch], self.block_len() as nat)
    }

    /// Whether `other` is this block with possibly other samples in the
    /// output channels: the same shape, every input channel as it is
    /// here, and every slot of the store that is no output channel as it
    /// is here.
    pub open spec fn same_inputs(&self, other: &Self) -> bool {
        &&& other.block_len() == self.block_len()
        &&& other.in_slots() == self.in_slots()
        &&& other.out_slots() == self.out_slots()
        &&& other.store().len() == self.store().len()
        &&& forall|c: int| 0 <= c < self.in_slots().len() ==> other.input(c) == self.input(c)
        &&& same_but_slots(
            self.store(),
            other.store(),
            self.block_len() as nat,
            self.out_slots(),
        )
    }

    /// Every channel of a block holds as many samples as the block is
    /// long.
    pub proof fn lemma_channel_len(&self)
        requires
            self.wf(),
        ensures
            forall|c: int| 0 <= c < self.in_slots().len() ==> (#[trigger] self.input(c)).len()
                == self.block_len(),
            forall|d: int| 0 <= d < self.out_slots().len() ==> (#[trigger] self.output(d)).len()
                == self.block_len(),
    {
        assert forall|c: int| 0 <= c < self.in_slots().len() implies (#[trigger] self.input(
            c,
        )).len() == self.block_len() by {
            lemma_slot_fits(
                self.store().len(),
                self.block_len() as nat,
                self.in_slots()[c] as nat,
            );
        }
        assert forall|d: int| 0 <= d < self.out_slots().len() implies (#[trigger] self.output(
            d,
        )).len() == self.block_len() by {
            lemma_slot_fits(
                self.store().len(),
                self.block_len() as nat,
                self.out_slots()[d] as nat,
            );
        }
    }

    /// The number of samples in each channel.
    pub fn samples(&self) -> (n: usize)
        ensures
            n == self.block_len(),
            self.wf(),
    {
        proof {
            use_type_invariant(self);
        }
        self.len
    }

    /// The number of input channels.
    pub fn num_inputs(&self) -> (n: usize)
        ensures
            n == self.in_slots().len(),
            self.wf(),
    {
        proof {
            use_type_invariant(self);
        }
        self.ins.len()
    }

    /// The number of output channels.
    pub fn num_outputs(&self) -> (n: usize)
        ensures
            n == self.out_slots().len(),
            self.wf(),
    {
        proof {
            use_type_invariant(self);
        }
        self.outs.len()
    }

    /// Where a slot begins in the store.
    fn slot_start(&self, slot: usize) -> (at: usize)
        requires
            self.block_len() > 0,
            slot < slot_count(self.store().len(), self.block_len() as nat),
        ensures
            at == slot * self.block_len(),
            at + self.block_len() <= self.store().len() <= usize::MAX,
    {
        let total = self.store.len();
        proof {
            lemma_slot_fits(total as nat, self.len as nat, slot as nat);
        }
        slot * self.len
    }

    /// Reads sample `i` of input channel `ch`.
    pub fn input_sample(&self, ch: usize, i: usize) -> (v: T)
        requires
            ch < self.in_slots().len(),
            i < self.block_len(),
        ensures
            v == self.input(ch as int)[i as int],
    {
        proof {
            use_type_invariant(self);
        }
        let slot = self.ins[ch];
        assert(self.in_slots()[ch as int] == slot);
        let at = self.slot_start(slot);
        self.store[at + i]
    }

    /// Reads sample `i` of output channel `ch`.
    pub fn output_sample(&self, ch: usize, i: usize) -> (v: T)
        requires
            ch < self.out_slots().len(),
            i < self.block_len(),
        ensures
            v == self.output(ch as int)[i as int],
    {
        proof {
            use_type_invariant(self);
        }
        let slot = self.outs[ch];
        assert(self.out_slots()[ch as int] == slot);
        let at = self.slot_start(slot);
        self.store[at + i]
    }

    /// All samples of input channel `ch`.
    pub fn input_slice(&self, ch: usize) -> (samples: &[T])
        requires
            ch < self.in_slots().len(),
        ensures
            samples@ == self.input(ch as int),
    {
        proof {
            use_type_invariant(self);
        }
        let slot = self.ins[ch];
        assert(self.in_slots()[ch as int] == slot);
        let at = self.slot_start(slot);
        slice_subrange(self.store.as_slice(), at, at + self.len)
    }

    /// Writes sample `i` of output channel `ch`. No other sample of the
    /// block changes: not in the other output channels, not in any input.
    pub fn set_output_sample(&mut self, ch: usize, i: usize, v: T)
        requires
            ch < old(self).out_slots().len(),
            i < old(self).block_len(),
        ensures
            final(self).wf(),
            old(self).same_inputs(final(self)),
            final(self).output(ch as int) == old(self).output(ch as int).update(i as int, v),
            forall|d: int|
                0 <= d < old(self).out_slots().len() && d != ch ==> final(self).output(d) == old(
                    self,
                ).output(d),
    {
        proof {
            use_type_invariant(&*self);
        }
        let slot = self.outs[ch];
        let len = self.len;
        assert(self.out_slots()[ch as int] == slot);
        let at = self.slot_start(slot) + i;
        self.store[at] = v;
        proof {
            let before = old(self).store();
            let after = self.store();
            assert(after == before.update(at as int, v));
            assert forall|other: usize|
                other != slot && other < slot_count(before.len(), len as nat) implies slot_samples(
                after,
                other,
                len as nat,
            ) == slot_samples(before, other, len as nat) by {
                lemma_slot_fits(before.len(), len as nat, other as nat);
                lemma_slots_apart(slot as nat, other as nat, len as nat);
                assert(slot_samples(after, other, len as nat) =~= slot_samples(
                    before,
                    other,
                    len as nat,
                ));
            }
            assert forall|c: int| 0 <= c < old(self).in_slots().len() implies self.input(c) == old(
                self,
            ).input(c) by {
                assert(old(self).in_slots()[c] != old(self).out_slots()[ch as int]);
            }
            assert forall|d: int| 0 <= d < old(self).out_slots().len() && d != ch implies self.output(
                d,
            ) == old(self).output(d) by {
                assert(old(self).out_slots()[d] != old(self).out_slots()[ch as int]);
            }
            assert(self.output(ch as int) =~= old(self).output(ch as int).update(i as int, v));
        }
    }

    /// Gives the store back.
    pub fn into_store(self) -> (store: Vec<T>)
        ensures
            store@ == self.store(),
    {
        self.store
    }
}

/// Two different slots share no sample.
proof fn lemma_slots_apart(a: nat, b: nat, len: nat)
    requires
        a != b,
    ensures
        a * len + len <= b * len || b * len + len <= a * len,
{
    if a < b {
        assert(a * len + len <= b * len) by (nonlinear_arith)
            requires
                a + 1 <= b,
        ;
    } else {
        assert(b * len + len <= a * len) by (nonlinear_arith)
            requires
                b + 1 <= a,
        ;
    }
}

/// Hands out the views that one node works on: read-only views of the
/// slots `audio_in`, and views to write of the slots `audio_out`, all into
/// `master`, which holds blocks of `len` samples.
///
/// The slots must be valid: the block is not empty, every slot lies inside
/// the store, no slot is written twice, and no slot is both read and
/// written. [`check_borrows`] tells whether they are.
pub fn borrow_buffers<'a, T: Copy>(
    master: Vec<T>,
    len: usize,
    audio_in: &'a [usize],
    audio_out: &'a [usize],
) -> (block: AudioBlock<'a, T>)
    requires
        slots_valid(master@.len(), len, audio_in@, audio_out@),
    ensures
        block.wf(),
        block.store() == master@,
        block.block_len() == len,
        block.in_slots() == audio_in@,
        block.out_slots() == audio_out@,
{
    AudioBlock { store: master, len, ins: audio_in, outs: audio_out }
}

} // verus!
