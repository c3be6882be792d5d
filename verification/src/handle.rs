//! Handles to the nodes of a graph, and the table that gives them out.
//!
//! A handle names one node for as long as the node is registered. Once the
//! node is removed its handle names nothing. The place of the node may be
//! given to another node; the table keeps a generation with each place, by
//! which the new handle differs from the old one.

use slotmap::{DefaultKey, Key, KeyData, SlotMap};
use vstd::prelude::*;

verus! {

/// The number that the null handle holds.
pub const NULL_ID: u64 = 0x1_ffff_ffff;

/// A table that holds no more handles than this has room for one more.
pub const MAX_DEVICES: usize = 0xffff_fffd;

/// The number of a handle in the form in which the table gives it out: with
/// the lowest bit of its generation set.
pub open spec fn canonical(id: u64) -> u64 {
    id | 0x1_0000_0000
}

/// Whether a handle's number marks it as naming no place at all.
pub open spec fn null_index(id: u64) -> bool {
    id & 0xffff_ffff == 0xffff_ffff
}

/// A generation-checked handle to a node.
#[derive(Copy, Clone, PartialEq, Eq, Structural, Debug, Hash)]
pub struct DeviceId(u64);

impl DeviceId {
    #[verifier::type_invariant]
    spec fn is_canonical(self) -> bool {
        self.0 == canonical(self.0)
    }

    /// The number of the handle.
    pub closed spec fn id(self) -> u64 {
        self.0
    }

    /// Whether this handle names no place.
    pub open spec fn is_null_spec(&self) -> bool {
        null_index(self.id())
    }

    /// The handle that stands for "no connection".
    pub closed spec fn null_spec() -> DeviceId {
        DeviceId(NULL_ID)
    }

    /// The handle that stands for "no connection".
    #[verifier::when_used_as_spec(null_spec)]
    pub fn null() -> (handle: DeviceId)
        ensures
            handle == Self::null_spec(),
            handle.id() == NULL_ID,
            handle.is_null_spec(),
    {
        assert(NULL_ID == canonical(NULL_ID) && null_index(NULL_ID)) by {
            assert(0x1_ffff_ffffu64 | 0x1_0000_0000 == 0x1_ffff_ffffu64) by (bit_vector);
            assert(0x1_ffff_ffffu64 & 0xffff_ffff == 0xffff_ffff) by (bit_vector);
        }
        DeviceId(NULL_ID)
    }

    /// Whether this handle names no place.
    #[verifier::when_used_as_spec(is_null_spec)]
    pub fn is_null(&self) -> (null: bool)
        ensures
            null == self.is_null_spec(),
    {
        self.0 & 0xffff_ffff == 0xffff_ffff
    }

    /// The raw number of the handle, for callers that keep handles in tables
    /// of their own.
    pub fn to_bits(&self) -> (bits: u64)
        ensures
            bits == self.id(),
            bits == canonical(bits),
    {
        proof {
            use_type_invariant(self);
        }
        self.0
    }
}

/// Two handles with the same number are the same handle.
pub proof fn lemma_handles_by_number()
    ensures
        forall|a: DeviceId, b: DeviceId| #![trigger a.id(), b.id()] a.id() == b.id() ==> a == b,
{
}

/// The table of the places given out: a slot map from handles to places.
#[verifier::external_body]
pub struct HandleTable {
    slots: SlotMap<DefaultKey, usize>,
}

/// The place that a table holds for each handle it has given out and not
/// taken back, by the handle's number.
pub uninterp spec fn table_entries(table: HandleTable) -> Map<u64, usize>;

/// The handles that a table has taken back, by their numbers, in the
/// order in which it has taken them back.
pub uninterp spec fn table_retired(table: HandleTable) -> Seq<u64>;

/// The number of keys that a slot map can take back before a number that
/// it has given out can come again.
pub const MAX_RETIRED: u64 = 0x8000_0000;

/// Makes an empty table with `SlotMap::new`.
///
/// A new slot map holds no key and has taken none back.
#[verifier::external_body]
pub(crate) fn table_new() -> (table: HandleTable)
    ensures
        table_entries(table).dom() =~= Set::empty(),
        table_retired(table).len() == 0,
{
    HandleTable { slots: SlotMap::new() }
}

/// Stores `place` with `SlotMap::insert` and returns the number of the new
/// key, as `KeyData::as_ffi` gives it.
///
/// The key is one that the map did not hold before; its generation is odd
/// and its index is not the one that null keys have. The map panics when
/// it is full, which takes more keys than `MAX_DEVICES`.
///
/// The generation of a slot is a number of 32 bits that goes up by one
/// when the slot's key is taken out, wrapping round, and is made odd when
/// a key is put in. So the number of a key that was taken out comes again
/// only once the generation of its slot has wrapped, for which `MAX_RETIRED`
/// keys must have been taken out of that slot: while the map has taken
/// back fewer keys than that, the new key is none of them.
#[verifier::external_body]
pub(crate) fn table_insert(table: &mut HandleTable, place: usize) -> (id: u64)
    requires
        table_entries(*old(table)).dom().finite(),
        table_entries(*old(table)).dom().len() <= MAX_DEVICES,
    ensures
        id == canonical(id),
        !null_index(id),
        !table_entries(*old(table)).contains_key(id),
        table_entries(*final(table)) == table_entries(*old(table)).insert(id, place),
        table_retired(*old(table)).len() < MAX_RETIRED ==> !table_retired(*old(table)).contains(id),
        table_retired(*final(table)) == table_retired(*old(table)),
{
    table.slots.insert(place).data().as_ffi()
}

/// Looks up the key with number `id` with `SlotMap::get`.
///
/// `KeyData::from_ffi` sets the lowest bit of the generation, so the key
/// looked up is the one with the canonical number.
#[verifier::external_body]
pub(crate) fn table_get(table: &HandleTable, id: u64) -> (place: Option<usize>)
    ensures
        place == (if table_entries(*table).contains_key(canonical(id)) {
            Some(table_entries(*table)[canonical(id)])
        } else {
            None
        }),
{
    table.slots.get(KeyData::from_ffi(id).into()).copied()
}

/// Takes the key with number `id` out with `SlotMap::remove`, and returns
/// the place it stood for, if the map held it. A key that the map held is
/// one more that it has taken back.
#[verifier::external_body]
pub(crate) fn table_remove(table: &mut HandleTable, id: u64) -> (place: Option<usize>)
    ensures
        place == (if table_entries(*old(table)).contains_key(canonical(id)) {
            Some(table_entries(*old(table))[canonical(id)])
        } else {
            None
        }),
        table_entries(*final(table)) == table_entries(*old(table)).remove(canonical(id)),
        table_retired(*final(table)) == (if table_entries(*old(table)).contains_key(canonical(id)) {
            table_retired(*old(table)).push(canonical(id))
        } else {
            table_retired(*old(table))
        }),
{
    table.slots.remove(KeyData::from_ffi(id).into())
}

impl DeviceId {
    /// The handle with the number that the table gave out.
    pub(crate) fn from_table(id: u64) -> (handle: DeviceId)
        requires
            id == canonical(id),
        ensures
            handle.id() == id,
    {
        DeviceId(id)
    }
}

} // verus!
