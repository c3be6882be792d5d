//! The arena that the scratch memory of a cycle comes from.
//!
//! A cycle needs room for the slots of the node it runs. The room is taken
//! from a bump arena, which is emptied before every cycle and keeps its
//! memory from one cycle to the next.

use bumpalo::Bump;
use vstd::prelude::*;

verus! {

/// `bumpalo::Bump`, a bump arena. Nothing is said of what it holds.
#[verifier::external_type_specification]
#[verifier::external_body]
pub struct ExBump<const MIN_ALIGN: usize>(Bump<MIN_ALIGN>);

/// Makes an arena with `Bump::new`. A new arena holds no memory yet.
#[verifier::external_body]
pub(crate) fn arena_new() -> (arena: Bump<1>) {
    Bump::new()
}

/// Empties the arena with `Bump::reset`. Everything taken from the arena
/// before is given up; the borrow rules see to it that none of it is in
/// use.
#[verifier::external_body]
pub(crate) fn arena_reset(arena: &mut Bump<1>) {
    arena.reset()
}

/// Takes room for `len` slots from the arena with
/// `Bump::try_alloc_slice_fill_copy`.
///
/// Where the arena has the room, or can get it, the slots come back, all
/// of them 0. Where it cannot, nothing comes back.
#[verifier::external_body]
pub(crate) fn arena_slots<'a>(arena: &'a Bump<1>, len: usize) -> (slots: Option<&'a mut [usize]>)
    ensures
        slots matches Some(room) ==> room@ == Seq::new(len as nat, |i: int| 0usize),
{
    arena.try_alloc_slice_fill_copy(len, 0usize).ok()
}

} // verus!
