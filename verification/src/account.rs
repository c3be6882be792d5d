//! Accounts: what the contracts of a trait say of the calls that its
//! implementors have had.

use vstd::prelude::*;

verus! {

/// An account of calls or of samples, oldest first. Accounts are what the
/// contracts speak of; no program ever holds one, and an implementor that
/// is not verified keeps none.
pub type Account<C> = Seq<C>;

} // verus!
