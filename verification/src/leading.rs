//! Voice leading's view of a slot: whether it sounds, and how.
//!
//! The pitch arithmetic of voice leading is in cents and stays with the
//! audio code; what a slot's state means is shared here.

use vstd::prelude::*;

verus! {

/// A voice's state at a chord change.
///
/// A `Held` voice keeps a common tone without retriggering; a `Released`
/// voice may be resurrected for a pitch it already had; a `Free` voice costs
/// nothing to move.
#[derive(Clone, Copy, PartialEq, Eq, Structural, Debug)]
pub enum SlotState {
    Free,
    Held,
    Released,
}

} // verus!
