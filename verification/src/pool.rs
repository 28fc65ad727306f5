//! The voice pool's bookkeeping: five slots, and the order in which they are
//! given up when a new note needs one.
//!
//! Which voice of a class is taken is decided by predicted level, at the
//! moment the note arrives; which *class* is taken is decided here: a free
//! slot before anything sounding, a released voice before a held one.

use vstd::prelude::*;

verus! {

/// Five voices: a Fibonacci number, and enough because the plate carries
/// stolen tails and voice leading holds common tones.
pub const VOICES: usize = 5;

#[derive(Clone, Copy, PartialEq, Eq, Structural, Debug)]
pub enum SlotState {
    Free,
    Held,
    Released,
}

/// How reluctantly a slot in this state is given up: free, then released,
/// then held.
pub open spec fn rank_spec(s: SlotState) -> u8 {
    match s {
        SlotState::Free => 0,
        SlotState::Released => 1,
        SlotState::Held => 2,
    }
}

/// How reluctantly a slot in this state is given up.
pub fn steal_rank(s: SlotState) -> (r: u8)
    ensures
        r == rank_spec(s),
{
    match s {
        SlotState::Free => 0,
        SlotState::Released => 1,
        SlotState::Held => 2,
    }
}

/// The first free slot, if any.
pub open spec fn first_free_spec(states: Seq<SlotState>, from: int) -> Option<int>
    decreases states.len() - from,
{
    if from < 0 || from >= states.len() {
        None
    } else if states[from] is Free {
        Some(from)
    } else {
        first_free_spec(states, from + 1)
    }
}

/// The first free slot, if any: a free slot is used before anything is stolen.
pub fn first_free(states: &[SlotState]) -> (r: Option<usize>)
    ensures
        r matches Some(i) ==> first_free_spec(states@, 0) == Some(i as int),
        r is None ==> first_free_spec(states@, 0) is None,
{
    let mut i: usize = 0;
    while i < states.len()
        invariant
            i <= states.len(),
            first_free_spec(states@, i as int) == first_free_spec(states@, 0),
        decreases states.len() - i,
    {
        if states[i] == SlotState::Free {
            return Some(i);
        }
        i += 1;
    }
    None
}

/// The least rank among the slots, 2 for none.
pub open spec fn best_rank_spec(states: Seq<SlotState>) -> u8
    decreases states.len(),
{
    if states.len() == 0 {
        2
    } else {
        let r = best_rank_spec(states.drop_last());
        let l = rank_spec(states.last());
        if l < r { l } else { r }
    }
}

/// The class a victim is taken from: the least reluctant state present.
pub fn best_rank(states: &[SlotState]) -> (r: u8)
    ensures
        r == best_rank_spec(states@),
        forall|i: int| 0 <= i < states.len() ==> r <= #[trigger] rank_spec(states@[i]),
        states.len() > 0 ==> exists|i: int| 0 <= i < states.len() && r == #[trigger] rank_spec(states@[i]),
{
    let mut r: u8 = 2;
    let mut i: usize = 0;
    while i < states.len()
        invariant
            i <= states.len(),
            r == best_rank_spec(states@.subrange(0, i as int)),
            forall|j: int| 0 <= j < i ==> r <= #[trigger] rank_spec(states@[j]),
            i > 0 ==> exists|j: int| 0 <= j < i && r == #[trigger] rank_spec(states@[j]),
        decreases states.len() - i,
    {
        assert(states@.subrange(0, i + 1).drop_last() =~= states@.subrange(0, i as int));
        let k = steal_rank(states[i]);
        if k < r {
            r = k;
        }
        proof {
            if i == 0 {
                assert(best_rank_spec(states@.subrange(0, 0)) == 2);
                assert(r == rank_spec(states@[0]) || r == 2);
                if r == 2 {
                    assert(rank_spec(states@[0]) >= 2);
                }
            }
        }
        i += 1;
    }
    assert(states@.subrange(0, states.len() as int) =~= states@);
    r
}

} // verus!
