//! The verdict on a proof-of-work candidate.
//!
//! A candidate is iterated under `z -> z^2 + c`. The caller performs the
//! arithmetic and records, for each step, whether the real part of the iterate
//! has left the corridor `[re_min, re_max]`. This module decides from that
//! record whether the candidate left the corridor at exactly the step that the
//! puzzle asks for.

use vstd::prelude::*;

verus! {

/// Why a candidate does not solve the puzzle.
#[derive(Debug, Clone, Copy, PartialEq, Eq, Structural)]
pub enum DoWorkError {
    /// The orbit left the corridor before the final step.
    LeftSetTooEarly,
    /// The orbit was still inside the corridor at the final step.
    LeftSetTooLateOrNotAtAll,
}

/// Some step before step `limit` of `orbit` left the corridor.
///
/// `orbit[i]` is `true` when the iterate produced by step `i` (counted from
/// zero) lies outside the corridor.
pub open spec fn leaves_before(orbit: Seq<bool>, limit: int) -> bool {
    exists|i: int| 0 <= i < limit && i < orbit.len() && orbit[i]
}

/// The verdict on an orbit for a puzzle that asks for `target_iterations`
/// steps inside the corridor followed by one step outside it.
///
/// Steps that the orbit does not record count as steps inside the corridor.
pub open spec fn work_verdict(orbit: Seq<bool>, target_iterations: nat) -> Result<(), DoWorkError> {
    if leaves_before(orbit, target_iterations as int) {
        Err(DoWorkError::LeftSetTooEarly)
    } else if target_iterations < orbit.len() && orbit[target_iterations as int] {
        Ok(())
    } else {
        Err(DoWorkError::LeftSetTooLateOrNotAtAll)
    }
}

/// Decides whether an orbit solves the puzzle: it must stay inside the
/// corridor for the first `target_iterations` steps and leave it at the next.
///
/// At most `target_iterations + 1` entries of `orbit` are read, and none after
/// the first that is `true`.
pub fn check_work(orbit: &Vec<bool>, target_iterations: u16) -> (verdict: Result<(), DoWorkError>)
    ensures
        verdict == work_verdict(orbit@, target_iterations as nat),
{
    let target: usize = target_iterations as usize;
    let mut iteration: usize = 0;
    while iteration < orbit.len() && iteration <= target
        invariant
            target == target_iterations,
            iteration <= orbit.len(),
            iteration <= target + 1,
            forall|i: int| 0 <= i < iteration ==> !orbit[i],
        decreases orbit.len() - iteration,
    {
        if orbit[iteration] {
            if iteration == target {
                return Ok(());
            } else {
                return Err(DoWorkError::LeftSetTooEarly);
            }
        }
        iteration += 1;
    }
    Err(DoWorkError::LeftSetTooLateOrNotAtAll)
}

/// A candidate solves the puzzle for at most one iteration count: an orbit
/// that is accepted for one count is rejected for every other.
pub proof fn lemma_accepting_count_is_unique(orbit: Seq<bool>, first: nat, second: nat)
    requires
        first != second,
    ensures
        !(work_verdict(orbit, first) is Ok && work_verdict(orbit, second) is Ok),
{
    if work_verdict(orbit, first) is Ok && work_verdict(orbit, second) is Ok {
        if first < second {
            assert(leaves_before(orbit, second as int)) by {
                assert(0 <= first < second && first < orbit.len() && orbit[first as int]);
            }
        } else {
            assert(leaves_before(orbit, first as int)) by {
                assert(0 <= second < first && second < orbit.len() && orbit[second as int]);
            }
        }
    }
}

} // verus!
