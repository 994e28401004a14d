//! Epochs that fence stale members.

use crate::error;
use crate::error::{ControlError, ControlErrorView};
use vstd::prelude::*;

verus! {

/// Whether a member with the epoch that it sent is let through: with the current epoch, or with the
/// previous one where the member may recover from a lost answer.
pub open spec fn admits(current: i32, previous: i32, received: i32, recovery_allowed: bool) -> bool {
    received == current || (received < current && received == previous && recovery_allowed)
}

/// Checks the epoch that a member sent.
pub fn validate(group_id: &str, member_id: &str, current: i32, previous: i32, received: i32, recovery_allowed: bool) -> (r: Result<(), ControlError>)
    ensures
        error::outcome(r) == if admits(current, previous, received, recovery_allowed) {
            Ok::<(), ControlErrorView>(())
        } else {
            Err(
                ControlErrorView::FencedMemberEpoch { group: group_id@, member: member_id@, expected: current, actual: received },
            )
        },
{
    if received == current || (received < current && received == previous && recovery_allowed) {
        return Ok(());
    }
    Err(
        ControlError::FencedMemberEpoch {
            group: group_id.to_owned(),
            member: member_id.to_owned(),
            expected: current,
            actual: received,
        },
    )
}

/// The current and the previous epoch after a move to `next`.
pub open spec fn moved(current: i32, previous: i32, next: i32) -> (i32, i32) {
    if current != next {
        (next, current)
    } else {
        (current, previous)
    }
}

/// Moves an epoch on; a move to the same epoch changes nothing.
pub fn update(current: &mut i32, previous: &mut i32, next: i32)
    ensures
        (*final(current), *final(previous)) == moved(*old(current), *old(previous), next),
{
    if *current != next {
        *previous = *current;
        *current = next;
    }
}

/// A member whose epoch has moved on is let through with its new epoch, and with its old one just
/// where the epoch grew and it may recover.
pub proof fn moved_epochs_are_admitted(current: i32, previous: i32, next: i32, recovery_allowed: bool)
    ensures
        ({
            let (c, p) = moved(current, previous, next);
            &&& admits(c, p, next, recovery_allowed)
            &&& current != next ==> (admits(c, p, current, recovery_allowed) <==> current < next && recovery_allowed)
        }),
{
}

} // verus!
