//! Decisions around the Hetzner Cloud load balancer API.

use crate::error::{RobotLBError, RobotLBResult};
use vstd::prelude::*;

verus! {

/// Picks the load balancer out of the ones that a lookup by name returned:
/// none if there is none, the one if there is exactly one, and
/// `SkipService` if the name is ambiguous.
pub fn single_load_balancer<T>(found: Vec<T>) -> (r: RobotLBResult<Option<T>>)
    ensures
        found@.len() == 0 ==> r matches Ok(None),
        found@.len() == 1 ==> r == Ok::<Option<T>, RobotLBError>(Some(found@[0])),
        found@.len() > 1 ==> r matches Err(RobotLBError::SkipService),
{
    if found.len() > 1 {
        return Err(RobotLBError::SkipService);
    }
    let mut found = found;
    Ok(found.pop())
}

} // verus!
