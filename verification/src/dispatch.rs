//! The dispatch-mode tag and the tail-call eligibility decision.
//!
//! Every dispatch of a work unit either continues on the current call
//! stack (a tail call) or is handed to the scheduler as a new task. The
//! decision is made from three pieces of data: the mode the caller passed
//! in, a counter of consecutive tail dispatches on this stack, and whether
//! the current worker still has pending local work.

use vstd::prelude::*;

verus! {

/// The maximum number of nodes that one work unit may carry. Larger values
/// improve sibling locality at the expense of parallelism opportunity.
pub const WORK_UNIT_MAX: usize = 16;

/// The ceiling on consecutive tail dispatches on one call stack. Reaching
/// it downgrades tail dispatch to spawning; it is never a failure.
pub const RECURSION_DEPTH_LIMIT: usize = 150;

/// Controls whether a dispatch may continue with a recursive call on the
/// current call stack, or must always hand the work unit to the scheduler.
#[derive(Clone, Copy, PartialEq, Eq, Structural, Debug)]
pub enum DispatchMode {
    TailCall,
    NotTailCall,
}

impl DispatchMode {
    /// True exactly when this dispatch is allowed to stay on the stack.
    pub fn is_tail_call(&self) -> (r: bool)
        ensures
            r == (*self == DispatchMode::TailCall),
    {
        matches!(*self, DispatchMode::TailCall)
    }
}

/// The tail-call eligibility decision: a dispatch stays on the current
/// stack only if the caller allowed it, the recursion-depth ceiling has not
/// been reached, and the current worker has no other pending local task
/// (tail-calling past pending work would break breadth-first ordering).
pub fn may_dispatch_tail(mode: DispatchMode, recursion_depth: usize, has_pending_tasks: bool) -> (r: bool)
    ensures
        r == (mode == DispatchMode::TailCall && recursion_depth != RECURSION_DEPTH_LIMIT
            && !has_pending_tasks),
{
    mode.is_tail_call() && recursion_depth != RECURSION_DEPTH_LIMIT && !has_pending_tasks
}

} // verus!
