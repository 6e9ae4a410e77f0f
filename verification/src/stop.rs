use vstd::prelude::*;

verus! {

/// Cooperative cancellation capability.
///
/// Long-running decode and encode calls poll the token at designed
/// checkpoints; when it reports a stop request the call fails cleanly with
/// `PnmError::Cancelled` and no partial output escapes.
pub trait Stop {
    /// Whether this token asks the current operation to stop.
    spec fn stop_requested(&self) -> bool;

    /// Polls the token once.
    fn check(&self) -> (r: bool)
        ensures
            r == self.stop_requested(),
    ;
}

/// A token that never requests cancellation.
#[derive(Debug, Clone, Copy)]
pub struct Unstoppable;

impl Stop for Unstoppable {
    open spec fn stop_requested(&self) -> bool {
        false
    }

    fn check(&self) -> (r: bool) {
        false
    }
}

/// A token that always requests cancellation. Useful for exercising the
/// cancellation paths.
#[derive(Debug, Clone, Copy)]
pub struct Stopped;

impl Stop for Stopped {
    open spec fn stop_requested(&self) -> bool {
        true
    }

    fn check(&self) -> (r: bool) {
        true
    }
}

} // verus!
