//! Stack graphs: incremental, language-agnostic name resolution.
//!
//! A stack graph encodes the name-binding structure of a program as a graph.
//! Definitions and references are nodes; a name binding is a path from a
//! reference to a definition that respects the symbol- and scope-stack
//! discipline. Each source file contributes an independent subgraph plus a
//! set of precomputed partial paths, and cross-file resolution is obtained by
//! stitching partial paths together at the shared root node, without
//! re-walking unchanged files.

use vstd::prelude::*;

pub mod assertions;
pub mod graph;
pub mod partial;
pub mod paths;
pub mod serde;
pub mod stats;
pub mod stitching;
pub mod cycles;

verus! {

/// A run-fatal error: the enclosing operation was cancelled at the named
/// checkpoint. Path-local resolution errors, by contrast, are recovered from
/// by dropping the offending candidate path.
#[derive(Clone, Copy, Debug)]
pub struct CancellationError(pub &'static str);

impl CancellationError {
    /// The name of the checkpoint at which the cancellation was observed.
    pub fn at(&self) -> (r: &'static str)
        ensures
            r == self.0,
    {
        self.0
    }
}

/// Signals that a long-running operation should be abandoned. Implementations
/// are polled at named checkpoints; an `Err` makes the operation abort
/// cleanly.
pub trait CancellationFlag {
    /// True for flags that can never report cancellation; lets callers
    /// conclude that a run polled through such a flag runs to completion.
    spec fn spec_never_cancels(&self) -> bool;

    /// True for flags that cancel at every checkpoint; lets callers
    /// conclude that a run aborts at its first poll.
    spec fn spec_always_cancels(&self) -> bool;

    fn check(&self, at: &'static str) -> (r: Result<(), CancellationError>)
        ensures
            self.spec_never_cancels() ==> r is Ok,
            self.spec_always_cancels() ==> r is Err,
            r is Err ==> r->Err_0.0 == at,
    ;
}

/// A cancellation flag that never triggers.
pub struct NoCancellation;

impl CancellationFlag for NoCancellation {
    open spec fn spec_never_cancels(&self) -> bool {
        true
    }

    open spec fn spec_always_cancels(&self) -> bool {
        false
    }

    fn check(&self, at: &'static str) -> (r: Result<(), CancellationError>) {
        Ok(())
    }
}

/// A cancellation flag that triggers once a wall-clock time limit has
/// elapsed since its creation.
pub struct CancelAfterDuration {
    pub limit_millis: u64,
    pub start_millis: u64,
}

/// Reads the system clock as a number of milliseconds.
///
/// Relies on `std::time::SystemTime::now` and
/// `std::time::SystemTime::duration_since`: the result is the wall-clock
/// time, so nothing is promised of it.
#[verifier::external_body]
fn current_millis() -> u64 {
    match std::time::SystemTime::now().duration_since(std::time::SystemTime::UNIX_EPOCH) {
        Ok(d) => d.as_millis() as u64,
        Err(_) => 0,
    }
}

impl CancelAfterDuration {
    /// Records the time limit and the clock reading of this call. A zero
    /// limit makes the flag cancel at its very first check.
    pub fn new(limit_millis: u64) -> (r: Self)
        ensures
            r.limit_millis == limit_millis,
    {
        Self { limit_millis, start_millis: current_millis() }
    }
}

impl CancellationFlag for CancelAfterDuration {
    open spec fn spec_never_cancels(&self) -> bool {
        false
    }

    /// The elapsed time is computed saturating at zero, so a zero limit
    /// cancels whatever the clock returns.
    open spec fn spec_always_cancels(&self) -> bool {
        self.limit_millis == 0
    }

    fn check(&self, at: &'static str) -> (r: Result<(), CancellationError>) {
        let now = current_millis();
        let elapsed = if now >= self.start_millis {
            now - self.start_millis
        } else {
            0
        };
        if elapsed >= self.limit_millis {
            Err(CancellationError(at))
        } else {
            Ok(())
        }
    }
}

} // verus!
