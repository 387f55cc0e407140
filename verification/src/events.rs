//! Events that reach the daemon from outside.
use vstd::prelude::*;

verus! {

/// A signal delivered to the daemon.
#[derive(Debug, Clone, Copy, PartialEq, Eq, Structural)]
pub enum SignalKind {
    /// Re-read the configuration file.
    Reload,
    /// Shut down.
    Stop,
}

/// A `PrepareForSleep` announcement of the login manager.
#[derive(Debug, Clone, Copy, PartialEq, Eq, Structural)]
pub enum SleepTransition {
    /// The system is about to suspend.
    Sleeping,
    /// The system has resumed.
    Waking,
}

} // verus!
