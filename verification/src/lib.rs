//! Core runtime model of a messaging-client instance: shared registries,
//! lifecycle state machine, topic-route resolution, heartbeat dispatch,
//! and the cadence arithmetic of the background scheduler.
use vstd::prelude::*;

pub mod alist;
pub mod entries;
pub mod heartbeat;
pub mod instance;
pub mod laws;
pub mod order_conf;
pub mod publish;
pub mod resolver;
pub mod route;
pub mod scheduler;
pub mod strutil;
pub mod tables;

verus! {

/// Lifecycle states of a client instance. `CreateJust` is the only valid
/// starting state; `start` drives the one-directional transitions.
#[derive(Clone, Copy, PartialEq, Eq, Structural, Debug)]
pub enum ServiceState {
    CreateJust,
    Running,
    ShutdownAlready,
    StartFailed,
}

} // verus!
