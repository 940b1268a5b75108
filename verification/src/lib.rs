//! Core of a small daemon that bridges a local control channel to a pub/sub
//! device-messaging bus: a command vocabulary with its binary wire encoding,
//! a JSON-like textual encoding for device state reports and sparse state
//! updates, an authoritative cache of the device's last reported state, the
//! per-message step logic of the two message loops, and the supervisor rule
//! that maps the first loop to stop onto the server's overall outcome.
//!
//! The surrounding process (socket handling, the broker connection, task
//! scheduling) lives outside this crate and feeds the step functions plain
//! byte payloads and events.

use vstd::prelude::*;

pub mod codec;
pub mod ipc;
pub mod num;
pub mod server;
pub mod state;

pub use state::LightState;
pub use state::LightStateChange;

verus! {

/// The closed set of conditions that stop a loop and, through the
/// supervisor, the whole server. Every error inside a loop is fatal to that
/// loop; there is no local recovery or retry.
#[derive(Clone, Copy, Debug, PartialEq, Eq, Structural)]
pub enum ServerError {
    /// A local client delivered bytes that are not a command encoding.
    MalformedCommand,
    /// The bus delivered a device-state report that does not match the schema.
    MalformedState,
    /// A relative command arrived before the device ever reported its state.
    StateNotYetKnown,
    /// Publishing a state update to the bus failed.
    PublishFailed,
    /// The bus closed the state-report stream cleanly.
    SubscriptionEnded,
    /// The local listener stopped yielding connections.
    ConnectionLost,
}

} // verus!
