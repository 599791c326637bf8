//! A verified local bridge between an external agent process and a UI surface.
//!
//! The bridge listens on one fixed local endpoint, accepts a long-lived
//! connection from the agent, decodes inbound JSON envelopes into UI-facing
//! events, and relays UI-issued commands back to the agent over the same
//! connection.  The modules here hold the bridge's whole decision logic:
//! the envelope codec, the shared writer slot, the per-connection session
//! state machine, and the command dispatcher.  The surrounding process
//! performs the socket reads and writes and hands the results in as plain
//! values.

pub mod bridge;
pub mod codec;
pub mod json;
