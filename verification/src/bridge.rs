//! The shared writer slot and the session/dispatcher decision logic.
//!
//! At most one agent connection is active at a time.  The slot holds the
//! handle of the session whose outbound writer is current, or nothing.  A
//! session installs its handle when its handshake completes, and clears the
//! slot when its read loop ends — but only if the slot still holds its own
//! handle, so a session that was superseded by a newer connection never
//! disturbs the newer session's ownership.

use vstd::prelude::*;
use vstd::string::StringExecFns;
use crate::codec::{
    decode_agent_envelope, encode_ui_command, describe_text, sp_decode, sp_encode_command,
    AgentEnvelope, UiCommand,
};

verus! {

/// TCP port of the bridge's fixed local endpoint.
pub const WS_PORT: u16 = 19823;

/// What the slot holds after a session installs its handle: always the
/// newly installed handle, whatever was there before.
pub open spec fn installed(slot: Option<u64>, handle: u64) -> Option<u64> {
    Some(handle)
}

/// What the slot holds after a session asks to clear its own handle: empty
/// if the slot still held that handle, otherwise unchanged.
pub open spec fn cleared_if_current(slot: Option<u64>, handle: u64) -> Option<u64> {
    if slot == Some(handle) {
        None
    } else {
        slot
    }
}

/// The single-slot holder of the current outbound writer handle.
///
/// The handle is an opaque token; the process around the library keeps the
/// actual transport writer keyed by this token and writes only where the
/// slot directs it.
pub struct WriterSlot {
    pub current: Option<u64>,
}

impl WriterSlot {
    /// A fresh slot holds no handle: no agent is connected.
    pub fn new() -> (slot: WriterSlot)
        ensures
            slot.current == None::<u64>,
    {
        WriterSlot { current: None }
    }

    /// Install a session's handle, evicting whatever was there.
    pub fn install(&mut self, handle: u64)
        ensures
            final(self).current == installed(old(self).current, handle),
    {
        self.current = Some(handle);
    }

    /// Clear the slot, but only if it still holds this session's handle.
    pub fn clear_if_current(&mut self, handle: u64)
        ensures
            final(self).current == cleared_if_current(old(self).current, handle),
    {
        match self.current {
            Some(h) => {
                if h == handle {
                    self.current = None;
                }
            },
            None => {},
        }
    }

    /// The handle sends should target right now, if any.
    pub fn active_target(&self) -> (target: Option<u64>)
        ensures
            target == self.current,
    {
        self.current
    }
}

/// Issues a distinct handle to each accepted connection, in order.
pub struct HandleSource {
    pub next: u64,
}

impl HandleSource {
    pub fn new() -> (source: HandleSource)
        ensures
            source.next == 0u64,
    {
        HandleSource { next: 0 }
    }

    /// Hand out the next handle.  Handles grow strictly, so no two
    /// sessions of one run ever share one.
    pub fn fresh_handle(&mut self) -> (handle: u64)
        requires
            old(self).next < u64::MAX,
        ensures
            handle == old(self).next,
            final(self).next == handle + 1,
    {
        let handle = self.next;
        self.next = self.next + 1;
        handle
    }
}

/// Law: installing a new session's handle makes the slot — and so every
/// later send, which targets the slot's contents — point at the newest
/// handle; and a session that closes after being superseded does not clear
/// the newer session's ownership.
pub proof fn lemma_newer_session_keeps_slot(slot: Option<u64>, older: u64, newer: u64)
    requires
        older != newer,
    ensures
        installed(slot, newer) == Some(newer),
        cleared_if_current(installed(slot, newer), older) == Some(newer),
{
}

/// Law: a session that clears its own current handle leaves the slot
/// empty, so a send that follows reports no connection rather than
/// targeting a dead writer.
pub proof fn lemma_close_empties_own_slot(handle: u64)
    ensures
        cleared_if_current(installed(None, handle), handle) == None::<u64>,
{
}

/// A notification the bridge pushes toward the UI.
pub enum UiEvent {
    /// A connection lifecycle note, on the `agent-status` channel.
    Status(String),
    /// A decoded inbound envelope, on the `agent-message` channel.
    Message(AgentEnvelope),
    /// A recoverable or fatal failure, on the `agent-error` channel.
    Error(String),
}

impl UiEvent {
    /// The name of the channel this event belongs on.
    pub fn channel(&self) -> (r: &'static str)
        ensures
            r@ == (match self {
                UiEvent::Status(_) => "agent-status"@,
                UiEvent::Message(_) => "agent-message"@,
                UiEvent::Error(_) => "agent-error"@,
            }),
    {
        match self {
            UiEvent::Status(_) => "agent-status",
            UiEvent::Message(_) => "agent-message",
            UiEvent::Error(_) => "agent-error",
        }
    }
}

/// One inbound occurrence on an active session's transport, as the
/// process around the library reads it.
pub enum Frame {
    /// A text frame carrying these bytes.
    Text(Vec<u8>),
    /// The peer's close frame.
    Close,
    /// Any other frame kind; the session ignores these.
    Other,
    /// A transport-level read failure, with its description.
    ReadError(String),
}

/// What the session decided for one frame: at most one event to emit,
/// and whether the read loop goes on.
pub struct SessionOutcome {
    pub event: Option<UiEvent>,
    pub proceed: bool,
}

/// A session's handshake has completed: install its handle — evicting
/// any previous session's — and announce the connection.
pub fn session_activated(slot: &mut WriterSlot, handle: u64) -> (ev: UiEvent)
    ensures
        final(slot).current == installed(old(slot).current, handle),
        ev matches UiEvent::Status(s) && s@ == "Agent connected"@,
{
    slot.install(handle);
    UiEvent::Status(String::from_str("Agent connected"))
}

/// Decide one frame of an active session.
///
/// A text frame is decoded: success emits the envelope, failure emits an
/// error naming the reason — and the session stays open either way, so
/// one malformed frame never costs the connection.  A close frame
/// announces the disconnect and ends the loop.  Other frame kinds are
/// ignored.  A read error emits its description and ends the loop.
pub fn session_frame(frame: Frame) -> (r: SessionOutcome)
    ensures
        match frame {
            Frame::Text(t) => r.proceed && (match sp_decode(t@) {
                Ok(m) => r.event matches Some(UiEvent::Message(env)) && env@ == m,
                Err(k) => r.event matches Some(UiEvent::Error(msg)) && msg@ == "Parse error: "@
                    + describe_text(k),
            }),
            Frame::Close => ({
                &&& !r.proceed
                &&& r.event matches Some(UiEvent::Status(s)) && s@ == "Agent disconnected"@
            }),
            Frame::Other => r.proceed && r.event is None,
            Frame::ReadError(d) => ({
                &&& !r.proceed
                &&& r.event matches Some(UiEvent::Error(msg)) && msg@ == "Connection error: "@
                    + d@
            }),
        },
{
    match frame {
        Frame::Text(t) => match decode_agent_envelope(t.as_slice()) {
            Ok(env) => SessionOutcome { event: Some(UiEvent::Message(env)), proceed: true },
            Err(e) => {
                let mut msg = String::from_str("Parse error: ");
                msg.append(e.describe());
                SessionOutcome { event: Some(UiEvent::Error(msg)), proceed: true }
            },
        },
        Frame::Close => SessionOutcome {
            event: Some(UiEvent::Status(String::from_str("Agent disconnected"))),
            proceed: false,
        },
        Frame::Other => SessionOutcome { event: None, proceed: true },
        Frame::ReadError(d) => {
            let mut msg = String::from_str("Connection error: ");
            msg.append(d.as_str());
            SessionOutcome { event: Some(UiEvent::Error(msg)), proceed: false }
        },
    }
}

/// A session's read loop has ended, on any path: give up the slot, but
/// only if this session still owns it.
pub fn session_closed(slot: &mut WriterSlot, handle: u64)
    ensures
        final(slot).current == cleared_if_current(old(slot).current, handle),
{
    slot.clear_if_current(handle);
}

/// The listener has bound its endpoint and offers service.
pub fn listening_event() -> (ev: UiEvent)
    ensures
        ev matches UiEvent::Status(s) && s@ == "Listening on port 19823"@,
{
    UiEvent::Status(String::from_str("Listening on port 19823"))
}

/// The listener could not bind its endpoint: one error event, and the
/// bridge offers no service thereafter.
pub fn bind_failed_event(detail: &str) -> (ev: UiEvent)
    ensures
        ev matches UiEvent::Error(msg) && msg@ == "Failed to start server: "@ + detail@,
{
    let mut msg = String::from_str("Failed to start server: ");
    msg.append(detail);
    UiEvent::Error(msg)
}

/// Why a command was not sent.
#[derive(Clone, Copy, Debug, PartialEq, Eq, Structural)]
pub enum SendError {
    /// No session is active.  This is the normal resting state when no
    /// agent is attached, not a bridge failure.
    NotConnected,
}

impl SendError {
    /// The failure text the UI layer surfaces to the user.
    pub fn describe(&self) -> (r: &'static str)
        ensures
            r@ == "Not connected to agent"@,
    {
        "Not connected to agent"
    }
}

/// An outbound write the dispatcher asks the process to perform: the
/// handle of the session to write through, and the frame to write.
#[derive(Debug)]
pub struct SendPlan {
    pub target: u64,
    pub frame: Vec<u8>,
}

/// Dispatch one UI-issued command.
///
/// With no active session this returns `NotConnected` and asks for
/// nothing: no transport write happens.  With an active session it
/// returns the encoded command, addressed to the handle the slot holds
/// right now — always the newest session's.  Encoding never fails.
pub fn dispatch_command(slot: &WriterSlot, content: &[u8]) -> (r: Result<SendPlan, SendError>)
    ensures
        match slot.current {
            None => r matches Err(e) && e == SendError::NotConnected,
            Some(h) => r matches Ok(p) && p.target == h && p.frame@ == sp_encode_command(
                content@,
            ),
        },
{
    match slot.active_target() {
        None => Err(SendError::NotConnected),
        Some(handle) => {
            let cmd = UiCommand::user_input(vstd::slice::slice_to_vec(content));
            let frame = encode_ui_command(&cmd);
            Ok(SendPlan { target: handle, frame })
        },
    }
}

} // verus!
