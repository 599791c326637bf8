use agent_bridge::bridge::{
    bind_failed_event, dispatch_command, listening_event, session_activated, session_closed,
    session_frame, Frame, HandleSource, SendError, UiEvent, WriterSlot, WS_PORT,
};

#[test]
fn send_without_session_is_not_connected() {
    let slot = WriterSlot::new();
    let r = dispatch_command(&slot, b"hello");
    assert_eq!(r.unwrap_err(), SendError::NotConnected);
    assert_eq!(SendError::NotConnected.describe(), "Not connected to agent");
}

#[test]
fn dispatch_targets_installed_session() {
    let mut slot = WriterSlot::new();
    let ev = session_activated(&mut slot, 7);
    match ev {
        UiEvent::Status(s) => assert_eq!(s, "Agent connected"),
        _ => panic!("activation must be a status event"),
    }
    let plan = dispatch_command(&slot, b"hello").unwrap();
    assert_eq!(plan.target, 7);
    assert_eq!(
        plan.frame,
        b"{\"type\":\"user_input\",\"content\":\"hello\"}".to_vec()
    );
}

#[test]
fn newest_session_wins_the_slot() {
    let mut slot = WriterSlot::new();
    let mut handles = HandleSource::new();
    let older = handles.fresh_handle();
    let newer = handles.fresh_handle();
    assert_ne!(older, newer);

    session_activated(&mut slot, older);
    session_activated(&mut slot, newer);
    // Sends now target the newest handle.
    assert_eq!(dispatch_command(&slot, b"x").unwrap().target, newer);

    // The superseded session closes late; the newer session keeps the slot.
    session_closed(&mut slot, older);
    assert_eq!(dispatch_command(&slot, b"y").unwrap().target, newer);

    // When the owner itself closes, the slot empties.
    session_closed(&mut slot, newer);
    assert_eq!(dispatch_command(&slot, b"z").unwrap_err(), SendError::NotConnected);
}

#[test]
fn malformed_frame_keeps_session_open() {
    let out = session_frame(Frame::Text(b"{\"role\":\"assistant\"}".to_vec()));
    assert!(out.proceed, "one malformed frame never ends the session");
    match out.event {
        Some(UiEvent::Error(msg)) => {
            assert_eq!(msg, "Parse error: missing field `content`")
        },
        _ => panic!("a decode failure must be an error event"),
    }
}

#[test]
fn unparseable_frame_names_syntax_error() {
    let out = session_frame(Frame::Text(b"not json".to_vec()));
    assert!(out.proceed);
    match out.event {
        Some(UiEvent::Error(msg)) => assert_eq!(msg, "Parse error: invalid JSON"),
        _ => panic!("a decode failure must be an error event"),
    }
}

#[test]
fn non_text_frames_are_ignored() {
    let out = session_frame(Frame::Other);
    assert!(out.proceed);
    assert!(out.event.is_none());
}

#[test]
fn read_error_ends_session_with_error_event() {
    let out = session_frame(Frame::ReadError("broken pipe".to_string()));
    assert!(!out.proceed);
    match out.event {
        Some(UiEvent::Error(msg)) => assert_eq!(msg, "Connection error: broken pipe"),
        _ => panic!("a read error must be an error event"),
    }
}

#[test]
fn event_channels_are_named() {
    assert_eq!(listening_event().channel(), "agent-status");
    assert_eq!(bind_failed_event("denied").channel(), "agent-error");
    let msg = session_frame(Frame::Text(
        b"{\"role\":\"a\",\"content\":\"c\",\"timestamp\":\"t\"}".to_vec(),
    ));
    assert_eq!(msg.event.unwrap().channel(), "agent-message");
}

#[test]
fn bind_failure_names_its_cause() {
    match bind_failed_event("address in use") {
        UiEvent::Error(msg) => assert_eq!(msg, "Failed to start server: address in use"),
        _ => panic!("bind failure must be an error event"),
    }
}

#[test]
fn bridge_session_scenario() {
    assert_eq!(WS_PORT, 19823);
    let mut slot = WriterSlot::new();
    let mut handles = HandleSource::new();

    // Bind succeeds.
    match listening_event() {
        UiEvent::Status(s) => assert_eq!(s, "Listening on port 19823"),
        _ => panic!("listening must be a status event"),
    }

    // Agent connects.
    let handle = handles.fresh_handle();
    match session_activated(&mut slot, handle) {
        UiEvent::Status(s) => assert_eq!(s, "Agent connected"),
        _ => panic!("activation must be a status event"),
    }

    // A well-formed envelope arrives.
    let out = session_frame(Frame::Text(
        b"{\"role\":\"assistant\",\"content\":\"hi\",\"timestamp\":\"t1\"}".to_vec(),
    ));
    assert!(out.proceed);
    match out.event {
        Some(UiEvent::Message(env)) => {
            assert_eq!(env.role, b"assistant".to_vec());
            assert_eq!(env.content, b"hi".to_vec());
            assert_eq!(env.timestamp, b"t1".to_vec());
            assert!(env.tool_calls.is_none());
        },
        _ => panic!("a decoded envelope must be a message event"),
    }

    // A frame missing `content` arrives: error event, connection stays open.
    let out = session_frame(Frame::Text(b"{\"role\":\"assistant\"}".to_vec()));
    assert!(out.proceed);
    assert!(matches!(out.event, Some(UiEvent::Error(_))));

    // The UI sends a command; the agent receives the encoded frame.
    let plan = dispatch_command(&slot, b"hello").unwrap();
    assert_eq!(plan.target, handle);
    assert_eq!(
        plan.frame,
        b"{\"type\":\"user_input\",\"content\":\"hello\"}".to_vec()
    );

    // The agent sends a close frame.
    let out = session_frame(Frame::Close);
    assert!(!out.proceed);
    match out.event {
        Some(UiEvent::Status(s)) => assert_eq!(s, "Agent disconnected"),
        _ => panic!("a close frame must be a status event"),
    }
    session_closed(&mut slot, handle);

    // A later send finds no session.
    assert_eq!(
        dispatch_command(&slot, b"hello").unwrap_err(),
        SendError::NotConnected
    );
}
