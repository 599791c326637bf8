use agent_bridge::codec::{decode_agent_envelope, encode_ui_command, DecodeError, UiCommand};

#[test]
fn decode_minimal_envelope() {
    let r = decode_agent_envelope(b"{\"role\":\"assistant\",\"content\":\"hi\",\"timestamp\":\"t1\"}");
    let env = r.expect("well-formed envelope must decode");
    assert_eq!(env.role, b"assistant".to_vec());
    assert_eq!(env.content, b"hi".to_vec());
    assert_eq!(env.timestamp, b"t1".to_vec());
    assert!(env.tool_calls.is_none());
}

#[test]
fn decode_keeps_tool_calls_order() {
    let r = decode_agent_envelope(
        b"{\"role\":\"a\",\"content\":\"c\",\"timestamp\":\"t\",\"toolCalls\":[\"read\",\"write\",\"run\"]}",
    );
    let env = r.unwrap();
    let calls = env.tool_calls.expect("present stays present");
    assert_eq!(
        calls,
        vec![b"read".to_vec(), b"write".to_vec(), b"run".to_vec()]
    );
}

#[test]
fn decode_empty_tool_calls_is_present_and_empty() {
    let r = decode_agent_envelope(
        b"{\"role\":\"a\",\"content\":\"c\",\"timestamp\":\"t\",\"toolCalls\":[]}",
    );
    let env = r.unwrap();
    let calls = env.tool_calls.expect("an empty array is not absence");
    assert!(calls.is_empty());
}

#[test]
fn decode_missing_role_fails() {
    let r = decode_agent_envelope(b"{\"content\":\"c\",\"timestamp\":\"t\"}");
    assert_eq!(r.unwrap_err(), DecodeError::MissingRole);
}

#[test]
fn decode_missing_content_fails() {
    let r = decode_agent_envelope(b"{\"role\":\"assistant\"}");
    assert_eq!(r.unwrap_err(), DecodeError::MissingContent);
}

#[test]
fn decode_missing_timestamp_fails() {
    let r = decode_agent_envelope(b"{\"role\":\"a\",\"content\":\"c\"}");
    assert_eq!(r.unwrap_err(), DecodeError::MissingTimestamp);
}

#[test]
fn decode_role_of_wrong_type_fails() {
    let r = decode_agent_envelope(b"{\"role\":42,\"content\":\"c\",\"timestamp\":\"t\"}");
    assert_eq!(r.unwrap_err(), DecodeError::BadRole);
}

#[test]
fn decode_content_of_wrong_type_fails() {
    let r = decode_agent_envelope(b"{\"role\":\"a\",\"content\":null,\"timestamp\":\"t\"}");
    assert_eq!(r.unwrap_err(), DecodeError::BadContent);
}

#[test]
fn decode_timestamp_of_wrong_type_fails() {
    let r = decode_agent_envelope(b"{\"role\":\"a\",\"content\":\"c\",\"timestamp\":[1]}");
    assert_eq!(r.unwrap_err(), DecodeError::BadTimestamp);
}

#[test]
fn decode_tool_calls_of_wrong_type_fails() {
    let r = decode_agent_envelope(
        b"{\"role\":\"a\",\"content\":\"c\",\"timestamp\":\"t\",\"toolCalls\":\"read\"}",
    );
    assert_eq!(r.unwrap_err(), DecodeError::BadToolCalls);
    let r = decode_agent_envelope(
        b"{\"role\":\"a\",\"content\":\"c\",\"timestamp\":\"t\",\"toolCalls\":[\"read\",7]}",
    );
    assert_eq!(r.unwrap_err(), DecodeError::BadToolCalls);
}

#[test]
fn decode_ignores_unknown_fields() {
    let r = decode_agent_envelope(
        b"{\"model\":\"m1\",\"role\":\"a\",\"usage\":{\"in\":3,\"out\":[1,true,null]},\"content\":\"c\",\"extra\":-1.5e+10,\"timestamp\":\"t\"}",
    );
    let env = r.unwrap();
    assert_eq!(env.role, b"a".to_vec());
    assert_eq!(env.content, b"c".to_vec());
    assert!(env.tool_calls.is_none());
}

#[test]
fn decode_tolerates_whitespace() {
    let r = decode_agent_envelope(
        b"  {\n\t\"role\" : \"a\" ,\r\n \"content\" : \"c\" , \"timestamp\" : \"t\" }  ",
    );
    assert!(r.is_ok());
}

#[test]
fn decode_first_occurrence_of_a_key_counts() {
    let r = decode_agent_envelope(
        b"{\"role\":\"first\",\"role\":\"second\",\"content\":\"c\",\"timestamp\":\"t\"}",
    );
    assert_eq!(r.unwrap().role, b"first".to_vec());
}

#[test]
fn decode_resolves_escapes() {
    let r = decode_agent_envelope(
        b"{\"role\":\"a\",\"content\":\"a\\\"b\\\\c\\nd\\u0041e\",\"timestamp\":\"t\"}",
    );
    assert_eq!(r.unwrap().content, b"a\"b\\c\nd\x41e".to_vec());
}

#[test]
fn decode_resolves_unicode_escapes_to_utf8() {
    let r = decode_agent_envelope(
        b"{\"role\":\"a\",\"content\":\"\\u00e9\\u20ac\",\"timestamp\":\"t\"}",
    );
    // U+00E9 and U+20AC, as two and three UTF-8 bytes.
    assert_eq!(r.unwrap().content, vec![0xC3, 0xA9, 0xE2, 0x82, 0xAC]);
}

#[test]
fn decode_resolves_surrogate_pairs() {
    let r = decode_agent_envelope(
        b"{\"role\":\"a\",\"content\":\"\\ud83d\\ude00\",\"timestamp\":\"t\"}",
    );
    // U+1F600 as four UTF-8 bytes.
    assert_eq!(r.unwrap().content, vec![0xF0, 0x9F, 0x98, 0x80]);
}

#[test]
fn decode_rejects_lone_surrogate() {
    let r = decode_agent_envelope(b"{\"role\":\"a\",\"content\":\"\\ud83d\",\"timestamp\":\"t\"}");
    assert_eq!(r.unwrap_err(), DecodeError::Syntax);
    let r = decode_agent_envelope(b"{\"role\":\"a\",\"content\":\"\\ude00\",\"timestamp\":\"t\"}");
    assert_eq!(r.unwrap_err(), DecodeError::Syntax);
}

#[test]
fn decode_accepts_uppercase_hex_and_solidus_escapes() {
    let r = decode_agent_envelope(
        b"{\"role\":\"a\",\"content\":\"\\u00E9\\/x\",\"timestamp\":\"t\"}",
    );
    assert_eq!(r.unwrap().content, vec![0xC3, 0xA9, b'/', b'x']);
}

#[test]
fn decode_skips_deeply_nested_unknown_values() {
    let r = decode_agent_envelope(
        b"{\"extra\":[[{\"a\":[1,[2,{\"b\":null}]]},\"x\"],false],\"role\":\"a\",\"content\":\"c\",\"timestamp\":\"t\"}",
    );
    assert!(r.is_ok());
}

#[test]
fn decode_rejects_bad_escape() {
    let r = decode_agent_envelope(b"{\"role\":\"a\",\"content\":\"\\q\",\"timestamp\":\"t\"}");
    assert_eq!(r.unwrap_err(), DecodeError::Syntax);
    let r = decode_agent_envelope(b"{\"role\":\"a\",\"content\":\"\\u00g1\",\"timestamp\":\"t\"}");
    assert_eq!(r.unwrap_err(), DecodeError::Syntax);
}

#[test]
fn decode_errors_describe_themselves() {
    assert_eq!(DecodeError::Syntax.describe(), "invalid JSON");
    assert_eq!(DecodeError::NotAnObject.describe(), "not a JSON object");
    assert_eq!(DecodeError::MissingRole.describe(), "missing field `role`");
    assert_eq!(
        DecodeError::BadToolCalls.describe(),
        "field `toolCalls` is not an array of strings"
    );
}

#[test]
fn decode_rejects_raw_control_byte_in_string() {
    let r = decode_agent_envelope(b"{\"role\":\"a\",\"content\":\"a\x01b\",\"timestamp\":\"t\"}");
    assert_eq!(r.unwrap_err(), DecodeError::Syntax);
}

#[test]
fn decode_rejects_garbage() {
    assert_eq!(decode_agent_envelope(b"").unwrap_err(), DecodeError::Syntax);
    assert_eq!(decode_agent_envelope(b"   ").unwrap_err(), DecodeError::Syntax);
    assert_eq!(decode_agent_envelope(b"{").unwrap_err(), DecodeError::Syntax);
    assert_eq!(
        decode_agent_envelope(b"{\"role\":\"a\"").unwrap_err(),
        DecodeError::Syntax
    );
    assert_eq!(
        decode_agent_envelope(b"{\"role\":\"a\",}").unwrap_err(),
        DecodeError::Syntax
    );
    assert_eq!(decode_agent_envelope(b"hello").unwrap_err(), DecodeError::Syntax);
    assert_eq!(decode_agent_envelope(b"01").unwrap_err(), DecodeError::Syntax);
}

#[test]
fn decode_rejects_trailing_text() {
    let r = decode_agent_envelope(
        b"{\"role\":\"a\",\"content\":\"c\",\"timestamp\":\"t\"} x",
    );
    assert_eq!(r.unwrap_err(), DecodeError::Syntax);
}

#[test]
fn decode_rejects_non_object_documents() {
    assert_eq!(
        decode_agent_envelope(b"\"hi\"").unwrap_err(),
        DecodeError::NotAnObject
    );
    assert_eq!(
        decode_agent_envelope(b"[1,2,3]").unwrap_err(),
        DecodeError::NotAnObject
    );
    assert_eq!(decode_agent_envelope(b"true").unwrap_err(), DecodeError::NotAnObject);
    assert_eq!(decode_agent_envelope(b"false").unwrap_err(), DecodeError::NotAnObject);
    assert_eq!(decode_agent_envelope(b"null").unwrap_err(), DecodeError::NotAnObject);
    assert_eq!(decode_agent_envelope(b"-12.5e3").unwrap_err(), DecodeError::NotAnObject);
}

#[test]
fn decode_accepts_number_forms_in_ignored_fields() {
    for num in ["0", "-0", "7", "120", "1.25", "-3e8", "2E-4", "0.5e+2"] {
        let doc = format!(
            "{{\"n\":{},\"role\":\"a\",\"content\":\"c\",\"timestamp\":\"t\"}}",
            num
        );
        assert!(decode_agent_envelope(doc.as_bytes()).is_ok(), "number {}", num);
    }
    for bad in ["01", "1.", ".5", "1e", "--1", "+1"] {
        let doc = format!(
            "{{\"n\":{},\"role\":\"a\",\"content\":\"c\",\"timestamp\":\"t\"}}",
            bad
        );
        assert_eq!(
            decode_agent_envelope(doc.as_bytes()).unwrap_err(),
            DecodeError::Syntax,
            "number {}",
            bad
        );
    }
}

#[test]
fn encode_plain_content() {
    let cmd = UiCommand::user_input(b"hello".to_vec());
    assert_eq!(
        encode_ui_command(&cmd),
        b"{\"type\":\"user_input\",\"content\":\"hello\"}".to_vec()
    );
}

#[test]
fn encode_empty_content() {
    let cmd = UiCommand::user_input(Vec::new());
    assert_eq!(
        encode_ui_command(&cmd),
        b"{\"type\":\"user_input\",\"content\":\"\"}".to_vec()
    );
}

#[test]
fn encode_escapes_quotes_and_backslashes() {
    let cmd = UiCommand::user_input(b"say \"hi\" \\ done".to_vec());
    assert_eq!(
        encode_ui_command(&cmd),
        b"{\"type\":\"user_input\",\"content\":\"say \\\"hi\\\" \\\\ done\"}".to_vec()
    );
}

#[test]
fn encode_escapes_control_bytes() {
    let cmd = UiCommand::user_input(vec![b'a', 0x0A, 0x09, 0x01, 0x1F, b'b']);
    assert_eq!(
        encode_ui_command(&cmd),
        b"{\"type\":\"user_input\",\"content\":\"a\\n\\t\\u0001\\u001fb\"}".to_vec()
    );
}

#[test]
fn encoded_command_is_well_formed_json() {
    // The command the bridge sends must itself pass a structural check:
    // decode it as a document and expect only the missing-role complaint,
    // never a syntax error.
    let cmd = UiCommand::user_input(b"quote \" slash \\ tab \t end".to_vec());
    let bytes = encode_ui_command(&cmd);
    assert_eq!(
        decode_agent_envelope(&bytes).unwrap_err(),
        DecodeError::MissingRole
    );
}
