//! The envelope codec: the two wire message shapes and their
//! (de)serialization.
//!
//! Inbound, the agent sends one JSON object per frame with the required
//! string fields `role`, `content` and `timestamp`, and the optional
//! `toolCalls` array of strings; unknown fields are ignored, so the agent
//! may grow its message shape without breaking the bridge.  Outbound, the
//! bridge sends `{"type":"user_input","content":...}`.
//!
//! Decoding enforces structural validity only: any string is accepted as
//! a `role` or a `timestamp`.  The contract of [`decode_agent_envelope`]
//! pins the outcome for every input: exactly the documents the grammar
//! accepts decode, and each rejection names its reason.

use vstd::prelude::*;
use vstd::slice::slice_index_get;
use crate::json::{
    at_least, lookup, parse_document, parse_elems, parse_members, parse_value, read_value,
    skip_ws, str_body, str_body_push, str_items, unescape_at, ws_end, Json, ReadValue,
};

verus! {

/// The bytes of the required `role` key.
pub open spec fn key_role() -> Seq<u8> {
    seq![114u8, 111u8, 108u8, 101u8]
}

/// The bytes of the required `content` key.
pub open spec fn key_content() -> Seq<u8> {
    seq![99u8, 111u8, 110u8, 116u8, 101u8, 110u8, 116u8]
}

/// The bytes of the required `timestamp` key.
pub open spec fn key_timestamp() -> Seq<u8> {
    seq![116u8, 105u8, 109u8, 101u8, 115u8, 116u8, 97u8, 109u8, 112u8]
}

/// The bytes of the optional `toolCalls` key.
pub open spec fn key_tool_calls() -> Seq<u8> {
    seq![116u8, 111u8, 111u8, 108u8, 67u8, 97u8, 108u8, 108u8, 115u8]
}

/// The mathematical model of a decoded envelope.  An absent `toolCalls`
/// is `None`, never the empty sequence: absence is preserved.
#[verifier::ext_equal]
pub struct EnvelopeModel {
    pub role: Seq<u8>,
    pub content: Seq<u8>,
    pub timestamp: Seq<u8>,
    pub tool_calls: Option<Seq<Seq<u8>>>,
}

/// Why a frame was rejected.  The variants are disjoint: for every input
/// exactly one of them — or success — is the outcome, as
/// [`sp_decode`] states.
#[derive(Clone, Copy, Debug, PartialEq, Eq, Structural)]
pub enum DecodeError {
    /// The frame is not a well-formed JSON document.
    Syntax,
    /// The frame is well-formed JSON, but not an object.
    NotAnObject,
    MissingRole,
    /// `role` is present but not a string.
    BadRole,
    MissingContent,
    BadContent,
    MissingTimestamp,
    BadTimestamp,
    /// `toolCalls` is present but not an array of strings.
    BadToolCalls,
}

/// The envelope an object's members denote, or the first reason they do
/// not: `role`, then `content`, then `timestamp`, then `toolCalls`.  Of a
/// repeated key the first occurrence counts.
pub open spec fn env_of_obj(ms: Seq<(Seq<u8>, Json)>) -> Result<EnvelopeModel, DecodeError> {
    match lookup(ms, key_role()) {
        None => Err(DecodeError::MissingRole),
        Some(rv) => match rv {
            Json::Str(role) => match lookup(ms, key_content()) {
                None => Err(DecodeError::MissingContent),
                Some(cv) => match cv {
                    Json::Str(content) => match lookup(ms, key_timestamp()) {
                        None => Err(DecodeError::MissingTimestamp),
                        Some(tv) => match tv {
                            Json::Str(timestamp) => match lookup(ms, key_tool_calls()) {
                                None => Ok(
                                    EnvelopeModel {
                                        role,
                                        content,
                                        timestamp,
                                        tool_calls: None,
                                    },
                                ),
                                Some(av) => match av {
                                    Json::Arr(vs) => match str_items(vs) {
                                        Some(items) => Ok(
                                            EnvelopeModel {
                                                role,
                                                content,
                                                timestamp,
                                                tool_calls: Some(items),
                                            },
                                        ),
                                        None => Err(DecodeError::BadToolCalls),
                                    },
                                    _ => Err(DecodeError::BadToolCalls),
                                },
                            },
                            _ => Err(DecodeError::BadTimestamp),
                        },
                    },
                    _ => Err(DecodeError::BadContent),
                },
            },
            _ => Err(DecodeError::BadRole),
        },
    }
}

/// The outcome of decoding a frame, for every input.
pub open spec fn sp_decode(s: Seq<u8>) -> Result<EnvelopeModel, DecodeError> {
    match parse_document(s) {
        None => Err(DecodeError::Syntax),
        Some(doc) => match doc {
            Json::Obj(ms) => env_of_obj(ms),
            _ => Err(DecodeError::NotAnObject),
        },
    }
}

/// A decoded agent envelope.  Field contents are the decoded UTF-8 bytes
/// of the wire strings; the bridge never interprets them further.
#[derive(Debug, Clone)]
pub struct AgentEnvelope {
    pub role: Vec<u8>,
    pub content: Vec<u8>,
    pub timestamp: Vec<u8>,
    pub tool_calls: Option<Vec<Vec<u8>>>,
}

impl View for AgentEnvelope {
    type V = EnvelopeModel;

    open spec fn view(&self) -> EnvelopeModel {
        EnvelopeModel {
            role: self.role@,
            content: self.content@,
            timestamp: self.timestamp@,
            tool_calls: match self.tool_calls {
                Option::None => None,
                Option::Some(l) => Some(l.deep_view()),
            },
        }
    }
}

/// What the top-level walk found under one required key.
enum FieldSlot {
    Absent,
    Text(Vec<u8>),
    Wrong,
}

/// What the top-level walk found under `toolCalls`.
enum ToolsSlot {
    Absent,
    List(Vec<Vec<u8>>),
    Wrong,
}

/// The walk's findings for all four known keys.
struct FieldScan {
    role: FieldSlot,
    content: FieldSlot,
    timestamp: FieldSlot,
    tools: ToolsSlot,
}

spec fn field_slot_matches(fs: FieldSlot, o: Option<Json>) -> bool {
    match fs {
        FieldSlot::Absent => o is None,
        FieldSlot::Text(b) => o == Some(Json::Str(b@)),
        FieldSlot::Wrong => match o {
            Some(v) => !(v matches Json::Str(_)),
            None => false,
        },
    }
}

spec fn tools_slot_matches(ts: ToolsSlot, o: Option<Json>) -> bool {
    match ts {
        ToolsSlot::Absent => o is None,
        ToolsSlot::List(l) => match o {
            Some(v) => match v {
                Json::Arr(vs) => str_items(vs) == Some(l.deep_view()),
                _ => false,
            },
            None => false,
        },
        ToolsSlot::Wrong => match o {
            Some(v) => match v {
                Json::Arr(vs) => str_items(vs) is None,
                Json::Str(_) => true,
                _ => true,
            },
            None => false,
        },
    }
}

spec fn scan_matches(fs: FieldScan, ms: Seq<(Seq<u8>, Json)>) -> bool {
    &&& field_slot_matches(fs.role, lookup(ms, key_role()))
    &&& field_slot_matches(fs.content, lookup(ms, key_content()))
    &&& field_slot_matches(fs.timestamp, lookup(ms, key_timestamp()))
    &&& tools_slot_matches(fs.tools, lookup(ms, key_tool_calls()))
}

proof fn lemma_lookup_cons(k: Seq<u8>, v: Json, rest: Seq<(Seq<u8>, Json)>, key: Seq<u8>)
    ensures
        lookup(seq![(k, v)] + rest, key) == (if k == key {
            Some(v)
        } else {
            lookup(rest, key)
        }),
{
    let s = seq![(k, v)] + rest;
    assert(s[0] == (k, v));
    assert(s.drop_first() =~= rest);
}

fn is_key_role(k: &Vec<u8>) -> (r: bool)
    ensures
        r == (k@ == key_role()),
{
    if k.len() == 4 {
        let ok = k[0] == 114 && k[1] == 111 && k[2] == 108 && k[3] == 101;
        proof {
            if ok {
                assert(k@ =~= key_role());
            }
        }
        ok
    } else {
        false
    }
}

fn is_key_content(k: &Vec<u8>) -> (r: bool)
    ensures
        r == (k@ == key_content()),
{
    if k.len() == 7 {
        let ok = k[0] == 99 && k[1] == 111 && k[2] == 110 && k[3] == 116 && k[4] == 101 && k[5]
            == 110 && k[6] == 116;
        proof {
            if ok {
                assert(k@ =~= key_content());
            }
        }
        ok
    } else {
        false
    }
}

fn is_key_timestamp(k: &Vec<u8>) -> (r: bool)
    ensures
        r == (k@ == key_timestamp()),
{
    if k.len() == 9 {
        let ok = k[0] == 116 && k[1] == 105 && k[2] == 109 && k[3] == 101 && k[4] == 115 && k[5]
            == 116 && k[6] == 97 && k[7] == 109 && k[8] == 112;
        proof {
            if ok {
                assert(k@ =~= key_timestamp());
            }
        }
        ok
    } else {
        false
    }
}

fn is_key_tool_calls(k: &Vec<u8>) -> (r: bool)
    ensures
        r == (k@ == key_tool_calls()),
{
    if k.len() == 9 {
        let ok = k[0] == 116 && k[1] == 111 && k[2] == 111 && k[3] == 108 && k[4] == 67 && k[5]
            == 97 && k[6] == 108 && k[7] == 108 && k[8] == 115;
        proof {
            if ok {
                assert(k@ =~= key_tool_calls());
            }
        }
        ok
    } else {
        false
    }
}

spec fn field_of_rv(rv: ReadValue) -> FieldSlot {
    match rv {
        ReadValue::Text(b) => FieldSlot::Text(b),
        _ => FieldSlot::Wrong,
    }
}

spec fn tools_of_rv(rv: ReadValue) -> ToolsSlot {
    match rv {
        ReadValue::TextList(l) => ToolsSlot::List(l),
        _ => ToolsSlot::Wrong,
    }
}

/// Fold the member under `key` into the findings for the members after
/// it: the first occurrence of a key shadows later ones.
fn apply_head(key: &Vec<u8>, rv: ReadValue, rest: FieldScan) -> (r: FieldScan)
    ensures
        r.role == (if key@ == key_role() {
            field_of_rv(rv)
        } else {
            rest.role
        }),
        r.content == (if key@ == key_content() {
            field_of_rv(rv)
        } else {
            rest.content
        }),
        r.timestamp == (if key@ == key_timestamp() {
            field_of_rv(rv)
        } else {
            rest.timestamp
        }),
        r.tools == (if key@ == key_tool_calls() {
            tools_of_rv(rv)
        } else {
            rest.tools
        }),
{
    let mut out = rest;
    if is_key_role(key) {
        out.role = match rv {
            ReadValue::Text(b) => FieldSlot::Text(b),
            _ => FieldSlot::Wrong,
        };
    } else if is_key_content(key) {
        out.content = match rv {
            ReadValue::Text(b) => FieldSlot::Text(b),
            _ => FieldSlot::Wrong,
        };
    } else if is_key_timestamp(key) {
        out.timestamp = match rv {
            ReadValue::Text(b) => FieldSlot::Text(b),
            _ => FieldSlot::Wrong,
        };
    } else if is_key_tool_calls(key) {
        out.tools = match rv {
            ReadValue::TextList(l) => ToolsSlot::List(l),
            _ => ToolsSlot::Wrong,
        };
    }
    out
}

/// Walk the top-level members from `i`, recording what stands under each
/// of the four known keys and validating everything else.
fn walk_members(s: &[u8], i: usize) -> (r: Option<(FieldScan, usize)>)
    requires
        i <= s@.len(),
    ensures
        match parse_members(s@, i as int) {
            Some((ms, j)) => r matches Some(p) && p.1 as int == j && i < j <= s@.len()
                && scan_matches(p.0, ms),
            None => r is None,
        },
    decreases s@.len() - i,
{
    if !(i < s.len() && *slice_index_get(s, i) == 0x22) {
        return None;
    }
    let mut key: Vec<u8> = Vec::new();
    match str_body_push(s, i + 1, &mut key) {
        None => None,
        Some(j0) => {
            proof {
                let (cs, _e) = str_body(s@, i as int + 1)->Some_0;
                assert(key@ =~= cs);
            }
            let j = ws_end(s, j0);
            if !(j < s.len() && *slice_index_get(s, j) == 0x3A) {
                return None;
            }
            let k = ws_end(s, j + 1);
            match read_value(s, k) {
                None => None,
                Some((rv, m0)) => {
                    let m = ws_end(s, m0);
                    if m < s.len() && *slice_index_get(s, m) == 0x2C {
                        let n = ws_end(s, m + 1);
                        match walk_members(s, n) {
                            None => None,
                            Some((rest, end)) => {
                                let combined = apply_head(&key, rv, rest);
                                proof {
                                    let (v, _m) = parse_value(s@, k as int)->Some_0;
                                    let (rest_ms, _e) = parse_members(s@, n as int)->Some_0;
                                    lemma_lookup_cons(key@, v, rest_ms, key_role());
                                    lemma_lookup_cons(key@, v, rest_ms, key_content());
                                    lemma_lookup_cons(key@, v, rest_ms, key_timestamp());
                                    lemma_lookup_cons(key@, v, rest_ms, key_tool_calls());
                                }
                                Some((combined, end))
                            },
                        }
                    } else if m < s.len() && *slice_index_get(s, m) == 0x7D {
                        let base = FieldScan {
                            role: FieldSlot::Absent,
                            content: FieldSlot::Absent,
                            timestamp: FieldSlot::Absent,
                            tools: ToolsSlot::Absent,
                        };
                        let combined = apply_head(&key, rv, base);
                        proof {
                            let (v, _m) = parse_value(s@, k as int)->Some_0;
                            let empty_ms = Seq::<(Seq<u8>, Json)>::empty();
                            lemma_lookup_cons(key@, v, empty_ms, key_role());
                            lemma_lookup_cons(key@, v, empty_ms, key_content());
                            lemma_lookup_cons(key@, v, empty_ms, key_timestamp());
                            lemma_lookup_cons(key@, v, empty_ms, key_tool_calls());
                            assert(seq![(key@, v)] + empty_ms =~= seq![(key@, v)]);
                        }
                        Some((combined, m + 1))
                    } else {
                        None
                    }
                },
            }
        },
    }
}

/// Decode one inbound frame.
///
/// The result is exactly what [`sp_decode`] gives on the frame's bytes:
/// every JSON object carrying `role`, `content` and `timestamp` as
/// strings — with `toolCalls`, if present, an array of strings — decodes
/// to the envelope holding those values, `toolCalls` kept in order and
/// its absence kept distinct from emptiness; every other input is
/// rejected with the one error `sp_decode` names for it.  Decoding is
/// pure: it never panics and touches nothing but its argument.
pub fn decode_agent_envelope(raw: &[u8]) -> (r: Result<AgentEnvelope, DecodeError>)
    ensures
        match r {
            Ok(env) => sp_decode(raw@) == Ok::<EnvelopeModel, DecodeError>(env@),
            Err(e) => sp_decode(raw@) == Err::<EnvelopeModel, DecodeError>(e),
        },
{
    let i = ws_end(raw, 0);
    if i < raw.len() && *slice_index_get(raw, i) == 0x7B {
        let j = ws_end(raw, i + 1);
        if j < raw.len() && *slice_index_get(raw, j) == 0x7D {
            let t = ws_end(raw, j + 1);
            if t < raw.len() {
                Err(DecodeError::Syntax)
            } else {
                Err(DecodeError::MissingRole)
            }
        } else {
            match walk_members(raw, j) {
                None => Err(DecodeError::Syntax),
                Some((scan, end)) => {
                    let t = ws_end(raw, end);
                    if t < raw.len() {
                        Err(DecodeError::Syntax)
                    } else {
                        match scan.role {
                            FieldSlot::Absent => Err(DecodeError::MissingRole),
                            FieldSlot::Wrong => Err(DecodeError::BadRole),
                            FieldSlot::Text(role) => match scan.content {
                                FieldSlot::Absent => Err(DecodeError::MissingContent),
                                FieldSlot::Wrong => Err(DecodeError::BadContent),
                                FieldSlot::Text(content) => match scan.timestamp {
                                    FieldSlot::Absent => Err(DecodeError::MissingTimestamp),
                                    FieldSlot::Wrong => Err(DecodeError::BadTimestamp),
                                    FieldSlot::Text(timestamp) => match scan.tools {
                                        ToolsSlot::Wrong => Err(DecodeError::BadToolCalls),
                                        ToolsSlot::Absent => Ok(
                                            AgentEnvelope {
                                                role,
                                                content,
                                                timestamp,
                                                tool_calls: None,
                                            },
                                        ),
                                        ToolsSlot::List(l) => Ok(
                                            AgentEnvelope {
                                                role,
                                                content,
                                                timestamp,
                                                tool_calls: Some(l),
                                            },
                                        ),
                                    },
                                },
                            },
                        }
                    }
                },
            }
        }
    } else {
        match read_value(raw, i) {
            None => Err(DecodeError::Syntax),
            Some((_rv, j)) => {
                let t = ws_end(raw, j);
                if t < raw.len() {
                    Err(DecodeError::Syntax)
                } else {
                    Err(DecodeError::NotAnObject)
                }
            },
        }
    }
}

impl DecodeError {
    /// A short human-readable account of the rejection, for the error
    /// event the session emits.
    pub fn describe(&self) -> (r: &'static str)
        ensures
            r@ == describe_text(*self),
    {
        match self {
            DecodeError::Syntax => "invalid JSON",
            DecodeError::NotAnObject => "not a JSON object",
            DecodeError::MissingRole => "missing field `role`",
            DecodeError::BadRole => "field `role` is not a string",
            DecodeError::MissingContent => "missing field `content`",
            DecodeError::BadContent => "field `content` is not a string",
            DecodeError::MissingTimestamp => "missing field `timestamp`",
            DecodeError::BadTimestamp => "field `timestamp` is not a string",
            DecodeError::BadToolCalls => "field `toolCalls` is not an array of strings",
        }
    }
}

/// The text [`DecodeError::describe`] gives for each rejection.
pub open spec fn describe_text(e: DecodeError) -> Seq<char> {
    match e {
        DecodeError::Syntax => "invalid JSON"@,
        DecodeError::NotAnObject => "not a JSON object"@,
        DecodeError::MissingRole => "missing field `role`"@,
        DecodeError::BadRole => "field `role` is not a string"@,
        DecodeError::MissingContent => "missing field `content`"@,
        DecodeError::BadContent => "field `content` is not a string"@,
        DecodeError::MissingTimestamp => "missing field `timestamp`"@,
        DecodeError::BadTimestamp => "field `timestamp` is not a string"@,
        DecodeError::BadToolCalls => "field `toolCalls` is not an array of strings"@,
    }
}

/// The hexadecimal digit for `d` (meaningful for `0 <= d <= 15`), in
/// lower case.
pub open spec fn hex_digit(d: int) -> u8 {
    if d < 10 {
        (0x30 + d) as u8
    } else {
        (0x61 + d - 10) as u8
    }
}

/// How one byte of outbound string content is written: quote and
/// backslash get their short escapes, as do the five control bytes that
/// have one; every other control byte becomes a `\u00..` escape; the
/// rest pass through.
pub open spec fn esc_byte(b: u8) -> Seq<u8> {
    if b == 0x22 {
        seq![0x5Cu8, 0x22u8]
    } else if b == 0x5C {
        seq![0x5Cu8, 0x5Cu8]
    } else if b == 0x08 {
        seq![0x5Cu8, 0x62u8]
    } else if b == 0x0C {
        seq![0x5Cu8, 0x66u8]
    } else if b == 0x0A {
        seq![0x5Cu8, 0x6Eu8]
    } else if b == 0x0D {
        seq![0x5Cu8, 0x72u8]
    } else if b == 0x09 {
        seq![0x5Cu8, 0x74u8]
    } else if b < 0x20 {
        seq![0x5Cu8, 0x75u8, 0x30u8, 0x30u8, hex_digit(b as int / 16), hex_digit(b as int % 16)]
    } else {
        seq![b]
    }
}

/// The escaped form of a whole string body.
pub open spec fn escape_bytes(cs: Seq<u8>) -> Seq<u8>
    decreases cs.len(),
{
    if cs.len() == 0 {
        Seq::empty()
    } else {
        esc_byte(cs[0]) + escape_bytes(cs.drop_first())
    }
}

proof fn lemma_escape_append_one(p: Seq<u8>, x: u8)
    ensures
        escape_bytes(p + seq![x]) == escape_bytes(p) + esc_byte(x),
    decreases p.len(),
{
    if p.len() == 0 {
        assert(p + seq![x] =~= seq![x]);
        assert((seq![x]).drop_first() =~= Seq::<u8>::empty());
        assert(escape_bytes(Seq::<u8>::empty()) == Seq::<u8>::empty());
        assert((seq![x])[0] == x);
        assert(escape_bytes(seq![x]) == esc_byte(x) + escape_bytes(Seq::<u8>::empty()));
        assert(esc_byte(x) + Seq::<u8>::empty() =~= esc_byte(x));
        assert(escape_bytes(p) + esc_byte(x) =~= esc_byte(x));
    } else {
        assert((p + seq![x])[0] == p[0]);
        assert((p + seq![x]).drop_first() =~= p.drop_first() + seq![x]);
        lemma_escape_append_one(p.drop_first(), x);
        assert(esc_byte(p[0]) + (escape_bytes(p.drop_first()) + esc_byte(x)) =~= (esc_byte(p[0])
            + escape_bytes(p.drop_first())) + esc_byte(x));
    }
}

/// Law: what the encoder escapes, the wire grammar's string reader
/// decodes back exactly — for every content, wherever the escaped form
/// stands in a frame, reading the string body returns the original bytes
/// and stops at the closing quote.  This is the string layer of the
/// round trip between [`encode_ui_command`] and the decoder's grammar.
pub proof fn lemma_escaped_string_round_trip(s: Seq<u8>, i: int, cs: Seq<u8>)
    requires
        0 <= i,
        i + escape_bytes(cs).len() + 1 <= s.len(),
        s.subrange(i, i + escape_bytes(cs).len() + 1) == escape_bytes(cs) + seq![0x22u8],
    ensures
        str_body(s, i) == Some((cs, i + escape_bytes(cs).len() + 1)),
    decreases cs.len(),
{
    let e = escape_bytes(cs);
    let end = i + e.len() + 1;
    if cs.len() == 0 {
        assert(e == Seq::<u8>::empty());
        assert(s.subrange(i, end)[0] == s[i]);
        assert((e + seq![0x22u8])[0] == 0x22u8);
        assert(cs =~= Seq::<u8>::empty());
    } else {
        let c = cs[0];
        let ec = esc_byte(c);
        let cs2 = cs.drop_first();
        let e2 = escape_bytes(cs2);
        assert(e == ec + e2);
        let i2 = i + ec.len();
        assert(forall|k: int| 0 <= k < ec.len() ==> s[i + k] == ec[k]) by {
            assert forall|k: int| 0 <= k < ec.len() implies s[i + k] == ec[k] by {
                assert(s.subrange(i, end)[k] == s[i + k]);
                assert((e + seq![0x22u8])[k] == ec[k]);
            }
        }
        assert(s.subrange(i2, end) =~= e2 + seq![0x22u8]) by {
            assert forall|k: int| 0 <= k < end - i2 implies s.subrange(i2, end)[k] == (e2 + seq![
                0x22u8,
            ])[k] by {
                assert(s.subrange(i2, end)[k] == s[i2 + k]);
                assert(s.subrange(i, end)[ec.len() + k] == s[i2 + k]);
                assert((e + seq![0x22u8])[ec.len() + k] == (e2 + seq![0x22u8])[k]);
            }
        }
        lemma_escaped_string_round_trip(s, i2, cs2);
        assert(seq![c] + cs2 =~= cs);
        if c == 0x22 || c == 0x5C || c == 0x08 || c == 0x0C || c == 0x0A || c == 0x0D || c
            == 0x09 {
            // A short two-byte escape: the backslash, then the code the
            // escape reader maps straight back to `c`.
            assert(s[i] == 0x5C);
            assert(unescape_at(s, i + 1) == Some((seq![c], i + 2)));
        } else if c < 0x20 {
            // A `\u00..` escape: four hex digits carrying the byte.
            assert(s[i] == 0x5C);
            assert(s[i + 1] == 0x75);
            assert(s[i + 2] == 0x30 && s[i + 3] == 0x30);
            assert(s[i + 4] == hex_digit(c as int / 16) && s[i + 5] == hex_digit(c as int % 16));
            assert(crate::json::hex_val(s[i + 4]) == Some(c as int / 16));
            assert(crate::json::hex_val(s[i + 5]) == Some(c as int % 16));
            assert(crate::json::hex4(s, i + 2) == Some(c as int)) by {
                assert((c as int / 16) * 16 + c as int % 16 == c as int);
            }
            assert(crate::json::utf8_enc(c as int) == seq![c]);
            assert(unescape_at(s, i + 1) == Some((seq![c], i + 6)));
        } else {
            // The byte stands for itself.
            assert(s[i] == c);
        }
    }
}

/// A string token: the escaped contents between quotes.
pub open spec fn enc_str(cs: Seq<u8>) -> Seq<u8> {
    seq![0x22u8] + escape_bytes(cs) + seq![0x22u8]
}

/// One or more string-valued members, comma-separated:
/// `"key":"value",...`.
pub open spec fn enc_members(ms: Seq<(Seq<u8>, Seq<u8>)>) -> Seq<u8>
    decreases ms.len(),
{
    if ms.len() == 0 {
        Seq::empty()
    } else if ms.len() == 1 {
        enc_str(ms[0].0) + seq![0x3Au8] + enc_str(ms[0].1)
    } else {
        enc_str(ms[0].0) + seq![0x3Au8] + enc_str(ms[0].1) + seq![0x2Cu8] + enc_members(
            ms.drop_first(),
        )
    }
}

/// One or more array items, comma-separated: `"a","b"`.
pub open spec fn enc_items(items: Seq<Seq<u8>>) -> Seq<u8>
    decreases items.len(),
{
    if items.len() == 0 {
        Seq::empty()
    } else if items.len() == 1 {
        enc_str(items[0])
    } else {
        enc_str(items[0]) + seq![0x2Cu8] + enc_items(items.drop_first())
    }
}

/// The three required members of an envelope, in canonical order.
pub open spec fn base_members(e: EnvelopeModel) -> Seq<(Seq<u8>, Seq<u8>)> {
    seq![(key_role(), e.role), (key_content(), e.content), (key_timestamp(), e.timestamp)]
}

/// The canonical wire form of an envelope: one JSON object, no
/// whitespace, members in the order role, content, timestamp, and — only
/// when present — toolCalls.
pub open spec fn encode_envelope(e: EnvelopeModel) -> Seq<u8> {
    match e.tool_calls {
        None => seq![0x7Bu8] + enc_members(base_members(e)) + seq![0x7Du8],
        Some(items) => seq![0x7Bu8] + enc_members(base_members(e)) + seq![0x2Cu8] + enc_str(
            key_tool_calls(),
        ) + seq![0x3Au8, 0x5Bu8] + enc_items(items) + seq![0x5Du8, 0x7Du8],
    }
}

/// String-valued members, as the parser models them.
pub open spec fn json_members(ms: Seq<(Seq<u8>, Seq<u8>)>) -> Seq<(Seq<u8>, Json)> {
    Seq::new(ms.len(), |k: int| (ms[k].0, Json::Str(ms[k].1)))
}

/// String items, as the parser models them.
pub open spec fn strs_of(items: Seq<Seq<u8>>) -> Seq<Json> {
    Seq::new(items.len(), |k: int| Json::Str(items[k]))
}

proof fn lemma_str_items_of_strs(items: Seq<Seq<u8>>)
    ensures
        str_items(strs_of(items)) == Some(items),
    decreases items.len(),
{
    if items.len() == 0 {
        assert(strs_of(items) =~= Seq::<Json>::empty());
        assert(items =~= Seq::<Seq<u8>>::empty());
    } else {
        lemma_str_items_of_strs(items.drop_first());
        assert(strs_of(items).drop_first() =~= strs_of(items.drop_first()));
        assert(seq![items[0]] + items.drop_first() =~= items);
    }
}

/// Reading a string token out of the middle of a frame.
proof fn lemma_enc_str_reads(s: Seq<u8>, i: int, cs: Seq<u8>)
    requires
        0 <= i,
        i + enc_str(cs).len() <= s.len(),
        s.subrange(i, i + enc_str(cs).len()) == enc_str(cs),
    ensures
        s[i] == 0x22,
        str_body(s, i + 1) == Some((cs, i + enc_str(cs).len())),
{
    let esc = escape_bytes(cs);
    assert(s.subrange(i, i + enc_str(cs).len())[0] == s[i]);
    assert(enc_str(cs)[0] == 0x22);
    assert(s.subrange(i + 1, i + 1 + esc.len() + 1) =~= esc + seq![0x22u8]) by {
        assert forall|t: int| 0 <= t < esc.len() + 1 implies s.subrange(
            i + 1,
            i + 1 + esc.len() + 1,
        )[t] == (esc + seq![0x22u8])[t] by {
            assert(s.subrange(i + 1, i + 1 + esc.len() + 1)[t] == s[i + 1 + t]);
            assert(s.subrange(i, i + enc_str(cs).len())[1 + t] == s[i + 1 + t]);
            assert(enc_str(cs)[1 + t] == (esc + seq![0x22u8])[t]);
        }
    }
    lemma_escaped_string_round_trip(s, i + 1, cs);
}

/// Reading a run of string-valued members that ends at the closing
/// brace.
proof fn lemma_enc_members_close(s: Seq<u8>, i: int, ms: Seq<(Seq<u8>, Seq<u8>)>)
    requires
        ms.len() > 0,
        0 <= i,
        i + enc_members(ms).len() < s.len(),
        s.subrange(i, i + enc_members(ms).len()) == enc_members(ms),
        s[i + enc_members(ms).len()] == 0x7D,
    ensures
        parse_members(s, i) == Some((json_members(ms), i + enc_members(ms).len() + 1)),
    decreases ms.len(),
{
    let em = enc_members(ms);
    let L = em.len();
    let key = ms[0].0;
    let val = ms[0].1;
    let ek = enc_str(key);
    let ev = enc_str(val);
    assert(forall|t: int| 0 <= t < L ==> s[i + t] == em[t]) by {
        assert forall|t: int| 0 <= t < L implies s[i + t] == em[t] by {
            assert(s.subrange(i, i + L)[t] == s[i + t]);
        }
    }
    assert(s.subrange(i, i + ek.len()) =~= ek) by {
        assert forall|t: int| 0 <= t < ek.len() implies s.subrange(i, i + ek.len())[t] == ek[t] by {
            assert(s.subrange(i, i + ek.len())[t] == s[i + t]);
            assert(em[t] == ek[t]);
        }
    }
    lemma_enc_str_reads(s, i, key);
    let j0 = i + ek.len();
    assert(em[ek.len() as int] == 0x3A);
    assert(skip_ws(s, j0) == j0);
    assert(at_least(j0, i + 1) == j0);
    let k = j0 + 1;
    assert(em[ek.len() as int + 1] == ev[0]);
    assert(ev[0] == 0x22);
    assert(skip_ws(s, k) == k);
    assert(at_least(k, j0 + 1) == k);
    assert(s.subrange(k, k + ev.len()) =~= ev) by {
        assert forall|t: int| 0 <= t < ev.len() implies s.subrange(k, k + ev.len())[t] == ev[t] by {
            assert(s.subrange(k, k + ev.len())[t] == s[k + t]);
            assert(em[ek.len() as int + 1 + t] == ev[t]);
        }
    }
    lemma_enc_str_reads(s, k, val);
    let m0 = k + ev.len();
    assert(parse_value(s, k) == Some((Json::Str(val), m0)));
    if ms.len() == 1 {
        assert(m0 == i + L);
        assert(skip_ws(s, m0) == m0);
        assert(at_least(m0, k) == m0);
        assert(parse_members(s, i) == Some((seq![(key, Json::Str(val))], m0 + 1)));
        assert(json_members(ms) =~= seq![(key, Json::Str(val))]);
    } else {
        let ms2 = ms.drop_first();
        let em2 = enc_members(ms2);
        assert(em == ek + seq![0x3Au8] + ev + seq![0x2Cu8] + em2);
        assert(em[ek.len() as int + 1 + ev.len() as int] == 0x2C);
        assert(skip_ws(s, m0) == m0);
        assert(at_least(m0, k) == m0);
        let n = m0 + 1;
        assert(em2[0] == 0x22) by {
            assert(em2 == if ms2.len() == 1 {
                enc_str(ms2[0].0) + seq![0x3Au8] + enc_str(ms2[0].1)
            } else {
                enc_str(ms2[0].0) + seq![0x3Au8] + enc_str(ms2[0].1) + seq![0x2Cu8]
                    + enc_members(ms2.drop_first())
            });
            assert(enc_str(ms2[0].0)[0] == 0x22);
        }
        assert(em[ek.len() as int + 1 + ev.len() as int + 1] == em2[0]);
        assert(skip_ws(s, n) == n);
        assert(at_least(n, m0 + 1) == n);
        assert(s.subrange(n, n + em2.len()) =~= em2) by {
            assert forall|t: int| 0 <= t < em2.len() implies s.subrange(n, n + em2.len())[t]
                == em2[t] by {
                assert(s.subrange(n, n + em2.len())[t] == s[n + t]);
                assert(em[ek.len() as int + 1 + ev.len() as int + 1 + t] == em2[t]);
            }
        }
        assert(n + em2.len() == i + L);
        lemma_enc_members_close(s, n, ms2);
        assert(parse_members(s, i) == Some(
            (seq![(key, Json::Str(val))] + json_members(ms2), i + L + 1),
        ));
        assert(json_members(ms) =~= seq![(key, Json::Str(val))] + json_members(ms2));
    }
}

/// Reading a run of string-valued members that a comma and further,
/// already-understood members follow.
proof fn lemma_enc_members_prepend(
    s: Seq<u8>,
    i: int,
    ms: Seq<(Seq<u8>, Seq<u8>)>,
    rest_ms: Seq<(Seq<u8>, Json)>,
    rest_end: int,
)
    requires
        ms.len() > 0,
        0 <= i,
        i + enc_members(ms).len() + 1 < s.len(),
        s.subrange(i, i + enc_members(ms).len()) == enc_members(ms),
        s[i + enc_members(ms).len()] == 0x2C,
        s[i + enc_members(ms).len() + 1] == 0x22,
        parse_members(s, i + enc_members(ms).len() + 1) == Some((rest_ms, rest_end)),
    ensures
        parse_members(s, i) == Some((json_members(ms) + rest_ms, rest_end)),
    decreases ms.len(),
{
    let em = enc_members(ms);
    let L = em.len();
    let key = ms[0].0;
    let val = ms[0].1;
    let ek = enc_str(key);
    let ev = enc_str(val);
    assert(forall|t: int| 0 <= t < L ==> s[i + t] == em[t]) by {
        assert forall|t: int| 0 <= t < L implies s[i + t] == em[t] by {
            assert(s.subrange(i, i + L)[t] == s[i + t]);
        }
    }
    assert(s.subrange(i, i + ek.len()) =~= ek) by {
        assert forall|t: int| 0 <= t < ek.len() implies s.subrange(i, i + ek.len())[t] == ek[t] by {
            assert(s.subrange(i, i + ek.len())[t] == s[i + t]);
            assert(em[t] == ek[t]);
        }
    }
    lemma_enc_str_reads(s, i, key);
    let j0 = i + ek.len();
    assert(em[ek.len() as int] == 0x3A);
    assert(skip_ws(s, j0) == j0);
    assert(at_least(j0, i + 1) == j0);
    let k = j0 + 1;
    assert(em[ek.len() as int + 1] == ev[0]);
    assert(ev[0] == 0x22);
    assert(skip_ws(s, k) == k);
    assert(at_least(k, j0 + 1) == k);
    assert(s.subrange(k, k + ev.len()) =~= ev) by {
        assert forall|t: int| 0 <= t < ev.len() implies s.subrange(k, k + ev.len())[t] == ev[t] by {
            assert(s.subrange(k, k + ev.len())[t] == s[k + t]);
            assert(em[ek.len() as int + 1 + t] == ev[t]);
        }
    }
    lemma_enc_str_reads(s, k, val);
    let m0 = k + ev.len();
    assert(parse_value(s, k) == Some((Json::Str(val), m0)));
    if ms.len() == 1 {
        assert(m0 == i + L);
        assert(skip_ws(s, m0) == m0);
        assert(at_least(m0, k) == m0);
        let n = m0 + 1;
        assert(skip_ws(s, n) == n);
        assert(at_least(n, m0 + 1) == n);
        assert(parse_members(s, i) == Some((seq![(key, Json::Str(val))] + rest_ms, rest_end)));
        assert(json_members(ms) =~= seq![(key, Json::Str(val))]);
        assert(seq![(key, Json::Str(val))] + rest_ms =~= json_members(ms) + rest_ms);
    } else {
        let ms2 = ms.drop_first();
        let em2 = enc_members(ms2);
        assert(em == ek + seq![0x3Au8] + ev + seq![0x2Cu8] + em2);
        assert(em[ek.len() as int + 1 + ev.len() as int] == 0x2C);
        assert(skip_ws(s, m0) == m0);
        assert(at_least(m0, k) == m0);
        let n = m0 + 1;
        assert(em2[0] == 0x22) by {
            assert(em2 == if ms2.len() == 1 {
                enc_str(ms2[0].0) + seq![0x3Au8] + enc_str(ms2[0].1)
            } else {
                enc_str(ms2[0].0) + seq![0x3Au8] + enc_str(ms2[0].1) + seq![0x2Cu8]
                    + enc_members(ms2.drop_first())
            });
            assert(enc_str(ms2[0].0)[0] == 0x22);
        }
        assert(em[ek.len() as int + 1 + ev.len() as int + 1] == em2[0]);
        assert(skip_ws(s, n) == n);
        assert(at_least(n, m0 + 1) == n);
        assert(s.subrange(n, n + em2.len()) =~= em2) by {
            assert forall|t: int| 0 <= t < em2.len() implies s.subrange(n, n + em2.len())[t]
                == em2[t] by {
                assert(s.subrange(n, n + em2.len())[t] == s[n + t]);
                assert(em[ek.len() as int + 1 + ev.len() as int + 1 + t] == em2[t]);
            }
        }
        assert(n + em2.len() == i + L);
        lemma_enc_members_prepend(s, n, ms2, rest_ms, rest_end);
        assert(parse_members(s, i) == Some(
            (seq![(key, Json::Str(val))] + (json_members(ms2) + rest_ms), rest_end),
        ));
        assert(json_members(ms) =~= seq![(key, Json::Str(val))] + json_members(ms2));
        assert(seq![(key, Json::Str(val))] + (json_members(ms2) + rest_ms) =~= json_members(ms)
            + rest_ms);
    }
}

/// Reading a run of string items that ends at the closing bracket.
proof fn lemma_enc_items_parse(s: Seq<u8>, i: int, items: Seq<Seq<u8>>)
    requires
        items.len() > 0,
        0 <= i,
        i + enc_items(items).len() < s.len(),
        s.subrange(i, i + enc_items(items).len()) == enc_items(items),
        s[i + enc_items(items).len()] == 0x5D,
    ensures
        parse_elems(s, i) == Some((strs_of(items), i + enc_items(items).len() + 1)),
    decreases items.len(),
{
    let ei = enc_items(items);
    let L = ei.len();
    let head = items[0];
    let eh = enc_str(head);
    assert(forall|t: int| 0 <= t < L ==> s[i + t] == ei[t]) by {
        assert forall|t: int| 0 <= t < L implies s[i + t] == ei[t] by {
            assert(s.subrange(i, i + L)[t] == s[i + t]);
        }
    }
    assert(s.subrange(i, i + eh.len()) =~= eh) by {
        assert forall|t: int| 0 <= t < eh.len() implies s.subrange(i, i + eh.len())[t] == eh[t] by {
            assert(s.subrange(i, i + eh.len())[t] == s[i + t]);
            assert(ei[t] == eh[t]);
        }
    }
    lemma_enc_str_reads(s, i, head);
    let j0 = i + eh.len();
    assert(parse_value(s, i) == Some((Json::Str(head), j0)));
    if items.len() == 1 {
        assert(j0 == i + L);
        assert(skip_ws(s, j0) == j0);
        assert(at_least(j0, i + 1) == j0);
        assert(parse_elems(s, i) == Some((seq![Json::Str(head)], j0 + 1)));
        assert(strs_of(items) =~= seq![Json::Str(head)]);
    } else {
        let items2 = items.drop_first();
        let ei2 = enc_items(items2);
        assert(ei == eh + seq![0x2Cu8] + ei2);
        assert(ei[eh.len() as int] == 0x2C);
        assert(skip_ws(s, j0) == j0);
        assert(at_least(j0, i + 1) == j0);
        let k = j0 + 1;
        assert(ei2[0] == 0x22) by {
            assert(ei2 == if items2.len() == 1 {
                enc_str(items2[0])
            } else {
                enc_str(items2[0]) + seq![0x2Cu8] + enc_items(items2.drop_first())
            });
            assert(enc_str(items2[0])[0] == 0x22);
        }
        assert(ei[eh.len() as int + 1] == ei2[0]);
        assert(skip_ws(s, k) == k);
        assert(at_least(k, j0 + 1) == k);
        assert(s.subrange(k, k + ei2.len()) =~= ei2) by {
            assert forall|t: int| 0 <= t < ei2.len() implies s.subrange(k, k + ei2.len())[t]
                == ei2[t] by {
                assert(s.subrange(k, k + ei2.len())[t] == s[k + t]);
                assert(ei[eh.len() as int + 1 + t] == ei2[t]);
            }
        }
        assert(k + ei2.len() == i + L);
        lemma_enc_items_parse(s, k, items2);
        assert(parse_elems(s, i) == Some((seq![Json::Str(head)] + strs_of(items2), i + L + 1)));
        assert(strs_of(items) =~= seq![Json::Str(head)] + strs_of(items2));
    }
}

/// The lookups and field checks over the three canonical string members,
/// with `rest` standing behind them.
#[verifier::rlimit(100)]
proof fn lemma_env_of_canonical(e: EnvelopeModel, rest: Seq<(Seq<u8>, Json)>)
    requires
        rest.len() <= 1,
        rest.len() == 1 ==> (e.tool_calls matches Some(items) && rest[0] == (
            key_tool_calls(),
            Json::Arr(strs_of(items)),
        )),
        rest.len() == 0 ==> e.tool_calls is None,
    ensures
        env_of_obj(json_members(base_members(e)) + rest) == Ok::<EnvelopeModel, DecodeError>(e),
{
    let kr = key_role();
    let kc = key_content();
    let kt = key_timestamp();
    let ka = key_tool_calls();
    let m1 = (kr, Json::Str(e.role));
    let m2 = (kc, Json::Str(e.content));
    let m3 = (kt, Json::Str(e.timestamp));
    assert(kr != kc && kr != kt && kr != ka && kc != kt && kc != ka);
    assert(kt != ka) by {
        assert(kt[1] == 105);
        assert(ka[1] == 111);
    }
    let jm = json_members(base_members(e)) + rest;
    if rest.len() == 0 {
        assert(jm =~= seq![m1, m2, m3]);
        assert((seq![m1, m2, m3]).drop_first() =~= seq![m2, m3]);
        assert((seq![m2, m3]).drop_first() =~= seq![m3]);
        assert((seq![m3]).drop_first() =~= Seq::<(Seq<u8>, Json)>::empty());
        assert(lookup(jm, kr) == Some(Json::Str(e.role)));
        assert(lookup(seq![m2, m3], kc) == Some(Json::Str(e.content)));
        assert(lookup(jm, kc) == Some(Json::Str(e.content)));
        assert(lookup(seq![m3], kt) == Some(Json::Str(e.timestamp)));
        assert(lookup(seq![m2, m3], kt) == Some(Json::Str(e.timestamp)));
        assert(lookup(jm, kt) == Some(Json::Str(e.timestamp)));
        assert(lookup(Seq::<(Seq<u8>, Json)>::empty(), ka) is None);
        assert(lookup(seq![m3], ka) is None);
        assert(lookup(seq![m2, m3], ka) is None);
        assert(lookup(jm, ka) is None);
        assert(EnvelopeModel {
            role: e.role,
            content: e.content,
            timestamp: e.timestamp,
            tool_calls: None,
        } =~= e);
    } else {
        let items = e.tool_calls->Some_0;
        let arrv = Json::Arr(strs_of(items));
        let m4 = (ka, arrv);
        lemma_str_items_of_strs(items);
        assert(jm =~= seq![m1, m2, m3, m4]);
        assert((seq![m1, m2, m3, m4]).drop_first() =~= seq![m2, m3, m4]);
        assert((seq![m2, m3, m4]).drop_first() =~= seq![m3, m4]);
        assert((seq![m3, m4]).drop_first() =~= seq![m4]);
        assert(lookup(jm, kr) == Some(Json::Str(e.role)));
        assert(lookup(seq![m2, m3, m4], kc) == Some(Json::Str(e.content)));
        assert(lookup(jm, kc) == Some(Json::Str(e.content)));
        assert(lookup(seq![m3, m4], kt) == Some(Json::Str(e.timestamp)));
        assert(lookup(seq![m2, m3, m4], kt) == Some(Json::Str(e.timestamp)));
        assert(lookup(jm, kt) == Some(Json::Str(e.timestamp)));
        assert(lookup(seq![m4], ka) == Some(arrv));
        assert(lookup(seq![m3, m4], ka) == Some(arrv));
        assert(lookup(seq![m2, m3, m4], ka) == Some(arrv));
        assert(lookup(jm, ka) == Some(arrv));
        assert(EnvelopeModel {
            role: e.role,
            content: e.content,
            timestamp: e.timestamp,
            tool_calls: Some(items),
        } =~= e);
    }
}

/// The round trip when `toolCalls` is absent.
#[verifier::rlimit(100)]
proof fn lemma_round_trip_without_tools(e: EnvelopeModel)
    requires
        e.tool_calls is None,
    ensures
        sp_decode(encode_envelope(e)) == Ok::<EnvelopeModel, DecodeError>(e),
{
    let s = encode_envelope(e);
    let bm = base_members(e);
    let em = enc_members(bm);
    let L = em.len() as int;
    assert(bm.len() == 3);
    assert(em[0] == 0x22) by {
        assert(em == enc_str(bm[0].0) + seq![0x3Au8] + enc_str(bm[0].1) + seq![0x2Cu8]
            + enc_members(bm.drop_first()));
        assert(enc_str(bm[0].0)[0] == 0x22);
    }
    let jm = json_members(bm);
    assert(s == seq![0x7Bu8] + em + seq![0x7Du8]);
    assert(s.len() == L + 2);
    assert(s[0] == 0x7B);
    assert(s[1] == 0x22);
    assert(s.subrange(1, 1 + L) =~= em) by {
        assert forall|t: int| 0 <= t < L implies s.subrange(1, 1 + L)[t] == em[t] by {
            assert(s.subrange(1, 1 + L)[t] == s[1 + t]);
        }
    }
    assert(s[1 + L] == 0x7D);
    lemma_enc_members_close(s, 1, bm);
    assert(skip_ws(s, 1) == 1);
    assert(at_least(1, 1) == 1);
    assert(parse_value(s, 0) == Some((Json::Obj(jm), s.len() as int)));
    assert(skip_ws(s, 0) == 0);
    assert(skip_ws(s, s.len() as int) == s.len());
    assert(parse_document(s) == Some(Json::Obj(jm)));
    assert(jm + Seq::<(Seq<u8>, Json)>::empty() =~= jm);
    lemma_env_of_canonical(e, Seq::empty());
}

/// Reading the closing `toolCalls` member: its key, the array of string
/// items, and the closing brace.
#[verifier::rlimit(100)]
proof fn lemma_tool_calls_member(s: Seq<u8>, p3: int, items: Seq<Seq<u8>>)
    requires
        0 <= p3,
        p3 + enc_str(key_tool_calls()).len() + 2 + enc_items(items).len() + 2 == s.len(),
        s.subrange(p3, p3 + enc_str(key_tool_calls()).len()) == enc_str(key_tool_calls()),
        s[p3 + enc_str(key_tool_calls()).len()] == 0x3A,
        s[p3 + enc_str(key_tool_calls()).len() + 1] == 0x5B,
        s.subrange(
            p3 + enc_str(key_tool_calls()).len() + 2,
            p3 + enc_str(key_tool_calls()).len() + 2 + enc_items(items).len(),
        ) == enc_items(items),
        s[p3 + enc_str(key_tool_calls()).len() + 2 + enc_items(items).len()] == 0x5D,
        s[p3 + enc_str(key_tool_calls()).len() + 2 + enc_items(items).len() + 1] == 0x7D,
    ensures
        parse_members(s, p3) == Some(
            (seq![(key_tool_calls(), Json::Arr(strs_of(items)))], s.len() as int),
        ),
{
    let ka = key_tool_calls();
    let ek = enc_str(ka);
    let ei = enc_items(items);
    let p4: int = p3 + ek.len() as int;
    let p5: int = p4 + 1;
    let p6: int = p5 + 1;
    let p7: int = p6 + ei.len() as int;
    let p8: int = p7 + 1;
    lemma_enc_str_reads(s, p3, ka);
    assert(s[p3] == 0x22);
    assert(skip_ws(s, p4) == p4);
    assert(at_least(p4, p3 + 1) == p4);
    assert(skip_ws(s, p5) == p5);
    assert(at_least(p5, p4 + 1) == p5);
    let arrv = Json::Arr(strs_of(items));
    if items.len() == 0 {
        assert(p7 == p6);
        assert(skip_ws(s, p6) == p6);
        assert(at_least(p6, p5 + 1) == p6);
        assert(strs_of(items) =~= Seq::<Json>::empty());
        assert(parse_value(s, p5) == Some((arrv, p7 + 1)));
    } else {
        assert(ei[0] == 0x22) by {
            assert(ei == if items.len() == 1 {
                enc_str(items[0])
            } else {
                enc_str(items[0]) + seq![0x2Cu8] + enc_items(items.drop_first())
            });
            assert(enc_str(items[0])[0] == 0x22);
        }
        assert(s[p6] == ei[0]) by {
            assert(s.subrange(p6, p7)[0] == s[p6]);
        }
        assert(skip_ws(s, p6) == p6);
        assert(at_least(p6, p5 + 1) == p6);
        lemma_enc_items_parse(s, p6, items);
        assert(!(s[p6] == 0x5D));
        assert(parse_value(s, p5) == Some((arrv, p7 + 1)));
    }
    assert(skip_ws(s, p8) == p8);
    assert(at_least(p8, p5) == p8);
    assert(parse_members(s, p3) == Some((seq![(ka, arrv)], p8 + 1)));
}

/// The round trip when `toolCalls` is present.
#[verifier::rlimit(100)]
proof fn lemma_round_trip_with_tools(e: EnvelopeModel, items: Seq<Seq<u8>>)
    requires
        e.tool_calls == Some(items),
    ensures
        sp_decode(encode_envelope(e)) == Ok::<EnvelopeModel, DecodeError>(e),
{
    let s = encode_envelope(e);
    let bm = base_members(e);
    let em = enc_members(bm);
    let L = em.len() as int;
    let ka = key_tool_calls();
    let ek = enc_str(ka);
    let ei = enc_items(items);
    assert(bm.len() == 3);
    assert(em[0] == 0x22) by {
        assert(em == enc_str(bm[0].0) + seq![0x3Au8] + enc_str(bm[0].1) + seq![0x2Cu8]
            + enc_members(bm.drop_first()));
        assert(enc_str(bm[0].0)[0] == 0x22);
    }
    assert(s == seq![0x7Bu8] + em + seq![0x2Cu8] + ek + seq![0x3Au8, 0x5Bu8] + ei + seq![
        0x5Du8,
        0x7Du8,
    ]);
    let p3: int = 1 + L + 1;
    let p4: int = p3 + ek.len() as int;
    let p5: int = p4 + 1;
    let p6: int = p5 + 1;
    let p7: int = p6 + ei.len() as int;
    let p8: int = p7 + 1;
    assert(s.len() == p8 + 1);
    assert(s[0] == 0x7B);
    assert(s[1] == 0x22);
    assert(s[1 + L] == 0x2C);
    assert(s[p3] == ek[0]);
    assert(ek[0] == 0x22);
    assert(s[p4] == 0x3A);
    assert(s[p5] == 0x5B);
    assert(s[p7] == 0x5D);
    assert(s[p8] == 0x7D);
    assert(s.subrange(1, 1 + L) =~= em) by {
        assert forall|t: int| 0 <= t < L implies s.subrange(1, 1 + L)[t] == em[t] by {
            assert(s.subrange(1, 1 + L)[t] == s[1 + t]);
        }
    }
    assert(s.subrange(p3, p4) =~= ek) by {
        assert forall|t: int| 0 <= t < ek.len() implies s.subrange(p3, p4)[t] == ek[t] by {
            assert(s.subrange(p3, p4)[t] == s[p3 + t]);
        }
    }
    assert(s.subrange(p6, p7) =~= ei) by {
        assert forall|t: int| 0 <= t < ei.len() implies s.subrange(p6, p7)[t] == ei[t] by {
            assert(s.subrange(p6, p7)[t] == s[p6 + t]);
        }
    }
    lemma_tool_calls_member(s, p3, items);
    let m4 = (ka, Json::Arr(strs_of(items)));
    lemma_enc_members_prepend(s, 1, bm, seq![m4], s.len() as int);
    let jm4 = json_members(bm) + seq![m4];
    assert(skip_ws(s, 1) == 1);
    assert(at_least(1, 1) == 1);
    assert(parse_value(s, 0) == Some((Json::Obj(jm4), s.len() as int)));
    assert(skip_ws(s, 0) == 0);
    assert(skip_ws(s, s.len() as int) == s.len());
    assert(parse_document(s) == Some(Json::Obj(jm4)));
    lemma_env_of_canonical(e, seq![m4]);
}

/// Law: the full round trip.  Every envelope, written in its canonical
/// wire form, decodes back to exactly itself — `toolCalls` kept in
/// order when present, and its absence kept distinct from emptiness.
pub proof fn lemma_envelope_round_trip(e: EnvelopeModel)
    ensures
        sp_decode(encode_envelope(e)) == Ok::<EnvelopeModel, DecodeError>(e),
{
    match e.tool_calls {
        None => lemma_round_trip_without_tools(e),
        Some(items) => lemma_round_trip_with_tools(e, items),
    }
}

/// The opening bytes of an outbound command:
/// `{"type":"user_input","content":"`.
pub open spec fn cmd_prefix() -> Seq<u8> {
    seq![
        123u8, 34u8, 116u8, 121u8, 112u8, 101u8, 34u8, 58u8, 34u8, 117u8, 115u8, 101u8, 114u8,
        95u8, 105u8, 110u8, 112u8, 117u8, 116u8, 34u8, 44u8, 34u8, 99u8, 111u8, 110u8, 116u8,
        101u8, 110u8, 116u8, 34u8, 58u8, 34u8,
    ]
}

/// The closing bytes of an outbound command: `"}`.
pub open spec fn cmd_suffix() -> Seq<u8> {
    seq![34u8, 125u8]
}

/// The bytes the bridge sends the agent for a command carrying
/// `content`: a JSON object with the fixed kind `user_input` and the
/// escaped content.
pub open spec fn sp_encode_command(content: Seq<u8>) -> Seq<u8> {
    cmd_prefix() + escape_bytes(content) + cmd_suffix()
}

/// A UI-issued outbound command.  Its kind on the wire is always
/// `user_input`; no other command kind exists in this protocol version.
pub struct UiCommand {
    pub content: Vec<u8>,
}

impl UiCommand {
    /// The one way a command is made.
    pub fn user_input(content: Vec<u8>) -> (cmd: UiCommand)
        ensures
            cmd.content == content,
    {
        UiCommand { content }
    }
}

/// Encode one outbound command.  Encoding is total: it succeeds for
/// every content, and the result is exactly [`sp_encode_command`] of it.
pub fn encode_ui_command(cmd: &UiCommand) -> (r: Vec<u8>)
    ensures
        r@ == sp_encode_command(cmd.content@),
{
    let mut out: Vec<u8> = Vec::new();
    out.push(123);
    out.push(34);
    out.push(116);
    out.push(121);
    out.push(112);
    out.push(101);
    out.push(34);
    out.push(58);
    out.push(34);
    out.push(117);
    out.push(115);
    out.push(101);
    out.push(114);
    out.push(95);
    out.push(105);
    out.push(110);
    out.push(112);
    out.push(117);
    out.push(116);
    out.push(34);
    out.push(44);
    out.push(34);
    out.push(99);
    out.push(111);
    out.push(110);
    out.push(116);
    out.push(101);
    out.push(110);
    out.push(116);
    out.push(34);
    out.push(58);
    out.push(34);
    assert(out@ =~= cmd_prefix());
    assert(escape_bytes(cmd.content@.take(0)) =~= Seq::<u8>::empty()) by {
        assert(cmd.content@.take(0) =~= Seq::<u8>::empty());
    }
    assert(out@ =~= cmd_prefix() + escape_bytes(cmd.content@.take(0)));
    let mut idx: usize = 0;
    while idx < cmd.content.len()
        invariant
            idx <= cmd.content.len(),
            out@ == cmd_prefix() + escape_bytes(cmd.content@.take(idx as int)),
        decreases cmd.content.len() - idx,
    {
        let b = cmd.content[idx];
        if b == 0x22 {
            out.push(0x5C);
            out.push(0x22);
        } else if b == 0x5C {
            out.push(0x5C);
            out.push(0x5C);
        } else if b == 0x08 {
            out.push(0x5C);
            out.push(0x62);
        } else if b == 0x0C {
            out.push(0x5C);
            out.push(0x66);
        } else if b == 0x0A {
            out.push(0x5C);
            out.push(0x6E);
        } else if b == 0x0D {
            out.push(0x5C);
            out.push(0x72);
        } else if b == 0x09 {
            out.push(0x5C);
            out.push(0x74);
        } else if b < 0x20 {
            out.push(0x5C);
            out.push(0x75);
            out.push(0x30);
            out.push(0x30);
            if b / 16 < 10 {
                out.push(0x30 + b / 16);
            } else {
                out.push(0x61 + b / 16 - 10);
            }
            if b % 16 < 10 {
                out.push(0x30 + b % 16);
            } else {
                out.push(0x61 + b % 16 - 10);
            }
        } else {
            out.push(b);
        }
        proof {
            lemma_escape_append_one(cmd.content@.take(idx as int), cmd.content@[idx as int]);
            assert(cmd.content@.take(idx as int + 1) =~= cmd.content@.take(idx as int) + seq![
                cmd.content@[idx as int],
            ]);
            assert(out@ =~= cmd_prefix() + escape_bytes(cmd.content@.take(idx as int + 1)));
        }
        idx = idx + 1;
    }
    assert(cmd.content@.take(cmd.content@.len() as int) =~= cmd.content@);
    out.push(34);
    out.push(125);
    assert(out@ =~= sp_encode_command(cmd.content@));
    out
}

} // verus!
