//! Control messages: handshakes, heartbeats, and stream closure.

use vstd::prelude::*;

use crate::result::{
    env_keys_free, envelope_jv, envelope_of_jv, envelope_wf, EnvV, ErrorCode, RiverResultInternal,
};
use crate::value::{
    get_any_field, get_i64_field, get_str_field, jmembers_of, jv_clone, jv_field, jv_get,
    jv_i64_field, jv_str_field, jval_of, lemma_jmembers_of, lemma_jmembers_of_push,
    lemma_obj_get_at, obj_get, str_eq, JVal, JsonValue,
};

verus! {

// ---------- protocol version ----------

/// River protocol version carried in a handshake.
#[derive(Debug, PartialEq, Eq, Clone)]
pub enum ProtocolVersion {
    V0,
    V1,
    V1_1,
    V2_0,
    /// Any other version string, passed through unchanged.
    Unknown(String),
}

/// Mathematical shape of a protocol version.
pub enum PVV {
    V0,
    V1,
    V1_1,
    V2_0,
    Unknown(Seq<char>),
}

impl View for ProtocolVersion {
    type V = PVV;

    open spec fn view(&self) -> PVV {
        match self {
            ProtocolVersion::V0 => PVV::V0,
            ProtocolVersion::V1 => PVV::V1,
            ProtocolVersion::V1_1 => PVV::V1_1,
            ProtocolVersion::V2_0 => PVV::V2_0,
            ProtocolVersion::Unknown(s) => PVV::Unknown(s@),
        }
    }
}

/// Wire spelling of a version.
pub open spec fn version_str(v: PVV) -> Seq<char> {
    match v {
        PVV::V0 => ("v0")@,
        PVV::V1 => ("v1")@,
        PVV::V1_1 => ("v1.1")@,
        PVV::V2_0 => ("v2.0")@,
        PVV::Unknown(s) => s,
    }
}

/// Version named by a wire string; never yields `Unknown` of a known
/// spelling.
pub open spec fn version_of_str(s: Seq<char>) -> PVV {
    if s == ("v0")@ {
        PVV::V0
    } else if s == ("v1")@ {
        PVV::V1
    } else if s == ("v1.1")@ {
        PVV::V1_1
    } else if s == ("v2.0")@ {
        PVV::V2_0
    } else {
        PVV::Unknown(s)
    }
}

impl ProtocolVersion {
    /// The wire spelling of this version.
    pub fn to_version_string(&self) -> (r: String)
        ensures
            r@ == version_str(self@),
    {
        match self {
            ProtocolVersion::V0 => "v0".to_owned(),
            ProtocolVersion::V1 => "v1".to_owned(),
            ProtocolVersion::V1_1 => "v1.1".to_owned(),
            ProtocolVersion::V2_0 => "v2.0".to_owned(),
            ProtocolVersion::Unknown(s) => s.clone(),
        }
    }

    /// The version a wire string names.
    pub fn from_version_str(s: &str) -> (r: ProtocolVersion)
        ensures
            r@ == version_of_str(s@),
    {
        proof {
            reveal_strlit("v0");
            reveal_strlit("v1");
            reveal_strlit("v1.1");
            reveal_strlit("v2.0");
        }
        if str_eq(s, "v0") {
            ProtocolVersion::V0
        } else if str_eq(s, "v1") {
            ProtocolVersion::V1
        } else if str_eq(s, "v1.1") {
            ProtocolVersion::V1_1
        } else if str_eq(s, "v2.0") {
            ProtocolVersion::V2_0
        } else {
            ProtocolVersion::Unknown(s.to_owned())
        }
    }

    /// Whether this is the one supported version.
    pub fn is_v2_0(&self) -> (r: bool)
        ensures
            r == (self@ matches PVV::V2_0),
    {
        match self {
            ProtocolVersion::V2_0 => true,
            _ => false,
        }
    }
}

/// A version survives the wire unless it spells a known version
/// while claiming to be unknown.
pub open spec fn version_wf(v: PVV) -> bool {
    match v {
        PVV::Unknown(s) => s != ("v0")@ && s != ("v1")@ && s != ("v1.1")@ && s != ("v2.0")@,
        _ => true,
    }
}

pub proof fn lemma_version_round_trip(v: PVV)
    requires
        version_wf(v),
    ensures
        version_of_str(version_str(v)) == v,
{
    reveal_strlit("v0");
    reveal_strlit("v1");
    reveal_strlit("v1.1");
    reveal_strlit("v2.0");
    assert(("v0")@.len() == 2 && ("v1")@.len() == 2 && ("v1.1")@.len() == 4 && ("v2.0")@.len()
        == 4);
    match v {
        PVV::V0 => {
        },
        PVV::V1 => {
            assert(("v1")@[1] == '1' && ("v0")@[1] == '0');
        },
        PVV::V1_1 => {
            assert(("v1.1")@[1] == '1' && ("v2.0")@[1] == '2');
        },
        PVV::V2_0 => {
        },
        PVV::Unknown(s) => {
        },
    }
}

// ---------- handshake error codes ----------

/// Reasons the server refuses a handshake. All are fatal except
/// `SessionStateMismatch`, which a client may retry.
#[derive(Debug, PartialEq, Eq, Clone)]
pub enum HandshakeError {
    SessionStateMismatch,
    MalformedHandshakeMeta,
    MalformedHandshake,
    ProtocolVersionMismatch,
    RejectedByCustomHandler,
}

impl ErrorCode for HandshakeError {
    open spec fn code_spec(&self) -> Seq<char> {
        match self {
            HandshakeError::SessionStateMismatch => ("SESSION_STATE_MISMATCH")@,
            HandshakeError::MalformedHandshakeMeta => ("MALFORMED_HANDSHAKE_META")@,
            HandshakeError::MalformedHandshake => ("MALFORMED_HANDSHAKE")@,
            HandshakeError::ProtocolVersionMismatch => ("PROTOCOL_VERSION_MISMATCH")@,
            HandshakeError::RejectedByCustomHandler => ("REJECTED_BY_CUSTOM_HANDLER")@,
        }
    }

    fn code_string(&self) -> (r: String) {
        match self {
            HandshakeError::SessionStateMismatch => "SESSION_STATE_MISMATCH".to_owned(),
            HandshakeError::MalformedHandshakeMeta => "MALFORMED_HANDSHAKE_META".to_owned(),
            HandshakeError::MalformedHandshake => "MALFORMED_HANDSHAKE".to_owned(),
            HandshakeError::ProtocolVersionMismatch => "PROTOCOL_VERSION_MISMATCH".to_owned(),
            HandshakeError::RejectedByCustomHandler => "REJECTED_BY_CUSTOM_HANDLER".to_owned(),
        }
    }
}

impl HandshakeError {
    /// The error a wire code names, if any.
    pub fn from_code(s: &str) -> (r: Option<HandshakeError>)
        ensures
            match r {
                Some(e) => e.code_spec() == s@,
                None => forall|e: HandshakeError| e.code_spec() != s@,
            },
    {
        proof {
            reveal_strlit("SESSION_STATE_MISMATCH");
            reveal_strlit("MALFORMED_HANDSHAKE_META");
            reveal_strlit("MALFORMED_HANDSHAKE");
            reveal_strlit("PROTOCOL_VERSION_MISMATCH");
            reveal_strlit("REJECTED_BY_CUSTOM_HANDLER");
        }
        if str_eq(s, "SESSION_STATE_MISMATCH") {
            Some(HandshakeError::SessionStateMismatch)
        } else if str_eq(s, "MALFORMED_HANDSHAKE_META") {
            Some(HandshakeError::MalformedHandshakeMeta)
        } else if str_eq(s, "MALFORMED_HANDSHAKE") {
            Some(HandshakeError::MalformedHandshake)
        } else if str_eq(s, "PROTOCOL_VERSION_MISMATCH") {
            Some(HandshakeError::ProtocolVersionMismatch)
        } else if str_eq(s, "REJECTED_BY_CUSTOM_HANDLER") {
            Some(HandshakeError::RejectedByCustomHandler)
        } else {
            proof {
                assert forall|e: HandshakeError| e.code_spec() != s@ by {}
            }
            None
        }
    }
}

// ---------- session state ----------

/// Sequence counters a reconnecting client expects; the server
/// treats every connection as fresh and does not act on them.
#[derive(Debug, PartialEq, Eq, Clone, Copy)]
pub struct ExpectedSessionState {
    pub next_expected_seq: i64,
    pub next_sent_seq: i64,
}

/// Mathematical shape of [`ExpectedSessionState`].
pub struct ESSV {
    pub next_expected_seq: int,
    pub next_sent_seq: int,
}

impl View for ExpectedSessionState {
    type V = ESSV;

    open spec fn view(&self) -> ESSV {
        ESSV {
            next_expected_seq: self.next_expected_seq as int,
            next_sent_seq: self.next_sent_seq as int,
        }
    }
}

pub open spec fn ess_jv(e: ESSV) -> JVal {
    JVal::Obj(
        seq![
            (("nextExpectedSeq")@, JVal::Int(e.next_expected_seq)),
            (("nextSentSeq")@, JVal::Int(e.next_sent_seq)),
        ],
    )
}

pub open spec fn ess_of_jv(x: JVal) -> Option<ESSV> {
    match (jv_i64_field(x, ("nextExpectedSeq")@), jv_i64_field(x, ("nextSentSeq")@)) {
        (Some(a), Some(b)) => Some(ESSV { next_expected_seq: a, next_sent_seq: b }),
        _ => None,
    }
}

pub open spec fn ess_wf(e: ESSV) -> bool {
    i64::MIN <= e.next_expected_seq <= i64::MAX && i64::MIN <= e.next_sent_seq <= i64::MAX
}

impl ExpectedSessionState {
    pub fn to_json(&self) -> (r: JsonValue)
        ensures
            r@ == ess_jv(self@),
    {
        let mut fields: Vec<(String, JsonValue)> = Vec::new();
        let ghost e0 = fields@;
        fields.push(("nextExpectedSeq".to_owned(), JsonValue::Int(self.next_expected_seq)));
        proof {
            lemma_jmembers_of_push(e0, fields@[0].0, fields@[0].1);
            assert(jmembers_of(e0) =~= Seq::<(Seq<char>, JVal)>::empty());
        }
        let ghost e1 = fields@;
        fields.push(("nextSentSeq".to_owned(), JsonValue::Int(self.next_sent_seq)));
        proof {
            lemma_jmembers_of_push(e1, fields@[1].0, fields@[1].1);
            assert(jmembers_of(fields@) =~~= (match ess_jv(self@) {
                JVal::Obj(m) => m,
                _ => Seq::empty(),
            }));
        }
        JsonValue::Obj(fields)
    }

    pub fn from_json(v: &JsonValue) -> (r: Option<ExpectedSessionState>)
        ensures
            match r {
                Some(e) => ess_of_jv(v@) == Some(e@),
                None => ess_of_jv(v@) is None,
            },
    {
        proof {
            reveal_strlit("nextExpectedSeq");
            reveal_strlit("nextSentSeq");
        }
        let a = match get_i64_field(v, "nextExpectedSeq") {
            Some(a) => a,
            None => {
                return None;
            },
        };
        let b = match get_i64_field(v, "nextSentSeq") {
            Some(b) => b,
            None => {
                return None;
            },
        };
        Some(ExpectedSessionState { next_expected_seq: a, next_sent_seq: b })
    }
}

pub proof fn lemma_ess_round_trip(e: ESSV)
    requires
        ess_wf(e),
    ensures
        ess_of_jv(ess_jv(e)) == Some(e),
{
    reveal_strlit("nextExpectedSeq");
    reveal_strlit("nextSentSeq");
    assert(("nextExpectedSeq")@.len() == 15);
    assert(("nextSentSeq")@.len() == 11);
    let m = (match ess_jv(e) {
        JVal::Obj(m) => m,
        _ => Seq::empty(),
    });
    lemma_obj_get_at(m, 0);
    lemma_obj_get_at(m, 1);
    assert(obj_get(m, ("nextExpectedSeq")@) == Some(JVal::Int(e.next_expected_seq)));
    assert(obj_get(m, ("nextSentSeq")@) == Some(JVal::Int(e.next_sent_seq)));
}


// ---------- handshake request and response ----------

/// First message a client sends on a new connection.
#[derive(Debug)]
pub struct HandshakeRequest {
    pub protocol_version: ProtocolVersion,
    pub session_id: String,
    pub expected_session_state: ExpectedSessionState,
    pub metadata: Option<JsonValue>,
}

/// Mathematical shape of [`HandshakeRequest`].
pub struct HReqV {
    pub protocol_version: PVV,
    pub session_id: Seq<char>,
    pub expected_session_state: ESSV,
    pub metadata: Option<JVal>,
}

impl View for HandshakeRequest {
    type V = HReqV;

    open spec fn view(&self) -> HReqV {
        HReqV {
            protocol_version: self.protocol_version@,
            session_id: self.session_id@,
            expected_session_state: self.expected_session_state@,
            metadata: match self.metadata {
                Some(ref v) => Some(v@),
                None => None,
            },
        }
    }
}

/// Body of a successful handshake response: the session id echoed
/// back.
#[derive(Debug, PartialEq, Eq, Clone)]
pub struct HandshakeResponseOk {
    pub session_id: String,
}

/// Server's reply to a handshake request.
#[derive(Debug)]
pub struct HandshakeResponse {
    pub status: RiverResultInternal<HandshakeResponseOk>,
}

impl View for HandshakeResponse {
    type V = EnvV;

    open spec fn view(&self) -> EnvV {
        EnvV {
            ok: self.status.ok,
            message: match self.status.message {
                Some(ref s) => Some(s@),
                None => None,
            },
            code: match self.status.code {
                Some(ref s) => Some(s@),
                None => None,
            },
            inner: match self.status.inner {
                Some(ref okv) => Some(
                    JVal::Obj(seq![(("sessionId")@, JVal::Str(okv.session_id@))]),
                ),
                None => None,
            },
        }
    }
}

// ---------- the control payload ----------

/// The payload of a control frame.
#[derive(Debug)]
pub enum Control {
    /// Closes a stream; sent by either side.
    Close,
    /// Heartbeat marker.
    Ack,
    /// Initial message, client to server.
    HandshakeRequest(HandshakeRequest),
    /// Initial response, server to client.
    HandshakeResponse(HandshakeResponse),
}

/// Mathematical shape of [`Control`].
pub enum CtrlV {
    Close,
    Ack,
    HandshakeRequest(HReqV),
    HandshakeResponse(EnvV),
}

impl View for Control {
    type V = CtrlV;

    open spec fn view(&self) -> CtrlV {
        match self {
            Control::Close => CtrlV::Close,
            Control::Ack => CtrlV::Ack,
            Control::HandshakeRequest(h) => CtrlV::HandshakeRequest(h@),
            Control::HandshakeResponse(h) => CtrlV::HandshakeResponse(h@),
        }
    }
}

/// Wire fields of a handshake request, after the tag.
pub open spec fn hreq_fields(h: HReqV) -> Seq<(Seq<char>, JVal)> {
    seq![
        (("protocolVersion")@, JVal::Str(version_str(h.protocol_version))),
        (("sessionId")@, JVal::Str(h.session_id)),
        (("expectedSessionState")@, ess_jv(h.expected_session_state)),
    ] + (match h.metadata {
        Some(v) => seq![(("metadata")@, v)],
        None => Seq::empty(),
    })
}

/// Wire form of a control payload: a `type` tag and the variant's
/// fields at the same level.
pub open spec fn ctrl_jv(c: CtrlV) -> JVal {
    match c {
        CtrlV::Close => JVal::Obj(seq![(("type")@, JVal::Str(("CLOSE")@))]),
        CtrlV::Ack => JVal::Obj(seq![(("type")@, JVal::Str(("ACK")@))]),
        CtrlV::HandshakeRequest(h) => JVal::Obj(
            seq![(("type")@, JVal::Str(("HANDSHAKE_REQ")@))] + hreq_fields(h),
        ),
        CtrlV::HandshakeResponse(e) => JVal::Obj(
            seq![(("type")@, JVal::Str(("HANDSHAKE_RESP")@)), (("status")@, envelope_jv(e))],
        ),
    }
}

/// The inner session id of a decoded response envelope, if its
/// shape carries one.
pub open spec fn resp_inner_of(e: EnvV) -> Option<JVal> {
    match e.inner {
        Some(JVal::Obj(f)) => match obj_get(f, ("sessionId")@) {
            Some(JVal::Str(sid)) => Some(JVal::Obj(seq![(("sessionId")@, JVal::Str(sid))])),
            _ => None,
        },
        _ => None,
    }
}

/// Reads a control payload from its wire form.
pub open spec fn ctrl_of_jv(x: JVal) -> Option<CtrlV> {
    match jv_str_field(x, ("type")@) {
        Some(t) => if t == ("CLOSE")@ {
            Some(CtrlV::Close)
        } else if t == ("ACK")@ {
            Some(CtrlV::Ack)
        } else if t == ("HANDSHAKE_REQ")@ {
            match (jv_str_field(x, ("protocolVersion")@), jv_str_field(x, ("sessionId")@)) {
                (Some(pv), Some(sid)) => match jv_field(x, ("expectedSessionState")@) {
                    Some(essj) => match ess_of_jv(essj) {
                        Some(ess) => Some(
                            CtrlV::HandshakeRequest(
                                HReqV {
                                    protocol_version: version_of_str(pv),
                                    session_id: sid,
                                    expected_session_state: ess,
                                    metadata: match jv_field(x, ("metadata")@) {
                                        None => None,
                                        Some(JVal::Null) => None,
                                        Some(v) => Some(v),
                                    },
                                },
                            ),
                        ),
                        None => None,
                    },
                    None => None,
                },
                _ => None,
            }
        } else if t == ("HANDSHAKE_RESP")@ {
            match jv_field(x, ("status")@) {
                Some(st) => match envelope_of_jv(st) {
                    Some(e) => Some(
                        CtrlV::HandshakeResponse(
                            EnvV {
                                ok: e.ok,
                                message: e.message,
                                code: e.code,
                                inner: if e.inner is Some {
                                    resp_inner_of(e)
                                } else {
                                    None
                                },
                            },
                        ),
                    ),
                    None => None,
                },
                None => None,
            }
        } else {
            None
        },
        None => None,
    }
}


impl Control {
    /// Wire form of this control payload, as [`ctrl_jv`] describes.
    pub fn to_json(&self) -> (r: JsonValue)
        ensures
            r@ == ctrl_jv(self@),
    {
        match self {
            Control::Close => {
                let mut fields: Vec<(String, JsonValue)> = Vec::new();
                let ghost c0 = fields@;
                fields.push(("type".to_owned(), JsonValue::Str("CLOSE".to_owned())));
                proof {
                    lemma_jmembers_of_push(c0, fields@[0].0, fields@[0].1);
                    assert(jmembers_of(c0) =~= Seq::<(Seq<char>, JVal)>::empty());
                    assert(jmembers_of(fields@) =~~= seq![(("type")@, JVal::Str(("CLOSE")@))]);
                }
                JsonValue::Obj(fields)
            },
            Control::Ack => {
                let mut fields: Vec<(String, JsonValue)> = Vec::new();
                let ghost a0 = fields@;
                fields.push(("type".to_owned(), JsonValue::Str("ACK".to_owned())));
                proof {
                    lemma_jmembers_of_push(a0, fields@[0].0, fields@[0].1);
                    assert(jmembers_of(a0) =~= Seq::<(Seq<char>, JVal)>::empty());
                    assert(jmembers_of(fields@) =~~= seq![(("type")@, JVal::Str(("ACK")@))]);
                }
                JsonValue::Obj(fields)
            },
            Control::HandshakeRequest(h) => {
                let mut fields: Vec<(String, JsonValue)> = Vec::new();
                let ghost p0 = fields@;
                fields.push(("type".to_owned(), JsonValue::Str("HANDSHAKE_REQ".to_owned())));
                proof {
                    lemma_jmembers_of_push(p0, fields@[0].0, fields@[0].1);
                    assert(jmembers_of(p0) =~= Seq::<(Seq<char>, JVal)>::empty());
                }
                let ghost p1 = fields@;
                fields.push(
                    ("protocolVersion".to_owned(), JsonValue::Str(
                        h.protocol_version.to_version_string(),
                    )),
                );
                proof {
                    lemma_jmembers_of_push(p1, fields@[1].0, fields@[1].1);
                }
                let ghost p2 = fields@;
                fields.push(("sessionId".to_owned(), JsonValue::Str(h.session_id.clone())));
                proof {
                    lemma_jmembers_of_push(p2, fields@[2].0, fields@[2].1);
                }
                let ghost p3 = fields@;
                fields.push(
                    ("expectedSessionState".to_owned(), h.expected_session_state.to_json()),
                );
                proof {
                    lemma_jmembers_of_push(p3, fields@[3].0, fields@[3].1);
                }
                let ghost p4 = fields@;
                if let Some(md) = &h.metadata {
                    fields.push(("metadata".to_owned(), jv_clone(md)));
                    proof {
                        lemma_jmembers_of_push(p4, fields@[4].0, fields@[4].1);
                    }
                }
                proof {
                    assert(jmembers_of(fields@) =~~= seq![(("type")@, JVal::Str(
                        ("HANDSHAKE_REQ")@,
                    ))] + hreq_fields(h@));
                }
                JsonValue::Obj(fields)
            },
            Control::HandshakeResponse(h) => {
                let env = RiverResultInternal::<JsonValue> {
                    ok: h.status.ok,
                    message: match &h.status.message {
                        Some(m) => Some(m.clone()),
                        None => None,
                    },
                    code: match &h.status.code {
                        Some(c) => Some(c.clone()),
                        None => None,
                    },
                    inner: match &h.status.inner {
                        Some(okv) => {
                            let mut inf: Vec<(String, JsonValue)> = Vec::new();
                            let ghost i0 = inf@;
                            inf.push(
                                ("sessionId".to_owned(), JsonValue::Str(okv.session_id.clone())),
                            );
                            proof {
                                lemma_jmembers_of_push(i0, inf@[0].0, inf@[0].1);
                                assert(jmembers_of(i0) =~= Seq::<(Seq<char>, JVal)>::empty());
                                assert(jmembers_of(inf@) =~~= seq![(("sessionId")@, JVal::Str(
                                    okv.session_id@,
                                ))]);
                            }
                            Some(JsonValue::Obj(inf))
                        },
                        None => None,
                    },
                };
                proof {
                    assert(env@ == h@);
                }
                let st = env.to_json();
                let mut fields: Vec<(String, JsonValue)> = Vec::new();
                let ghost q0 = fields@;
                fields.push(("type".to_owned(), JsonValue::Str("HANDSHAKE_RESP".to_owned())));
                proof {
                    lemma_jmembers_of_push(q0, fields@[0].0, fields@[0].1);
                    assert(jmembers_of(q0) =~= Seq::<(Seq<char>, JVal)>::empty());
                }
                let ghost q1 = fields@;
                fields.push(("status".to_owned(), st));
                proof {
                    lemma_jmembers_of_push(q1, fields@[1].0, fields@[1].1);
                    assert(jmembers_of(fields@) =~~= seq![
                        (("type")@, JVal::Str(("HANDSHAKE_RESP")@)),
                        (("status")@, envelope_jv(h@)),
                    ]);
                }
                JsonValue::Obj(fields)
            },
        }
    }

    /// Reads a control payload from its wire form, as [`ctrl_of_jv`]
    /// describes.
    pub fn from_json(v: &JsonValue) -> (r: Option<Control>)
        ensures
            match r {
                Some(c) => ctrl_of_jv(v@) == Some(c@),
                None => ctrl_of_jv(v@) is None,
            },
    {
        proof {
            reveal_strlit("type");
            reveal_strlit("CLOSE");
            reveal_strlit("ACK");
            reveal_strlit("HANDSHAKE_REQ");
            reveal_strlit("HANDSHAKE_RESP");
            reveal_strlit("protocolVersion");
            reveal_strlit("sessionId");
            reveal_strlit("expectedSessionState");
            reveal_strlit("metadata");
            reveal_strlit("status");
        }
        let t = match get_str_field(v, "type") {
            Some(t) => t,
            None => {
                return None;
            },
        };
        let ts = t.as_str();
        if str_eq(ts, "CLOSE") {
            Some(Control::Close)
        } else if str_eq(ts, "ACK") {
            Some(Control::Ack)
        } else if str_eq(ts, "HANDSHAKE_REQ") {
            let pv = match get_str_field(v, "protocolVersion") {
                Some(s) => s,
                None => {
                    return None;
                },
            };
            let sid = match get_str_field(v, "sessionId") {
                Some(s) => s,
                None => {
                    return None;
                },
            };
            let essj = match jv_get(v, "expectedSessionState") {
                Some(x) => x,
                None => {
                    return None;
                },
            };
            let ess = match ExpectedSessionState::from_json(essj) {
                Some(e) => e,
                None => {
                    return None;
                },
            };
            let metadata: Option<JsonValue> = match jv_get(v, "metadata") {
                None => None,
                Some(JsonValue::Null) => None,
                Some(x) => Some(jv_clone(x)),
            };
            Some(
                Control::HandshakeRequest(
                    HandshakeRequest {
                        protocol_version: ProtocolVersion::from_version_str(pv.as_str()),
                        session_id: sid,
                        expected_session_state: ess,
                        metadata,
                    },
                ),
            )
        } else if str_eq(ts, "HANDSHAKE_RESP") {
            let st = match jv_get(v, "status") {
                Some(x) => x,
                None => {
                    return None;
                },
            };
            let env = match RiverResultInternal::<JsonValue>::from_json(st) {
                Some(e) => e,
                None => {
                    return None;
                },
            };
            let inner: Option<HandshakeResponseOk> = match &env.inner {
                Some(iv) => match get_str_field(iv, "sessionId") {
                    Some(sid) => Some(HandshakeResponseOk { session_id: sid }),
                    None => None,
                },
                None => None,
            };
            Some(
                Control::HandshakeResponse(
                    HandshakeResponse {
                        status: RiverResultInternal {
                            ok: env.ok,
                            message: env.message,
                            code: env.code,
                            inner,
                        },
                    },
                ),
            )
        } else {
            None
        }
    }
}


// ---------- the control round trip ----------

/// A control payload that the wire can carry back unchanged.
pub open spec fn ctrl_wf(c: CtrlV) -> bool {
    match c {
        CtrlV::Close => true,
        CtrlV::Ack => true,
        CtrlV::HandshakeRequest(h) => version_wf(h.protocol_version) && ess_wf(
            h.expected_session_state,
        ) && h.metadata != Some(JVal::Null),
        CtrlV::HandshakeResponse(e) => crate::result::envelope_wf(e) && (e.ok ==> (exists|
            sid: Seq<char>,
        |
            e.inner == Some(JVal::Obj(seq![(("sessionId")@, JVal::Str(sid))])))),
    }
}

/// Reading a control payload back from its wire form returns it
/// unchanged: the tag and the variant's fields survive.
#[verifier::rlimit(100)]
pub proof fn lemma_ctrl_round_trip(c: CtrlV)
    requires
        ctrl_wf(c),
    ensures
        ctrl_of_jv(ctrl_jv(c)) == Some(c),
{
    reveal_strlit("type");
    reveal_strlit("CLOSE");
    reveal_strlit("ACK");
    reveal_strlit("HANDSHAKE_REQ");
    reveal_strlit("HANDSHAKE_RESP");
    reveal_strlit("protocolVersion");
    reveal_strlit("sessionId");
    reveal_strlit("expectedSessionState");
    reveal_strlit("metadata");
    reveal_strlit("status");
    assert(("type")@.len() == 4);
    assert(("CLOSE")@.len() == 5);
    assert(("ACK")@.len() == 3);
    assert(("HANDSHAKE_REQ")@.len() == 13);
    assert(("HANDSHAKE_RESP")@.len() == 14);
    assert(("protocolVersion")@.len() == 15);
    assert(("sessionId")@.len() == 9);
    assert(("expectedSessionState")@.len() == 20);
    assert(("metadata")@.len() == 8);
    assert(("status")@.len() == 6);
    let x = ctrl_jv(c);
    match c {
        CtrlV::Close => {
            let m = seq![(("type")@, JVal::Str(("CLOSE")@))];
            lemma_obj_get_at(m, 0);
        },
        CtrlV::Ack => {
            let m = seq![(("type")@, JVal::Str(("ACK")@))];
            lemma_obj_get_at(m, 0);
            assert(("ACK")@ != ("CLOSE")@);
        },
        CtrlV::HandshakeRequest(h) => {
            let m = seq![(("type")@, JVal::Str(("HANDSHAKE_REQ")@))] + hreq_fields(h);
            assert(m[0] == (("type")@, JVal::Str(("HANDSHAKE_REQ")@)));
            assert(m[1] == (("protocolVersion")@, JVal::Str(version_str(h.protocol_version))));
            assert(m[2] == (("sessionId")@, JVal::Str(h.session_id)));
            assert(m[3] == (("expectedSessionState")@, ess_jv(h.expected_session_state)));
            lemma_obj_get_at(m, 0);
            lemma_obj_get_at(m, 1);
            lemma_obj_get_at(m, 2);
            lemma_obj_get_at(m, 3);
            assert(("HANDSHAKE_REQ")@ != ("CLOSE")@);
            assert(("HANDSHAKE_REQ")@ != ("ACK")@);
            lemma_version_round_trip(h.protocol_version);
            lemma_ess_round_trip(h.expected_session_state);
            match h.metadata {
                Some(v) => {
                    assert(m[4] == (("metadata")@, v));
                    lemma_obj_get_at(m, 4);
                },
                None => {
                    assert(m.len() == 4);
                    assert forall|j: int| 0 <= j < m.len() implies m[j].0 != ("metadata")@ by {}
                    crate::result::lemma_obj_get_absent_pub(m, ("metadata")@);
                },
            }
            assert(ctrl_of_jv(x) == Some(c));
        },
        CtrlV::HandshakeResponse(e) => {
            let m = seq![
                (("type")@, JVal::Str(("HANDSHAKE_RESP")@)),
                (("status")@, envelope_jv(e)),
            ];
            lemma_obj_get_at(m, 0);
            lemma_obj_get_at(m, 1);
            assert(("HANDSHAKE_RESP")@ != ("CLOSE")@);
            assert(("HANDSHAKE_RESP")@ != ("ACK")@);
            assert(("HANDSHAKE_RESP")@ != ("HANDSHAKE_REQ")@);
            crate::result::lemma_envelope_round_trip(e);
            if e.ok {
                let sid = choose|sid: Seq<char>|
                    e.inner == Some(JVal::Obj(seq![(("sessionId")@, JVal::Str(sid))]));
                let f = seq![(("sessionId")@, JVal::Str(sid))];
                lemma_obj_get_at(f, 0);
                assert(resp_inner_of(e) == e.inner);
            }
            assert(ctrl_of_jv(x) == Some(c));
        },
    }
}

} // verus!
