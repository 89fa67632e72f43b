//! Full frame representations: the shared header, the header peek,
//! and the control and request transport messages.

use vstd::prelude::*;

use crate::control::{ctrl_jv, ctrl_of_jv, Control, CtrlV};
use crate::value::{
    get_i32_field, get_opt_str_field, get_str_field, jmembers_of, jv_clone, jv_field, jv_get,
    jv_i32_field, jv_opt_str_field, jv_str_field, jval_of, lemma_jmembers_of,
    lemma_jmembers_of_push, lemma_obj_get_at, obj_get, JVal, JsonValue,
};

verus! {

// ---------- the shared header ----------

/// Header information carried by every frame.
#[derive(Debug, Clone)]
pub struct Header {
    pub id: String,
    pub from: String,
    pub to: String,
    pub seq: i32,
    pub ack: i32,
    pub stream_id: String,
    pub control_flags: i32,
}

/// Mathematical shape of [`Header`].
pub struct HeaderV {
    pub id: Seq<char>,
    pub from: Seq<char>,
    pub to: Seq<char>,
    pub seq: int,
    pub ack: int,
    pub stream_id: Seq<char>,
    pub control_flags: int,
}

impl View for Header {
    type V = HeaderV;

    open spec fn view(&self) -> HeaderV {
        HeaderV {
            id: self.id@,
            from: self.from@,
            to: self.to@,
            seq: self.seq as int,
            ack: self.ack as int,
            stream_id: self.stream_id@,
            control_flags: self.control_flags as int,
        }
    }
}

/// The header's wire fields, in canonical order.
pub open spec fn header_fields_jv(h: HeaderV) -> Seq<(Seq<char>, JVal)> {
    seq![
        (("id")@, JVal::Str(h.id)),
        (("from")@, JVal::Str(h.from)),
        (("to")@, JVal::Str(h.to)),
        (("seq")@, JVal::Int(h.seq)),
        (("ack")@, JVal::Int(h.ack)),
        (("streamId")@, JVal::Str(h.stream_id)),
        (("controlFlags")@, JVal::Int(h.control_flags)),
    ]
}

/// Reads a header out of a frame object.
pub open spec fn header_of_jv(x: JVal) -> Option<HeaderV> {
    match (jv_str_field(x, ("id")@), jv_str_field(x, ("from")@), jv_str_field(x, ("to")@)) {
        (Some(id), Some(from), Some(to)) => match (jv_i32_field(x, ("seq")@), jv_i32_field(
            x,
            ("ack")@,
        ), jv_str_field(x, ("streamId")@), jv_i32_field(x, ("controlFlags")@)) {
            (Some(seq_v), Some(ack), Some(stream_id), Some(control_flags)) => Some(
                HeaderV { id, from, to, seq: seq_v, ack, stream_id, control_flags },
            ),
            _ => None,
        },
        _ => None,
    }
}

impl Header {
    /// Appends the header's wire fields to a frame under
    /// construction.
    fn push_fields(&self, fields: &mut Vec<(String, JsonValue)>)
        ensures
            final(fields)@.len() == old(fields)@.len() + 7,
            jmembers_of(final(fields)@) == jmembers_of(old(fields)@) + header_fields_jv(self@),
    {
        let ghost p0 = fields@;
        fields.push(("id".to_owned(), JsonValue::Str(self.id.clone())));
        proof {
            lemma_jmembers_of_push(p0, fields@[p0.len() as int].0, fields@[p0.len() as int].1);
        }
        let ghost p1 = fields@;
        fields.push(("from".to_owned(), JsonValue::Str(self.from.clone())));
        proof {
            lemma_jmembers_of_push(p1, fields@[p1.len() as int].0, fields@[p1.len() as int].1);
        }
        let ghost p2 = fields@;
        fields.push(("to".to_owned(), JsonValue::Str(self.to.clone())));
        proof {
            lemma_jmembers_of_push(p2, fields@[p2.len() as int].0, fields@[p2.len() as int].1);
        }
        let ghost p3 = fields@;
        fields.push(("seq".to_owned(), JsonValue::Int(i64::from(self.seq))));
        proof {
            lemma_jmembers_of_push(p3, fields@[p3.len() as int].0, fields@[p3.len() as int].1);
        }
        let ghost p4 = fields@;
        fields.push(("ack".to_owned(), JsonValue::Int(i64::from(self.ack))));
        proof {
            lemma_jmembers_of_push(p4, fields@[p4.len() as int].0, fields@[p4.len() as int].1);
        }
        let ghost p5 = fields@;
        fields.push(("streamId".to_owned(), JsonValue::Str(self.stream_id.clone())));
        proof {
            lemma_jmembers_of_push(p5, fields@[p5.len() as int].0, fields@[p5.len() as int].1);
        }
        let ghost p6 = fields@;
        fields.push(("controlFlags".to_owned(), JsonValue::Int(i64::from(self.control_flags))));
        proof {
            lemma_jmembers_of_push(p6, fields@[p6.len() as int].0, fields@[p6.len() as int].1);
            assert(jmembers_of(final(fields)@) =~~= jmembers_of(p0) + header_fields_jv(self@));
        }
    }

    /// Reads a header from a frame object, as [`header_of_jv`]
    /// describes.
    pub fn from_json(v: &JsonValue) -> (r: Option<Header>)
        ensures
            match r {
                Some(h) => header_of_jv(v@) == Some(h@),
                None => header_of_jv(v@) is None,
            },
    {
        proof {
            reveal_strlit("id");
            reveal_strlit("from");
            reveal_strlit("to");
            reveal_strlit("seq");
            reveal_strlit("ack");
            reveal_strlit("streamId");
            reveal_strlit("controlFlags");
        }
        let id = match get_str_field(v, "id") {
            Some(s) => s,
            None => {
                return None;
            },
        };
        let from = match get_str_field(v, "from") {
            Some(s) => s,
            None => {
                return None;
            },
        };
        let to = match get_str_field(v, "to") {
            Some(s) => s,
            None => {
                return None;
            },
        };
        let seq_v = match get_i32_field(v, "seq") {
            Some(s) => s,
            None => {
                return None;
            },
        };
        let ack = match get_i32_field(v, "ack") {
            Some(s) => s,
            None => {
                return None;
            },
        };
        let stream_id = match get_str_field(v, "streamId") {
            Some(s) => s,
            None => {
                return None;
            },
        };
        let control_flags = match get_i32_field(v, "controlFlags") {
            Some(s) => s,
            None => {
                return None;
            },
        };
        Some(Header { id, from, to, seq: seq_v, ack, stream_id, control_flags })
    }
}

// ---------- the header peek ----------

/// The least that must be decoded to route a frame: its stream, the
/// optional service and procedure names, and the counters.
#[derive(Debug, Clone)]
pub struct HeaderID {
    pub stream_id: String,
    pub service_name: Option<String>,
    pub procedure_name: Option<String>,
    pub control_flags: i32,
    pub seq: i32,
    pub ack: i32,
}

/// Mathematical shape of [`HeaderID`].
pub struct HeaderIDV {
    pub stream_id: Seq<char>,
    pub service_name: Option<Seq<char>>,
    pub procedure_name: Option<Seq<char>>,
    pub control_flags: int,
    pub seq: int,
    pub ack: int,
}

impl View for HeaderID {
    type V = HeaderIDV;

    open spec fn view(&self) -> HeaderIDV {
        HeaderIDV {
            stream_id: self.stream_id@,
            service_name: match self.service_name {
                Some(ref s) => Some(s@),
                None => None,
            },
            procedure_name: match self.procedure_name {
                Some(ref s) => Some(s@),
                None => None,
            },
            control_flags: self.control_flags as int,
            seq: self.seq as int,
            ack: self.ack as int,
        }
    }
}

/// The peek decode of a frame object.
pub open spec fn header_id_of_jv(x: JVal) -> Option<HeaderIDV> {
    match (jv_str_field(x, ("streamId")@), jv_i32_field(x, ("controlFlags")@), jv_i32_field(
        x,
        ("seq")@,
    ), jv_i32_field(x, ("ack")@)) {
        (Some(stream_id), Some(control_flags), Some(seq_v), Some(ack)) => match (jv_opt_str_field(
            x,
            ("serviceName")@,
        ), jv_opt_str_field(x, ("procedureName")@)) {
            (Some(service_name), Some(procedure_name)) => Some(
                HeaderIDV {
                    stream_id,
                    service_name,
                    procedure_name,
                    control_flags,
                    seq: seq_v,
                    ack,
                },
            ),
            _ => None,
        },
        _ => None,
    }
}

impl HeaderID {
    /// Peek-decodes the routing fields of a frame object, as
    /// [`header_id_of_jv`] describes.
    pub fn from_json(v: &JsonValue) -> (r: Option<HeaderID>)
        ensures
            match r {
                Some(h) => header_id_of_jv(v@) == Some(h@),
                None => header_id_of_jv(v@) is None,
            },
    {
        proof {
            reveal_strlit("streamId");
            reveal_strlit("controlFlags");
            reveal_strlit("seq");
            reveal_strlit("ack");
            reveal_strlit("serviceName");
            reveal_strlit("procedureName");
        }
        let stream_id = match get_str_field(v, "streamId") {
            Some(s) => s,
            None => {
                return None;
            },
        };
        let control_flags = match get_i32_field(v, "controlFlags") {
            Some(s) => s,
            None => {
                return None;
            },
        };
        let seq_v = match get_i32_field(v, "seq") {
            Some(s) => s,
            None => {
                return None;
            },
        };
        let ack = match get_i32_field(v, "ack") {
            Some(s) => s,
            None => {
                return None;
            },
        };
        let service_name = match get_opt_str_field(v, "serviceName") {
            Some(s) => s,
            None => {
                return None;
            },
        };
        let procedure_name = match get_opt_str_field(v, "procedureName") {
            Some(s) => s,
            None => {
                return None;
            },
        };
        Some(HeaderID { stream_id, service_name, procedure_name, control_flags, seq: seq_v, ack })
    }
}


// ---------- transport messages ----------

/// The non-header part of a stream-bearing frame: either the frame
/// that opens a stream or a follow-up message on it.
#[derive(Debug)]
pub enum RequestInner {
    /// Opens a new stream for a procedure.
    Init { service_name: String, procedure_name: String, payload: JsonValue },
    /// Carries a message on an open stream.
    Request { payload: JsonValue },
}

/// Mathematical shape of [`RequestInner`].
pub enum RequestInnerV {
    Init { service_name: Seq<char>, procedure_name: Seq<char>, payload: JVal },
    Request { payload: JVal },
}

impl View for RequestInner {
    type V = RequestInnerV;

    open spec fn view(&self) -> RequestInnerV {
        match self {
            RequestInner::Init { service_name, procedure_name, payload } => RequestInnerV::Init {
                service_name: service_name@,
                procedure_name: procedure_name@,
                payload: payload@,
            },
            RequestInner::Request { payload } => RequestInnerV::Request { payload: payload@ },
        }
    }
}

/// A full control frame: header and control payload.
#[derive(Debug)]
pub struct TransportControlMessage {
    pub header: Header,
    pub payload: Control,
}

/// Mathematical shape of [`TransportControlMessage`].
pub struct TCMV {
    pub header: HeaderV,
    pub payload: CtrlV,
}

impl View for TransportControlMessage {
    type V = TCMV;

    open spec fn view(&self) -> TCMV {
        TCMV { header: self.header@, payload: self.payload@ }
    }
}

/// A full stream-bearing frame: header and inner message.
#[derive(Debug)]
pub struct TransportRequestMessage {
    pub header: Header,
    pub inner: RequestInner,
}

/// Mathematical shape of [`TransportRequestMessage`].
pub struct TRMV {
    pub header: HeaderV,
    pub inner: RequestInnerV,
}

impl View for TransportRequestMessage {
    type V = TRMV;

    open spec fn view(&self) -> TRMV {
        TRMV { header: self.header@, inner: self.inner@ }
    }
}

/// Either shape of outbound frame.
#[derive(Debug)]
pub enum TransportMessage {
    Control(TransportControlMessage),
    Request(TransportRequestMessage),
}

/// Wire form of a control frame: the header fields and a `payload`
/// field.
pub open spec fn control_msg_jv(m: TCMV) -> JVal {
    JVal::Obj(header_fields_jv(m.header) + seq![(("payload")@, ctrl_jv(m.payload))])
}

/// Wire form of a stream-bearing frame: the header fields and the
/// inner message's fields at the same level.
pub open spec fn request_msg_jv(m: TRMV) -> JVal {
    JVal::Obj(
        header_fields_jv(m.header) + (match m.inner {
            RequestInnerV::Init { service_name, procedure_name, payload } => seq![
                (("serviceName")@, JVal::Str(service_name)),
                (("procedureName")@, JVal::Str(procedure_name)),
                (("payload")@, payload),
            ],
            RequestInnerV::Request { payload } => seq![(("payload")@, payload)],
        }),
    )
}

/// Reads a control frame from its wire form.
pub open spec fn control_msg_of_jv(x: JVal) -> Option<TCMV> {
    match header_of_jv(x) {
        Some(h) => match jv_field(x, ("payload")@) {
            Some(p) => match ctrl_of_jv(p) {
                Some(c) => Some(TCMV { header: h, payload: c }),
                None => None,
            },
            None => None,
        },
        None => None,
    }
}

/// Reads a stream-bearing frame from its wire form: an init frame
/// when both name fields are strings, else a request frame; either
/// way the `payload` field must be present.
pub open spec fn request_msg_of_jv(x: JVal) -> Option<TRMV> {
    match header_of_jv(x) {
        Some(h) => match jv_field(x, ("payload")@) {
            Some(p) => match (jv_str_field(x, ("serviceName")@), jv_str_field(
                x,
                ("procedureName")@,
            )) {
                (Some(sn), Some(pn)) => Some(
                    TRMV {
                        header: h,
                        inner: RequestInnerV::Init {
                            service_name: sn,
                            procedure_name: pn,
                            payload: p,
                        },
                    },
                ),
                _ => Some(TRMV { header: h, inner: RequestInnerV::Request { payload: p } }),
            },
            None => None,
        },
        None => None,
    }
}

impl TransportControlMessage {
    /// Wire form of this frame, as [`control_msg_jv`] describes.
    pub fn to_json(&self) -> (r: JsonValue)
        ensures
            r@ == control_msg_jv(self@),
    {
        let mut fields: Vec<(String, JsonValue)> = Vec::new();
        self.header.push_fields(&mut fields);
        let ghost p7 = fields@;
        fields.push(("payload".to_owned(), self.payload.to_json()));
        proof {
            lemma_jmembers_of_push(p7, fields@[p7.len() as int].0, fields@[p7.len() as int].1);
            assert(jmembers_of(p7) =~= Seq::<(Seq<char>, JVal)>::empty() + header_fields_jv(
                self.header@,
            ));
            assert(jmembers_of(fields@) =~~= header_fields_jv(self.header@) + seq![
                (("payload")@, ctrl_jv(self.payload@)),
            ]);
        }
        JsonValue::Obj(fields)
    }

    /// Reads a control frame from its wire form, as
    /// [`control_msg_of_jv`] describes.
    pub fn from_json(v: &JsonValue) -> (r: Option<TransportControlMessage>)
        ensures
            match r {
                Some(m) => control_msg_of_jv(v@) == Some(m@),
                None => control_msg_of_jv(v@) is None,
            },
    {
        proof {
            reveal_strlit("payload");
        }
        let header = match Header::from_json(v) {
            Some(h) => h,
            None => {
                return None;
            },
        };
        let p = match jv_get(v, "payload") {
            Some(p) => p,
            None => {
                return None;
            },
        };
        let payload = match Control::from_json(p) {
            Some(c) => c,
            None => {
                return None;
            },
        };
        Some(TransportControlMessage { header, payload })
    }
}

impl TransportRequestMessage {
    /// Wire form of this frame, as [`request_msg_jv`] describes.
    pub fn to_json(&self) -> (r: JsonValue)
        ensures
            r@ == request_msg_jv(self@),
    {
        let mut fields: Vec<(String, JsonValue)> = Vec::new();
        self.header.push_fields(&mut fields);
        proof {
            assert(jmembers_of(fields@) =~= Seq::<(Seq<char>, JVal)>::empty() + header_fields_jv(
                self.header@,
            ));
        }
        match &self.inner {
            RequestInner::Init { service_name, procedure_name, payload } => {
                let ghost p7 = fields@;
                fields.push(("serviceName".to_owned(), JsonValue::Str(service_name.clone())));
                proof {
                    lemma_jmembers_of_push(
                        p7,
                        fields@[p7.len() as int].0,
                        fields@[p7.len() as int].1,
                    );
                }
                let ghost p8 = fields@;
                fields.push(("procedureName".to_owned(), JsonValue::Str(procedure_name.clone())));
                proof {
                    lemma_jmembers_of_push(
                        p8,
                        fields@[p8.len() as int].0,
                        fields@[p8.len() as int].1,
                    );
                }
                let ghost p9 = fields@;
                fields.push(("payload".to_owned(), jv_clone(payload)));
                proof {
                    lemma_jmembers_of_push(
                        p9,
                        fields@[p9.len() as int].0,
                        fields@[p9.len() as int].1,
                    );
                    assert(jmembers_of(fields@) =~~= header_fields_jv(self.header@) + seq![
                        (("serviceName")@, JVal::Str(service_name@)),
                        (("procedureName")@, JVal::Str(procedure_name@)),
                        (("payload")@, payload@),
                    ]);
                }
            },
            RequestInner::Request { payload } => {
                let ghost p7 = fields@;
                fields.push(("payload".to_owned(), jv_clone(payload)));
                proof {
                    lemma_jmembers_of_push(
                        p7,
                        fields@[p7.len() as int].0,
                        fields@[p7.len() as int].1,
                    );
                    assert(jmembers_of(fields@) =~~= header_fields_jv(self.header@) + seq![
                        (("payload")@, payload@),
                    ]);
                }
            },
        }
        JsonValue::Obj(fields)
    }

    /// Reads a stream-bearing frame from its wire form, as
    /// [`request_msg_of_jv`] describes.
    pub fn from_json(v: &JsonValue) -> (r: Option<TransportRequestMessage>)
        ensures
            match r {
                Some(m) => request_msg_of_jv(v@) == Some(m@),
                None => request_msg_of_jv(v@) is None,
            },
    {
        proof {
            reveal_strlit("payload");
            reveal_strlit("serviceName");
            reveal_strlit("procedureName");
        }
        let header = match Header::from_json(v) {
            Some(h) => h,
            None => {
                return None;
            },
        };
        let payload = match jv_get(v, "payload") {
            Some(p) => jv_clone(p),
            None => {
                return None;
            },
        };
        let sn = get_str_field(v, "serviceName");
        let pn = get_str_field(v, "procedureName");
        match (sn, pn) {
            (Some(service_name), Some(procedure_name)) => Some(
                TransportRequestMessage {
                    header,
                    inner: RequestInner::Init { service_name, procedure_name, payload },
                },
            ),
            _ => Some(TransportRequestMessage { header, inner: RequestInner::Request { payload } }),
        }
    }
}

impl TransportMessage {
    /// Wire form of either frame shape.
    pub fn to_json(&self) -> (r: JsonValue)
        ensures
            r@ == match self {
                TransportMessage::Control(m) => control_msg_jv(m@),
                TransportMessage::Request(m) => request_msg_jv(m@),
            },
    {
        match self {
            TransportMessage::Control(m) => m.to_json(),
            TransportMessage::Request(m) => m.to_json(),
        }
    }
}

// ---------- the peek law ----------

/// The header-peek of a stream-bearing frame agrees with its full
/// decode: same stream, counters and flags, and the name fields are
/// present exactly when the frame is an init frame.
pub proof fn lemma_peek_agrees_with_request(x: JVal)
    requires
        request_msg_of_jv(x) is Some,
        header_id_of_jv(x) is Some,
    ensures
        ({
            let m = request_msg_of_jv(x)->Some_0;
            let p = header_id_of_jv(x)->Some_0;
            p.stream_id == m.header.stream_id && p.control_flags == m.header.control_flags
                && p.seq == m.header.seq && p.ack == m.header.ack && (match m.inner {
                RequestInnerV::Init { service_name, procedure_name, .. } => p.service_name
                    == Some(service_name) && p.procedure_name == Some(procedure_name),
                RequestInnerV::Request { .. } => !(p.service_name is Some && p.procedure_name
                    is Some),
            })
        }),
{
}

/// The header-peek of a control frame agrees with its full decode on
/// every header field.
pub proof fn lemma_peek_agrees_with_control(x: JVal)
    requires
        control_msg_of_jv(x) is Some,
        header_id_of_jv(x) is Some,
    ensures
        ({
            let m = control_msg_of_jv(x)->Some_0;
            let p = header_id_of_jv(x)->Some_0;
            p.stream_id == m.header.stream_id && p.control_flags == m.header.control_flags
                && p.seq == m.header.seq && p.ack == m.header.ack
        }),
{
}


// ---------- the frame round trips ----------

/// A header whose counters fit their wire width.
pub open spec fn header_wf(h: HeaderV) -> bool {
    i32::MIN <= h.seq <= i32::MAX && i32::MIN <= h.ack <= i32::MAX && i32::MIN <= h.control_flags
        <= i32::MAX
}

/// Decoding finds the header in any frame that begins with its
/// canonical fields, whatever fields follow them.
#[verifier::rlimit(100)]
pub proof fn lemma_header_fields_decode(h: HeaderV, rest: Seq<(Seq<char>, JVal)>)
    requires
        header_wf(h),
    ensures
        header_of_jv(JVal::Obj(header_fields_jv(h) + rest)) == Some(h),
{
    reveal_strlit("id");
    reveal_strlit("from");
    reveal_strlit("to");
    reveal_strlit("seq");
    reveal_strlit("ack");
    reveal_strlit("streamId");
    reveal_strlit("controlFlags");
    assert(("id")@.len() == 2);
    assert(("from")@.len() == 4);
    assert(("to")@.len() == 2);
    assert(("seq")@.len() == 3);
    assert(("ack")@.len() == 3);
    assert(("streamId")@.len() == 8);
    assert(("controlFlags")@.len() == 12);
    assert(("to")@[0] == 't' && ("id")@[0] == 'i');
    assert(("ack")@[0] == 'a' && ("seq")@[0] == 's');
    let m = header_fields_jv(h) + rest;
    assert(m[0] == (("id")@, JVal::Str(h.id)));
    assert(m[1] == (("from")@, JVal::Str(h.from)));
    assert(m[2] == (("to")@, JVal::Str(h.to)));
    assert(m[3] == (("seq")@, JVal::Int(h.seq)));
    assert(m[4] == (("ack")@, JVal::Int(h.ack)));
    assert(m[5] == (("streamId")@, JVal::Str(h.stream_id)));
    assert(m[6] == (("controlFlags")@, JVal::Int(h.control_flags)));
    lemma_obj_get_at(m, 0);
    lemma_obj_get_at(m, 1);
    lemma_obj_get_at(m, 2);
    lemma_obj_get_at(m, 3);
    lemma_obj_get_at(m, 4);
    lemma_obj_get_at(m, 5);
    lemma_obj_get_at(m, 6);
}

/// Reading a stream-bearing frame back from its wire form returns
/// it unchanged, init and request shapes alike.
#[verifier::rlimit(100)]
pub proof fn lemma_request_msg_round_trip(m: TRMV)
    requires
        header_wf(m.header),
    ensures
        request_msg_of_jv(request_msg_jv(m)) == Some(m),
{
    reveal_strlit("serviceName");
    reveal_strlit("procedureName");
    reveal_strlit("payload");
    reveal_strlit("id");
    reveal_strlit("from");
    reveal_strlit("to");
    reveal_strlit("seq");
    reveal_strlit("ack");
    reveal_strlit("streamId");
    reveal_strlit("controlFlags");
    assert(("serviceName")@.len() == 11);
    assert(("procedureName")@.len() == 13);
    assert(("payload")@.len() == 7);
    assert(("id")@.len() == 2);
    assert(("from")@.len() == 4);
    assert(("to")@.len() == 2);
    assert(("seq")@.len() == 3);
    assert(("ack")@.len() == 3);
    assert(("streamId")@.len() == 8);
    assert(("controlFlags")@.len() == 12);
    let tail = (match m.inner {
        RequestInnerV::Init { service_name, procedure_name, payload } => seq![
            (("serviceName")@, JVal::Str(service_name)),
            (("procedureName")@, JVal::Str(procedure_name)),
            (("payload")@, payload),
        ],
        RequestInnerV::Request { payload } => seq![(("payload")@, payload)],
    });
    let mm = header_fields_jv(m.header) + tail;
    lemma_header_fields_decode(m.header, tail);
    assert(mm == header_fields_jv(m.header) + tail);
    match m.inner {
        RequestInnerV::Init { service_name, procedure_name, payload } => {
            assert(mm[7] == (("serviceName")@, JVal::Str(service_name)));
            assert(mm[8] == (("procedureName")@, JVal::Str(procedure_name)));
            assert(mm[9] == (("payload")@, payload));
            lemma_obj_get_at(mm, 7);
            lemma_obj_get_at(mm, 8);
            lemma_obj_get_at(mm, 9);
            assert(request_msg_of_jv(request_msg_jv(m)) == Some(m));
        },
        RequestInnerV::Request { payload } => {
            assert(mm[7] == (("payload")@, payload));
            lemma_obj_get_at(mm, 7);
            assert forall|j: int|
                0 <= j < mm.len() implies mm[j].0 != ("serviceName")@ by {}
            crate::result::lemma_obj_get_absent_pub(mm, ("serviceName")@);
            assert(request_msg_of_jv(request_msg_jv(m)) == Some(m));
        },
    }
}

/// Reading a control frame back from its wire form returns it
/// unchanged.
#[verifier::rlimit(100)]
pub proof fn lemma_control_msg_round_trip(m: TCMV)
    requires
        header_wf(m.header),
        crate::control::ctrl_wf(m.payload),
    ensures
        control_msg_of_jv(control_msg_jv(m)) == Some(m),
{
    reveal_strlit("payload");
    reveal_strlit("id");
    reveal_strlit("from");
    reveal_strlit("to");
    reveal_strlit("seq");
    reveal_strlit("ack");
    reveal_strlit("streamId");
    reveal_strlit("controlFlags");
    assert(("payload")@.len() == 7);
    assert(("id")@.len() == 2);
    assert(("from")@.len() == 4);
    assert(("to")@.len() == 2);
    assert(("seq")@.len() == 3);
    assert(("ack")@.len() == 3);
    assert(("streamId")@.len() == 8);
    assert(("controlFlags")@.len() == 12);
    let tail = seq![(("payload")@, ctrl_of_payload_jv(m.payload))];
    let mm = header_fields_jv(m.header) + tail;
    lemma_header_fields_decode(m.header, tail);
    assert(mm[7] == (("payload")@, ctrl_of_payload_jv(m.payload)));
    lemma_obj_get_at(mm, 7);
    crate::control::lemma_ctrl_round_trip(m.payload);
}

/// The wire form of a control payload, named for the frame lemma.
pub open spec fn ctrl_of_payload_jv(c: CtrlV) -> JVal {
    crate::control::ctrl_jv(c)
}

} // verus!
