//! The per-connection core: handshake validation, the stream table,
//! and the frame-routing state machine that an event loop drives.
//!
//! The dispatcher is pure: each step takes an event (an inbound
//! binary frame, a socket close, an outbound envelope) and returns
//! what the connection runner must do, while updating only the
//! connection state held here.

use vstd::prelude::*;
use vstd::utf8::is_ascii_chars;

use crate::codecs::Codec;
use crate::control::{
    ctrl_of_jv, Control, CtrlV, HandshakeError, HandshakeRequest, HandshakeResponse,
    HandshakeResponseOk, PVV,
};
use crate::message_types::{
    control_msg_jv, control_msg_of_jv, header_id_of_jv, header_of_jv, request_msg_jv,
    request_msg_of_jv, Header, HeaderID, RequestInner, RequestInnerV, TransportControlMessage,
    TransportRequestMessage,
};
use crate::misc::{IncomingMessage, OutgoingMessage, RPCMetadata, SimpleOutgoingMessage, StreamInfo};
use crate::result::RiverResult;
use crate::utils::generate_id;
use crate::value::{check_wf, jv_str_field, jval_wf, str_eq, JVal, JsonValue, MAX_LEN};
use crate::{FLAG_ACK, FLAG_STREAM_CLOSE, FLAG_STREAM_OPEN};

verus! {

// ---------- flag tests ----------

/// Whether the normal-close bit is set.
pub open spec fn has_close_flag(f: int) -> bool {
    (f as i32) & FLAG_STREAM_CLOSE != 0
}

/// Whether the frame opens a stream that outlives it: open bit set,
/// normal-close bit clear.
pub open spec fn opens_stream(f: int) -> bool {
    (f as i32) & (FLAG_STREAM_OPEN | FLAG_STREAM_CLOSE) == FLAG_STREAM_OPEN
}

// ---------- the stream table ----------

/// Maps each active stream to what the dispatcher keeps about it.
pub struct StreamTable {
    pub entries: Vec<(String, StreamInfo)>,
}

impl StreamTable {
    /// The keys, as character sequences.
    pub open spec fn key_at(&self, i: int) -> Seq<char> {
        self.entries@[i].0@
    }

    pub open spec fn spec_len(&self) -> nat {
        self.entries@.len()
    }

    pub open spec fn spec_contains(&self, k: Seq<char>) -> bool {
        exists|i: int| 0 <= i < self.entries@.len() && (#[trigger] self.key_at(i)) == k
    }

    /// Keys are unique.
    pub open spec fn wf(&self) -> bool {
        forall|i: int, j: int|
            0 <= i < j < self.entries@.len() ==> self.key_at(i) != self.key_at(j)
    }

    pub fn new() -> (r: StreamTable)
        ensures
            r.wf(),
            r.spec_len() == 0,
            forall|k: Seq<char>| !r.spec_contains(k),
    {
        StreamTable { entries: Vec::new() }
    }

    /// Whether `k` names an active stream.
    #[verifier::loop_isolation(false)]
    pub fn contains(&self, k: &str) -> (r: bool)
        ensures
            r == self.spec_contains(k@),
    {
        let mut i: usize = 0;
        while i < self.entries.len()
            invariant
                i <= self.entries@.len(),
                forall|j: int| 0 <= j < i ==> self.key_at(j) != k@,
            decreases self.entries@.len() - i,
        {
            if str_eq(self.entries[i].0.as_str(), k) {
                proof {
                    assert(self.key_at(i as int) == k@);
                }
                return true;
            }
            i = i + 1;
        }
        false
    }

    /// Adds a stream not yet present.
    pub fn insert(&mut self, k: String, info: StreamInfo)
        requires
            old(self).wf(),
            !old(self).spec_contains(k@),
        ensures
            final(self).wf(),
            final(self).spec_len() == old(self).spec_len() + 1,
            final(self).spec_contains(k@),
            forall|q: Seq<char>|
                q != k@ ==> final(self).spec_contains(q) == old(self).spec_contains(q),
    {
        let ghost prev = self.entries@;
        self.entries.push((k, info));
        proof {
            assert forall|a: int, b: int|
                0 <= a < b < self.entries@.len() implies self.key_at(a) != self.key_at(b) by {
                assert(self.entries@[a] == prev[a]);
                if b < prev.len() {
                    assert(self.entries@[b] == prev[b]);
                    assert(old(self).key_at(a) != old(self).key_at(b));
                } else {
                    assert(self.entries@[b].0@ == k@);
                    assert(old(self).key_at(a) == prev[a].0@);
                    assert(old(self).key_at(a) != k@);
                }
            }
            assert forall|q: Seq<char>|
                q != k@ implies final(self).spec_contains(q) == old(self).spec_contains(q) by {
                if old(self).spec_contains(q) {
                    let i = choose|i: int|
                        0 <= i < old(self).entries@.len() && (#[trigger] old(self).key_at(i))
                            == q;
                    assert(self.entries@[i] == prev[i]);
                    assert(self.key_at(i) == q);
                }
                if self.spec_contains(q) {
                    let i = choose|i: int|
                        0 <= i < self.entries@.len() && (#[trigger] self.key_at(i)) == q;
                    if i < prev.len() {
                        assert(old(self).key_at(i) == q);
                    } else {
                        assert(self.key_at(i) == k@);
                    }
                }
            }
            assert(final(self).key_at(prev.len() as int) == k@);
        }
    }

    /// Removes a stream if present; leaves the rest.
    #[verifier::loop_isolation(false)]
    pub fn remove(&mut self, k: &str)
        requires
            old(self).wf(),
        ensures
            final(self).wf(),
            !final(self).spec_contains(k@),
            forall|q: Seq<char>|
                q != k@ ==> final(self).spec_contains(q) == old(self).spec_contains(q),
    {
        let mut i: usize = 0;
        while i < self.entries.len()
            invariant
                old(self) == self,
                i <= self.entries@.len(),
                forall|j: int| 0 <= j < i ==> old(self).key_at(j) != k@,
            decreases self.entries@.len() - i,
        {
            if str_eq(self.entries[i].0.as_str(), k) {
                let ghost prev = self.entries@;
                self.entries.remove(i);
                proof {
                    assert(self.entries@ =~= prev.subrange(0, i as int) + prev.subrange(
                        i + 1,
                        prev.len() as int,
                    ));
                    assert forall|j: int|
                        0 <= j < self.entries@.len() implies self.entries@[j] == (if j < i {
                        prev[j]
                    } else {
                        prev[j + 1]
                    }) by {}
                    assert forall|a: int, b: int|
                        0 <= a < b < self.entries@.len() implies self.key_at(a) != self.key_at(
                        b,
                    ) by {
                        let pa: int = if a < i {
                            a
                        } else {
                            a + 1
                        };
                        let pb: int = if b < i {
                            b
                        } else {
                            b + 1
                        };
                        assert(self.entries@[a] == prev[pa]);
                        assert(self.entries@[b] == prev[pb]);
                        assert(old(self).key_at(pa) != old(self).key_at(pb));
                    }
                    assert(old(self).key_at(i as int) == k@);
                    assert forall|j: int|
                        0 <= j < self.entries@.len() implies self.key_at(j) != k@ by {
                        let pj: int = if j < i {
                            j
                        } else {
                            j + 1
                        };
                        assert(self.entries@[j] == prev[pj]);
                        assert(self.key_at(j) == old(self).key_at(pj));
                        if pj > i {
                            assert(old(self).key_at(i as int) != old(self).key_at(pj));
                        } else {
                            assert(old(self).key_at(pj) != k@);
                        }
                    }
                    assert forall|q: Seq<char>|
                        q != k@ implies self.spec_contains(q) == old(self).spec_contains(q) by {
                        if old(self).spec_contains(q) {
                            let oj = choose|oj: int|
                                0 <= oj < old(self).entries@.len() && (#[trigger] old(self).key_at(oj)) == q;
                            if oj < i {
                                assert(self.entries@[oj] == prev[oj]);
                                assert(self.key_at(oj) == q);
                            } else if oj > i {
                                assert(self.entries@[oj - 1] == prev[oj]);
                                assert(self.key_at(oj - 1) == q);
                            }
                        }
                        if self.spec_contains(q) {
                            let nj = choose|nj: int|
                                0 <= nj < self.entries@.len() && (#[trigger] self.key_at(nj))
                                    == q;
                            let pj: int = if nj < i {
                                nj
                            } else {
                                nj + 1
                            };
                            assert(prev[pj] == self.entries@[nj]);
                            assert(old(self).key_at(pj) == q);
                        }
                    }
                }
                return ;
            }
            i = i + 1;
        }
        proof {
            assert(!self.spec_contains(k@));
        }
    }

    /// Takes every entry out, leaving the table empty.
    pub fn drain(&mut self) -> (r: Vec<(String, StreamInfo)>)
        ensures
            r@ == old(self).entries@,
            final(self).spec_len() == 0,
            final(self).wf(),
            forall|k: Seq<char>| !final(self).spec_contains(k),
    {
        let mut out: Vec<(String, StreamInfo)> = Vec::new();
        core::mem::swap(&mut out, &mut self.entries);
        out
    }
}

// ---------- the service description table ----------

/// What the embedder's handler serves: each service's procedures.
pub struct ServiceDescription {
    pub entries: Vec<(String, Vec<String>)>,
}

impl ServiceDescription {
    /// Whether `service` offers `procedure`.
    pub open spec fn spec_contains(&self, s: Seq<char>, p: Seq<char>) -> bool {
        exists|i: int, j: int|
            0 <= i < self.entries@.len() && 0 <= j < self.entries@[i].1@.len()
                && self.entries@[i].0@ == s && self.entries@[i].1@[j]@ == p
    }

    /// Looks a procedure up by service and name.
    #[verifier::loop_isolation(false)]
    pub fn contains(&self, service: &str, procedure: &str) -> (r: bool)
        ensures
            r == self.spec_contains(service@, procedure@),
    {
        let mut i: usize = 0;
        while i < self.entries.len()
            invariant
                i <= self.entries@.len(),
                forall|a: int, b: int|
                    0 <= a < i && 0 <= b < self.entries@[a].1@.len() ==> !(self.entries@[a].0@
                        == service@ && (#[trigger] self.entries@[a].1@[b])@ == procedure@),
            decreases self.entries@.len() - i,
        {
            if str_eq(self.entries[i].0.as_str(), service) {
                let procs = &self.entries[i].1;
                let mut j: usize = 0;
                while j < procs.len()
                    invariant
                        0 <= i < self.entries@.len(),
                        procs == &self.entries@[i as int].1,
                        self.entries@[i as int].0@ == service@,
                        j <= procs@.len(),
                        forall|b: int| 0 <= b < j ==> (#[trigger] procs@[b])@ != procedure@,
                    decreases procs@.len() - j,
                {
                    if str_eq(procs[j].as_str(), procedure) {
                        return true;
                    }
                    j = j + 1;
                }
            }
            i = i + 1;
        }
        false
    }
}


// ---------- dispatcher events and actions ----------

/// What the event loop must do with one inbound binary frame.
pub enum InboundStep {
    /// Hand an item to an open stream's inbound queue.
    Deliver { stream_id: String, message: IncomingMessage },
    /// Start a new invocation; `registered` tells whether a stream
    /// table entry was created for it.
    Invoke {
        service: String,
        procedure: String,
        metadata: RPCMetadata,
        payload: JsonValue,
        registered: bool,
    },
    /// Nothing to do: the frame was dropped.
    Skip,
}

/// What the event loop must do with one outbound envelope.
pub enum OutboundStep {
    /// Send these bytes as one binary frame.
    Send(Vec<u8>),
    /// The envelope could not be encoded and was dropped.
    Skip,
    /// The outbound counter is exhausted; tear the session down.
    Exhausted,
}

/// The inbound frames the dispatcher drops: an undecodable buffer,
/// a failed header peek, a frame that does not fully decode, an
/// init-shaped frame on an existing stream, a frame for an unknown
/// stream that is not an init, or an init naming an unknown service
/// or procedure.
pub open spec fn frame_dropped(
    streams: StreamTable,
    services: ServiceDescription,
    x: Option<JVal>,
) -> bool {
    match x {
        None => true,
        Some(xv) => match header_id_of_jv(xv) {
            None => true,
            Some(p) => if streams.spec_contains(p.stream_id) {
                match request_msg_of_jv(xv) {
                    None => true,
                    Some(m) => !has_close_flag(m.header.control_flags) && m.inner is Init,
                }
            } else if p.service_name is Some && p.procedure_name is Some {
                match request_msg_of_jv(xv) {
                    None => true,
                    Some(m) => match m.inner {
                        RequestInnerV::Init { service_name, procedure_name, .. } => !services.spec_contains(
                            service_name,
                            procedure_name,
                        ),
                        RequestInnerV::Request { .. } => false,
                    },
                }
            } else {
                true
            },
        },
    }
}

/// Exactly one entry for `k` was added; every other key is as
/// before.
pub open spec fn inserted_one(old_t: StreamTable, new_t: StreamTable, k: Seq<char>) -> bool {
    new_t.spec_contains(k) && new_t.spec_len() == old_t.spec_len() + 1 && (forall|q: Seq<char>|
        q != k ==> new_t.spec_contains(q) == old_t.spec_contains(q))
}

/// Whether a dropped frame still inserted a stream entry: exactly
/// when it routed as an opening init for a new stream (its service
/// or procedure then being unknown), as the reference behaviour
/// does.
pub open spec fn skip_inserts(streams: StreamTable, x: Option<JVal>) -> bool {
    match x {
        Some(xv) => match header_id_of_jv(xv) {
            Some(p) => !streams.spec_contains(p.stream_id) && p.service_name is Some
                && p.procedure_name is Some && (match request_msg_of_jv(xv) {
                Some(m) => m.inner is Init && opens_stream(m.header.control_flags),
                None => false,
            }),
            None => false,
        },
        None => false,
    }
}

/// The table after a dropped frame: exactly one entry added for an
/// opening init, unchanged otherwise.
pub open spec fn drop_table_change(
    old_t: StreamTable,
    new_t: StreamTable,
    x: Option<JVal>,
) -> bool {
    if skip_inserts(old_t, x) {
        inserted_one(old_t, new_t, request_msg_of_jv(x->Some_0)->Some_0.header.stream_id)
    } else {
        new_t == old_t
    }
}

/// Per-connection dispatcher state, after a completed handshake.
pub struct Dispatcher<C: Codec> {
    pub codec: C,
    pub client_id: String,
    pub seq: i32,
    pub streams: StreamTable,
    pub services: ServiceDescription,
}

impl<C: Codec> Dispatcher<C> {
    /// The connection invariant: a well-formed stream table.
    pub open spec fn wf(&self) -> bool {
        self.streams.wf()
    }

    /// A fresh dispatcher for one client connection. The outbound
    /// counter continues the connection's sequence: the handshake
    /// response carried `seq` 0, so the first frame sent here
    /// carries 1.
    pub fn new(codec: C, client_id: String, services: ServiceDescription) -> (r: Dispatcher<C>)
        ensures
            r.wf(),
            r.seq == 1,
            r.codec == codec,
            r.client_id == client_id,
            r.services == services,
            r.streams.spec_len() == 0,
            forall|k: Seq<char>| !r.streams.spec_contains(k),
    {
        Dispatcher { codec, client_id, seq: 1, streams: StreamTable::new(), services }
    }

    /// Routes one inbound binary frame, as the header peek and the
    /// full decode direct. A new stream-table entry appears exactly
    /// when an init frame carries the open bit with the normal-close
    /// bit clear.
    #[verifier::rlimit(100)]
    pub fn handle_inbound(&mut self, data: &[u8]) -> (r: InboundStep)
        requires
            old(self).wf(),
        ensures
            final(self).wf(),
            final(self).codec == old(self).codec,
            final(self).client_id == old(self).client_id,
            final(self).seq == old(self).seq,
            (match old(self).codec.dec_spec(data@) {
                Some(xv) => header_id_of_jv(xv) is None,
                None => true,
            }) ==> (r is Skip && final(self).streams == old(self).streams),
            ({
                let x = old(self).codec.dec_spec(data@);
                match r {
                    InboundStep::Skip => frame_dropped(old(self).streams, old(self).services, x)
                        && drop_table_change(old(self).streams, final(self).streams, x),
                    InboundStep::Deliver { stream_id, message } => x matches Some(xv) && (
                    request_msg_of_jv(xv) matches Some(m) && m.header.stream_id == stream_id@
                        && old(self).streams.spec_contains(stream_id@) && final(self).streams
                        == old(self).streams && (if has_close_flag(m.header.control_flags) {
                        message is Close
                    } else {
                        message matches IncomingMessage::Request(p) && (
                        m.inner matches RequestInnerV::Request { payload } && p@ == payload)
                    })),
                    InboundStep::Invoke {
                        service,
                        procedure,
                        metadata,
                        payload,
                        registered,
                    } => x matches Some(xv) && (request_msg_of_jv(xv) matches Some(m) && (
                    m.inner matches RequestInnerV::Init {
                        service_name,
                        procedure_name,
                        payload: pl,
                    } && service@ == service_name && procedure@ == procedure_name && payload@
                        == pl && metadata.stream_id@ == m.header.stream_id
                        && metadata.client_id@ == old(self).client_id@ && !old(self).streams.spec_contains(m.header.stream_id) && registered == opens_stream(
                        m.header.control_flags,
                    ) && old(self).services.spec_contains(service_name, procedure_name) && (
                    if registered {
                        inserted_one(old(self).streams, final(self).streams, m.header.stream_id)
                    } else {
                        final(self).streams == old(self).streams
                    }))),
                }
            }),
    {
        let decoded = match self.codec.decode_value(data) {
            Some(v) => v,
            None => {
                return InboundStep::Skip;
            },
        };
        let peek = match HeaderID::from_json(&decoded) {
            Some(p) => p,
            None => {
                return InboundStep::Skip;
            },
        };
        proof {
            crate::value::lemma_jv_str_field_wf(decoded@, ("streamId")@);
        }
        if self.streams.contains(peek.stream_id.as_str()) {
            let msg = match TransportRequestMessage::from_json(&decoded) {
                Some(m) => m,
                None => {
                    return InboundStep::Skip;
                },
            };
            if msg.header.control_flags & FLAG_STREAM_CLOSE != 0 {
                proof {
                    crate::message_types::lemma_peek_agrees_with_request(decoded@);
                }
                InboundStep::Deliver {
                    stream_id: msg.header.stream_id,
                    message: IncomingMessage::Close,
                }
            } else {
                match msg.inner {
                    RequestInner::Request { payload } => {
                        proof {
                            crate::message_types::lemma_peek_agrees_with_request(decoded@);
                        }
                        InboundStep::Deliver {
                            stream_id: msg.header.stream_id,
                            message: IncomingMessage::Request(payload),
                        }
                    },
                    RequestInner::Init { .. } => InboundStep::Skip,
                }
            }
        } else if peek.service_name.is_some() && peek.procedure_name.is_some() {
            let msg = match TransportRequestMessage::from_json(&decoded) {
                Some(m) => m,
                None => {
                    return InboundStep::Skip;
                },
            };
            match msg.inner {
                RequestInner::Init { service_name, procedure_name, payload } => {
                    proof {
                        crate::message_types::lemma_peek_agrees_with_request(decoded@);
                        crate::value::lemma_jv_str_field_wf(decoded@, ("serviceName")@);
                        crate::value::lemma_jv_str_field_wf(decoded@, ("procedureName")@);
                        reveal_strlit("streamId");
                        reveal_strlit("serviceName");
                        reveal_strlit("procedureName");
                    }
                    let registered = msg.header.control_flags & (FLAG_STREAM_OPEN
                        | FLAG_STREAM_CLOSE) == FLAG_STREAM_OPEN;
                    if registered {
                        self.streams.insert(
                            msg.header.stream_id.clone(),
                            StreamInfo { opening_seq: msg.header.seq },
                        );
                    }
                    if !self.services.contains(service_name.as_str(), procedure_name.as_str()) {
                        // Unknown service or procedure: drop with a
                        // warning, as the reference behaviour does.
                        return InboundStep::Skip;
                    }
                    let metadata = RPCMetadata {
                        stream_id: msg.header.stream_id,
                        client_id: self.client_id.clone(),
                    };
                    InboundStep::Invoke {
                        service: service_name,
                        procedure: procedure_name,
                        metadata,
                        payload,
                        registered,
                    }
                },
                RequestInner::Request { .. } => {
                    // A frame whose peek carries both name fields
                    // always fully decodes as an init frame.
                    proof {
                        assert(jv_str_field(decoded@, ("serviceName")@) is Some);
                        assert(jv_str_field(decoded@, ("procedureName")@) is Some);
                        assert(false);
                    }
                    InboundStep::Skip
                },
            }
        } else {
            InboundStep::Skip
        }
    }

    /// Socket close: every open stream's queue receives exactly one
    /// `ForceClose`, in table order, and the table ends empty.
    pub fn handle_socket_close(&mut self) -> (r: Vec<(String, IncomingMessage)>)
        requires
            old(self).wf(),
        ensures
            final(self).wf(),
            final(self).codec == old(self).codec,
            final(self).client_id == old(self).client_id,
            final(self).seq == old(self).seq,
            r@.len() == old(self).streams.spec_len(),
            forall|i: int|
                0 <= i < r@.len() ==> (#[trigger] r@[i]).0@ == old(self).streams.key_at(i)
                    && r@[i].1 is ForceClose,
            final(self).streams.spec_len() == 0,
    {
        let drained = self.streams.drain();
        let mut out: Vec<(String, IncomingMessage)> = Vec::new();
        let mut i: usize = 0;
        while i < drained.len()
            invariant
                i <= drained@.len(),
                out@.len() == i,
                forall|j: int|
                    0 <= j < i ==> (#[trigger] out@[j]).0@ == drained@[j].0@ && out@[j].1
                        is ForceClose,
            decreases drained@.len() - i,
        {
            out.push((drained[i].0.clone(), IncomingMessage::ForceClose));
            i = i + 1;
        }
        out
    }

    /// Materializes one outbound envelope into a wire frame: fills
    /// in the header with the next `seq`, removes the stream entry
    /// first when the envelope closes its stream, and encodes. A
    /// frame is sent exactly when the counter is not exhausted and
    /// the envelope's content fits the codecs; outbound `seq` values
    /// strictly increase by one per emitted frame.
    #[verifier::rlimit(100)]
    pub fn handle_outbound(&mut self, out: OutgoingMessage) -> (r: OutboundStep)
        requires
            old(self).wf(),
        ensures
            final(self).wf(),
            final(self).codec == old(self).codec,
            final(self).client_id == old(self).client_id,
            final(self).services == old(self).services,
            !out.close ==> final(self).streams == old(self).streams,
            (out.close && !(r is Exhausted)) ==> !final(self).streams.spec_contains(
                out.stream_id@,
            ),
            match r {
                OutboundStep::Exhausted => old(self).seq == i32::MAX && *final(self) == *old(self),
                OutboundStep::Skip => old(self).seq < i32::MAX && final(self).seq == old(self).seq
                    && !outbound_frame_ok(out, old(self).client_id@, old(self).seq as int),
                OutboundStep::Send(bytes) => old(self).seq < i32::MAX && final(self).seq == old(
                    self,
                ).seq + 1 && outbound_frame_ok(out, old(self).client_id@, old(self).seq as int)
                    && (exists|id: Seq<char>|
                    is_ascii_chars(id) && id.len() == 12 && #[trigger] old(self).codec.enc_spec(
                        outbound_frame_jv(out, old(self).client_id@, old(self).seq as int, id),
                    ) == bytes@),
            },
    {
        let ghost out0 = out;
        if self.seq == i32::MAX {
            return OutboundStep::Exhausted;
        }
        if out.close {
            self.streams.remove(out.stream_id.as_str());
        }
        let gen = generate_id();
        let ghost gid = gen@;
        let header = Header {
            stream_id: out.stream_id,
            id: gen,
            to: self.client_id.clone(),
            from: "SERVER".to_owned(),
            seq: self.seq,
            ack: 1,
            control_flags: match &out.message {
                SimpleOutgoingMessage::Control(f, _) => *f,
                SimpleOutgoingMessage::Request(f, _) => *f,
            },
        };
        let ghost hview = header@;
        let frame_json = match out.message {
            SimpleOutgoingMessage::Control(_, payload) => TransportControlMessage {
                header,
                payload,
            }.to_json(),
            SimpleOutgoingMessage::Request(_, inner) => TransportRequestMessage {
                header,
                inner,
            }.to_json(),
        };
        proof {
            assert(frame_json@ == outbound_frame_jv(
                out0,
                old(self).client_id@,
                old(self).seq as int,
                gid,
            ));
        }
        if !check_wf(&frame_json) {
            // The envelope held text or nesting neither codec can
            // carry; drop it rather than tear the connection down.
            proof {
                vstd::utf8::is_ascii_chars_encode_utf8(gid);
                assert(vstd::utf8::encode_utf8(Seq::<char>::empty()).len() == 0);
                lemma_outbound_frame_id_independent(
                    out0,
                    old(self).client_id@,
                    old(self).seq as int,
                    gid,
                    Seq::empty(),
                );
            }
            return OutboundStep::Skip;
        }
        let bytes = self.codec.encode_value(&frame_json);
        self.seq = self.seq + 1;
        proof {
            vstd::utf8::is_ascii_chars_encode_utf8(gid);
            assert(vstd::utf8::encode_utf8(Seq::<char>::empty()).len() == 0);
            lemma_outbound_frame_id_independent(
                out0,
                old(self).client_id@,
                old(self).seq as int,
                gid,
                Seq::empty(),
            );
            assert(old(self).codec.enc_spec(outbound_frame_jv(
                out0,
                old(self).client_id@,
                old(self).seq as int,
                gid,
            )) == bytes@);
        }
        OutboundStep::Send(bytes)
    }
}


// ---------- the outbound frame ----------

/// The control flags an envelope carries.
pub open spec fn envelope_flags(m: SimpleOutgoingMessage) -> int {
    match m {
        SimpleOutgoingMessage::Control(f, _) => f as int,
        SimpleOutgoingMessage::Request(f, _) => f as int,
    }
}

/// The frame the dispatcher composes for an outbound envelope: the
/// envelope's message under a server header carrying the given
/// counter and message id.
pub open spec fn outbound_frame_jv(
    out: OutgoingMessage,
    client_id: Seq<char>,
    seqno: int,
    id: Seq<char>,
) -> JVal {
    let h = crate::message_types::HeaderV {
        id,
        from: ("SERVER")@,
        to: client_id,
        seq: seqno,
        ack: 1,
        stream_id: out.stream_id@,
        control_flags: envelope_flags(out.message),
    };
    match out.message {
        SimpleOutgoingMessage::Control(_, c) => control_msg_jv(
            crate::message_types::TCMV { header: h, payload: c@ },
        ),
        SimpleOutgoingMessage::Request(_, inner) => request_msg_jv(
            crate::message_types::TRMV { header: h, inner: inner@ },
        ),
    }
}

/// Whether an envelope's content fits the codecs. The message id
/// plays no part: generated ids are always well-formed, so the
/// frame's fate rests on the envelope and the client identity alone.
pub open spec fn outbound_frame_ok(out: OutgoingMessage, client_id: Seq<char>, seqno: int) -> bool {
    jval_wf(outbound_frame_jv(out, client_id, seqno, Seq::empty())) && crate::value::jdepth(
        outbound_frame_jv(out, client_id, seqno, Seq::empty()),
    ) <= crate::value::MAX_DEPTH
}

/// Two composed frames that differ only in their (well-formed)
/// message ids are equally well-formed and equally deep.
proof fn lemma_outbound_frame_id_independent(
    out: OutgoingMessage,
    client_id: Seq<char>,
    seqno: int,
    id1: Seq<char>,
    id2: Seq<char>,
)
    requires
        vstd::utf8::encode_utf8(id1).len() <= MAX_LEN,
        vstd::utf8::encode_utf8(id2).len() <= MAX_LEN,
    ensures
        jval_wf(outbound_frame_jv(out, client_id, seqno, id1)) == jval_wf(
            outbound_frame_jv(out, client_id, seqno, id2),
        ),
        crate::value::jdepth(outbound_frame_jv(out, client_id, seqno, id1))
            == crate::value::jdepth(outbound_frame_jv(out, client_id, seqno, id2)),
{
    let x1 = outbound_frame_jv(out, client_id, seqno, id1);
    let x2 = outbound_frame_jv(out, client_id, seqno, id2);
    let m1 = (match x1 {
        JVal::Obj(m) => m,
        _ => Seq::empty(),
    });
    let m2 = (match x2 {
        JVal::Obj(m) => m,
        _ => Seq::empty(),
    });
    assert(x1 == JVal::Obj(m1));
    assert(x2 == JVal::Obj(m2));
    assert(m1.len() == m2.len());
    assert(m1[0] == (("id")@, JVal::Str(id1)));
    assert(m2[0] == (("id")@, JVal::Str(id2)));
    assert(m1.drop_first() =~= m2.drop_first());
    assert(crate::value::jval_wf(JVal::Str(id1)));
    assert(crate::value::jval_wf(JVal::Str(id2)));
    assert(crate::value::jval_wf_members(m1) == crate::value::jval_wf_members(m2));
    assert(crate::value::jdepth(JVal::Str(id1)) == crate::value::jdepth(JVal::Str(id2)));
    assert(crate::value::jdepth_members(m1) == crate::value::jdepth_members(m2));
}

/// The heartbeat envelope: an `ACK` control message on the reserved
/// `heartbeat` stream, never closing it.
pub fn heartbeat_message() -> (r: OutgoingMessage)
    ensures
        r.stream_id@ == ("heartbeat")@,
        r.close == false,
        r.message matches SimpleOutgoingMessage::Control(f, c) && f == FLAG_ACK && c is Ack,
{
    OutgoingMessage {
        message: SimpleOutgoingMessage::Control(FLAG_ACK, Control::Ack),
        stream_id: "heartbeat".to_owned(),
        close: false,
    }
}


// ---------- the handshake engine ----------

/// What to do with the first inbound frame of a connection.
pub enum HandshakeOutcome {
    /// Send the response frame; continue into the session only when
    /// `accept` holds.
    Reply { response: TransportControlMessage, client_id: String, accept: bool },
    /// Not a well-formed handshake request: send no response and
    /// close the socket.
    Close,
}

/// The decoded first frame, when it is a well-formed control frame
/// carrying a handshake request.
pub open spec fn decoded_handshake(x: Option<JVal>) -> Option<crate::message_types::TCMV> {
    match x {
        Some(xv) => match control_msg_of_jv(xv) {
            Some(m) => if m.payload is HandshakeRequest {
                Some(m)
            } else {
                None
            },
            None => None,
        },
        None => None,
    }
}

/// The handshake response header: server to client, sequence zero,
/// no flags.
pub open spec fn response_header_ok(h: crate::message_types::HeaderV, to: Seq<char>) -> bool {
    h.from == ("SERVER")@ && h.to == to && h.seq == 0 && h.ack == 0 && h.control_flags == 0
}

/// The handshake response status: success echoes the request's
/// session id; failure names the version mismatch.
pub open spec fn response_status_ok(
    resp: TransportControlMessage,
    session_id: Seq<char>,
    accept: bool,
) -> bool {
    match resp.payload {
        Control::HandshakeResponse(h) => {
            let st = h.status;
            st.ok == accept && (accept ==> st_accept_ok(h, session_id)) && (!accept
                ==> st_reject_ok(h))
        },
        _ => false,
    }
}

pub open spec fn st_accept_ok(h: HandshakeResponse, session_id: Seq<char>) -> bool {
    &&& h.status.inner matches Some(ok) && ok.session_id@ == session_id
    &&& h.status.message is None
    &&& h.status.code is None
}

pub open spec fn st_reject_ok(h: HandshakeResponse) -> bool {
    &&& h.status.inner is None
    &&& h.status.message matches Some(ms) && ms@ == ("Expected version v2.0")@
    &&& h.status.code matches Some(c) && c@ == ("PROTOCOL_VERSION_MISMATCH")@
}

/// Validates the first inbound frame and builds the handshake
/// response.
///
/// A well-formed `HANDSHAKE_REQ` is answered: with success echoing
/// the request's session id when it names protocol v2.0, and with a
/// fatal `PROTOCOL_VERSION_MISMATCH` failure otherwise. Anything
/// else is answered with nothing: the socket is closed.
#[verifier::rlimit(100)]
pub fn handle_first_frame<C: Codec>(codec: &C, data: &[u8]) -> (r: HandshakeOutcome)
    ensures
        ({
            let hs = decoded_handshake(codec.dec_spec(data@));
            match r {
                HandshakeOutcome::Close => hs is None,
                HandshakeOutcome::Reply { response, client_id, accept } => hs matches Some(m) && (
                m.payload matches CtrlV::HandshakeRequest(req) && client_id@ == m.header.from
                    && accept == (req.protocol_version is V2_0) && response_header_ok(
                    response.header@,
                    m.header.from,
                ) && response_status_ok(response, req.session_id, accept)),
            }
        }),
{
    let decoded = match codec.decode_value(data) {
        Some(v) => v,
        None => {
            return HandshakeOutcome::Close;
        },
    };
    let msg = match TransportControlMessage::from_json(&decoded) {
        Some(m) => m,
        None => {
            return HandshakeOutcome::Close;
        },
    };
    let req = match msg.payload {
        Control::HandshakeRequest(req) => req,
        _ => {
            return HandshakeOutcome::Close;
        },
    };
    let client_id = msg.header.from;
    let accept = req.protocol_version.is_v2_0();
    let status: crate::result::RiverResultInternal<HandshakeResponseOk> = if accept {
        RiverResult::<HandshakeResponseOk, HandshakeError>::Success(
            HandshakeResponseOk { session_id: req.session_id },
        ).into_internal()
    } else {
        RiverResult::<HandshakeResponseOk, HandshakeError>::Failure {
            message: "Expected version v2.0".to_owned(),
            code: HandshakeError::ProtocolVersionMismatch,
        }.into_internal()
    };
    let response = TransportControlMessage {
        header: Header {
            id: generate_id(),
            from: "SERVER".to_owned(),
            to: client_id.clone(),
            seq: 0,
            ack: 0,
            control_flags: 0,
            stream_id: generate_id(),
        },
        payload: Control::HandshakeResponse(HandshakeResponse { status }),
    };
    HandshakeOutcome::Reply { response, client_id, accept }
}

/// Encodes a control frame for sending. Succeeds exactly when the
/// frame's content fits the codecs: `i64` integers, 32-bit string
/// and collection lengths, bounded nesting.
pub fn encode_control_message<C: Codec>(codec: &C, m: &TransportControlMessage) -> (r: Option<
    Vec<u8>,
>)
    ensures
        match r {
            Some(bytes) => bytes@ == codec.enc_spec(control_msg_jv(m@)) && jval_wf(
                control_msg_jv(m@),
            ) && crate::value::jdepth(control_msg_jv(m@)) <= crate::value::MAX_DEPTH,
            None => !(jval_wf(control_msg_jv(m@)) && crate::value::jdepth(control_msg_jv(m@))
                <= crate::value::MAX_DEPTH),
        },
{
    let v = m.to_json();
    if !check_wf(&v) {
        return None;
    }
    Some(codec.encode_value(&v))
}

} // verus!
