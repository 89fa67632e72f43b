use rapids::codecs::{Codec, NaiveCodec};
use rapids::control::Control;
use rapids::dispatch::{
    encode_control_message, handle_first_frame, heartbeat_message, Dispatcher, HandshakeOutcome,
    InboundStep, OutboundStep, ServiceDescription,
};
use rapids::message_types::HeaderID;
use rapids::misc::{IncomingMessage, OutgoingMessage, ProcedureRes, RPCMetadata, SimpleOutgoingMessage};
use rapids::utils::{generate_id, payload_to_msg};
use rapids::value::JsonValue;

fn codec() -> NaiveCodec {
    NaiveCodec {}
}

fn services() -> ServiceDescription {
    ServiceDescription {
        entries: vec![(
            "adder".to_string(),
            vec![
                "add".to_string(),
                "uploadAdd".to_string(),
                "streamAdd".to_string(),
                "subscriptionAdd".to_string(),
            ],
        )],
    }
}

fn handshake_req(version: &str) -> Vec<u8> {
    format!(
        "{{\"id\":\"m1\",\"from\":\"client-A\",\"to\":\"SERVER\",\"seq\":0,\"ack\":0,\
         \"streamId\":\"hs\",\"controlFlags\":0,\"payload\":{{\"type\":\"HANDSHAKE_REQ\",\
         \"protocolVersion\":\"{version}\",\"sessionId\":\"s1\",\
         \"expectedSessionState\":{{\"nextExpectedSeq\":0,\"nextSentSeq\":0}}}}}}"
    )
    .into_bytes()
}

fn decode(bytes: &[u8]) -> serde_json::Value {
    serde_json::from_slice(bytes).expect("frame is valid JSON")
}

#[test]
fn handshake_version_mismatch() {
    let c = codec();
    match handle_first_frame(&c, &handshake_req("v1.1")) {
        HandshakeOutcome::Reply { response, client_id, accept } => {
            assert_eq!(client_id, "client-A");
            assert!(!accept);
            let bytes = encode_control_message(&c, &response).expect("encodable");
            let v = decode(&bytes);
            assert_eq!(v["from"], "SERVER");
            assert_eq!(v["to"], "client-A");
            assert_eq!(v["seq"], 0);
            assert_eq!(v["payload"]["type"], "HANDSHAKE_RESP");
            assert_eq!(v["payload"]["status"]["ok"], false);
            assert_eq!(v["payload"]["status"]["code"], "PROTOCOL_VERSION_MISMATCH");
            let msg = v["payload"]["status"]["message"].as_str().unwrap();
            assert!(msg.contains("v2.0"));
        }
        HandshakeOutcome::Close => panic!("expected a reply"),
    }
}

#[test]
fn handshake_success() {
    let c = codec();
    match handle_first_frame(&c, &handshake_req("v2.0")) {
        HandshakeOutcome::Reply { response, client_id, accept } => {
            assert_eq!(client_id, "client-A");
            assert!(accept);
            let bytes = encode_control_message(&c, &response).expect("encodable");
            let v = decode(&bytes);
            assert_eq!(v["from"], "SERVER");
            assert_eq!(v["to"], "client-A");
            assert_eq!(v["seq"], 0);
            assert_eq!(v["ack"], 0);
            assert_eq!(v["controlFlags"], 0);
            assert_eq!(v["payload"]["type"], "HANDSHAKE_RESP");
            assert_eq!(v["payload"]["status"]["ok"], true);
            assert_eq!(v["payload"]["status"]["sessionId"], "s1");
        }
        HandshakeOutcome::Close => panic!("expected a reply"),
    }
}

#[test]
fn handshake_rejects_non_handshake_first_frame() {
    let c = codec();
    let frame = b"{\"id\":\"m1\",\"from\":\"client-A\",\"to\":\"SERVER\",\"seq\":0,\"ack\":0,\
                  \"streamId\":\"hs\",\"controlFlags\":0,\"payload\":{\"type\":\"ACK\"}}";
    assert!(matches!(handle_first_frame(&c, frame), HandshakeOutcome::Close));
    assert!(matches!(handle_first_frame(&c, b"not json"), HandshakeOutcome::Close));
}

fn init_frame(stream_id: &str, flags: i32, procedure: &str, payload: &str) -> Vec<u8> {
    format!(
        "{{\"id\":\"m2\",\"from\":\"client-A\",\"to\":\"SERVER\",\"seq\":0,\"ack\":0,\
         \"streamId\":\"{stream_id}\",\"controlFlags\":{flags},\"serviceName\":\"adder\",\
         \"procedureName\":\"{procedure}\",\"payload\":{payload}}}"
    )
    .into_bytes()
}

fn request_frame(stream_id: &str, flags: i32, payload: &str) -> Vec<u8> {
    format!(
        "{{\"id\":\"m3\",\"from\":\"client-A\",\"to\":\"SERVER\",\"seq\":1,\"ack\":0,\
         \"streamId\":\"{stream_id}\",\"controlFlags\":{flags},\"payload\":{payload}}}"
    )
    .into_bytes()
}

fn new_dispatcher() -> Dispatcher<NaiveCodec> {
    Dispatcher::new(codec(), "client-A".to_string(), services())
}

fn respond(d: &mut Dispatcher<NaiveCodec>, meta: &RPCMetadata, n: i64, close: bool) -> Vec<u8> {
    let payload = JsonValue::Obj(vec![
        ("ok".to_string(), JsonValue::Bool(true)),
        ("payload".to_string(), JsonValue::Obj(vec![("result".to_string(), JsonValue::Int(n))])),
    ]);
    let out = payload_to_msg(ProcedureRes::Response(payload), meta, close, false);
    match d.handle_outbound(out) {
        OutboundStep::Send(bytes) => bytes,
        _ => panic!("expected a frame"),
    }
}

#[test]
fn single_shot_rpc() {
    let mut d = new_dispatcher();
    let step = d.handle_inbound(&init_frame("st1", 0b1010, "add", "{\"n\":5}"));
    let meta = match step {
        InboundStep::Invoke { service, procedure, metadata, payload, registered } => {
            assert_eq!(service, "adder");
            assert_eq!(procedure, "add");
            assert_eq!(metadata.stream_id, "st1");
            assert_eq!(metadata.client_id, "client-A");
            assert!(!registered, "open+close opens no table entry");
            assert_eq!(
                payload,
                JsonValue::Obj(vec![("n".to_string(), JsonValue::Int(5))])
            );
            metadata
        }
        _ => panic!("expected an invocation"),
    };
    assert!(!d.streams.contains("st1"));
    let bytes = respond(&mut d, &meta, 5, true);
    let v = decode(&bytes);
    assert_eq!(v["streamId"], "st1");
    assert_eq!(v["controlFlags"], 0b1000);
    assert_eq!(v["from"], "SERVER");
    // The handshake response carried seq 0; the session continues
    // the same counter.
    assert_eq!(v["seq"], 1);
    assert_eq!(v["payload"]["ok"], true);
    assert_eq!(v["payload"]["payload"]["result"], 5);
    assert!(!d.streams.contains("st1"));
}

#[test]
fn upload_stream() {
    let mut d = new_dispatcher();
    let meta = match d.handle_inbound(&init_frame("st2", 0b0010, "uploadAdd", "{\"n\":1}")) {
        InboundStep::Invoke { metadata, registered, payload, .. } => {
            assert!(registered);
            assert_eq!(payload, JsonValue::Obj(vec![("n".to_string(), JsonValue::Int(1))]));
            metadata
        }
        _ => panic!("expected an invocation"),
    };
    assert!(d.streams.contains("st2"));
    let mut sum = 1i64;
    for n in [2i64, 3] {
        match d.handle_inbound(&request_frame("st2", 0, &format!("{{\"n\":{n}}}"))) {
            InboundStep::Deliver { stream_id, message } => {
                assert_eq!(stream_id, "st2");
                match message {
                    IncomingMessage::Request(p) => {
                        assert_eq!(
                            p,
                            JsonValue::Obj(vec![("n".to_string(), JsonValue::Int(n))])
                        );
                        sum += n;
                    }
                    _ => panic!("expected a request item"),
                }
            }
            _ => panic!("expected a delivery"),
        }
    }
    match d.handle_inbound(&request_frame("st2", 0b1000, "null")) {
        InboundStep::Deliver { stream_id, message } => {
            assert_eq!(stream_id, "st2");
            assert!(matches!(message, IncomingMessage::Close));
        }
        _ => panic!("expected a close delivery"),
    }
    assert_eq!(sum, 6);
    let bytes = respond(&mut d, &meta, sum, true);
    let v = decode(&bytes);
    assert_eq!(v["payload"]["ok"], true);
    assert_eq!(v["payload"]["payload"]["result"], 6);
    assert_eq!(v["controlFlags"], 0b1000);
    assert!(!d.streams.contains("st2"), "terminal frame removes the entry");
}

#[test]
fn subscription_stream() {
    let mut d = new_dispatcher();
    let meta = match d.handle_inbound(&init_frame("st3", 0b0010, "subscriptionAdd", "[10,20,30]")) {
        InboundStep::Invoke { metadata, registered, payload, .. } => {
            assert!(registered);
            assert_eq!(
                payload,
                JsonValue::Arr(vec![
                    JsonValue::Int(10),
                    JsonValue::Int(20),
                    JsonValue::Int(30)
                ])
            );
            metadata
        }
        _ => panic!("expected an invocation"),
    };
    let mut running = 0i64;
    let mut seqs: Vec<i64> = Vec::new();
    for n in [10i64, 20, 30] {
        running += n;
        let bytes = respond(&mut d, &meta, running, false);
        let v = decode(&bytes);
        assert_eq!(v["controlFlags"], 0);
        assert_eq!(v["payload"]["payload"]["result"], running);
        seqs.push(v["seq"].as_i64().unwrap());
    }
    let close = payload_to_msg(ProcedureRes::Close, &meta, true, false);
    let bytes = match d.handle_outbound(close) {
        OutboundStep::Send(bytes) => bytes,
        _ => panic!("expected a frame"),
    };
    let v = decode(&bytes);
    assert_eq!(v["controlFlags"], 0b1000);
    assert_eq!(v["payload"]["type"], "CLOSE");
    seqs.push(v["seq"].as_i64().unwrap());
    assert_eq!(seqs, vec![1, 2, 3, 4], "seq strictly increasing and contiguous");
    assert!(!d.streams.contains("st3"));
}

#[test]
fn disconnect_mid_stream() {
    let mut d = new_dispatcher();
    match d.handle_inbound(&init_frame("st4", 0b0010, "streamAdd", "null")) {
        InboundStep::Invoke { registered, .. } => assert!(registered),
        _ => panic!("expected an invocation"),
    }
    let delivered = d.handle_socket_close();
    assert_eq!(delivered.len(), 1);
    assert_eq!(delivered[0].0, "st4");
    assert!(matches!(delivered[0].1, IncomingMessage::ForceClose));
    assert!(!d.streams.contains("st4"));
    assert_eq!(d.handle_socket_close().len(), 0, "table is empty after draining");
}

#[test]
fn open_with_cancel_bit_still_registers() {
    // The insertion mask consults only the open and normal-close
    // bits: an open+cancel init still creates a table entry.
    let mut d = new_dispatcher();
    match d.handle_inbound(&init_frame("st5", 0b0110, "add", "null")) {
        InboundStep::Invoke { registered, .. } => assert!(registered),
        _ => panic!("expected an invocation"),
    }
    assert!(d.streams.contains("st5"));
}

#[test]
fn failed_peek_drops_frame_even_for_open_stream() {
    let mut d = new_dispatcher();
    match d.handle_inbound(&init_frame("st6", 0b0010, "streamAdd", "null")) {
        InboundStep::Invoke { registered, .. } => assert!(registered),
        _ => panic!("expected an invocation"),
    }
    // serviceName as a number breaks the header peek; the frame is
    // dropped even though it would decode as a request for "st6".
    let frame = "{\"id\":\"m4\",\"from\":\"client-A\",\"to\":\"SERVER\",\"seq\":2,\"ack\":0,\
                 \"streamId\":\"st6\",\"controlFlags\":0,\"serviceName\":7,\"payload\":null}";
    assert!(matches!(d.handle_inbound(frame.as_bytes()), InboundStep::Skip));
    assert!(d.streams.contains("st6"));
}

#[test]
fn unknown_service_or_procedure_is_dropped() {
    let mut d = new_dispatcher();
    let frame = format!(
        "{{\"id\":\"m9\",\"from\":\"c\",\"to\":\"SERVER\",\"seq\":0,\"ack\":0,\
         \"streamId\":\"sx\",\"controlFlags\":2,\"serviceName\":\"nosuch\",\
         \"procedureName\":\"add\",\"payload\":null}}"
    );
    assert!(matches!(d.handle_inbound(frame.as_bytes()), InboundStep::Skip));
    assert!(matches!(
        d.handle_inbound(&init_frame("sy", 2, "nosuchproc", "null")),
        InboundStep::Skip
    ));
    // The reference behaviour keeps the entry created for an opening
    // init even when the procedure is unknown.
    assert!(d.streams.contains("sy"));
}

#[test]
fn undecodable_frames_are_dropped() {
    let mut d = new_dispatcher();
    assert!(matches!(d.handle_inbound(b"garbage"), InboundStep::Skip));
    assert!(matches!(d.handle_inbound(b"{\"streamId\":\"x\"}"), InboundStep::Skip));
}

#[test]
fn heartbeat_envelope_shape() {
    let hb = heartbeat_message();
    assert_eq!(hb.stream_id, "heartbeat");
    assert!(!hb.close);
    match hb.message {
        SimpleOutgoingMessage::Control(flags, Control::Ack) => assert_eq!(flags, 0b0001),
        _ => panic!("expected an ACK control message"),
    }
}

#[test]
fn peek_agrees_with_frame_fields() {
    let c = codec();
    let v = c.decode_value(&init_frame("st7", 2, "add", "{\"n\":1}")).unwrap();
    let peek = HeaderID::from_json(&v).expect("peek");
    assert_eq!(peek.stream_id, "st7");
    assert_eq!(peek.service_name.as_deref(), Some("adder"));
    assert_eq!(peek.procedure_name.as_deref(), Some("add"));
    assert_eq!(peek.control_flags, 2);
    assert_eq!(peek.seq, 0);
    assert_eq!(peek.ack, 0);
}

#[test]
fn generated_ids_are_well_formed() {
    for _ in 0..16 {
        let id = generate_id();
        assert_eq!(id.len(), 12);
        for ch in id.chars() {
            assert!(ch.is_ascii_alphanumeric());
            assert!(ch != 'w' && ch != 'W');
        }
    }
}

#[test]
fn outgoing_message_helper_sets_flags() {
    let meta = RPCMetadata { stream_id: "s".to_string(), client_id: "c".to_string() };
    let normal = payload_to_msg(ProcedureRes::Response(JsonValue::Null), &meta, true, false);
    assert!(normal.close);
    assert!(matches!(normal.message, SimpleOutgoingMessage::Request(0b1000, _)));
    let cancel = payload_to_msg(ProcedureRes::Response(JsonValue::Null), &meta, false, true);
    assert!(cancel.close, "cancel implies close");
    assert!(matches!(cancel.message, SimpleOutgoingMessage::Request(0b0100, _)));
    let mid = payload_to_msg(ProcedureRes::Close, &meta, false, false);
    assert!(!mid.close);
    assert!(matches!(mid.message, SimpleOutgoingMessage::Control(0, Control::Close)));
}

#[test]
fn outgoing_message_helper_keeps_payload() {
    let meta = RPCMetadata { stream_id: "s2".to_string(), client_id: "c".to_string() };
    let out: OutgoingMessage =
        payload_to_msg(ProcedureRes::Response(JsonValue::Int(7)), &meta, false, false);
    assert_eq!(out.stream_id, "s2");
    match out.message {
        SimpleOutgoingMessage::Request(0, rapids::message_types::RequestInner::Request { payload }) => {
            assert_eq!(payload, JsonValue::Int(7));
        }
        _ => panic!("expected an intermediate request"),
    }
}
