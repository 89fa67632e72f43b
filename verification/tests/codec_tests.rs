use rapids::codecs::{BinaryCodec, Codec, DynCodec, NaiveCodec};
use rapids::value::JsonValue;

fn sample_value() -> JsonValue {
    JsonValue::Obj(vec![
        ("ok".to_string(), JsonValue::Bool(true)),
        ("n".to_string(), JsonValue::Int(-42)),
        ("big".to_string(), JsonValue::Int(i64::MAX)),
        ("small".to_string(), JsonValue::Int(i64::MIN)),
        ("s".to_string(), JsonValue::Str("he\"llo\\wo\nrld".to_string())),
        ("t\u{e9}xt".to_string(), JsonValue::Str("\u{e9}\u{4e16}\u{1f30a} caf\u{e9}".to_string())),
        ("null".to_string(), JsonValue::Null),
        (
            "arr".to_string(),
            JsonValue::Arr(vec![
                JsonValue::Int(1),
                JsonValue::Str(String::new()),
                JsonValue::Arr(vec![]),
                JsonValue::Obj(vec![]),
            ]),
        ),
    ])
}

#[test]
fn json_round_trip() {
    let c = NaiveCodec {};
    let v = sample_value();
    let bytes = c.encode_value(&v);
    let back = c.decode_value(&bytes).expect("decode");
    assert_eq!(back, v);
}

#[test]
fn msgpack_round_trip() {
    let c = BinaryCodec {};
    let v = sample_value();
    let bytes = c.encode_value(&v);
    let back = c.decode_value(&bytes).expect("decode");
    assert_eq!(back, v);
}

#[test]
fn dyn_codec_round_trip() {
    for c in [DynCodec::Naive(NaiveCodec {}), DynCodec::Binary(BinaryCodec {})] {
        let v = sample_value();
        let bytes = c.encode_value(&v);
        assert_eq!(c.decode_value(&bytes), Some(sample_value()));
    }
}

#[test]
fn json_encoding_matches_serde_json() {
    let c = NaiveCodec {};
    let v = sample_value();
    let bytes = c.encode_value(&v);
    let parsed: serde_json::Value = serde_json::from_slice(&bytes).expect("valid JSON");
    let expected: serde_json::Value = serde_json::from_str(
        "{\"ok\":true,\"n\":-42,\"big\":9223372036854775807,\"small\":-9223372036854775808,\
         \"s\":\"he\\\"llo\\\\wo\\nrld\",\"t\u{e9}xt\":\"\u{e9}\u{4e16}\u{1f30a} caf\u{e9}\",\"null\":null,\"arr\":[1,\"\",[],{}]}",
    )
    .unwrap();
    assert_eq!(parsed, expected);
}

#[test]
fn non_ascii_text_round_trips() {
    let v = JsonValue::Obj(vec![
        ("gru\u{df}".to_string(), JsonValue::Str("\u{fc}ber alles \u{1f980}".to_string())),
        ("\u{e9}".to_string(), JsonValue::Arr(vec![JsonValue::Str("\u{4e16}\u{754c}".to_string())])),
    ]);
    for c in [DynCodec::Naive(NaiveCodec {}), DynCodec::Binary(BinaryCodec {})] {
        let bytes = c.encode_value(&v);
        assert_eq!(c.decode_value(&bytes).as_ref(), Some(&v));
    }
    let jb = NaiveCodec {}.encode_value(&v);
    let sv: serde_json::Value = serde_json::from_slice(&jb).expect("valid JSON");
    assert_eq!(sv["gru\u{df}"], "\u{fc}ber alles \u{1f980}");
    let mb = BinaryCodec {}.encode_value(&v);
    let mv: serde_json::Value = rmp_serde::from_slice(&mb).expect("valid msgpack");
    assert_eq!(mv["\u{e9}"][0], "\u{4e16}\u{754c}");
}

#[test]
fn invalid_utf8_is_rejected() {
    // A lone continuation byte inside a JSON string, and a msgpack
    // string whose bytes are not UTF-8.
    assert_eq!(NaiveCodec {}.decode_value(b"\"\x80\""), None);
    assert_eq!(BinaryCodec {}.decode_value(b"\xa1\xff"), None);
}

#[test]
fn json_decoder_reads_serde_json_output() {
    let c = NaiveCodec {};
    let sv: serde_json::Value =
        serde_json::from_str(" { \"a\" : [ 1 , 2 ] , \"b\" : \"x\" } ").unwrap();
    let bytes = serde_json::to_vec(&sv).unwrap();
    let v = c.decode_value(&bytes).expect("decode");
    assert_eq!(
        v,
        JsonValue::Obj(vec![
            ("a".to_string(), JsonValue::Arr(vec![JsonValue::Int(1), JsonValue::Int(2)])),
            ("b".to_string(), JsonValue::Str("x".to_string())),
        ])
    );
}

#[test]
fn json_decoder_accepts_whitespace_and_escapes() {
    let c = NaiveCodec {};
    let bytes = b" {\t\"k\" : \"a\\u0041\\n\\t\\\"\" , \"l\" : [ ] } ";
    let v = c.decode_value(bytes).expect("decode");
    assert_eq!(
        v,
        JsonValue::Obj(vec![
            ("k".to_string(), JsonValue::Str("aA\n\t\"".to_string())),
            ("l".to_string(), JsonValue::Arr(vec![])),
        ])
    );
}

#[test]
fn json_decoder_rejects_floats_and_junk() {
    let c = NaiveCodec {};
    assert_eq!(c.decode_value(b"1.5"), None);
    assert_eq!(c.decode_value(b"1e3"), None);
    assert_eq!(c.decode_value(b"{\"a\":}"), None);
    assert_eq!(c.decode_value(b"[1,]"), None);
    assert_eq!(c.decode_value(b"01"), None);
    assert_eq!(c.decode_value(b"9223372036854775808"), None);
    assert_eq!(c.decode_value(b""), None);
    assert_eq!(c.decode_value(b"{} {}"), None);
}

#[test]
fn msgpack_decoder_reads_rmp_serde_output() {
    let c = BinaryCodec {};
    let sv: serde_json::Value =
        serde_json::from_str("{\"n\":5,\"neg\":-3,\"s\":\"hi\",\"a\":[1,2,3]}").unwrap();
    let bytes = rmp_serde::to_vec(&sv).unwrap();
    let v = c.decode_value(&bytes).expect("decode");
    // serde_json::Value keeps object keys sorted.
    assert_eq!(
        v,
        JsonValue::Obj(vec![
            (
                "a".to_string(),
                JsonValue::Arr(vec![JsonValue::Int(1), JsonValue::Int(2), JsonValue::Int(3)])
            ),
            ("n".to_string(), JsonValue::Int(5)),
            ("neg".to_string(), JsonValue::Int(-3)),
            ("s".to_string(), JsonValue::Str("hi".to_string())),
        ])
    );
}

#[test]
fn msgpack_encoding_readable_by_rmp_serde() {
    let c = BinaryCodec {};
    let v = sample_value();
    let bytes = c.encode_value(&v);
    let parsed: serde_json::Value = rmp_serde::from_slice(&bytes).expect("valid msgpack");
    let expected: serde_json::Value = serde_json::from_str(
        "{\"ok\":true,\"n\":-42,\"big\":9223372036854775807,\"small\":-9223372036854775808,\
         \"s\":\"he\\\"llo\\\\wo\\nrld\",\"t\u{e9}xt\":\"\u{e9}\u{4e16}\u{1f30a} caf\u{e9}\",\"null\":null,\"arr\":[1,\"\",[],{}]}",
    )
    .unwrap();
    assert_eq!(parsed, expected);
}

#[test]
fn msgpack_rejects_floats() {
    let c = BinaryCodec {};
    let bytes = rmp_serde::to_vec(&1.5f64).unwrap();
    assert_eq!(c.decode_value(&bytes), None);
}
