use rapids::result::{RiverResult, RiverResultInternal};
use rapids::value::JsonValue;

#[test]
fn success_envelope_inlines_fields() {
    let env: RiverResultInternal<JsonValue> =
        RiverResult::<JsonValue, String>::Success(JsonValue::Obj(vec![(
            "sessionId".to_string(),
            JsonValue::Str("s1".to_string()),
        )]))
        .into_internal();
    let v = env.to_json();
    assert_eq!(
        v,
        JsonValue::Obj(vec![
            ("ok".to_string(), JsonValue::Bool(true)),
            ("sessionId".to_string(), JsonValue::Str("s1".to_string())),
        ])
    );
    let back = RiverResultInternal::<JsonValue>::from_json(&v).expect("decode");
    assert!(back.ok);
    assert_eq!(back.message, None);
    assert_eq!(back.code, None);
    assert_eq!(
        back.inner,
        Some(JsonValue::Obj(vec![(
            "sessionId".to_string(),
            JsonValue::Str("s1".to_string())
        )]))
    );
}

#[test]
fn failure_envelope_keeps_message_and_code() {
    let env: RiverResultInternal<JsonValue> = RiverResult::<JsonValue, String>::Failure {
        message: "boom".to_string(),
        code: "UNCAUGHT_ERROR".to_string(),
    }
    .into_internal();
    let v = env.to_json();
    assert_eq!(
        v,
        JsonValue::Obj(vec![
            ("ok".to_string(), JsonValue::Bool(false)),
            ("message".to_string(), JsonValue::Str("boom".to_string())),
            ("code".to_string(), JsonValue::Str("UNCAUGHT_ERROR".to_string())),
        ])
    );
    let back = RiverResultInternal::<JsonValue>::from_json(&v).expect("decode");
    assert!(!back.ok);
    assert_eq!(back.message, Some("boom".to_string()));
    assert_eq!(back.code, Some("UNCAUGHT_ERROR".to_string()));
    assert_eq!(back.inner, None);
}

#[test]
fn envelope_back_to_result() {
    let ok = RiverResultInternal::<JsonValue> {
        ok: true,
        message: None,
        code: None,
        inner: Some(JsonValue::Int(3)),
    };
    match ok.into_result() {
        Some(RiverResult::Success(v)) => assert_eq!(v, JsonValue::Int(3)),
        _ => panic!("expected a success"),
    }
    let err = RiverResultInternal::<JsonValue> {
        ok: false,
        message: Some("boom".to_string()),
        code: Some("C".to_string()),
        inner: None,
    };
    match err.into_result() {
        Some(RiverResult::Failure { message, code }) => {
            assert_eq!(message, "boom");
            assert_eq!(code, "C");
        }
        _ => panic!("expected a failure"),
    }
    let bad = RiverResultInternal::<JsonValue> { ok: true, message: None, code: None, inner: None };
    assert!(bad.into_result().is_none());
    let bad2 = RiverResultInternal::<JsonValue> {
        ok: false,
        message: None,
        code: Some("C".to_string()),
        inner: None,
    };
    assert!(bad2.into_result().is_none());
}

#[test]
fn is_ok_and_is_err() {
    let ok: RiverResult<i64, String> = RiverResult::Success(1);
    let err: RiverResult<i64, String> =
        RiverResult::Failure { message: "m".to_string(), code: "C".to_string() };
    assert!(ok.is_ok());
    assert!(!ok.is_err());
    assert!(err.is_err());
    assert!(!err.is_ok());
}
