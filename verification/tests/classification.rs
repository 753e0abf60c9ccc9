use gemini_credentials::failure::{
    credential_failure, exhausted_until, failure_from_reason, ApiFailure, CallError,
    CredentialFailure, ErrorReport,
};
use gemini_credentials::keys::exhausted;
use serde_json::Value;

fn json(text: &str) -> Value {
    serde_json::from_str(text).unwrap()
}

fn handshake(status: u16, body: Option<&str>) -> CallError {
    CallError::Handshake {
        status,
        body: body.map(|text| text.as_bytes().to_vec()),
    }
}

#[test]
fn a_refused_handshake_is_read_from_its_body() {
    let named = r#"{"error":{"details":[{"reason":"API_KEY_INVALID"}]}}"#;
    for (error, expected) in [
        (handshake(403, None), Some(CredentialFailure::Refused)),
        (handshake(403, Some("not json")), Some(CredentialFailure::Refused)),
        (handshake(403, Some("")), Some(CredentialFailure::Refused)),
        (handshake(403, Some(named)), Some(CredentialFailure::Invalid)),
        (handshake(400, Some(named)), Some(CredentialFailure::Invalid)),
        (handshake(400, Some("not json")), None),
        (handshake(429, None), Some(CredentialFailure::Quota)),
        (handshake(401, None), Some(CredentialFailure::Invalid)),
        (handshake(500, Some(named)), None),
    ] {
        assert_eq!(credential_failure(&error), expected);
        assert_eq!(exhausted_until(&error), None);
    }
}

#[test]
fn an_api_failure_keeps_its_verdict() {
    let failure = ApiFailure {
        status: 200,
        credential: Some(CredentialFailure::Quota),
        detail: None,
    };
    assert_eq!(
        credential_failure(&CallError::Api(failure)),
        Some(CredentialFailure::Quota)
    );
    assert_eq!(credential_failure(&CallError::Other), None);
    assert_eq!(exhausted_until(&CallError::Other), None);
    let spent = CallError::Exhausted(exhausted(Some(7)));
    assert_eq!(credential_failure(&spent), None);
    assert_eq!(exhausted_until(&spent), Some(7));
}

#[test]
fn a_body_of_another_shape_says_nothing() {
    for body in [
        "null",
        "[]",
        "3",
        r#"{"error":"API_KEY_INVALID"}"#,
        r#"{"error":{"details":{"reason":"API_KEY_INVALID"}}}"#,
        r#"{"error":{"details":["API_KEY_INVALID"]}}"#,
        r#"{"error":{"details":[{"reason":["API_KEY_INVALID"]}]}}"#,
        r#"{"error":{"details":[{"reason":"api_key_invalid"}]}}"#,
        r#"{"details":[{"reason":"API_KEY_INVALID"}]}"#,
        r#"{"error":{"status":"resource_exhausted"}}"#,
        r#"{"error":{"message":7}}"#,
    ] {
        assert_eq!(ApiFailure::from_response(400, &json(body)).credential, None, "{body}");
        assert_eq!(
            ApiFailure::from_response(403, &json(body)).credential,
            Some(CredentialFailure::Refused),
            "{body}"
        );
    }
}

#[test]
fn a_body_is_read_into_its_report() {
    let report = ErrorReport::of(&json(
        r#"{"error":{"status":"S","message":"M","details":[{"reason":"A"},{"other":1},{"reason":"B"}]}}"#,
    ));
    assert_eq!(report.status.as_deref(), Some("S"));
    assert_eq!(report.message.as_deref(), Some("M"));
    assert_eq!(
        report.reasons,
        [Some("A".to_string()), None, Some("B".to_string())]
    );
    let silent = ErrorReport::silent();
    assert!(silent.status.is_none() && silent.message.is_none() && silent.reasons.is_empty());
}

#[test]
fn an_invalid_reason_outranks_quota_and_quota_outranks_the_message() {
    let both = r#"{"error":{"status":"RESOURCE_EXHAUSTED","details":[{"reason":"QUOTA_EXCEEDED"},{"reason":"API_KEY_EXPIRED"}]}}"#;
    assert_eq!(
        ApiFailure::from_response(403, &json(both)).credential,
        Some(CredentialFailure::Invalid)
    );
    let spent = r#"{"error":{"status":"RESOURCE_EXHAUSTED","message":"API key not valid"}}"#;
    assert_eq!(
        ApiFailure::from_response(403, &json(spent)).credential,
        Some(CredentialFailure::Quota)
    );
}

#[test]
fn quota_phrases_outrank_key_phrases() {
    assert_eq!(
        failure_from_reason("API key not valid: QUOTA EXCEEDED"),
        Some(CredentialFailure::Quota)
    );
    assert_eq!(failure_from_reason(""), None);
    assert_eq!(failure_from_reason("quota  exceeded"), None);
    assert_eq!(
        failure_from_reason("aPi KeY iS dIsAbLeD"),
        failure_from_reason("API KEY IS DISABLED")
    );
}

#[test]
fn a_detail_is_printed_before_anything_else() {
    let failure = |status, credential, detail: Option<&str>| ApiFailure {
        status,
        credential,
        detail: detail.map(str::to_string),
    };
    assert_eq!(
        failure(429, Some(CredentialFailure::Quota), Some("closed early")).message(),
        "closed early"
    );
    assert_eq!(
        failure(403, Some(CredentialFailure::Refused), None).message(),
        "Gemini credential rejected"
    );
    assert_eq!(
        failure(7, None, None).message(),
        "Gemini request rejected (status=7)"
    );
    assert_eq!(
        failure(65535, None, None).message(),
        "Gemini request rejected (status=65535)"
    );
    assert_eq!(
        failure(100, None, None).message(),
        "Gemini request rejected (status=100)"
    );
}
