use gemini_credentials::config::load_from_pairs;
use gemini_credentials::cooldown::{cooling_down, ApiSurface, Cooldowns, Moment};
use gemini_credentials::failure::{
    exhausted_until, failure_from_reason, ApiFailure, CallError, CredentialFailure,
};
use gemini_credentials::keys::GeminiKeys;
use serde_json::Value;

const NOW: Moment = 1_000_000_000;

fn json(text: &str) -> Value {
    serde_json::from_str(text).unwrap()
}

fn keys(list: &[&str]) -> GeminiKeys {
    GeminiKeys::new(list.iter().map(|key| key.to_string()).collect())
}

#[test]
fn quota_cooldown_ends_at_its_deadline() {
    let deadline = NOW;
    assert!(!cooling_down(None, deadline));
    assert!(cooling_down(Some(deadline), deadline - 1));
    assert!(!cooling_down(Some(deadline), deadline));
    assert!(!cooling_down(Some(deadline), deadline + 1));
}

#[test]
fn failure_messages_distinguish_transport_status_and_credentials() {
    for (status, expected) in [
        (0, "Gemini connection or setup failed"),
        (400, "Gemini request rejected (status=400)"),
        (503, "Gemini request rejected (status=503)"),
        (401, "Gemini credential rejected"),
        (429, "Gemini quota exhausted"),
    ] {
        assert_eq!(
            ApiFailure::from_response(status, &json("{}")).message(),
            expected
        );
    }
}

#[test]
fn first_report_selection_starts_from_the_working_live_key() {
    let mut shared = Cooldowns::new();
    let mut first = keys(&["live-seed-a", "live-seed-b"]);
    first.failed(
        &mut shared,
        "live-seed-a",
        CredentialFailure::Quota,
        ApiSurface::Live,
        NOW,
    );
    assert_eq!(first.select(&mut shared, NOW).unwrap(), "live-seed-b");
    assert_eq!(first.select_report(&mut shared, NOW).unwrap(), "live-seed-b");
    // A remains available to reports; B was selected because Live uses it.
    let mut other = keys(&["live-seed-a", "live-seed-b"]);
    assert_eq!(other.select_report(&mut shared, NOW).unwrap(), "live-seed-a");
}

#[test]
fn quota_is_shared_per_surface_but_invalid_keys_are_shared_globally() {
    let mut shared = Cooldowns::new();
    let pair = |prefix: &str| GeminiKeys::new(vec![format!("{prefix}-a"), format!("{prefix}-b")]);
    let first = pair("surface-isolation");
    let mut second = pair("surface-isolation");
    first.failed(
        &mut shared,
        "surface-isolation-a",
        CredentialFailure::Quota,
        ApiSurface::Live,
        NOW,
    );
    assert_eq!(second.select(&mut shared, NOW).unwrap(), "surface-isolation-b");
    assert_eq!(
        pair("surface-isolation").select_report(&mut shared, NOW).unwrap(),
        "surface-isolation-a"
    );
    first.failed(
        &mut shared,
        "surface-isolation-b",
        CredentialFailure::Invalid,
        ApiSurface::Live,
        NOW,
    );
    first.failed(
        &mut shared,
        "surface-isolation-a",
        CredentialFailure::Quota,
        ApiSurface::Report,
        NOW,
    );
    assert!(pair("surface-isolation").select(&mut shared, NOW).is_err());
    assert!(pair("surface-isolation").select_report(&mut shared, NOW).is_err());

    let first = pair("report-surface-isolation");
    first.failed(
        &mut shared,
        "report-surface-isolation-a",
        CredentialFailure::Quota,
        ApiSurface::Report,
        NOW,
    );
    assert_eq!(
        pair("report-surface-isolation").select_report(&mut shared, NOW).unwrap(),
        "report-surface-isolation-b"
    );
    assert_eq!(
        pair("report-surface-isolation").select(&mut shared, NOW).unwrap(),
        "report-surface-isolation-a"
    );
    first.failed(
        &mut shared,
        "report-surface-isolation-a",
        CredentialFailure::Invalid,
        ApiSurface::Report,
        NOW,
    );
    assert_eq!(
        pair("report-surface-isolation").select(&mut shared, NOW).unwrap(),
        "report-surface-isolation-b"
    );
}

/// With nothing to move to, marking the only key would refuse every room and
/// every restart that followed. That holds when another interview's list
/// carries the same key string and marks it there.
#[test]
fn a_sole_key_is_never_taken_out_of_rotation() {
    let mut shared = Cooldowns::new();
    let mut sole = GeminiKeys::single("sole-rotation-a");
    for failure in [CredentialFailure::Quota, CredentialFailure::Invalid] {
        for surface in [ApiSurface::Live, ApiSurface::Report] {
            sole.failed(&mut shared, "sole-rotation-a", failure, surface, NOW);
        }
    }
    let mut fresh = keys(&["sole-rotation-a", "sole-rotation-b"]);
    assert_eq!(fresh.select(&mut shared, NOW).unwrap(), "sole-rotation-a");
    assert_eq!(fresh.select_report(&mut shared, NOW).unwrap(), "sole-rotation-a");
    let mut list = keys(&["sole-rotation-a", "sole-rotation-b"]);
    list.failed(
        &mut shared,
        "sole-rotation-a",
        CredentialFailure::Invalid,
        ApiSurface::Live,
        NOW,
    );
    assert_eq!(list.select(&mut shared, NOW).unwrap(), "sole-rotation-b");
    assert_eq!(sole.select(&mut shared, NOW).unwrap(), "sole-rotation-a");
    assert_eq!(sole.select_report(&mut shared, NOW).unwrap(), "sole-rotation-a");
}

/// Expires a cooldown without waiting, after checking it was armed: a removal
/// of a missing entry would pass whether the failure took or not.
fn expire_live_cooldown(shared: &mut Cooldowns, key: &str) {
    assert!(cooling_down(shared.get(key).unwrap().live, NOW), "{key}");
    shared.remove(key);
}

#[test]
fn interviews_share_failures_but_keep_their_working_key() {
    let mut shared = Cooldowns::new();
    let list = vec!["shared-first".to_string(), "shared-second".to_string()];
    let mut first = GeminiKeys::new(list.clone());
    let mut second = GeminiKeys::new(list);
    assert_eq!(first.select(&mut shared, NOW).unwrap(), "shared-first");
    first.failed(
        &mut shared,
        "shared-first",
        CredentialFailure::Quota,
        ApiSurface::Live,
        NOW,
    );
    assert_eq!(second.select(&mut shared, NOW).unwrap(), "shared-second");
    // Once the cooldown is over, the working key must stay selected.
    expire_live_cooldown(&mut shared, "shared-first");
    assert_eq!(first.select(&mut shared, NOW).unwrap(), "shared-first");
    assert_eq!(second.select(&mut shared, NOW).unwrap(), "shared-second");
    second.failed(
        &mut shared,
        "shared-second",
        CredentialFailure::Invalid,
        ApiSurface::Live,
        NOW,
    );
    second.failed(
        &mut shared,
        "shared-second",
        CredentialFailure::Quota,
        ApiSurface::Live,
        NOW,
    );
    assert_eq!(second.select(&mut shared, NOW).unwrap(), "shared-first");
    second.failed(
        &mut shared,
        "shared-first",
        CredentialFailure::Invalid,
        ApiSurface::Live,
        NOW,
    );
    let error = first.select(&mut shared, NOW).unwrap_err().message();
    assert!(error.contains("credentials exhausted"));
    assert!(!error.contains("shared-first"));
    assert!(GeminiKeys::single("").select(&mut shared, NOW).is_err());
}

#[test]
fn only_credential_or_quota_errors_disable_a_key() {
    for (status, body, expected) in [
        (429, "{}", Some(CredentialFailure::Quota)),
        (401, "{}", Some(CredentialFailure::Invalid)),
        (
            403,
            r#"{"error":{"details":[{"reason":"QUOTA_EXCEEDED"}]}}"#,
            Some(CredentialFailure::Quota),
        ),
        (
            403,
            r#"{"error":{"details":[{"reason":"RATE_LIMIT_EXCEEDED"}]}}"#,
            Some(CredentialFailure::Quota),
        ),
        (
            400,
            r#"{"error":{"status":"RESOURCE_EXHAUSTED"}}"#,
            Some(CredentialFailure::Quota),
        ),
        (
            403,
            r#"{"error":{"status":"RESOURCE_EXHAUSTED"}}"#,
            Some(CredentialFailure::Quota),
        ),
        (503, r#"{"error":{"status":"RESOURCE_EXHAUSTED"}}"#, None),
        // Nothing explains these, and a 403 refuses the key either way, on the
        // surface that saw it. A handshake rejection carries no body.
        (
            403,
            r#"{"error":{"details":[{"reason":"IAM_PERMISSION_DENIED"}]}}"#,
            Some(CredentialFailure::Refused),
        ),
        (403, "null", Some(CredentialFailure::Refused)),
        (400, "null", None),
        (
            400,
            r#"{"error":{"details":[{"reason":"API_KEY_INVALID"}]}}"#,
            Some(CredentialFailure::Invalid),
        ),
        (
            403,
            r#"{"error":{"message":"Your API key was reported as leaked. Please use another API key."}}"#,
            Some(CredentialFailure::Invalid),
        ),
        (400, r#"{"error":{"message":"unsupported model"}}"#, None),
        (
            403,
            r#"{"error":{"message":"model access denied"}}"#,
            Some(CredentialFailure::Refused),
        ),
        (404, "{}", None),
        (500, "{}", None),
        (503, "{}", None),
    ] {
        let failure = ApiFailure::from_response(status, &json(body));
        assert_eq!(failure.credential, expected, "status={status}");
        assert!(!failure.message().contains("API_KEY_INVALID"));
    }
    for reason in [
        "API_KEY_INVALID",
        "API_KEY_EXPIRED",
        "API_KEY_SERVICE_BLOCKED",
        "API_KEY_IP_ADDRESS_BLOCKED",
        "API_KEY_HTTP_REFERRER_BLOCKED",
        "API_KEY_ANDROID_APP_BLOCKED",
        "API_KEY_IOS_APP_BLOCKED",
    ] {
        // A 400 names the key only through its reason.
        let body = format!(r#"{{"error":{{"details":[{{"reason":"{reason}"}}]}}}}"#);
        assert_eq!(
            ApiFailure::from_response(400, &json(&body)).credential,
            Some(CredentialFailure::Invalid),
            "{reason}"
        );
    }

    // A Live close frame carries the same codes as a response body, inside a
    // sentence and in any case.
    for reason in [
        "RESOURCE_EXHAUSTED",
        "Quota exceeded",
        "Quota exhausted",
        "QUOTA_EXCEEDED",
        "RATE_LIMIT_EXCEEDED",
        "reason: rate_limit_exceeded",
    ] {
        assert_eq!(
            failure_from_reason(reason),
            Some(CredentialFailure::Quota),
            "{reason}"
        );
    }
    for reason in [
        "API key not valid",
        "API_KEY_INVALID",
        "API key was reported as leaked",
        "API key has expired",
        "API key is disabled",
        "API_KEY_EXPIRED",
        "API_KEY_SERVICE_BLOCKED",
        "API_KEY_IP_ADDRESS_BLOCKED",
        "API_KEY_HTTP_REFERRER_BLOCKED",
        "API_KEY_ANDROID_APP_BLOCKED",
        "API_KEY_IOS_APP_BLOCKED",
        "Request refused: api_key_expired",
    ] {
        assert_eq!(
            failure_from_reason(reason),
            Some(CredentialFailure::Invalid),
            "{reason}"
        );
    }
    assert_eq!(failure_from_reason("unsupported model"), None);
    assert_eq!(failure_from_reason("service unavailable"), None);
}

#[test]
fn failover_visits_the_next_key_before_returning_to_a_recovered_one() {
    let mut shared = Cooldowns::new();
    let mut list = keys(&["ordered-a", "ordered-b", "ordered-c"]);
    let first = list.select(&mut shared, NOW).unwrap();
    list.failed(
        &mut shared,
        &first,
        CredentialFailure::Quota,
        ApiSurface::Live,
        NOW,
    );
    assert_eq!(list.select(&mut shared, NOW).unwrap(), "ordered-b");
    // Recover the earlier key before failing the current one.
    expire_live_cooldown(&mut shared, "ordered-a");
    list.failed(
        &mut shared,
        "ordered-b",
        CredentialFailure::Invalid,
        ApiSurface::Live,
        NOW,
    );
    assert_eq!(list.select(&mut shared, NOW).unwrap(), "ordered-c");
    list.failed(
        &mut shared,
        "ordered-c",
        CredentialFailure::Invalid,
        ApiSurface::Live,
        NOW,
    );
    assert_eq!(list.select(&mut shared, NOW).unwrap(), "ordered-a");
}

#[test]
fn redaction_covers_every_candidate_and_encoded_keys() {
    let list = keys(&["secret/one", "secret+two"]);
    assert_eq!(
        list.redact("secret/one secret%2Fone secret+two secret%2Btwo"),
        "[REDACTED] [REDACTED] [REDACTED] [REDACTED]"
    );
}

#[test]
fn ordered_google_keys_validate_without_requiring_a_legacy_key() {
    let base = [
        ("LIVEKIT_URL", "wss://example.livekit.cloud"),
        ("LIVEKIT_API_KEY", "key"),
        ("LIVEKIT_API_SECRET", "secret"),
    ];
    let with = |value: &'static str| {
        let mut pairs = base.to_vec();
        pairs.push(("GOOGLE_API_KEYS", value));
        pairs
    };
    let config = load_from_pairs(&with(" first, second ")).ok().unwrap();
    assert_eq!(config.google_api_keys, ["first", "second"]);
    for value in ["first,", ",second", "first, first"] {
        let error = load_from_pairs(&with(value)).err().unwrap().message();
        assert!(error.contains("non-empty, distinct"));
        assert!(!error.contains("first"));
    }
    assert!(load_from_pairs(&base).is_err());
}

/// A blank list is how an unset variable usually arrives, so it is no list:
/// it neither outranks the legacy key nor stands in for a missing one.
#[test]
fn a_blank_key_list_is_no_list() {
    let base = [
        ("LIVEKIT_URL", "wss://example.livekit.cloud"),
        ("LIVEKIT_API_KEY", "key"),
        ("LIVEKIT_API_SECRET", "secret"),
    ];
    for blank in ["", "   "] {
        let mut pairs = base.to_vec();
        pairs.push(("GOOGLE_API_KEYS", blank));
        let error = load_from_pairs(&pairs).err().unwrap();
        assert_eq!(error.missing_keys, ["GOOGLE_API_KEY"], "{blank:?}");
        assert!(error.invalid_entries.is_empty(), "{blank:?}");

        pairs.push(("GOOGLE_API_KEY", "legacy"));
        let config = load_from_pairs(&pairs).ok().unwrap();
        assert_eq!(config.google_api_keys, ["legacy"], "{blank:?}");
        let mut shared = Cooldowns::new();
        assert_eq!(
            GeminiKeys::from_config(&config).select(&mut shared, NOW).unwrap(),
            "legacy"
        );
    }
}

/// A project-wide refusal marks every key, so the rotation has to come back on
/// its own rather than stay empty for the life of the process.
#[test]
fn a_rejected_key_returns_after_its_cooldown() {
    let mut shared = Cooldowns::new();
    let mut list = keys(&["rejected-return-a", "rejected-return-b"]);
    list.failed(
        &mut shared,
        "rejected-return-a",
        CredentialFailure::Invalid,
        ApiSurface::Live,
        NOW,
    );
    list.failed(
        &mut shared,
        "rejected-return-b",
        CredentialFailure::Invalid,
        ApiSurface::Live,
        NOW,
    );
    let armed = ["rejected-return-a", "rejected-return-b"].map(|key| {
        let cooldown = shared.get(key).unwrap();
        cooling_down(cooldown.live, NOW) && cooling_down(cooldown.report, NOW)
    });
    assert_eq!(armed, [true, true]);
    assert!(list.select(&mut shared, NOW).is_err());
    assert!(list.select_report(&mut shared, NOW).is_err());
    expire_live_cooldown(&mut shared, "rejected-return-b");
    assert_eq!(list.select(&mut shared, NOW).unwrap(), "rejected-return-b");
    assert_eq!(list.select_report(&mut shared, NOW).unwrap(), "rejected-return-b");
}

/// A bare 403 only the report model sees, such as a report model the project
/// cannot use, walked every key and parked all of them on Live as well.
#[test]
fn an_unexplained_refusal_stays_on_its_own_surface() {
    let mut shared = Cooldowns::new();
    let mut list = keys(&["report-refused-a", "report-refused-b"]);
    for key in ["report-refused-a", "report-refused-b"] {
        list.failed(
            &mut shared,
            key,
            CredentialFailure::Refused,
            ApiSurface::Report,
            NOW,
        );
    }
    assert!(list.select_report(&mut shared, NOW).is_err());
    assert_eq!(list.select(&mut shared, NOW).unwrap(), "report-refused-a");
}

/// An exhausted Live rotation is worth waiting for only while some key is out
/// on quota alone; a Report rotation never waits.
#[test]
fn an_exhausted_rotation_names_its_first_quota_key_back() {
    let mut shared = Cooldowns::new();
    let mut list = keys(&["exhausted-wait-a", "exhausted-wait-b"]);
    list.failed(
        &mut shared,
        "exhausted-wait-a",
        CredentialFailure::Invalid,
        ApiSurface::Report,
        NOW,
    );
    list.failed(
        &mut shared,
        "exhausted-wait-b",
        CredentialFailure::Quota,
        ApiSurface::Live,
        NOW,
    );
    let quota_back = shared.get("exhausted-wait-b").unwrap().live;
    let error = list.select(&mut shared, NOW).unwrap_err();
    assert_eq!(exhausted_until(&CallError::Exhausted(error)), quota_back);
    list.failed(
        &mut shared,
        "exhausted-wait-b",
        CredentialFailure::Quota,
        ApiSurface::Report,
        NOW,
    );
    let error = list.select_report(&mut shared, NOW).unwrap_err();
    assert_eq!(exhausted_until(&CallError::Exhausted(error)), None);
    list.failed(
        &mut shared,
        "exhausted-wait-b",
        CredentialFailure::Refused,
        ApiSurface::Live,
        NOW,
    );
    let error = list.select(&mut shared, NOW).unwrap_err();
    assert_eq!(exhausted_until(&CallError::Exhausted(error)), None);
}
