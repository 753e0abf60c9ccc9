use gemini_credentials::config::{load_from_pairs, ConfigError};
use gemini_credentials::keys::GeminiKeys;
use gemini_credentials::redact::percent_encode;
use gemini_credentials::text::{chars_of, split_on, string_of, trim};

fn redact(list: &[&str], text: &str) -> String {
    GeminiKeys::new(list.iter().map(|key| key.to_string()).collect()).redact(text)
}

const LIVEKIT: [(&str, &str); 3] = [
    ("LIVEKIT_URL", "wss://example.livekit.cloud"),
    ("LIVEKIT_API_KEY", "key"),
    ("LIVEKIT_API_SECRET", "secret"),
];

#[test]
fn every_missing_setting_is_named_in_order() {
    let error = load_from_pairs(&[]).err().unwrap();
    assert_eq!(
        error.missing_keys,
        [
            "LIVEKIT_URL",
            "LIVEKIT_API_KEY",
            "LIVEKIT_API_SECRET",
            "GOOGLE_API_KEY"
        ]
    );
    assert!(error.invalid_entries.is_empty());
    assert_eq!(
        error.message(),
        "LIVEKIT_URL is required; LIVEKIT_API_KEY is required; LIVEKIT_API_SECRET is required; \
         GOOGLE_API_KEY is required"
    );
}

#[test]
fn a_bad_list_is_reported_beside_what_is_missing() {
    let error = load_from_pairs(&[LIVEKIT[0], LIVEKIT[1], ("GOOGLE_API_KEYS", "one,,two")])
        .err()
        .unwrap();
    assert_eq!(error.missing_keys, ["LIVEKIT_API_SECRET"]);
    assert_eq!(
        error.message(),
        "LIVEKIT_API_SECRET is required; GOOGLE_API_KEYS must list non-empty, distinct keys"
    );
    let empty = ConfigError {
        missing_keys: Vec::new(),
        invalid_entries: Vec::new(),
    };
    assert_eq!(empty.message(), "");
}

#[test]
fn a_list_outranks_a_lone_key_and_keeps_its_order() {
    let config = load_from_pairs(&[
        LIVEKIT[0],
        LIVEKIT[1],
        LIVEKIT[2],
        ("GOOGLE_API_KEY", "lone"),
        ("GOOGLE_API_KEYS", "b,\ta ,c"),
    ])
    .ok()
    .unwrap();
    assert_eq!(config.google_api_keys, ["b", "a", "c"]);
    assert_eq!(config.livekit_url, "wss://example.livekit.cloud");
    assert_eq!(config.livekit_api_key, "key");
    assert_eq!(config.livekit_api_secret, "secret");
    assert_eq!(
        GeminiKeys::from_config(&config).redaction_keys(),
        ["b", "a", "c"]
    );
}

#[test]
fn a_later_value_replaces_an_earlier_one() {
    let config = load_from_pairs(&[
        LIVEKIT[0],
        LIVEKIT[1],
        LIVEKIT[2],
        ("GOOGLE_API_KEY", "old"),
        ("GOOGLE_API_KEY", " new "),
    ])
    .ok()
    .unwrap();
    assert_eq!(config.google_api_keys, ["new"]);
}

#[test]
fn texts_are_trimmed_and_split() {
    assert_eq!(string_of(&trim(&chars_of("\u{a0} a b\u{3000}\n"))), "a b");
    assert_eq!(string_of(&trim(&chars_of(" \t "))), "");
    let parts: Vec<String> = split_on(&chars_of(",a,,b"), ',')
        .iter()
        .map(string_of)
        .collect();
    assert_eq!(parts, ["", "a", "", "b"]);
    assert_eq!(split_on(&chars_of(""), ',').len(), 1);
}

#[test]
fn keys_are_percent_encoded_by_their_bytes() {
    assert_eq!(string_of(&percent_encode("aZ09-._~")), "aZ09-._~");
    assert_eq!(string_of(&percent_encode("a b/+%")), "a%20b%2F%2B%25");
    assert_eq!(string_of(&percent_encode("\u{e9}\u{20ac}")), "%C3%A9%E2%82%AC");
}

#[test]
fn text_without_a_key_is_printed_as_it_is() {
    assert_eq!(redact(&["secret", "other"], "nothing to hide"), "nothing to hide");
    assert_eq!(redact(&[], "anything"), "anything");
    assert_eq!(redact(&[""], "anything"), "anything");
}

#[test]
fn the_longest_key_is_redacted_whole() {
    assert_eq!(redact(&["abc", "abcdef"], "abcdef abc abcd"), "[REDACTED] [REDACTED] [REDACTED]d");
    assert_eq!(redact(&["aa"], "aaaaa"), "[REDACTED][REDACTED]a");
    assert_eq!(redact(&["k\u{e9}y"], "k\u{e9}y k%C3%A9y"), "[REDACTED] [REDACTED]");
    assert_eq!(redact(&["one", "RED"], "one"), "[REDACTED]");
}
