use gemini_credentials::cooldown::{
    extend, ApiSurface, Cooldown, Cooldowns, Moment, INVALID_COOLDOWN, QUOTA_COOLDOWN,
};
use gemini_credentials::failure::CredentialFailure;
use gemini_credentials::keys::{exhausted, GeminiKeys};

const NOW: Moment = 5_000_000_000;
const MINUTE: Moment = 60_000_000_000;

fn keys(list: &[&str]) -> GeminiKeys {
    GeminiKeys::new(list.iter().map(|key| key.to_string()).collect())
}

#[test]
fn cooldowns_last_a_minute() {
    assert_eq!(QUOTA_COOLDOWN, MINUTE);
    assert_eq!(INVALID_COOLDOWN, MINUTE);
    for failure in [
        CredentialFailure::Quota,
        CredentialFailure::Invalid,
        CredentialFailure::Refused,
    ] {
        let mut shared = Cooldowns::new();
        let mut list = keys(&["a", "b"]);
        list.failed(&mut shared, "a", failure, ApiSurface::Live, NOW);
        assert_eq!(shared.get("a").unwrap().live, Some(NOW + MINUTE));
        assert_eq!(list.select(&mut shared, NOW + MINUTE - 1).unwrap(), "b");
        let mut fresh = keys(&["a", "b"]);
        assert_eq!(fresh.select(&mut shared, NOW + MINUTE).unwrap(), "a");
    }
}

#[test]
fn a_later_failure_does_not_shorten_a_deadline() {
    let mut slot = Some(9);
    extend(&mut slot, 4);
    assert_eq!(slot, Some(9));
    extend(&mut slot, 12);
    assert_eq!(slot, Some(12));
    let mut empty = None;
    extend(&mut empty, 3);
    assert_eq!(empty, Some(3));

    let mut shared = Cooldowns::new();
    let list = keys(&["a", "b"]);
    list.failed(&mut shared, "a", CredentialFailure::Invalid, ApiSurface::Live, NOW);
    list.failed(&mut shared, "a", CredentialFailure::Quota, ApiSurface::Live, NOW - 7);
    assert_eq!(
        shared.get("a").unwrap(),
        Cooldown {
            live: Some(NOW + MINUTE),
            report: Some(NOW + MINUTE),
            live_rejected: Some(NOW + MINUTE),
        }
    );
}

#[test]
fn each_failure_marks_its_own_slots() {
    let out = Some(NOW + MINUTE);
    for (failure, surface, expected) in [
        (CredentialFailure::Quota, ApiSurface::Live, (out, None, None)),
        (CredentialFailure::Quota, ApiSurface::Report, (None, out, None)),
        (CredentialFailure::Invalid, ApiSurface::Live, (out, out, out)),
        (CredentialFailure::Invalid, ApiSurface::Report, (out, out, out)),
        (CredentialFailure::Refused, ApiSurface::Live, (out, None, out)),
        (CredentialFailure::Refused, ApiSurface::Report, (None, out, None)),
    ] {
        let mut shared = Cooldowns::new();
        keys(&["a", "b"]).failed(&mut shared, "a", failure, surface, NOW);
        let marked = shared.get("a").unwrap();
        assert_eq!((marked.live, marked.report, marked.live_rejected), expected);
        assert_eq!(shared.get("b"), None);
    }
}

#[test]
fn a_selection_forgets_only_what_is_back_on_both_surfaces() {
    let mut shared = Cooldowns::new();
    let mut list = keys(&["a", "b", "c"]);
    list.failed(&mut shared, "a", CredentialFailure::Quota, ApiSurface::Live, NOW);
    list.failed(&mut shared, "b", CredentialFailure::Quota, ApiSurface::Live, NOW + 1);
    list.failed(&mut shared, "c", CredentialFailure::Quota, ApiSurface::Live, NOW);
    list.failed(&mut shared, "c", CredentialFailure::Quota, ApiSurface::Report, NOW + 9);
    assert_eq!(list.select(&mut shared, NOW + MINUTE).unwrap(), "a");
    assert_eq!(shared.get("a"), None);
    assert_eq!(shared.get("b").unwrap().live, Some(NOW + 1 + MINUTE));
    assert_eq!(shared.get("c").unwrap().live, Some(NOW + MINUTE));
}

#[test]
fn a_sole_key_leaves_the_record_alone() {
    let mut shared = Cooldowns::new();
    keys(&["sole", "other"]).failed(
        &mut shared,
        "sole",
        CredentialFailure::Quota,
        ApiSurface::Live,
        NOW,
    );
    let mut sole = GeminiKeys::single("sole");
    let late = NOW + 2 * MINUTE;
    assert_eq!(sole.select(&mut shared, late).unwrap(), "sole");
    assert!(shared.get("sole").is_some());
}

#[test]
fn selection_wraps_round_to_the_first_key() {
    let mut shared = Cooldowns::new();
    let mut list = keys(&["a", "b", "c"]);
    for (failed, next) in [("a", "b"), ("b", "c")] {
        list.failed(&mut shared, failed, CredentialFailure::Quota, ApiSurface::Live, NOW);
        assert_eq!(list.select(&mut shared, NOW).unwrap(), next);
    }
    shared.remove("a");
    list.failed(&mut shared, "c", CredentialFailure::Quota, ApiSurface::Live, NOW);
    assert_eq!(list.select(&mut shared, NOW).unwrap(), "a");
}

#[test]
fn a_working_key_outlasts_the_return_of_an_earlier_one() {
    let mut shared = Cooldowns::new();
    let mut list = keys(&["a", "b"]);
    list.failed(&mut shared, "a", CredentialFailure::Quota, ApiSurface::Live, NOW);
    assert_eq!(list.select(&mut shared, NOW).unwrap(), "b");
    assert_eq!(list.select(&mut shared, NOW + 5 * MINUTE).unwrap(), "b");
}

#[test]
fn report_failover_leaves_the_live_key_alone() {
    let mut shared = Cooldowns::new();
    let mut list = keys(&["a", "b"]);
    assert_eq!(list.select(&mut shared, NOW).unwrap(), "a");
    list.failed(&mut shared, "a", CredentialFailure::Quota, ApiSurface::Report, NOW);
    assert_eq!(list.select_report(&mut shared, NOW).unwrap(), "b");
    assert_eq!(list.select(&mut shared, NOW).unwrap(), "a");
    list.failed(&mut shared, "a", CredentialFailure::Quota, ApiSurface::Live, NOW);
    assert_eq!(list.select(&mut shared, NOW).unwrap(), "b");
    assert_eq!(list.select_report(&mut shared, NOW + MINUTE).unwrap(), "b");
}

#[test]
fn waiting_until_the_named_moment_finds_a_key() {
    let mut shared = Cooldowns::new();
    let mut list = keys(&["a", "b", "c"]);
    list.failed(&mut shared, "a", CredentialFailure::Quota, ApiSurface::Live, NOW + 30);
    list.failed(&mut shared, "b", CredentialFailure::Quota, ApiSurface::Live, NOW + 20);
    list.failed(&mut shared, "c", CredentialFailure::Refused, ApiSurface::Live, NOW + 10);
    let retry_at = list.select(&mut shared, NOW + 40).unwrap_err().retry_at;
    assert_eq!(retry_at, Some(NOW + 20 + MINUTE));
    assert!(list.select(&mut shared, NOW + 9 + MINUTE).is_err());
    let mut again = keys(&["a", "b"]);
    assert!(again.select(&mut shared, NOW + 19 + MINUTE).is_err());
    assert_eq!(again.select(&mut shared, retry_at.unwrap()).unwrap(), "b");
}

#[test]
fn an_empty_rotation_has_nothing_to_wait_for() {
    let mut shared = Cooldowns::new();
    let error = GeminiKeys::single("").select(&mut shared, NOW).unwrap_err();
    assert_eq!(error, exhausted(None));
    assert_eq!(
        error.message(),
        "Gemini credentials exhausted: all configured keys are unavailable"
    );
}

#[test]
fn a_rotation_tells_its_keys() {
    let list = keys(&["a", "b"]);
    assert!(list.has_backups());
    assert_eq!(list.count(), 2);
    assert_eq!(list.redaction_keys(), ["a", "b"]);
    let sole = GeminiKeys::single("a");
    assert!(!sole.has_backups());
    assert_eq!(sole.count(), 1);
    assert_eq!(GeminiKeys::single("").count(), 0);
}

#[test]
fn every_key_is_back_a_minute_after_the_last_failure() {
    let mut shared = Cooldowns::new();
    let mut list = keys(&["a", "b"]);
    for (step, key) in ["a", "b", "a", "b"].iter().enumerate() {
        let at = NOW + step as Moment;
        list.failed(&mut shared, key, CredentialFailure::Invalid, ApiSurface::Live, at);
    }
    assert!(list.select(&mut shared, NOW + 2 + MINUTE - 1).is_err());
    assert_eq!(list.select(&mut shared, NOW + 3 + MINUTE).unwrap(), "a");
    assert_eq!(list.select_report(&mut shared, NOW + 3 + MINUTE).unwrap(), "a");
}

#[test]
fn a_key_comes_back_while_others_keep_failing() {
    let mut shared = Cooldowns::new();
    let mut list = keys(&["a", "b"]);
    list.failed(&mut shared, "a", CredentialFailure::Invalid, ApiSurface::Live, NOW);
    let due = NOW + MINUTE;
    list.failed(&mut shared, "b", CredentialFailure::Invalid, ApiSurface::Live, due - 1);
    list.failed(&mut shared, "a", CredentialFailure::Quota, ApiSurface::Report, due - 1);
    assert!(keys(&["a", "b"]).select(&mut shared, due - 1).is_err());
    assert_eq!(keys(&["a", "b"]).select(&mut shared, due).unwrap(), "a");
    assert!(keys(&["a", "b"]).select_report(&mut shared, due).is_err());
}

#[test]
fn waiting_works_while_other_interviews_go_on() {
    let mut shared = Cooldowns::new();
    let mut list = keys(&["a", "b"]);
    list.failed(&mut shared, "a", CredentialFailure::Quota, ApiSurface::Live, NOW);
    list.failed(&mut shared, "b", CredentialFailure::Quota, ApiSurface::Live, NOW + 5);
    let retry_at = list.select(&mut shared, NOW + 6).unwrap_err().retry_at.unwrap();
    assert_eq!(retry_at, NOW + MINUTE);
    let mut other = keys(&["b", "c"]);
    other.failed(&mut shared, "b", CredentialFailure::Invalid, ApiSurface::Live, retry_at - 1);
    other.failed(&mut shared, "a", CredentialFailure::Quota, ApiSurface::Report, retry_at - 1);
    assert_eq!(other.select(&mut shared, retry_at - 1).unwrap(), "c");
    assert_eq!(list.select(&mut shared, retry_at).unwrap(), "a");
}
