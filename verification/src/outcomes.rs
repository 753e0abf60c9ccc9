//! What each operation gives, told of its inputs and results alone: positions,
//! deadlines and characters, without the definitions that the operations are
//! written against.

use vstd::prelude::*;

use crate::config::{
    entries, google_keys, invalid, missing, setting, settings, usable, value_of, ConfigError,
};
use crate::cooldown::{
    extended, is_cooling, known, pruned, ApiSurface, Cooldown, Cooldowns, Moment,
};
use crate::failure::{
    body_json, invalid_codes, invalid_phrases, names_any, quota_codes, quota_phrases,
    reason_failure, response_failure, ApiFailure, CredentialFailure, ErrorModel, ErrorReport,
};
use crate::json::{parsed, Json};
use crate::keys::{
    after_failure, after_selection, around, selects, Exhausted, GeminiKeys, Rotation,
};
use crate::laws::{
    blends, law_exhausted_exactly_when_every_key_is_out,
    law_exhausted_live_names_the_first_quota_key_back, law_keys_are_tried_in_order,
    law_no_key_is_printed, law_ordinary_secrets_do_not_blend, lemma_secret_is_seen,
    lemma_seen_is_secret,
};
use crate::redact::{
    lemma_secret_fits, percent_byte, percent_bytes, percent_encoded, redacted, redacted_from,
    secret_len, secrets,
};
use crate::text::{
    decimal, digit, is_space, joined, lower, lower_char, occurs, occurs_at, optional, slices,
    split, texts, trimmed, upper, upper_char, views,
};

verus! {

// Deadlines.

/// A minute on the clock, in nanoseconds.
pub open spec fn minute() -> int {
    60_000_000_000
}

/// Whether a deadline is set and lies after `now`.
pub open spec fn ahead(deadline: Option<Moment>, now: Moment) -> bool {
    deadline is Some && now < deadline->0
}

/// Whether `after` is the later of `before`, if there is one, and `until`.
pub open spec fn raised(before: Option<Moment>, until: int, after: Option<Moment>) -> bool {
    &&& after is Some
    &&& after->0 >= until
    &&& before is Some ==> after->0 >= before->0
    &&& after->0 == until || after == before
}

/// Whether `key` is out of `surface` at `now`, by the record.
pub open spec fn out(
    failures: Map<Seq<char>, Cooldown>,
    key: Seq<char>,
    surface: ApiSurface,
    now: Moment,
) -> bool {
    failures.contains_key(key) && (surface == ApiSurface::Live ==> ahead(failures[key].live, now))
        && (surface == ApiSurface::Report ==> ahead(failures[key].report, now))
}

/// Whether a refusal keeps `key` off Live at `now`, by the record.
pub open spec fn refused(failures: Map<Seq<char>, Cooldown>, key: Seq<char>, now: Moment) -> bool {
    failures.contains_key(key) && ahead(failures[key].live_rejected, now)
}

/// A cooldown holds before its deadline and is over at it; without a deadline
/// there is none.
pub proof fn law_a_cooldown_is_over_at_its_deadline(until: Option<Moment>, now: Moment)
    ensures
        is_cooling(until, now) <==> until is Some && now < until->0,
{
}

/// Extending a deadline gives the later one of the two.
pub proof fn law_extending_gives_the_later_deadline(slot: Option<Moment>, until: Moment)
    ensures
        raised(slot, until as int, extended(slot, until)),
{
}

/// A failure that a rotation with backups reports moves exactly these deadlines
/// of the failed key out to a minute from then: Live, if Live saw it or the key
/// is invalid; reports, if a report saw it or the key is invalid; and the
/// refusal mark, if the key is invalid or Live was refused without a reason.
/// Nothing moves back, and no other key is touched. One that a rotation without
/// backups reports changes nothing.
pub proof fn law_a_failure_moves_its_own_deadlines_only(
    reporter: Rotation,
    failures: Map<Seq<char>, Cooldown>,
    key: Seq<char>,
    failure: CredentialFailure,
    surface: ApiSurface,
    now: Moment,
    other: Seq<char>,
)
    requires
        now + minute() <= u128::MAX,
    ensures
        ({
            let after = after_failure(reporter, failures, key, failure, surface, now);
            let until = now + minute();
            let set = failures.contains_key(key);
            let live = if set {
                failures[key].live
            } else {
                None
            };
            let report = if set {
                failures[key].report
            } else {
                None
            };
            let mark = if set {
                failures[key].live_rejected
            } else {
                None
            };
            let invalid = failure == CredentialFailure::Invalid;
            let bare = failure == CredentialFailure::Refused;
            &&& reporter.keys.len() <= 1 ==> after == failures
            &&& reporter.keys.len() >= 2 ==> {
                &&& after.contains_key(key)
                &&& invalid || surface == ApiSurface::Live ==> raised(live, until, after[key].live)
                &&& !invalid && surface == ApiSurface::Report ==> after[key].live == live
                &&& invalid || surface == ApiSurface::Report ==> raised(
                    report,
                    until,
                    after[key].report,
                )
                &&& !invalid && surface == ApiSurface::Live ==> after[key].report == report
                &&& invalid || (bare && surface == ApiSurface::Live) ==> raised(
                    mark,
                    until,
                    after[key].live_rejected,
                )
                &&& !invalid && !(bare && surface == ApiSurface::Live)
                    ==> after[key].live_rejected == mark
                &&& other != key ==> after.contains_key(other) == failures.contains_key(other)
                &&& other != key && failures.contains_key(other) ==> after[other]
                    == failures[other]
            }
        }),
{
}

/// A selection of a rotation with backups forgets exactly the keys that are out
/// nowhere any more, and changes nothing of the others. A rotation without
/// backups forgets nothing.
pub proof fn law_a_selection_forgets_only_what_is_over(
    rotation: Rotation,
    failures: Map<Seq<char>, Cooldown>,
    now: Moment,
    key: Seq<char>,
)
    ensures
        ({
            let after = after_selection(rotation, failures, now);
            &&& rotation.keys.len() <= 1 ==> after == failures
            &&& rotation.keys.len() >= 2 ==> {
                &&& after.contains_key(key) <==> failures.contains_key(key) && (ahead(
                    failures[key].live,
                    now,
                ) || ahead(failures[key].report, now))
                &&& after.contains_key(key) ==> after[key] == failures[key]
            }
        }),
{
}

/// Pruning forgets exactly the keys that are out nowhere any more, and what is
/// known of a key is what is recorded of it, or else nothing.
pub proof fn law_a_record_is_pruned_and_read_key_by_key(
    failures: Map<Seq<char>, Cooldown>,
    now: Moment,
    key: Seq<char>,
)
    ensures
        pruned(failures, now).contains_key(key) <==> failures.contains_key(key) && (ahead(
            failures[key].live,
            now,
        ) || ahead(failures[key].report, now)),
        pruned(failures, now).contains_key(key) ==> pruned(failures, now)[key] == failures[key],
        failures.contains_key(key) ==> known(failures, key) == failures[key],
        !failures.contains_key(key) ==> known(failures, key).live is None && known(
            failures,
            key,
        ).report is None && known(failures, key).live_rejected is None,
{
}

// Selection.

/// The position at which a search on `surface` begins.
pub open spec fn begins_at(rotation: Rotation, surface: ApiSurface) -> int {
    if surface == ApiSurface::Report && rotation.report is Some {
        rotation.report->0
    } else {
        rotation.live
    }
}

/// Whether position `i` lies before `end` in the order that begins at `start`,
/// goes on to the last of `len` positions, and then from the first.
pub open spec fn comes_before(start: int, end: int, len: int, i: int) -> bool {
    if start <= end {
        start <= i < end
    } else {
        start <= i < len || 0 <= i < end
    }
}

/// The steps of a search are the positions in turn: from the start to the end
/// of the list, and then from its beginning.
pub proof fn law_a_search_goes_up_and_then_round(start: int, step: int, len: int)
    requires
        0 <= start < len,
        0 <= step < len,
    ensures
        around(start, step, len) == (start + step) % len,
        step < len - start ==> around(start, step, len) == start + step,
        step >= len - start ==> around(start, step, len) == step - (len - start),
{
    if start + step < len {
        vstd::arithmetic::div_mod::lemma_small_mod((start + step) as nat, len as nat);
    } else {
        vstd::arithmetic::div_mod::lemma_mod_multiples_vanish(1, start + step - len, len);
        vstd::arithmetic::div_mod::lemma_small_mod((start + step - len) as nat, len as nat);
    }
}

/// A key is available exactly when the record does not have it out.
pub proof fn law_a_key_is_available_unless_it_is_out(
    rotation: Rotation,
    failures: Map<Seq<char>, Cooldown>,
    surface: ApiSurface,
    now: Moment,
    index: int,
)
    ensures
        rotation.available(failures, surface, now, index) <==> !out(
            failures,
            rotation.keys[index],
            surface,
            now,
        ),
        rotation.start(surface) == begins_at(rotation, surface),
{
}

/// With two keys or more, the selected one is the first in order that is not
/// out: counting up from the key in use to the end of the list and then from
/// its beginning, every key before it is out and it is not. There is none
/// exactly when every key is out.
pub proof fn law_the_first_key_in_order_is_picked(
    rotation: Rotation,
    failures: Map<Seq<char>, Cooldown>,
    surface: ApiSurface,
    now: Moment,
)
    requires
        rotation.wf(),
        rotation.keys.len() >= 2,
    ensures
        match rotation.pick(failures, surface, now) {
            Some(p) => {
                &&& 0 <= p < rotation.keys.len()
                &&& !out(failures, rotation.keys[p], surface, now)
                &&& forall|i: int| #[trigger]
                    comes_before(
                        begins_at(rotation, surface),
                        p,
                        rotation.keys.len() as int,
                        i,
                    ) ==> out(failures, rotation.keys[i], surface, now)
            },
            None => forall|i: int|
                0 <= i < rotation.keys.len() ==> out(
                    failures,
                    #[trigger] rotation.keys[i],
                    surface,
                    now,
                ),
        },
{
    let len = rotation.keys.len() as int;
    let start = rotation.start(surface);
    law_exhausted_exactly_when_every_key_is_out(rotation, failures, surface, now);
    match rotation.pick(failures, surface, now) {
        Some(p) => {
            let steps = law_keys_are_tried_in_order(rotation, failures, surface, now);
            assert forall|i: int| #[trigger] comes_before(start, p, len, i) implies out(
                failures,
                rotation.keys[i],
                surface,
                now,
            ) by {
                let step = if i >= start {
                    i - start
                } else {
                    i - start + len
                };
                assert(around(start, step, len) == i);
                assert(step < steps);
                assert(!rotation.available(failures, surface, now, around(start, step, len)));
            }
        },
        None => {
            assert forall|i: int| 0 <= i < len implies out(
                failures,
                #[trigger] rotation.keys[i],
                surface,
                now,
            ) by {
                assert(!rotation.available(failures, surface, now, i));
            }
        },
    }
}

/// What a selection returns. Without keys it fails and has nothing to wait for.
/// A sole key is returned whatever is recorded of it. Otherwise it is the first
/// key in order that is not out, and where all are, the selection fails.
pub proof fn law_a_selection_returns_the_first_key_in_order(
    before: GeminiKeys,
    shared: Cooldowns,
    surface: ApiSurface,
    now: Moment,
    key: Result<String, Exhausted>,
    after: GeminiKeys,
    shared_after: Cooldowns,
)
    requires
        before.wf(),
        selects(before, shared, surface, now, key, after, shared_after),
    ensures
        ({
            let keys = before@.keys;
            &&& keys.len() == 0 ==> key is Err && key->Err_0.retry_at is None
            &&& keys.len() == 1 ==> key is Ok && key->Ok_0@ == keys[0]
            &&& keys.len() >= 2 && key is Ok ==> exists|p: int|
                {
                    &&& 0 <= p < keys.len()
                    &&& key->Ok_0@ == #[trigger] keys[p]
                    &&& !out(shared@, keys[p], surface, now)
                    &&& forall|i: int| #[trigger]
                        comes_before(begins_at(before@, surface), p, keys.len() as int, i) ==> out(
                            shared@,
                            keys[i],
                            surface,
                            now,
                        )
                    &&& surface == ApiSurface::Live ==> after@.live == p
                    &&& surface == ApiSurface::Report ==> after@.report == Some(p)
                }
            &&& keys.len() >= 2 ==> (key is Err <==> forall|i: int|
                0 <= i < keys.len() ==> out(shared@, #[trigger] keys[i], surface, now))
        }),
{
    if before@.keys.len() >= 2 {
        law_the_first_key_in_order_is_picked(before@, shared@, surface, now);
        match before@.pick(shared@, surface, now) {
            Some(p) => {
                assert(key->Ok_0@ == before@.keys[p]);
            },
            None => {},
        }
    }
}

/// What a selection leaves behind. The list stays, and so does the position of
/// the other surface, except that reports without one of their own follow Live.
/// Only a rotation with backups that found a key moves, and only one with
/// backups touches the shared record, of which it forgets what is over.
pub proof fn law_a_selection_leaves_the_rest_alone(
    before: GeminiKeys,
    shared: Cooldowns,
    surface: ApiSurface,
    now: Moment,
    key: Result<String, Exhausted>,
    after: GeminiKeys,
    shared_after: Cooldowns,
    other: Seq<char>,
)
    requires
        before.wf(),
        selects(before, shared, surface, now, key, after, shared_after),
    ensures
        after@.keys == before@.keys,
        surface == ApiSurface::Live ==> after@.report == before@.report,
        surface == ApiSurface::Report ==> after@.live == before@.live,
        key is Err || before@.keys.len() <= 1 ==> after@ == before@,
        before@.keys.len() <= 1 ==> shared_after@ == shared@,
        before@.keys.len() >= 2 ==> (shared_after@.contains_key(other) <==> shared@.contains_key(
            other,
        ) && (ahead(shared@[other].live, now) || ahead(shared@[other].report, now))),
        before@.keys.len() >= 2 && shared_after@.contains_key(other) ==> shared_after@[other]
            == shared@[other],
{
    law_a_selection_forgets_only_what_is_over(before@, shared@, now, other);
}

/// What an exhausted selection tells to wait for. On Live it is the earliest
/// deadline among the keys that no refusal keeps off, which lies ahead; there is
/// none exactly when a refusal keeps off every key. A report waits for nothing.
pub proof fn law_an_exhausted_selection_names_the_first_quota_return(
    before: GeminiKeys,
    shared: Cooldowns,
    surface: ApiSurface,
    now: Moment,
    key: Result<String, Exhausted>,
    after: GeminiKeys,
    shared_after: Cooldowns,
)
    requires
        before.wf(),
        selects(before, shared, surface, now, key, after, shared_after),
        key is Err,
    ensures
        ({
            let keys = before@.keys;
            let retry = key->Err_0.retry_at;
            &&& surface == ApiSurface::Report ==> retry is None
            &&& surface == ApiSurface::Live && retry is Some ==> {
                &&& now < retry->0
                &&& exists|i: int|
                    0 <= i < keys.len() && shared@[#[trigger] keys[i]].live == retry && !refused(
                        shared@,
                        keys[i],
                        now,
                    )
                &&& forall|i: int|
                    0 <= i < keys.len() && !refused(shared@, #[trigger] keys[i], now) ==> retry->0
                        <= shared@[keys[i]].live->0
            }
            &&& surface == ApiSurface::Live && keys.len() >= 2 ==> (retry is None <==> forall|
                i: int,
            |
                0 <= i < keys.len() ==> refused(shared@, #[trigger] keys[i], now))
        }),
{
    let keys = before@.keys;
    if keys.len() >= 2 && surface == ApiSurface::Live {
        law_the_first_key_in_order_is_picked(before@, shared@, surface, now);
        law_exhausted_live_names_the_first_quota_key_back(before@, shared@, now);
        let retry = before@.retry_at(shared@, surface, now);
        assert forall|i: int| 0 <= i < keys.len() implies known(shared@, #[trigger] keys[i])
            == shared@[keys[i]] && refused(shared@, keys[i], now) == is_cooling(
            known(shared@, keys[i]).live_rejected,
            now,
        ) by {
            assert(out(shared@, keys[i], surface, now));
        }
        if retry is Some {
            let i = choose|i: int|
                0 <= i < keys.len() && known(shared@, #[trigger] keys[i]).live == retry
                    && !is_cooling(known(shared@, keys[i]).live_rejected, now);
            assert(shared@[keys[i]].live == retry && !refused(shared@, keys[i], now));
        }
    }
}

// Texts.

/// A needle stands in a text at a place exactly when it fits there and agrees
/// with the text character by character.
pub proof fn law_a_needle_stands_where_its_characters_do(
    text: Seq<char>,
    needle: Seq<char>,
    at: int,
)
    ensures
        occurs_at(text, needle, at) <==> 0 <= at && at + needle.len() <= text.len() && forall|j: int|
            0 <= j < needle.len() ==> text[at + j] == #[trigger] needle[j],
        occurs_at(text, needle, at) ==> occurs(text, needle),
        occurs(text, needle) ==> exists|place: int| #[trigger] occurs_at(text, needle, place),
{
    let fits = 0 <= at && at + needle.len() <= text.len();
    if fits {
        let part = text.subrange(at, at + needle.len());
        if occurs_at(text, needle, at) {
            assert forall|j: int| 0 <= j < needle.len() implies text[at + j] == #[trigger] needle[j] by {
                assert(part[j] == text[at + j]);
            }
        }
        if forall|j: int| 0 <= j < needle.len() ==> text[at + j] == #[trigger] needle[j] {
            assert(part =~= needle);
        }
    }
}

/// Whether two characters are the same, or the same ASCII letter in another
/// case.
pub open spec fn same_letter(left: char, right: char) -> bool {
    ||| left == right
    ||| 'a' <= left <= 'z' && right as int == left as int - 32
    ||| 'A' <= left <= 'Z' && right as int == left as int + 32
}

/// Whether `needle` stands in `text` at `at`, in whatever ASCII case.
pub open spec fn found_at(text: Seq<char>, needle: Seq<char>, at: int) -> bool {
    0 <= at && at + needle.len() <= text.len() && forall|j: int|
        0 <= j < needle.len() ==> same_letter(text[at + j], #[trigger] needle[j])
}

/// Whether `needle` stands anywhere in `text`, in whatever ASCII case.
pub open spec fn found(text: Seq<char>, needle: Seq<char>) -> bool {
    exists|at: int| #[trigger] found_at(text, needle, at)
}

/// A text that holds no upper-case letter is found in the lower-case form of
/// another exactly when it is found in that in any case.
proof fn lemma_found_in_lower(text: Seq<char>, needle: Seq<char>)
    requires
        forall|j: int| 0 <= j < needle.len() ==> !('A' <= #[trigger] needle[j] <= 'Z'),
    ensures
        occurs(lower(text), needle) == found(text, needle),
{
    assert forall|at: int| #[trigger] occurs_at(lower(text), needle, at) == found_at(
        text,
        needle,
        at,
    ) by {
        law_a_needle_stands_where_its_characters_do(lower(text), needle, at);
        if 0 <= at && at + needle.len() <= text.len() {
            assert forall|j: int| 0 <= j < needle.len() implies (lower(text)[at + j]
                == #[trigger] needle[j]) == same_letter(text[at + j], needle[j]) by {
                assert(lower(text)[at + j] == lower_char(text[at + j]));
            }
        }
    }
    if found(text, needle) {
        let at = choose|at: int| #[trigger] found_at(text, needle, at);
        assert(occurs_at(lower(text), needle, at));
    }
}

proof fn lemma_found_in_upper(text: Seq<char>, needle: Seq<char>)
    requires
        forall|j: int| 0 <= j < needle.len() ==> !('a' <= #[trigger] needle[j] <= 'z'),
    ensures
        occurs(upper(text), needle) == found(text, needle),
{
    assert forall|at: int| #[trigger] occurs_at(upper(text), needle, at) == found_at(
        text,
        needle,
        at,
    ) by {
        law_a_needle_stands_where_its_characters_do(upper(text), needle, at);
        if 0 <= at && at + needle.len() <= text.len() {
            assert forall|j: int| 0 <= j < needle.len() implies (upper(text)[at + j]
                == #[trigger] needle[j]) == same_letter(text[at + j], needle[j]) by {
                assert(upper(text)[at + j] == upper_char(text[at + j]));
            }
        }
    }
    if found(text, needle) {
        let at = choose|at: int| #[trigger] found_at(text, needle, at);
        assert(occurs_at(upper(text), needle, at));
    }
}

// Classification.

/// Whether a text says that quota is spent.
pub open spec fn says_quota(text: Seq<char>) -> bool {
    ||| found(text, "resource_exhausted"@)
    ||| found(text, "quota exceeded"@)
    ||| found(text, "quota exhausted"@)
    ||| found(text, "QUOTA_EXCEEDED"@)
    ||| found(text, "RATE_LIMIT_EXCEEDED"@)
}

/// Whether a text refuses the key.
pub open spec fn says_invalid(text: Seq<char>) -> bool {
    ||| found(text, "api key not valid"@)
    ||| found(text, "api key was reported as leaked"@)
    ||| found(text, "api key has expired"@)
    ||| found(text, "api key is disabled"@)
    ||| found(text, "API_KEY_INVALID"@)
    ||| found(text, "API_KEY_EXPIRED"@)
    ||| found(text, "API_KEY_SERVICE_BLOCKED"@)
    ||| found(text, "API_KEY_IP_ADDRESS_BLOCKED"@)
    ||| found(text, "API_KEY_HTTP_REFERRER_BLOCKED"@)
    ||| found(text, "API_KEY_ANDROID_APP_BLOCKED"@)
    ||| found(text, "API_KEY_IOS_APP_BLOCKED"@)
}

proof fn lemma_quota_words(text: Seq<char>)
    ensures
        (names_any(lower(text), quota_phrases()) || names_any(upper(text), quota_codes()))
            == says_quota(text),
{
    reveal_strlit("resource_exhausted");
    reveal_strlit("quota exceeded");
    reveal_strlit("quota exhausted");
    reveal_strlit("QUOTA_EXCEEDED");
    reveal_strlit("RATE_LIMIT_EXCEEDED");
    lemma_found_in_lower(text, "resource_exhausted"@);
    lemma_found_in_lower(text, "quota exceeded"@);
    lemma_found_in_lower(text, "quota exhausted"@);
    lemma_found_in_upper(text, "QUOTA_EXCEEDED"@);
    lemma_found_in_upper(text, "RATE_LIMIT_EXCEEDED"@);
    let phrases = quota_phrases();
    let codes = quota_codes();
    assert(phrases[0] == "resource_exhausted"@ && phrases[1] == "quota exceeded"@ && phrases[2]
        == "quota exhausted"@);
    assert(codes[0] == "QUOTA_EXCEEDED"@ && codes[1] == "RATE_LIMIT_EXCEEDED"@);
}

proof fn lemma_invalid_words(text: Seq<char>)
    ensures
        (names_any(lower(text), invalid_phrases()) || names_any(upper(text), invalid_codes()))
            == says_invalid(text),
{
    reveal_strlit("api key not valid");
    reveal_strlit("api key was reported as leaked");
    reveal_strlit("api key has expired");
    reveal_strlit("api key is disabled");
    reveal_strlit("API_KEY_INVALID");
    reveal_strlit("API_KEY_EXPIRED");
    reveal_strlit("API_KEY_SERVICE_BLOCKED");
    reveal_strlit("API_KEY_IP_ADDRESS_BLOCKED");
    reveal_strlit("API_KEY_HTTP_REFERRER_BLOCKED");
    reveal_strlit("API_KEY_ANDROID_APP_BLOCKED");
    reveal_strlit("API_KEY_IOS_APP_BLOCKED");
    lemma_found_in_lower(text, "api key not valid"@);
    lemma_found_in_lower(text, "api key was reported as leaked"@);
    lemma_found_in_lower(text, "api key has expired"@);
    lemma_found_in_lower(text, "api key is disabled"@);
    lemma_found_in_upper(text, "API_KEY_INVALID"@);
    lemma_found_in_upper(text, "API_KEY_EXPIRED"@);
    lemma_found_in_upper(text, "API_KEY_SERVICE_BLOCKED"@);
    lemma_found_in_upper(text, "API_KEY_IP_ADDRESS_BLOCKED"@);
    lemma_found_in_upper(text, "API_KEY_HTTP_REFERRER_BLOCKED"@);
    lemma_found_in_upper(text, "API_KEY_ANDROID_APP_BLOCKED"@);
    lemma_found_in_upper(text, "API_KEY_IOS_APP_BLOCKED"@);
    let phrases = invalid_phrases();
    let codes = invalid_codes();
    assert(phrases[0] == "api key not valid"@ && phrases[1] == "api key was reported as leaked"@
        && phrases[2] == "api key has expired"@ && phrases[3] == "api key is disabled"@);
    assert(codes[0] == "API_KEY_INVALID"@ && codes[1] == "API_KEY_EXPIRED"@ && codes[2]
        == "API_KEY_SERVICE_BLOCKED"@ && codes[3] == "API_KEY_IP_ADDRESS_BLOCKED"@);
    assert(codes[4] == "API_KEY_HTTP_REFERRER_BLOCKED"@ && codes[5]
        == "API_KEY_ANDROID_APP_BLOCKED"@ && codes[6] == "API_KEY_IOS_APP_BLOCKED"@);
}

/// A reason is read as quota exactly when it says that quota is spent, as an
/// invalid key exactly when it does not and refuses the key, and as nothing
/// exactly when it does neither. It is never a bare refusal.
pub proof fn law_a_reason_counts_for_its_words_only(reason: Seq<char>)
    ensures
        reason_failure(reason) == Some(CredentialFailure::Quota) <==> says_quota(reason),
        reason_failure(reason) == Some(CredentialFailure::Invalid) <==> !says_quota(reason)
            && says_invalid(reason),
        reason_failure(reason) is None <==> !says_quota(reason) && !says_invalid(reason),
{
    lemma_quota_words(reason);
    lemma_invalid_words(reason);
}

/// Whether a reason code refuses the key.
pub open spec fn is_invalid_code(code: Seq<char>) -> bool {
    ||| code == "API_KEY_INVALID"@
    ||| code == "API_KEY_EXPIRED"@
    ||| code == "API_KEY_SERVICE_BLOCKED"@
    ||| code == "API_KEY_IP_ADDRESS_BLOCKED"@
    ||| code == "API_KEY_HTTP_REFERRER_BLOCKED"@
    ||| code == "API_KEY_ANDROID_APP_BLOCKED"@
    ||| code == "API_KEY_IOS_APP_BLOCKED"@
}

/// Whether a reason code says that quota is spent.
pub open spec fn is_quota_code(code: Seq<char>) -> bool {
    code == "QUOTA_EXCEEDED"@ || code == "RATE_LIMIT_EXCEEDED"@
}

/// Whether a detail of the response refuses the key.
pub open spec fn details_refuse(report: ErrorModel) -> bool {
    exists|i: int|
        0 <= i < report.reasons.len() && (#[trigger] report.reasons[i]) is Some && is_invalid_code(
            report.reasons[i]->0,
        )
}

/// Whether the status or a detail of the response says that quota is spent.
pub open spec fn response_is_spent(report: ErrorModel) -> bool {
    ||| report.status == Some("RESOURCE_EXHAUSTED"@)
    ||| exists|i: int|
        0 <= i < report.reasons.len() && (#[trigger] report.reasons[i]) is Some && is_quota_code(
            report.reasons[i]->0,
        )
}

/// What the message of the response is, which is empty where there is none.
pub open spec fn message_of(report: ErrorModel) -> Seq<char> {
    if report.message is Some {
        report.message->0
    } else {
        Seq::empty()
    }
}

proof fn lemma_gives(report: ErrorModel)
    ensures
        report.gives(invalid_codes()) == details_refuse(report),
        report.gives(quota_codes()) || report.status == Some("RESOURCE_EXHAUSTED"@)
            <==> response_is_spent(report),
{
    let codes = invalid_codes();
    let spent = quota_codes();
    assert(codes[0] == "API_KEY_INVALID"@ && codes[1] == "API_KEY_EXPIRED"@ && codes[2]
        == "API_KEY_SERVICE_BLOCKED"@ && codes[3] == "API_KEY_IP_ADDRESS_BLOCKED"@);
    assert(codes[4] == "API_KEY_HTTP_REFERRER_BLOCKED"@ && codes[5]
        == "API_KEY_ANDROID_APP_BLOCKED"@ && codes[6] == "API_KEY_IOS_APP_BLOCKED"@);
    assert(spent[0] == "QUOTA_EXCEEDED"@ && spent[1] == "RATE_LIMIT_EXCEEDED"@);
    if details_refuse(report) {
        let i = choose|i: int|
            0 <= i < report.reasons.len() && (#[trigger] report.reasons[i]) is Some
                && is_invalid_code(report.reasons[i]->0);
        let code = report.reasons[i]->0;
        let j: int = if code == codes[0] {
            0
        } else if code == codes[1] {
            1
        } else if code == codes[2] {
            2
        } else if code == codes[3] {
            3
        } else if code == codes[4] {
            4
        } else if code == codes[5] {
            5
        } else {
            6
        };
        assert(report.reasons[i] == Some(codes[j]));
    }
    if report.gives(codes) {
        let (i, j) = choose|i: int, j: int|
            0 <= i < report.reasons.len() && 0 <= j < codes.len() && #[trigger] report.reasons[i]
                == Some(#[trigger] codes[j]);
        assert(is_invalid_code(codes[j]));
    }
    if exists|i: int|
        0 <= i < report.reasons.len() && (#[trigger] report.reasons[i]) is Some && is_quota_code(
            report.reasons[i]->0,
        ) {
        let i = choose|i: int|
            0 <= i < report.reasons.len() && (#[trigger] report.reasons[i]) is Some
                && is_quota_code(report.reasons[i]->0);
        let j: int = if report.reasons[i]->0 == spent[0] {
            0
        } else {
            1
        };
        assert(report.reasons[i] == Some(spent[j]));
    }
    if report.gives(spent) {
        let (i, j) = choose|i: int, j: int|
            0 <= i < report.reasons.len() && 0 <= j < spent.len() && #[trigger] report.reasons[i]
                == Some(#[trigger] spent[j]);
        assert(is_quota_code(spent[j]));
    }
}

/// How a response is classified. A 429 is quota, a 401 an invalid key, and any
/// status but these and 400 and 403 says nothing of the key. For those two, a
/// detail that refuses the key counts first; then a status or detail that says
/// quota is spent; then what the message says, whatever the status is. What
/// nothing explains is a bare refusal for a 403 and nothing for a 400.
pub proof fn law_a_response_counts_for_what_it_says(status: u16, report: ErrorModel)
    ensures
        ({
            let verdict = response_failure(status, report);
            let read = status == 400 || status == 403;
            let unexplained = !details_refuse(report) && !response_is_spent(report);
            let message = message_of(report);
            &&& status == 429 ==> verdict == Some(CredentialFailure::Quota)
            &&& status == 401 ==> verdict == Some(CredentialFailure::Invalid)
            &&& status != 429 && status != 401 && !read ==> verdict is None
            &&& read && details_refuse(report) ==> verdict == Some(CredentialFailure::Invalid)
            &&& read && !details_refuse(report) && response_is_spent(report) ==> verdict == Some(
                CredentialFailure::Quota,
            )
            &&& read && unexplained && says_quota(message) ==> verdict == Some(
                CredentialFailure::Quota,
            )
            &&& read && unexplained && !says_quota(message) && says_invalid(message) ==> verdict
                == Some(CredentialFailure::Invalid)
            &&& status == 403 && unexplained && !says_quota(message) && !says_invalid(message)
                ==> verdict == Some(CredentialFailure::Refused)
            &&& status == 400 && unexplained && !says_quota(message) && !says_invalid(message)
                ==> verdict is None
        }),
{
    lemma_gives(report);
    law_a_reason_counts_for_its_words_only(message_of(report));
}

/// The text that a member of a JSON object holds, where it holds one.
pub open spec fn text_in(value: Json, name: Seq<char>) -> Option<Seq<char>> {
    match value {
        Json::Record(members) => if members.contains_key(name) && members[name] is Text {
            Some(members[name]->Text_0)
        } else {
            None
        },
        _ => None,
    }
}

/// What is read of a response body: the texts `error.status` and
/// `error.message`, and the text `reason` of each element of the array
/// `error.details`, in order. What has another shape counts as missing.
pub proof fn law_a_body_is_read_member_by_member(body: Json, index: int)
    ensures
        ({
            let report = ErrorModel::of(body);
            let has_error = body is Record && body->Record_0.contains_key("error"@);
            let error = body->Record_0["error"@];
            let listed = has_error && error is Record && error->Record_0.contains_key("details"@)
                && error->Record_0["details"@] is List;
            let details = error->Record_0["details"@]->List_0;
            &&& !has_error ==> report.status is None && report.message is None
                && report.reasons.len() == 0
            &&& has_error ==> report.status == text_in(error, "status"@) && report.message
                == text_in(error, "message"@)
            &&& !listed ==> report.reasons.len() == 0
            &&& listed ==> report.reasons.len() == details.len()
            &&& listed && 0 <= index < details.len() ==> report.reasons[index] == text_in(
                details[index],
                "reason"@,
            )
        }),
{
}

/// A report holds the texts of its fields.
pub proof fn law_a_report_holds_its_fields(report: ErrorReport, index: int)
    ensures
        report@.status is Some <==> report.status is Some,
        report.status is Some ==> report@.status->0 == report.status->0@,
        report@.message is Some <==> report.message is Some,
        report.message is Some ==> report@.message->0 == report.message->0@,
        report@.reasons.len() == report.reasons@.len(),
        0 <= index < report.reasons@.len() ==> (report@.reasons[index] is Some
            <==> report.reasons@[index] is Some),
        0 <= index < report.reasons@.len() && report.reasons@[index] is Some
            ==> report@.reasons[index]->0 == report.reasons@[index]->0@,
{
}

/// A refused handshake is read from the document in its body; without a body,
/// or where that is no document, as from null.
pub proof fn law_a_body_that_is_no_document_says_nothing(body: Option<Vec<u8>>)
    ensures
        body is None ==> body_json(body) is Null,
        body is Some && parsed(body->0@) is None ==> body_json(body) is Null,
        body is Some && parsed(body->0@) is Some ==> body_json(body) == parsed(body->0@)->0,
{
}

/// The number that decimal digits stand for.
pub open spec fn number(digits: Seq<char>) -> int
    decreases digits.len(),
{
    if digits.len() == 0 {
        0
    } else {
        number(digits.drop_last()) * 10 + (digits.last() as int - '0' as int)
    }
}

/// A number in decimal is read back as that number, holds digits only, and does
/// not begin with a zero unless it is zero.
pub proof fn law_a_number_is_printed_in_decimal(value: nat)
    ensures
        number(decimal(value)) == value,
        decimal(value).len() > 0,
        forall|i: int| 0 <= i < decimal(value).len() ==> '0' <= #[trigger] decimal(value)[i] <= '9',
        value > 0 ==> decimal(value)[0] != '0',
        value == 0 ==> decimal(value) == "0"@,
    decreases value,
{
    if value >= 10 {
        law_a_number_is_printed_in_decimal(value / 10);
        let front = decimal(value / 10);
        assert(decimal(value) == front.push(digit(value % 10)));
        assert(decimal(value).drop_last() =~= front);
        assert forall|i: int| 0 <= i < decimal(value).len() implies '0' <= #[trigger] decimal(
            value,
        )[i] <= '9' by {
            if i < front.len() {
                assert(decimal(value)[i] == front[i]);
            }
        }
    } else {
        assert(decimal(value).drop_last() =~= Seq::<char>::empty());
        assert(number(decimal(value).drop_last()) == 0);
        reveal_strlit("0");
        assert(value == 0 ==> decimal(value) =~= "0"@);
    }
}

/// What is printed of a failure: its detail, where it has one; else what it says
/// of the key; else its status, which is zero where there was no answer.
pub proof fn law_a_failure_is_printed_by_what_is_known(failure: ApiFailure)
    ensures
        ({
            let text = failure.message_text();
            let bare = failure.detail is None;
            &&& failure.detail is Some ==> text == failure.detail->0@
            &&& bare && failure.credential == Some(CredentialFailure::Quota) ==> text
                == "Gemini quota exhausted"@
            &&& bare && (failure.credential == Some(CredentialFailure::Invalid)
                || failure.credential == Some(CredentialFailure::Refused)) ==> text
                == "Gemini credential rejected"@
            &&& bare && failure.credential is None && failure.status == 0 ==> text
                == "Gemini connection or setup failed"@
            &&& bare && failure.credential is None && failure.status != 0 ==> exists|
                digits: Seq<char>,
            |
                {
                    &&& text == "Gemini request rejected (status="@ + digits + ")"@
                    &&& #[trigger] number(digits) == failure.status
                    &&& digits.len() > 0 && digits[0] != '0'
                    &&& forall|i: int| 0 <= i < digits.len() ==> '0' <= #[trigger] digits[i] <= '9'
                }
        }),
{
    law_a_number_is_printed_in_decimal(failure.status as nat);
    assert(number(decimal(failure.status as nat)) == failure.status);
}

/// The texts of some strings are theirs in order, none left out; and so of
/// slices, of character lists, and of one string that may be missing.
pub proof fn law_texts_are_those_of_the_strings(
    strings: Seq<String>,
    list: Seq<&str>,
    characters: Seq<Vec<char>>,
    text: Option<String>,
    index: int,
)
    ensures
        texts(strings).len() == strings.len(),
        0 <= index < strings.len() ==> texts(strings)[index] == strings[index]@,
        slices(list).len() == list.len(),
        0 <= index < list.len() ==> slices(list)[index] == list[index]@,
        views(characters).len() == characters.len(),
        0 <= index < characters.len() ==> views(characters)[index] == characters[index]@,
        optional(text) is Some <==> text is Some,
        text is Some ==> optional(text)->0 == text->0@,
{
}

/// Folding the case of a text keeps its length, and each character but for the
/// case of an ASCII letter, which is then lower or upper.
pub proof fn law_folding_changes_case_only(text: Seq<char>, index: int)
    ensures
        lower(text).len() == text.len(),
        upper(text).len() == text.len(),
        0 <= index < text.len() ==> {
            &&& same_letter(text[index], lower(text)[index])
            &&& same_letter(text[index], upper(text)[index])
            &&& !('A' <= lower(text)[index] <= 'Z')
            &&& !('a' <= upper(text)[index] <= 'z')
        },
{
}

/// A trimmed text is what lies between the white space at the two ends: all of
/// the text before it and after it is white space, and it neither begins nor
/// ends with any.
#[verifier::spinoff_prover]
#[verifier::rlimit(40)]
pub proof fn law_trimming_takes_the_space_at_both_ends(text: Seq<char>) -> (bounds: (int, int))
    ensures
        0 <= bounds.0 <= bounds.1 <= text.len(),
        trimmed(text) == text.subrange(bounds.0, bounds.1),
        forall|i: int| 0 <= i < bounds.0 ==> is_space(#[trigger] text[i]),
        forall|i: int| bounds.1 <= i < text.len() ==> is_space(#[trigger] text[i]),
        bounds.0 < bounds.1 ==> !is_space(text[bounds.0]) && !is_space(text[bounds.1 - 1]),
    decreases text.len(),
{
    if text.len() == 0 {
        assert(text.subrange(0, 0) =~= text);
        (0, 0)
    } else if is_space(text.first()) {
        let rest = text.drop_first();
        let inner = law_trimming_takes_the_space_at_both_ends(rest);
        assert(rest.subrange(inner.0, inner.1) =~= text.subrange(inner.0 + 1, inner.1 + 1));
        assert forall|i: int| 0 <= i < inner.0 + 1 implies is_space(#[trigger] text[i]) by {
            if i > 0 {
                assert(rest[i - 1] == text[i]);
            }
        }
        assert forall|i: int| inner.1 + 1 <= i < text.len() implies is_space(#[trigger] text[i]) by {
            assert(rest[i - 1] == text[i]);
        }
        (inner.0 + 1, inner.1 + 1)
    } else if is_space(text.last()) {
        let rest = text.drop_last();
        let inner = law_trimming_takes_the_space_at_both_ends(rest);
        assert(rest.subrange(inner.0, inner.1) =~= text.subrange(inner.0, inner.1));
        assert forall|i: int| 0 <= i < inner.0 implies is_space(#[trigger] text[i]) by {
            assert(rest[i] == text[i]);
        }
        assert forall|i: int| inner.1 <= i < text.len() implies is_space(#[trigger] text[i]) by {
            if i < rest.len() {
                assert(rest[i] == text[i]);
            }
        }
        (inner.0, inner.1)
    } else {
        assert(text.subrange(0, text.len() as int) =~= text);
        (0, text.len() as int)
    }
}

/// White space is, in ASCII, the space and the control characters from tab to
/// carriage return; beyond it, the characters that Unicode gives the property
/// `White_Space`.
pub proof fn law_white_space_is_that_of_unicode(character: char)
    ensures
        (character as int) < 128 ==> (is_space(character) <==> character == ' ' || 9
            <= character as int <= 13),
        character as int >= 128 ==> (is_space(character) <==> seq![
            0x85int,
            0xa0,
            0x1680,
            0x2028,
            0x2029,
            0x202f,
            0x205f,
            0x3000,
        ].contains(character as int) || 0x2000 <= character as int <= 0x200a),
{
    let list = seq![0x85int, 0xa0, 0x1680, 0x2028, 0x2029, 0x202f, 0x205f, 0x3000];
    assert(list[0] == 0x85 && list[1] == 0xa0 && list[2] == 0x1680 && list[3] == 0x2028);
    assert(list[4] == 0x2029 && list[5] == 0x202f && list[6] == 0x205f && list[7] == 0x3000);
}

/// Joining a longer list puts the separator and the last text behind the
/// others; one text is joined to itself, and none to nothing.
pub proof fn law_joining_puts_separators_between(
    list: Seq<Seq<char>>,
    last: Seq<char>,
    separator: Seq<char>,
)
    ensures
        joined(Seq::empty(), separator).len() == 0,
        joined(seq![last], separator) == last,
        list.len() > 0 ==> joined(list.push(last), separator) == joined(list, separator) + separator
            + last,
{
    assert(list.push(last).drop_last() =~= list);
}

/// The parts of a text hold no separator, and joined by it they are the text.
pub proof fn law_a_text_is_split_at_its_separators(text: Seq<char>, separator: char)
    ensures
        split(text, separator).len() > 0,
        joined(split(text, separator), seq![separator]) == text,
        forall|i: int, j: int|
            0 <= i < split(text, separator).len() && 0 <= j < split(text, separator)[i].len()
                ==> #[trigger] split(text, separator)[i][j] != separator,
    decreases text.len(),
{
    if text.len() > 0 {
        law_a_text_is_split_at_its_separators(text.drop_last(), separator);
        let parts = split(text.drop_last(), separator);
        let whole = split(text, separator);
        let gap = seq![separator];
        assert(text =~= text.drop_last().push(text.last()));
        if text.last() == separator {
            law_joining_puts_separators_between(parts, Seq::empty(), gap);
            assert(joined(whole, gap) =~= text);
            assert forall|i: int, j: int|
                0 <= i < whole.len() && 0 <= j < whole[i].len() implies #[trigger] whole[i][j]
                != separator by {
                if i < parts.len() {
                    assert(whole[i] == parts[i]);
                }
            }
        } else {
            let front = parts.drop_last();
            let tail = parts.last().push(text.last());
            assert(parts =~= front.push(parts.last()));
            assert(whole == front.push(tail));
            if front.len() > 0 {
                law_joining_puts_separators_between(front, parts.last(), gap);
                law_joining_puts_separators_between(front, tail, gap);
                assert(joined(whole, gap) =~= text);
            } else {
                assert(parts =~= seq![parts.last()]);
                assert(whole =~= seq![tail]);
                assert(joined(whole, gap) =~= text);
            }
            assert forall|i: int, j: int|
                0 <= i < whole.len() && 0 <= j < whole[i].len() implies #[trigger] whole[i][j]
                != separator by {
                if i < front.len() {
                    assert(whole[i] == parts[i]);
                } else if j < parts.last().len() {
                    assert(whole[i][j] == parts[parts.len() - 1][j]);
                }
            }
        }
    } else {
        let parts = split(text, separator);
        assert(parts.len() == 1 && parts[0] == text);
    }
}

// Redaction.

/// Whether a byte is one that a URL component holds as it is.
pub open spec fn plain(byte: u8) -> bool {
    let character = byte as char;
    ||| 'a' <= character <= 'z'
    ||| 'A' <= character <= 'Z'
    ||| '0' <= character <= '9'
    ||| character == '-' || character == '.' || character == '_' || character == '~'
}

/// Whether a character is a hexadecimal digit, in upper case.
pub open spec fn is_hex(character: char) -> bool {
    '0' <= character <= '9' || 'A' <= character <= 'F'
}

/// The value of a hexadecimal digit in upper case.
pub open spec fn hex_value(character: char) -> int {
    if character <= '9' {
        character as int - '0' as int
    } else {
        character as int - 'A' as int + 10
    }
}

proof fn lemma_percent_bytes_from_front(bytes: Seq<u8>)
    requires
        bytes.len() > 0,
    ensures
        percent_bytes(bytes) == percent_byte(bytes[0]) + percent_bytes(bytes.drop_first()),
    decreases bytes.len(),
{
    let front = bytes.drop_last();
    let rest = bytes.drop_first();
    if bytes.len() == 1 {
        assert(front =~= Seq::<u8>::empty());
        assert(rest =~= Seq::<u8>::empty());
        assert(percent_bytes(front) =~= Seq::<char>::empty());
        assert(percent_bytes(bytes) =~= percent_byte(bytes[0]));
        assert(percent_byte(bytes[0]) + percent_bytes(rest) =~= percent_byte(bytes[0]));
    } else {
        lemma_percent_bytes_from_front(front);
        assert(front.drop_first() =~= rest.drop_last());
        assert(percent_bytes(bytes) =~= percent_byte(bytes[0]) + (percent_bytes(rest.drop_last())
            + percent_byte(rest.last())));
    }
}

/// Bytes are percent-encoded one by one: a plain one stays, and any other is
/// written as a percent sign and the two hexadecimal digits of its value.
pub proof fn law_bytes_are_percent_encoded_one_by_one(bytes: Seq<u8>)
    ensures
        bytes.len() == 0 ==> percent_bytes(bytes).len() == 0,
        bytes.len() > 0 ==> {
            let encoded = percent_bytes(bytes);
            let rest = percent_bytes(bytes.drop_first());
            &&& plain(bytes[0]) ==> encoded == seq![bytes[0] as char] + rest
            &&& !plain(bytes[0]) ==> {
                &&& encoded.len() == rest.len() + 3
                &&& encoded[0] == '%'
                &&& is_hex(encoded[1]) && is_hex(encoded[2])
                &&& hex_value(encoded[1]) * 16 + hex_value(encoded[2]) == bytes[0]
                &&& encoded.skip(3) == rest
            }
        },
{
    if bytes.len() > 0 {
        lemma_percent_bytes_from_front(bytes);
        let rest = percent_bytes(bytes.drop_first());
        if !plain(bytes[0]) {
            assert((percent_byte(bytes[0]) + rest).skip(3) =~= rest);
        }
    }
}

/// A text is percent-encoded by its UTF-8 bytes.
pub proof fn law_a_text_is_percent_encoded_by_its_bytes(text: Seq<char>)
    ensures
        percent_encoded(text) == percent_bytes(vstd::utf8::encode_utf8(text)),
{
}

/// Whether `secret` is one of `keys`, as it is or percent-encoded.
pub open spec fn is_secret(keys: Seq<Seq<char>>, secret: Seq<char>) -> bool {
    exists|i: int|
        0 <= i < keys.len() && (secret == #[trigger] keys[i] || secret == percent_encoded(keys[i]))
}

/// Whether `needle` stands in `text` at `at`, character by character.
pub open spec fn found_exactly(text: Seq<char>, needle: Seq<char>, at: int) -> bool {
    0 <= at && at + needle.len() <= text.len() && forall|j: int|
        0 <= j < needle.len() ==> text[at + j] == #[trigger] needle[j]
}

/// No key is printed, neither as it is nor percent-encoded: each of them, if it
/// cannot be mistaken for a part of the mark, is nowhere in the printed text.
pub proof fn law_every_key_is_kept_out_of_print(
    text: Seq<char>,
    keys: Seq<Seq<char>>,
    index: int,
    at: int,
)
    requires
        0 <= index < keys.len(),
    ensures
        !blends(keys[index]) ==> !found_exactly(redacted(text, keys), keys[index], at),
        !blends(percent_encoded(keys[index])) ==> !found_exactly(
            redacted(text, keys),
            percent_encoded(keys[index]),
            at,
        ),
{
    let printed = redacted(text, keys);
    let key = keys[index];
    let encoded = percent_encoded(key);
    law_a_needle_stands_where_its_characters_do(printed, key, at);
    law_a_needle_stands_where_its_characters_do(printed, encoded, at);
    assert(secrets(keys)[index] == key);
    assert(secrets(keys)[index + keys.len()] == encoded);
    if !blends(key) {
        law_no_key_is_printed(text, keys, index);
    }
    if !blends(encoded) {
        law_no_key_is_printed(text, keys, index + keys.len());
    }
}

/// Keys of nine characters or more without brackets are kept out of print.
pub proof fn law_ordinary_keys_are_kept_out_of_print(
    text: Seq<char>,
    keys: Seq<Seq<char>>,
    index: int,
    at: int,
)
    requires
        0 <= index < keys.len(),
        keys[index].len() >= 9,
        forall|i: int|
            0 <= i < keys[index].len() ==> #[trigger] keys[index][i] != '[' && keys[index][i]
                != ']',
    ensures
        !found_exactly(redacted(text, keys), keys[index], at),
{
    law_ordinary_secrets_do_not_blend(keys[index]);
    law_every_key_is_kept_out_of_print(text, keys, index, at);
}

proof fn lemma_secrets_are_those_of_the_keys(keys: Seq<Seq<char>>)
    ensures
        secrets(keys).len() == 2 * keys.len(),
        forall|i: int| 0 <= i < secrets(keys).len() ==> is_secret(keys, #[trigger] secrets(keys)[i]),
        forall|secret: Seq<char>| #[trigger]
            is_secret(keys, secret) ==> exists|i: int|
                0 <= i < secrets(keys).len() && #[trigger] secrets(keys)[i] == secret,
{
    let all = secrets(keys);
    let len = keys.len();
    assert forall|i: int| 0 <= i < all.len() implies is_secret(keys, #[trigger] all[i]) by {
        if i < len {
            assert(all[i] == keys[i]);
        } else {
            assert(all[i] == percent_encoded(keys[i - len]));
        }
    }
    assert forall|secret: Seq<char>| #[trigger] is_secret(keys, secret) implies exists|i: int|
        0 <= i < all.len() && #[trigger] all[i] == secret by {
        let i = choose|i: int|
            0 <= i < keys.len() && (secret == #[trigger] keys[i] || secret == percent_encoded(
                keys[i],
            ));
        if secret == keys[i] {
            assert(all[i] == secret);
        } else {
            assert(all[i + len] == secret);
        }
    }
}

proof fn lemma_secret_len_of_rest(text: Seq<char>, hidden: Seq<Seq<char>>, at: int, cut: int)
    requires
        0 <= cut <= at <= text.len(),
    ensures
        secret_len(text, hidden, at) == secret_len(text.skip(cut), hidden, at - cut),
    decreases hidden.len(),
{
    if hidden.len() > 0 {
        lemma_secret_len_of_rest(text, hidden.drop_last(), at, cut);
        let needle = hidden.last();
        if at + needle.len() <= text.len() {
            assert(text.skip(cut).subrange(at - cut, at - cut + needle.len()) =~= text.subrange(
                at,
                at + needle.len(),
            ));
        }
    }
}

proof fn lemma_redacted_rest(text: Seq<char>, hidden: Seq<Seq<char>>, from: int, cut: int)
    requires
        0 <= cut <= from <= text.len(),
    ensures
        redacted_from(text, hidden, from) == redacted_from(text.skip(cut), hidden, from - cut),
    decreases text.len() - from,
{
    if from < text.len() {
        let len = secret_len(text, hidden, from);
        lemma_secret_fits(text, hidden, from);
        lemma_secret_len_of_rest(text, hidden, from, cut);
        if len > 0 {
            lemma_redacted_rest(text, hidden, from + len, cut);
        } else {
            lemma_redacted_rest(text, hidden, from + 1, cut);
            assert(text.skip(cut)[from - cut] == text[from]);
        }
    }
}

proof fn lemma_clean_front(text: Seq<char>, hidden: Seq<Seq<char>>, from: int, to: int)
    requires
        0 <= from <= to <= text.len(),
        forall|q: int| from <= q < to ==> #[trigger] secret_len(text, hidden, q) == 0,
    ensures
        redacted_from(text, hidden, from) == text.subrange(from, to) + redacted_from(
            text,
            hidden,
            to,
        ),
    decreases to - from,
{
    if from < to {
        assert(secret_len(text, hidden, from) == 0);
        lemma_clean_front(text, hidden, from + 1, to);
        assert(text.subrange(from, to) =~= seq![text[from]] + text.subrange(from + 1, to));
        assert(redacted_from(text, hidden, from) =~= text.subrange(from, to) + redacted_from(
            text,
            hidden,
            to,
        ));
    } else {
        assert(text.subrange(from, to) + redacted_from(text, hidden, to) =~= redacted_from(
            text,
            hidden,
            to,
        ));
    }
}

/// Redaction changes nothing but the secrets: a text is printed up to the first
/// place where one stands, there the mark is printed in place of the longest
/// one that stands there, and the rest is printed as a text of its own. A text
/// without any is printed as it is.
pub proof fn law_redaction_replaces_secrets_and_nothing_else(
    text: Seq<char>,
    keys: Seq<Seq<char>>,
    place: int,
    secret: Seq<char>,
)
    requires
        0 <= place <= text.len(),
        forall|q: int, other: Seq<char>|
            0 <= q < place && is_secret(keys, other) && other.len() > 0 ==> !#[trigger] found_exactly(
                text,
                other,
                q,
            ),
        place < text.len() ==> {
            &&& is_secret(keys, secret)
            &&& secret.len() > 0
            &&& found_exactly(text, secret, place)
            &&& forall|other: Seq<char>|
                is_secret(keys, other) && #[trigger] found_exactly(text, other, place)
                    ==> other.len() <= secret.len()
        },
    ensures
        place == text.len() ==> redacted(text, keys) == text,
        place < text.len() ==> redacted(text, keys) == text.take(place) + "[REDACTED]"@ + redacted(
            text.skip(place + secret.len()),
            keys,
        ),
{
    let hidden = secrets(keys);
    lemma_secrets_are_those_of_the_keys(keys);
    assert forall|q: int| 0 <= q < place implies #[trigger] secret_len(text, hidden, q) == 0 by {
        if secret_len(text, hidden, q) > 0 {
            let i = lemma_seen_is_secret(text, hidden, q);
            law_a_needle_stands_where_its_characters_do(text, hidden[i], q);
            assert(found_exactly(text, hidden[i], q));
        }
    }
    lemma_clean_front(text, hidden, 0, place);
    assert(text.subrange(0, place) =~= text.take(place));
    if place == text.len() {
        assert(text.take(place) + Seq::<char>::empty() =~= text);
    } else {
        let i = choose|i: int| 0 <= i < hidden.len() && #[trigger] hidden[i] == secret;
        law_a_needle_stands_where_its_characters_do(text, secret, place);
        lemma_secret_is_seen(text, hidden, place, i);
        let seen = lemma_seen_is_secret(text, hidden, place);
        law_a_needle_stands_where_its_characters_do(text, hidden[seen], place);
        assert(found_exactly(text, hidden[seen], place));
        let end = place + secret.len();
        lemma_redacted_rest(text, hidden, end, end);
        assert(redacted(text, keys) =~= text.take(place) + "[REDACTED]"@ + redacted(
            text.skip(end),
            keys,
        ));
    }
}

// Settings.

/// Settings are given as their names and values, in order.
pub proof fn law_settings_are_names_and_values(pairs: Seq<(&str, &str)>, index: int)
    ensures
        settings(pairs).len() == pairs.len(),
        0 <= index < pairs.len() ==> settings(pairs)[index].0 == pairs[index].0@
            && settings(pairs)[index].1 == pairs[index].1@,
{
}

/// The value under a name is the last one given under it, and there is none
/// exactly when none is given.
pub proof fn law_the_last_value_counts(pairs: Seq<(Seq<char>, Seq<char>)>, name: Seq<char>)
    ensures
        value_of(pairs, name) is None <==> forall|i: int|
            0 <= i < pairs.len() ==> (#[trigger] pairs[i]).0 != name,
        value_of(pairs, name) is Some ==> exists|i: int|
            0 <= i < pairs.len() && (#[trigger] pairs[i]).0 == name && pairs[i].1 == value_of(
                pairs,
                name,
            )->0 && forall|j: int| i < j < pairs.len() ==> (#[trigger] pairs[j]).0 != name,
    decreases pairs.len(),
{
    if pairs.len() > 0 {
        let front = pairs.drop_last();
        let last = pairs.len() - 1;
        law_the_last_value_counts(front, name);
        assert forall|i: int| 0 <= i < last implies #[trigger] pairs[i] == front[i] by {}
        if pairs[last].0 == name {
            assert(pairs[last].1 == value_of(pairs, name)->0);
        } else if value_of(front, name) is Some {
            let i = choose|i: int|
                0 <= i < front.len() && (#[trigger] front[i]).0 == name && front[i].1 == value_of(
                    front,
                    name,
                )->0 && forall|j: int| i < j < front.len() ==> (#[trigger] front[j]).0 != name;
            assert(pairs[i] == front[i]);
            assert forall|j: int| i < j < pairs.len() implies (#[trigger] pairs[j]).0 != name by {
                if j < last {
                    assert(front[j] == pairs[j]);
                }
            }
        } else {
            assert forall|i: int| 0 <= i < pairs.len() implies (#[trigger] pairs[i]).0 != name by {
                if i < last {
                    assert(front[i] == pairs[i]);
                }
            }
        }
    }
}

/// A setting is the value under its name without the white space around it, and
/// is unset exactly when no value is given or nothing is left of it.
pub proof fn law_a_setting_is_its_trimmed_value(
    pairs: Seq<(Seq<char>, Seq<char>)>,
    name: Seq<char>,
)
    ensures
        setting(pairs, name) is Some <==> value_of(pairs, name) is Some && trimmed(
            value_of(pairs, name)->0,
        ).len() > 0,
        setting(pairs, name) is Some ==> setting(pairs, name)->0 == trimmed(
            value_of(pairs, name)->0,
        ),
{
}

/// The keys of the settings are the parts of the list between its commas,
/// trimmed and in order; without a list, the lone key; without either, none.
pub proof fn law_keys_are_the_parts_of_the_list(
    pairs: Seq<(Seq<char>, Seq<char>)>,
    index: int,
)
    ensures
        ({
            let list = setting(pairs, "GOOGLE_API_KEYS"@);
            let lone = setting(pairs, "GOOGLE_API_KEY"@);
            let keys = google_keys(pairs);
            &&& list is Some ==> keys.len() == split(list->0, ',').len()
            &&& list is Some && 0 <= index < keys.len() ==> keys[index] == trimmed(
                split(list->0, ',')[index],
            )
            &&& list is None && lone is Some ==> keys.len() == 1 && keys[0] == lone->0
            &&& list is None && lone is None ==> keys.len() == 0
        }),
{
}

/// Whether a key among `keys` is empty or comes twice.
pub open spec fn faulty(keys: Seq<Seq<char>>) -> bool {
    ||| exists|i: int| 0 <= i < keys.len() && (#[trigger] keys[i]).len() == 0
    ||| exists|i: int, j: int|
        0 <= i < j < keys.len() && #[trigger] keys[i] == #[trigger] keys[j]
}

/// A list is found fault with exactly when a key in it is empty or comes twice;
/// then it is one complaint, which repeats no key. Nothing else is.
pub proof fn law_a_list_is_refused_for_empty_and_repeated_keys(
    pairs: Seq<(Seq<char>, Seq<char>)>,
)
    ensures
        setting(pairs, "GOOGLE_API_KEYS"@) is Some && faulty(google_keys(pairs)) ==> invalid(pairs)
            == seq!["GOOGLE_API_KEYS must list non-empty, distinct keys"@],
        setting(pairs, "GOOGLE_API_KEYS"@) is None || !faulty(google_keys(pairs)) ==> invalid(
            pairs,
        ).len() == 0,
{
    let keys = google_keys(pairs);
    if setting(pairs, "GOOGLE_API_KEYS"@) is Some {
        assert(keys == entries(setting(pairs, "GOOGLE_API_KEYS"@)->0));
        if !usable(keys) {
            if exists|i: int| 0 <= i < keys.len() && (#[trigger] keys[i]).len() == 0 {
            } else {
                let (i, j) = choose|i: int, j: int|
                    0 <= i < j < keys.len() && #[trigger] keys[i] == #[trigger] keys[j];
                assert(keys[i] == keys[j]);
            }
            assert(faulty(keys));
        }
    }
}

/// The place of a required setting among those that are reported missing.
pub open spec fn rank(name: Seq<char>) -> int {
    if name == "LIVEKIT_URL"@ {
        0
    } else if name == "LIVEKIT_API_KEY"@ {
        1
    } else if name == "LIVEKIT_API_SECRET"@ {
        2
    } else if name == "GOOGLE_API_KEY"@ {
        3
    } else {
        4
    }
}

/// What is reported missing: each of the three LiveKit settings that is unset,
/// and the lone key where both it and the list are; always in that order, each
/// once, and nothing else.
pub proof fn law_what_is_unset_is_missing(pairs: Seq<(Seq<char>, Seq<char>)>, name: Seq<char>)
    ensures
        missing(pairs).contains(name) <==> rank(name) < 4 && setting(pairs, name) is None && (
        rank(name) == 3 ==> setting(pairs, "GOOGLE_API_KEYS"@) is None),
        forall|i: int, j: int|
            0 <= i < j < missing(pairs).len() ==> rank(#[trigger] missing(pairs)[i]) < rank(
                #[trigger] missing(pairs)[j],
            ),
{
    reveal_strlit("LIVEKIT_URL");
    reveal_strlit("LIVEKIT_API_KEY");
    reveal_strlit("LIVEKIT_API_SECRET");
    reveal_strlit("GOOGLE_API_KEY");
    let a = "LIVEKIT_URL"@;
    let b = "LIVEKIT_API_KEY"@;
    let c = "LIVEKIT_API_SECRET"@;
    let d = "GOOGLE_API_KEY"@;
    assert(a.len() == 11 && b.len() == 15 && c.len() == 18 && d.len() == 14);
    let all = missing(pairs);
    let no_a = setting(pairs, a) is None;
    let no_b = setting(pairs, b) is None;
    let no_c = setting(pairs, c) is None;
    let no_d = setting(pairs, d) is None && setting(pairs, "GOOGLE_API_KEYS"@) is None;
    let at_b: int = if no_a {
        1
    } else {
        0
    };
    let at_c: int = if no_b {
        at_b + 1
    } else {
        at_b
    };
    let at_d: int = if no_c {
        at_c + 1
    } else {
        at_c
    };
    assert(no_a ==> all[0] == a);
    assert(no_b ==> all[at_b] == b);
    assert(no_c ==> all[at_c] == c);
    assert(no_d ==> all[at_d] == d);
    assert(all.len() == if no_d {
        at_d + 1
    } else {
        at_d
    });
}

/// The problems of a configuration are what is missing, named as required, and
/// then what is wrong, in order.
pub proof fn law_problems_name_what_is_missing_and_what_is_wrong(error: ConfigError, index: int)
    ensures
        ({
            let first = error.missing_keys@.len();
            let problems = error.problems();
            &&& problems.len() == first + error.invalid_entries@.len()
            &&& 0 <= index < first ==> problems[index] == error.missing_keys@[index]@
                + " is required"@
            &&& first <= index < problems.len() ==> problems[index] == error.invalid_entries@[index
                - first]@
        }),
{
}

} // verus!
