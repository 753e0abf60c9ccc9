//! What holds of the rotation, the shared failures, the classifiers and the
//! redaction across calls.

use vstd::prelude::*;

use crate::config::{entries, google_keys, invalid, missing, setting, usable, value_of};
use crate::cooldown::{
    is_cooling, known, pruned, ApiSurface, Cooldown, Moment,
};
use crate::failure::{
    invalid_codes, quota_codes, reason_failure, response_failure, ApiFailure,
    CredentialFailure, ErrorModel,
};
use crate::keys::{
    after_failure, after_selection, around, earlier, lemma_exhausted_means_all_out,
    lemma_pruned_return, lemma_same_search, quota_return, Rotation,
};
use crate::outcomes::minute;
use crate::redact::{lemma_secret_fits, mark, redacted, redacted_from, secret_len, secrets};
use crate::text::{
    decimal, digit, is_space, lower, occurs, occurs_at, split, trimmed, upper,
};

verus! {

// Cooldowns.

/// A later failure never shortens a deadline already set, on either surface.
pub proof fn law_deadlines_never_shorten(
    cooldown: Cooldown,
    failure: CredentialFailure,
    surface: ApiSurface,
    now: Moment,
    other: ApiSurface,
)
    ensures
        cooldown.until(other) is Some ==> cooldown.after(failure, surface, now).until(other) is Some
            && cooldown.after(failure, surface, now).until(other)->0 >= cooldown.until(other)->0,
        cooldown.live_rejected is Some ==> cooldown.after(failure, surface, now).live_rejected
            is Some && cooldown.after(failure, surface, now).live_rejected->0
            >= cooldown.live_rejected->0,
{
}

/// A refusal mark never outlives the Live deadline: no failure breaks that, and
/// a key with such a mark is out on Live, so selection can ignore the mark.
pub proof fn law_refusal_mark_never_outlives_live(
    cooldown: Cooldown,
    failure: CredentialFailure,
    surface: ApiSurface,
    now: Moment,
)
    requires
        cooldown.consistent(),
    ensures
        cooldown.after(failure, surface, now).consistent(),
        is_cooling(cooldown.live_rejected, now) ==> is_cooling(cooldown.live, now),
{
}

/// Quota and unexplained refusals stay on the surface that saw them.
pub proof fn law_quota_and_refusals_stay_on_their_surface(
    cooldown: Cooldown,
    failure: CredentialFailure,
    surface: ApiSurface,
    other: ApiSurface,
    now: Moment,
)
    requires
        failure != CredentialFailure::Invalid,
        surface != other,
    ensures
        cooldown.after(failure, surface, now).until(other) == cooldown.until(other),
{
}

/// A failed key is out until a minute after the failure on the surface that saw
/// it, and an invalid one on both.
pub proof fn law_failure_takes_a_key_out(
    cooldown: Cooldown,
    failure: CredentialFailure,
    surface: ApiSurface,
    other: ApiSurface,
    at: Moment,
    now: Moment,
)
    requires
        at + minute() <= u128::MAX,
        now < at + minute(),
        surface == other || failure == CredentialFailure::Invalid,
    ensures
        is_cooling(cooldown.after(failure, surface, at).until(other), now),
{
}

// Selection.

/// A search finds an available key and passes over those before it.
proof fn lemma_pick_from(
    rotation: Rotation,
    failures: Map<Seq<char>, Cooldown>,
    surface: ApiSurface,
    now: Moment,
    step: int,
) -> (found: int)
    requires
        rotation.wf(),
        0 <= step,
        rotation.pick_from(failures, surface, now, step) is Some,
    ensures
        step <= found < rotation.keys.len(),
        rotation.pick_from(failures, surface, now, step) == Some(
            around(rotation.start(surface), found, rotation.keys.len() as int),
        ),
        rotation.available(
            failures,
            surface,
            now,
            around(rotation.start(surface), found, rotation.keys.len() as int),
        ),
        forall|s: int|
            step <= s < found ==> !rotation.available(
                failures,
                surface,
                now,
                #[trigger] around(rotation.start(surface), s, rotation.keys.len() as int),
            ),
    decreases rotation.keys.len() - step,
{
    let index = around(rotation.start(surface), step, rotation.keys.len() as int);
    if rotation.available(failures, surface, now, index) {
        step
    } else {
        lemma_pick_from(rotation, failures, surface, now, step + 1)
    }
}

/// Keys are tried in their order from the one last used round: the selected one
/// is available, and every key between the last used one and it is not.
pub proof fn law_keys_are_tried_in_order(
    rotation: Rotation,
    failures: Map<Seq<char>, Cooldown>,
    surface: ApiSurface,
    now: Moment,
) -> (steps: int)
    requires
        rotation.wf(),
        rotation.keys.len() > 1,
        rotation.pick(failures, surface, now) is Some,
    ensures
        0 <= steps < rotation.keys.len(),
        rotation.pick(failures, surface, now) == Some(
            around(rotation.start(surface), steps, rotation.keys.len() as int),
        ),
        rotation.available(failures, surface, now, rotation.pick(failures, surface, now)->0),
        forall|s: int|
            0 <= s < steps ==> !rotation.available(
                failures,
                surface,
                now,
                #[trigger] around(rotation.start(surface), s, rotation.keys.len() as int),
            ),
{
    lemma_pick_from(rotation, failures, surface, now, 0)
}

/// A rotation with backups fails exactly when every key is out.
pub proof fn law_exhausted_exactly_when_every_key_is_out(
    rotation: Rotation,
    failures: Map<Seq<char>, Cooldown>,
    surface: ApiSurface,
    now: Moment,
)
    requires
        rotation.wf(),
        rotation.keys.len() > 1,
    ensures
        rotation.pick(failures, surface, now) is None <==> forall|i: int|
            0 <= i < rotation.keys.len() ==> !#[trigger] rotation.available(
                failures,
                surface,
                now,
                i,
            ),
{
    if rotation.pick(failures, surface, now) is None {
        lemma_exhausted_means_all_out(rotation, failures, surface, now);
    } else {
        let steps = lemma_pick_from(rotation, failures, surface, now, 0);
        let index = around(rotation.start(surface), steps, rotation.keys.len() as int);
        assert(rotation.available(failures, surface, now, index));
    }
}

/// A selection only ever returns a configured key, keeps the list, and leaves
/// the positions in it.
pub proof fn law_selection_stays_in_the_list(
    rotation: Rotation,
    failures: Map<Seq<char>, Cooldown>,
    surface: ApiSurface,
    now: Moment,
)
    requires
        rotation.wf(),
    ensures
        match rotation.pick(failures, surface, now) {
            Some(index) => 0 <= index < rotation.keys.len(),
            None => true,
        },
        rotation.after_select(failures, surface, now).keys == rotation.keys,
        rotation.after_select(failures, surface, now).wf(),
{
    if rotation.keys.len() > 1 && rotation.pick(failures, surface, now) is Some {
        let steps = lemma_pick_from(rotation, failures, surface, now, 0);
    }
}

/// A working key stays selected: while the key in use is available it is
/// returned and stays in use, and Live keeps its key either way.
pub proof fn law_a_working_key_stays_selected(
    rotation: Rotation,
    failures: Map<Seq<char>, Cooldown>,
    surface: ApiSurface,
    now: Moment,
)
    requires
        rotation.wf(),
        rotation.keys.len() > 1,
        rotation.available(failures, surface, now, rotation.start(surface)),
    ensures
        rotation.pick(failures, surface, now) == Some(rotation.start(surface)),
        rotation.after_select(failures, surface, now).start(surface) == rotation.start(surface),
        rotation.after_select(failures, surface, now).start(ApiSurface::Live) == rotation.start(
            ApiSurface::Live,
        ),
{
}

/// The key a selection returns is the one in use afterwards, so a second
/// selection returns it again for as long as it is available, even once an
/// earlier key has come back.
pub proof fn law_a_selected_key_is_kept(
    rotation: Rotation,
    failures: Map<Seq<char>, Cooldown>,
    surface: ApiSurface,
    now: Moment,
    later_failures: Map<Seq<char>, Cooldown>,
    later: Moment,
)
    requires
        rotation.wf(),
        rotation.keys.len() > 1,
        rotation.pick(failures, surface, now) is Some,
        rotation.available(
            later_failures,
            surface,
            later,
            rotation.pick(failures, surface, now)->0,
        ),
    ensures
        rotation.after_select(failures, surface, now).pick(later_failures, surface, later)
            == rotation.pick(failures, surface, now),
{
    law_selection_stays_in_the_list(rotation, failures, surface, now);
    let moved = rotation.after_select(failures, surface, now);
    let index = rotation.pick(failures, surface, now)->0;
    assert(moved.start(surface) == index);
    assert(around(index, 0, moved.keys.len() as int) == index);
    assert(moved.available(later_failures, surface, later, index) == rotation.available(
        later_failures,
        surface,
        later,
        index,
    ));
}

/// Report failover leaves the Live key alone, and Live failover leaves the one
/// that reports have chosen.
pub proof fn law_surfaces_move_apart(
    rotation: Rotation,
    failures: Map<Seq<char>, Cooldown>,
    now: Moment,
)
    ensures
        rotation.after_select(failures, ApiSurface::Report, now).live == rotation.live,
        rotation.after_select(failures, ApiSurface::Live, now).report == rotation.report,
{
}

/// Reports that have not chosen a key yet start from the one Live works with.
pub proof fn law_first_report_starts_from_the_live_key(
    rotation: Rotation,
    failures: Map<Seq<char>, Cooldown>,
    now: Moment,
    report_failures: Map<Seq<char>, Cooldown>,
    report_now: Moment,
)
    requires
        rotation.wf(),
        rotation.keys.len() > 1,
        rotation.report is None,
        rotation.pick(failures, ApiSurface::Live, now) is Some,
        rotation.available(
            report_failures,
            ApiSurface::Report,
            report_now,
            rotation.pick(failures, ApiSurface::Live, now)->0,
        ),
    ensures
        rotation.after_select(failures, ApiSurface::Live, now).pick(
            report_failures,
            ApiSurface::Report,
            report_now,
        ) == rotation.pick(failures, ApiSurface::Live, now),
{
    law_selection_stays_in_the_list(rotation, failures, ApiSurface::Live, now);
    let moved = rotation.after_select(failures, ApiSurface::Live, now);
    let index = rotation.pick(failures, ApiSurface::Live, now)->0;
    assert(moved.start(ApiSurface::Report) == index);
    assert(around(index, 0, moved.keys.len() as int) == index);
    assert(moved.available(report_failures, ApiSurface::Report, report_now, index)
        == rotation.available(report_failures, ApiSurface::Report, report_now, index));
}

/// A sole key is never taken out of rotation: no failure of it is recorded, and
/// whatever is recorded of it elsewhere, it is selected.
pub proof fn law_a_sole_key_is_never_taken_out(
    rotation: Rotation,
    failures: Map<Seq<char>, Cooldown>,
    key: Seq<char>,
    failure: CredentialFailure,
    surface: ApiSurface,
    now: Moment,
)
    requires
        rotation.keys.len() == 1,
    ensures
        after_failure(rotation, failures, key, failure, surface, now) == failures,
        after_selection(rotation, failures, now) == failures,
        rotation.pick(failures, surface, now) == Some(0int),
        rotation.after_select(failures, surface, now) == rotation,
{
}

/// Pruning and selection share one boundary: what a selection forgets changes
/// no selection at that moment or later, nor what one is worth waiting for.
pub proof fn law_pruning_changes_no_selection(
    rotation: Rotation,
    failures: Map<Seq<char>, Cooldown>,
    surface: ApiSurface,
    now: Moment,
    later: Moment,
)
    requires
        rotation.wf(),
        now <= later,
    ensures
        rotation.pick(pruned(failures, now), surface, later) == rotation.pick(
            failures,
            surface,
            later,
        ),
        rotation.keys.len() > 1 && rotation.pick(failures, surface, later) is None
            ==> rotation.retry_at(pruned(failures, now), surface, later) == rotation.retry_at(
            failures,
            surface,
            later,
        ),
        pruned(pruned(failures, now), later) == pruned(failures, later),
{
    if rotation.keys.len() > 1 {
        lemma_same_search(rotation, pruned(failures, now), failures, surface, later, 0);
        if rotation.pick(failures, surface, later) is None && surface == ApiSurface::Live {
            lemma_exhausted_means_all_out(rotation, failures, surface, later);
            lemma_pruned_return(rotation, failures, now, later, rotation.keys.len() as int);
        }
    }
    assert(pruned(pruned(failures, now), later) =~= pruned(failures, later));
}

/// A quota failure or an unexplained refusal that one surface saw changes no
/// selection on the other.
pub proof fn law_quota_and_refusals_change_no_other_selection(
    reporter: Rotation,
    failures: Map<Seq<char>, Cooldown>,
    key: Seq<char>,
    failure: CredentialFailure,
    seen_on: ApiSurface,
    at: Moment,
    rotation: Rotation,
    surface: ApiSurface,
    now: Moment,
)
    requires
        rotation.wf(),
        failure != CredentialFailure::Invalid,
        seen_on != surface,
    ensures
        rotation.pick(after_failure(reporter, failures, key, failure, seen_on, at), surface, now)
            == rotation.pick(failures, surface, now),
{
    let after = after_failure(reporter, failures, key, failure, seen_on, at);
    if rotation.keys.len() > 1 {
        lemma_same_search(rotation, after, failures, surface, now, 0);
    }
}

// Waiting for quota.

/// The first return is the earliest among the keys out on quota alone, and
/// there is one exactly when there is such a key.
proof fn lemma_first_return(
    rotation: Rotation,
    failures: Map<Seq<char>, Cooldown>,
    now: Moment,
    count: int,
)
    requires
        0 <= count <= rotation.keys.len(),
    ensures
        match rotation.first_return(failures, now, count) {
            Some(moment) => {
                &&& exists|i: int|
                    0 <= i < count && quota_return(known(failures, #[trigger] rotation.keys[i]), now)
                        == Some(moment)
                &&& forall|i: int|
                    0 <= i < count ==> match quota_return(
                        known(failures, #[trigger] rotation.keys[i]),
                        now,
                    ) {
                        Some(other) => moment <= other,
                        None => true,
                    }
            },
            None => forall|i: int|
                0 <= i < count ==> quota_return(known(failures, #[trigger] rotation.keys[i]), now)
                    is None,
        },
    decreases count,
{
    if count > 0 {
        lemma_first_return(rotation, failures, now, count - 1);
        let last = quota_return(known(failures, rotation.keys[count - 1]), now);
        let first = rotation.first_return(failures, now, count - 1);
        assert(rotation.first_return(failures, now, count) == earlier(first, last));
        if first is Some {
            let i = choose|i: int|
                0 <= i < count - 1 && quota_return(known(failures, #[trigger] rotation.keys[i]), now)
                    == first;
            assert(quota_return(known(failures, rotation.keys[i]), now) == first);
        }
    }
}

/// An exhausted Live rotation names the moment at which the first key that is
/// out on quota alone comes back. That moment is still ahead, and there is none
/// exactly when every key is out on a refusal.
pub proof fn law_exhausted_live_names_the_first_quota_key_back(
    rotation: Rotation,
    failures: Map<Seq<char>, Cooldown>,
    now: Moment,
)
    requires
        rotation.wf(),
        rotation.keys.len() > 1,
        rotation.pick(failures, ApiSurface::Live, now) is None,
    ensures
        match rotation.retry_at(failures, ApiSurface::Live, now) {
            Some(moment) => {
                &&& now < moment
                &&& exists|i: int|
                    0 <= i < rotation.keys.len() && known(failures, #[trigger] rotation.keys[i]).live
                        == Some(moment) && !is_cooling(
                        known(failures, rotation.keys[i]).live_rejected,
                        now,
                    )
                &&& forall|i: int|
                    0 <= i < rotation.keys.len() && !is_cooling(
                        known(failures, #[trigger] rotation.keys[i]).live_rejected,
                        now,
                    ) ==> moment <= known(failures, rotation.keys[i]).live->0
            },
            None => forall|i: int|
                0 <= i < rotation.keys.len() ==> is_cooling(
                    known(failures, #[trigger] rotation.keys[i]).live_rejected,
                    now,
                ),
        },
{
    let len = rotation.keys.len() as int;
    lemma_exhausted_means_all_out(rotation, failures, ApiSurface::Live, now);
    lemma_first_return(rotation, failures, now, len);
    assert forall|i: int| 0 <= i < len implies is_cooling(
        known(failures, #[trigger] rotation.keys[i]).live,
        now,
    ) by {
        assert(!rotation.available(failures, ApiSurface::Live, now, i));
    }
    match rotation.retry_at(failures, ApiSurface::Live, now) {
        Some(moment) => {
            let i = choose|i: int|
                0 <= i < len && quota_return(known(failures, #[trigger] rotation.keys[i]), now)
                    == Some(moment);
            assert(known(failures, rotation.keys[i]).live == Some(moment));
        },
        None => {
            assert forall|i: int| 0 <= i < len implies is_cooling(
                known(failures, #[trigger] rotation.keys[i]).live_rejected,
                now,
            ) by {
                assert(quota_return(known(failures, rotation.keys[i]), now) is None);
            }
        },
    }
}

/// Reports never wait.
pub proof fn law_reports_never_wait(
    rotation: Rotation,
    failures: Map<Seq<char>, Cooldown>,
    now: Moment,
)
    ensures
        rotation.retry_at(failures, ApiSurface::Report, now) is None,
{
}

// Histories.

/// What interviews do to the failures they share.
pub ghost enum Event {
    Failed {
        by: Rotation,
        key: Seq<char>,
        failure: CredentialFailure,
        surface: ApiSurface,
        at: Moment,
    },
    Selected { by: Rotation, at: Moment },
}

impl Event {
    /// The failures known once this has happened.
    pub open spec fn applied(self, failures: Map<Seq<char>, Cooldown>) -> Map<Seq<char>, Cooldown> {
        match self {
            Event::Failed { by, key, failure, surface, at } => after_failure(
                by,
                failures,
                key,
                failure,
                surface,
                at,
            ),
            Event::Selected { by, at } => after_selection(by, failures, at),
        }
    }

    /// Whether this is a recorded failure of `key` that bears on `surface`: one
    /// that `surface` saw, or one that found the key invalid.
    pub open spec fn strikes(self, key: Seq<char>, surface: ApiSurface) -> bool {
        match self {
            Event::Failed { by, key: failed, failure, surface: seen_on, .. } => by.keys.len() > 1
                && failed == key && (seen_on == surface || failure == CredentialFailure::Invalid),
            Event::Selected { .. } => false,
        }
    }

    /// Whether this is a recorded refusal of `key` on Live: one that found the
    /// key invalid, or one that Live got without a reason.
    pub open spec fn refuses(self, key: Seq<char>) -> bool {
        match self {
            Event::Failed { by, key: failed, failure, surface, .. } => by.keys.len() > 1 && failed
                == key && (failure == CredentialFailure::Invalid || (failure
                == CredentialFailure::Refused && surface == ApiSurface::Live)),
            Event::Selected { .. } => false,
        }
    }

    /// Whether this prunes the shared record at a moment after `now`.
    pub open spec fn forgets_after(self, now: Moment) -> bool {
        match self {
            Event::Failed { .. } => false,
            Event::Selected { by, at } => by.keys.len() > 1 && at > now,
        }
    }

    /// When this happened.
    pub open spec fn at(self) -> Moment {
        match self {
            Event::Failed { at, .. } => at,
            Event::Selected { at, .. } => at,
        }
    }
}

/// The failures known once all of `events` have happened, in their order.
pub open spec fn replayed(failures: Map<Seq<char>, Cooldown>, events: Seq<Event>) -> Map<
    Seq<char>,
    Cooldown,
>
    decreases events.len(),
{
    if events.len() == 0 {
        failures
    } else {
        events.last().applied(replayed(failures, events.drop_last()))
    }
}

/// Whether every failure of `key` that bears on `surface` is a minute old at
/// `now`.
pub open spec fn recovered(
    events: Seq<Event>,
    key: Seq<char>,
    surface: ApiSurface,
    now: Moment,
) -> bool {
    forall|i: int|
        0 <= i < events.len() && (#[trigger] events[i]).strikes(key, surface) ==> events[i].at()
            + minute() <= now
}

/// Whether every selection that prunes the shared record happened by `now`.
pub open spec fn pruned_by(events: Seq<Event>, now: Moment) -> bool {
    forall|i: int| 0 <= i < events.len() ==> !(#[trigger] events[i]).forgets_after(now)
}

/// Nothing that interviews do brings a key back that is out at `now`, as long
/// as none of them selects after `now`.
proof fn lemma_out_stays_out(
    failures: Map<Seq<char>, Cooldown>,
    events: Seq<Event>,
    key: Seq<char>,
    surface: ApiSurface,
    now: Moment,
)
    requires
        is_cooling(known(failures, key).until(surface), now),
        pruned_by(events, now),
    ensures
        is_cooling(known(replayed(failures, events), key).until(surface), now),
    decreases events.len(),
{
    if events.len() > 0 {
        assert(pruned_by(events.drop_last(), now));
        lemma_out_stays_out(failures, events.drop_last(), key, surface, now);
        assert(!events[events.len() - 1].forgets_after(now));
    }
}

/// A failed key is passed over for a minute by every interview that has a
/// backup, whatever else interviews do meanwhile: on the surface that saw the
/// failure, and on both where the key was invalid.
pub proof fn law_a_failed_key_is_passed_over_by_all(
    reporter: Rotation,
    failures: Map<Seq<char>, Cooldown>,
    key: Seq<char>,
    failure: CredentialFailure,
    seen_on: ApiSurface,
    at: Moment,
    events: Seq<Event>,
    rotation: Rotation,
    surface: ApiSurface,
    now: Moment,
)
    requires
        reporter.keys.len() > 1,
        rotation.wf(),
        rotation.keys.len() > 1,
        at + minute() <= u128::MAX,
        now < at + minute(),
        seen_on == surface || failure == CredentialFailure::Invalid,
        pruned_by(events, now),
    ensures
        ({
            let known_now = replayed(
                after_failure(reporter, failures, key, failure, seen_on, at),
                events,
            );
            match rotation.pick(known_now, surface, now) {
                Some(index) => rotation.keys[index] != key,
                None => true,
            }
        }),
{
    let first = after_failure(reporter, failures, key, failure, seen_on, at);
    law_failure_takes_a_key_out(known(failures, key), failure, seen_on, surface, at, now);
    lemma_out_stays_out(first, events, key, surface, now);
    let known_now = replayed(first, events);
    if rotation.pick(known_now, surface, now) is Some {
        let steps = law_keys_are_tried_in_order(rotation, known_now, surface, now);
    }
}

/// Only its own failures take a key out of a surface: one that is not out at
/// `now` is not out then whatever interviews do besides, unless it fails again
/// on that surface, or turns out invalid, less than a minute before.
pub proof fn law_only_its_own_failures_take_a_key_out(
    failures: Map<Seq<char>, Cooldown>,
    events: Seq<Event>,
    key: Seq<char>,
    surface: ApiSurface,
    now: Moment,
)
    requires
        !is_cooling(known(failures, key).until(surface), now),
        recovered(events, key, surface, now),
    ensures
        !is_cooling(known(replayed(failures, events), key).until(surface), now),
    decreases events.len(),
{
    if events.len() > 0 {
        let before = events.drop_last();
        assert(recovered(before, key, surface, now)) by {
            assert forall|i: int|
                0 <= i < before.len() && (#[trigger] before[i]).strikes(
                    key,
                    surface,
                ) implies before[i].at() + minute() <= now by {
                assert(events[i] == before[i]);
            }
        }
        law_only_its_own_failures_take_a_key_out(failures, before, key, surface, now);
        let event = events[events.len() - 1];
        assert(event.strikes(key, surface) ==> event.at() + minute() <= now);
    }
}

/// Every key comes back: a minute after its last failure that bears on a
/// surface, a key is available there, whatever interviews do besides. So a
/// rotation with such a key is not empty, and an interview that uses the key
/// goes on with it.
pub proof fn law_every_key_comes_back(
    events: Seq<Event>,
    rotation: Rotation,
    index: int,
    surface: ApiSurface,
    now: Moment,
)
    requires
        rotation.wf(),
        0 <= index < rotation.keys.len(),
        recovered(events, rotation.keys[index], surface, now),
    ensures
        rotation.available(replayed(Map::empty(), events), surface, now, index),
        rotation.pick(replayed(Map::empty(), events), surface, now) is Some,
        index == rotation.start(surface) ==> rotation.pick(
            replayed(Map::empty(), events),
            surface,
            now,
        ) == Some(index),
{
    let failures = replayed(Map::<Seq<char>, Cooldown>::empty(), events);
    law_only_its_own_failures_take_a_key_out(
        Map::empty(),
        events,
        rotation.keys[index],
        surface,
        now,
    );
    assert(rotation.available(failures, surface, now, index));
    if rotation.keys.len() > 1 {
        law_exhausted_exactly_when_every_key_is_out(rotation, failures, surface, now);
        if index == rotation.start(surface) {
            law_a_working_key_stays_selected(rotation, failures, surface, now);
        }
    }
}

/// A key that an exhausted Live rotation waits for is available at the moment
/// it names, whatever interviews do besides, unless that key fails on Live
/// again, or turns out invalid, less than a minute before that moment. The
/// interview may meanwhile have moved its reports to another key.
pub proof fn law_an_awaited_key_comes_back(
    rotation: Rotation,
    failures: Map<Seq<char>, Cooldown>,
    now: Moment,
    events: Seq<Event>,
    index: int,
    waited: Rotation,
)
    requires
        rotation.wf(),
        rotation.keys.len() > 1,
        rotation.pick(failures, ApiSurface::Live, now) is None,
        rotation.retry_at(failures, ApiSurface::Live, now) is Some,
        0 <= index < rotation.keys.len(),
        known(failures, rotation.keys[index]).live == rotation.retry_at(
            failures,
            ApiSurface::Live,
            now,
        ),
        recovered(
            events,
            rotation.keys[index],
            ApiSurface::Live,
            rotation.retry_at(failures, ApiSurface::Live, now)->0,
        ),
        waited.wf(),
        waited.keys == rotation.keys,
    ensures
        ({
            let moment = rotation.retry_at(failures, ApiSurface::Live, now)->0;
            let known_then = replayed(after_selection(rotation, failures, now), events);
            &&& waited.available(known_then, ApiSurface::Live, moment, index)
            &&& waited.pick(known_then, ApiSurface::Live, moment) is Some
        }),
{
    let moment = rotation.retry_at(failures, ApiSurface::Live, now)->0;
    let left = after_selection(rotation, failures, now);
    let known_then = replayed(left, events);
    law_only_its_own_failures_take_a_key_out(
        left,
        events,
        rotation.keys[index],
        ApiSurface::Live,
        moment,
    );
    assert(waited.available(known_then, ApiSurface::Live, moment, index));
    law_exhausted_exactly_when_every_key_is_out(waited, known_then, ApiSurface::Live, moment);
}

/// Waiting works while other interviews go on: at the moment that an exhausted
/// Live rotation names, a key is available again, whatever has happened since,
/// as long as no key that comes back to Live at that moment fails there again,
/// or turns out invalid, less than a minute before it.
pub proof fn law_waiting_for_quota_works(
    rotation: Rotation,
    failures: Map<Seq<char>, Cooldown>,
    now: Moment,
    events: Seq<Event>,
    waited: Rotation,
)
    requires
        rotation.wf(),
        rotation.keys.len() > 1,
        rotation.pick(failures, ApiSurface::Live, now) is None,
        rotation.retry_at(failures, ApiSurface::Live, now) is Some,
        forall|i: int|
            0 <= i < rotation.keys.len() && known(failures, #[trigger] rotation.keys[i]).live
                == rotation.retry_at(failures, ApiSurface::Live, now) ==> recovered(
                events,
                rotation.keys[i],
                ApiSurface::Live,
                rotation.retry_at(failures, ApiSurface::Live, now)->0,
            ),
        waited.wf(),
        waited.keys == rotation.keys,
    ensures
        waited.pick(
            replayed(after_selection(rotation, failures, now), events),
            ApiSurface::Live,
            rotation.retry_at(failures, ApiSurface::Live, now)->0,
        ) is Some,
{
    let moment = rotation.retry_at(failures, ApiSurface::Live, now)->0;
    law_exhausted_live_names_the_first_quota_key_back(rotation, failures, now);
    let index = choose|i: int|
        0 <= i < rotation.keys.len() && known(failures, #[trigger] rotation.keys[i]).live == Some(
            moment,
        );
    law_an_awaited_key_comes_back(rotation, failures, now, events, index, waited);
}

/// A key is out of a surface exactly while a failure of it that bears on the
/// surface is less than a minute old, as long as no interview selects after
/// `now`.
pub proof fn law_a_key_is_out_exactly_while_a_failure_is_fresh(
    events: Seq<Event>,
    rotation: Rotation,
    index: int,
    surface: ApiSurface,
    now: Moment,
)
    requires
        0 <= index < rotation.keys.len(),
        pruned_by(events, now),
        forall|i: int| 0 <= i < events.len() ==> (#[trigger] events[i]).at() + minute() <= u128::MAX,
    ensures
        rotation.available(replayed(Map::empty(), events), surface, now, index) <==> recovered(
            events,
            rotation.keys[index],
            surface,
            now,
        ),
{
    let key = rotation.keys[index];
    if recovered(events, key, surface, now) {
        law_only_its_own_failures_take_a_key_out(Map::empty(), events, key, surface, now);
    } else {
        let i = choose|i: int|
            0 <= i < events.len() && (#[trigger] events[i]).strikes(key, surface) && events[i].at()
                + minute() > now;
        lemma_fresh_failure_keeps_out(events, i, key, surface, now);
    }
}

proof fn lemma_fresh_failure_keeps_out(
    events: Seq<Event>,
    index: int,
    key: Seq<char>,
    surface: ApiSurface,
    now: Moment,
)
    requires
        0 <= index < events.len(),
        events[index].strikes(key, surface),
        events[index].at() + minute() > now,
        events[index].at() + minute() <= u128::MAX,
        pruned_by(events, now),
    ensures
        is_cooling(known(replayed(Map::empty(), events), key).until(surface), now),
    decreases events.len(),
{
    let before = events.drop_last();
    let known_before = replayed(Map::<Seq<char>, Cooldown>::empty(), before);
    assert(pruned_by(before, now)) by {
        assert forall|i: int| 0 <= i < before.len() implies !(
        #[trigger] before[i]).forgets_after(now) by {
            assert(events[i] == before[i]);
        }
    }
    if index < events.len() - 1 {
        assert(before[index] == events[index]);
        lemma_fresh_failure_keeps_out(before, index, key, surface, now);
        assert(!events[events.len() - 1].forgets_after(now));
    } else {
        match events[index] {
            Event::Failed { by, key: failed, failure, surface: seen_on, at } => {
                law_failure_takes_a_key_out(
                    known(known_before, key),
                    failure,
                    seen_on,
                    surface,
                    at,
                    now,
                );
            },
            Event::Selected { .. } => {},
        }
    }
}

/// A refusal mark comes from a refusal alone: where no interview has found the
/// key invalid, nor been refused with it on Live without a reason, less than a
/// minute before `now`, no mark of it holds at `now`. Quota leaves none.
pub proof fn law_only_refusals_leave_a_refusal_mark(
    events: Seq<Event>,
    key: Seq<char>,
    now: Moment,
)
    requires
        forall|i: int|
            0 <= i < events.len() && (#[trigger] events[i]).refuses(key) ==> events[i].at()
                + minute() <= now,
    ensures
        !is_cooling(known(replayed(Map::empty(), events), key).live_rejected, now),
    decreases events.len(),
{
    if events.len() > 0 {
        let before = events.drop_last();
        assert forall|i: int|
            0 <= i < before.len() && (#[trigger] before[i]).refuses(key) implies before[i].at()
            + minute() <= now by {
            assert(events[i] == before[i]);
        }
        law_only_refusals_leave_a_refusal_mark(before, key, now);
        let event = events[events.len() - 1];
        assert(event.refuses(key) ==> event.at() + minute() <= now);
    }
}

/// An exhausted Live rotation waits as long as quota alone keeps one of its keys
/// out: where one of them has not been refused less than a minute before, a
/// moment to try again is named.
pub proof fn law_quota_alone_is_waited_out(
    events: Seq<Event>,
    rotation: Rotation,
    index: int,
    now: Moment,
)
    requires
        rotation.wf(),
        0 <= index < rotation.keys.len(),
        rotation.keys.len() > 1,
        rotation.pick(replayed(Map::empty(), events), ApiSurface::Live, now) is None,
        forall|i: int|
            0 <= i < events.len() && (#[trigger] events[i]).refuses(rotation.keys[index])
                ==> events[i].at() + minute() <= now,
    ensures
        rotation.retry_at(replayed(Map::empty(), events), ApiSurface::Live, now) is Some,
{
    let failures = replayed(Map::<Seq<char>, Cooldown>::empty(), events);
    law_only_refusals_leave_a_refusal_mark(events, rotation.keys[index], now);
    law_exhausted_live_names_the_first_quota_key_back(rotation, failures, now);
}

/// No history of a process files a refusal mark that outlives its Live
/// deadline.
pub proof fn law_every_record_is_consistent(events: Seq<Event>, key: Seq<char>)
    ensures
        known(replayed(Map::empty(), events), key).consistent(),
    decreases events.len(),
{
    if events.len() > 0 {
        law_every_record_is_consistent(events.drop_last(), key);
    }
}

// Classification.

/// What a reason says does not depend on its case.
pub proof fn law_reasons_are_read_in_any_case(left: Seq<char>, right: Seq<char>)
    requires
        lower(left) == lower(right),
    ensures
        reason_failure(left) == reason_failure(right),
{
    assert(upper(left) =~= upper(lower(left)));
    assert(upper(right) =~= upper(lower(right)));
}

/// A 429 is quota and a 401 an invalid key, whatever the body says. Only a 400
/// and a 403 are read for a reason; any other status says nothing of a key.
pub proof fn law_the_status_decides_first(status: u16, report: ErrorModel)
    ensures
        status == 429 ==> response_failure(status, report) == Some(CredentialFailure::Quota),
        status == 401 ==> response_failure(status, report) == Some(CredentialFailure::Invalid),
        response_failure(status, report) is Some ==> status == 400 || status == 401 || status == 403
            || status == 429,
{
}

/// A 403 always counts against the key, and is a bare refusal exactly when
/// nothing explains it. A 400 is never one: it counts only for its reason, and
/// then as a 403 with that reason would.
pub proof fn law_only_an_unexplained_403_is_a_refusal(report: ErrorModel)
    ensures
        response_failure(403, report) is Some,
        response_failure(400, report) != Some(CredentialFailure::Refused),
        response_failure(403, report) == Some(CredentialFailure::Refused) <==> response_failure(
            400,
            report,
        ) is None,
        response_failure(400, report) is Some ==> response_failure(400, report)
            == response_failure(403, report),
{
}

/// A code stands in no text without the underscore that every code has.
proof fn lemma_no_underscore_no_code(text: Seq<char>, code: Seq<char>, at: int)
    requires
        forall|i: int| 0 <= i < text.len() ==> #[trigger] text[i] != '_',
        0 <= at < code.len(),
        code[at] == '_',
    ensures
        !occurs(text, code),
{
    if occurs(text, code) {
        let place = choose|place: int| #[trigger] occurs_at(text, code, place);
        assert(text.subrange(place, place + code.len())[at] == text[place + at]);
    }
}

/// A number in decimal holds digits only.
proof fn lemma_decimal_holds_digits(value: nat)
    ensures
        forall|i: int| 0 <= i < decimal(value).len() ==> '0' <= #[trigger] decimal(value)[i] <= '9',
    decreases value,
{
    if value >= 10 {
        lemma_decimal_holds_digits(value / 10);
        let front = decimal(value / 10);
        assert(decimal(value) == front.push(digit(value % 10)));
        assert forall|i: int| 0 <= i < decimal(value).len() implies '0' <= #[trigger] decimal(
            value,
        )[i] <= '9' by {
            if i < front.len() {
                assert(decimal(value)[i] == front[i]);
            }
        }
    }
}

/// What is printed of a classified response never quotes a reason code.
pub proof fn law_messages_quote_no_code(failure: ApiFailure, index: int)
    requires
        failure.detail is None,
    ensures
        0 <= index < invalid_codes().len() ==> !occurs(
            failure.message_text(),
            invalid_codes()[index],
        ),
        0 <= index < quota_codes().len() ==> !occurs(failure.message_text(), quota_codes()[index]),
{
    reveal_strlit("Gemini quota exhausted");
    reveal_strlit("Gemini credential rejected");
    reveal_strlit("Gemini connection or setup failed");
    reveal_strlit("Gemini request rejected (status=");
    reveal_strlit(")");
    lemma_decimal_holds_digits(failure.status as nat);
    let text = failure.message_text();
    assert forall|i: int| 0 <= i < text.len() implies #[trigger] text[i] != '_' by {}
    reveal_strlit("API_KEY_INVALID");
    reveal_strlit("API_KEY_EXPIRED");
    reveal_strlit("API_KEY_SERVICE_BLOCKED");
    reveal_strlit("API_KEY_IP_ADDRESS_BLOCKED");
    reveal_strlit("API_KEY_HTTP_REFERRER_BLOCKED");
    reveal_strlit("API_KEY_ANDROID_APP_BLOCKED");
    reveal_strlit("API_KEY_IOS_APP_BLOCKED");
    reveal_strlit("QUOTA_EXCEEDED");
    reveal_strlit("RATE_LIMIT_EXCEEDED");
    if 0 <= index < invalid_codes().len() {
        lemma_no_underscore_no_code(text, invalid_codes()[index], 3);
    }
    if index == 0 {
        lemma_no_underscore_no_code(text, quota_codes()[index], 5);
    } else if index == 1 {
        lemma_no_underscore_no_code(text, quota_codes()[index], 4);
    }
}

// Redaction.

/// Whether `secret`, placed `offset` places after the start of a mark, agrees
/// with it wherever the two overlap.
pub open spec fn agrees(secret: Seq<char>, offset: int) -> bool {
    forall|j: int|
        0 <= j < secret.len() && 0 <= j + offset < "[REDACTED]"@.len() ==> #[trigger] secret[j]
            == "[REDACTED]"@[j + offset]
}

/// Whether a secret can stand over a mark or a part of it, such as `RED`, which
/// stands in every mark, or `key[`, which stands wherever `key` precedes one.
pub open spec fn blends(secret: Seq<char>) -> bool {
    exists|offset: int|
        -secret.len() < offset < "[REDACTED]"@.len() && #[trigger] agrees(secret, offset)
}

/// A secret that stands in a text is at most as long as the longest one there.
pub proof fn lemma_secret_is_seen(text: Seq<char>, hidden: Seq<Seq<char>>, at: int, index: int)
    requires
        0 <= index < hidden.len(),
        occurs_at(text, hidden[index], at),
    ensures
        secret_len(text, hidden, at) >= hidden[index].len(),
    decreases hidden.len(),
{
    if index < hidden.len() - 1 {
        lemma_secret_is_seen(text, hidden.drop_last(), at, index);
    }
}

/// A length that was found is that of a secret that stands there.
pub proof fn lemma_seen_is_secret(text: Seq<char>, hidden: Seq<Seq<char>>, at: int) -> (index: int)
    requires
        secret_len(text, hidden, at) > 0,
    ensures
        0 <= index < hidden.len(),
        occurs_at(text, hidden[index], at),
        hidden[index].len() == secret_len(text, hidden, at),
    decreases hidden.len(),
{
    let shorter = secret_len(text, hidden.drop_last(), at);
    if occurs_at(text, hidden.last(), at) && hidden.last().len() > shorter {
        hidden.len() - 1
    } else {
        lemma_seen_is_secret(text, hidden.drop_last(), at)
    }
}

/// What is printed from `from` on and begins with the rest of a secret that
/// does not blend is printed as it stands in the text.
proof fn lemma_print_is_text(
    text: Seq<char>,
    hidden: Seq<Seq<char>>,
    from: int,
    secret: Seq<char>,
    done: int,
)
    requires
        0 <= from <= text.len(),
        0 <= done <= secret.len(),
        !blends(secret),
        occurs_at(redacted_from(text, hidden, from), secret.skip(done), 0),
    ensures
        occurs_at(text, secret.skip(done), from),
    decreases secret.len() - done,
{
    let rest = secret.skip(done);
    let printed = redacted_from(text, hidden, from);
    if done == secret.len() {
        assert(text.subrange(from, from) =~= rest);
    } else {
        assert forall|j: int| 0 <= j < rest.len() implies #[trigger] printed[j] == secret[done + j] by {
            assert(printed.subrange(0, rest.len() as int)[j] == rest[j]);
        }
        let len = secret_len(text, hidden, from);
        if len > 0 {
            reveal_strlit("[REDACTED]");
            assert forall|j: int|
                0 <= j < secret.len() && 0 <= j - done < mark().len() implies #[trigger] secret[j]
                == mark()[j - done] by {
                assert(printed[j - done] == secret[done + (j - done)]);
                assert(printed[j - done] == mark()[j - done]);
            }
            assert(agrees(secret, -done));
        } else {
            let tail = redacted_from(text, hidden, from + 1);
            assert(printed == seq![text[from]] + tail);
            assert(printed[0] == secret[done + 0]);
            assert(tail.subrange(0, rest.len() - 1) =~= secret.skip(done + 1)) by {
                assert forall|j: int| 0 <= j < rest.len() - 1 implies #[trigger] tail[j]
                    == secret.skip(done + 1)[j] by {
                    assert(printed[j + 1] == secret[done + (j + 1)]);
                }
            }
            lemma_print_is_text(text, hidden, from + 1, secret, done + 1);
            assert(text.subrange(from, from + rest.len()) =~= rest) by {
                assert forall|j: int| 0 <= j < rest.len() implies text[from + j]
                    == #[trigger] rest[j] by {
                    if j > 0 {
                        assert(text.subrange(from + 1, from + rest.len())[j - 1] == secret.skip(
                            done + 1,
                        )[j - 1]);
                    }
                }
            }
        }
    }
}

proof fn lemma_no_secret_from(
    text: Seq<char>,
    hidden: Seq<Seq<char>>,
    from: int,
    index: int,
    at: int,
)
    requires
        0 <= from <= text.len(),
        0 <= index < hidden.len(),
        !blends(hidden[index]),
    ensures
        !occurs_at(redacted_from(text, hidden, from), hidden[index], at),
    decreases text.len() - from,
{
    let secret = hidden[index];
    let printed = redacted_from(text, hidden, from);
    reveal_strlit("[REDACTED]");
    if secret.len() == 0 {
        assert(agrees(secret, 1));
    } else if occurs_at(printed, secret, at) {
        assert forall|j: int| 0 <= j < secret.len() implies #[trigger] secret[j] == printed[at + j] by {
            assert(printed.subrange(at, at + secret.len())[j] == secret[j]);
        }
        let len = secret_len(text, hidden, from);
        if from == text.len() {
        } else if len > 0 {
            lemma_secret_fits(text, hidden, from);
            let tail = redacted_from(text, hidden, from + len);
            assert(printed == mark() + tail);
            if at < mark().len() {
                assert(agrees(secret, at));
            } else {
                assert(tail.subrange(at - mark().len(), at - mark().len() + secret.len())
                    =~= secret);
                assert(occurs_at(tail, secret, at - mark().len()));
                lemma_no_secret_from(text, hidden, from + len, index, at - mark().len());
            }
        } else {
            let tail = redacted_from(text, hidden, from + 1);
            assert(printed == seq![text[from]] + tail);
            if at == 0 {
                assert(secret.skip(0) =~= secret);
                lemma_print_is_text(text, hidden, from, secret, 0);
                lemma_secret_is_seen(text, hidden, from, index);
            } else {
                assert(tail.subrange(at - 1, at - 1 + secret.len()) =~= secret);
                assert(occurs_at(tail, secret, at - 1));
                lemma_no_secret_from(text, hidden, from + 1, index, at - 1);
            }
        }
    }
}

/// No key is printed, neither as it is nor percent-encoded: a redacted text
/// holds no secret that cannot be mistaken for a part of the mark.
pub proof fn law_no_key_is_printed(text: Seq<char>, keys: Seq<Seq<char>>, index: int)
    requires
        0 <= index < secrets(keys).len(),
        !blends(secrets(keys)[index]),
    ensures
        !occurs(redacted(text, keys), secrets(keys)[index]),
{
    let printed = redacted(text, keys);
    let secret = secrets(keys)[index];
    if occurs(printed, secret) {
        let at = choose|at: int| #[trigger] occurs_at(printed, secret, at);
        lemma_no_secret_from(text, secrets(keys), 0, index, at);
    }
}

proof fn lemma_clean_from(text: Seq<char>, hidden: Seq<Seq<char>>, from: int)
    requires
        0 <= from <= text.len(),
        forall|i: int|
            0 <= i < hidden.len() ==> (#[trigger] hidden[i]).len() == 0 || !occurs(text, hidden[i]),
    ensures
        redacted_from(text, hidden, from) == text.skip(from),
    decreases text.len() - from,
{
    if from < text.len() {
        if secret_len(text, hidden, from) > 0 {
            let index = lemma_seen_is_secret(text, hidden, from);
            assert(occurs(text, hidden[index]));
        }
        lemma_clean_from(text, hidden, from + 1);
        assert(text.skip(from) =~= seq![text[from]] + text.skip(from + 1));
    } else {
        assert(text.skip(from) =~= Seq::<char>::empty());
    }
}

/// A text that holds no key is printed as it is.
pub proof fn law_clean_text_is_printed_as_it_is(text: Seq<char>, keys: Seq<Seq<char>>)
    requires
        forall|i: int|
            0 <= i < secrets(keys).len() ==> (#[trigger] secrets(keys)[i]).len() == 0 || !occurs(
                text,
                secrets(keys)[i],
            ),
    ensures
        redacted(text, keys) == text,
{
    lemma_clean_from(text, secrets(keys), 0);
    assert(text.skip(0) =~= text);
}

/// A secret of nine characters or more without brackets blends with no mark.
pub proof fn law_ordinary_secrets_do_not_blend(secret: Seq<char>)
    requires
        secret.len() >= 9,
        forall|i: int|
            0 <= i < secret.len() ==> #[trigger] secret[i] != '[' && secret[i] != ']',
    ensures
        !blends(secret),
{
    reveal_strlit("[REDACTED]");
    if blends(secret) {
        let offset = choose|offset: int|
            -secret.len() < offset < mark().len() && #[trigger] agrees(secret, offset);
        if offset <= 0 {
            assert(secret[-offset] == mark()[-offset + offset]);
        } else {
            assert(secret[9 - offset] == mark()[9 - offset + offset]);
        }
    }
}

// Settings.

/// A trimmed text neither begins nor ends with white space, and trimming it
/// again changes nothing.
pub proof fn law_trimmed_texts_have_no_space_around(text: Seq<char>)
    ensures
        trimmed(text).len() > 0 ==> !is_space(trimmed(text).first()) && !is_space(
            trimmed(text).last(),
        ),
        trimmed(trimmed(text)) == trimmed(text),
    decreases text.len(),
{
    if text.len() > 0 {
        if is_space(text.first()) {
            law_trimmed_texts_have_no_space_around(text.drop_first());
        } else if is_space(text.last()) {
            law_trimmed_texts_have_no_space_around(text.drop_last());
        }
    }
}

/// A text has at least one part.
proof fn lemma_split_is_not_empty(text: Seq<char>, separator: char)
    ensures
        split(text, separator).len() > 0,
    decreases text.len(),
{
    if text.len() > 0 {
        lemma_split_is_not_empty(text.drop_last(), separator);
    }
}

/// Settings that are accepted name at least one key, and every key they name is
/// non-empty, without white space around it, and named once.
pub proof fn law_accepted_keys_are_usable(pairs: Seq<(Seq<char>, Seq<char>)>, index: int)
    requires
        missing(pairs).len() == 0,
        invalid(pairs).len() == 0,
    ensures
        google_keys(pairs).len() > 0,
        usable(google_keys(pairs)),
        0 <= index < google_keys(pairs).len() ==> trimmed(google_keys(pairs)[index])
            == google_keys(pairs)[index],
{
    match setting(pairs, "GOOGLE_API_KEYS"@) {
        Some(list) => {
            lemma_split_is_not_empty(list, ',');
            if 0 <= index < google_keys(pairs).len() {
                law_trimmed_texts_have_no_space_around(split(list, ',')[index]);
            }
        },
        None => {
            let value = value_of(pairs, "GOOGLE_API_KEY"@);
            law_trimmed_texts_have_no_space_around(value->0);
        },
    }
}

/// A blank list is no list: with one, the lone key is used, and where that is
/// missing too, it is what is reported missing.
pub proof fn law_a_blank_list_is_no_list(pairs: Seq<(Seq<char>, Seq<char>)>)
    requires
        value_of(pairs, "GOOGLE_API_KEYS"@) is Some,
        trimmed(value_of(pairs, "GOOGLE_API_KEYS"@)->0).len() == 0,
    ensures
        google_keys(pairs) == (match setting(pairs, "GOOGLE_API_KEY"@) {
            Some(key) => seq![key],
            None => Seq::empty(),
        }),
        invalid(pairs).len() == 0,
        setting(pairs, "GOOGLE_API_KEY"@) is None ==> missing(pairs).contains("GOOGLE_API_KEY"@),
{
    if setting(pairs, "GOOGLE_API_KEY"@) is None {
        assert(missing(pairs).last() == "GOOGLE_API_KEY"@);
    }
}

/// A list outranks a lone key: settings with the same list name the same keys
/// and have the same things wrong with them, whatever lone key they give.
pub proof fn law_a_list_outranks_a_lone_key(
    pairs: Seq<(Seq<char>, Seq<char>)>,
    other: Seq<(Seq<char>, Seq<char>)>,
)
    requires
        setting(pairs, "GOOGLE_API_KEYS"@) is Some,
        setting(other, "GOOGLE_API_KEYS"@) == setting(pairs, "GOOGLE_API_KEYS"@),
    ensures
        google_keys(pairs) == entries(setting(pairs, "GOOGLE_API_KEYS"@)->0),
        google_keys(other) == google_keys(pairs),
        invalid(other) == invalid(pairs),
{
}

} // verus!
