//! Known key failures, shared by every interview of a process, and the
//! deadlines at which they are forgotten.

use vstd::prelude::*;

use crate::failure::CredentialFailure;

verus! {

/// A reading of the process's monotonic clock, in nanoseconds.
pub type Moment = u128;

/// How long a key that ran out of quota stays out: one minute.
pub const QUOTA_COOLDOWN: Moment = 60_000_000_000;

/// How long a refused key stays out: one minute. A refusal that was about the
/// project rather than the key, and so marked every key, clears on its own; a
/// dead key costs a room one quick refusal a minute.
pub const INVALID_COOLDOWN: Moment = 60_000_000_000;

/// The two kinds of request a key serves.
#[derive(Debug, Clone, Copy, PartialEq, Eq, Structural)]
pub enum ApiSurface {
    Live,
    Report,
}

/// Whether a deadline is still ahead of `now`.
pub open spec fn is_cooling(until: Option<Moment>, now: Moment) -> bool {
    match until {
        Some(deadline) => deadline > now,
        None => false,
    }
}

/// The later of a deadline already set, if any, and a new one.
pub open spec fn extended(slot: Option<Moment>, until: Moment) -> Option<Moment> {
    match slot {
        Some(deadline) => if deadline > until {
            Some(deadline)
        } else {
            Some(until)
        },
        None => Some(until),
    }
}

/// Whether a cooldown with this deadline still holds at `now`. Pruning and
/// selection share this boundary: a cooldown is over at its deadline.
pub fn cooling_down(until: Option<Moment>, now: Moment) -> (cooling: bool)
    ensures
        cooling == is_cooling(until, now),
{
    match until {
        Some(deadline) => deadline > now,
        None => false,
    }
}

/// Moves a deadline out to `until`. A later failure must not shorten a deadline
/// already set.
pub fn extend(slot: &mut Option<Moment>, until: Moment)
    ensures
        *final(slot) == extended(*old(slot), until),
{
    let current: Option<Moment> = *slot;
    match current {
        Some(deadline) => {
            if deadline <= until {
                *slot = Some(until);
            }
        },
        None => {
            *slot = Some(until);
        },
    }
}

/// When a key comes back to each surface.
#[derive(Debug, Clone, Copy, PartialEq, Eq, Structural)]
pub struct Cooldown {
    pub live: Option<Moment>,
    pub report: Option<Moment>,
    /// Read only to decide whether an exhausted Live rotation is worth waiting
    /// out. It never outlives `live`, so pruning and selection ignore it.
    pub live_rejected: Option<Moment>,
}

impl Default for Cooldown {
    fn default() -> (cooldown: Self)
        ensures
            cooldown == Cooldown::none(),
    {
        Cooldown { live: None, report: None, live_rejected: None }
    }
}

impl Cooldown {
    /// No failure on either surface.
    pub open spec fn none() -> Cooldown {
        Cooldown { live: None, report: None, live_rejected: None }
    }

    /// The refusal mark never outlives the Live deadline.
    pub open spec fn consistent(self) -> bool {
        match self.live_rejected {
            Some(rejected) => match self.live {
                Some(live) => rejected <= live,
                None => false,
            },
            None => true,
        }
    }

    /// The deadline of one surface.
    pub open spec fn until(self, surface: ApiSurface) -> Option<Moment> {
        match surface {
            ApiSurface::Live => self.live,
            ApiSurface::Report => self.report,
        }
    }

    /// Whether the key is still out on some surface.
    pub open spec fn holds(self, now: Moment) -> bool {
        is_cooling(self.live, now) || is_cooling(self.report, now)
    }

    /// This cooldown after a failure that `surface` saw at `now`.
    pub open spec fn after(
        self,
        failure: CredentialFailure,
        surface: ApiSurface,
        now: Moment,
    ) -> Cooldown {
        let rejected = (now + INVALID_COOLDOWN) as u128;
        let spent = (now + QUOTA_COOLDOWN) as u128;
        match (failure, surface) {
            (CredentialFailure::Invalid, _) => Cooldown {
                live: extended(self.live, rejected),
                report: extended(self.report, rejected),
                live_rejected: extended(self.live_rejected, rejected),
            },
            (CredentialFailure::Refused, ApiSurface::Live) => Cooldown {
                live: extended(self.live, rejected),
                report: self.report,
                live_rejected: extended(self.live_rejected, rejected),
            },
            (CredentialFailure::Refused, ApiSurface::Report) => Cooldown {
                report: extended(self.report, rejected),
                ..self
            },
            (CredentialFailure::Quota, ApiSurface::Live) => Cooldown {
                live: extended(self.live, spent),
                ..self
            },
            (CredentialFailure::Quota, ApiSurface::Report) => Cooldown {
                report: extended(self.report, spent),
                ..self
            },
        }
    }

    /// Records a failure that `surface` saw at `now`.
    pub fn mark(&mut self, failure: CredentialFailure, surface: ApiSurface, now: Moment)
        requires
            now + INVALID_COOLDOWN <= u128::MAX,
            now + QUOTA_COOLDOWN <= u128::MAX,
        ensures
            *final(self) == old(self).after(failure, surface, now),
    {
        let rejected: u128 = now + INVALID_COOLDOWN;
        match failure {
            CredentialFailure::Invalid => {
                extend(&mut self.live, rejected);
                extend(&mut self.report, rejected);
                extend(&mut self.live_rejected, rejected);
            },
            CredentialFailure::Refused => match surface {
                ApiSurface::Live => {
                    extend(&mut self.live, rejected);
                    extend(&mut self.live_rejected, rejected);
                },
                ApiSurface::Report => {
                    extend(&mut self.report, rejected);
                },
            },
            CredentialFailure::Quota => {
                let spent: u128 = now + QUOTA_COOLDOWN;
                match surface {
                    ApiSurface::Live => {
                        extend(&mut self.live, spent);
                    },
                    ApiSurface::Report => {
                        extend(&mut self.report, spent);
                    },
                }
            },
        }
    }
}

/// Whether some entry is filed under `key`.
spec fn has_entry(entries: Seq<(String, Cooldown)>, key: Seq<char>) -> bool {
    exists|i: int| 0 <= i < entries.len() && (#[trigger] entries[i]).0@ == key
}

/// Where the entry under `key` stands.
spec fn place_of(entries: Seq<(String, Cooldown)>, key: Seq<char>) -> int {
    choose|i: int| 0 <= i < entries.len() && (#[trigger] entries[i]).0@ == key
}

/// What the entries say of each key.
spec fn entries_map(entries: Seq<(String, Cooldown)>) -> Map<Seq<char>, Cooldown> {
    Map::new(|key: Seq<char>| has_entry(entries, key), |key: Seq<char>| entries[place_of(entries, key)].1)
}

/// No key is filed twice.
spec fn distinct(entries: Seq<(String, Cooldown)>) -> bool {
    forall|i: int, j: int|
        0 <= i < j < entries.len() ==> (#[trigger] entries[i]).0@ != (#[trigger] entries[j]).0@
}

proof fn lemma_entry(entries: Seq<(String, Cooldown)>, i: int)
    requires
        distinct(entries),
        0 <= i < entries.len(),
    ensures
        entries_map(entries).contains_key(entries[i].0@),
        entries_map(entries)[entries[i].0@] == entries[i].1,
{
    let key = entries[i].0@;
    assert(has_entry(entries, key));
    let j = place_of(entries, key);
    assert(0 <= j < entries.len() && entries[j].0@ == key);
}

proof fn lemma_entry_pushed(entries: Seq<(String, Cooldown)>, entry: (String, Cooldown))
    requires
        distinct(entries),
        !has_entry(entries, entry.0@),
    ensures
        distinct(entries.push(entry)),
        entries_map(entries.push(entry)) == entries_map(entries).insert(entry.0@, entry.1),
{
    let after = entries.push(entry);
    assert forall|i: int, j: int| 0 <= i < j < after.len() implies (#[trigger] after[i]).0@ != (
    #[trigger] after[j]).0@ by {
        if j == entries.len() {
            assert(entries[i] == after[i]);
        }
    }
    assert forall|key: Seq<char>| has_entry(after, key) == (has_entry(entries, key) || key
        == entry.0@) by {
        assert(after[entries.len() as int] == entry);
        if has_entry(entries, key) {
            let i = place_of(entries, key);
            assert(after[i] == entries[i]);
        }
        if has_entry(after, key) {
            let i = place_of(after, key);
            if i < entries.len() {
                assert(after[i] == entries[i]);
            }
        }
    }
    assert forall|key: Seq<char>| has_entry(after, key) implies entries_map(after)[key]
        == entries_map(entries).insert(entry.0@, entry.1)[key] by {
        if key == entry.0@ {
            lemma_entry(after, entries.len() as int);
        } else {
            let i = place_of(entries, key);
            lemma_entry(entries, i);
            assert(after[i] == entries[i]);
            lemma_entry(after, i);
        }
    }
    assert(entries_map(after) =~= entries_map(entries).insert(entry.0@, entry.1));
}

proof fn lemma_entry_updated(entries: Seq<(String, Cooldown)>, at: int, cooldown: Cooldown)
    requires
        distinct(entries),
        0 <= at < entries.len(),
    ensures
        distinct(entries.update(at, (entries[at].0, cooldown))),
        entries_map(entries.update(at, (entries[at].0, cooldown))) == entries_map(entries).insert(
            entries[at].0@,
            cooldown,
        ),
{
    let after = entries.update(at, (entries[at].0, cooldown));
    assert forall|i: int| 0 <= i < after.len() implies (#[trigger] after[i]).0@ == entries[i].0@ by {}
    assert(distinct(after));
    assert forall|key: Seq<char>| has_entry(after, key) == has_entry(entries, key) by {
        if has_entry(entries, key) {
            let i = place_of(entries, key);
            assert(after[i].0@ == key);
        }
        if has_entry(after, key) {
            let i = place_of(after, key);
            assert(entries[i].0@ == key);
        }
    }
    assert(has_entry(entries, entries[at].0@));
    assert forall|key: Seq<char>| has_entry(after, key) implies entries_map(after)[key]
        == entries_map(entries).insert(entries[at].0@, cooldown)[key] by {
        let i = place_of(entries, key);
        lemma_entry(entries, i);
        lemma_entry(after, i);
    }
    assert(entries_map(after) =~= entries_map(entries).insert(entries[at].0@, cooldown));
}

proof fn lemma_entry_removed(entries: Seq<(String, Cooldown)>, at: int)
    requires
        distinct(entries),
        0 <= at < entries.len(),
    ensures
        distinct(entries.remove(at)),
        entries_map(entries.remove(at)) == entries_map(entries).remove(entries[at].0@),
{
    let after = entries.remove(at);
    assert forall|i: int| 0 <= i < after.len() implies #[trigger] after[i] == entries[if i < at {
        i
    } else {
        i + 1
    }] by {}
    assert(distinct(after));
    assert forall|key: Seq<char>| has_entry(after, key) == (has_entry(entries, key) && key
        != entries[at].0@) by {
        if has_entry(entries, key) && key != entries[at].0@ {
            let i = place_of(entries, key);
            let j = if i < at {
                i
            } else {
                i - 1
            };
            assert(after[j] == entries[i]);
        }
        if has_entry(after, key) {
            let i = place_of(after, key);
            let j = if i < at {
                i
            } else {
                i + 1
            };
            assert(after[i] == entries[j]);
        }
    }
    assert forall|key: Seq<char>| has_entry(after, key) implies entries_map(after)[key]
        == entries_map(entries).remove(entries[at].0@)[key] by {
        let i = place_of(after, key);
        let j = if i < at {
            i
        } else {
            i + 1
        };
        assert(after[i] == entries[j]);
        lemma_entry(after, i);
        lemma_entry(entries, j);
    }
    assert(entries_map(after) =~= entries_map(entries).remove(entries[at].0@));
}

/// The failures known at `now`: what has come back on both surfaces is gone.
pub open spec fn pruned(failures: Map<Seq<char>, Cooldown>, now: Moment) -> Map<
    Seq<char>,
    Cooldown,
> {
    Map::new(
        |key: Seq<char>| failures.contains_key(key) && failures[key].holds(now),
        |key: Seq<char>| failures[key],
    )
}

/// What is known of one key.
pub open spec fn known(failures: Map<Seq<char>, Cooldown>, key: Seq<char>) -> Cooldown {
    if failures.contains_key(key) {
        failures[key]
    } else {
        Cooldown::none()
    }
}

/// The failures of a process, by key. Interviews share one of these, so that a
/// key one of them found wanting is passed over by all. It is not printable.
pub struct Cooldowns {
    entries: Vec<(String, Cooldown)>,
}

impl View for Cooldowns {
    type V = Map<Seq<char>, Cooldown>;

    closed spec fn view(&self) -> Map<Seq<char>, Cooldown> {
        entries_map(self.entries@)
    }
}

impl Cooldowns {
    /// No key is filed twice.
    pub closed spec fn filed_once(self) -> bool {
        distinct(self.entries@)
    }

    /// No key is filed twice, and no refusal mark outlives its Live deadline.
    pub open spec fn wf(self) -> bool {
        &&& self.filed_once()
        &&& forall|key: Seq<char>| #[trigger]
            self@.contains_key(key) ==> self@[key].consistent()
    }

    /// No failure known.
    pub fn new() -> (cooldowns: Self)
        ensures
            cooldowns.wf(),
            cooldowns@ == Map::<Seq<char>, Cooldown>::empty(),
    {
        let cooldowns = Cooldowns { entries: Vec::new() };
        assert(cooldowns@ =~= Map::<Seq<char>, Cooldown>::empty());
        cooldowns
    }

    fn find(&self, key: &String) -> (place: Option<usize>)
        requires
            self.wf(),
        ensures
            match place {
                Some(i) => i < self.entries@.len() && self.entries@[i as int].0@ == key@,
                None => !has_entry(self.entries@, key@),
            },
    {
        let mut i: usize = 0;
        while i < self.entries.len()
            invariant
                i <= self.entries@.len(),
                forall|j: int| 0 <= j < i ==> (#[trigger] self.entries@[j]).0@ != key@,
            decreases self.entries@.len() - i,
        {
            if self.entries[i].0 == *key {
                return Some(i);
            }
            i += 1;
        }
        None
    }

    /// What is recorded of a key.
    pub fn get(&self, key: &str) -> (cooldown: Option<Cooldown>)
        requires
            self.wf(),
        ensures
            cooldown == (if self@.contains_key(key@) {
                Some(self@[key@])
            } else {
                None
            }),
    {
        match self.find(&key.to_owned()) {
            Some(i) => {
                proof {
                    lemma_entry(self.entries@, i as int);
                }
                Some(self.entries[i].1)
            },
            None => None,
        }
    }

    /// Drops what is recorded of a key.
    pub fn remove(&mut self, key: &str)
        requires
            old(self).wf(),
        ensures
            final(self).wf(),
            final(self)@ == old(self)@.remove(key@),
    {
        match self.find(&key.to_owned()) {
            Some(i) => {
                proof {
                    lemma_entry_removed(self.entries@, i as int);
                }
                self.entries.remove(i);
                assert(forall|other: Seq<char>| #[trigger]
                    self@.contains_key(other) ==> old(self)@.contains_key(other));
            },
            None => {
                assert(self@.remove(key@) =~= self@);
            },
        }
    }

    /// Forgets the keys that are back on both surfaces.
    pub fn prune(&mut self, now: Moment)
        requires
            old(self).wf(),
        ensures
            final(self).wf(),
            final(self)@ == pruned(old(self)@, now),
    {
        let mut i: usize = 0;
        while i < self.entries.len()
            invariant
                self.wf(),
                i <= self.entries@.len(),
                pruned(self@, now) == pruned(old(self)@, now),
                forall|j: int| 0 <= j < i ==> (#[trigger] self.entries@[j]).1.holds(now),
            decreases self.entries@.len() - i,
        {
            let cooldown: Cooldown = self.entries[i].1;
            if cooling_down(cooldown.live, now) || cooling_down(cooldown.report, now) {
                i += 1;
            } else {
                let ghost before = self@;
                proof {
                    lemma_entry(self.entries@, i as int);
                    lemma_entry_removed(self.entries@, i as int);
                }
                self.entries.remove(i);
                assert(pruned(self@, now) =~= pruned(before, now));
            }
        }
        assert forall|key: Seq<char>| self@.contains_key(key) implies self@[key].holds(now) by {
            let j = place_of(self.entries@, key);
            assert(self.entries@[j].1.holds(now));
        }
        assert(pruned(self@, now) =~= self@);
    }

    /// Records a failure of `key` that `surface` saw at `now`.
    pub fn mark(
        &mut self,
        key: &str,
        failure: CredentialFailure,
        surface: ApiSurface,
        now: Moment,
    )
        requires
            old(self).wf(),
            now + INVALID_COOLDOWN <= u128::MAX,
            now + QUOTA_COOLDOWN <= u128::MAX,
        ensures
            final(self).wf(),
            final(self)@ == old(self)@.insert(
                key@,
                known(old(self)@, key@).after(failure, surface, now),
            ),
    {
        let key: String = key.to_owned();
        match self.find(&key) {
            Some(i) => {
                let mut cooldown: Cooldown = self.entries[i].1;
                cooldown.mark(failure, surface, now);
                proof {
                    lemma_entry(self.entries@, i as int);
                    lemma_entry_updated(self.entries@, i as int, cooldown);
                }
                self.entries[i].1 = cooldown;
            },
            None => {
                let mut cooldown: Cooldown = Cooldown::default();
                cooldown.mark(failure, surface, now);
                proof {
                    lemma_entry_pushed(self.entries@, (key, cooldown));
                }
                self.entries.push((key, cooldown));
            },
        }
    }
}

} // verus!
