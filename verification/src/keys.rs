//! The keys of one interview and the order in which it turns to them.

use vstd::prelude::*;

use crate::config::AgentConfig;
use crate::cooldown::{
    cooling_down, is_cooling, known, pruned, ApiSurface, Cooldown, Cooldowns, Moment,
    INVALID_COOLDOWN, QUOTA_COOLDOWN,
};
use crate::failure::CredentialFailure;
use crate::redact::{redact_api_keys, redacted};
use crate::text::texts;

verus! {

/// The earlier of two moments, either of which may be missing.
pub open spec fn earlier(left: Option<Moment>, right: Option<Moment>) -> Option<Moment> {
    match (left, right) {
        (Some(a), Some(b)) => if b < a {
            Some(b)
        } else {
            Some(a)
        },
        (Some(a), None) => Some(a),
        (None, _) => right,
    }
}

/// The position `step` places after `start` in a ring of `len`.
pub open spec fn around(start: int, step: int, len: int) -> int {
    if start + step < len {
        start + step
    } else {
        start + step - len
    }
}

/// When a key out on Live comes back, if quota alone keeps it out at `now`. A
/// refused key would only be refused again.
pub open spec fn quota_return(cooldown: Cooldown, now: Moment) -> Option<Moment> {
    if is_cooling(cooldown.live_rejected, now) {
        None
    } else {
        cooldown.live
    }
}

/// An interview's keys in their configured order, the one Live uses, and the
/// one reports use once they have chosen theirs.
pub ghost struct Rotation {
    pub keys: Seq<Seq<char>>,
    pub live: int,
    pub report: Option<int>,
}

impl Rotation {
    /// Both selections are positions in the key list.
    pub open spec fn wf(self) -> bool {
        &&& self.live == 0 || 0 < self.live < self.keys.len()
        &&& match self.report {
            Some(report) => 0 <= report < self.keys.len(),
            None => true,
        }
    }

    pub open spec fn has_backups(self) -> bool {
        self.keys.len() > 1
    }

    /// Where a search on `surface` begins: at the key it last used. Reports
    /// that have not used one yet begin at the Live key.
    pub open spec fn start(self, surface: ApiSurface) -> int {
        match (surface, self.report) {
            (ApiSurface::Report, Some(report)) => report,
            _ => self.live,
        }
    }

    /// Whether the key at `index` can serve `surface`.
    pub open spec fn available(
        self,
        failures: Map<Seq<char>, Cooldown>,
        surface: ApiSurface,
        now: Moment,
        index: int,
    ) -> bool {
        !is_cooling(known(failures, self.keys[index]).until(surface), now)
    }

    /// The first available key that is `step` or more places after the start.
    pub open spec fn pick_from(
        self,
        failures: Map<Seq<char>, Cooldown>,
        surface: ApiSurface,
        now: Moment,
        step: int,
    ) -> Option<int>
        decreases self.keys.len() - step,
    {
        let index = around(self.start(surface), step, self.keys.len() as int);
        if step < 0 || step >= self.keys.len() {
            None
        } else if self.available(failures, surface, now, index) {
            Some(index)
        } else {
            self.pick_from(failures, surface, now, step + 1)
        }
    }

    /// The position of the key to use: the first available one from the start
    /// round. A sole key is always used.
    pub open spec fn pick(
        self,
        failures: Map<Seq<char>, Cooldown>,
        surface: ApiSurface,
        now: Moment,
    ) -> Option<int> {
        if self.has_backups() {
            self.pick_from(failures, surface, now, 0)
        } else if self.keys.len() == 1 {
            Some(0)
        } else {
            None
        }
    }

    /// This rotation once `surface` uses the key at `index`.
    pub open spec fn moved(self, surface: ApiSurface, index: int) -> Rotation {
        match surface {
            ApiSurface::Live => Rotation { live: index, ..self },
            ApiSurface::Report => Rotation { report: Some(index), ..self },
        }
    }

    /// This rotation after a selection on `surface`.
    pub open spec fn after_select(
        self,
        failures: Map<Seq<char>, Cooldown>,
        surface: ApiSurface,
        now: Moment,
    ) -> Rotation {
        match self.pick(failures, surface, now) {
            Some(index) => if self.has_backups() {
                self.moved(surface, index)
            } else {
                self
            },
            None => self,
        }
    }

    /// When the first of the first `count` keys that quota alone keeps off Live
    /// is back.
    pub open spec fn first_return(
        self,
        failures: Map<Seq<char>, Cooldown>,
        now: Moment,
        count: int,
    ) -> Option<Moment>
        decreases count,
    {
        if count <= 0 {
            None
        } else {
            earlier(
                self.first_return(failures, now, count - 1),
                quota_return(known(failures, self.keys[count - 1]), now),
            )
        }
    }

    /// When an exhausted rotation is worth another try. Reports never wait.
    pub open spec fn retry_at(
        self,
        failures: Map<Seq<char>, Cooldown>,
        surface: ApiSurface,
        now: Moment,
    ) -> Option<Moment> {
        match surface {
            ApiSurface::Live => self.first_return(failures, now, self.keys.len() as int),
            ApiSurface::Report => None,
        }
    }
}

/// No key is available, and when one will be if waiting is worth it.
#[derive(Debug, Clone, Copy, PartialEq, Eq, Structural)]
pub struct Exhausted {
    pub retry_at: Option<Moment>,
}

impl Exhausted {
    /// What to print of an exhausted rotation, which names no key.
    pub fn message(&self) -> (text: String)
        ensures
            text@ == "Gemini credentials exhausted: all configured keys are unavailable"@,
    {
        "Gemini credentials exhausted: all configured keys are unavailable".to_owned()
    }
}

/// The error of a rotation with no key available.
pub fn exhausted(retry_at: Option<Moment>) -> (error: Exhausted)
    ensures
        error.retry_at == retry_at,
{
    Exhausted { retry_at }
}

/// The positions of the keys in use.
struct Selection {
    live: usize,
    report: Option<usize>,
}

/// Selection belongs to an interview; known failures belong to the process.
/// Neither this type nor the shared record is printable.
///
/// A sole key is never taken out of rotation. Marking it would only turn one
/// failure into a refusal of every room this process is handed, or of every
/// restart inside a cooldown, with nothing to move to instead. It keeps the
/// retry budgets it had without failover, and a rejection is reported by the
/// caller that saw it.
pub struct GeminiKeys {
    keys: Vec<String>,
    current: Selection,
}

impl View for GeminiKeys {
    type V = Rotation;

    closed spec fn view(&self) -> Rotation {
        Rotation {
            keys: texts(self.keys@),
            live: self.current.live as int,
            report: match self.current.report {
                Some(report) => Some(report as int),
                None => None,
            },
        }
    }
}

/// Two records under which the same keys are available lead to the same key.
pub proof fn lemma_same_search(
    rotation: Rotation,
    left: Map<Seq<char>, Cooldown>,
    right: Map<Seq<char>, Cooldown>,
    surface: ApiSurface,
    now: Moment,
    step: int,
)
    requires
        rotation.wf(),
        0 <= step,
        forall|i: int|
            0 <= i < rotation.keys.len() ==> #[trigger] rotation.available(left, surface, now, i)
                == rotation.available(right, surface, now, i),
    ensures
        rotation.pick_from(left, surface, now, step) == rotation.pick_from(
            right,
            surface,
            now,
            step,
        ),
    decreases rotation.keys.len() - step,
{
    if step < rotation.keys.len() {
        let index = around(rotation.start(surface), step, rotation.keys.len() as int);
        assert(rotation.available(left, surface, now, index) == rotation.available(
            right,
            surface,
            now,
            index,
        ));
        lemma_same_search(rotation, left, right, surface, now, step + 1);
    }
}

/// Where every key is out on Live, pruning at an earlier moment does not change
/// when the first one is back.
pub proof fn lemma_pruned_return(
    rotation: Rotation,
    failures: Map<Seq<char>, Cooldown>,
    now: Moment,
    later: Moment,
    count: int,
)
    requires
        now <= later,
        count <= rotation.keys.len(),
        forall|i: int|
            0 <= i < rotation.keys.len() ==> !#[trigger] rotation.available(
                failures,
                ApiSurface::Live,
                later,
                i,
            ),
    ensures
        rotation.first_return(pruned(failures, now), later, count) == rotation.first_return(
            failures,
            later,
            count,
        ),
    decreases count,
{
    if count > 0 {
        lemma_pruned_return(rotation, failures, now, later, count - 1);
        assert(!rotation.available(failures, ApiSurface::Live, later, count - 1));
    }
}

/// A search that comes back empty has been past every key.
proof fn lemma_none_available(
    rotation: Rotation,
    failures: Map<Seq<char>, Cooldown>,
    surface: ApiSurface,
    now: Moment,
    step: int,
)
    requires
        rotation.wf(),
        rotation.keys.len() > 0,
        0 <= step,
        rotation.pick_from(failures, surface, now, step) is None,
    ensures
        forall|s: int|
            step <= s < rotation.keys.len() ==> !rotation.available(
                failures,
                surface,
                now,
                #[trigger] around(rotation.start(surface), s, rotation.keys.len() as int),
            ),
    decreases rotation.keys.len() - step,
{
    if step < rotation.keys.len() {
        lemma_none_available(rotation, failures, surface, now, step + 1);
    }
}

/// An exhausted rotation has every key out.
pub proof fn lemma_exhausted_means_all_out(
    rotation: Rotation,
    failures: Map<Seq<char>, Cooldown>,
    surface: ApiSurface,
    now: Moment,
)
    requires
        rotation.wf(),
        rotation.has_backups(),
        rotation.pick(failures, surface, now) is None,
    ensures
        forall|i: int|
            0 <= i < rotation.keys.len() ==> !#[trigger] rotation.available(
                failures,
                surface,
                now,
                i,
            ),
{
    let len = rotation.keys.len() as int;
    let start = rotation.start(surface);
    lemma_none_available(rotation, failures, surface, now, 0);
    assert forall|i: int| 0 <= i < len implies !#[trigger] rotation.available(
        failures,
        surface,
        now,
        i,
    ) by {
        let step = if i >= start {
            i - start
        } else {
            i - start + len
        };
        assert(around(start, step, len) == i);
    }
}

impl GeminiKeys {
    /// Both selections are positions in the key list.
    pub open spec fn wf(self) -> bool {
        self@.wf()
    }

    /// A rotation over `keys`, starting with the first.
    pub fn new(keys: Vec<String>) -> (rotation: Self)
        ensures
            rotation.wf(),
            rotation@ == (Rotation { keys: texts(keys@), live: 0, report: None }),
    {
        GeminiKeys { keys, current: Selection { live: 0, report: None } }
    }

    /// A rotation over the configured keys, in their order.
    pub fn from_config(config: &AgentConfig) -> (rotation: Self)
        ensures
            rotation.wf(),
            rotation@ == (Rotation {
                keys: texts(config.google_api_keys@),
                live: 0,
                report: None,
            }),
    {
        let keys: Vec<String> = config.google_api_keys.clone();
        assert(texts(keys@) =~= texts(config.google_api_keys@));
        Self::new(keys)
    }

    /// A rotation over one key, or over none where `key` is empty.
    pub fn single(key: &str) -> (rotation: Self)
        ensures
            rotation.wf(),
            rotation@ == (Rotation {
                keys: if key@.len() == 0 {
                    Seq::<Seq<char>>::empty()
                } else {
                    seq![key@]
                },
                live: 0,
                report: None,
            }),
    {
        let mut keys: Vec<String> = Vec::new();
        if !key.is_empty() {
            keys.push(key.to_owned());
        }
        assert(texts(keys@) =~= if key@.len() == 0 {
            Seq::<Seq<char>>::empty()
        } else {
            seq![key@]
        });
        Self::new(keys)
    }

    /// Whether there is a key to move to.
    pub fn has_backups(&self) -> (backups: bool)
        ensures
            backups == self@.has_backups(),
    {
        self.keys.len() > 1
    }

    /// How many keys there are.
    pub fn count(&self) -> (count: usize)
        ensures
            count == self@.keys.len(),
    {
        self.keys.len()
    }

    /// The keys that must not be printed: all of them.
    pub fn redaction_keys(&self) -> (keys: Vec<String>)
        ensures
            texts(keys@) == self@.keys,
    {
        let keys: Vec<String> = self.keys.clone();
        assert(texts(keys@) =~= texts(self.keys@));
        keys
    }

    /// The key to open Live with.
    pub fn select(&mut self, cooldowns: &mut Cooldowns, now: Moment) -> (key: Result<
        String,
        Exhausted,
    >)
        requires
            old(self).wf(),
            old(cooldowns).wf(),
        ensures
            selects(
                *old(self),
                *old(cooldowns),
                ApiSurface::Live,
                now,
                key,
                *final(self),
                *final(cooldowns),
            ),
    {
        self.select_for(cooldowns, ApiSurface::Live, now)
    }

    /// The key to request a report with.
    pub fn select_report(&mut self, cooldowns: &mut Cooldowns, now: Moment) -> (key: Result<
        String,
        Exhausted,
    >)
        requires
            old(self).wf(),
            old(cooldowns).wf(),
        ensures
            selects(
                *old(self),
                *old(cooldowns),
                ApiSurface::Report,
                now,
                key,
                *final(self),
                *final(cooldowns),
            ),
    {
        self.select_for(cooldowns, ApiSurface::Report, now)
    }

    /// The key that `surface` should use at `now`: the one it last used while
    /// that is available, else the next available one in order.
    pub fn select_for(
        &mut self,
        cooldowns: &mut Cooldowns,
        surface: ApiSurface,
        now: Moment,
    ) -> (key: Result<String, Exhausted>)
        requires
            old(self).wf(),
            old(cooldowns).wf(),
        ensures
            selects(
                *old(self),
                *old(cooldowns),
                surface,
                now,
                key,
                *final(self),
                *final(cooldowns),
            ),
    {
        // Short of the shared record as well, which another interview's list
        // holding the same key string would otherwise write for it.
        if !self.has_backups() {
            return match self.keys.len() {
                0 => Err(exhausted(None)),
                _ => Ok(self.keys[0].clone()),
            };
        }
        let ghost failures = cooldowns@;
        let ghost rotation = self@;
        cooldowns.prune(now);
        let len: usize = self.keys.len();
        let start: usize = match surface {
            ApiSurface::Live => self.current.live,
            ApiSurface::Report => match self.current.report {
                Some(report) => report,
                None => self.current.live,
            },
        };
        proof {
            lemma_same_search(rotation, pruned(failures, now), failures, surface, now, 0);
        }
        let mut step: usize = 0;
        while step < len
            invariant
                self@ == rotation,
                rotation.wf(),
                rotation.has_backups(),
                len == self.keys@.len(),
                len == rotation.keys.len(),
                start == rotation.start(surface),
                start < len,
                step <= len,
                cooldowns.wf(),
                cooldowns@ == pruned(failures, now),
                old(self)@ == rotation,
                old(cooldowns)@ == failures,
                rotation.pick(failures, surface, now) == rotation.pick_from(
                    cooldowns@,
                    surface,
                    now,
                    step as int,
                ),
            decreases len - step,
        {
            let index: usize = if step < len - start {
                start + step
            } else {
                step - (len - start)
            };
            assert(index == around(start as int, step as int, len as int));
            assert(self.keys@[index as int]@ == rotation.keys[index as int]);
            let out: bool = match cooldowns.get(self.keys[index].as_str()) {
                Some(cooldown) => cooling_down(
                    match surface {
                        ApiSurface::Live => cooldown.live,
                        ApiSurface::Report => cooldown.report,
                    },
                    now,
                ),
                None => false,
            };
            if !out {
                match surface {
                    ApiSurface::Live => {
                        self.current.live = index;
                    },
                    ApiSurface::Report => {
                        self.current.report = Some(index);
                    },
                }
                return Ok(self.keys[index].clone());
            }
            step += 1;
        }
        proof {
            lemma_exhausted_means_all_out(rotation, failures, surface, now);
        }
        match surface {
            ApiSurface::Live => {
                proof {
                    lemma_pruned_return(rotation, failures, now, now, len as int);
                }
                Err(exhausted(self.quota_back(cooldowns, now)))
            },
            ApiSurface::Report => Err(exhausted(None)),
        }
    }

    /// When the first Live key that is out on quota alone is back.
    fn quota_back(&self, cooldowns: &Cooldowns, now: Moment) -> (back: Option<Moment>)
        requires
            cooldowns.wf(),
        ensures
            back == self@.first_return(cooldowns@, now, self@.keys.len() as int),
    {
        let mut back: Option<Moment> = None;
        let mut i: usize = 0;
        while i < self.keys.len()
            invariant
                i <= self.keys@.len(),
                cooldowns.wf(),
                back == self@.first_return(cooldowns@, now, i as int),
            decreases self.keys@.len() - i,
        {
            assert(self.keys@[i as int]@ == self@.keys[i as int]);
            let candidate: Option<Moment> = match cooldowns.get(self.keys[i].as_str()) {
                Some(cooldown) => if cooling_down(cooldown.live_rejected, now) {
                    None
                } else {
                    cooldown.live
                },
                None => None,
            };
            back = match (back, candidate) {
                (Some(first), Some(moment)) => if moment < first {
                    Some(moment)
                } else {
                    Some(first)
                },
                (Some(first), None) => Some(first),
                (None, _) => candidate,
            };
            i += 1;
        }
        back
    }

    /// Records that `key` failed on `surface` at `now`, for every interview. A
    /// sole key is never marked.
    pub fn failed(
        &self,
        cooldowns: &mut Cooldowns,
        key: &str,
        failure: CredentialFailure,
        surface: ApiSurface,
        now: Moment,
    )
        requires
            old(cooldowns).wf(),
            self@.has_backups() ==> now + INVALID_COOLDOWN <= u128::MAX && now + QUOTA_COOLDOWN
                <= u128::MAX,
        ensures
            final(cooldowns).wf(),
            final(cooldowns)@ == after_failure(
                self@,
                old(cooldowns)@,
                key@,
                failure,
                surface,
                now,
            ),
    {
        if !self.has_backups() {
            return;
        }
        cooldowns.mark(key, failure, surface, now);
    }

    /// A text to print, with no key of this rotation in it.
    pub fn redact(&self, text: &str) -> (printed: String)
        ensures
            printed@ == redacted(text@, self@.keys),
    {
        redact_api_keys(text, &self.keys)
    }
}

/// The known failures once `rotation` has reported that `key` failed.
pub open spec fn after_failure(
    rotation: Rotation,
    failures: Map<Seq<char>, Cooldown>,
    key: Seq<char>,
    failure: CredentialFailure,
    surface: ApiSurface,
    now: Moment,
) -> Map<Seq<char>, Cooldown> {
    if rotation.has_backups() {
        failures.insert(key, known(failures, key).after(failure, surface, now))
    } else {
        failures
    }
}

/// The known failures once `rotation` has selected a key.
pub open spec fn after_selection(
    rotation: Rotation,
    failures: Map<Seq<char>, Cooldown>,
    now: Moment,
) -> Map<Seq<char>, Cooldown> {
    if rotation.has_backups() {
        pruned(failures, now)
    } else {
        failures
    }
}

/// What a selection on `surface` at `now` returns and leaves behind.
pub open spec fn selects(
    before: GeminiKeys,
    shared_before: Cooldowns,
    surface: ApiSurface,
    now: Moment,
    key: Result<String, Exhausted>,
    after: GeminiKeys,
    shared_after: Cooldowns,
) -> bool {
    &&& after.wf()
    &&& shared_after.wf()
    &&& after@ == before@.after_select(shared_before@, surface, now)
    &&& shared_after@ == after_selection(before@, shared_before@, now)
    &&& match before@.pick(shared_before@, surface, now) {
        Some(index) => key matches Ok(text) && text@ == before@.keys[index],
        None => key matches Err(error) && error.retry_at == before@.retry_at(
            shared_before@,
            surface,
            now,
        ),
    }
}

} // verus!
