//! What a failed Gemini call says about the key it was made with.

use vstd::prelude::*;
use vstd::string::*;

use crate::cooldown::Moment;
use crate::json::{json_of, member, parse, parsed, Json};
use crate::keys::Exhausted;
use crate::text::{
    chars_of, contains, decimal, lower, occurs, optional, push_decimal, slices, to_lower, to_upper,
    upper,
};

verus! {

/// What a failed call says about the key it was made with.
#[derive(Debug, Clone, Copy, PartialEq, Eq, Structural)]
pub enum CredentialFailure {
    Quota,
    Invalid,
    /// A 403 that says nothing about why. It may be about what this surface
    /// asked for rather than the key, such as a report model the project cannot
    /// use, so it takes the key off that surface alone.
    Refused,
}

/// The reasons Google gives for refusing a key. A response carries them as
/// `details[].reason`, a Live close frame only inside its reason text, so both
/// classifiers read this list and the next.
pub open spec fn invalid_codes() -> Seq<Seq<char>> {
    seq![
        "API_KEY_INVALID"@,
        "API_KEY_EXPIRED"@,
        "API_KEY_SERVICE_BLOCKED"@,
        "API_KEY_IP_ADDRESS_BLOCKED"@,
        "API_KEY_HTTP_REFERRER_BLOCKED"@,
        "API_KEY_ANDROID_APP_BLOCKED"@,
        "API_KEY_IOS_APP_BLOCKED"@,
    ]
}

/// The reasons Google gives for refusing a key on quota.
pub open spec fn quota_codes() -> Seq<Seq<char>> {
    seq!["QUOTA_EXCEEDED"@, "RATE_LIMIT_EXCEEDED"@]
}

/// The phrases in which a message says that quota is spent.
pub open spec fn quota_phrases() -> Seq<Seq<char>> {
    seq!["resource_exhausted"@, "quota exceeded"@, "quota exhausted"@]
}

/// The phrases in which a message refuses a key.
pub open spec fn invalid_phrases() -> Seq<Seq<char>> {
    seq![
        "api key not valid"@,
        "api key was reported as leaked"@,
        "api key has expired"@,
        "api key is disabled"@,
    ]
}

/// Whether one of `needles` stands in `text`.
pub open spec fn names_any(text: Seq<char>, needles: Seq<Seq<char>>) -> bool {
    exists|i: int| 0 <= i < needles.len() && occurs(text, #[trigger] needles[i])
}

/// What a message or a close reason says about the key, in any case.
pub open spec fn reason_failure(reason: Seq<char>) -> Option<CredentialFailure> {
    if names_any(lower(reason), quota_phrases()) || names_any(upper(reason), quota_codes()) {
        Some(CredentialFailure::Quota)
    } else if names_any(lower(reason), invalid_phrases()) || names_any(
        upper(reason),
        invalid_codes(),
    ) {
        Some(CredentialFailure::Invalid)
    } else {
        None
    }
}

fn invalid_reasons() -> (codes: Vec<&'static str>)
    ensures
        slices(codes@) == invalid_codes(),
{
    let codes: Vec<&'static str> = vec![
        "API_KEY_INVALID",
        "API_KEY_EXPIRED",
        "API_KEY_SERVICE_BLOCKED",
        "API_KEY_IP_ADDRESS_BLOCKED",
        "API_KEY_HTTP_REFERRER_BLOCKED",
        "API_KEY_ANDROID_APP_BLOCKED",
        "API_KEY_IOS_APP_BLOCKED",
    ];
    assert(slices(codes@) =~= invalid_codes());
    codes
}

fn quota_reasons() -> (codes: Vec<&'static str>)
    ensures
        slices(codes@) == quota_codes(),
{
    let codes: Vec<&'static str> = vec!["QUOTA_EXCEEDED", "RATE_LIMIT_EXCEEDED"];
    assert(slices(codes@) =~= quota_codes());
    codes
}

fn names(text: &Vec<char>, needles: &Vec<&'static str>) -> (named: bool)
    ensures
        named == names_any(text@, slices(needles@)),
{
    let mut i: usize = 0;
    while i < needles.len()
        invariant
            i <= needles@.len(),
            forall|j: int| 0 <= j < i ==> !occurs(text@, #[trigger] slices(needles@)[j]),
        decreases needles@.len() - i,
    {
        assert(slices(needles@)[i as int] == needles@[i as int]@);
        if contains(text, needles[i]) {
            return true;
        }
        i += 1;
    }
    false
}

/// What a message or a close reason says about the key, in any case.
pub fn failure_from_reason(reason: &str) -> (failure: Option<CredentialFailure>)
    ensures
        failure == reason_failure(reason@),
{
    let chars: Vec<char> = chars_of(reason);
    let code: Vec<char> = to_upper(&chars);
    let message: Vec<char> = to_lower(&chars);
    let spent: Vec<&'static str> = vec!["resource_exhausted", "quota exceeded", "quota exhausted"];
    let refused: Vec<&'static str> = vec![
        "api key not valid",
        "api key was reported as leaked",
        "api key has expired",
        "api key is disabled",
    ];
    assert(slices(spent@) =~= quota_phrases());
    assert(slices(refused@) =~= invalid_phrases());
    if names(&message, &spent) || names(&code, &quota_reasons()) {
        Some(CredentialFailure::Quota)
    } else if names(&message, &refused) || names(&code, &invalid_reasons()) {
        Some(CredentialFailure::Invalid)
    } else {
        None
    }
}

/// What an error response says of itself.
pub ghost struct ErrorModel {
    /// `error.status`.
    pub status: Option<Seq<char>>,
    /// `error.message`.
    pub message: Option<Seq<char>>,
    /// `error.details[].reason`, `None` for a detail that gives none.
    pub reasons: Seq<Option<Seq<char>>>,
}

impl ErrorModel {
    /// A response that says nothing.
    pub open spec fn silent() -> ErrorModel {
        ErrorModel { status: None, message: None, reasons: Seq::empty() }
    }

    /// What a response body says.
    pub open spec fn of(body: Json) -> ErrorModel {
        let error = body.member("error"@);
        ErrorModel {
            status: error.member("status"@).text(),
            message: error.member("message"@).text(),
            reasons: match error.member("details"@).items() {
                Some(details) => details.map_values(
                    |detail: Json| detail.member("reason"@).text(),
                ),
                None => Seq::empty(),
            },
        }
    }

    /// Whether a detail gives one of `codes` as its reason.
    pub open spec fn gives(self, codes: Seq<Seq<char>>) -> bool {
        exists|i: int, j: int|
            0 <= i < self.reasons.len() && 0 <= j < codes.len() && #[trigger] self.reasons[i]
                == Some(#[trigger] codes[j])
    }

    /// What the message says, which is nothing where there is none.
    pub open spec fn message_failure(self) -> Option<CredentialFailure> {
        match self.message {
            Some(message) => reason_failure(message),
            None => reason_failure(Seq::empty()),
        }
    }

    /// Whether the status or a detail says that quota is spent.
    pub open spec fn spent(self) -> bool {
        self.status == Some("RESOURCE_EXHAUSTED"@) || self.gives(quota_codes())
    }
}

/// What a response says about the key it was asked with.
pub open spec fn response_failure(status: u16, report: ErrorModel) -> Option<CredentialFailure> {
    if status == 429 {
        Some(CredentialFailure::Quota)
    } else if status == 401 {
        Some(CredentialFailure::Invalid)
    } else if status == 400 || status == 403 {
        if report.gives(invalid_codes()) {
            Some(CredentialFailure::Invalid)
        } else if report.spent() {
            Some(CredentialFailure::Quota)
        } else if report.message_failure() is Some {
            report.message_failure()
        } else if status == 403 {
            Some(CredentialFailure::Refused)
        } else {
            None
        }
    } else {
        None
    }
}

/// What an error response says of itself.
pub struct ErrorReport {
    pub status: Option<String>,
    pub message: Option<String>,
    pub reasons: Vec<Option<String>>,
}

impl View for ErrorReport {
    type V = ErrorModel;

    open spec fn view(&self) -> ErrorModel {
        ErrorModel {
            status: optional(self.status),
            message: optional(self.message),
            reasons: self.reasons@.map_values(|reason: Option<String>| optional(reason)),
        }
    }
}

fn owned(text: Option<&str>) -> (copy: Option<String>)
    ensures
        match text {
            Some(text) => optional(copy) == Some(text@),
            None => optional(copy) is None,
        },
{
    match text {
        Some(text) => Some(text.to_owned()),
        None => None,
    }
}

impl ErrorReport {
    /// A response that says nothing, such as a handshake refused without a body.
    pub fn silent() -> (report: Self)
        ensures
            report@ == ErrorModel::silent(),
    {
        let report = ErrorReport { status: None, message: None, reasons: Vec::new() };
        assert(report@.reasons =~= Seq::<Option<Seq<char>>>::empty());
        report
    }

    /// What a response body says.
    pub fn of(body: &serde_json::Value) -> (report: Self)
        ensures
            report@ == ErrorModel::of(json_of(*body)),
    {
        let error: &serde_json::Value = member(body, "error");
        let mut reasons: Vec<Option<String>> = Vec::new();
        match member(error, "details").as_array() {
            Some(details) => {
                let ghost said = json_of(*body).member("error"@).member("details"@).items()->0;
                let mut i: usize = 0;
                while i < details.len()
                    invariant
                        i <= details@.len(),
                        said == details@.map_values(|item: serde_json::Value| json_of(item)),
                        reasons@.len() == i,
                        forall|j: int|
                            0 <= j < i ==> optional(#[trigger] reasons@[j]) == said[j].member(
                                "reason"@,
                            ).text(),
                    decreases details@.len() - i,
                {
                    reasons.push(owned(member(&details[i], "reason").as_str()));
                    i += 1;
                }
            },
            None => {},
        }
        let report = ErrorReport {
            status: owned(member(error, "status").as_str()),
            message: owned(member(error, "message").as_str()),
            reasons,
        };
        assert(report@.reasons =~= ErrorModel::of(json_of(*body)).reasons);
        report
    }

    fn gives(&self, codes: &Vec<&'static str>) -> (given: bool)
        ensures
            given == self@.gives(slices(codes@)),
    {
        let mut i: usize = 0;
        while i < self.reasons.len()
            invariant
                i <= self.reasons@.len(),
                forall|k: int, j: int|
                    0 <= k < i && 0 <= j < codes@.len() ==> #[trigger] self@.reasons[k] != Some(
                        #[trigger] slices(codes@)[j],
                    ),
            decreases self.reasons@.len() - i,
        {
            assert(self@.reasons[i as int] == optional(self.reasons@[i as int]));
            if let Some(reason) = &self.reasons[i] {
                let mut j: usize = 0;
                while j < codes.len()
                    invariant
                        i < self.reasons@.len(),
                        j <= codes@.len(),
                        self@.reasons[i as int] == Some(reason@),
                        forall|k: int|
                            0 <= k < j ==> reason@ != #[trigger] slices(codes@)[k],
                    decreases codes@.len() - j,
                {
                    assert(slices(codes@)[j as int] == codes@[j as int]@);
                    if *reason == codes[j].to_owned() {
                        return true;
                    }
                    j += 1;
                }
            }
            i += 1;
        }
        false
    }
}

/// A call that Gemini answered with an error, or did not answer.
#[derive(Debug)]
pub struct ApiFailure {
    pub status: u16,
    pub credential: Option<CredentialFailure>,
    pub detail: Option<String>,
}

impl ApiFailure {
    /// Classifies a response from its status and body.
    pub fn from_response(status: u16, body: &serde_json::Value) -> (failure: Self)
        ensures
            failure.status == status,
            failure.credential == response_failure(status, ErrorModel::of(json_of(*body))),
            failure.detail is None,
    {
        Self::from_report(status, &ErrorReport::of(body))
    }

    /// Classifies a response from its status and what it says.
    pub fn from_report(status: u16, report: &ErrorReport) -> (failure: Self)
        ensures
            failure.status == status,
            failure.credential == response_failure(status, report@),
            failure.detail is None,
    {
        let credential: Option<CredentialFailure> = if status == 429 {
            Some(CredentialFailure::Quota)
        } else if status == 401 {
            Some(CredentialFailure::Invalid)
        } else if status == 400 || status == 403 {
            let exhausted: bool = match &report.status {
                Some(text) => *text == "RESOURCE_EXHAUSTED".to_owned(),
                None => false,
            };
            let said: Option<CredentialFailure> = match &report.message {
                Some(message) => failure_from_reason(message.as_str()),
                None => failure_from_reason(String::new().as_str()),
            };
            if report.gives(&invalid_reasons()) {
                Some(CredentialFailure::Invalid)
            } else if exhausted || report.gives(&quota_reasons()) {
                Some(CredentialFailure::Quota)
            } else if said.is_some() {
                said
            } else if status == 403 {
                // A 403 nothing above explains is still a refusal of this key,
                // and usually the one with no body to explain it: a WebSocket
                // handshake rejection carries none. Retrying the same key
                // spends the budget while the backups sit idle. The mark
                // expires, so a refusal that was about the project rather than
                // the key does not empty the rotation for good. A 400 stays
                // reason-based, because a malformed request would otherwise be
                // charged to every key in turn.
                Some(CredentialFailure::Refused)
            } else {
                None
            }
        } else {
            None
        };
        ApiFailure { status, credential, detail: None }
    }

    /// What is printed of this failure.
    pub open spec fn message_text(self) -> Seq<char> {
        match (self.detail, self.credential) {
            (Some(detail), _) => detail@,
            (None, Some(CredentialFailure::Quota)) => "Gemini quota exhausted"@,
            (None, Some(_)) => "Gemini credential rejected"@,
            (None, None) => if self.status == 0 {
                "Gemini connection or setup failed"@
            } else {
                "Gemini request rejected (status="@ + decimal(self.status as nat) + ")"@
            },
        }
    }

    /// What to print of this failure.
    pub fn message(&self) -> (text: String)
        ensures
            text@ == self.message_text(),
    {
        if let Some(detail) = &self.detail {
            return detail.clone();
        }
        match self.credential {
            Some(CredentialFailure::Quota) => {
                return "Gemini quota exhausted".to_owned();
            },
            Some(CredentialFailure::Invalid) | Some(CredentialFailure::Refused) => {
                return "Gemini credential rejected".to_owned();
            },
            None => {},
        }
        if self.status == 0 {
            return "Gemini connection or setup failed".to_owned();
        }
        let mut text: String = "Gemini request rejected (status=".to_owned();
        push_decimal(&mut text, self.status);
        text.append(")");
        text
    }
}

/// What a failed call came back with, as far as it bears on credentials.
pub enum CallError {
    /// No key was available to make it with.
    Exhausted(Exhausted),
    /// Gemini answered with an error, or did not answer.
    Api(ApiFailure),
    /// The WebSocket handshake was refused with an HTTP response.
    Handshake { status: u16, body: Option<Vec<u8>> },
    /// Anything else, which says nothing about a key.
    Other,
}

/// When an exhausted Live rotation has a key back from its quota cooldown.
pub fn exhausted_until(error: &CallError) -> (moment: Option<Moment>)
    ensures
        moment == (match *error {
            CallError::Exhausted(error) => error.retry_at,
            _ => None,
        }),
{
    match error {
        CallError::Exhausted(error) => error.retry_at,
        _ => None,
    }
}

/// The JSON document in a response body; null where there is none.
pub open spec fn body_json(body: Option<Vec<u8>>) -> Json {
    match body {
        Some(bytes) => match parsed(bytes@) {
            Some(document) => document,
            None => Json::Null,
        },
        None => Json::Null,
    }
}

/// What a failed call says about the key it was made with.
pub fn credential_failure(error: &CallError) -> (failure: Option<CredentialFailure>)
    ensures
        failure == (match *error {
            CallError::Api(error) => error.credential,
            CallError::Handshake { status, body } => response_failure(
                status,
                ErrorModel::of(body_json(body)),
            ),
            _ => None,
        }),
{
    match error {
        CallError::Api(error) => error.credential,
        CallError::Handshake { status, body } => {
            let document: Option<serde_json::Value> = match body {
                Some(bytes) => parse(bytes.as_slice()),
                None => None,
            };
            match document {
                Some(value) => ApiFailure::from_response(*status, &value).credential,
                None => {
                    assert(ErrorModel::of(Json::Null) == ErrorModel::silent());
                    ApiFailure::from_report(*status, &ErrorReport::silent()).credential
                },
            }
        },
        _ => None,
    }
}

} // verus!
