//! Where an interview's keys come from: the settings of its process.

use vstd::prelude::*;
use vstd::string::*;

use crate::text::{
    chars_of, joined, optional, split, split_on, string_of, texts, trim, trimmed, views,
};

verus! {

/// The names and values of some settings.
pub open spec fn settings(pairs: Seq<(&str, &str)>) -> Seq<(Seq<char>, Seq<char>)> {
    pairs.map_values(|pair: (&str, &str)| (pair.0@, pair.1@))
}

/// The value under `name`. A later one replaces an earlier one.
pub open spec fn value_of(pairs: Seq<(Seq<char>, Seq<char>)>, name: Seq<char>) -> Option<Seq<char>>
    decreases pairs.len(),
{
    if pairs.len() == 0 {
        None
    } else if pairs.last().0 == name {
        Some(pairs.last().1)
    } else {
        value_of(pairs.drop_last(), name)
    }
}

/// The value under `name` without the white space around it. A blank value is
/// how an unset variable usually arrives, so it counts as unset.
pub open spec fn setting(pairs: Seq<(Seq<char>, Seq<char>)>, name: Seq<char>) -> Option<Seq<char>> {
    match value_of(pairs, name) {
        Some(value) => if trimmed(value).len() > 0 {
            Some(trimmed(value))
        } else {
            None
        },
        None => None,
    }
}

/// The entries of a key list, without the white space around them.
pub open spec fn entries(list: Seq<char>) -> Seq<Seq<char>> {
    split(list, ',').map_values(|entry: Seq<char>| trimmed(entry))
}

/// Whether a key list can be used: every entry is a key, and none comes twice.
pub open spec fn usable(keys: Seq<Seq<char>>) -> bool {
    &&& forall|i: int| 0 <= i < keys.len() ==> (#[trigger] keys[i]).len() > 0
    &&& forall|i: int, j: int| 0 <= i < j < keys.len() ==> #[trigger] keys[i] != #[trigger] keys[j]
}

/// The keys that the settings name, in order. A list outranks a lone key.
pub open spec fn google_keys(pairs: Seq<(Seq<char>, Seq<char>)>) -> Seq<Seq<char>> {
    match setting(pairs, "GOOGLE_API_KEYS"@) {
        Some(list) => entries(list),
        None => match setting(pairs, "GOOGLE_API_KEY"@) {
            Some(key) => seq![key],
            None => Seq::empty(),
        },
    }
}

/// `name` where it is unset, and nothing otherwise.
pub open spec fn unset(pairs: Seq<(Seq<char>, Seq<char>)>, name: Seq<char>) -> Seq<Seq<char>> {
    match setting(pairs, name) {
        Some(_) => Seq::empty(),
        None => seq![name],
    }
}

/// The names of the settings that are required and not there.
pub open spec fn missing(pairs: Seq<(Seq<char>, Seq<char>)>) -> Seq<Seq<char>> {
    unset(pairs, "LIVEKIT_URL"@) + unset(pairs, "LIVEKIT_API_KEY"@) + unset(
        pairs,
        "LIVEKIT_API_SECRET"@,
    ) + (match setting(pairs, "GOOGLE_API_KEYS"@) {
        Some(_) => Seq::empty(),
        None => unset(pairs, "GOOGLE_API_KEY"@),
    })
}

/// What is wrong with the settings that are there. No value is repeated.
pub open spec fn invalid(pairs: Seq<(Seq<char>, Seq<char>)>) -> Seq<Seq<char>> {
    match setting(pairs, "GOOGLE_API_KEYS"@) {
        Some(list) => if usable(entries(list)) {
            Seq::empty()
        } else {
            seq!["GOOGLE_API_KEYS must list non-empty, distinct keys"@]
        },
        None => Seq::empty(),
    }
}

/// The settings an interview runs with.
pub struct AgentConfig {
    pub livekit_url: String,
    pub livekit_api_key: String,
    pub livekit_api_secret: String,
    pub google_api_keys: Vec<String>,
}

/// Why the settings cannot be used.
pub struct ConfigError {
    /// The names of settings that are required and not there.
    pub missing_keys: Vec<String>,
    /// What is wrong with the settings that are there.
    pub invalid_entries: Vec<String>,
}

impl ConfigError {
    /// The problems, one text each.
    pub open spec fn problems(self) -> Seq<Seq<char>> {
        texts(self.missing_keys@).map_values(|name: Seq<char>| name + " is required"@) + texts(
            self.invalid_entries@,
        )
    }

    /// What to print of this error: the problems in a row.
    pub fn message(&self) -> (text: String)
        ensures
            text@ == joined(self.problems(), "; "@),
    {
        let mut text: String = String::new();
        let ghost problems = self.problems();
        let first: usize = self.missing_keys.len();
        let mut i: usize = 0;
        while i < first
            invariant
                problems == self.problems(),
                first == self.missing_keys@.len(),
                i <= first,
                text@ == joined(problems.take(i as int), "; "@),
            decreases first - i,
        {
            if i > 0 {
                text.append("; ");
            }
            text.append(self.missing_keys[i].as_str());
            text.append(" is required");
            proof {
                assert(problems.take(i + 1).drop_last() =~= problems.take(i as int));
                assert(problems[i as int] =~= self.missing_keys@[i as int]@ + " is required"@);
                assert(problems.take(i + 1).last() == problems[i as int]);
                assert(text@ =~= joined(problems.take(i + 1), "; "@));
            }
            i += 1;
        }
        let mut j: usize = 0;
        while j < self.invalid_entries.len()
            invariant
                problems == self.problems(),
                first == self.missing_keys@.len(),
                j <= self.invalid_entries@.len(),
                text@ == joined(problems.take(first + j), "; "@),
            decreases self.invalid_entries@.len() - j,
        {
            if first > 0 || j > 0 {
                text.append("; ");
            }
            text.append(self.invalid_entries[j].as_str());
            proof {
                assert(problems.take(first + j + 1).drop_last() =~= problems.take(first + j));
                assert(problems[first + j] == self.invalid_entries@[j as int]@);
                assert(problems.take(first + j + 1).last() == problems[first + j]);
                assert(text@ =~= joined(problems.take(first + j + 1), "; "@));
            }
            j += 1;
        }
        assert(problems.take(problems.len() as int) =~= problems);
        text
    }
}

fn look_up(pairs: &[(&str, &str)], name: &str) -> (value: Option<String>)
    ensures
        optional(value) == setting(settings(pairs@), name@),
{
    let wanted: String = name.to_owned();
    let mut i: usize = pairs.len();
    assert(settings(pairs@).take(i as int) =~= settings(pairs@));
    while i > 0
        invariant
            i <= pairs@.len(),
            wanted@ == name@,
            value_of(settings(pairs@), name@) == value_of(settings(pairs@).take(i as int), name@),
        decreases i,
    {
        i -= 1;
        let pair: (&str, &str) = pairs[i];
        assert(settings(pairs@).take(i + 1).drop_last() =~= settings(pairs@).take(i as int));
        assert(settings(pairs@).take(i + 1).last() == (pairs@[i as int].0@, pairs@[i as int].1@));
        if pair.0.to_owned() == wanted {
            let inner: Vec<char> = trim(&chars_of(pair.1));
            if inner.len() == 0 {
                return None;
            }
            return Some(string_of(&inner));
        }
    }
    None
}

fn list_entries(list: &String) -> (keys: Vec<String>)
    ensures
        texts(keys@) == entries(list@),
{
    let parts: Vec<Vec<char>> = split_on(&chars_of(list.as_str()), ',');
    let mut keys: Vec<String> = Vec::new();
    let mut i: usize = 0;
    while i < parts.len()
        invariant
            i <= parts@.len(),
            keys@.len() == i,
            forall|j: int| 0 <= j < i ==> (#[trigger] keys@[j])@ == trimmed(views(parts@)[j]),
        decreases parts@.len() - i,
    {
        keys.push(string_of(&trim(&parts[i])));
        i += 1;
    }
    assert(texts(keys@) =~= entries(list@));
    keys
}

fn are_usable(keys: &Vec<String>) -> (yes: bool)
    ensures
        yes == usable(texts(keys@)),
{
    let ghost list = texts(keys@);
    let mut i: usize = 0;
    while i < keys.len()
        invariant
            i <= keys@.len(),
            list == texts(keys@),
            forall|j: int| 0 <= j < i ==> (#[trigger] list[j]).len() > 0,
            forall|j: int, k: int| 0 <= j < k < i ==> #[trigger] list[j] != #[trigger] list[k],
        decreases keys@.len() - i,
    {
        assert(list[i as int] == keys@[i as int]@);
        if keys[i].as_str().is_empty() {
            return false;
        }
        let mut j: usize = 0;
        while j < i
            invariant
                j <= i < keys@.len(),
                list == texts(keys@),
                list[i as int] == keys@[i as int]@,
                forall|k: int| 0 <= k < j ==> #[trigger] list[k] != list[i as int],
            decreases i - j,
        {
            assert(list[j as int] == keys@[j as int]@);
            if keys[j] == keys[i] {
                return false;
            }
            j += 1;
        }
        i += 1;
    }
    true
}

/// The settings of an interview from names and values.
pub fn load_from_pairs(pairs: &[(&str, &str)]) -> (config: Result<AgentConfig, ConfigError>)
    ensures
        ({
            let given = settings(pairs@);
            match config {
                Ok(config) => {
                    &&& missing(given) == Seq::<Seq<char>>::empty()
                    &&& invalid(given) == Seq::<Seq<char>>::empty()
                    &&& setting(given, "LIVEKIT_URL"@) == Some(config.livekit_url@)
                    &&& setting(given, "LIVEKIT_API_KEY"@) == Some(config.livekit_api_key@)
                    &&& setting(given, "LIVEKIT_API_SECRET"@) == Some(config.livekit_api_secret@)
                    &&& texts(config.google_api_keys@) == google_keys(given)
                },
                Err(error) => {
                    &&& texts(error.missing_keys@) == missing(given)
                    &&& texts(error.invalid_entries@) == invalid(given)
                    &&& missing(given).len() + invalid(given).len() > 0
                },
            }
        }),
{
    let ghost given = settings(pairs@);
    let mut missing_keys: Vec<String> = Vec::new();
    let mut invalid_entries: Vec<String> = Vec::new();
    let url: Option<String> = look_up(pairs, "LIVEKIT_URL");
    if url.is_none() {
        missing_keys.push("LIVEKIT_URL".to_owned());
    }
    let key: Option<String> = look_up(pairs, "LIVEKIT_API_KEY");
    if key.is_none() {
        missing_keys.push("LIVEKIT_API_KEY".to_owned());
    }
    let secret: Option<String> = look_up(pairs, "LIVEKIT_API_SECRET");
    if secret.is_none() {
        missing_keys.push("LIVEKIT_API_SECRET".to_owned());
    }
    let mut google_api_keys: Vec<String> = Vec::new();
    match look_up(pairs, "GOOGLE_API_KEYS") {
        Some(list) => {
            google_api_keys = list_entries(&list);
            if !are_usable(&google_api_keys) {
                invalid_entries.push("GOOGLE_API_KEYS must list non-empty, distinct keys".to_owned());
            }
        },
        None => match look_up(pairs, "GOOGLE_API_KEY") {
            Some(key) => {
                google_api_keys.push(key);
            },
            None => {
                missing_keys.push("GOOGLE_API_KEY".to_owned());
            },
        },
    }
    assert(texts(missing_keys@) =~= missing(given));
    assert(texts(invalid_entries@) =~= invalid(given));
    assert(texts(google_api_keys@) =~= google_keys(given));
    match (url, key, secret) {
        (Some(livekit_url), Some(livekit_api_key), Some(livekit_api_secret)) => {
            if missing_keys.len() == 0 && invalid_entries.len() == 0 {
                return Ok(
                    AgentConfig {
                        livekit_url,
                        livekit_api_key,
                        livekit_api_secret,
                        google_api_keys,
                    },
                );
            }
            Err(ConfigError { missing_keys, invalid_entries })
        },
        _ => Err(ConfigError { missing_keys, invalid_entries }),
    }
}

} // verus!
