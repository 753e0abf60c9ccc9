//! Keeping keys out of what is printed.

use vstd::prelude::*;
use vstd::string::*;
use vstd::utf8::encode_utf8;

use crate::text::{chars_of, occurs_at, stands_at, texts, views};

verus! {

/// What stands in print where a key stood.
pub open spec fn mark() -> Seq<char> {
    "[REDACTED]"@
}

/// Whether a byte stands for itself in a URL component: an ASCII letter, a
/// digit, or one of `-._~`.
pub open spec fn is_unreserved(byte: u8) -> bool {
    ||| 'a' as u8 <= byte <= 'z' as u8
    ||| 'A' as u8 <= byte <= 'Z' as u8
    ||| '0' as u8 <= byte <= '9' as u8
    ||| byte == '-' as u8
    ||| byte == '.' as u8
    ||| byte == '_' as u8
    ||| byte == '~' as u8
}

/// A hexadecimal digit, in upper case.
pub open spec fn hex_digit(value: u8) -> char {
    if value < 10 {
        ('0' as u8 + value) as char
    } else {
        ('A' as u8 + (value - 10)) as char
    }
}

/// A byte as it stands in a URL component.
pub open spec fn percent_byte(byte: u8) -> Seq<char> {
    if is_unreserved(byte) {
        seq![byte as char]
    } else {
        seq!['%', hex_digit(byte / 16), hex_digit(byte % 16)]
    }
}

/// Bytes as they stand in a URL component.
pub open spec fn percent_bytes(bytes: Seq<u8>) -> Seq<char>
    decreases bytes.len(),
{
    if bytes.len() == 0 {
        Seq::empty()
    } else {
        percent_bytes(bytes.drop_last()) + percent_byte(bytes.last())
    }
}

/// A text as it stands in a URL component: its UTF-8 bytes, percent-encoded.
pub open spec fn percent_encoded(text: Seq<char>) -> Seq<char> {
    percent_bytes(encode_utf8(text))
}

/// What must not be printed of some keys: each as it is and percent-encoded.
pub open spec fn secrets(keys: Seq<Seq<char>>) -> Seq<Seq<char>> {
    keys + keys.map_values(|key: Seq<char>| percent_encoded(key))
}

/// The length of the longest secret that stands in `text` at `at`.
pub open spec fn secret_len(text: Seq<char>, secrets: Seq<Seq<char>>, at: int) -> nat
    decreases secrets.len(),
{
    if secrets.len() == 0 {
        0
    } else {
        let shorter = secret_len(text, secrets.drop_last(), at);
        if occurs_at(text, secrets.last(), at) && secrets.last().len() > shorter {
            secrets.last().len()
        } else {
            shorter
        }
    }
}

/// A secret that stands in a text ends in it.
pub proof fn lemma_secret_fits(text: Seq<char>, secrets: Seq<Seq<char>>, at: int)
    requires
        0 <= at <= text.len(),
    ensures
        at + secret_len(text, secrets, at) <= text.len(),
    decreases secrets.len(),
{
    if secrets.len() > 0 {
        lemma_secret_fits(text, secrets.drop_last(), at);
    }
}

/// `text` from `from` on, read from left to right with a mark in place of each
/// secret, the longest one where several begin at the same place.
pub open spec fn redacted_from(text: Seq<char>, secrets: Seq<Seq<char>>, from: int) -> Seq<char>
    decreases text.len() - from,
{
    if from < 0 || from >= text.len() {
        Seq::empty()
    } else {
        let len = secret_len(text, secrets, from);
        proof {
            lemma_secret_fits(text, secrets, from);
        }
        if len > 0 {
            mark() + redacted_from(text, secrets, from + len)
        } else {
            seq![text[from]] + redacted_from(text, secrets, from + 1)
        }
    }
}

/// `text` with a mark in place of each occurrence of a key, as it is or
/// percent-encoded.
pub open spec fn redacted(text: Seq<char>, keys: Seq<Seq<char>>) -> Seq<char> {
    redacted_from(text, secrets(keys), 0)
}

fn hex(value: u8) -> (digit: char)
    requires
        value < 16,
    ensures
        digit == hex_digit(value),
{
    if value < 10 {
        ('0' as u8 + value) as char
    } else {
        ('A' as u8 + (value - 10)) as char
    }
}

/// A text as it stands in a URL component.
pub fn percent_encode(text: &str) -> (encoded: Vec<char>)
    ensures
        encoded@ == percent_encoded(text@),
{
    let bytes: &[u8] = text.as_bytes();
    let mut encoded: Vec<char> = Vec::new();
    let mut i: usize = 0;
    while i < bytes.len()
        invariant
            i <= bytes@.len(),
            encoded@ == percent_bytes(bytes@.take(i as int)),
        decreases bytes@.len() - i,
    {
        let byte: u8 = bytes[i];
        let ghost before = encoded@;
        if ('a' as u8 <= byte && byte <= 'z' as u8) || ('A' as u8 <= byte && byte <= 'Z' as u8) || (
        '0' as u8 <= byte && byte <= '9' as u8) || byte == '-' as u8 || byte == '.' as u8 || byte
            == '_' as u8 || byte == '~' as u8 {
            encoded.push(byte as char);
        } else {
            encoded.push('%');
            encoded.push(hex(byte / 16));
            encoded.push(hex(byte % 16));
        }
        assert(encoded@ =~= before + percent_byte(byte));
        assert(bytes@.take(i as int + 1).drop_last() =~= bytes@.take(i as int));
        i += 1;
    }
    assert(bytes@.take(bytes@.len() as int) =~= bytes@);
    encoded
}

fn secrets_of(keys: &Vec<String>) -> (list: Vec<Vec<char>>)
    ensures
        views(list@) == secrets(texts(keys@)),
{
    let mut list: Vec<Vec<char>> = Vec::new();
    let mut i: usize = 0;
    while i < keys.len()
        invariant
            i <= keys@.len(),
            list@.len() == i,
            forall|j: int| 0 <= j < i ==> (#[trigger] list@[j])@ == keys@[j]@,
        decreases keys@.len() - i,
    {
        list.push(chars_of(keys[i].as_str()));
        i += 1;
    }
    i = 0;
    while i < keys.len()
        invariant
            i <= keys@.len(),
            list@.len() == keys@.len() + i,
            forall|j: int| 0 <= j < keys@.len() ==> (#[trigger] list@[j])@ == keys@[j]@,
            forall|j: int|
                keys@.len() <= j < keys@.len() + i ==> (#[trigger] list@[j])@ == percent_encoded(
                    keys@[j - keys@.len()]@,
                ),
        decreases keys@.len() - i,
    {
        list.push(percent_encode(keys[i].as_str()));
        i += 1;
    }
    assert(views(list@) =~= secrets(texts(keys@)));
    list
}

fn longest_at(text: &Vec<char>, list: &Vec<Vec<char>>, at: usize) -> (len: usize)
    requires
        at < text@.len(),
    ensures
        len == secret_len(text@, views(list@), at as int),
        at + len <= text@.len(),
{
    let mut len: usize = 0;
    let mut i: usize = 0;
    while i < list.len()
        invariant
            at < text@.len(),
            i <= list@.len(),
            len == secret_len(text@, views(list@).take(i as int), at as int),
            at + len <= text@.len(),
        decreases list@.len() - i,
    {
        assert(views(list@).take(i as int + 1).drop_last() =~= views(list@).take(i as int));
        assert(views(list@).take(i as int + 1).last() == list@[i as int]@);
        if stands_at(text, &list[i], at) && list[i].len() > len {
            len = list[i].len();
        }
        i += 1;
    }
    assert(views(list@).take(list@.len() as int) =~= views(list@));
    len
}

/// `text` with a mark in place of each occurrence of a key, as it is or
/// percent-encoded.
pub fn redact_api_keys(text: &str, keys: &Vec<String>) -> (printed: String)
    ensures
        printed@ == redacted(text@, texts(keys@)),
{
    let chars: Vec<char> = chars_of(text);
    let list: Vec<Vec<char>> = secrets_of(keys);
    let ghost hidden = secrets(texts(keys@));
    let mut printed: String = String::new();
    let mut at: usize = 0;
    while at < chars.len()
        invariant
            at <= chars@.len(),
            chars@ == text@,
            views(list@) == hidden,
            printed@ + redacted_from(text@, hidden, at as int) == redacted_from(text@, hidden, 0),
        decreases chars@.len() - at,
    {
        let ghost before = printed@;
        let len: usize = longest_at(&chars, &list, at);
        if len > 0 {
            printed.append("[REDACTED]");
            proof {
                let rest = redacted_from(text@, hidden, at + len);
                assert(before + (mark() + rest) =~= printed@ + rest);
            }
            at += len;
        } else {
            printed.push(chars[at]);
            proof {
                let rest = redacted_from(text@, hidden, at + 1);
                assert(before + (seq![chars@[at as int]] + rest) =~= printed@ + rest);
            }
            at += 1;
        }
    }
    assert(printed@ + Seq::<char>::empty() =~= printed@);
    printed
}

} // verus!
