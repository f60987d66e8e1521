//! What every request carries beside its message.
use tonic::metadata::{Ascii, MetadataKey, MetadataValue};
use vstd::prelude::*;

use crate::config::{ConfigView, RemoteBuildConfig};
use crate::error::{fail_by, failure_by, Error, ErrorView};
use crate::mapper::{quote, quoting};
use crate::messages::pair_texts;
use crate::sorted::{lemma_with, lookup};
use crate::tables::{is_table, put_text, with_entry};

verus! {

/// The name under which the key of the settings is sent.
pub const API_KEY_NAME: &'static str = "x-buildbuddy-api-key";

/// A character that the name of an entry can have.
pub open spec fn is_name_char(c: char) -> bool {
    ||| 'a' <= c <= 'z'
    ||| 'A' <= c <= 'Z'
    ||| '0' <= c <= '9'
    ||| seq!['!', '#', '$', '%', '&', '\'', '*', '+', '-', '.', '^', '_', '`', '|', '~'].contains(c)
}

/// A character that the value of an entry can have: all but control characters, and the tab.
pub open spec fn is_value_char(c: char) -> bool {
    (c as int >= 32 && c as int != 127) || c as int == 9
}

/// A letter in lower case.
pub open spec fn lower(c: char) -> char {
    if 'A' <= c <= 'Z' {
        (c as int + 32) as char
    } else {
        c
    }
}

/// The name of an entry for text, in lower case: it is not empty nor longer than the limit, has
/// nothing but the characters of names, and does not end as the names of entries for bytes do.
pub open spec fn entry_name(name: Seq<char>) -> Option<Seq<char>> {
    let text = name.map_values(|c: char| lower(c));
    if 0 < name.len() <= 65535 && (forall|i: int|
        0 <= i < name.len() ==> is_name_char(#[trigger] name[i])) && !(text.len() >= 4 && text.skip(
        text.len() - 4,
    ) == seq!['-', 'b', 'i', 'n']) {
        Some(text)
    } else {
        None
    }
}

/// What lies behind a name that is not valid.
pub open spec fn name_cause() -> Seq<char> {
    "invalid gRPC metadata key name"@
}

/// What lies behind a value that is not valid.
pub open spec fn value_cause() -> Seq<char> {
    "failed to parse metadata value"@
}

/// `MetadataKey::<Ascii>::from_bytes` takes the bytes of a name and turns it into lower case, or
/// fails where it is no name of an entry for text. The text of the failure is always the same.
#[verifier::external_body]
fn metadata_key(name: &str) -> (r: Result<String, String>)
    ensures
        match (r, entry_name(name@)) {
            (Ok(s), Some(t)) => s@ == t,
            (Err(cause), None) => cause@ == name_cause(),
            _ => false,
        },
{
    match MetadataKey::<Ascii>::from_bytes(name.as_bytes()) {
        Ok(key) => Ok(key.as_str().to_owned()),
        Err(cause) => Err(cause.to_string()),
    }
}

/// A text that the value of an entry can be.
pub open spec fn is_value(value: Seq<char>) -> bool {
    forall|i: int| 0 <= i < value.len() ==> is_value_char(#[trigger] value[i])
}

/// `MetadataValue::<Ascii>::try_from` takes a text, or fails where the text has a control
/// character other than the tab. The text of the failure is always the same.
#[verifier::external_body]
fn metadata_value(value: &str) -> (r: Result<(), String>)
    ensures
        match r {
            Ok(_) => is_value(value@),
            Err(cause) => !is_value(value@) && cause@ == value_cause(),
        },
{
    match MetadataValue::<Ascii>::try_from(value) {
        Ok(_) => Ok(()),
        Err(cause) => Err(cause.to_string()),
    }
}

/// The entries with further ones, or the failure of the first that is not valid.
pub open spec fn with_headers(
    done: Seq<(Seq<char>, Seq<char>)>,
    headers: Seq<(Seq<char>, Seq<char>)>,
) -> Result<Seq<(Seq<char>, Seq<char>)>, ErrorView>
    decreases headers.len(),
{
    if headers.len() == 0 {
        Ok(done)
    } else {
        match entry_name(headers[0].0) {
            None => Err(
                failure_by(
                    quoting("invalid `build.rbe.headers` name "@, headers[0].0),
                    name_cause(),
                ),
            ),
            Some(name) => if !is_value(headers[0].1) {
                Err(
                    failure_by(
                        quoting("invalid `build.rbe.headers` value for "@, headers[0].0),
                        value_cause(),
                    ),
                )
            } else {
                with_headers(with_entry(done, name, headers[0].1), headers.skip(1))
            },
        }
    }
}

/// What every request carries: the key of the settings, and the further entries, which go before
/// it.
pub open spec fn metadata_of(config: ConfigView) -> Result<Seq<(Seq<char>, Seq<char>)>, ErrorView> {
    match config.api_key {
        Some(key) => if is_value(key) {
            with_headers(with_entry(seq![], API_KEY_NAME@, key), config.headers)
        } else {
            Err(failure_by("invalid `build.rbe.api-key` value"@, value_cause()))
        },
        None => with_headers(seq![], config.headers),
    }
}

/// What every request carries, in the order of the names.
pub fn request_metadata(config: &RemoteBuildConfig) -> (r: Result<Vec<(String, String)>, Error>)
    ensures
        match (r, metadata_of(config@)) {
            (Ok(table), Ok(t)) => pair_texts(table@) == t && is_table(t),
            (Err(e), Err(f)) => e@ == f,
            _ => false,
        },
{
    let mut table: Vec<(String, String)> = Vec::new();
    assert(pair_texts(table@) =~= seq![]);
    if let Some(key) = &config.api_key {
        if let Err(cause) = metadata_value(key.as_str()) {
            return Err(fail_by("invalid `build.rbe.api-key` value", cause.as_str()));
        }
        put_text(&mut table, API_KEY_NAME.to_owned(), key.clone());
    }
    let ghost start = pair_texts(table@);
    let ghost all = pair_texts(config.headers@);
    let mut i: usize = 0;
    assert(all.skip(0) =~= all);
    assert(metadata_of(config@) == with_headers(start, all));
    while i < config.headers.len()
        invariant
            i <= config.headers@.len(),
            all == pair_texts(config.headers@),
            is_table(pair_texts(table@)),
            metadata_of(config@) == with_headers(pair_texts(table@), all.skip(i as int)),
        decreases config.headers@.len() - i,
    {
        let (name, value) = &config.headers[i];
        assert(all.skip(i as int)[0] == (name@, value@));
        assert(all.skip(i as int).skip(1) =~= all.skip(i + 1));
        match metadata_key(name.as_str()) {
            Ok(key) => {
                if let Err(cause) = metadata_value(value.as_str()) {
                    let message = quote("invalid `build.rbe.headers` value for ", name.as_str());
                    return Err(fail_by(message.as_str(), cause.as_str()));
                }
                put_text(&mut table, key, value.clone());
            },
            Err(cause) => {
                let message = quote("invalid `build.rbe.headers` name ", name.as_str());
                return Err(fail_by(message.as_str(), cause.as_str()));
            },
        }
        i += 1;
    }
    Ok(table)
}

/// The last value that is given for a name, whatever the case of its letters.
pub open spec fn last_header(
    headers: Seq<(Seq<char>, Seq<char>)>,
    name: Seq<char>,
) -> Option<Seq<char>>
    decreases headers.len(),
{
    if headers.len() == 0 {
        None
    } else {
        match last_header(headers.skip(1), name) {
            Some(value) => Some(value),
            None => if entry_name(headers[0].0) == Some(name) {
                Some(headers[0].1)
            } else {
                None
            },
        }
    }
}

/// Every entry of the settings is carried, the last one of those with the same name, and the key
/// where no entry has its name.
pub proof fn headers_are_carried(config: ConfigView, name: Seq<char>)
    ensures
        metadata_of(config) matches Ok(table) ==> lookup::<String, Seq<char>>(table, name) == (
        match last_header(config.headers, name) {
            Some(value) => Some(value),
            None => if name == API_KEY_NAME@ {
                config.api_key
            } else {
                None
            },
        }),
{
    let none: Seq<(Seq<char>, Seq<char>)> = seq![];
    crate::sorted::lemma_has::<String, Seq<char>>(none, name);
    match config.api_key {
        Some(key) => {
            lemma_with::<String, Seq<char>>(none, API_KEY_NAME@, key);
            lemma_headers(with_entry(none, API_KEY_NAME@, key), config.headers, name);
        },
        None => {
            lemma_headers(none, config.headers, name);
        },
    }
}

proof fn lemma_headers(
    done: Seq<(Seq<char>, Seq<char>)>,
    headers: Seq<(Seq<char>, Seq<char>)>,
    name: Seq<char>,
)
    requires
        is_table(done),
    ensures
        with_headers(done, headers) matches Ok(table) ==> lookup::<String, Seq<char>>(table, name)
            == (match last_header(headers, name) {
            Some(value) => Some(value),
            None => lookup::<String, Seq<char>>(done, name),
        }),
    decreases headers.len(),
{
    if headers.len() > 0 {
        if let Some(key) = entry_name(headers[0].0) {
            lemma_with::<String, Seq<char>>(done, key, headers[0].1);
            lemma_headers(with_entry(done, key, headers[0].1), headers.skip(1), name);
        }
    }
}

} // verus!
