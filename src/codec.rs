//! The record codec: one command per line, as a JSON object with the members
//! `cmd`, `key` and `value`.

use vstd::prelude::*;

verus! {

/// A command of the log: `cmd` names it, `key` is the key it acts on and
/// `value` is the value it stores, when it stores one.
#[derive(Debug, Clone, PartialEq)]
pub struct LogItem {
    pub cmd: String,
    pub key: String,
    pub value: Option<String>,
}

/// The mathematical content of a [`LogItem`].
pub struct Record {
    pub cmd: Seq<char>,
    pub key: Seq<char>,
    pub value: Option<Seq<char>>,
}

pub open spec fn opt_view(v: Option<String>) -> Option<Seq<char>> {
    match v {
        Some(s) => Some(s@),
        None => None,
    }
}

impl View for LogItem {
    type V = Record;

    open spec fn view(&self) -> Record {
        Record { cmd: self.cmd@, key: self.key@, value: opt_view(self.value) }
    }
}

impl LogItem {
    pub fn new(cmd: String, key: String, value: Option<String>) -> (r: LogItem)
        ensures
            r.cmd == cmd,
            r.key == key,
            r.value == value,
    {
        LogItem { cmd, key, value }
    }
}

/// Why a record could not be written or read.
#[derive(Debug, Clone, Copy, PartialEq, Eq)]
pub enum CodecError {
    /// The record could not be turned into text.
    EncodeLog,
    /// The text is not a JSON object whose `cmd` and `key` are strings and
    /// whose `value`, if present, is a string or null.
    DecodeLog,
}

/// What a JSON object holds under one member name.
pub enum JsonMember {
    Missing,
    Null,
    Text(String),
    Other,
}

/// The mathematical content of a [`JsonMember`].
pub enum MemberView {
    Missing,
    Null,
    Text(Seq<char>),
    Other,
}

impl View for JsonMember {
    type V = MemberView;

    open spec fn view(&self) -> MemberView {
        match self {
            JsonMember::Missing => MemberView::Missing,
            JsonMember::Null => MemberView::Null,
            JsonMember::Text(s) => MemberView::Text(s@),
            JsonMember::Other => MemberView::Other,
        }
    }
}

/// A lower-case hexadecimal digit.
pub open spec fn hex_digit(n: nat) -> char {
    if n < 10 {
        (n + '0' as nat) as char
    } else {
        ((n - 10) + 'a' as nat) as char
    }
}

/// How serde_json writes one character inside a string literal: a quote, a
/// backslash and the control characters below U+0020 are escaped, the five
/// common controls by letter and the others as `\u00XX`; every other
/// character stands for itself.
pub open spec fn json_escape(c: char) -> Seq<char> {
    if c == '"' {
        seq!['\\', '"']
    } else if c == '\\' {
        seq!['\\', '\\']
    } else if c == '\n' {
        seq!['\\', 'n']
    } else if c == '\r' {
        seq!['\\', 'r']
    } else if c == '\t' {
        seq!['\\', 't']
    } else if c == '\u{8}' {
        seq!['\\', 'b']
    } else if c == '\u{c}' {
        seq!['\\', 'f']
    } else if (c as u32) < 0x20 {
        seq!['\\', 'u', '0', '0', hex_digit((c as u32 / 16) as nat), hex_digit((c as u32 % 16) as nat)]
    } else {
        seq![c]
    }
}

/// The escaped characters of a text.
pub open spec fn json_escaped(s: Seq<char>) -> Seq<char>
    decreases s.len(),
{
    if s.len() == 0 {
        Seq::empty()
    } else {
        json_escaped(s.drop_last()) + json_escape(s.last())
    }
}

/// The JSON string literal, quotes included, that serde_json writes for a text.
pub open spec fn json_quoted(s: Seq<char>) -> Seq<char> {
    seq!['"'] + json_escaped(s) + seq!['"']
}

/// What serde_json reads under the member `name` of the JSON object `text`;
/// `None` when `text` is not one JSON object.
pub uninterp spec fn json_member_of(text: Seq<char>, name: Seq<char>) -> Option<MemberView>;

/// The text of a JSON value that is a string or null.
pub open spec fn value_text(v: Option<Seq<char>>) -> Seq<char> {
    match v {
        Some(s) => json_quoted(s),
        None => "null"@,
    }
}

/// The text of the members `ms` of a JSON object, in order, separated by commas.
pub open spec fn members_text(ms: Seq<(Seq<char>, Option<Seq<char>>)>) -> Seq<char>
    decreases ms.len(),
{
    if ms.len() == 0 {
        Seq::empty()
    } else if ms.len() == 1 {
        json_quoted(ms[0].0) + ":"@ + value_text(ms[0].1)
    } else {
        members_text(ms.drop_last()) + ","@ + json_quoted(ms.last().0) + ":"@ + value_text(
            ms.last().1,
        )
    }
}

/// The compact text of a JSON object whose members are strings or null.
pub open spec fn object_text(ms: Seq<(Seq<char>, Option<Seq<char>>)>) -> Seq<char> {
    "{"@ + members_text(ms) + "}"@
}

pub open spec fn distinct_names(ms: Seq<(Seq<char>, Option<Seq<char>>)>) -> bool {
    forall|i: int, j: int| 0 <= i < j < ms.len() ==> ms[i].0 != ms[j].0
}

/// What the member `name` of the object written from `ms` holds.
pub open spec fn member_in(ms: Seq<(Seq<char>, Option<Seq<char>>)>, name: Seq<char>) -> MemberView
    decreases ms.len(),
{
    if ms.len() == 0 {
        MemberView::Missing
    } else if ms.last().0 == name {
        match ms.last().1 {
            Some(s) => MemberView::Text(s),
            None => MemberView::Null,
        }
    } else {
        member_in(ms.drop_last(), name)
    }
}

/// The members a record is written with.
pub open spec fn record_members(r: Record) -> Seq<(Seq<char>, Option<Seq<char>>)> {
    seq![("cmd"@, Some(r.cmd)), ("key"@, Some(r.key)), ("value"@, r.value)]
}

/// The line text of a record, without its line end.
pub open spec fn record_text(r: Record) -> Seq<char> {
    object_text(record_members(r))
}

/// The record a text reads as: `cmd` and `key` must be strings, `value` a
/// string, null or absent; other members are ignored.
pub open spec fn decode_spec(text: Seq<char>) -> Option<Record> {
    match (json_member_of(text, "cmd"@), json_member_of(text, "key"@)) {
        (Some(MemberView::Text(c)), Some(MemberView::Text(k))) => match json_member_of(
            text,
            "value"@,
        ) {
            Some(MemberView::Missing) => Some(Record { cmd: c, key: k, value: None }),
            Some(MemberView::Null) => Some(Record { cmd: c, key: k, value: None }),
            Some(MemberView::Text(v)) => Some(Record { cmd: c, key: k, value: Some(v) }),
            _ => None,
        },
        _ => None,
    }
}

/// Relies on `serde_json::to_string` on a `str`: it returns the JSON string
/// literal of the text, escaped by serde_json's escape table and
/// `write_char_escape`. It writes into memory and does not fail.
#[verifier::external_body]
fn quote(s: &str) -> (r: Option<String>)
    ensures
        r is Some,
        r is Some ==> r->Some_0@ == json_quoted(s@),
{
    serde_json::to_string(s).ok()
}

/// Relies on `serde_json::from_str` into a map from member name to
/// `serde_json::Value`: `text` must be one JSON object, with white space
/// around it allowed, and a later member of the same name wins. The member
/// `name` is told apart as absent, null, a string or anything else. An object
/// written as `object_text` reads back the strings it was written from.
#[verifier::external_body]
fn json_member(text: &str, name: &str) -> (r: Option<JsonMember>)
    ensures
        match r {
            Some(m) => json_member_of(text@, name@) == Some(m@),
            None => json_member_of(text@, name@) is None,
        },
        forall|ms: Seq<(Seq<char>, Option<Seq<char>>)>|
            distinct_names(ms) && (text@ == #[trigger] object_text(ms) || text@ == object_text(
                ms,
            ).push('\n')) ==> r is Some && r->Some_0@ == member_in(ms, name@),
{
    let parsed: Result<std::collections::BTreeMap<String, serde_json::Value>, serde_json::Error> =
        serde_json::from_str(text);
    match parsed {
        Err(_) => None,
        Ok(mut members) => Some(
            match members.remove(name) {
                None => JsonMember::Missing,
                Some(serde_json::Value::Null) => JsonMember::Null,
                Some(serde_json::Value::String(s)) => JsonMember::Text(s),
                Some(_) => JsonMember::Other,
            },
        ),
    }
}

pub struct LogEncoder;

impl LogEncoder {
    /// Writes a record as `{"cmd":..,"key":..,"value":..}`, with `null` for an
    /// absent value.
    pub fn encode(item: &LogItem) -> (r: Result<String, CodecError>)
        ensures
            r matches Ok(text) && text@ == record_text(item@),
    {
        let value_text = match &item.value {
            Some(v) => match quote(v.as_str()) {
                Some(q) => q,
                None => return Err(CodecError::EncodeLog),
            },
            None => "null".to_owned(),
        };
        let (cmd_name, cmd, key_name, key, value_name) = match (
            quote("cmd"),
            quote(item.cmd.as_str()),
            quote("key"),
            quote(item.key.as_str()),
            quote("value"),
        ) {
            (Some(a), Some(b), Some(c), Some(d), Some(e)) => (a, b, c, d, e),
            _ => return Err(CodecError::EncodeLog),
        };
        let mut text = "{".to_owned();
        text.append(cmd_name.as_str());
        text.append(":");
        text.append(cmd.as_str());
        text.append(",");
        text.append(key_name.as_str());
        text.append(":");
        text.append(key.as_str());
        text.append(",");
        text.append(value_name.as_str());
        text.append(":");
        text.append(value_text.as_str());
        text.append("}");
        proof {
            let ms = record_members(item@);
            assert(ms.drop_last().drop_last() =~= seq![ms[0]]);
            assert(ms.drop_last().last() == ms[1]);
            reveal_with_fuel(members_text, 3);
            assert(text@ =~= record_text(item@));
        }
        Ok(text)
    }

    /// Reads a record from a line. White space around the object and members
    /// other than `cmd`, `key` and `value` are allowed.
    pub fn decode(text: &str) -> (r: Result<LogItem, CodecError>)
        ensures
            match r {
                Ok(item) => decode_spec(text@) == Some(item@),
                Err(e) => e == CodecError::DecodeLog && decode_spec(text@) is None,
            },
            forall|rec: Record|
                text@ == #[trigger] record_text(rec) || text@ == record_text(rec).push('\n')
                    ==> (r matches Ok(item) && item@ == rec),
    {
        proof {
            reveal_strlit("cmd");
            reveal_strlit("key");
            reveal_strlit("value");
            assert forall|rec: Record|
                text@ == #[trigger] record_text(rec) || text@ == record_text(rec).push('\n')
                implies distinct_names(record_members(rec)) && member_in(record_members(rec), "cmd"@)
                == MemberView::Text(rec.cmd) && member_in(record_members(rec), "key"@)
                == MemberView::Text(rec.key) && member_in(record_members(rec), "value"@) == (
            match rec.value {
                Some(v) => MemberView::Text(v),
                None => MemberView::Null,
            }) by {
                let ms = record_members(rec);
                assert("cmd"@[0] != "key"@[0]);
                assert("cmd"@[0] != "value"@[0]);
                assert("key"@[0] != "value"@[0]);
                assert(ms.drop_last().drop_last() =~= seq![ms[0]]);
                assert(ms.drop_last().last() == ms[1]);
                reveal_with_fuel(member_in, 4);
            }
        }
        let cmd = match json_member(text, "cmd") {
            Some(JsonMember::Text(c)) => c,
            _ => return Err(CodecError::DecodeLog),
        };
        let key = match json_member(text, "key") {
            Some(JsonMember::Text(k)) => k,
            _ => return Err(CodecError::DecodeLog),
        };
        let value = match json_member(text, "value") {
            Some(JsonMember::Missing) => None,
            Some(JsonMember::Null) => None,
            Some(JsonMember::Text(v)) => Some(v),
            _ => return Err(CodecError::DecodeLog),
        };
        Ok(LogItem { cmd, key, value })
    }
}

} // verus!
