//! One segment: an append-only file of records and an index from each key to
//! the offset of its latest record in that file.
//!
//! The segment does not touch the file itself. Opening replays the lines the
//! caller read; `set` and `remove` return the line the caller must append;
//! `get` takes the line the caller read at the offset that `entry` gave.

use crate::codec::{
    decode_spec, json_escape, json_escaped, json_quoted, members_text, record_members, record_text,
    value_text, LogEncoder, LogItem, Record,
};
use vstd::prelude::*;
use vstd::string::StringSliceAdditionalSpecFns;
use vstd::utf8::encode_utf8;

verus! {

/// Where the latest record of a key stands in its segment file: a set or a
/// removal, at a byte offset.
#[derive(Debug, Clone, Copy, PartialEq, Eq)]
pub enum IndexEntry {
    Exist(u64),
    Removed(u64),
}

/// Why a segment operation failed.
#[derive(Debug, Clone, Copy, PartialEq, Eq)]
pub enum Error {
    /// A line is empty or does not read as a record.
    DecodeLog,
    /// A line holds a command other than `set` and `rm`.
    UnknownCmd,
    /// A removal names a key that has no live value here.
    RemoveNotExistKey,
    /// The file does not hold what the index says, or outgrew 64-bit offsets.
    Unexpected,
    /// A builder was asked for a kind of segment it does not make.
    UnknownMode,
}

pub open spec fn set_cmd() -> Seq<char> {
    "set"@
}

pub open spec fn rm_cmd() -> Seq<char> {
    "rm"@
}

pub open spec fn set_record(key: Seq<char>, value: Seq<char>) -> Record {
    Record { cmd: set_cmd(), key, value: Some(value) }
}

pub open spec fn rm_record(key: Seq<char>) -> Record {
    Record { cmd: rm_cmd(), key, value: None }
}

/// The text of the line that stores a record: its JSON text and a line end.
pub open spec fn record_line(r: Record) -> Seq<char> {
    record_text(r).push('\n')
}

/// The size of a text in the file, in bytes.
pub open spec fn byte_len(text: Seq<char>) -> nat {
    encode_utf8(text).len()
}

/// A text without a line end.
pub open spec fn no_newline(t: Seq<char>) -> bool {
    forall|i: int| 0 <= i < t.len() ==> t[i] != '\n'
}

proof fn lemma_no_newline_concat(a: Seq<char>, b: Seq<char>)
    requires
        no_newline(a),
        no_newline(b),
    ensures
        no_newline(a + b),
{
    assert forall|i: int| 0 <= i < (a + b).len() implies (a + b)[i] != '\n' by {
        if i >= a.len() {
            assert((a + b)[i] == b[i - a.len()]);
        }
    }
}

proof fn lemma_quoted_no_newline(s: Seq<char>)
    ensures
        no_newline(json_escaped(s)),
        no_newline(json_quoted(s)),
    decreases s.len(),
{
    if s.len() > 0 {
        lemma_quoted_no_newline(s.drop_last());
        let e = json_escape(s.last());
        assert(no_newline(e));
        lemma_no_newline_concat(json_escaped(s.drop_last()), e);
    }
    lemma_no_newline_concat(seq!['"'], json_escaped(s));
    lemma_no_newline_concat(seq!['"'] + json_escaped(s), seq!['"']);
}

/// A record is written as one line: its text holds no line end, and the
/// line that stores it ends with one.
pub proof fn lemma_record_line_is_one_line(r: Record)
    ensures
        no_newline(record_text(r)),
        record_line(r).len() == record_text(r).len() + 1,
        record_line(r).last() == '\n',
{
    reveal_strlit("{");
    reveal_strlit("}");
    reveal_strlit(":");
    reveal_strlit(",");
    reveal_strlit("null");
    let ms = record_members(r);
    lemma_quoted_no_newline("cmd"@);
    lemma_quoted_no_newline("key"@);
    lemma_quoted_no_newline("value"@);
    lemma_quoted_no_newline(r.cmd);
    lemma_quoted_no_newline(r.key);
    match r.value {
        Some(v) => lemma_quoted_no_newline(v),
        None => {},
    }
    assert(no_newline(value_text(r.value)));
    assert(ms.drop_last().drop_last() =~= seq![ms[0]]);
    assert(ms.drop_last().last() == ms[1]);
    reveal_with_fuel(members_text, 3);
    let m1 = json_quoted("cmd"@) + ":"@ + json_quoted(r.cmd);
    lemma_no_newline_concat(json_quoted("cmd"@), ":"@);
    lemma_no_newline_concat(json_quoted("cmd"@) + ":"@, json_quoted(r.cmd));
    let m2 = m1 + ","@ + json_quoted("key"@) + ":"@ + json_quoted(r.key);
    lemma_no_newline_concat(m1, ","@);
    lemma_no_newline_concat(m1 + ","@, json_quoted("key"@));
    lemma_no_newline_concat(m1 + ","@ + json_quoted("key"@), ":"@);
    lemma_no_newline_concat(m1 + ","@ + json_quoted("key"@) + ":"@, json_quoted(r.key));
    let m3 = m2 + ","@ + json_quoted("value"@) + ":"@ + value_text(r.value);
    lemma_no_newline_concat(m2, ","@);
    lemma_no_newline_concat(m2 + ","@, json_quoted("value"@));
    lemma_no_newline_concat(m2 + ","@ + json_quoted("value"@), ":"@);
    lemma_no_newline_concat(m2 + ","@ + json_quoted("value"@) + ":"@, value_text(r.value));
    assert(members_text(ms) == m3);
    lemma_no_newline_concat("{"@, m3);
    lemma_no_newline_concat("{"@ + m3, "}"@);
}

/// A line as a segment writes it: the line of a set or a removal.
pub open spec fn is_record_line(t: Seq<char>) -> bool {
    exists|rec: Record| valid_cmd(rec) && #[trigger] record_line(rec) == t
}

/// A line of a segment file and the record it holds.
pub struct Logged {
    pub text: Seq<char>,
    pub record: Record,
}

/// A line reads as a record when decoding it gives the record, or when it was
/// written from the record (and decoding what the codec writes gives back the
/// record).
pub open spec fn reads_as(text: Seq<char>, r: Record) -> bool {
    decode_spec(text) == Some(r) || text == record_line(r)
}

pub open spec fn valid_cmd(r: Record) -> bool {
    r.cmd == set_cmd() || r.cmd == rm_cmd()
}

pub open spec fn log_wf(log: Seq<Logged>) -> bool {
    forall|i: int|
        0 <= i < log.len() ==> valid_cmd(#[trigger] log[i].record) && reads_as(
            log[i].text,
            log[i].record,
        ) && log[i].text.len() > 0
}

/// The byte offset at which line `i` of the log starts.
pub open spec fn offset_at(log: Seq<Logged>, i: int) -> nat
    decreases i,
{
    if i <= 0 || log.len() < i {
        0
    } else {
        offset_at(log, i - 1) + byte_len(log[i - 1].text)
    }
}

/// The size of the file in bytes.
pub open spec fn log_size(log: Seq<Logged>) -> nat {
    offset_at(log, log.len() as int)
}

/// What replay records of a key: its latest line, a set or a removal.
pub enum Mark {
    Exist(nat),
    Removed(nat),
}

pub open spec fn mark_pos(m: Mark) -> nat {
    match m {
        Mark::Exist(p) => p,
        Mark::Removed(p) => p,
    }
}

/// The index that replaying the log from its start builds: each key maps to
/// its latest line.
pub open spec fn replay_index(log: Seq<Logged>) -> Map<Seq<char>, Mark>
    decreases log.len(),
{
    if log.len() == 0 {
        Map::empty()
    } else {
        let i = (log.len() - 1) as nat;
        let r = log[i as int].record;
        replay_index(log.drop_last()).insert(
            r.key,
            if r.cmd == set_cmd() {
                Mark::Exist(i)
            } else {
                Mark::Removed(i)
            },
        )
    }
}

/// The value a key has in the log: the value of its latest line when that
/// line is a set.
pub open spec fn lookup(log: Seq<Logged>, k: Seq<char>) -> Option<Seq<char>> {
    if replay_index(log).contains_key(k) {
        match replay_index(log)[k] {
            Mark::Exist(p) => log[p as int].record.value,
            Mark::Removed(_) => None,
        }
    } else {
        None
    }
}

pub open spec fn entry_at(log: Seq<Logged>, m: Mark) -> IndexEntry {
    match m {
        Mark::Exist(p) => IndexEntry::Exist(offset_at(log, p as int) as u64),
        Mark::Removed(p) => IndexEntry::Removed(offset_at(log, p as int) as u64),
    }
}

/// What reading a key's value from the line found at its offset gives.
pub open spec fn read_spec(key: Seq<char>, line: Option<Seq<char>>) -> Result<
    Option<Seq<char>>,
    Error,
> {
    match line {
        None => Err(Error::Unexpected),
        Some(t) => match decode_spec(t) {
            None => Err(Error::DecodeLog),
            Some(r) => if r.key != key || r.cmd != set_cmd() {
                Err(Error::Unexpected)
            } else {
                match r.value {
                    Some(v) => Ok(Some(v)),
                    None => Err(Error::Unexpected),
                }
            },
        },
    }
}

pub open spec fn opt_text(line: Option<String>) -> Option<Seq<char>> {
    match line {
        Some(t) => Some(t@),
        None => None,
    }
}

pub open spec fn result_view(r: Result<Option<String>, Error>) -> Result<Option<Seq<char>>, Error> {
    match r {
        Ok(Some(v)) => Ok(Some(v@)),
        Ok(None) => Ok(None),
        Err(e) => Err(e),
    }
}

/// Why a line cannot be replayed, if it cannot.
pub open spec fn line_fault(text: Seq<char>) -> Option<Error> {
    if text.len() == 0 {
        Some(Error::DecodeLog)
    } else {
        match decode_spec(text) {
            None => Some(Error::DecodeLog),
            Some(r) => if valid_cmd(r) {
                None
            } else {
                Some(Error::UnknownCmd)
            },
        }
    }
}

/// The total size in bytes of the first `n` lines.
pub open spec fn lines_size(lines: Seq<String>, n: int) -> nat
    decreases n,
{
    if n <= 0 || lines.len() < n {
        0
    } else {
        lines_size(lines, n - 1) + byte_len(lines[n - 1]@)
    }
}

struct Slot {
    key: String,
    entry: IndexEntry,
}

/// A segment: the path and identifier of its file, the index, and the file's
/// size. The ghost log is the file's lines with the records they hold.
pub struct Segment {
    path: String,
    id: usize,
    slots: Vec<Slot>,
    size: u64,
    log: Ghost<Seq<Logged>>,
}

proof fn lemma_offset_push(log: Seq<Logged>, x: Logged, i: int)
    requires
        0 <= i <= log.len(),
    ensures
        offset_at(log.push(x), i) == offset_at(log, i),
    decreases i,
{
    if i > 0 {
        lemma_offset_push(log, x, i - 1);
        assert(log.push(x)[i - 1] == log[i - 1]);
    }
}

proof fn lemma_lines_size_prefix(lines: Seq<String>, log: Seq<Logged>, i: int)
    requires
        lines.len() == log.len(),
        0 <= i <= lines.len(),
        forall|j: int| 0 <= j < lines.len() ==> #[trigger] lines[j]@ == log[j].text,
    ensures
        lines_size(lines, i) == offset_at(log, i),
    decreases i,
{
    if i > 0 {
        lemma_lines_size_prefix(lines, log, i - 1);
        assert(lines[i - 1]@ == log[i - 1].text);
    }
}

proof fn lemma_lines_size_mono(lines: Seq<String>, i: int, j: int)
    requires
        0 <= i <= j <= lines.len(),
    ensures
        lines_size(lines, i) <= lines_size(lines, j),
    decreases j,
{
    if i < j {
        lemma_lines_size_mono(lines, i, j - 1);
    }
}

proof fn lemma_offset_mono(log: Seq<Logged>, i: int, j: int)
    requires
        0 <= i <= j <= log.len(),
    ensures
        offset_at(log, i) <= offset_at(log, j),
    decreases j,
{
    if i < j {
        lemma_offset_mono(log, i, j - 1);
    }
}

/// Each key of the replayed index maps to a line of the log that holds a
/// record of that key, a set exactly when the mark says so, and no later line
/// holds a record of that key.
pub proof fn lemma_replay_marks(log: Seq<Logged>, k: Seq<char>)
    requires
        replay_index(log).contains_key(k),
    ensures
        mark_pos(replay_index(log)[k]) < log.len(),
        log[mark_pos(replay_index(log)[k]) as int].record.key == k,
        (replay_index(log)[k] is Exist) == (log[mark_pos(replay_index(log)[k]) as int].record.cmd
            == set_cmd()),
        forall|q: int|
            mark_pos(replay_index(log)[k]) < q < log.len() ==> #[trigger] log[q].record.key != k,
    decreases log.len(),
{
    let last = log[log.len() - 1].record;
    if last.key != k {
        lemma_replay_marks(log.drop_last(), k);
        assert forall|q: int|
            mark_pos(replay_index(log)[k]) < q < log.len() implies #[trigger] log[q].record.key
            != k by {
            if q < log.len() - 1 {
                assert(log.drop_last()[q] == log[q]);
            }
        }
    }
}

/// A text with at least one character takes at least one byte.
pub proof fn lemma_byte_len_pos(text: Seq<char>)
    requires
        text.len() > 0,
    ensures
        byte_len(text) > 0,
{
    assert(encode_utf8(text) == vstd::utf8::encode_scalar(text[0] as u32) + encode_utf8(
        text.drop_first(),
    ));
}

/// Reads one line of a file being replayed: the record it holds and whether
/// that record is a set.
fn check_line(line: &str) -> (r: Result<(LogItem, bool), Error>)
    ensures
        match r {
            Ok((item, is_set)) => {
                &&& line_fault(line@) is None
                &&& decode_spec(line@) == Some(item@)
                &&& valid_cmd(item@)
                &&& is_set == (item@.cmd == set_cmd())
                &&& reads_as(line@, item@)
                &&& line@.len() > 0
                &&& forall|rec: Record| #[trigger] reads_as(line@, rec) ==> item@ == rec
            },
            Err(e) => line_fault(line@) == Some(e),
        },
        is_record_line(line@) ==> r is Ok,
{
    proof {
        if is_record_line(line@) {
            let rec = choose|rec: Record| valid_cmd(rec) && #[trigger] record_line(rec) == line@;
            lemma_record_line_is_one_line(rec);
            reveal_strlit("set");
            reveal_strlit("rm");
        }
    }
    if line.is_empty() {
        return Err(Error::DecodeLog);
    }
    let item = match LogEncoder::decode(line) {
        Ok(item) => item,
        Err(_) => return Err(Error::DecodeLog),
    };
    let is_set = same_text(item.cmd.as_str(), "set");
    if !is_set && !same_text(item.cmd.as_str(), "rm") {
        return Err(Error::UnknownCmd);
    }
    Ok((item, is_set))
}

/// Compares two texts by their bytes.
pub fn same_text(a: &str, b: &str) -> (r: bool)
    ensures
        r == (a@ == b@),
{
    let x = a.as_bytes();
    let y = b.as_bytes();
    if x.len() != y.len() {
        return false;
    }
    let mut i: usize = 0;
    while i < x.len()
        invariant
            x@ == a.spec_bytes(),
            y@ == b.spec_bytes(),
            x@.len() == y@.len(),
            0 <= i <= x@.len(),
            forall|j: int| 0 <= j < i ==> x@[j] == y@[j],
        decreases x@.len() - i,
    {
        if x[i] != y[i] {
            return false;
        }
        i += 1;
    }
    proof {
        assert(x@ =~= y@);
        vstd::utf8::encode_utf8_decode_utf8(a@);
        vstd::utf8::encode_utf8_decode_utf8(b@);
    }
    true
}

impl Segment {
    pub closed spec fn log(&self) -> Seq<Logged> {
        self.log@
    }

    pub closed spec fn spec_path(&self) -> Seq<char> {
        self.path@
    }

    pub closed spec fn spec_id(&self) -> usize {
        self.id
    }

    /// The keys of the index, in the order the index holds them.
    pub closed spec fn keys(&self) -> Seq<Seq<char>> {
        self.slots@.map_values(|s: Slot| s.key@)
    }

    /// What the index holds for a key, in terms of lines of the log.
    pub open spec fn mark(&self, k: Seq<char>) -> Option<Mark> {
        if replay_index(self.log()).contains_key(k) {
            Some(replay_index(self.log())[k])
        } else {
            None
        }
    }

    /// The value of a key in this segment.
    pub open spec fn value(&self, k: Seq<char>) -> Option<Seq<char>> {
        lookup(self.log(), k)
    }

    /// The index is the one replay builds, with each key once; the size is
    /// the file's.
    pub closed spec fn wf(&self) -> bool {
        let log = self.log@;
        let idx = replay_index(log);
        &&& log_wf(log)
        &&& self.size as nat == log_size(log)
        &&& forall|i: int, j: int|
            0 <= i < j < self.slots@.len() ==> self.slots@[i].key@ != self.slots@[j].key@
        &&& forall|j: int|
            0 <= j < self.slots@.len() ==> idx.contains_key(#[trigger] self.slots@[j].key@)
                && self.slots@[j].entry == entry_at(log, idx[self.slots@[j].key@])
        &&& forall|k: Seq<char>|
            idx.contains_key(k) ==> exists|j: int|
                0 <= j < self.slots@.len() && #[trigger] self.slots@[j].key@ == k
    }

    /// What a well-formed segment's index tells of its log.
    pub proof fn lemma_wf(&self)
        requires
            self.wf(),
        ensures
            log_wf(self.log()),
            forall|i: int, j: int|
                0 <= i < j < self.keys().len() ==> self.keys()[i] != self.keys()[j],
            forall|j: int|
                0 <= j < self.keys().len() ==> replay_index(self.log()).contains_key(
                    #[trigger] self.keys()[j],
                ),
            forall|k: Seq<char>|
                replay_index(self.log()).contains_key(k) ==> exists|j: int|
                    0 <= j < self.keys().len() && #[trigger] self.keys()[j] == k,
    {
        let keys = self.keys();
        assert forall|k: Seq<char>|
            replay_index(self.log()).contains_key(k) implies exists|j: int|
                0 <= j < keys.len() && #[trigger] keys[j] == k by {
            let j = choose|j: int| 0 <= j < self.slots@.len() && #[trigger] self.slots@[j].key@ == k;
            assert(keys[j] == k);
        }
        assert forall|j: int| 0 <= j < keys.len() implies replay_index(self.log()).contains_key(
            #[trigger] keys[j],
        ) by {
            assert(replay_index(self.log()).contains_key(self.slots@[j].key@));
        }
    }

    /// The lines of a well-formed segment's file, handed back for reopening,
    /// add up to its size, which fits 64-bit offsets.
    pub proof fn lemma_lines_size(&self, lines: Seq<String>)
        requires
            self.wf(),
            lines.len() == self.log().len(),
            forall|j: int| 0 <= j < lines.len() ==> #[trigger] lines[j]@ == self.log()[j].text,
        ensures
            lines_size(lines, lines.len() as int) == log_size(self.log()),
            lines_size(lines, lines.len() as int) <= u64::MAX,
    {
        lemma_lines_size_prefix(lines, self.log@, lines.len() as int);
    }

    /// A segment over the lines of an existing file, with its index rebuilt
    /// by replaying them from the start.
    pub fn new(path: String, id: usize, lines: &Vec<String>) -> (r: Result<Segment, Error>)
        ensures
            match r {
                Ok(seg) => {
                    &&& seg.wf()
                    &&& seg.spec_path() == path@
                    &&& seg.spec_id() == id
                    &&& seg.log().len() == lines@.len()
                    &&& forall|j: int|
                        0 <= j < lines@.len() ==> (#[trigger] seg.log()[j]).text == lines@[j]@
                            && decode_spec(lines@[j]@) == Some(seg.log()[j].record)
                    &&& forall|j: int, rec: Record|
                        0 <= j < lines@.len() && #[trigger] reads_as(lines@[j]@, rec)
                            ==> seg.log()[j].record == rec
                    &&& forall|j: int| 0 <= j < lines@.len() ==> line_fault(#[trigger] lines@[j]@) is None
                    &&& lines_size(lines@, lines@.len() as int) <= u64::MAX
                },
                Err(e) => exists|j: int|
                    0 <= j < lines@.len() && (forall|i: int|
                        0 <= i < j ==> line_fault(#[trigger] lines@[i]@) is None) && (
                    line_fault(lines@[j]@) == Some(e) || (e == Error::Unexpected && line_fault(
                        lines@[j]@,
                    ) is None && lines_size(lines@, j + 1) > u64::MAX)),
            },
            (forall|j: int| 0 <= j < lines@.len() ==> line_fault(#[trigger] lines@[j]@) is None)
                && lines_size(lines@, lines@.len() as int) <= u64::MAX ==> r is Ok,
            (forall|j: int| 0 <= j < lines@.len() ==> is_record_line(#[trigger] lines@[j]@))
                && lines_size(lines@, lines@.len() as int) <= u64::MAX ==> r is Ok,
    {
        let mut seg = Segment { path, id, slots: Vec::new(), size: 0, log: Ghost(Seq::empty()) };
        let mut i: usize = 0;
        while i < lines.len()
            invariant
                seg.wf(),
                seg.path@ == path@,
                seg.id == id,
                0 <= i <= lines@.len(),
                seg.log@.len() == i,
                seg.size as nat == lines_size(lines@, i as int),
                forall|j: int|
                    0 <= j < i ==> (#[trigger] seg.log@[j]).text == lines@[j]@ && decode_spec(
                        lines@[j]@,
                    ) == Some(seg.log@[j].record),
                forall|j: int| 0 <= j < i ==> line_fault(#[trigger] lines@[j]@) is None,
                forall|j: int, rec: Record|
                    0 <= j < i && #[trigger] reads_as(lines@[j]@, rec) ==> seg.log@[j].record
                        == rec,
            decreases lines@.len() - i,
        {
            let line = &lines[i];
            let (item, is_set) = match check_line(line.as_str()) {
                Ok(checked) => checked,
                Err(e) => {
                    proof {
                        assert(line_fault(lines@[i as int]@) == Some(e));
                        assert(!is_record_line(lines@[i as int]@));
                    }
                    return Err(e);
                },
            };
            let ghost old_log = seg.log@;
            match seg.append(item, line.as_str(), is_set) {
                Ok(()) => {},
                Err(e) => {
                    proof {
                        assert(lines_size(lines@, i + 1) == lines_size(lines@, i as int) + byte_len(
                            lines@[i as int]@,
                        ));
                        assert(line_fault(lines@[i as int]@) is None);
                        lemma_lines_size_mono(lines@, i + 1, lines@.len() as int);
                    }
                    return Err(e);
                },
            }
            proof {
                assert forall|j: int, r2: Record|
                    0 <= j < i + 1 && #[trigger] reads_as(lines@[j]@, r2) implies seg.log@[j].record
                    == r2 by {
                    if j < i {
                        assert(seg.log@[j] == old_log[j]);
                    }
                }
                assert(forall|j: int| 0 <= j < i ==> seg.log@[j] == old_log[j]);
                assert(lines_size(lines@, i + 1) == lines_size(lines@, i as int) + byte_len(
                    lines@[i as int]@,
                ));
            }
            i += 1;
        }
        Ok(seg)
    }

    /// Stores `value` under `key`: returns the line the caller appends to the
    /// file, and points the index at the offset where that line starts.
    pub fn set(&mut self, key: String, value: String) -> (r: Result<String, Error>)
        requires
            old(self).wf(),
        ensures
            final(self).wf(),
            final(self).spec_path() == old(self).spec_path(),
            final(self).spec_id() == old(self).spec_id(),
            match r {
                Ok(line) => {
                    &&& line@ == record_line(set_record(key@, value@))
                    &&& final(self).log() == old(self).log().push(
                        Logged { text: line@, record: set_record(key@, value@) },
                    )
                    &&& final(self).mark(key@) == Some(Mark::Exist(old(self).log().len()))
                    &&& final(self).value(key@) == Some(value@)
                },
                Err(_) => true,
            },
            forall|k: Seq<char>|
                k != key@ ==> #[trigger] final(self).mark(k) == old(self).mark(k) && final(self).value(k) == old(self).value(k),
            match r {
                Ok(_) => true,
                Err(e) => {
                    &&& e == Error::Unexpected
                    &&& *final(self) == *old(self)
                    &&& log_size(old(self).log()) + byte_len(record_line(set_record(key@, value@)))
                        > u64::MAX
                },
            },
    {
        let item = LogItem::new("set".to_owned(), key, Some(value));
        self.write(item, true)
    }

    /// Removes `key`, which must have a live value here: returns the line the
    /// caller appends to the file, and marks the key removed at its offset.
    pub fn remove(&mut self, key: String) -> (r: Result<String, Error>)
        requires
            old(self).wf(),
        ensures
            final(self).wf(),
            final(self).spec_path() == old(self).spec_path(),
            final(self).spec_id() == old(self).spec_id(),
            match r {
                Ok(line) => {
                    &&& old(self).mark(key@) matches Some(Mark::Exist(_))
                    &&& line@ == record_line(rm_record(key@))
                    &&& final(self).log() == old(self).log().push(
                        Logged { text: line@, record: rm_record(key@) },
                    )
                    &&& final(self).mark(key@) == Some(Mark::Removed(old(self).log().len()))
                    &&& final(self).value(key@) is None
                },
                Err(_) => true,
            },
            forall|k: Seq<char>|
                k != key@ ==> #[trigger] final(self).mark(k) == old(self).mark(k) && final(self).value(k) == old(self).value(k),
            match r {
                Ok(_) => true,
                Err(e) => {
                    &&& *final(self) == *old(self)
                    &&& e == Error::RemoveNotExistKey <==> !(old(self).mark(
                        key@,
                    ) matches Some(Mark::Exist(_)))
                    &&& e == Error::Unexpected ==> log_size(old(self).log()) + byte_len(
                        record_line(rm_record(key@)),
                    ) > u64::MAX
                    &&& e == Error::RemoveNotExistKey || e == Error::Unexpected
                },
            },
    {
        let live = match self.find_slot(key.as_str()) {
            Some(j) => match self.slots[j].entry {
                IndexEntry::Exist(_) => true,
                IndexEntry::Removed(_) => false,
            },
            None => false,
        };
        proof {
            if replay_index(self.log@).contains_key(key@) {
                let j = choose|j: int| 0 <= j < self.slots@.len() && #[trigger] self.slots@[j].key@ == key@;
                assert(self.slots@[j].key@ == key@);
            }
        }
        if !live {
            return Err(Error::RemoveNotExistKey);
        }
        let item = LogItem::new("rm".to_owned(), key, None);
        let r = self.write(item, false);
        proof {
            reveal_strlit("set");
            reveal_strlit("rm");
            assert(set_cmd()[0] != rm_cmd()[0]);
            if r is Ok {
                assert(self.log@.drop_last() =~= old(self).log());
            }
        }
        r
    }

    /// Encodes a set or removal, appends it to the log model and indexes it.
    fn write(&mut self, item: LogItem, is_set: bool) -> (r: Result<String, Error>)
        requires
            old(self).wf(),
            item@.cmd == (if is_set {
                set_cmd()
            } else {
                rm_cmd()
            }),
        ensures
            final(self).wf(),
            final(self).path == old(self).path,
            final(self).id == old(self).id,
            match r {
                Ok(line) => {
                    &&& line@ == record_line(item@)
                    &&& final(self).log() == old(self).log().push(
                        Logged { text: line@, record: item@ },
                    )
                },
                Err(e) => {
                    &&& e == Error::Unexpected
                    &&& *final(self) == *old(self)
                    &&& log_size(old(self).log()) + byte_len(record_line(item@)) > u64::MAX
                },
            },
            forall|k: Seq<char>|
                k != item@.key ==> #[trigger] final(self).mark(k) == old(self).mark(k) && final(self).value(k) == old(self).value(k),
    {
        let ghost rec = item@;
        proof {
            reveal_strlit("set");
            reveal_strlit("rm");
            assert(set_cmd()[0] != rm_cmd()[0]);
        }
        let mut line = match LogEncoder::encode(&item) {
            Ok(text) => text,
            Err(_) => return Err(Error::Unexpected),
        };
        line.append("\n");
        proof {
            reveal_strlit("\n");
            assert(line@ =~= record_line(rec));
        }
        match self.append(item, line.as_str(), is_set) {
            Ok(()) => {
                proof {
                    assert(self.log@.drop_last() =~= old(self).log());
                    assert forall|k: Seq<char>| k != rec.key implies #[trigger] self.mark(k) == old(self).mark(k) && self.value(k) == old(self).value(k) by {
                        if replay_index(old(self).log()).contains_key(k) {
                            lemma_replay_marks(old(self).log(), k);
                        }
                    }
                }
                Ok(line)
            },
            Err(e) => Err(e),
        }
    }

    /// Whether the index holds the key, live or removed.
    pub fn contains_key(&self, key: &str) -> (r: bool)
        requires
            self.wf(),
        ensures
            r == self.mark(key@) is Some,
    {
        proof {
            if replay_index(self.log@).contains_key(key@) {
                let j = choose|j: int| 0 <= j < self.slots@.len() && #[trigger] self.slots@[j].key@ == key@;
                assert(self.slots@[j].key@ == key@);
            }
        }
        self.find_slot(key).is_some()
    }

    /// What the index holds for a key: the offset of its latest line, and
    /// whether that line is a set or a removal.
    pub fn entry(&self, key: &str) -> (r: Option<IndexEntry>)
        requires
            self.wf(),
        ensures
            match self.mark(key@) {
                Some(m) => r == Some(entry_at(self.log(), m)),
                None => r is None,
            },
    {
        proof {
            if replay_index(self.log@).contains_key(key@) {
                let j = choose|j: int| 0 <= j < self.slots@.len() && #[trigger] self.slots@[j].key@ == key@;
                assert(self.slots@[j].key@ == key@);
            }
        }
        match self.find_slot(key) {
            Some(j) => Some(self.slots[j].entry),
            None => None,
        }
    }

    /// The value of `key`, given `line`: what the caller read at the offset
    /// that `entry` gave for the key, or `None` at the end of the file. For a
    /// key that is unknown or removed the line is not looked at. When `line`
    /// is the line of the log at that offset, the result is the key's value.
    pub fn get(&self, key: &str, line: Option<String>) -> (r: Result<Option<String>, Error>)
        requires
            self.wf(),
        ensures
            match self.mark(key@) {
                Some(Mark::Exist(_)) => result_view(r) == read_spec(key@, opt_text(line)),
                _ => r == Ok::<Option<String>, Error>(None),
            },
            self.mark(key@) matches Some(Mark::Exist(p)) && opt_text(line) == Some(
                self.log()[p as int].text,
            ) && self.log()[p as int].record.value is Some ==> result_view(r) == Ok::<
                Option<Seq<char>>,
                Error,
            >(self.value(key@)),
    {
        match self.entry(key) {
            Some(IndexEntry::Exist(_)) => {},
            _ => return Ok(None),
        }
        proof {
            if let Some(Mark::Exist(p)) = self.mark(key@) {
                lemma_replay_marks(self.log@, key@);
                assert(log_wf(self.log@));
                assert(valid_cmd(self.log@[p as int].record));
            }
        }
        let text = match line {
            Some(t) => t,
            None => return Err(Error::Unexpected),
        };
        let item = match LogEncoder::decode(text.as_str()) {
            Ok(item) => item,
            Err(_) => return Err(Error::DecodeLog),
        };
        if !same_text(item.key.as_str(), key) || !same_text(item.cmd.as_str(), "set") {
            return Err(Error::Unexpected);
        }
        match item.value {
            Some(v) => Ok(Some(v)),
            None => Err(Error::Unexpected),
        }
    }

    /// The size of the file in bytes.
    pub fn len(&self) -> (r: u64)
        requires
            self.wf(),
        ensures
            r as nat == log_size(self.log()),
    {
        self.size
    }

    pub fn path(&self) -> (r: &String)
        ensures
            r@ == self.spec_path(),
    {
        &self.path
    }

    /// The identifier of the segment: the number in its file name.
    pub fn id(&self) -> (r: usize)
        ensures
            r == self.spec_id(),
    {
        self.id
    }

    /// The offsets of the lines the index points at, in index order: the
    /// lines that a compacted copy of the file keeps.
    pub fn scan_offsets(&self) -> (r: Vec<u64>)
        requires
            self.wf(),
        ensures
            r@.len() == self.keys().len(),
            forall|j: int|
                0 <= j < r@.len() ==> r@[j] as nat == offset_at(
                    self.log(),
                    mark_pos(replay_index(self.log())[self.keys()[j]]) as int,
                ),
    {
        let mut offsets: Vec<u64> = Vec::new();
        let mut j: usize = 0;
        while j < self.slots.len()
            invariant
                self.wf(),
                0 <= j <= self.slots@.len(),
                offsets@.len() == j,
                forall|i: int|
                    0 <= i < j ==> offsets@[i] as nat == offset_at(
                        self.log@,
                        mark_pos(replay_index(self.log@)[self.slots@[i].key@]) as int,
                    ),
            decreases self.slots@.len() - j,
        {
            let offset = match self.slots[j].entry {
                IndexEntry::Exist(o) => o,
                IndexEntry::Removed(o) => o,
            };
            proof {
                let k = self.slots@[j as int].key@;
                lemma_replay_marks(self.log@, k);
                lemma_offset_mono(self.log@, mark_pos(replay_index(self.log@)[k]) as int, self.log@.len() as int);
            }
            offsets.push(offset);
            j += 1;
        }
        offsets
    }

    /// Appends a record to the log model and points the index at it.
    fn append(&mut self, item: LogItem, line: &str, is_set: bool) -> (r: Result<(), Error>)
        requires
            old(self).wf(),
            is_set == (item@.cmd == set_cmd()),
            valid_cmd(item@),
            reads_as(line@, item@),
            line@.len() > 0,
        ensures
            final(self).path == old(self).path,
            final(self).id == old(self).id,
            match r {
                Ok(()) => {
                    &&& final(self).wf()
                    &&& final(self).log() == old(self).log().push(
                        Logged { text: line@, record: item@ },
                    )
                    &&& final(self).size as nat == old(self).size + byte_len(line@)
                },
                Err(e) => {
                    &&& e == Error::Unexpected
                    &&& *final(self) == *old(self)
                    &&& old(self).size + byte_len(line@) > u64::MAX
                },
            },
    {
        let n = line.as_bytes().len() as u64;
        if n > u64::MAX - self.size {
            return Err(Error::Unexpected);
        }
        let offset = self.size;
        let entry = if is_set {
            IndexEntry::Exist(offset)
        } else {
            IndexEntry::Removed(offset)
        };
        let ghost old_log = self.log@;
        let ghost old_slots = self.slots@;
        let ghost new_log = old_log.push(Logged { text: line@, record: item@ });
        let found = self.find_slot(item.key.as_str());
        let ghost key = item@.key;
        match found {
            Some(j) => {
                let k = item.key;
                self.slots.set(j, Slot { key: k, entry });
            },
            None => {
                let k = item.key;
                self.slots.push(Slot { key: k, entry });
            },
        }
        self.size = self.size + n;
        self.log = Ghost(new_log);
        proof {
            assert(new_log.drop_last() =~= old_log);
            lemma_offset_push(old_log, Logged { text: line@, record: item@ }, old_log.len() as int);
            let idx = replay_index(new_log);
            let old_idx = replay_index(old_log);
            assert forall|i: int| 0 <= i < new_log.len() implies valid_cmd(
                #[trigger] new_log[i].record,
            ) && reads_as(new_log[i].text, new_log[i].record) && new_log[i].text.len() > 0 by {
                if i < old_log.len() {
                    assert(new_log[i] == old_log[i]);
                }
            }
            assert forall|j: int| 0 <= j < self.slots@.len() implies idx.contains_key(
                #[trigger] self.slots@[j].key@,
            ) && self.slots@[j].entry == entry_at(new_log, idx[self.slots@[j].key@]) by {
                let kj = self.slots@[j].key@;
                if kj != key {
                    lemma_replay_marks(old_log, kj);
                    lemma_offset_push(
                        old_log,
                        Logged { text: line@, record: item@ },
                        mark_pos(old_idx[kj]) as int,
                    );
                }
            }
            assert forall|k: Seq<char>| idx.contains_key(k) implies exists|j: int|
                0 <= j < self.slots@.len() && #[trigger] self.slots@[j].key@ == k by {
                if k == key {
                    match found {
                        Some(j) => assert(self.slots@[j as int].key@ == k),
                        None => assert(self.slots@[self.slots@.len() - 1].key@ == k),
                    }
                } else {
                    assert(old_idx.contains_key(k));
                    let j = choose|j: int| 0 <= j < old_slots.len() && #[trigger] old_slots[j].key@ == k;
                    assert(self.slots@[j].key@ == k);
                }
            }
        }
        Ok(())
    }

    /// The place of a key in the index, if it is there.
    fn find_slot(&self, key: &str) -> (r: Option<usize>)
        ensures
            match r {
                Some(j) => j < self.slots@.len() && self.slots@[j as int].key@ == key@,
                None => forall|j: int| 0 <= j < self.slots@.len() ==> self.slots@[j].key@ != key@,
            },
    {
        let mut j: usize = 0;
        while j < self.slots.len()
            invariant
                0 <= j <= self.slots@.len(),
                forall|i: int| 0 <= i < j ==> self.slots@[i].key@ != key@,
            decreases self.slots@.len() - j,
        {
            if same_text(self.slots[j].key.as_str(), key) {
                return Some(j);
            }
            j += 1;
        }
        None
    }
}

/// Makes segments by kind; `"ptr"`, the pointer-indexed segment, is the one
/// kind there is.
pub struct LogFileBuilder;

impl LogFileBuilder {
    pub fn build(path: String, id: usize, lines: &Vec<String>, mode: &str) -> (r: Result<
        Segment,
        Error,
    >)
        ensures
            mode@ != "ptr"@ ==> r == Err::<Segment, Error>(Error::UnknownMode),
            mode@ == "ptr"@ ==> match r {
                Ok(seg) => seg.wf() && seg.spec_path() == path@ && seg.spec_id() == id
                    && seg.log().len() == lines@.len() && forall|j: int|
                    0 <= j < lines@.len() ==> (#[trigger] seg.log()[j]).text == lines@[j]@
                        && decode_spec(lines@[j]@) == Some(seg.log()[j].record),
                Err(e) => e != Error::UnknownMode && e != Error::RemoveNotExistKey,
            },
            mode@ == "ptr"@ ==> (r is Ok <==> (forall|j: int|
                0 <= j < lines@.len() ==> line_fault(#[trigger] lines@[j]@) is None) && lines_size(
                lines@,
                lines@.len() as int,
            ) <= u64::MAX),
            mode@ == "ptr"@ && (forall|j: int|
                0 <= j < lines@.len() ==> is_record_line(#[trigger] lines@[j]@)) && lines_size(
                lines@,
                lines@.len() as int,
            ) <= u64::MAX ==> r is Ok,
    {
        if !same_text(mode, "ptr") {
            return Err(Error::UnknownMode);
        }
        Segment::new(path, id, lines)
    }
}

} // verus!
