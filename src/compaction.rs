//! What compacting a segment keeps: the lines its index points at, in index
//! order, and nothing else.

use crate::segment::{
    lemma_byte_len_pos, lemma_replay_marks, byte_len, log_size, log_wf, lookup, mark_pos,
    offset_at, replay_index, set_cmd, Logged, Mark, Segment,
};
use crate::codec::Record;
use crate::files::{lemma_same_records_replay, records_of};
use crate::segment::reads_as;
use vstd::prelude::*;

verus! {

/// Where the `j`-th line kept by compaction stands in the segment's log.
pub open spec fn kept_pos(s: Segment, j: int) -> int {
    mark_pos(replay_index(s.log())[s.keys()[j]]) as int
}

/// The log of a compacted copy of a segment: the line each index entry
/// points at, in index order.
pub open spec fn compacted_log(s: Segment) -> Seq<Logged> {
    Seq::new(s.keys().len(), |j: int| s.log()[kept_pos(s, j)])
}

/// The mark a line at position `j` with command `cmd` leaves.
pub open spec fn mark_for(cmd: Seq<char>, j: nat) -> Mark {
    if cmd == set_cmd() {
        Mark::Exist(j)
    } else {
        Mark::Removed(j)
    }
}

proof fn lemma_kept_lines(s: Segment)
    requires
        s.wf(),
    ensures
        forall|j: int|
            0 <= j < s.keys().len() ==> 0 <= kept_pos(s, j) < s.log().len() && (
            #[trigger] compacted_log(s)[j]).record.key == s.keys()[j] && (replay_index(
                s.log(),
            )[s.keys()[j]] is Exist) == (compacted_log(s)[j].record.cmd == set_cmd()),
{
    s.lemma_wf();
    assert forall|j: int| 0 <= j < s.keys().len() implies 0 <= kept_pos(s, j) < s.log().len() && (
    #[trigger] compacted_log(s)[j]).record.key == s.keys()[j] && (replay_index(
        s.log(),
    )[s.keys()[j]] is Exist) == (compacted_log(s)[j].record.cmd == set_cmd()) by {
        lemma_replay_marks(s.log(), s.keys()[j]);
    }
}

/// Replaying the first `m` lines of a log whose lines hold distinct keys maps
/// each of those keys to its own line.
proof fn lemma_replay_distinct(c: Seq<Logged>, keys: Seq<Seq<char>>, m: int)
    requires
        keys.len() == c.len(),
        0 <= m <= c.len(),
        forall|j: int| 0 <= j < c.len() ==> #[trigger] c[j].record.key == keys[j],
        forall|i: int, j: int| 0 <= i < j < keys.len() ==> keys[i] != keys[j],
    ensures
        forall|j: int|
            0 <= j < m ==> replay_index(c.take(m)).contains_key(#[trigger] keys[j])
                && replay_index(c.take(m))[keys[j]] == mark_for(c[j].record.cmd, j as nat),
        forall|k: Seq<char>|
            replay_index(c.take(m)).contains_key(k) ==> exists|j: int|
                0 <= j < m && #[trigger] keys[j] == k,
    decreases m,
{
    if m > 0 {
        lemma_replay_distinct(c, keys, m - 1);
        assert(c.take(m).drop_last() =~= c.take(m - 1));
        assert(c.take(m)[m - 1] == c[m - 1]);
        assert forall|k: Seq<char>| replay_index(c.take(m)).contains_key(k) implies exists|j: int|
            0 <= j < m && #[trigger] keys[j] == k by {
            if k == keys[m - 1] {
            } else {
                assert(replay_index(c.take(m - 1)).contains_key(k));
            }
        }
    } else {
        assert(c.take(0).len() == 0);
    }
}

/// Compacting a segment keeps the state of every key: replaying the kept
/// lines knows exactly the keys the index knows, marks each live or removed as
/// before, and gives each key the value it has in the segment.
pub proof fn lemma_compaction_keeps_values(s: Segment)
    requires
        s.wf(),
    ensures
        log_wf(compacted_log(s)),
        forall|k: Seq<char>|
            #[trigger] replay_index(compacted_log(s)).contains_key(k) <==> s.mark(k) is Some,
        forall|k: Seq<char>|
            s.mark(k) is Some ==> (replay_index(compacted_log(s))[k] is Exist) == (s.mark(
                k,
            )->Some_0 is Exist),
        forall|k: Seq<char>| #[trigger] lookup(compacted_log(s), k) == s.value(k),
{
    s.lemma_wf();
    lemma_kept_lines(s);
    let c = compacted_log(s);
    let keys = s.keys();
    let idx = replay_index(s.log());
    lemma_replay_distinct(c, keys, c.len() as int);
    assert(c.take(c.len() as int) =~= c);
    let cidx = replay_index(c);
    assert forall|i: int| 0 <= i < c.len() implies crate::segment::valid_cmd(
        #[trigger] c[i].record,
    ) && crate::segment::reads_as(c[i].text, c[i].record) && c[i].text.len() > 0 by {
        assert(c[i] == s.log()[kept_pos(s, i)]);
    }
    assert forall|k: Seq<char>| #[trigger] cidx.contains_key(k) <==> s.mark(k) is Some by {
        if idx.contains_key(k) {
            let j = choose|j: int| 0 <= j < keys.len() && #[trigger] keys[j] == k;
            assert(cidx.contains_key(keys[j]));
        }
        if cidx.contains_key(k) {
            let j = choose|j: int| 0 <= j < c.len() && #[trigger] keys[j] == k;
            assert(idx.contains_key(keys[j]));
        }
    }
    assert forall|k: Seq<char>|
        s.mark(k) is Some implies (cidx[k] is Exist) == (s.mark(k)->Some_0 is Exist) && lookup(
            c,
            k,
        ) == s.value(k) by {
        let j = choose|j: int| 0 <= j < keys.len() && #[trigger] keys[j] == k;
        assert(cidx[keys[j]] == mark_for(c[j].record.cmd, j as nat));
        assert(c[j] == s.log()[kept_pos(s, j)]);
    }
    assert forall|k: Seq<char>| #[trigger] lookup(c, k) == s.value(k) by {
        if s.mark(k) is None {
            assert(!cidx.contains_key(k));
        }
    }
}

/// The positions kept among the first `m` lines of the compacted log.
pub open spec fn kept_set(s: Segment, m: int) -> Set<int>
    decreases m,
{
    if m <= 0 {
        Set::empty()
    } else {
        kept_set(s, m - 1).insert(kept_pos(s, m - 1))
    }
}

/// The bytes of the lines among the first `b` of a log whose positions are in `ps`.
pub open spec fn chosen_size(log: Seq<Logged>, ps: Set<int>, b: int) -> nat
    decreases b,
{
    if b <= 0 || log.len() < b {
        0
    } else {
        chosen_size(log, ps, b - 1) + if ps.contains(b - 1) {
            byte_len(log[b - 1].text)
        } else {
            0
        }
    }
}

proof fn lemma_kept_set_members(s: Segment, m: int, p: int)
    requires
        kept_set(s, m).contains(p),
    ensures
        exists|a: int| 0 <= a < m && kept_pos(s, a) == p,
    decreases m,
{
    if m > 0 && p != kept_pos(s, m - 1) {
        lemma_kept_set_members(s, m - 1, p);
    }
}

proof fn lemma_chosen_insert(log: Seq<Logged>, ps: Set<int>, q: int, b: int)
    requires
        !ps.contains(q),
        0 <= q,
        0 <= b <= log.len(),
    ensures
        chosen_size(log, ps.insert(q), b) == chosen_size(log, ps, b) + if q < b {
            byte_len(log[q].text)
        } else {
            0
        },
    decreases b,
{
    if b > 0 {
        lemma_chosen_insert(log, ps, q, b - 1);
    }
}

proof fn lemma_chosen_bound(log: Seq<Logged>, ps: Set<int>, i: int, b: int)
    requires
        0 <= b <= log.len(),
        0 <= i < log.len(),
        !ps.contains(i),
    ensures
        chosen_size(log, ps, b) + (if i < b {
            byte_len(log[i].text)
        } else {
            0
        }) <= offset_at(log, b),
    decreases b,
{
    if b > 0 {
        lemma_chosen_bound(log, ps, i, b - 1);
    }
}

proof fn lemma_compacted_size(s: Segment, m: int)
    requires
        s.wf(),
        0 <= m <= s.keys().len(),
    ensures
        offset_at(compacted_log(s), m) == chosen_size(s.log(), kept_set(s, m), s.log().len() as int),
        forall|p: int| kept_set(s, m).contains(p) ==> 0 <= p < s.log().len(),
    decreases m,
{
    s.lemma_wf();
    lemma_kept_lines(s);
    if m > 0 {
        lemma_compacted_size(s, m - 1);
        let q = kept_pos(s, m - 1);
        if kept_set(s, m - 1).contains(q) {
            lemma_kept_set_members(s, m - 1, q);
            let a = choose|a: int| 0 <= a < m - 1 && kept_pos(s, a) == q;
            assert(compacted_log(s)[a].record.key == s.keys()[a]);
            assert(compacted_log(s)[m - 1].record.key == s.keys()[m - 1]);
        }
        lemma_chosen_insert(s.log(), kept_set(s, m - 1), q, s.log().len() as int);
        assert(compacted_log(s)[m - 1] == s.log()[q]);
        assert(0 <= q < s.log().len());
    } else {
        lemma_chosen_empty(s.log(), s.log().len() as int);
    }
}

proof fn lemma_chosen_empty(log: Seq<Logged>, b: int)
    requires
        0 <= b <= log.len(),
    ensures
        chosen_size(log, Set::empty(), b) == 0,
    decreases b,
{
    if b > 0 {
        lemma_chosen_empty(log, b - 1);
    }
}

/// Compacting a segment in which some key has two set lines makes its file
/// strictly smaller: the earlier line is not kept.
pub proof fn lemma_compaction_shrinks(s: Segment, k: Seq<char>, i: int, j: int)
    requires
        s.wf(),
        0 <= i < j < s.log().len(),
        s.log()[i].record.key == k,
        s.log()[j].record.key == k,
        s.log()[i].record.cmd == set_cmd(),
        s.log()[j].record.cmd == set_cmd(),
    ensures
        log_size(compacted_log(s)) < log_size(s.log()),
{
    s.lemma_wf();
    lemma_kept_lines(s);
    let n = s.keys().len() as int;
    lemma_compacted_size(s, n);
    if kept_set(s, n).contains(i) {
        lemma_kept_set_members(s, n, i);
        let a = choose|a: int| 0 <= a < n && kept_pos(s, a) == i;
        assert(compacted_log(s)[a].record.key == s.keys()[a]);
        lemma_replay_marks(s.log(), k);
        assert(s.log()[j].record.key == k);
    }
    lemma_chosen_bound(s.log(), kept_set(s, n), i, s.log().len() as int);
    assert(log_wf(s.log()));
    assert(s.log()[i].text.len() > 0);
    lemma_byte_len_pos(s.log()[i].text);
}

/// Compaction as a whole keeps every key: a segment rebuilt by replaying the
/// kept lines, as the compactor does once it has written them to the
/// segment's file, knows exactly the keys `s` knows, each live or removed as
/// in `s` and with the same value. So `LogFiles::replace_last_immutable` with
/// it keeps every value of the store.
pub proof fn lemma_compacted_replay(s: Segment, t: Segment)
    requires
        s.wf(),
        t.log().len() == compacted_log(s).len(),
        forall|j: int, rec: Record|
            0 <= j < compacted_log(s).len() && #[trigger] reads_as(compacted_log(s)[j].text, rec)
                ==> t.log()[j].record == rec,
    ensures
        forall|k: Seq<char>|
            #[trigger] t.mark(k) is Some == s.mark(k) is Some && t.value(k) == s.value(k),
        forall|k: Seq<char>|
            s.mark(k) is Some ==> (t.mark(k)->Some_0 is Exist) == (s.mark(k)->Some_0 is Exist),
{
    let c = compacted_log(s);
    lemma_compaction_keeps_values(s);
    assert forall|j: int| 0 <= j < c.len() implies records_of(t.log())[j] == records_of(c)[j] by {
        assert(reads_as(c[j].text, c[j].record));
    }
    assert(records_of(t.log()) =~= records_of(c));
    lemma_same_records_replay(t.log(), c);
}

} // verus!
