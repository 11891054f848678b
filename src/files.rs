//! The segment set of a store: the mutable segment that takes writes, the
//! immutable ones before it, and the counter that names the next segment.

use crate::naming::{file_name, join_path, path_in, segment_name};
use crate::segment::{
    byte_len, log_size, lookup, record_line, replay_index, rm_record, set_record, Error, Logged,
    Mark, Segment,
};
use vstd::prelude::*;

verus! {

/// The size past which the mutable segment is compacted, in bytes.
pub const COMPACTION_THRESHOLD: u64 = 1048576;

/// Which segment of a set holds a key.
#[derive(Debug, Clone, Copy, PartialEq, Eq)]
pub enum Located {
    Mutable,
    Immutable(usize),
}

/// The value of a key in a sequence of segments, oldest first: the value in
/// the newest segment whose index knows the key.
pub open spec fn newest_value(segs: Seq<Segment>, k: Seq<char>) -> Option<Seq<char>>
    decreases segs.len(),
{
    if segs.len() == 0 {
        None
    } else if segs.last().mark(k) is Some {
        segs.last().value(k)
    } else {
        newest_value(segs.drop_last(), k)
    }
}

/// The records of a segment's lines, in order.
pub open spec fn records(s: Segment) -> Seq<crate::codec::Record> {
    records_of(s.log())
}

pub open spec fn records_of(log: Seq<Logged>) -> Seq<crate::codec::Record> {
    Seq::new(log.len(), |i: int| log[i].record)
}

/// The segments of a store with their identifiers, and the identifier the
/// next segment gets.
pub struct LogFiles {
    mutable: Segment,
    immutables: Vec<Segment>,
    next_id: usize,
    dir_path: String,
}

impl LogFiles {
    /// All segments, oldest first; the mutable one is last.
    pub open spec fn segments(&self) -> Seq<Segment> {
        self.spec_immutables().push(self.spec_mutable())
    }

    pub closed spec fn spec_mutable(&self) -> Segment {
        self.mutable
    }

    pub closed spec fn spec_immutables(&self) -> Seq<Segment> {
        self.immutables@
    }

    pub closed spec fn spec_next_id(&self) -> usize {
        self.next_id
    }

    pub closed spec fn spec_dir(&self) -> Seq<char> {
        self.dir_path@
    }

    /// The identifiers of the segments, oldest first.
    pub open spec fn ids(&self) -> Seq<usize> {
        self.segments().map_values(|s: Segment| s.spec_id())
    }

    /// The value the store gives a key.
    pub open spec fn value(&self, k: Seq<char>) -> Option<Seq<char>> {
        newest_value(self.segments(), k)
    }

    /// Every segment is well formed, identifiers rise from the oldest segment
    /// to the mutable one, and the counter is above all of them.
    pub open spec fn wf(&self) -> bool {
        &&& forall|i: int| 0 <= i < self.segments().len() ==> (#[trigger] self.segments()[i]).wf()
        &&& forall|i: int, j: int|
            0 <= i < j < self.segments().len() ==> self.segments()[i].spec_id()
                < self.segments()[j].spec_id()
        &&& forall|i: int|
            0 <= i < self.segments().len() ==> (#[trigger] self.segments()[i]).spec_id()
                < self.spec_next_id()
    }

    pub fn new(mutable: Segment, immutables: Vec<Segment>, next_id: usize, dir_path: String) -> (r:
        LogFiles)
        requires
            ({
                let segs = immutables@.push(mutable);
                &&& forall|i: int| 0 <= i < segs.len() ==> (#[trigger] segs[i]).wf()
                &&& forall|i: int, j: int|
                    0 <= i < j < segs.len() ==> segs[i].spec_id() < segs[j].spec_id()
                &&& forall|i: int| 0 <= i < segs.len() ==> (#[trigger] segs[i]).spec_id() < next_id
            }),
        ensures
            r.wf(),
            r.spec_mutable() == mutable,
            r.spec_immutables() == immutables@,
            r.spec_next_id() == next_id,
            r.spec_dir() == dir_path@,
    {
        LogFiles { mutable, immutables, next_id, dir_path }
    }

    /// Identifiers of a well-formed set are distinct, and the counter exceeds
    /// the largest.
    pub proof fn lemma_ids_distinct(&self)
        requires
            self.wf(),
        ensures
            forall|i: int, j: int| 0 <= i < j < self.ids().len() ==> self.ids()[i] != self.ids()[j],
            forall|i: int| 0 <= i < self.ids().len() ==> self.ids()[i] < self.spec_next_id(),
            self.ids().last() == self.spec_mutable().spec_id(),
    {
        assert forall|i: int| 0 <= i < self.ids().len() implies self.ids()[i] < self.spec_next_id() by {
            assert(self.segments()[i].spec_id() < self.spec_next_id());
        }
    }

    pub fn mutable(&self) -> (r: &Segment)
        requires
            self.wf(),
        ensures
            *r == self.spec_mutable(),
            r.wf(),
    {
        assert(self.segments()[self.segments().len() - 1] == self.mutable);
        &self.mutable
    }

    pub fn immutables(&self) -> (r: &Vec<Segment>)
        requires
            self.wf(),
        ensures
            r@ == self.spec_immutables(),
            forall|i: int| 0 <= i < r@.len() ==> (#[trigger] r@[i]).wf(),
    {
        assert forall|i: int| 0 <= i < self.immutables@.len() implies (
        #[trigger] self.immutables@[i]).wf() by {
            assert(self.segments()[i] == self.immutables@[i]);
        }
        &self.immutables
    }

    pub fn next_id(&self) -> (r: usize)
        ensures
            r == self.spec_next_id(),
    {
        self.next_id
    }

    pub fn dir_path(&self) -> (r: &String)
        ensures
            r@ == self.spec_dir(),
    {
        &self.dir_path
    }

    /// The segment that answers for a key: the mutable one if its index knows
    /// the key, else the newest immutable one whose index does.
    pub fn locate(&self, key: &str) -> (r: Option<Located>)
        requires
            self.wf(),
        ensures
            match r {
                None => {
                    &&& self.spec_mutable().mark(key@) is None
                    &&& forall|i: int|
                        0 <= i < self.spec_immutables().len() ==> (
                        #[trigger] self.spec_immutables()[i]).mark(key@) is None
                },
                Some(Located::Mutable) => self.spec_mutable().mark(key@) is Some,
                Some(Located::Immutable(i)) => {
                    &&& i < self.spec_immutables().len()
                    &&& self.spec_mutable().mark(key@) is None
                    &&& self.spec_immutables()[i as int].mark(key@) is Some
                    &&& forall|j: int|
                        i < j < self.spec_immutables().len() ==> (
                        #[trigger] self.spec_immutables()[j]).mark(key@) is None
                },
            },
            match r {
                None => self.value(key@) is None,
                Some(at) => self.value(key@) == self.spec_segment(at).value(key@),
            },
    {
        assert(self.segments().last() == self.mutable);
        assert(self.segments()[self.segments().len() - 1].wf());
        if self.mutable.contains_key(key) {
            return Some(Located::Mutable);
        }
        proof {
            assert(self.segments().drop_last() =~= self.immutables@);
            assert(self.immutables@.take(self.immutables@.len() as int) =~= self.immutables@);
        }
        let mut i = self.immutables.len();
        while i > 0
            invariant
                self.wf(),
                i <= self.immutables@.len(),
                self.mutable.mark(key@) is None,
                forall|j: int| i <= j < self.immutables@.len() ==> (
                #[trigger] self.immutables@[j]).mark(key@) is None,
                newest_value(self.segments(), key@) == newest_value(self.immutables@.take(i as int), key@),
            decreases i,
        {
            assert(self.segments()[i - 1] == self.immutables@[i - 1]);
            assert(self.segments()[i - 1].wf());
            if self.immutables[i - 1].contains_key(key) {
                proof {
                    assert(self.immutables@.take(i as int).last() == self.immutables@[i - 1]);
                }
                return Some(Located::Immutable(i - 1));
            }
            proof {
                assert(self.immutables@.take(i as int).drop_last() =~= self.immutables@.take(i - 1));
            }
            i -= 1;
        }
        proof {
            assert(self.immutables@.take(0).len() == 0);
            assert forall|j: int| 0 <= j < self.segments().len() implies (
            #[trigger] self.segments()[j]).mark(key@) is None by {
                if j < self.immutables@.len() {
                    assert(self.segments()[j] == self.immutables@[j]);
                }
            }
        }
        None
    }

    pub open spec fn spec_segment(&self, at: Located) -> Segment {
        match at {
            Located::Mutable => self.spec_mutable(),
            Located::Immutable(i) => self.spec_immutables()[i as int],
        }
    }

    /// The segment at a place that `locate` gave.
    pub fn segment(&self, at: Located) -> (r: &Segment)
        requires
            self.wf(),
            at matches Located::Immutable(i) ==> i < self.spec_immutables().len(),
        ensures
            *r == self.spec_segment(at),
            r.wf(),
    {
        match at {
            Located::Mutable => {
                assert(self.segments()[self.segments().len() - 1] == self.mutable);
                &self.mutable
            },
            Located::Immutable(i) => {
                assert(self.segments()[i as int] == self.immutables@[i as int]);
                &self.immutables[i]
            },
        }
    }

    /// Stores `value` under `key` in the mutable segment: returns the line to
    /// append to the mutable file. The key then has that value and every
    /// other key keeps its own.
    pub fn set(&mut self, key: String, value: String) -> (r: Result<String, Error>)
        requires
            old(self).wf(),
        ensures
            final(self).wf(),
            final(self).spec_immutables() == old(self).spec_immutables(),
            final(self).spec_next_id() == old(self).spec_next_id(),
            final(self).spec_dir() == old(self).spec_dir(),
            final(self).spec_mutable().spec_path() == old(self).spec_mutable().spec_path(),
            match r {
                Ok(line) => {
                    &&& line@ == record_line(set_record(key@, value@))
                    &&& final(self).spec_mutable().log() == old(self).spec_mutable().log().push(
                        Logged { text: line@, record: set_record(key@, value@) },
                    )
                    &&& final(self).spec_mutable().mark(key@) == Some(
                        Mark::Exist(old(self).spec_mutable().log().len()),
                    )
                    &&& final(self).value(key@) == Some(value@)
                    &&& forall|k: Seq<char>| k != key@ ==> #[trigger] final(self).value(k) == old(self).value(k)
                    &&& forall|k: Seq<char>|
                        k != key@ ==> #[trigger] final(self).spec_mutable().mark(k) == old(self).spec_mutable().mark(k)
                },
                Err(e) => {
                    &&& e == Error::Unexpected
                    &&& *final(self) == *old(self)
                    &&& log_size(old(self).spec_mutable().log()) + byte_len(
                        record_line(set_record(key@, value@)),
                    ) > u64::MAX
                },
            },
    {
        assert(self.segments()[self.segments().len() - 1] == self.mutable);
        let ghost old_files = *self;
        let ghost key_v = key@;
        let r = self.mutable.set(key, value);
        proof {
            self.lemma_replace_mutable(old_files, key_v);
        }
        r
    }

    /// Removes `key` through the mutable segment, whose index must hold it
    /// live: returns the line to append. The key then has no value and every
    /// other key keeps its own.
    pub fn remove(&mut self, key: String) -> (r: Result<String, Error>)
        requires
            old(self).wf(),
        ensures
            final(self).wf(),
            final(self).spec_immutables() == old(self).spec_immutables(),
            final(self).spec_next_id() == old(self).spec_next_id(),
            final(self).spec_dir() == old(self).spec_dir(),
            match r {
                Ok(line) => {
                    &&& old(self).spec_mutable().mark(key@) matches Some(Mark::Exist(_))
                    &&& line@ == record_line(rm_record(key@))
                    &&& final(self).spec_mutable().log() == old(self).spec_mutable().log().push(
                        Logged { text: line@, record: rm_record(key@) },
                    )
                    &&& final(self).spec_mutable().mark(key@) == Some(
                        Mark::Removed(old(self).spec_mutable().log().len()),
                    )
                    &&& final(self).spec_mutable().spec_path() == old(self).spec_mutable().spec_path()
                    &&& final(self).value(key@) is None
                    &&& forall|k: Seq<char>| k != key@ ==> #[trigger] final(self).value(k) == old(self).value(k)
                    &&& forall|k: Seq<char>|
                        k != key@ ==> #[trigger] final(self).spec_mutable().mark(k) == old(self).spec_mutable().mark(k)
                },
                Err(e) => {
                    &&& *final(self) == *old(self)
                    &&& e == Error::RemoveNotExistKey <==> !(old(self).spec_mutable().mark(
                        key@,
                    ) matches Some(Mark::Exist(_)))
                    &&& e == Error::RemoveNotExistKey || e == Error::Unexpected
                    &&& e == Error::Unexpected ==> log_size(old(self).spec_mutable().log()) + byte_len(
                        record_line(rm_record(key@)),
                    ) > u64::MAX
                },
            },
    {
        assert(self.segments()[self.segments().len() - 1] == self.mutable);
        let ghost old_files = *self;
        let ghost key_v = key@;
        let r = self.mutable.remove(key);
        proof {
            self.lemma_replace_mutable(old_files, key_v);
        }
        r
    }

    proof fn lemma_replace_mutable(&self, before: LogFiles, key: Seq<char>)
        requires
            before.wf(),
            self.mutable.wf(),
            self.immutables@ == before.immutables@,
            self.next_id == before.next_id,
            self.mutable.spec_id() == before.mutable.spec_id(),
            forall|k: Seq<char>| k != key ==> self.mutable.mark(k) == before.mutable.mark(k) && self.mutable.value(k) == before.mutable.value(k),
        ensures
            self.wf(),
            self.mutable.mark(key) is Some ==> self.value(key) == self.mutable.value(key),
            forall|k: Seq<char>| k != key ==> #[trigger] self.value(k) == before.value(k),
    {
        assert(self.segments().drop_last() =~= before.segments().drop_last());
        assert forall|i: int| 0 <= i < self.segments().len() implies (
        #[trigger] self.segments()[i]).wf() by {
            if i < self.segments().len() - 1 {
                assert(self.segments()[i] == before.segments()[i]);
            }
        }
        assert forall|i: int, j: int| 0 <= i < j < self.segments().len() implies self.segments()[i].spec_id()
            < self.segments()[j].spec_id() by {
            assert(self.segments()[i].spec_id() == before.segments()[i].spec_id());
            assert(self.segments()[j].spec_id() == before.segments()[j].spec_id());
        }
        assert forall|i: int| 0 <= i < self.segments().len() implies (
        #[trigger] self.segments()[i]).spec_id() < self.spec_next_id() by {
            assert(self.segments()[i].spec_id() == before.segments()[i].spec_id());
            assert(before.segments()[i].spec_id() < before.spec_next_id());
        }
    }

    /// Whether the mutable segment has grown past the compaction threshold.
    pub fn needs_compaction(&self) -> (r: bool)
        requires
            self.wf(),
        ensures
            r == (log_size(self.spec_mutable().log()) > COMPACTION_THRESHOLD),
    {
        assert(self.segments()[self.segments().len() - 1] == self.mutable);
        self.mutable.len() > COMPACTION_THRESHOLD
    }

    /// The path of the next segment file; the counter moves past it, so the
    /// caller must create that file and install it with `rotate`.
    pub fn next_mut_path(&mut self) -> (r: String)
        requires
            old(self).wf(),
            old(self).spec_next_id() < usize::MAX,
        ensures
            final(self).wf(),
            r@ == join_path(old(self).spec_dir(), segment_name(old(self).spec_next_id() as nat)),
            final(self).spec_next_id() == old(self).spec_next_id() + 1,
            final(self).segments() == old(self).segments(),
            final(self).spec_mutable() == old(self).spec_mutable(),
            final(self).spec_immutables() == old(self).spec_immutables(),
            final(self).spec_dir() == old(self).spec_dir(),
    {
        let name = file_name(self.next_id);
        let path = path_in(self.dir_path.as_str(), name.as_str());
        self.next_id = self.next_id + 1;
        proof {
            assert(self.segments() =~= old(self).segments());
            assert forall|i: int| 0 <= i < self.segments().len() implies (
            #[trigger] self.segments()[i]).spec_id() < self.spec_next_id() by {
                assert(old(self).segments()[i].spec_id() < old(self).spec_next_id());
            }
        }
        path
    }

    /// Makes an empty segment the mutable one and the old mutable segment the
    /// newest immutable one. Identifiers stay distinct and below the counter,
    /// and every key keeps its value.
    pub fn rotate(&mut self, fresh: Segment)
        requires
            old(self).wf(),
            fresh.wf(),
            fresh.log().len() == 0,
            old(self).spec_mutable().spec_id() < fresh.spec_id() < old(self).spec_next_id(),
        ensures
            final(self).wf(),
            final(self).spec_mutable() == fresh,
            final(self).spec_immutables() == old(self).spec_immutables().push(
                old(self).spec_mutable(),
            ),
            final(self).spec_next_id() == old(self).spec_next_id(),
            final(self).spec_dir() == old(self).spec_dir(),
            final(self).ids() == old(self).ids().push(fresh.spec_id()),
            forall|k: Seq<char>| #[trigger] final(self).value(k) == old(self).value(k),
    {
        let ghost before = *self;
        let mut old_mutable = fresh;
        std::mem::swap(&mut self.mutable, &mut old_mutable);
        self.immutables.push(old_mutable);
        proof {
            assert(self.segments() =~= before.segments().push(fresh));
            assert(self.segments().drop_last() =~= before.segments());
            assert(self.ids() =~= before.ids().push(fresh.spec_id()));
            assert forall|k: Seq<char>| #[trigger] self.value(k) == before.value(k) by {
                assert(replay_index(fresh.log()) =~= Map::empty());
            }
            assert forall|i: int| 0 <= i < self.segments().len() implies (
            #[trigger] self.segments()[i]).wf() by {
                if i < self.segments().len() - 1 {
                    assert(self.segments()[i] == before.segments()[i]);
                }
            }
            assert forall|i: int, j: int| 0 <= i < j < self.segments().len() implies self.segments()[i].spec_id()
                < self.segments()[j].spec_id() by {
                if j < self.segments().len() - 1 {
                    assert(self.segments()[i] == before.segments()[i]);
                    assert(self.segments()[j] == before.segments()[j]);
                } else {
                    assert(self.segments()[i] == before.segments()[i]);
                    assert(before.segments()[i].spec_id() <= before.mutable.spec_id()) by {
                        if i < before.segments().len() - 1 {
                            assert(before.segments()[before.segments().len() - 1] == before.mutable);
                        }
                    }
                }
            }
            assert forall|i: int| 0 <= i < self.segments().len() implies (
            #[trigger] self.segments()[i]).spec_id() < self.spec_next_id() by {
                if i < self.segments().len() - 1 {
                    assert(self.segments()[i] == before.segments()[i]);
                }
            }
        }
    }

    /// Puts a rebuilt copy of the newest immutable segment in its place and
    /// hands back the old one. Where the copy knows the same keys with the
    /// same values, as a compacted copy does, every key keeps its value.
    pub fn replace_last_immutable(&mut self, seg: Segment) -> (r: Segment)
        requires
            old(self).wf(),
            old(self).spec_immutables().len() > 0,
            seg.wf(),
            seg.spec_id() == old(self).spec_immutables().last().spec_id(),
            seg.spec_path() == old(self).spec_immutables().last().spec_path(),
        ensures
            final(self).wf(),
            r == old(self).spec_immutables().last(),
            final(self).spec_immutables() == old(self).spec_immutables().drop_last().push(seg),
            final(self).spec_mutable() == old(self).spec_mutable(),
            final(self).spec_next_id() == old(self).spec_next_id(),
            final(self).spec_dir() == old(self).spec_dir(),
            (forall|k: Seq<char>|
                #[trigger] seg.mark(k) is Some == r.mark(k) is Some && seg.value(k) == r.value(k))
                ==> forall|k: Seq<char>| #[trigger] final(self).value(k) == old(self).value(k),
    {
        let ghost before = *self;
        let old_seg = self.immutables.pop().unwrap();
        self.immutables.push(seg);
        proof {
            assert(self.immutables@ =~= before.immutables@.drop_last().push(seg));
            let n = self.segments().len();
            assert forall|i: int| 0 <= i < n implies (#[trigger] self.segments()[i]).wf() by {
                if i != n - 2 {
                    assert(self.segments()[i] == before.segments()[i]);
                }
            }
            assert forall|i: int, j: int| 0 <= i < j < n implies self.segments()[i].spec_id()
                < self.segments()[j].spec_id() by {
                assert(self.segments()[i].spec_id() == before.segments()[i].spec_id());
                assert(self.segments()[j].spec_id() == before.segments()[j].spec_id());
            }
            assert forall|i: int| 0 <= i < n implies (#[trigger] self.segments()[i]).spec_id()
                < self.spec_next_id() by {
                assert(self.segments()[i].spec_id() == before.segments()[i].spec_id());
            }
            if forall|k: Seq<char>|
                #[trigger] seg.mark(k) is Some == old_seg.mark(k) is Some && seg.value(k)
                    == old_seg.value(k) {
                assert forall|k: Seq<char>| #[trigger] self.value(k) == before.value(k) by {
                    let a = self.segments();
                    let b = before.segments();
                    assert(a.drop_last().drop_last() =~= b.drop_last().drop_last());
                    assert(a.drop_last().last() == seg);
                    assert(b.drop_last().last() == old_seg);
                    assert(a.last() == b.last());
                    assert(seg.mark(k) is Some == old_seg.mark(k) is Some);
                    assert(newest_value(a.drop_last(), k) == newest_value(b.drop_last(), k));
                }
            }
        }
        old_seg
    }
}

/// Logs that hold the same records, line for line, replay to the same index
/// and give every key the same value.
pub proof fn lemma_same_records_replay(a: Seq<Logged>, b: Seq<Logged>)
    requires
        records_of(a) == records_of(b),
    ensures
        replay_index(a) == replay_index(b),
        forall|k: Seq<char>| #[trigger] lookup(a, k) == lookup(b, k),
    decreases a.len(),
{
    assert(records_of(a).len() == a.len());
    assert(records_of(b).len() == b.len());
    assert(a.len() == b.len());
    assert forall|i: int| 0 <= i < a.len() implies #[trigger] a[i].record == b[i].record by {
        assert(records_of(a)[i] == a[i].record);
        assert(records_of(b)[i] == b[i].record);
    }
    if a.len() > 0 {
        assert(records_of(a.drop_last()) =~= records_of(b.drop_last()));
        lemma_same_records_replay(a.drop_last(), b.drop_last());
    }
    assert forall|k: Seq<char>| #[trigger] lookup(a, k) == lookup(b, k) by {
        if replay_index(a).contains_key(k) {
            crate::segment::lemma_replay_marks(a, k);
        }
    }
}

proof fn lemma_newest_same(a: Seq<Segment>, b: Seq<Segment>, k: Seq<char>)
    requires
        a.len() == b.len(),
        forall|i: int| 0 <= i < a.len() ==> records(#[trigger] a[i]) == records(b[i]),
    ensures
        newest_value(a, k) == newest_value(b, k),
    decreases a.len(),
{
    if a.len() > 0 {
        lemma_same_records_replay(a.last().log(), b.last().log());
        assert forall|i: int| 0 <= i < a.len() - 1 implies records(
            #[trigger] a.drop_last()[i],
        ) == records(b.drop_last()[i]) by {
            assert(a.drop_last()[i] == a[i]);
            assert(b.drop_last()[i] == b[i]);
        }
        lemma_newest_same(a.drop_last(), b.drop_last(), k);
    }
}

/// `b` is what replaying the file of `a` gives: as many lines, and each line
/// holds the record that `a`'s line reads as. `Segment::new` ensures this of
/// the segment it builds from the lines of a file.
pub open spec fn replays(a: Segment, b: Segment) -> bool {
    &&& b.log().len() == a.log().len()
    &&& forall|j: int, rec: crate::codec::Record|
        0 <= j < a.log().len() && #[trigger] crate::segment::reads_as(a.log()[j].text, rec)
            ==> b.log()[j].record == rec
}

/// A segment rebuilt by replaying a well-formed segment's file holds the same
/// records, line for line.
pub proof fn lemma_replay_same_records(a: Segment, b: Segment)
    requires
        a.wf(),
        replays(a, b),
    ensures
        records(a) == records(b),
{
    a.lemma_wf();
    assert forall|j: int| 0 <= j < a.log().len() implies records(a)[j] == records(b)[j] by {
        assert(crate::segment::reads_as(a.log()[j].text, a.log()[j].record));
    }
    assert(records(a) =~= records(b));
}

/// Reopening one segment: a segment that replays the file of a well-formed
/// segment marks every key as it did, live or removed at the same line, and
/// gives every key the same value.
pub proof fn lemma_reopened_segment(a: Segment, b: Segment)
    requires
        a.wf(),
        replays(a, b),
    ensures
        forall|k: Seq<char>| #[trigger] b.mark(k) == a.mark(k),
        forall|k: Seq<char>| #[trigger] b.value(k) == a.value(k),
{
    lemma_replay_same_records(a, b);
    lemma_same_records_replay(b.log(), a.log());
}

/// Recovery: reopening the files of a store gives a store that answers every
/// key as the store that wrote them. Each reopened segment is the replay of
/// the corresponding segment's file, and replay rebuilds the same index, so
/// every key gets the same value.
pub proof fn lemma_recovery(a: &LogFiles, b: &LogFiles)
    requires
        a.wf(),
        a.segments().len() == b.segments().len(),
        forall|i: int|
            0 <= i < a.segments().len() ==> replays(#[trigger] a.segments()[i], b.segments()[i]),
    ensures
        forall|k: Seq<char>| #[trigger] a.value(k) == b.value(k),
{
    assert forall|i: int| 0 <= i < a.segments().len() implies records(#[trigger] a.segments()[i])
        == records(b.segments()[i]) by {
        lemma_replay_same_records(a.segments()[i], b.segments()[i]);
    }
    assert forall|k: Seq<char>| #[trigger] a.value(k) == b.value(k) by {
        lemma_newest_same(a.segments(), b.segments(), k);
    }
}

} // verus!
