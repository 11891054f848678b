//! Laying out a store from the segment files found in its directory.

use crate::naming::{file_name, join_path, path_in, segment_name};
use vstd::prelude::*;
use vstd::seq_lib::{to_multiset_build, to_multiset_contains, to_multiset_insert, to_multiset_len};

verus! {

pub open spec fn ids_rise(s: Seq<(usize, String)>) -> bool {
    forall|i: int, j: int| 0 <= i < j < s.len() ==> s[i].0 < s[j].0
}

pub open spec fn has_shared_id(s: Seq<(usize, String)>) -> bool {
    exists|i: int, j: int| 0 <= i < j < s.len() && s[i].0 == s[j].0
}

/// Orders (identifier, path) pairs by identifier. `None` exactly when two
/// pairs share an identifier.
pub fn sort_file_ids(pairs: &Vec<(usize, String)>) -> (r: Option<Vec<(usize, String)>>)
    ensures
        match r {
            Some(out) => out@.to_multiset() == pairs@.to_multiset() && ids_rise(out@)
                && !has_shared_id(pairs@),
            None => has_shared_id(pairs@),
        },
        !has_shared_id(pairs@) ==> r is Some,
{
    let mut out: Vec<(usize, String)> = Vec::new();
    let mut i: usize = 0;
    proof {
        assert(pairs@.take(0) =~= out@);
    }
    while i < pairs.len()
        invariant
            0 <= i <= pairs@.len(),
            ids_rise(out@),
            out@.to_multiset() == pairs@.take(i as int).to_multiset(),
            forall|a: int, b: int| 0 <= a < b < i ==> pairs@[a].0 != pairs@[b].0,
        decreases pairs@.len() - i,
    {
        let id = pairs[i].0;
        let mut p: usize = 0;
        while p < out.len() && out[p].0 < id
            invariant
                0 <= p <= out@.len(),
                forall|q: int| 0 <= q < p ==> out@[q].0 < id,
            decreases out@.len() - p,
        {
            p += 1;
        }
        if p < out.len() && out[p].0 == id {
            proof {
                to_multiset_contains(out@, out@[p as int]);
                to_multiset_contains(pairs@.take(i as int), out@[p as int]);
                let a = choose|a: int| 0 <= a < i && pairs@.take(i as int)[a] == out@[p as int];
                assert(pairs@[a] == pairs@.take(i as int)[a]);
                assert(has_shared_id(pairs@)) by {
                    assert(0 <= a < i as int && pairs@[a].0 == pairs@[i as int].0);
                }
            }
            return None;
        }
        let entry = (id, pairs[i].1.clone());
        proof {
            assert(entry == pairs@[i as int]);
            assert forall|a: int| 0 <= a < i implies pairs@[a].0 != pairs@[i as int].0 by {
                assert(pairs@.take(i as int)[a] == pairs@[a]);
                to_multiset_contains(pairs@.take(i as int), pairs@[a]);
                to_multiset_contains(out@, pairs@[a]);
                let q = choose|q: int| 0 <= q < out@.len() && out@[q] == pairs@[a];
                if q >= p {
                    assert(out@[p as int].0 <= out@[q].0);
                }
            }
            to_multiset_insert(out@, p as int, entry);
            to_multiset_build(pairs@.take(i as int), entry);
            assert(pairs@.take(i + 1) =~= pairs@.take(i as int).push(entry));
        }
        out.insert(p, entry);
        i += 1;
    }
    proof {
        assert(pairs@.take(pairs@.len() as int) =~= pairs@);
    }
    Some(out)
}

/// How to open a store: the mutable segment's identifier and path, whether
/// that file must first be created, the immutable segments oldest first, and
/// the identifier the next segment gets.
pub struct OpenPlan {
    pub create_mutable: bool,
    pub mutable: (usize, String),
    pub immutables: Vec<(usize, String)>,
    pub next_id: usize,
}

/// Why a directory cannot be opened as a store.
#[derive(Debug, Clone, Copy, PartialEq, Eq)]
pub enum LayoutError {
    /// Two file names carry the same identifier.
    DuplicateId,
    /// The newest segment has the largest identifier there is.
    IdExhausted,
}

/// Lays out a store from the (identifier, path) pairs of the segment files in
/// `dir`. With no files, the mutable segment is a new `data_0`. Otherwise the
/// largest identifier is the mutable segment, the others are immutable in
/// rising order, and the next identifier is one past the largest.
pub fn plan_open(dir: &str, pairs: &Vec<(usize, String)>) -> (r: Result<OpenPlan, LayoutError>)
    ensures
        match r {
            Ok(plan) => if pairs@.len() == 0 {
                &&& plan.create_mutable
                &&& plan.mutable.0 == 0
                &&& plan.mutable.1@ == join_path(dir@, segment_name(0))
                &&& plan.immutables@.len() == 0
                &&& plan.next_id == 1
            } else {
                &&& !plan.create_mutable
                &&& plan.immutables@.push(plan.mutable).to_multiset() == pairs@.to_multiset()
                &&& ids_rise(plan.immutables@.push(plan.mutable))
                &&& plan.next_id == plan.mutable.0 + 1
            },
            Err(e) => {
                &&& e == LayoutError::DuplicateId <==> has_shared_id(pairs@)
                &&& e == LayoutError::IdExhausted ==> exists|i: int|
                    0 <= i < pairs@.len() && pairs@[i].0 == usize::MAX
            },
        },
        !has_shared_id(pairs@) && (forall|i: int| 0 <= i < pairs@.len() ==> pairs@[i].0 < usize::MAX)
            ==> r is Ok,
{
    let mut sorted = match sort_file_ids(pairs) {
        Some(s) => s,
        None => return Err(LayoutError::DuplicateId),
    };
    proof {
        to_multiset_len(sorted@);
        to_multiset_len(pairs@);
    }
    if sorted.len() == 0 {
        let name = file_name(0);
        let path = path_in(dir, name.as_str());
        return Ok(OpenPlan { create_mutable: true, mutable: (0, path), immutables: Vec::new(), next_id: 1 });
    }
    let ghost all = sorted@;
    let last = sorted.pop().unwrap();
    proof {
        assert(sorted@.push(last) =~= all);
        assert(all.to_multiset() == pairs@.to_multiset());
        to_multiset_contains(all, last);
        to_multiset_contains(pairs@, last);
    }
    if last.0 == usize::MAX {
        return Err(LayoutError::IdExhausted);
    }
    let next_id = last.0 + 1;
    Ok(OpenPlan { create_mutable: false, mutable: last, immutables: sorted, next_id })
}

} // verus!
