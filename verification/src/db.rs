//! What the library decides around the cr-sqlite database: which version of
//! a peer it has merged, what version a merge reaches, and whether a peer
//! asking for changes needs any.
use vstd::prelude::*;
use crate::proto::codec::{Change, ChangeView, changes_view};

verus! {

/// Tag of the tracked-peers rows that cover the whole database.
pub const CRSQL_TRACKED_TAG_WHOLE_DATABASE: i32 = 0;

/// Event of the tracked-peers rows that record changes received.
pub const CRSQL_TRACKED_EVENT_RECEIVE: i32 = 0;

/// The version of a peer's database merged so far, from the row of the
/// tracked-peers query: none, or a `NULL` maximum, means nothing was merged.
pub open spec fn spec_tracked_version(row: Option<Option<i64>>) -> i64 {
    match row {
        Some(Some(v)) => v,
        _ => 0,
    }
}

pub fn tracked_version(row: Option<Option<i64>>) -> (v: i64)
    ensures
        v == spec_tracked_version(row),
{
    match row {
        Some(Some(v)) => v,
        _ => 0,
    }
}

/// The greatest database version among changes, and 0 when there is none
/// greater than 0.
pub open spec fn max_db_version(cs: Seq<ChangeView>) -> i64
    decreases cs.len(),
{
    if cs.len() == 0 {
        0
    } else {
        let m = max_db_version(cs.drop_last());
        if cs.last().db_version > m {
            cs.last().db_version
        } else {
            m
        }
    }
}

/// The version that merging `changes` records for their peer: the greatest
/// version among them, and never less than 0.
pub fn merged_version(changes: &Vec<Change>) -> (v: i64)
    ensures
        v == max_db_version(changes_view(changes@)),
{
    let ghost cs = changes_view(changes@);
    let mut max: i64 = 0;
    let mut i: usize = 0;
    while i < changes.len()
        invariant
            cs == changes_view(changes@),
            i <= changes@.len(),
            max == max_db_version(cs.take(i as int)),
        decreases changes@.len() - i,
    {
        proof {
            assert(cs.take(i as int + 1).drop_last() =~= cs.take(i as int));
            assert(cs.take(i as int + 1).last() == changes@[i as int]@);
        }
        if changes[i].db_version > max {
            max = changes[i].db_version;
        }
        i = i + 1;
    }
    assert(cs.take(changes@.len() as int) =~= cs);
    max
}

/// The merged version is at least 0 and at least the version of each
/// change, and it is 0 or the version of one of them.
pub proof fn lemma_max_db_version(cs: Seq<ChangeView>)
    ensures
        max_db_version(cs) >= 0,
        forall|i: int| 0 <= i < cs.len() ==> max_db_version(cs) >= #[trigger] cs[i].db_version,
        max_db_version(cs) == 0 || exists|i: int|
            0 <= i < cs.len() && max_db_version(cs) == #[trigger] cs[i].db_version,
    decreases cs.len(),
{
    if cs.len() > 0 {
        let t = cs.drop_last();
        lemma_max_db_version(t);
        assert forall|i: int| 0 <= i < cs.len() implies max_db_version(cs) >= #[trigger] cs[i].db_version by {
            if i < t.len() {
                assert(cs[i] == t[i]);
            }
        }
        if max_db_version(cs) != 0 && max_db_version(cs) != cs.last().db_version {
            let i = choose|i: int| 0 <= i < t.len() && max_db_version(t) == #[trigger] t[i].db_version;
            assert(cs[i] == t[i]);
        }
        if max_db_version(cs) == cs.last().db_version {
            assert(cs[cs.len() - 1] == cs.last());
        }
    }
}

/// Whether a peer that has merged up to `since_db_version` of a database at
/// `db_version` is missing changes of it.
pub open spec fn spec_wants_changes(since_db_version: i64, db_version: i64) -> bool {
    since_db_version < db_version
}

pub fn wants_changes(since_db_version: i64, db_version: i64) -> (b: bool)
    ensures
        b == spec_wants_changes(since_db_version, db_version),
        b <==> since_db_version < db_version,
{
    since_db_version < db_version
}

/// A requester is sent changes exactly when its version is below the
/// database's, a first pull from version 0 included, and never when it has
/// the database's version or a later one.
pub proof fn lemma_wants_changes(since_db_version: i64, db_version: i64)
    ensures
        spec_wants_changes(since_db_version, db_version) <==> since_db_version < db_version,
        since_db_version < db_version ==> spec_wants_changes(since_db_version, db_version),
        db_version > 0 ==> spec_wants_changes(0, db_version),
        since_db_version >= db_version ==> !spec_wants_changes(since_db_version, db_version),
{
}

} // verus!
