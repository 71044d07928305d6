//! Decisions of pulling changes from peers: when to ask a peer for changes,
//! what to ask it, and which answers to merge.
use vstd::prelude::*;
use crate::error::{Error, is_other, other_err};
use crate::ident::{Conclave, Peer};
use crate::db::max_db_version;
use crate::proto::codec::{Change, ChangeView, NodeStatus, Request, Response, ResponseView, changes_view};

verus! {

/// Where a pull from a peer stands once the version of the peer's database
/// merged so far is known.
#[derive(Debug, Clone, Copy, PartialEq, Eq)]
pub enum PullStep {
    /// Nothing to fetch: the pull is over, with whether anything was merged
    /// and the version merged.
    Done { merged: bool, version: i64 },
    /// The peer has newer changes: send it this request.
    Fetch { request: Request },
}

/// The step after learning that `tracked_version` of the peer's database is
/// merged, when the peer publishes `peer_status`.
pub open spec fn spec_start_pull(peer_status: NodeStatus, tracked_version: i64) -> PullStep {
    if peer_status.db_version <= tracked_version {
        PullStep::Done { merged: false, version: tracked_version }
    } else {
        PullStep::Fetch { request: Request::Changes { since_db_version: tracked_version } }
    }
}

pub fn start_pull(peer_status: &NodeStatus, tracked_version: i64) -> (s: PullStep)
    ensures
        s == spec_start_pull(*peer_status, tracked_version),
        peer_status.db_version > tracked_version ==> s == (PullStep::Fetch {
            request: Request::Changes { since_db_version: tracked_version },
        }),
        peer_status.db_version <= tracked_version ==> s == (PullStep::Done {
            merged: false,
            version: tracked_version,
        }),
{
    if peer_status.db_version <= tracked_version {
        PullStep::Done { merged: false, version: tracked_version }
    } else {
        PullStep::Fetch { request: Request::Changes { since_db_version: tracked_version } }
    }
}

/// A pull asks the peer for exactly the changes not merged yet: when the
/// peer publishes a version above the tracked one, the request asks for
/// every change newer than the tracked version, so no version between the
/// tracked one and the peer's is skipped; otherwise nothing is asked and the
/// tracked version stands.
pub proof fn lemma_start_pull_asks_all_missing(peer_status: NodeStatus, tracked_version: i64, v: i64)
    ensures
        peer_status.db_version > tracked_version ==> spec_start_pull(peer_status, tracked_version)
            == (PullStep::Fetch { request: Request::Changes { since_db_version: tracked_version } }),
        peer_status.db_version > tracked_version && tracked_version < v <= peer_status.db_version
            ==> (spec_start_pull(peer_status, tracked_version) matches PullStep::Fetch {
            request: Request::Changes { since_db_version },
        } && v > since_db_version),
        peer_status.db_version <= tracked_version ==> spec_start_pull(peer_status, tracked_version)
            == (PullStep::Done { merged: false, version: tracked_version }),
{
}

/// Changes answered for site `answered_site_id` may be merged as the
/// changes of the peer that publishes `peer_status` only when the sites
/// are the same.
pub fn check_site_id(peer_status: &NodeStatus, answered_site_id: &[u8]) -> (r: Result<(), Error>)
    ensures
        r is Ok <==> answered_site_id@ == peer_status.site_id@,
        r matches Err(e) ==> is_other(e, "mismatched site_id"@),
{
    let expected = peer_status.site_id.as_slice();
    if expected.len() != answered_site_id.len() {
        return Err(other_err("mismatched site_id"));
    }
    let mut i: usize = 0;
    while i < expected.len()
        invariant
            expected@ == peer_status.site_id@,
            expected@.len() == answered_site_id@.len(),
            i <= expected@.len(),
            forall|j: int| 0 <= j < i ==> expected@[j] == answered_site_id@[j],
        decreases expected@.len() - i,
    {
        if expected[i] != answered_site_id[i] {
            return Err(other_err("mismatched site_id"));
        }
        i = i + 1;
    }
    assert(expected@ =~= answered_site_id@);
    Ok(())
}

/// Once the changes merged from a peer reach the version it publishes, and
/// the merged version is recorded as the greater of the old and the new,
/// pulling again from the same status fetches nothing.
pub proof fn lemma_pull_settles(peer_status: NodeStatus, tracked_version: i64, merged: Seq<ChangeView>)
    requires
        exists|i: int| 0 <= i < merged.len() && merged[i].db_version >= peer_status.db_version,
    ensures
        ({
            let m = max_db_version(merged);
            let after = if m > tracked_version {
                m
            } else {
                tracked_version
            };
            spec_start_pull(peer_status, after) == (PullStep::Done { merged: false, version: after })
        }),
{
    crate::db::lemma_max_db_version(merged);
    let i = choose|i: int| 0 <= i < merged.len() && merged[i].db_version >= peer_status.db_version;
    assert(max_db_version(merged) >= merged[i].db_version);
}

/// The peer named `name`, which must be known.
pub fn known_peer<'a>(conclave: &'a Conclave, name: &str) -> (r: Result<&'a Peer, Error>)
    ensures
        r is Ok <==> conclave@.contains_key(name@),
        r matches Ok(p) ==> p@ == conclave@[name@],
        r matches Err(e) ==> is_other(e, "unknown peer"@),
{
    match conclave.peer(name) {
        Some(p) => Ok(p),
        None => Err(other_err("unknown peer")),
    }
}

/// The status a peer published, which must be there to pull from it.
pub fn published_status(status: Option<NodeStatus>) -> (r: Result<NodeStatus, Error>)
    ensures
        r is Ok <==> status is Some,
        r matches Ok(s) ==> status == Some(s),
        r matches Err(e) ==> is_other(e, "peer missing status"@),
{
    match status {
        Some(s) => Ok(s),
        None => Err(other_err("peer missing status")),
    }
}

/// The name and DHT key of each known peer.
pub fn remotes(conclave: &Conclave) -> (r: Vec<(String, String)>)
    ensures
        r@.len() == conclave@.len(),
        forall|i: int| 0 <= i < r@.len() ==> #[trigger] conclave@.contains_key(r@[i].0@)
            && conclave@[r@[i].0@].dht_public_key == r@[i].1@,
        forall|i: int, j: int| 0 <= i < j < r@.len() ==> r@[i].0@ != r@[j].0@,
{
    let peers = conclave.peers();
    let mut r: Vec<(String, String)> = Vec::new();
    let mut i: usize = 0;
    while i < peers.len()
        invariant
            i <= peers@.len(),
            r@.len() == i,
            forall|k: int| 0 <= k < i ==> #[trigger] r@[k].0@ == peers@[k]@.name
                && r@[k].1@ == peers@[k]@.dht_public_key,
        decreases peers@.len() - i,
    {
        let p = &peers[i];
        r.push((p.name().to_owned(), p.dht_key().to_owned()));
        i = i + 1;
    }
    proof {
        assert forall|a: int, b: int| 0 <= a < b < r@.len() implies r@[a].0@ != r@[b].0@ by {
            assert(crate::ident::peers_view(peers@)[a] == peers@[a]@);
            assert(crate::ident::peers_view(peers@)[b] == peers@[b]@);
        }
    }
    r
}

/// How a node answers a request, once it knows its database's site id and
/// version.
#[derive(Debug)]
pub enum Reply {
    /// Answer with this response.
    Ready(Response),
    /// Answer with the changes of site `site_id` newer than `since`, which
    /// the database must be asked for.
    Changes { site_id: Vec<u8>, since: i64 },
}

/// The reply to `request` from the database of site `site_id` at
/// `db_version`: its status, or its changes newer than the version the
/// requester has, none when it has them all.
pub fn respond(request: Request, site_id: Vec<u8>, db_version: i64) -> (r: Reply)
    ensures
        match request {
            Request::Status => r matches Reply::Ready(resp) && resp@ == (ResponseView::Status {
                site_id: site_id@,
                db_version,
            }),
            Request::Changes { since_db_version } => if since_db_version >= db_version {
                r matches Reply::Ready(resp) && resp@ == (ResponseView::Changes {
                    site_id: site_id@,
                    changes: Seq::empty(),
                })
            } else {
                r matches Reply::Changes { site_id: s, since } && s@ == site_id@ && since
                    == since_db_version
            },
        },
{
    match request {
        Request::Status => Reply::Ready(Response::Status { site_id, db_version }),
        Request::Changes { since_db_version } => {
            if since_db_version >= db_version {
                let r = Response::Changes { site_id, changes: Vec::new() };
                assert(changes_view(Seq::<Change>::empty()) =~= Seq::empty());
                Reply::Ready(r)
            } else {
                Reply::Changes { site_id, since: since_db_version }
            }
        },
    }
}

} // verus!
